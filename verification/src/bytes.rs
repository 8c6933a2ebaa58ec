//! Byte-sequence search helpers (UTF-8 source text handled as bytes).

use vstd::prelude::*;

verus! {

/// `p` occurs in `s` starting at byte `i`.
pub open spec fn bytes_at(s: Seq<u8>, p: Seq<u8>, i: int) -> bool {
    0 <= i && i + p.len() <= s.len() && s.subrange(i, i + p.len()) == p
}

/// `p` occurs somewhere in `s`.
pub open spec fn bytes_contain(s: Seq<u8>, p: Seq<u8>) -> bool {
    exists|i: int| bytes_at(s, p, i)
}

/// Whether `p` occurs in `s` at byte `i`.
pub fn bytes_at_exec(s: &[u8], p: &[u8], i: usize) -> (r: bool)
    ensures
        r == bytes_at(s@, p@, i as int),
{
    if i > s.len() || p.len() > s.len() - i {
        return false;
    }
    let mut k: usize = 0;
    while k < p.len()
        invariant
            i + p.len() <= s.len(),
            k <= p.len(),
            forall|j: int| 0 <= j < k ==> s@[i + j] == p@[j],
        decreases p.len() - k,
    {
        if s[i + k] != p[k] {
            proof {
                assert(s@.subrange(i as int, i + p.len())[k as int] != p@[k as int]);
            }
            return false;
        }
        k = k + 1;
    }
    proof {
        assert(s@.subrange(i as int, i + p.len()) =~= p@);
    }
    true
}

/// First byte index at or after `from` where `p` occurs in `s`.
pub fn find_bytes_from(s: &[u8], p: &[u8], from: usize) -> (r: Option<usize>)
    ensures
        match r {
            Some(i) => from <= i && bytes_at(s@, p@, i as int) && forall|j: int|
                from <= j < i ==> !bytes_at(s@, p@, j),
            None => forall|j: int| from <= j ==> !bytes_at(s@, p@, j),
        },
{
    if from > s.len() {
        return None;
    }
    let mut i = from;
    while i <= s.len()
        invariant
            from <= i <= s.len() + 1,
            forall|j: int| from <= j < i ==> !bytes_at(s@, p@, j),
        decreases s.len() + 1 - i,
    {
        if bytes_at_exec(s, p, i) {
            return Some(i);
        }
        if i == s.len() {
            return None;
        }
        i = i + 1;
    }
    None
}

/// Whether `p` occurs in `s`.
pub fn bytes_contain_exec(s: &[u8], p: &[u8]) -> (r: bool)
    ensures
        r == bytes_contain(s@, p@),
{
    match find_bytes_from(s, p, 0) {
        Some(_) => true,
        None => false,
    }
}

/// Last index `i < end` with `s[i] == b`.
pub fn rfind_byte(s: &[u8], b: u8, end: usize) -> (r: Option<usize>)
    requires
        end <= s.len(),
    ensures
        match r {
            Some(i) => i < end && s@[i as int] == b && forall|j: int| i < j < end ==> s@[j] != b,
            None => forall|j: int| 0 <= j < end ==> s@[j] != b,
        },
{
    let mut k = end;
    while k > 0
        invariant
            k <= end <= s.len(),
            forall|j: int| k <= j < end ==> s@[j] != b,
        decreases k,
    {
        if s[k - 1] == b {
            return Some(k - 1);
        }
        k = k - 1;
    }
    None
}

/// The bytes of `s[a..b]`.
pub fn byte_slice(s: &[u8], a: usize, b: usize) -> (r: Vec<u8>)
    requires
        a <= b <= s.len(),
    ensures
        r@ == s@.subrange(a as int, b as int),
{
    let mut r: Vec<u8> = Vec::new();
    let mut i = a;
    while i < b
        invariant
            a <= i <= b <= s.len(),
            r@ == s@.subrange(a as int, i as int),
        decreases b - i,
    {
        r.push(s[i]);
        proof {
            assert(s@.subrange(a as int, i + 1) =~= s@.subrange(a as int, i as int).push(s@[i as int]));
        }
        i = i + 1;
    }
    r
}

} // verus!
