//! Rename support: where a RouteId or a component field occurs in source
//! text (byte spans), which chunks a set of edits touches, and the causal
//! chain id of a rename.

use vstd::prelude::*;
use crate::bytes::{bytes_at, find_bytes_from};
use crate::order::{insert_sorted_unique, strictly_sorted, texts};
use crate::text::{from_chars, push_str, to_chars};

verus! {

/// Greedy occurrences of `p` in `s` from byte `k` on: at each match the scan
/// resumes `step` bytes later, elsewhere one byte later.
pub open spec fn occ(s: Seq<u8>, p: Seq<u8>, k: int, step: int) -> Seq<int>
    decreases s.len() - k,
{
    if p.len() == 0 || step <= 0 || k < 0 || k + p.len() > s.len() {
        Seq::empty()
    } else if bytes_at(s, p, k) {
        if k + step > s.len() {
            seq![k]
        } else {
            seq![k] + occ(s, p, k + step, step)
        }
    } else {
        occ(s, p, k + 1, step)
    }
}

/// The first occurrence of `p` in `s` at or after byte `k`.
pub open spec fn first_from(s: Seq<u8>, p: Seq<u8>, k: int) -> Option<int>
    decreases s.len() + 1 - k,
{
    if k < 0 || k + p.len() > s.len() {
        None
    } else if bytes_at(s, p, k) {
        Some(k)
    } else {
        first_from(s, p, k + 1)
    }
}

/// The UTF-8 bytes of a text.
pub open spec fn utf8(s: Seq<char>) -> Seq<u8> {
    vstd::utf8::encode_utf8(s)
}

proof fn lemma_occ_skip(s: Seq<u8>, p: Seq<u8>, k: int, i: int, step: int)
    requires
        0 <= k <= i,
        forall|j: int| k <= j < i ==> !bytes_at(s, p, j),
    ensures
        occ(s, p, k, step) == occ(s, p, i, step),
    decreases i - k,
{
    if k < i {
        lemma_occ_skip(s, p, k + 1, i, step);
        if !(p.len() == 0 || step <= 0 || k + p.len() > s.len()) {
            assert(!bytes_at(s, p, k));
        } else if k + 1 + p.len() > s.len() || p.len() == 0 || step <= 0 {
            lemma_occ_empty_after(s, p, i, step);
        }
    }
}

proof fn lemma_occ_empty_after(s: Seq<u8>, p: Seq<u8>, i: int, step: int)
    requires
        p.len() == 0 || step <= 0 || i + p.len() > s.len(),
    ensures
        occ(s, p, i, step) == Seq::<int>::empty(),
{
}

proof fn lemma_occ_none(s: Seq<u8>, p: Seq<u8>, k: int, step: int)
    requires
        0 <= k,
        forall|j: int| k <= j ==> !bytes_at(s, p, j),
    ensures
        occ(s, p, k, step) == Seq::<int>::empty(),
    decreases s.len() + 1 - k,
{
    if k + p.len() <= s.len() && p.len() > 0 && step > 0 {
        assert(!bytes_at(s, p, k));
        lemma_occ_none(s, p, k + 1, step);
    }
}

proof fn lemma_first_from(s: Seq<u8>, p: Seq<u8>, k: int, r: Option<int>)
    requires
        0 <= k,
        match r {
            Some(i) => k <= i && bytes_at(s, p, i) && forall|j: int| k <= j < i ==> !bytes_at(s, p, j),
            None => forall|j: int| k <= j ==> !bytes_at(s, p, j),
        },
    ensures
        first_from(s, p, k) == r,
    decreases s.len() + 1 - k,
{
    if k + p.len() <= s.len() {
        if r != Some(k) {
            assert(!bytes_at(s, p, k));
            lemma_first_from(s, p, k + 1, r);
        }
    } else {
        if let Some(i) = r {
            assert(bytes_at(s, p, i));
        }
    }
}

/// Strictly increasing.
pub open spec fn increasing(v: Seq<usize>) -> bool {
    forall|a: int, b: int| 0 <= a < b < v.len() ==> v[a] < v[b]
}

/// Insert `x` into a strictly increasing vector, keeping it so (a no-op
/// when `x` is there).
fn insert_increasing(v: &mut Vec<usize>, x: usize)
    requires
        increasing(old(v)@),
    ensures
        increasing(final(v)@),
        final(v)@.to_set() == old(v)@.to_set().insert(x),
{
    let ghost old_v = v@;
    let mut i: usize = 0;
    while i < v.len() && v[i] < x
        invariant
            v@ == old_v,
            i <= v.len(),
            forall|j: int| 0 <= j < i ==> v@[j] < x,
        decreases v.len() - i,
    {
        i = i + 1;
    }
    if i < v.len() && v[i] == x {
        proof {
            assert(v@.to_set().insert(x) =~= v@.to_set());
        }
        return;
    }
    v.insert(i, x);
    proof {
        assert(v@ =~= old_v.insert(i as int, x));
        assert forall|e: usize| v@.to_set().contains(e) <==> old_v.to_set().insert(x).contains(e) by {
            if v@.to_set().contains(e) {
                let k = choose|k: int| 0 <= k < v@.len() && v@[k] == e;
                if k < i {
                    assert(old_v[k] == e);
                } else if k > i {
                    assert(old_v[k - 1] == e);
                }
            }
            if old_v.to_set().contains(e) && e != x {
                let k = choose|k: int| 0 <= k < old_v.len() && old_v[k] == e;
                if k < i {
                    assert(v@[k] == e);
                } else {
                    assert(v@[k + 1] == e);
                }
            }
            if e == x {
                assert(v@[i as int] == e);
            }
        }
        assert(v@.to_set() =~= old_v.to_set().insert(x));
    }
}

/// An ASCII letter or digit.
pub open spec fn alnum_byte(b: u8) -> bool {
    (0x30 <= b <= 0x39) || (0x41 <= b <= 0x5a) || (0x61 <= b <= 0x7a)
}

/// A byte that continues an identifier: letter, digit, `_` or `$`.
pub open spec fn ident_byte(b: u8) -> bool {
    alnum_byte(b) || b == 0x5f || b == 0x24
}

/// Bytes `start..end` of `t` are not glued to identifier bytes on either side.
pub open spec fn ident_boundary(t: Seq<u8>, start: int, end: int) -> bool {
    (start == 0 || !ident_byte(t[start - 1])) && (end >= t.len() || !ident_byte(t[end]))
}

/// Byte `e` of `t` closes a field reference: the end, `}`, a space or `.`.
pub open spec fn closes_ref(t: Seq<u8>, e: int) -> bool {
    e >= t.len() || t[e] == 0x7d || t[e] == 0x20 || t[e] == 0x2e
}

/// Whether the span `start..end` of `text` stands alone as an identifier:
/// the bytes just before and just after it are not letters, digits, `_` or
/// `$` (or there are none).
pub fn is_ident_boundary(text: &str, start: usize, end: usize) -> (r: bool)
    requires
        start <= utf8(text@).len(),
    ensures
        r == ident_boundary(utf8(text@), start as int, end as int),
{
    let bytes = text.as_bytes();
    boundary_exec(bytes, start, end)
}

fn ident_byte_exec(b: u8) -> (r: bool)
    ensures
        r == ident_byte(b),
{
    (0x30 <= b && b <= 0x39) || (0x41 <= b && b <= 0x5a) || (0x61 <= b && b <= 0x7a) || b == 0x5f || b == 0x24
}

fn boundary_exec(bytes: &[u8], start: usize, end: usize) -> (r: bool)
    requires
        start <= bytes@.len(),
    ensures
        r == ident_boundary(bytes@, start as int, end as int),
{
    let before_ok = start == 0 || !ident_byte_exec(bytes[start - 1]);
    let after_ok = end >= bytes.len() || !ident_byte_exec(bytes[end]);
    before_ok && after_ok
}

/// When a recorded occurrence counts.
#[derive(Debug, Clone, Copy, PartialEq, Eq, Structural)]
pub enum SpanCond {
    /// Always.
    Always,
    /// The span of `n` bytes at the start stands alone as an identifier.
    Boundary,
    /// The byte after the span of `n` bytes closes a field reference.
    Closed,
}

/// Whether a span of `n` bytes starting at `st` counts under `c`.
pub open spec fn cond_ok(c: SpanCond, t: Seq<u8>, st: int, n: int) -> bool {
    match c {
        SpanCond::Always => true,
        SpanCond::Boundary => ident_boundary(t, st, st + n),
        SpanCond::Closed => closes_ref(t, st + n),
    }
}

/// The starts `base + shift` of the greedy occurrences `base` of `p` in `t`
/// (resuming `step` bytes after each) whose span of `n` bytes counts under `c`.
pub open spec fn recorded(t: Seq<u8>, p: Seq<u8>, step: int, shift: int, c: SpanCond, n: int) -> Set<usize> {
    recorded_of(occ(t, p, 0, step), t, shift, c, n)
}

/// The starts `base + shift` of the bases in `bases` whose span counts.
pub open spec fn recorded_of(bases: Seq<int>, t: Seq<u8>, shift: int, c: SpanCond, n: int) -> Set<usize> {
    Set::new(
        |st: usize|
            exists|j: int| 0 <= j < bases.len() && st as int == #[trigger] bases[j] + shift && cond_ok(c, t, st as int, n),
    )
}

fn record_occurrences(t: &[u8], p: &[u8], step: usize, shift: usize, c: SpanCond, n: usize, out: &mut Vec<usize>)
    requires
        increasing(old(out)@),
        room(old(out)@, n as int, t@),
        shift + n <= p@.len(),
    ensures
        increasing(final(out)@),
        room(final(out)@, n as int, t@),
        final(out)@.to_set() == old(out)@.to_set() + recorded(t@, p@, step as int, shift as int, c, n as int),
{
    let ghost start = out@.to_set();
    if step == 0 || p.len() == 0 {
        proof {
            assert(occ(t@, p@, 0, step as int) =~= Seq::<int>::empty());
            assert(out@.to_set() =~= start + recorded(t@, p@, step as int, shift as int, c, n as int));
        }
        return;
    }
    let mut from: usize = 0;
    let mut going = true;
    let ghost mut done: Seq<int> = Seq::empty();
    proof {
        assert(occ(t@, p@, 0, step as int) =~= done + occ(t@, p@, from as int, step as int));
        assert(out@.to_set() =~= start + recorded_of(done, t@, shift as int, c, n as int));
    }
    while going
        invariant
            step > 0,
            p@.len() > 0,
            shift + n <= p@.len(),
            from <= t.len() + 1,
            increasing(out@),
            room(out@, n as int, t@),
            going ==> occ(t@, p@, 0, step as int) == done + occ(t@, p@, from as int, step as int),
            !going ==> occ(t@, p@, 0, step as int) == done,
            out@.to_set() == start + recorded_of(done, t@, shift as int, c, n as int),
        decreases t.len() + 1 - from + (if going { 1int } else { 0int }),
    {
        match find_bytes_from(t, p, from) {
            None => {
                proof {
                    lemma_occ_none(t@, p@, from as int, step as int);
                    assert(done + occ(t@, p@, from as int, step as int) =~= done);
                }
                going = false;
            },
            Some(i) => {
                proof {
                    lemma_occ_skip(t@, p@, from as int, i as int, step as int);
                }
                let st = i + shift;
                let ok = match c {
                    SpanCond::Always => true,
                    SpanCond::Boundary => boundary_exec(t, st, st + n),
                    SpanCond::Closed => {
                        let e = st + n;
                        e >= t.len() || t[e] == 0x7d || t[e] == 0x20 || t[e] == 0x2e
                    },
                };
                let ghost before = out@.to_set();
                let ghost before_seq = out@;
                let ghost before_done = done;
                if ok {
                    insert_increasing(out, st);
                    proof {
                        lemma_room_insert(before_seq, out@, st, n as int, t@);
                    }
                }
                proof {
                    done = done.push(i as int);
                    assert(done[done.len() - 1] == i as int);
                    assert(ok == cond_ok(c, t@, st as int, n as int));
                    assert forall|x: usize| #![trigger recorded_of(done, t@, shift as int, c, n as int).contains(x)]
                        recorded_of(done, t@, shift as int, c, n as int).contains(x) <==> recorded_of(
                            before_done,
                            t@,
                            shift as int,
                            c,
                            n as int,
                        ).contains(x) || (ok && x == st) by {
                        if recorded_of(done, t@, shift as int, c, n as int).contains(x) {
                            let j = choose|j: int| 0 <= j < done.len() && x as int == #[trigger] done[j] + shift && cond_ok(c, t@, x as int, n as int);
                            if j < before_done.len() {
                                assert(before_done[j] == done[j]);
                            }
                        }
                        if recorded_of(before_done, t@, shift as int, c, n as int).contains(x) {
                            let j = choose|j: int| 0 <= j < before_done.len() && x as int == #[trigger] before_done[j] + shift && cond_ok(c, t@, x as int, n as int);
                            assert(done[j] == before_done[j]);
                        }
                    }
                    assert(out@.to_set() =~= start + recorded_of(done, t@, shift as int, c, n as int));
                }
                if step > t.len() - i {
                    proof {
                        assert(occ(t@, p@, 0, step as int) =~= done);
                    }
                    going = false;
                } else {
                    proof {
                        assert(occ(t@, p@, 0, step as int) =~= done + occ(t@, p@, i + step, step as int));
                    }
                    from = i + step;
                }
            },
        }
    }
}

/// Byte `e` of `t` continues a bare id: letter, digit, `_`, `-` or `.`.
pub open spec fn continues_id(t: Seq<u8>, e: int) -> bool {
    0 <= e < t.len() && (alnum_byte(t[e]) || t[e] == 0x5f || t[e] == 0x2d || t[e] == 0x2e)
}

/// Greedy occurrences of `p` in `t` from byte `k` on that are not followed
/// by a byte continuing the id; after such a match the scan resumes past
/// it, after any other match one byte later.
pub open spec fn bare_occ(t: Seq<u8>, p: Seq<u8>, k: int) -> Seq<int>
    decreases t.len() - k,
{
    if p.len() == 0 || k < 0 || k + p.len() > t.len() {
        Seq::empty()
    } else if bytes_at(t, p, k) {
        if continues_id(t, k + p.len()) {
            bare_occ(t, p, k + 1)
        } else {
            seq![k] + bare_occ(t, p, k + p.len())
        }
    } else {
        bare_occ(t, p, k + 1)
    }
}

proof fn lemma_bare_skip(t: Seq<u8>, p: Seq<u8>, k: int, i: int)
    requires
        0 <= k <= i,
        forall|j: int| k <= j < i ==> !bytes_at(t, p, j),
    ensures
        bare_occ(t, p, k) == bare_occ(t, p, i),
    decreases i - k,
{
    if k < i {
        lemma_bare_skip(t, p, k + 1, i);
        if !(p.len() == 0 || k + p.len() > t.len()) {
            assert(!bytes_at(t, p, k));
        }
    }
}

proof fn lemma_bare_none(t: Seq<u8>, p: Seq<u8>, k: int)
    requires
        0 <= k,
        forall|j: int| k <= j ==> !bytes_at(t, p, j),
    ensures
        bare_occ(t, p, k) == Seq::<int>::empty(),
    decreases t.len() + 1 - k,
{
    if k + p.len() <= t.len() && p.len() > 0 {
        assert(!bytes_at(t, p, k));
        lemma_bare_none(t, p, k + 1);
    }
}

/// All elements of `v` leave room for `n` more bytes of `t`.
pub open spec fn room(v: Seq<usize>, n: int, t: Seq<u8>) -> bool {
    forall|k: int| 0 <= k < v.len() ==> v[k] + n <= t.len()
}

proof fn lemma_room_insert(before: Seq<usize>, after: Seq<usize>, x: usize, n: int, t: Seq<u8>)
    requires
        room(before, n, t),
        x + n <= t.len(),
        after.to_set() == before.to_set().insert(x),
    ensures
        room(after, n, t),
{
    assert forall|k: int| 0 <= k < after.len() implies after[k] + n <= t.len() by {
        assert(after.to_set().contains(after[k]));
        if after[k] != x {
            assert(before.to_set().contains(after[k]));
            let w = choose|w: int| 0 <= w < before.len() && before[w] == after[k];
        }
    }
}

fn record_bare(t: &[u8], p: &[u8], shift: usize, n: usize, out: &mut Vec<usize>)
    requires
        increasing(old(out)@),
        room(old(out)@, n as int, t@),
        shift + n <= p@.len(),
    ensures
        increasing(final(out)@),
        room(final(out)@, n as int, t@),
        final(out)@.to_set() == old(out)@.to_set() + recorded_of(bare_occ(t@, p@, 0), t@, shift as int, SpanCond::Always, n as int),
{
    let ghost start = out@.to_set();
    if p.len() == 0 {
        proof {
            assert(bare_occ(t@, p@, 0) =~= Seq::<int>::empty());
            assert(out@.to_set() =~= start + recorded_of(bare_occ(t@, p@, 0), t@, shift as int, SpanCond::Always, n as int));
        }
        return;
    }
    let mut from: usize = 0;
    let mut going = true;
    let ghost mut done: Seq<int> = Seq::empty();
    proof {
        assert(bare_occ(t@, p@, 0) =~= done + bare_occ(t@, p@, from as int));
        assert(out@.to_set() =~= start + recorded_of(done, t@, shift as int, SpanCond::Always, n as int));
    }
    while going
        invariant
            p@.len() > 0,
            shift + n <= p@.len(),
            from <= t.len() + 1,
            increasing(out@),
            room(out@, n as int, t@),
            going ==> bare_occ(t@, p@, 0) == done + bare_occ(t@, p@, from as int),
            !going ==> bare_occ(t@, p@, 0) == done,
            out@.to_set() == start + recorded_of(done, t@, shift as int, SpanCond::Always, n as int),
        decreases t.len() + 1 - from + (if going { 1int } else { 0int }),
    {
        match find_bytes_from(t, p, from) {
            None => {
                proof {
                    lemma_bare_none(t@, p@, from as int);
                    assert(done + bare_occ(t@, p@, from as int) =~= done);
                }
                going = false;
            },
            Some(i) => {
                proof {
                    lemma_bare_skip(t@, p@, from as int, i as int);
                }
                let after = i + p.len();
                let glued = after < t.len() && {
                    let b = t[after];
                    (0x30 <= b && b <= 0x39) || (0x41 <= b && b <= 0x5a) || (0x61 <= b && b <= 0x7a) || b == 0x5f || b
                        == 0x2d || b == 0x2e
                };
                if glued {
                    proof {
                        assert(bare_occ(t@, p@, i as int) == bare_occ(t@, p@, i + 1));
                    }
                    from = i + 1;
                } else {
                    let st = i + shift;
                    let ghost before = out@;
                    let ghost before_done = done;
                    insert_increasing(out, st);
                    proof {
                        lemma_room_insert(before, out@, st, n as int, t@);
                        done = done.push(i as int);
                        assert forall|x: usize| #![trigger recorded_of(done, t@, shift as int, SpanCond::Always, n as int).contains(x)]
                            recorded_of(done, t@, shift as int, SpanCond::Always, n as int).contains(x) <==> recorded_of(
                                before_done,
                                t@,
                                shift as int,
                                SpanCond::Always,
                                n as int,
                            ).contains(x) || x == st by {
                            if recorded_of(done, t@, shift as int, SpanCond::Always, n as int).contains(x) {
                                let j = choose|j: int| 0 <= j < done.len() && x as int == #[trigger] done[j] + shift && cond_ok(SpanCond::Always, t@, x as int, n as int);
                                if j < before_done.len() {
                                    assert(before_done[j] == done[j]);
                                }
                            }
                            if recorded_of(before_done, t@, shift as int, SpanCond::Always, n as int).contains(x) {
                                let j = choose|j: int| 0 <= j < before_done.len() && x as int == #[trigger] before_done[j] + shift && cond_ok(SpanCond::Always, t@, x as int, n as int);
                                assert(done[j] == before_done[j]);
                            }
                            if x == st {
                                assert(done[done.len() - 1] == i as int);
                            }
                        }
                        assert(out@.to_set() =~= start + recorded_of(done, t@, shift as int, SpanCond::Always, n as int));
                        assert(bare_occ(t@, p@, 0) =~= done + bare_occ(t@, p@, after as int));
                    }
                    from = after;
                }
            },
        }
    }
}

/// `pre`, then `mid`, then `post`.
fn wrap(pre: &str, mid: &str, post: &str) -> (r: String)
    ensures
        r@ == pre@ + mid@ + post@,
{
    let mut v = to_chars(pre);
    push_str(&mut v, mid);
    push_str(&mut v, post);
    from_chars(v.as_slice())
}

/// The quoted forms a RouteId `id` takes in source text.
pub open spec fn route_patterns(id: Seq<char>) -> Seq<Seq<char>> {
    seq![
        "to=\""@ + id + "\""@,
        "to='"@ + id + "'"@,
        "id: \""@ + id + "\""@,
        "id: '"@ + id + "'"@,
        "\"id\": \""@ + id + "\""@,
        "'id': '"@ + id + "'"@,
        "entryRoute\": \""@ + id + "\""@,
        "entryRoute\": \""@ + id + "\""@,
        "\"entryRoute\": \""@ + id + "\""@,
        "routeId\": \""@ + id + "\""@,
        "\"routeId\": \""@ + id + "\""@,
        "to: \""@ + id + "\""@,
        "to: '"@ + id + "'"@,
    ]
}

/// The starts of the id token inside the occurrences of pattern `pat`.
pub open spec fn pattern_starts(t: Seq<u8>, id: Seq<char>, pat: Seq<char>) -> Set<usize> {
    match first_from(utf8(pat), utf8(id), 0) {
        Some(off) => recorded(t, utf8(pat), utf8(pat).len() as int, off, SpanCond::Always, utf8(id).len() as int),
        None => Set::empty(),
    }
}

/// The starts of the id token of the bare `id: <id>` form (not followed by a
/// byte that continues the id).
pub open spec fn bare_starts(t: Seq<u8>, id: Seq<char>) -> Set<usize> {
    recorded_of(bare_occ(t, bare_pattern(id), 0), t, 4, SpanCond::Always, utf8(id).len() as int)
}

/// The bytes of `id: ` followed by the bytes of `id`.
pub open spec fn bare_pattern(id: Seq<char>) -> Seq<u8> {
    seq![0x69u8, 0x64u8, 0x3au8, 0x20u8] + utf8(id)
}

fn push_bytes(out: &mut Vec<u8>, b: &[u8])
    ensures
        final(out)@ == old(out)@ + b@,
{
    let mut i: usize = 0;
    while i < b.len()
        invariant
            i <= b.len(),
            out@ == old(out)@ + b@.take(i as int),
        decreases b.len() - i,
    {
        out.push(b[i]);
        proof {
            assert(b@.take(i + 1) =~= b@.take(i as int).push(b@[i as int]));
            assert(old(out)@ + b@.take(i + 1) =~= (old(out)@ + b@.take(i as int)).push(b@[i as int]));
        }
        i = i + 1;
    }
    proof {
        assert(b@.take(b.len() as int) =~= b@);
    }
}

/// Every byte start of the RouteId `id` in `t`.
pub open spec fn route_starts(t: Seq<u8>, id: Seq<char>) -> Set<usize> {
    Set::new(
        |st: usize|
            (exists|k: int| 0 <= k < 13 && (#[trigger] pattern_starts(t, id, route_patterns(id)[k])).contains(st))
                || bare_starts(t, id).contains(st),
    )
}

fn add_pattern(t: &[u8], id: &str, pat: &String, out: &mut Vec<usize>)
    requires
        increasing(old(out)@),
        room(old(out)@, utf8(id@).len() as int, t@),
    ensures
        increasing(final(out)@),
        room(final(out)@, utf8(id@).len() as int, t@),
        final(out)@.to_set() == old(out)@.to_set() + pattern_starts(t@, id@, pat@),
{
    let pb = pat.as_str().as_bytes();
    let idb = id.as_bytes();
    let found = find_bytes_from(pb, idb, 0);
    proof {
        lemma_first_from(pb@, idb@, 0, match found { Some(i) => Some(i as int), None => None });
    }
    match found {
        Some(off) => {
            record_occurrences(t, pb, pb.len(), off, SpanCond::Always, idb.len(), out);
        },
        None => {
            proof {
                assert(out@.to_set() =~= old(out)@.to_set() + pattern_starts(t@, id@, pat@));
            }
        },
    }
}

/// The byte spans `(start, end, id)` of the RouteId `id` in `text`: the id
/// token inside each quoted form (`to="id"`, `id: 'id'`, `"routeId": "id"`,
/// ...) and after a bare `id: ` not followed by an id byte; sorted by start,
/// each start once.
pub fn find_route_id_spans(text: &str, id: &str) -> (r: Vec<(usize, usize, String)>)
    ensures
        increasing(r@.map_values(|x: (usize, usize, String)| x.0)),
        r@.map_values(|x: (usize, usize, String)| x.0).to_set() == route_starts(utf8(text@), id@),
        forall|k: int| 0 <= k < r.len() ==> (#[trigger] r@[k]).1 == r@[k].0 + utf8(id@).len() && r@[k].2@ == id@,
{
    let t = text.as_bytes();
    let ghost tv = utf8(text@);
    let ghost n = utf8(id@).len() as int;
    let mut starts: Vec<usize> = Vec::new();
    let pats: Vec<String> = vec![
        wrap("to=\"", id, "\""),
        wrap("to='", id, "'"),
        wrap("id: \"", id, "\""),
        wrap("id: '", id, "'"),
        wrap("\"id\": \"", id, "\""),
        wrap("'id': '", id, "'"),
        wrap("entryRoute\": \"", id, "\""),
        wrap("entryRoute\": \"", id, "\""),
        wrap("\"entryRoute\": \"", id, "\""),
        wrap("routeId\": \"", id, "\""),
        wrap("\"routeId\": \"", id, "\""),
        wrap("to: \"", id, "\""),
        wrap("to: '", id, "'"),
    ];
    proof {
        assert(pats@.map_values(|x: String| x@) =~= route_patterns(id@));
    }
    let mut k: usize = 0;
    while k < pats.len()
        invariant
            pats@.map_values(|x: String| x@) == route_patterns(id@),
            pats.len() == 13,
            k <= 13,
            tv == utf8(text@),
            t@ == tv,
            n == utf8(id@).len(),
            increasing(starts@),
            room(starts@, n, tv),
            forall|st: usize| starts@.to_set().contains(st) <==> exists|j: int|
                0 <= j < k && (#[trigger] pattern_starts(tv, id@, route_patterns(id@)[j])).contains(st),
        decreases 13 - k,
    {
        let ghost before = starts@.to_set();
        add_pattern(t, id, &pats[k], &mut starts);
        proof {
            assert(pats@.map_values(|x: String| x@)[k as int] == pats@[k as int]@);
            assert forall|st: usize| starts@.to_set().contains(st) <==> exists|j: int|
                0 <= j < k + 1 && (#[trigger] pattern_starts(tv, id@, route_patterns(id@)[j])).contains(st) by {
                if exists|j: int| 0 <= j < k + 1 && (#[trigger] pattern_starts(tv, id@, route_patterns(id@)[j])).contains(st) {
                    let j = choose|j: int| 0 <= j < k + 1 && (#[trigger] pattern_starts(tv, id@, route_patterns(id@)[j])).contains(st);
                    if j < k {
                        assert(before.contains(st));
                    }
                }
            }
        }
        k = k + 1;
    }
    let mut bare: Vec<u8> = vec![0x69u8, 0x64u8, 0x3au8, 0x20u8];
    push_bytes(&mut bare, id.as_bytes());
    proof {
        assert(bare@ =~= bare_pattern(id@));
    }
    let ghost before_bare = starts@.to_set();
    record_bare(t, bare.as_slice(), 4, id.as_bytes().len(), &mut starts);
    proof {
        assert(starts@.to_set() =~= route_starts(tv, id@)) by {
            assert forall|st: usize| starts@.to_set().contains(st) <==> route_starts(tv, id@).contains(st) by {
                if before_bare.contains(st) {
                    let j = choose|j: int| 0 <= j < 13 && (#[trigger] pattern_starts(tv, id@, route_patterns(id@)[j])).contains(st);
                }
                if exists|j: int| 0 <= j < 13 && (#[trigger] pattern_starts(tv, id@, route_patterns(id@)[j])).contains(st) {
                    let j = choose|j: int| 0 <= j < 13 && (#[trigger] pattern_starts(tv, id@, route_patterns(id@)[j])).contains(st);
                    assert(before_bare.contains(st));
                }
            }
        }
    }
    let idn = id.as_bytes().len();
    let tl = t.len();
    let mut r: Vec<(usize, usize, String)> = Vec::new();
    let mut i: usize = 0;
    while i < starts.len()
        invariant
            i <= starts.len(),
            n == utf8(id@).len(),
            idn == n,
            tl == tv.len(),
            room(starts@, n, tv),
            tv == utf8(text@),
            r@.map_values(|x: (usize, usize, String)| x.0) == starts@.take(i as int),
            forall|k: int| 0 <= k < r.len() ==> (#[trigger] r@[k]).1 == r@[k].0 + n && r@[k].2@ == id@,
        decreases starts.len() - i,
    {
        let st = starts[i];
        proof {
            assert(starts@[i as int] + n <= tv.len());
        }
        let ghost pre = r@.map_values(|x: (usize, usize, String)| x.0);
        r.push((st, st + idn, id.to_string()));
        proof {
            assert(r@.map_values(|x: (usize, usize, String)| x.0) =~= pre.push(st));
            assert(starts@.take(i + 1) =~= starts@.take(i as int).push(st));
        }
        i = i + 1;
    }
    proof {
        assert(starts@.take(starts.len() as int) =~= starts@);
    }
    r
}

/// `{name} =`, `{name}` in braces, and `if={name}` / `each={name}` /
/// `show={name}` / `hide={name}`, as bytes.
pub open spec fn field_decl(n: Seq<u8>) -> Seq<u8> {
    n + seq![0x20u8, 0x3du8]
}

pub open spec fn field_brace(n: Seq<u8>) -> Seq<u8> {
    seq![0x7bu8] + n + seq![0x7du8]
}

/// The attribute prefixes that bind a field: `if={`, `each={`, `show={`, `hide={`.
pub open spec fn field_prefixes() -> Seq<Seq<u8>> {
    seq![
        seq![0x69u8, 0x66u8, 0x3du8, 0x7bu8],
        seq![0x65u8, 0x61u8, 0x63u8, 0x68u8, 0x3du8, 0x7bu8],
        seq![0x73u8, 0x68u8, 0x6fu8, 0x77u8, 0x3du8, 0x7bu8],
        seq![0x68u8, 0x69u8, 0x64u8, 0x65u8, 0x3du8, 0x7bu8],
    ]
}

/// Every byte start of the field `name` in `t`: its declaration `name =`
/// standing alone as an identifier, `{name}`, and each attribute binding
/// closed by `}`, a space, `.` or the end.
pub open spec fn field_starts(t: Seq<u8>, name: Seq<u8>) -> Set<usize> {
    let n = name.len() as int;
    Set::new(
        |st: usize|
            recorded(t, field_decl(name), n, 0, SpanCond::Boundary, n).contains(st) || recorded(
                t,
                field_brace(name),
                n + 1,
                1,
                SpanCond::Always,
                n,
            ).contains(st) || exists|k: int|
                0 <= k < 4 && #[trigger] recorded(
                    t,
                    field_prefixes()[k] + name,
                    (field_prefixes()[k] + name).len() as int,
                    field_prefixes()[k].len() as int,
                    SpanCond::Closed,
                    n,
                ).contains(st),
    )
}

/// The byte spans `(start, end)` of the component field `name` in `text`:
/// its declaration `name =` standing alone as an identifier, `{name}`, and
/// `if=` / `each=` / `show=` / `hide=` bindings of it; sorted, each once.
/// An empty `name` is accepted only where ` =` does not occur (the scan
/// would not advance there).
pub fn find_field_spans(text: &str, name: &str) -> (r: Vec<(usize, usize)>)
    requires
        name@.len() > 0 || !crate::bytes::bytes_contain(utf8(text@), seq![0x20u8, 0x3du8]),
    ensures
        increasing(r@.map_values(|x: (usize, usize)| x.0)),
        r@.map_values(|x: (usize, usize)| x.0).to_set() == field_starts(utf8(text@), utf8(name@)),
        forall|k: int| 0 <= k < r.len() ==> (#[trigger] r@[k]).1 == r@[k].0 + utf8(name@).len(),
{
    let t = text.as_bytes();
    let nb = name.as_bytes();
    let n = nb.len();
    let ghost tv = t@;
    let mut starts: Vec<usize> = Vec::new();
    let mut decl: Vec<u8> = Vec::new();
    push_bytes(&mut decl, nb);
    decl.push(0x20u8);
    decl.push(0x3du8);
    proof {
        assert(decl@ =~= field_decl(nb@));
    }
    let mut brace: Vec<u8> = vec![0x7bu8];
    push_bytes(&mut brace, nb);
    brace.push(0x7du8);
    proof {
        assert(brace@ =~= field_brace(nb@));
    }
    record_occurrences(t, decl.as_slice(), n, 0, SpanCond::Boundary, n, &mut starts);
    let ghost after_decl = starts@.to_set();
    record_occurrences(t, brace.as_slice(), brace.len() - 1, 1, SpanCond::Always, n, &mut starts);
    let ghost after_brace = starts@.to_set();
    let prefixes: Vec<Vec<u8>> = vec![
        vec![0x69u8, 0x66u8, 0x3du8, 0x7bu8],
        vec![0x65u8, 0x61u8, 0x63u8, 0x68u8, 0x3du8, 0x7bu8],
        vec![0x73u8, 0x68u8, 0x6fu8, 0x77u8, 0x3du8, 0x7bu8],
        vec![0x68u8, 0x69u8, 0x64u8, 0x65u8, 0x3du8, 0x7bu8],
    ];
    proof {
        assert(prefixes@.map_values(|v: Vec<u8>| v@) =~= field_prefixes());
    }
    let mut k: usize = 0;
    while k < prefixes.len()
        invariant
            prefixes@.map_values(|v: Vec<u8>| v@) == field_prefixes(),
            prefixes.len() == 4,
            k <= 4,
            t@ == tv,
            nb@ == utf8(name@),
            n == nb@.len(),
            increasing(starts@),
            room(starts@, n as int, tv),
            forall|st: usize| #![trigger starts@.to_set().contains(st)] starts@.to_set().contains(st) <==> after_brace.contains(st) || exists|j: int|
                0 <= j < k && #[trigger] recorded(
                    tv,
                    field_prefixes()[j] + nb@,
                    (field_prefixes()[j] + nb@).len() as int,
                    field_prefixes()[j].len() as int,
                    SpanCond::Closed,
                    n as int,
                ).contains(st),
        decreases 4 - k,
    {
        let q = &prefixes[k];
        proof {
            assert(prefixes@.map_values(|v: Vec<u8>| v@)[k as int] == q@);
        }
        let mut pat: Vec<u8> = Vec::new();
        push_bytes(&mut pat, q.as_slice());
        push_bytes(&mut pat, nb);
        let ghost before = starts@.to_set();
        record_occurrences(t, pat.as_slice(), pat.len(), q.len(), SpanCond::Closed, n, &mut starts);
        proof {
            assert forall|st: usize| #![trigger starts@.to_set().contains(st)] starts@.to_set().contains(st) <==> after_brace.contains(st) || exists|j: int|
                0 <= j < k + 1 && #[trigger] recorded(
                    tv,
                    field_prefixes()[j] + nb@,
                    (field_prefixes()[j] + nb@).len() as int,
                    field_prefixes()[j].len() as int,
                    SpanCond::Closed,
                    n as int,
                ).contains(st) by {
                if exists|j: int|
                    0 <= j < k + 1 && #[trigger] recorded(
                        tv,
                        field_prefixes()[j] + nb@,
                        (field_prefixes()[j] + nb@).len() as int,
                        field_prefixes()[j].len() as int,
                        SpanCond::Closed,
                        n as int,
                    ).contains(st) {
                    let j = choose|j: int|
                        0 <= j < k + 1 && #[trigger] recorded(
                            tv,
                            field_prefixes()[j] + nb@,
                            (field_prefixes()[j] + nb@).len() as int,
                            field_prefixes()[j].len() as int,
                            SpanCond::Closed,
                            n as int,
                        ).contains(st);
                    if j < k {
                        assert(before.contains(st));
                    }
                }
            }
        }
        k = k + 1;
    }
    proof {
        assert forall|st: usize| starts@.to_set().contains(st) <==> field_starts(tv, nb@).contains(st) by {
            if starts@.to_set().contains(st) && !after_brace.contains(st) {
                let j = choose|j: int|
                    0 <= j < 4 && #[trigger] recorded(
                        tv,
                        field_prefixes()[j] + nb@,
                        (field_prefixes()[j] + nb@).len() as int,
                        field_prefixes()[j].len() as int,
                        SpanCond::Closed,
                        n as int,
                    ).contains(st);
            }
            if exists|j: int|
                0 <= j < 4 && #[trigger] recorded(
                    tv,
                    field_prefixes()[j] + nb@,
                    (field_prefixes()[j] + nb@).len() as int,
                    field_prefixes()[j].len() as int,
                    SpanCond::Closed,
                    n as int,
                ).contains(st) {
                let j = choose|j: int|
                    0 <= j < 4 && #[trigger] recorded(
                        tv,
                        field_prefixes()[j] + nb@,
                        (field_prefixes()[j] + nb@).len() as int,
                        field_prefixes()[j].len() as int,
                        SpanCond::Closed,
                        n as int,
                    ).contains(st);
                assert(starts@.to_set().contains(st));
            }
        }
        assert(starts@.to_set() =~= field_starts(tv, nb@));
    }
    let tl = t.len();
    let mut r: Vec<(usize, usize)> = Vec::new();
    let mut i: usize = 0;
    while i < starts.len()
        invariant
            i <= starts.len(),
            room(starts@, n as int, tv),
            tl == tv.len(),
            r@.map_values(|x: (usize, usize)| x.0) == starts@.take(i as int),
            forall|k: int| 0 <= k < r.len() ==> (#[trigger] r@[k]).1 == r@[k].0 + n,
        decreases starts.len() - i,
    {
        let st = starts[i];
        proof {
            assert(starts@[i as int] + n <= tv.len());
        }
        let ghost pre = r@.map_values(|x: (usize, usize)| x.0);
        r.push((st, st + n));
        proof {
            assert(r@.map_values(|x: (usize, usize)| x.0) =~= pre.push(st));
            assert(starts@.take(i + 1) =~= starts@.take(i as int).push(st));
        }
        i = i + 1;
    }
    proof {
        assert(starts@.take(starts.len() as int) =~= starts@);
    }
    r
}

/// The causal chain id of a rename: `rename:<kind>:<from>-><to>`.
pub open spec fn chain_id(kind: Seq<char>, from: Seq<char>, to: Seq<char>) -> Seq<char> {
    seq!['r', 'e', 'n', 'a', 'm', 'e', ':'] + kind + seq![':'] + from + seq!['-', '>'] + to
}

/// The causal chain id of a rename: `rename:<kind>:<from>-><to>`.
pub fn causal_chain_id(kind: &str, from: &str, to: &str) -> (r: String)
    ensures
        r@ == chain_id(kind@, from@, to@),
{
    let mut v: Vec<char> = vec!['r', 'e', 'n', 'a', 'm', 'e', ':'];
    push_str(&mut v, kind);
    v.push(':');
    push_str(&mut v, from);
    v.push('-');
    v.push('>');
    push_str(&mut v, to);
    proof {
        assert(v@ =~= chain_id(kind@, from@, to@));
    }
    from_chars(v.as_slice())
}

/// `s` without its first `k` characters when it starts with `p` (of length `k`).
pub open spec fn strip_start(s: Seq<char>, p: Seq<char>) -> Seq<char> {
    if crate::text::has_prefix(s, p) {
        s.skip(p.len() as int)
    } else {
        s
    }
}

/// The chunk id of a workspace-relative source path: `\` read as `/`, a
/// leading `./` and then `src/` dropped, and the `.vmz` extension removed;
/// none unless the path ends in `.vmz` with a non-empty stem free of `..`.
pub open spec fn path_chunk(rel: Seq<char>) -> Option<Seq<char>> {
    let a = strip_start(crate::text::posix(rel), seq!['.', '/']);
    let b = strip_start(a, seq!['s', 'r', 'c', '/']);
    let ext = seq!['.', 'v', 'm', 'z'];
    if crate::text::has_suffix(b, ext) {
        let stem = b.take(b.len() - 4);
        if stem.len() > 0 && !crate::text::contains_seq(stem, seq!['.', '.']) {
            Some(stem)
        } else {
            None
        }
    } else {
        None
    }
}

fn subrange_chars(v: &[char], a: usize, b: usize) -> (r: Vec<char>)
    requires
        a <= b <= v@.len(),
    ensures
        r@ == v@.subrange(a as int, b as int),
{
    let mut r: Vec<char> = Vec::new();
    let mut i = a;
    while i < b
        invariant
            a <= i <= b,
            b <= v@.len(),
            r@ == v@.subrange(a as int, i as int),
        decreases b - i,
    {
        r.push(v[i]);
        proof {
            assert(v@.subrange(a as int, i + 1) =~= v@.subrange(a as int, i as int).push(v@[i as int]));
        }
        i = i + 1;
    }
    r
}

fn strip_start_exec(s: Vec<char>, p: &[char]) -> (r: Vec<char>)
    ensures
        r@ == strip_start(s@, p@),
{
    if crate::text::starts_with(s.as_slice(), p) {
        let r = subrange_chars(s.as_slice(), p.len(), s.len());
        proof {
            assert(r@ =~= s@.skip(p@.len() as int));
        }
        r
    } else {
        s
    }
}

/// The chunk id of a workspace-relative `.vmz` path (`src/pages/x.vmz` ->
/// `pages/x`), if it names one.
pub fn rel_path_to_chunk(rel: &str) -> (r: Option<String>)
    ensures
        match r {
            Some(c) => path_chunk(rel@) == Some(c@),
            None => path_chunk(rel@) is None,
        },
{
    let raw = to_chars(rel);
    let p = crate::text::replace_char_exec(raw.as_slice(), '\\', '/');
    let dot: Vec<char> = vec!['.', '/'];
    let src: Vec<char> = vec!['s', 'r', 'c', '/'];
    let ext: Vec<char> = vec!['.', 'v', 'm', 'z'];
    let dots: Vec<char> = vec!['.', '.'];
    let a = strip_start_exec(p, dot.as_slice());
    let b = strip_start_exec(a, src.as_slice());
    proof {
        assert(dot@ =~= seq!['.', '/']);
        assert(src@ =~= seq!['s', 'r', 'c', '/']);
        assert(ext@ =~= seq!['.', 'v', 'm', 'z']);
        assert(dots@ =~= seq!['.', '.']);
    }
    if crate::text::ends_with(b.as_slice(), ext.as_slice()) {
        let stem = subrange_chars(b.as_slice(), 0, b.len() - 4);
        proof {
            assert(stem@ =~= b@.take(b@.len() - 4));
        }
        if stem.len() > 0 && !crate::text::contains(stem.as_slice(), dots.as_slice()) {
            return Some(from_chars(stem.as_slice()));
        }
    }
    None
}

/// One text edit of a workspace: replace bytes `start..end` of `path` by
/// `new_text`.
#[derive(Debug, Clone)]
pub struct TextEdit {
    pub path: String,
    pub start: u32,
    pub end: u32,
    pub new_text: String,
}

/// The chunk ids the edits touch.
pub open spec fn edit_chunks(edits: Seq<TextEdit>) -> Set<Seq<char>> {
    Set::new(|c: Seq<char>| exists|i: int| 0 <= i < edits.len() && path_chunk(#[trigger] edits[i].path@) == Some(c))
}

/// The chunk ids that a set of edits touches (`src/pages/x.vmz` ->
/// `pages/x`), sorted, each once.
pub fn chunks_from_edits(edits: &[TextEdit]) -> (r: Vec<String>)
    ensures
        strictly_sorted(texts(r@)),
        texts(r@).to_set() == edit_chunks(edits@),
{
    let mut r: Vec<String> = Vec::new();
    let mut i: usize = 0;
    while i < edits.len()
        invariant
            i <= edits.len(),
            strictly_sorted(texts(r@)),
            forall|c: Seq<char>| texts(r@).to_set().contains(c) <==> exists|j: int|
                0 <= j < i && path_chunk(#[trigger] edits@[j].path@) == Some(c),
        decreases edits.len() - i,
    {
        let ghost before = texts(r@).to_set();
        match rel_path_to_chunk(edits[i].path.as_str()) {
            Some(c) => {
                insert_sorted_unique(&mut r, c);
            },
            None => {},
        }
        proof {
            assert forall|c: Seq<char>| texts(r@).to_set().contains(c) <==> exists|j: int|
                0 <= j < i + 1 && path_chunk(#[trigger] edits@[j].path@) == Some(c) by {
                if exists|j: int| 0 <= j < i + 1 && path_chunk(#[trigger] edits@[j].path@) == Some(c) {
                    let j = choose|j: int| 0 <= j < i + 1 && path_chunk(#[trigger] edits@[j].path@) == Some(c);
                    if j < i {
                        assert(before.contains(c));
                    }
                }
            }
        }
        i = i + 1;
    }
    proof {
        assert(texts(r@).to_set() =~= edit_chunks(edits@));
    }
    r
}

/// A stable id of a program element: its kind and id.
#[derive(Debug, Clone, PartialEq, Eq)]
pub struct StableId {
    pub kind: String,
    pub id: String,
}

/// A byte span of a source file.
#[derive(Debug, Clone, PartialEq, Eq)]
pub struct SourceSpan {
    pub path: String,
    pub start: u32,
    pub end: u32,
}

/// One edge of an explain chain.
#[derive(Debug, Clone, PartialEq, Eq)]
pub struct ExplainEdge {
    pub from: StableId,
    pub to: StableId,
    pub reason: String,
    pub precision: Option<String>,
    pub span: Option<SourceSpan>,
}

/// An explain edge as plain values: ((kind, id), (kind, id), reason,
/// precision, span as (path, start, end)).
pub open spec fn explain_view(e: ExplainEdge) -> (
    (Seq<char>, Seq<char>),
    (Seq<char>, Seq<char>),
    Seq<char>,
    Option<Seq<char>>,
    Option<(Seq<char>, u32, u32)>,
) {
    (
        (e.from.kind@, e.from.id@),
        (e.to.kind@, e.to.id@),
        e.reason@,
        match e.precision {
            Some(p) => Some(p@),
            None => None,
        },
        match e.span {
            Some(s) => Some((s.path@, s.start, s.end)),
            None => None,
        },
    )
}

/// An exact edge from the rename node to `to`.
pub open spec fn rename_edge(
    rename: Seq<char>,
    to: (Seq<char>, Seq<char>),
    reason: Seq<char>,
    span: Option<(Seq<char>, u32, u32)>,
) -> ((Seq<char>, Seq<char>), (Seq<char>, Seq<char>), Seq<char>, Option<Seq<char>>, Option<(Seq<char>, u32, u32)>) {
    (("rename"@, rename), to, reason, Some("exact"@), span)
}

/// The id of a text edit: `path@start..end`.
pub open spec fn edit_id(e: TextEdit) -> Seq<char> {
    e.path@ + "@"@ + crate::wechat_pack::decimal(e.start as nat) + ".."@ + crate::wechat_pack::decimal(e.end as nat)
}

/// The explain chain of a rename: the renamed symbol to the rename, then the
/// rename to each edit, each affected chunk and each selected test, in order.
pub open spec fn explain_chain(
    kind: Seq<char>,
    from: Seq<char>,
    to: Seq<char>,
    edits: Seq<TextEdit>,
    chunks: Seq<String>,
    tests: Seq<String>,
) -> Seq<((Seq<char>, Seq<char>), (Seq<char>, Seq<char>), Seq<char>, Option<Seq<char>>, Option<(Seq<char>, u32, u32)>)> {
    let r = chain_id(kind, from, to);
    seq![((kind, from), ("rename"@, r), "rename "@ + kind + " `"@ + from + "` -> `"@ + to + "`"@, Some("exact"@), None)]
        + edits.map_values(|e: TextEdit| rename_edge(r, ("text_edit"@, edit_id(e)), "workspace_edit"@, Some((e.path@, e.start, e.end))))
        + chunks.map_values(|c: String| rename_edge(r, ("chunk"@, c@), "affected_chunk"@, None))
        + tests.map_values(|t: String| rename_edge(r, ("test"@, t@), "graph_selected_test"@, None))
}

fn stable(kind: &str, id: String) -> (r: StableId)
    ensures
        r.kind@ == kind@,
        r.id@ == id@,
{
    StableId { kind: String::from_str(kind), id }
}

fn exact() -> (r: Option<String>)
    ensures
        r matches Some(p) && p@ == "exact"@,
{
    Some(String::from_str("exact"))
}

/// Build the explain chain linking a rename to its edits, the chunks they
/// touch and the tests selected for them.
pub fn rename_explain_chain(
    kind: &str,
    from: &str,
    to: &str,
    edits: &[TextEdit],
    chunks: &[String],
    test_ids: &[String],
) -> (r: Vec<ExplainEdge>)
    ensures
        r@.map_values(|e: ExplainEdge| explain_view(e)) == explain_chain(kind@, from@, to@, edits@, chunks@, test_ids@),
{
    let causal = causal_chain_id(kind, from, to);
    let ghost rv = causal@;
    let mut chain: Vec<ExplainEdge> = Vec::new();
    let mut reason = to_chars("rename ");
    push_str(&mut reason, kind);
    push_str(&mut reason, " `");
    push_str(&mut reason, from);
    push_str(&mut reason, "` -> `");
    push_str(&mut reason, to);
    push_str(&mut reason, "`");
    chain.push(ExplainEdge {
        from: stable(kind, String::from_str(from)),
        to: stable("rename", causal.clone()),
        reason: from_chars(reason.as_slice()),
        precision: exact(),
        span: None,
    });
    let ghost head = seq![((kind@, from@), ("rename"@, rv), "rename "@ + kind@ + " `"@ + from@ + "` -> `"@ + to@ + "`"@, Some("exact"@), None::<(Seq<char>, u32, u32)>)];
    proof {
        assert(chain@.map_values(|e: ExplainEdge| explain_view(e)) =~= head);
    }
    let mut i: usize = 0;
    while i < edits.len()
        invariant
            i <= edits.len(),
            rv == chain_id(kind@, from@, to@),
            causal@ == rv,
            chain@.map_values(|e: ExplainEdge| explain_view(e)) == head + edits@.take(i as int).map_values(
                |e: TextEdit| rename_edge(rv, ("text_edit"@, edit_id(e)), "workspace_edit"@, Some((e.path@, e.start, e.end))),
            ),
        decreases edits.len() - i,
    {
        let e = &edits[i];
        let mut id = to_chars(e.path.as_str());
        push_str(&mut id, "@");
        let a = crate::wechat_pack::decimal_exec(e.start as u64);
        crate::text::push_all(&mut id, a.as_slice());
        push_str(&mut id, "..");
        let b = crate::wechat_pack::decimal_exec(e.end as u64);
        crate::text::push_all(&mut id, b.as_slice());
        proof {
            assert(id@ =~= edit_id(*e));
        }
        let ghost before = chain@;
        chain.push(ExplainEdge {
            from: stable("rename", causal.clone()),
            to: stable("text_edit", from_chars(id.as_slice())),
            reason: String::from_str("workspace_edit"),
            precision: exact(),
            span: Some(SourceSpan { path: e.path.clone(), start: e.start, end: e.end }),
        });
        proof {
            assert(edits@.take(i + 1) =~= edits@.take(i as int).push(*e));
            assert(chain@.map_values(|e: ExplainEdge| explain_view(e)) =~= before.map_values(|e: ExplainEdge| explain_view(e)).push(
                explain_view(chain@[chain@.len() - 1]),
            ));
        }
        i = i + 1;
    }
    let ghost after_edits = chain@.map_values(|e: ExplainEdge| explain_view(e));
    proof {
        assert(edits@.take(edits@.len() as int) =~= edits@);
    }
    let mut j: usize = 0;
    while j < chunks.len()
        invariant
            j <= chunks.len(),
            causal@ == rv,
            chain@.map_values(|e: ExplainEdge| explain_view(e)) == after_edits + chunks@.take(j as int).map_values(
                |c: String| rename_edge(rv, ("chunk"@, c@), "affected_chunk"@, None),
            ),
        decreases chunks.len() - j,
    {
        let ghost before = chain@;
        chain.push(ExplainEdge {
            from: stable("rename", causal.clone()),
            to: stable("chunk", chunks[j].clone()),
            reason: String::from_str("affected_chunk"),
            precision: exact(),
            span: None,
        });
        proof {
            assert(chunks@.take(j + 1) =~= chunks@.take(j as int).push(chunks@[j as int]));
            assert(chain@.map_values(|e: ExplainEdge| explain_view(e)) =~= before.map_values(|e: ExplainEdge| explain_view(e)).push(
                explain_view(chain@[chain@.len() - 1]),
            ));
        }
        j = j + 1;
    }
    let ghost after_chunks = chain@.map_values(|e: ExplainEdge| explain_view(e));
    proof {
        assert(chunks@.take(chunks@.len() as int) =~= chunks@);
    }
    let mut k: usize = 0;
    while k < test_ids.len()
        invariant
            k <= test_ids.len(),
            causal@ == rv,
            chain@.map_values(|e: ExplainEdge| explain_view(e)) == after_chunks + test_ids@.take(k as int).map_values(
                |t: String| rename_edge(rv, ("test"@, t@), "graph_selected_test"@, None),
            ),
        decreases test_ids.len() - k,
    {
        let ghost before = chain@;
        chain.push(ExplainEdge {
            from: stable("rename", causal.clone()),
            to: stable("test", test_ids[k].clone()),
            reason: String::from_str("graph_selected_test"),
            precision: exact(),
            span: None,
        });
        proof {
            assert(test_ids@.take(k + 1) =~= test_ids@.take(k as int).push(test_ids@[k as int]));
            assert(chain@.map_values(|e: ExplainEdge| explain_view(e)) =~= before.map_values(|e: ExplainEdge| explain_view(e)).push(
                explain_view(chain@[chain@.len() - 1]),
            ));
        }
        k = k + 1;
    }
    proof {
        assert(test_ids@.take(test_ids@.len() as int) =~= test_ids@);
        assert(chain@.map_values(|e: ExplainEdge| explain_view(e)) =~= explain_chain(kind@, from@, to@, edits@, chunks@, test_ids@));
    }
    chain
}

} // verus!
