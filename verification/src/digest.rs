//! SHA-256 digests rendered as lowercase hexadecimal text.

use vstd::prelude::*;
use sha2::{Digest, Sha256};

verus! {

/// SHA-256 digest of the UTF-8 encoding of a text.
pub uninterp spec fn sha256_of_text(text: Seq<char>) -> Seq<u8>;

/// `sha2::Sha256::digest` over the UTF-8 bytes of `text`. The contract names
/// the digest `sha256_of_text(text)` and states its length, 32 bytes (the
/// hasher's `OutputSize` is `U32`); the SHA-256 function itself is not stated.
#[verifier::external_body]
fn sha256_digest(text: &str) -> (d: Vec<u8>)
    ensures
        d@ == sha256_of_text(text@),
        d@.len() == 32,
{
    Sha256::digest(text.as_bytes()).to_vec()
}

/// Lowercase hexadecimal digit of `n` (`n < 16`).
pub open spec fn hex_digit(n: u8) -> char {
    if n < 10 {
        ((n + 48) as u8) as char
    } else {
        ((n + 87) as u8) as char
    }
}

/// Two lowercase hex digits per byte (`{:02x}`), in order.
pub open spec fn hex(bytes: Seq<u8>) -> Seq<char>
    decreases bytes.len(),
{
    if bytes.len() == 0 {
        Seq::empty()
    } else {
        hex(bytes.drop_last()) + seq![hex_digit(bytes.last() / 16), hex_digit(bytes.last() % 16)]
    }
}

/// Each byte gives two hex digits.
pub proof fn lemma_hex_len(bytes: Seq<u8>)
    ensures
        hex(bytes).len() == 2 * bytes.len(),
    decreases bytes.len(),
{
    if bytes.len() > 0 {
        lemma_hex_len(bytes.drop_last());
    }
}

/// A lowercase hexadecimal digit: `0`-`9` or `a`-`f`.
pub open spec fn lower_hex_char(c: char) -> bool {
    ('0' <= c && c <= '9') || ('a' <= c && c <= 'f')
}

/// 64 lowercase hexadecimal digits: how a SHA-256 digest is written.
pub open spec fn sha256_hex_text(s: Seq<char>) -> bool {
    s.len() == 64 && forall|i: int| 0 <= i < s.len() ==> lower_hex_char(#[trigger] s[i])
}

/// Every character of a hex rendering is a lowercase hex digit.
pub proof fn lemma_hex_chars(bytes: Seq<u8>)
    ensures
        forall|i: int| 0 <= i < hex(bytes).len() ==> lower_hex_char(#[trigger] hex(bytes)[i]),
    decreases bytes.len(),
{
    if bytes.len() > 0 {
        let p = bytes.drop_last();
        lemma_hex_chars(p);
        lemma_hex_len(p);
        let b = bytes.last();
        lemma_hex_digit(b / 16);
        lemma_hex_digit(b % 16);
        assert forall|i: int| 0 <= i < hex(bytes).len() implies lower_hex_char(#[trigger] hex(bytes)[i]) by {
            if i < hex(p).len() {
                assert(hex(bytes)[i] == hex(p)[i]);
            }
        }
    }
}

proof fn lemma_hex_digit(n: u8)
    requires
        n < 16,
    ensures
        lower_hex_char(hex_digit(n)),
{
    if n < 10 {
        assert(((n + 48) as u8) as char == ((n + 48) as u8) as char);
    }
}

fn hex_digit_exec(n: u8) -> (c: char)
    requires
        n < 16,
    ensures
        c == hex_digit(n),
{
    if n < 10 {
        (n + 48) as char
    } else {
        (n + 87) as char
    }
}

/// Lowercase hex rendering of `bytes`.
pub fn hex_string(bytes: &[u8]) -> (r: String)
    ensures
        r@ == hex(bytes@),
{
    let mut out: Vec<char> = Vec::new();
    let mut i: usize = 0;
    while i < bytes.len()
        invariant
            i <= bytes.len(),
            out@ == hex(bytes@.take(i as int)),
        decreases bytes.len() - i,
    {
        let b = bytes[i];
        out.push(hex_digit_exec(b / 16));
        out.push(hex_digit_exec(b % 16));
        proof {
            assert(bytes@.take(i + 1).drop_last() =~= bytes@.take(i as int));
            assert(out@ =~= hex(bytes@.take(i + 1)));
        }
        i = i + 1;
    }
    proof {
        assert(bytes@.take(bytes.len() as int) =~= bytes@);
    }
    crate::text::from_chars(out.as_slice())
}

/// SHA-256 of the UTF-8 bytes of `text`, as 64 lowercase hex digits.
pub fn sha256_hex(text: &str) -> (r: String)
    ensures
        r@ == hex(sha256_of_text(text@)),
        r@.len() == 64,
        sha256_hex_text(r@),
{
    let d = sha256_digest(text);
    proof {
        lemma_hex_chars(d@);
        lemma_hex_len(d@);
    }
    hex_string(d.as_slice())
}

} // verus!
