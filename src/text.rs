use vstd::prelude::*;

use crate::json::{chars_of, string_of};
use vstd::string::StringSliceAdditionalSpecFns;

verus! {

/// Occurrences of `ch` in `s[0..n]`.
pub open spec fn occurrences(s: Seq<char>, n: nat, ch: char) -> nat
    decreases n,
{
    if n == 0 || n > s.len() {
        0
    } else {
        occurrences(s, (n - 1) as nat, ch) + if s[n - 1] == ch {
            1nat
        } else {
            0nat
        }
    }
}

/// Number of occurrences of `ch` in `text`.
pub fn count_char(text: &str, ch: char) -> (r: usize)
    ensures
        r == occurrences(text@, text@.len(), ch),
{
    let s = chars_of(text);
    let mut count: usize = 0;
    let mut i: usize = 0;
    while i < s.len()
        invariant
            s@ == text@,
            i <= s@.len(),
            count == occurrences(s@, i as nat, ch),
            count <= i,
        decreases s@.len() - i,
    {
        if s[i] == ch {
            count += 1;
        }
        i += 1;
    }
    count
}

/// FNV-1a over the first `n` bytes of `b`, with 32-bit wrapping arithmetic.
pub open spec fn fnv1a(b: Seq<u8>, n: nat) -> u32
    decreases n,
{
    if n == 0 || n > b.len() {
        2166136261u32
    } else {
        (fnv1a(b, (n - 1) as nat) ^ (b[n - 1] as u32)).wrapping_mul(16777619u32)
    }
}

/// FNV-1a hash of the UTF-8 bytes of `text`.
pub fn hash_string(text: &str) -> (r: u32)
    ensures
        r == fnv1a(text.spec_bytes(), text.spec_bytes().len()),
{
    let bytes = text.as_bytes();
    let mut hash: u32 = 2166136261;
    let mut i: usize = 0;
    while i < bytes.len()
        invariant
            bytes@ == text.spec_bytes(),
            i <= bytes@.len(),
            hash == fnv1a(bytes@, i as nat),
        decreases bytes@.len() - i,
    {
        hash = (hash ^ bytes[i] as u32).wrapping_mul(16777619);
        i += 1;
    }
    hash
}

/// The characters of `text` in reverse order.
pub fn reverse_string(text: &str) -> (r: String)
    ensures
        r@ == text@.reverse(),
{
    let s = chars_of(text);
    let mut out: Vec<char> = Vec::new();
    let mut i: usize = s.len();
    while i > 0
        invariant
            s@ == text@,
            i <= s@.len(),
            out@ == s@.subrange(i as int, s@.len() as int).reverse(),
        decreases i,
    {
        i -= 1;
        assert(s@.subrange(i as int, s@.len() as int).reverse() =~= s@.subrange(
            (i + 1) as int,
            s@.len() as int,
        ).reverse().push(s@[i as int]));
        out.push(s[i]);
    }
    assert(s@.subrange(0, s@.len() as int) =~= s@);
    string_of(&out)
}

} // verus!
