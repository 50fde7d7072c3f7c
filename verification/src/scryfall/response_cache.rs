//! Where cached replies are kept: one file per request, named by a hash of
//! the request.
use vstd::prelude::*;
use std::collections::hash_map::DefaultHasher;
use std::hash::Hasher;
use vstd::std_specs::hash::DefaultHasherAdditionalSpecFns;
use vstd::utf8::encode_utf8;

use crate::urls::{path_join, joined_path};

verus! {

/// The directory of cached replies.
#[derive(Debug)]
pub struct ResponseCache {
    pub cache_dir: String,
}

/// `16^k`.
pub open spec fn pow16(k: nat) -> nat
    decreases k,
{
    if k == 0 {
        1
    } else {
        16 * pow16((k - 1) as nat)
    }
}

/// A lower-case hexadecimal digit.
pub open spec fn lower_hex(d: nat) -> char {
    if d < 10 {
        ((48 + d) as u32) as char
    } else {
        ((87 + d) as u32) as char
    }
}

/// `n` in 16 lower-case hexadecimal digits, zero-padded (as `{:016x}`).
pub open spec fn hex16(n: u64) -> Seq<char> {
    Seq::new(16, |i: int| lower_hex((n as nat / pow16((15 - i) as nat)) % 16))
}

/// The hash of a text as `str`'s `Hash` feeds it to a `DefaultHasher`: its
/// UTF-8 bytes, then the byte `0xff`.
pub open spec fn text_hash(s: Seq<char>) -> u64 {
    DefaultHasher::spec_finish(seq![encode_utf8(s), seq![0xffu8]])
}

/// The file name for a request: its hash in 16 hexadecimal digits.
pub open spec fn key_spec(url: Seq<char>) -> Seq<char> {
    hex16(text_hash(url))
}

proof fn lemma_pow16_pos(k: nat)
    ensures
        pow16(k) > 0,
    decreases k,
{
    if k > 0 {
        lemma_pow16_pos((k - 1) as nat);
    }
}

fn hex_digit_lower(d: u64) -> (c: char)
    requires
        d < 16,
    ensures
        c == lower_hex(d as nat),
{
    if d < 10 {
        ((48 + d) as u8) as char
    } else {
        ((87 + d) as u8) as char
    }
}

/// `n` in 16 lower-case hexadecimal digits.
pub fn hex16_exec(n: u64) -> (s: String)
    ensures
        s@ == hex16(n),
{
    let mut digits: Vec<char> = Vec::new();
    let mut k: usize = 0;
    while k < 16
        invariant
            k <= 16,
            digits.len() == k,
        decreases 16 - k,
    {
        digits.push('0');
        k += 1;
    }
    let mut m: u64 = n;
    let mut k: usize = 0;
    assert(pow16(0) == 1);
    assert(n as nat / 1 == n);
    while k < 16
        invariant
            k <= 16,
            digits.len() == 16,
            m == n as nat / pow16(k as nat),
            forall|i: int| 16 - k <= i < 16 ==> #[trigger] digits@[i] == hex16(n)[i],
        decreases 16 - k,
    {
        proof {
            lemma_pow16_pos(k as nat);
            assert(pow16((k + 1) as nat) == 16 * pow16(k as nat));
            vstd::arithmetic::div_mod::lemma_div_denominator(n as int, pow16(k as nat) as int, 16);
            assert(hex16(n)[15 - k as int] == lower_hex((n as nat / pow16(k as nat)) % 16));
        }
        digits.set(15 - k, hex_digit_lower(m % 16));
        m = m / 16;
        k += 1;
    }
    assert(digits@ =~= hex16(n));
    crate::text::string_of(&digits)
}

impl ResponseCache {
    /// The file name of the cached reply to `url`: the 16-digit hexadecimal
    /// `DefaultHasher` hash of the text.
    pub fn key_for(url: &str) -> (k: String)
        ensures
            k@ == key_spec(url@),
    {
        let mut hasher = DefaultHasher::new();
        hasher.write(url.as_bytes());
        let end: Vec<u8> = vec![0xffu8];
        hasher.write(end.as_slice());
        proof {
            assert(end@ =~= seq![0xffu8]);
            assert(hasher@ =~= seq![encode_utf8(url@), seq![0xffu8]]);
        }
        let h = hasher.finish();
        hex16_exec(h)
    }

    /// The path of the cached reply to `url`.
    pub fn path_for(&self, url: &str) -> (p: String)
        ensures
            p@ == joined_path(self.cache_dir@, key_spec(url@)),
    {
        let key = Self::key_for(url);
        path_join(self.cache_dir.as_str(), key.as_str())
    }
}

} // verus!
