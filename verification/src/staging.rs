//! Naming of the temporary staged file that holds the uncompressed tar
//! container while a compress or extract operation runs.
//!
//! A staged name combines a hash of the caller-supplied input identifier with
//! a fresh random token into `<hash>-<token>-tar-gen.tar`. The token is
//! embedded verbatim, so two operations that draw distinct tokens always get
//! distinct names, whatever their inputs ([`lemma_staged_names_distinct`]);
//! the hash only keeps names of different inputs apart in the typical case.

use crate::digits::{ascii_chars, dec_digits, dec_of, lemma_dec_digits_bounds,
    lemma_dec_digits_injective, string_of_ascii};
use vstd::prelude::*;
use vstd::string::StringSliceAdditionalSpecFns;

verus! {

/// The FNV-1a offset basis for 64-bit hashes.
pub const FNV_OFFSET: u64 = 0xcbf29ce484222325;

/// The FNV-1a prime for 64-bit hashes.
pub const FNV_PRIME: u64 = 0x100000001b3;

/// One FNV-1a round: xor the byte in, multiply by the prime modulo `2^64`.
pub open spec fn fnv1a_step(h: u64, b: u8) -> u64 {
    vstd::wrapping::u64_specs::wrapping_mul(h ^ (b as u64), FNV_PRIME)
}

/// The FNV-1a state after absorbing `s`, starting from state `h`.
pub open spec fn fnv1a_from(h: u64, s: Seq<u8>) -> u64
    decreases s.len(),
{
    if s.len() == 0 {
        h
    } else {
        fnv1a_from(fnv1a_step(h, s[0]), s.drop_first())
    }
}

/// The 64-bit FNV-1a hash of a byte sequence.
pub open spec fn fnv1a(s: Seq<u8>) -> u64 {
    fnv1a_from(FNV_OFFSET, s)
}

/// Computes the 64-bit FNV-1a hash of the given bytes.
pub fn fnv1a_hash(s: &Vec<u8>) -> (r: u64)
    ensures
        r == fnv1a(s@),
{
    let ghost n = s@.len() as int;
    let mut h: u64 = FNV_OFFSET;
    let mut i: usize = 0;
    proof {
        assert(s@.subrange(0, n) =~= s@);
    }
    while i < s.len()
        invariant
            i <= s@.len(),
            n == s@.len(),
            fnv1a_from(h, s@.subrange(i as int, n)) == fnv1a(s@),
        decreases s@.len() - i,
    {
        let b = s[i];
        let h2 = (h ^ (b as u64)).wrapping_mul(FNV_PRIME);
        proof {
            let rem = s@.subrange(i as int, n);
            assert(rem[0] == s@[i as int]);
            assert(rem.drop_first() =~= s@.subrange(i as int + 1, n));
            assert(h2 == fnv1a_step(h, b));
            assert(fnv1a_from(h, rem) == fnv1a_from(h2, rem.drop_first()));
        }
        h = h2;
        i = i + 1;
    }
    proof {
        assert(s@.subrange(n, n) =~= Seq::<u8>::empty());
    }
    h
}

/// The fixed tail of every staged-file name, as ASCII bytes: `-tar-gen.tar`.
pub open spec fn staged_suffix() -> Seq<u8> {
    seq![45u8, 116u8, 97u8, 114u8, 45u8, 103u8, 101u8, 110u8, 46u8, 116u8, 97u8, 114u8]
}

/// The staged-file name for an input identifier and a random token, as bytes:
/// `<fnv1a(input)>-<token>-tar-gen.tar`, both numbers in decimal.
pub open spec fn staged_name_bytes(input: Seq<u8>, token: u64) -> Seq<u8> {
    dec_digits(fnv1a(input) as nat) + seq![45u8] + dec_digits(token as nat) + staged_suffix()
}

/// The staged-file name as text.
pub open spec fn spec_staged_name(input: Seq<u8>, token: u64) -> Seq<char> {
    ascii_chars(staged_name_bytes(input, token))
}

/// Builds the staged-file name for an input identifier and a token the
/// caller has already drawn.
pub fn staged_file_name(input: &str, token: u64) -> (r: String)
    ensures
        r@ == spec_staged_name(input.spec_bytes(), token),
{
    let bytes = vstd::string::StrSliceExecFns::as_bytes_vec(input);
    let h = fnv1a_hash(&bytes);
    let mut name = dec_of(h);
    name.push(45);
    let mut token_digits = dec_of(token);
    let ghost td = token_digits@;
    name.append(&mut token_digits);
    name.push(45);
    name.push(116);
    name.push(97);
    name.push(114);
    name.push(45);
    name.push(103);
    name.push(101);
    name.push(110);
    name.push(46);
    name.push(116);
    name.push(97);
    name.push(114);
    proof {
        assert(name@ =~= dec_digits(h as nat) + seq![45u8] + td + staged_suffix());
        lemma_dec_digits_bounds(h as nat);
        lemma_dec_digits_bounds(token as nat);
        assert forall|i: int| 0 <= i < name@.len() implies #[trigger] name@[i] < 128 by {
            let a = dec_digits(h as nat);
            let b = dec_digits(token as nat);
            if i < a.len() {
                assert(name@[i] == a[i]);
            } else if i == a.len() {
            } else if i < a.len() + 1 + b.len() {
                assert(name@[i] == b[i - a.len() - 1]);
            } else {
                assert(name@[i] == staged_suffix()[i - a.len() - 1 - b.len()]);
            }
        }
    }
    string_of_ascii(&name)
}

/// Relies on `rand::random`: draws a value from the thread-local generator.
/// Nothing is promised of the result.
pub assume_specification<T>[ rand::random::<T> ]() -> (r: T)
    where
        rand::distributions::Standard: rand::distributions::Distribution<T>,
;

/// Draws a fresh random token and builds a staged-file name from it.
///
/// The token is random, so nothing pins which name comes back; every outcome
/// is the staged name of this input under some token.
pub fn fresh_staged_name(input: &str) -> (r: String)
    ensures
        exists|t: u64| r@ == spec_staged_name(input.spec_bytes(), t),
{
    let token = rand::random::<u64>();
    let r = staged_file_name(input, token);
    proof {
        assert(r@ == spec_staged_name(input.spec_bytes(), token));
    }
    r
}

/// Temp isolation: operations that draw distinct random tokens always get
/// distinct staged-file names, whatever their input identifiers are.
pub proof fn lemma_staged_names_distinct(i1: Seq<u8>, t1: u64, i2: Seq<u8>, t2: u64)
    requires
        t1 != t2,
    ensures
        spec_staged_name(i1, t1) != spec_staged_name(i2, t2),
{
    let a1 = dec_digits(fnv1a(i1) as nat);
    let a2 = dec_digits(fnv1a(i2) as nat);
    let b1 = dec_digits(t1 as nat);
    let b2 = dec_digits(t2 as nat);
    let n1 = staged_name_bytes(i1, t1);
    let n2 = staged_name_bytes(i2, t2);
    lemma_dec_digits_bounds(fnv1a(i1) as nat);
    lemma_dec_digits_bounds(fnv1a(i2) as nat);
    lemma_dec_digits_bounds(t1 as nat);
    lemma_dec_digits_bounds(t2 as nat);
    if spec_staged_name(i1, t1) == spec_staged_name(i2, t2) {
        // Equal texts force equal bytes, since every byte is ASCII.
        assert(n1 =~= n2) by {
            assert(ascii_chars(n1).len() == ascii_chars(n2).len());
            assert forall|i: int| 0 <= i < n1.len() implies n1[i] == n2[i] by {
                assert(ascii_chars(n1)[i] == ascii_chars(n2)[i]);
                assert(n1[i] as char == n2[i] as char);
            }
        }
        // The hash digits end at the first '-': digits are never '-'.
        assert(a1.len() == a2.len()) by {
            if a1.len() < a2.len() {
                assert(n1[a1.len() as int] == 45);
                assert(n2[a1.len() as int] == a2[a1.len() as int]);
            } else if a2.len() < a1.len() {
                assert(n2[a2.len() as int] == 45);
                assert(n1[a2.len() as int] == a1[a2.len() as int]);
            }
        }
        // Same total length, so the token digit runs have the same length too.
        assert(b1.len() == b2.len());
        assert(b1 =~= b2) by {
            assert forall|i: int| 0 <= i < b1.len() implies b1[i] == b2[i] by {
                assert(n1[a1.len() + 1 + i] == b1[i]);
                assert(n2[a2.len() + 1 + i] == b2[i]);
            }
        }
        lemma_dec_digits_injective(t1 as nat, t2 as nat);
    }
}

} // verus!
