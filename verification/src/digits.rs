//! ASCII renderings of unsigned numbers: decimal (for names and statistics)
//! and fixed-width octal (for the numeric fields of a tar header).

use vstd::arithmetic::div_mod::lemma_mod_breakdown;
use vstd::arithmetic::power::pow;
use vstd::prelude::*;

verus! {

/// The decimal digits of `n`, most significant first, as ASCII bytes,
/// with no leading zeros (a single `'0'` for zero itself).
pub open spec fn dec_digits(n: nat) -> Seq<u8>
    decreases n,
{
    if n < 10 {
        seq![(48 + n) as u8]
    } else {
        dec_digits(n / 10) + seq![(48 + n % 10) as u8]
    }
}

/// Every decimal rendering is nonempty and made of ASCII digits only.
pub proof fn lemma_dec_digits_bounds(n: nat)
    ensures
        dec_digits(n).len() >= 1,
        forall|i: int| 0 <= i < dec_digits(n).len() ==> 48 <= #[trigger] dec_digits(n)[i] <= 57,
    decreases n,
{
    if n >= 10 {
        lemma_dec_digits_bounds(n / 10);
        assert forall|i: int| 0 <= i < dec_digits(n).len() implies 48 <= #[trigger] dec_digits(
            n,
        )[i] <= 57 by {
            if i < dec_digits(n / 10).len() {
                assert(dec_digits(n)[i] == dec_digits(n / 10)[i]);
            }
        }
    }
}

/// A number of 10 or more has at least two decimal digits.
pub proof fn lemma_dec_digits_len2(n: nat)
    requires
        n >= 10,
    ensures
        dec_digits(n).len() >= 2,
{
    lemma_dec_digits_bounds(n / 10);
}

/// Distinct numbers have distinct decimal renderings.
pub proof fn lemma_dec_digits_injective(a: nat, b: nat)
    ensures
        dec_digits(a) == dec_digits(b) ==> a == b,
    decreases a,
{
    if dec_digits(a) == dec_digits(b) {
        if a < 10 && b < 10 {
            assert(dec_digits(a)[0] == dec_digits(b)[0]);
        } else if a < 10 {
            lemma_dec_digits_len2(b);
        } else if b < 10 {
            lemma_dec_digits_len2(a);
        } else {
            assert(dec_digits(a).last() == dec_digits(b).last());
            assert(a % 10 == b % 10);
            assert(dec_digits(a).drop_last() =~= dec_digits(a / 10));
            assert(dec_digits(b).drop_last() =~= dec_digits(b / 10));
            lemma_dec_digits_injective(a / 10, b / 10);
            assert(a == 10 * (a / 10) + a % 10);
            assert(b == 10 * (b / 10) + b % 10);
        }
    }
}

/// Renders `n` in decimal, most significant digit first.
pub fn dec_of(n: u64) -> (r: Vec<u8>)
    ensures
        r@ == dec_digits(n as nat),
    decreases n,
{
    if n < 10 {
        let mut v: Vec<u8> = Vec::new();
        v.push(48 + n as u8);
        proof {
            assert(v@ =~= dec_digits(n as nat));
        }
        v
    } else {
        let mut v = dec_of(n / 10);
        v.push(48 + (n % 10) as u8);
        proof {
            assert(v@ =~= dec_digits(n as nat));
        }
        v
    }
}

/// The low `w` octal digits of `n`, most significant first, as ASCII bytes,
/// zero-padded to exactly `w` digits.
pub open spec fn oct_digits(n: nat, w: nat) -> Seq<u8>
    decreases w,
{
    if w == 0 {
        Seq::empty()
    } else {
        oct_digits(n / 8, (w - 1) as nat) + seq![(48 + n % 8) as u8]
    }
}

/// True when every byte of `s` is an ASCII octal digit `'0'..='7'`.
pub open spec fn all_oct_digits(s: Seq<u8>) -> bool {
    forall|i: int| 0 <= i < s.len() ==> 48 <= #[trigger] s[i] <= 55
}

/// The value of a sequence of ASCII octal digits, most significant first.
pub open spec fn oct_val(s: Seq<u8>) -> nat
    decreases s.len(),
{
    if s.len() == 0 {
        0
    } else {
        oct_val(s.drop_last()) * 8 + (if 48 <= s.last() <= 55 {
            (s.last() - 48) as nat
        } else {
            0
        })
    }
}

/// Reading a `w`-digit octal rendering back gives the value modulo `8^w`,
/// and the rendering is made of octal digits of length `w`.
pub proof fn lemma_oct_digits_val(n: nat, w: nat)
    ensures
        oct_digits(n, w).len() == w,
        all_oct_digits(oct_digits(n, w)),
        oct_val(oct_digits(n, w)) == n % (pow(8, w) as nat),
    decreases w,
{
    if w == 0 {
        vstd::arithmetic::power::lemma_pow0(8);
        assert(n % 1 == 0) by (nonlinear_arith);
    } else {
        lemma_oct_digits_val(n / 8, (w - 1) as nat);
        let s = oct_digits(n, w);
        let prev = oct_digits(n / 8, (w - 1) as nat);
        assert(s.drop_last() =~= prev);
        assert(s.last() == (48 + n % 8) as u8);
        assert forall|i: int| 0 <= i < s.len() implies 48 <= #[trigger] s[i] <= 55 by {
            if i < prev.len() {
                assert(s[i] == prev[i]);
            }
        }
        let z = pow(8, (w - 1) as nat);
        vstd::arithmetic::power::lemma_pow_positive(8, (w - 1) as nat);
        lemma_mod_breakdown(n as int, 8, z);
        assert(pow(8, w) == 8 * z) by {
            reveal(pow);
        }
        assert(oct_val(s) == oct_val(prev) * 8 + n % 8);
        assert(oct_val(prev) == (n as int / 8) % z);
    }
}

/// When `n < 8^w` its `w`-digit octal rendering reads back as `n` itself.
pub proof fn lemma_oct_digits_roundtrip(n: nat, w: nat)
    requires
        n < pow(8, w),
    ensures
        oct_digits(n, w).len() == w,
        all_oct_digits(oct_digits(n, w)),
        oct_val(oct_digits(n, w)) == n,
{
    lemma_oct_digits_val(n, w);
    vstd::arithmetic::div_mod::lemma_small_mod(n, pow(8, w) as nat);
}

/// `8^e` over the naturals.
pub open spec fn pow8(e: nat) -> nat
    decreases e,
{
    if e == 0 {
        1
    } else {
        8 * pow8((e - 1) as nat)
    }
}

/// `pow8` grows monotonically.
pub proof fn lemma_pow8_mono(a: nat, b: nat)
    requires
        a <= b,
    ensures
        pow8(a) <= pow8(b),
    decreases b,
{
    if a < b {
        lemma_pow8_mono(a, (b - 1) as nat);
    }
}

/// `pow8` agrees with the general power function.
pub proof fn lemma_pow8_is_pow(e: nat)
    ensures
        pow8(e) == pow(8, e),
    decreases e,
{
    reveal(pow);
    if e > 0 {
        lemma_pow8_is_pow((e - 1) as nat);
    }
}

/// The numeric value of `8^11`, the bound of an 11-digit octal field.
pub proof fn lemma_pow8_11()
    ensures
        pow8(11) == 0x200000000,
{
    assert(pow8(0) == 1);
    assert(pow8(1) == 8);
    assert(pow8(2) == 64);
    assert(pow8(3) == 512);
    assert(pow8(4) == 4096);
    assert(pow8(5) == 32768);
    assert(pow8(6) == 262144);
    assert(pow8(7) == 2097152);
    assert(pow8(8) == 16777216);
    assert(pow8(9) == 134217728);
    assert(pow8(10) == 1073741824);
}

/// A string of octal digits is worth less than `8` to the power of its length.
pub proof fn lemma_oct_val_bound(s: Seq<u8>)
    requires
        all_oct_digits(s),
    ensures
        oct_val(s) < pow8(s.len()),
    decreases s.len(),
{
    if s.len() > 0 {
        assert forall|i: int| 0 <= i < s.drop_last().len() implies 48 <= #[trigger] s.drop_last()[i]
            <= 55 by {
            assert(s.drop_last()[i] == s[i]);
        }
        lemma_oct_val_bound(s.drop_last());
        assert(48 <= s.last() <= 55);
    }
}

/// `10^e` over the naturals.
pub open spec fn pow10(e: nat) -> nat
    decreases e,
{
    if e == 0 {
        1
    } else {
        10 * pow10((e - 1) as nat)
    }
}

/// The low `w` decimal digits of `n`, most significant first, as ASCII bytes,
/// zero-padded to exactly `w` digits.
pub open spec fn dec_digits_fixed(n: nat, w: nat) -> Seq<u8>
    decreases w,
{
    if w == 0 {
        Seq::empty()
    } else {
        dec_digits_fixed(n / 10, (w - 1) as nat) + seq![(48 + n % 10) as u8]
    }
}

/// A fixed-width decimal rendering has exactly the asked-for width and is
/// made of ASCII digits only.
pub proof fn lemma_dec_digits_fixed_bounds(n: nat, w: nat)
    ensures
        dec_digits_fixed(n, w).len() == w,
        forall|i: int|
            0 <= i < w ==> 48 <= #[trigger] dec_digits_fixed(n, w)[i] <= 57,
    decreases w,
{
    if w > 0 {
        lemma_dec_digits_fixed_bounds(n / 10, (w - 1) as nat);
        let s = dec_digits_fixed(n, w);
        let prev = dec_digits_fixed(n / 10, (w - 1) as nat);
        assert forall|i: int| 0 <= i < w implies 48 <= #[trigger] s[i] <= 57 by {
            if i < prev.len() {
                assert(s[i] == prev[i]);
            }
        }
    }
}

/// The text a sequence of ASCII bytes spells, one character per byte.
pub open spec fn ascii_chars(s: Seq<u8>) -> Seq<char> {
    s.map_values(|b: u8| b as char)
}

/// Relies on `String::from_utf8`: bytes below 128 are valid UTF-8 and decode
/// to the characters with the same code points.
#[verifier::external_body]
pub fn string_of_ascii(bytes: &Vec<u8>) -> (r: String)
    requires
        forall|i: int| 0 <= i < bytes@.len() ==> #[trigger] bytes@[i] < 128,
    ensures
        r@ == ascii_chars(bytes@),
{
    String::from_utf8(bytes.clone()).expect("ascii bytes are valid utf-8")
}

/// Renders the low `w` octal digits of `n`, most significant first.
pub fn oct_of(n: u64, w: usize) -> (r: Vec<u8>)
    ensures
        r@ == oct_digits(n as nat, w as nat),
    decreases w,
{
    if w == 0 {
        let v: Vec<u8> = Vec::new();
        proof {
            assert(v@ =~= oct_digits(n as nat, 0));
        }
        v
    } else {
        let mut v = oct_of(n / 8, w - 1);
        v.push(48 + (n % 8) as u8);
        proof {
            assert(v@ =~= oct_digits(n as nat, w as nat));
        }
        v
    }
}

} // verus!
