//! Size statistics of one archive operation: raw byte counts, a decimal
//! human-readable rendering of each, and a fixed-precision rendering of
//! their quotient.

use crate::digits::{ascii_chars, dec_digits, dec_digits_fixed, dec_of, lemma_dec_digits_bounds,
    lemma_dec_digits_fixed_bounds, pow10, string_of_ascii};
use vstd::arithmetic::div_mod::{lemma_basic_div, lemma_fundamental_div_mod,
    lemma_fundamental_div_mod_converse_div, lemma_fundamental_div_mod_converse_mod,
    lemma_multiply_divide_lt, lemma_small_mod};
use vstd::prelude::*;

verus! {

/// The unit tail of a size rendering at magnitude `k` of the decimal scale:
/// `" B"`, `" kB"`, `" MB"`, `" GB"`, `" TB"`, `" PB"`, `" EB"` as ASCII bytes.
pub open spec fn size_suffix(k: nat) -> Seq<u8> {
    if k == 0 {
        seq![32u8, 66u8]
    } else if k == 1 {
        seq![32u8, 107u8, 66u8]
    } else if k == 2 {
        seq![32u8, 77u8, 66u8]
    } else if k == 3 {
        seq![32u8, 71u8, 66u8]
    } else if k == 4 {
        seq![32u8, 84u8, 66u8]
    } else if k == 5 {
        seq![32u8, 80u8, 66u8]
    } else {
        seq![32u8, 69u8, 66u8]
    }
}

/// The magnitude of `n` on the decimal scale: the largest `k <= 6` with
/// `1000^k <= n`.
pub open spec fn size_scale(n: nat) -> nat {
    if n < 1000 {
        0
    } else if n < 1000000 {
        1
    } else if n < 1000000000 {
        2
    } else if n < 1000000000000 {
        3
    } else if n < 1000000000000000 {
        4
    } else if n < 1000000000000000000 {
        5
    } else {
        6
    }
}

/// `1000^k` for the magnitudes the scale uses.
pub open spec fn pow1000(k: nat) -> nat {
    if k == 0 {
        1
    } else if k == 1 {
        1000
    } else if k == 2 {
        1000000
    } else if k == 3 {
        1000000000
    } else if k == 4 {
        1000000000000
    } else if k == 5 {
        1000000000000000
    } else {
        1000000000000000000
    }
}

/// `n / p` in tenths, rounded half away from zero.
pub open spec fn size_tenths(n: nat, p: nat) -> nat {
    (20 * n + p) / (2 * p)
}

/// The human-readable decimal rendering of a byte count: the count scaled to
/// the largest unit of 1000 it reaches, with one fractional digit (rounded
/// half away from zero), a space, and the unit; plain byte counts below 1000
/// are rendered without a fractional digit.
pub open spec fn spec_human_size(n: nat) -> Seq<char> {
    let k = size_scale(n);
    if k == 0 {
        ascii_chars(dec_digits(n) + size_suffix(0))
    } else {
        let t = size_tenths(n, pow1000(k));
        ascii_chars(dec_digits(t / 10) + seq![46u8, (48 + t % 10) as u8] + size_suffix(k))
    }
}

/// The first `d` fractional decimal digits of `o / i`, as one `d`-digit
/// number: `floor((o mod i) * 10^d / i)`.
pub open spec fn frac_scaled(o: nat, i: nat, d: nat) -> nat {
    ((o % i) * pow10(d)) / i
}

/// The quotient `o / i` rendered with exactly `d` fractional digits,
/// truncated (not rounded) beyond the last digit; no point is printed for
/// `d == 0`. A zero `i` yields `"inf"` (or `"NaN"` when `o` is zero too),
/// as the quotient is not a number there.
pub open spec fn spec_ratio_formatted(o: nat, i: nat, d: nat) -> Seq<char> {
    if i == 0 {
        if o == 0 {
            ascii_chars(seq![78u8, 97u8, 78u8])
        } else {
            ascii_chars(seq![105u8, 110u8, 102u8])
        }
    } else if d == 0 {
        ascii_chars(dec_digits(o / i))
    } else {
        ascii_chars(dec_digits(o / i) + seq![46u8] + dec_digits_fixed(frac_scaled(o, i, d), d))
    }
}

/// Renders a byte count on the decimal scale, as [`spec_human_size`] says.
pub fn human_size(n: u64) -> (r: String)
    ensures
        r@ == spec_human_size(n as nat),
{
    if n < 1000 {
        let mut v = dec_of(n);
        v.push(32);
        v.push(66);
        proof {
            lemma_dec_digits_bounds(n as nat);
            assert(v@ =~= dec_digits(n as nat) + size_suffix(0));
            assert forall|i: int| 0 <= i < v@.len() implies #[trigger] v@[i] < 128 by {
                if i < dec_digits(n as nat).len() {
                    assert(v@[i] == dec_digits(n as nat)[i]);
                }
            }
        }
        return string_of_ascii(&v);
    }
    let p: u64 = if n < 1000000 {
        1000
    } else if n < 1000000000 {
        1000000
    } else if n < 1000000000000 {
        1000000000
    } else if n < 1000000000000000 {
        1000000000000
    } else if n < 1000000000000000000 {
        1000000000000000
    } else {
        1000000000000000000
    };
    let ghost k = size_scale(n as nat);
    proof {
        assert(p as nat == pow1000(k));
    }
    let big: u128 = (20u128 * (n as u128) + (p as u128)) / (2u128 * (p as u128));
    proof {
        assert(big as nat == size_tenths(n as nat, p as nat));
        let x = 20 * (n as int) + p;
        let umax = u64::MAX as int;
        assert(2000 * umax <= (2 * (p as int)) * umax) by {
            vstd::arithmetic::mul::lemma_mul_inequality(2000, 2 * (p as int), umax);
        }
        assert(x < 2000 * umax);
        lemma_multiply_divide_lt(x, 2 * (p as int), umax);
        assert((big as int) == x / (2 * (p as int)));
        assert((big as int) < umax);
    }
    let t = big as u64;
    let mut v = dec_of(t / 10);
    v.push(46);
    v.push(48 + (t % 10) as u8);
    let (s1, s2) = suffix_bytes_scaled(n);
    v.push(32);
    v.push(s1);
    v.push(s2);
    proof {
        lemma_dec_digits_bounds((t / 10) as nat);
        let t_n = size_tenths(n as nat, pow1000(k));
        assert(big <= u64::MAX as u128);
        assert(t as nat == big as nat);
        assert(big as nat == size_tenths(n as nat, p as nat));
        assert(p as nat == pow1000(k));
        assert(t as nat == t_n);
        assert(v@ =~= dec_digits(t_n / 10) + seq![46u8, (48 + t_n % 10) as u8] + size_suffix(k));
        assert forall|i: int| 0 <= i < v@.len() implies #[trigger] v@[i] < 128 by {
            if i < dec_digits(t_n / 10).len() {
                assert(v@[i] == dec_digits(t_n / 10)[i]);
            }
        }
    }
    string_of_ascii(&v)
}

/// The two unit bytes (after the space) for a count of 1000 or more.
fn suffix_bytes_scaled(n: u64) -> (r: (u8, u8))
    requires
        n >= 1000,
    ensures
        seq![32u8, r.0, r.1] == size_suffix(size_scale(n as nat)),
{
    if n < 1000000 {
        (107, 66)
    } else if n < 1000000000 {
        (77, 66)
    } else if n < 1000000000000 {
        (71, 66)
    } else if n < 1000000000000000 {
        (84, 66)
    } else if n < 1000000000000000000 {
        (80, 66)
    } else {
        (69, 66)
    }
}

/// The result record of one compress or extract run: the byte count that
/// went into the size-changing step and the byte count that came out.
///
/// The ratio is `output_size / input_size` in both directions, so a compress
/// run over compressible data reports a ratio below 1.
#[derive(Debug, Clone, PartialEq, Eq, Structural)]
pub struct ArchiveInfo {
    pub input_size: u64,
    pub output_size: u64,
}

impl ArchiveInfo {
    /// Records the byte counts of one operation.
    pub fn new(input_size: u64, output_size: u64) -> (r: ArchiveInfo)
        ensures
            r.input_size == input_size,
            r.output_size == output_size,
    {
        ArchiveInfo { input_size, output_size }
    }

    /// Get the input size without formatting.
    pub fn input_size(&self) -> (r: u64)
        ensures
            r == self.input_size,
    {
        self.input_size
    }

    /// Get the input size in a human readable format, e.g. `"1.0 kB"` for 1000.
    pub fn input_size_formatted(&self) -> (r: String)
        ensures
            r@ == spec_human_size(self.input_size as nat),
    {
        human_size(self.input_size)
    }

    /// Get the output size without formatting.
    pub fn output_size(&self) -> (r: u64)
        ensures
            r == self.output_size,
    {
        self.output_size
    }

    /// Get the output size in a human readable format, e.g. `"1.0 kB"` for 1000.
    pub fn output_size_formatted(&self) -> (r: String)
        ensures
            r@ == spec_human_size(self.output_size as nat),
    {
        human_size(self.output_size)
    }

    /// Get the ratio formatted to the given number of decimals, as
    /// [`spec_ratio_formatted`] says: `output_size / input_size` with exactly
    /// `num_decimals` fractional digits, truncated past the last one.
    pub fn ratio_formatted(&self, num_decimals: u8) -> (r: String)
        ensures
            r@ == spec_ratio_formatted(
                self.output_size as nat,
                self.input_size as nat,
                num_decimals as nat,
            ),
    {
        let o = self.output_size;
        let i = self.input_size;
        if i == 0 {
            let mut v: Vec<u8> = Vec::new();
            if o == 0 {
                v.push(78);
                v.push(97);
                v.push(78);
                proof {
                    assert(v@ =~= seq![78u8, 97u8, 78u8]);
                }
            } else {
                v.push(105);
                v.push(110);
                v.push(102);
                proof {
                    assert(v@ =~= seq![105u8, 110u8, 102u8]);
                }
            }
            return string_of_ascii(&v);
        }
        let q = o / i;
        let mut v = dec_of(q);
        if num_decimals == 0 {
            proof {
                lemma_dec_digits_bounds(q as nat);
            }
            return string_of_ascii(&v);
        }
        v.push(46);
        let d = num_decimals as usize;
        let ghost m = (o % i) as nat;
        let mut r: u64 = o % i;
        let ghost mut f_val: nat = 0nat;
        let mut f: Vec<u8> = Vec::new();
        let mut j: usize = 0;
        proof {
            lemma_basic_div(m as int, i as int);
            lemma_small_mod(m, i as nat);
            assert(pow10(0) == 1);
            assert(m * pow10(0) == m);
            assert(f@ =~= dec_digits_fixed(0, 0));
        }
        while j < d
            invariant
                0 < i,
                j <= d,
                m == o as nat % i as nat,
                r < i,
                f_val == (m * pow10(j as nat)) / (i as nat),
                r as nat == (m * pow10(j as nat)) % (i as nat),
                f@ == dec_digits_fixed(f_val, j as nat),
            decreases d - j,
        {
            let rr: u128 = (r as u128) * 10;
            let dj = (rr / (i as u128)) as u64;
            let r2 = (rr % (i as u128)) as u64;
            proof {
                let ii = i as int;
                let fv = f_val as int;
                let pw = pow10(j as nat) as int;
                let mpw = (m as int) * pw;
                lemma_multiply_divide_lt(rr as int, ii, 10);
                lemma_fundamental_div_mod(rr as int, ii);
                assert(rr as int == ii * (dj as int) + r2);
                lemma_fundamental_div_mod(mpw, ii);
                assert(mpw == ii * fv + r);
                assert(pow10((j + 1) as nat) == 10 * pow10(j as nat));
                let q2 = 10 * fv + dj;
                assert((m as int) * (10 * pw) == q2 * ii + r2) by (nonlinear_arith)
                    requires
                        mpw == (m as int) * pw,
                        mpw == ii * fv + r,
                        10 * (r as int) == ii * (dj as int) + r2,
                        q2 == 10 * fv + dj,
                {
                }
                let x2 = (m as int) * (pow10((j + 1) as nat) as int);
                assert(x2 == q2 * ii + r2);
                lemma_fundamental_div_mod_converse_div(x2, ii, q2, r2 as int);
                lemma_fundamental_div_mod_converse_mod(x2, ii, q2, r2 as int);
                let f2 = (10 * f_val + dj as nat) as nat;
                lemma_fundamental_div_mod_converse_div(f2 as int, 10, f_val as int, dj as int);
                lemma_fundamental_div_mod_converse_mod(f2 as int, 10, f_val as int, dj as int);
                assert(dec_digits_fixed(f2, (j + 1) as nat)
                    == dec_digits_fixed(f_val, j as nat) + seq![(48 + dj) as u8]);
            }
            f.push(48 + dj as u8);
            r = r2;
            proof {
                f_val = (10 * f_val + dj as nat) as nat;
            }
            j = j + 1;
        }
        let ghost q_digits = dec_digits(q as nat);
        v.append(&mut f);
        proof {
            assert(f_val == frac_scaled(o as nat, i as nat, num_decimals as nat));
            assert(v@ =~= q_digits + seq![46u8] + dec_digits_fixed(f_val, num_decimals as nat));
            lemma_dec_digits_bounds(q as nat);
            lemma_dec_digits_fixed_bounds(f_val, num_decimals as nat);
            assert forall|ix: int| 0 <= ix < v@.len() implies #[trigger] v@[ix] < 128 by {
                if ix < q_digits.len() {
                    assert(v@[ix] == q_digits[ix]);
                } else if ix > q_digits.len() {
                    assert(v@[ix] == dec_digits_fixed(f_val, num_decimals as nat)[ix
                        - q_digits.len() - 1]);
                }
            }
        }
        string_of_ascii(&v)
    }
}

/// Ratio formatting always renders exactly `d` fractional digits: after the
/// integer part comes one point, then `d` ASCII decimal digits, nothing more.
pub proof fn lemma_ratio_formatted_digits(o: nat, i: nat, d: nat)
    requires
        i > 0,
        d > 0,
    ensures
        spec_ratio_formatted(o, i, d).len() == dec_digits(o / i).len() + 1 + d,
        spec_ratio_formatted(o, i, d)[dec_digits(o / i).len() as int] == 46u8 as char,
        forall|j: int|
            0 <= j < d ==> {
                let c = #[trigger] spec_ratio_formatted(o, i, d)[dec_digits(o / i).len() + 1 + j];
                48 <= c as u32 <= 57
            },
{
    let whole = dec_digits(o / i);
    let frac = dec_digits_fixed(frac_scaled(o, i, d), d);
    let bytes = whole + seq![46u8] + frac;
    lemma_dec_digits_fixed_bounds(frac_scaled(o, i, d), d);
    assert forall|j: int| 0 <= j < d implies {
        let c = #[trigger] spec_ratio_formatted(o, i, d)[whole.len() + 1 + j];
        48 <= c as u32 <= 57
    } by {
        assert(bytes[whole.len() + 1 + j] == frac[j]);
    }
}

} // verus!
