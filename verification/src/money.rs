use vstd::prelude::*;
use vstd::arithmetic::div_mod::{lemma_div_denominator, lemma_fundamental_div_mod};

verus! {

/// Number of fractional digits every `Money` value carries.
pub const MONEY_SCALE: u32 = 4;

/// How many minor units make up one whole currency unit (10 ^ MONEY_SCALE).
pub const MONEY_UNIT: u64 = 10000;

/// One more than the largest amount in minor units: a parsed amount at or
/// above this bound does not fit in `Money`.
pub const MONEY_CAP: u128 = 0x1_0000_0000_0000_0000;

/// True of an ASCII decimal digit.
pub open spec fn is_digit(b: u8) -> bool {
    48 <= b <= 57
}

/// Every byte of `s` is an ASCII digit.
pub open spec fn all_digits(s: Seq<u8>) -> bool {
    forall|i: int| 0 <= i < s.len() ==> is_digit(#[trigger] s[i])
}

/// The number an ASCII digit string denotes, most significant digit first.
pub open spec fn digits_val(s: Seq<u8>) -> int
    decreases s.len(),
{
    if s.len() == 0 {
        0
    } else {
        digits_val(s.drop_last()) * 10 + (s.last() - 48)
    }
}

/// Ten to the `n`th power (one for `n` at or below zero).
pub open spec fn pow10(n: int) -> int
    decreases n,
{
    if n <= 0 {
        1
    } else {
        10 * pow10(n - 1)
    }
}

/// The index of the first `.` in `s`, or `s.len()` if there is none.
pub open spec fn dot_pos(s: Seq<u8>) -> int
    decreases s.len(),
{
    if s.len() == 0 {
        0
    } else if s[0] == 46 {
        0
    } else {
        1 + dot_pos(s.drop_first())
    }
}

/// The amount a trimmed ASCII decimal string denotes: one or more integer
/// digits, optionally followed by a dot and one to four fraction digits.
/// `None` when the text is not of that shape or the amount does not fit.
pub open spec fn spec_parse(s: Seq<u8>) -> Option<Money> {
    let k = dot_pos(s);
    if k == s.len() {
        if s.len() > 0 && all_digits(s) && digits_val(s) * (MONEY_UNIT as int) < MONEY_CAP {
            Some(Money { units: (digits_val(s) * (MONEY_UNIT as int)) as u64 })
        } else {
            None
        }
    } else {
        let ip = s.take(k);
        let fp = s.skip(k + 1);
        let units = digits_val(ip) * (MONEY_UNIT as int) + digits_val(fp) * pow10(
            MONEY_SCALE as int - fp.len(),
        );
        if ip.len() > 0 && 1 <= fp.len() <= MONEY_SCALE && all_digits(ip) && all_digits(fp)
            && units < MONEY_CAP {
            Some(Money { units: units as u64 })
        } else {
            None
        }
    }
}

/// The shortest ASCII digit string for `n`: no leading zeros, a single
/// `0` for zero.
pub open spec fn spec_digits(n: int) -> Seq<u8>
    recommends
        n >= 0,
    decreases n,
{
    if n <= 9 {
        seq![(48 + n) as u8]
    } else {
        spec_digits(n / 10).push((48 + n % 10) as u8)
    }
}

/// The rendering of a non-zero fractional part `f` (in minor units, below
/// `MONEY_UNIT`): four zero-padded digits with trailing zeros trimmed.
pub open spec fn spec_frac(f: int) -> Seq<u8>
    recommends
        0 < f < MONEY_UNIT,
{
    if f % 1000 == 0 {
        seq![(48 + f / 1000) as u8]
    } else if f % 100 == 0 {
        seq![(48 + f / 1000) as u8, (48 + (f / 100) % 10) as u8]
    } else if f % 10 == 0 {
        seq![(48 + f / 1000) as u8, (48 + (f / 100) % 10) as u8, (48 + (f / 10) % 10) as u8]
    } else {
        seq![
            (48 + f / 1000) as u8,
            (48 + (f / 100) % 10) as u8,
            (48 + (f / 10) % 10) as u8,
            (48 + f % 10) as u8,
        ]
    }
}

/// The canonical decimal rendering of an amount: the whole part and, when
/// the fractional part is not zero, a dot and the fraction digits with
/// trailing zeros trimmed. Every amount the parser accepts renders back to
/// an equivalent string.
pub open spec fn spec_format(m: Money) -> Seq<u8> {
    let whole = m.units as int / (MONEY_UNIT as int);
    let frac = m.units as int % (MONEY_UNIT as int);
    if frac == 0 {
        spec_digits(whole)
    } else {
        spec_digits(whole) + seq![46u8] + spec_frac(frac)
    }
}

/// An exact, non-negative fixed-point amount of currency.
///
/// The value is stored as a count of minor units, each worth
/// 1 / 10^4 of a whole currency unit. Arithmetic is checked:
/// additions report overflow and subtractions report attempts to
/// go negative instead of wrapping.
#[derive(Clone, Copy, Debug, PartialEq, Eq, Structural)]
pub struct Money {
    /// The amount, counted in 1/10000ths of a currency unit.
    pub units: u64,
}

impl Money {
    /// The sum of two amounts, truncated to 64 bits. Meaningful only where
    /// the mathematical sum fits in `u64`, which the checked operations and
    /// the ledger invariant guarantee.
    pub open spec fn spec_add(self, other: Money) -> Money {
        Money { units: (self.units + other.units) as u64 }
    }

    /// The difference of two amounts, truncated to 64 bits. Meaningful only
    /// where `self` is at least `other`.
    pub open spec fn spec_sub(self, other: Money) -> Money {
        Money { units: (self.units - other.units) as u64 }
    }

    /// The zero amount.
    pub fn zero() -> (r: Money)
        ensures
            r.units == 0,
    {
        Money { units: 0 }
    }

    /// Builds an amount from a count of minor units.
    pub fn from_units(units: u64) -> (r: Money)
        ensures
            r.units == units,
    {
        Money { units }
    }

    /// True exactly when the amount is zero.
    pub fn is_zero(&self) -> (r: bool)
        ensures
            r == (self.units == 0),
    {
        self.units == 0
    }

    /// Checked addition: `None` exactly when the sum would not fit.
    pub fn add(self, other: Money) -> (r: Option<Money>)
        ensures
            self.units + other.units <= u64::MAX ==> r == Some(self.spec_add(other)),
            self.units + other.units > u64::MAX ==> r is None,
    {
        if self.units <= u64::MAX - other.units {
            Some(Money { units: self.units + other.units })
        } else {
            None
        }
    }

    /// Checked subtraction: `None` exactly when the result would be negative.
    pub fn checked_sub(self, other: Money) -> (r: Option<Money>)
        ensures
            self.units >= other.units ==> r == Some(self.spec_sub(other)),
            self.units < other.units ==> r is None,
    {
        if self.units >= other.units {
            Some(Money { units: self.units - other.units })
        } else {
            None
        }
    }

    /// True exactly when `self` is at least `other`.
    pub fn ge(&self, other: &Money) -> (r: bool)
        ensures
            r == (self.units >= other.units),
    {
        self.units >= other.units
    }

    /// Reads an amount from trimmed ASCII text, exactly as `spec_parse`
    /// describes it: `None` for a malformed shape, for more fraction
    /// digits than `Money` carries, and for an amount that does not fit.
    pub fn parse(s: &[u8]) -> (r: Option<Money>)
        ensures
            r == spec_parse(s@),
    {
        let n: usize = s.len();
        let mut k: usize = 0;
        while k < n && s[k] != 46
            invariant
                k <= n == s@.len(),
                forall|j: int| 0 <= j < k ==> s@[j] != 46,
            decreases n - k,
        {
            k = k + 1;
        }
        proof {
            lemma_dot_pos_char(s@, k as int);
        }
        if k == 0 {
            return None;
        }
        // the integer part: bytes 0 .. k
        let mut acc: u128 = 0;
        let mut i: usize = 0;
        while i < k
            invariant
                i <= k <= n == s@.len(),
                dot_pos(s@) == k as int,
                k < n ==> s@[k as int] == 46,
                k >= 1,
                forall|j: int| 0 <= j < i ==> is_digit(s@[j]),
                acc == if digits_val(s@.take(i as int)) < MONEY_CAP {
                    digits_val(s@.take(i as int))
                } else {
                    MONEY_CAP as int
                },
            decreases k - i,
        {
            let b = s[i];
            if b < 48 || b > 57 {
                proof {
                    if k == n {
                        assert(!is_digit(s@[i as int]));
                        assert(!all_digits(s@));
                    } else {
                        assert(s@.take(k as int)[i as int] == s@[i as int]);
                        assert(!is_digit(s@.take(k as int)[i as int]));
                        assert(!all_digits(s@.take(k as int)));
                    }
                }
                return None;
            }
            let d: u128 = (b - 48) as u128;
            let mut next: u128 = acc * 10 + d;
            if next > u64::MAX as u128 {
                next = MONEY_CAP;
            }
            proof {
                assert(s@.take(i + 1).drop_last() =~= s@.take(i as int));
                assert(s@.take(i + 1).last() == s@[i as int]);
            }
            acc = next;
            i = i + 1;
        }
        proof {
            assert forall|j: int| 0 <= j < k implies is_digit(#[trigger] s@.take(k as int)[j]) by {
                assert(s@.take(k as int)[j] == s@[j]);
            }
            assert(all_digits(s@.take(k as int)));
            if k == n {
                assert(s@.take(k as int) =~= s@);
            }
        }
        if k == n {
            // no fractional part
            let wide: u128 = acc * (MONEY_UNIT as u128);
            proof {
                let v = digits_val(s@);
                if v >= MONEY_CAP {
                    assert(v * (MONEY_UNIT as int) >= v) by (nonlinear_arith)
                        requires
                            v >= 0,
                    ;
                }
            }
            if wide < MONEY_CAP {
                return Some(Money { units: wide as u64 });
            } else {
                return None;
            }
        }
        // the fractional part: bytes k + 1 .. n
        let flen: usize = n - k - 1;
        if flen == 0 || flen > 4 {
            return None;
        }
        let ghost fp = s@.skip(k as int + 1);
        let mut facc: u64 = 0;
        let mut j: usize = 0;
        while j < flen
            invariant
                j <= flen == n - k - 1,
                k < n == s@.len(),
                dot_pos(s@) == k as int,
                k >= 1,
                1 <= flen <= 4,
                fp == s@.skip(k as int + 1),
                all_digits(s@.take(k as int)),
                forall|t: int| 0 <= t < j ==> is_digit(fp[t]),
                facc == digits_val(fp.take(j as int)),
                facc < pow10(j as int),
            decreases flen - j,
        {
            let b = s[k + 1 + j];
            proof {
                assert(fp[j as int] == s@[k + 1 + j]);
            }
            if b < 48 || b > 57 {
                proof {
                    assert(!is_digit(fp[j as int]));
                    assert(!all_digits(fp));
                }
                return None;
            }
            proof {
                assert(fp.take(j + 1).drop_last() =~= fp.take(j as int));
                assert(fp.take(j + 1).last() == fp[j as int]);
                lemma_pow10_small();
            }
            facc = facc * 10 + ((b - 48) as u64);
            j = j + 1;
        }
        proof {
            assert(fp.take(flen as int) =~= fp);
            assert(all_digits(fp));
            lemma_pow10_small();
        }
        let mult: u64 = if flen == 1 {
            1000
        } else if flen == 2 {
            100
        } else if flen == 3 {
            10
        } else {
            1
        };
        proof {
            assert(mult == pow10(MONEY_SCALE as int - flen));
            if flen == 1 {
                assert(facc <= 9);
            } else if flen == 2 {
                assert(facc <= 99);
            } else if flen == 3 {
                assert(facc <= 999);
            } else {
                assert(facc <= 9999);
            }
        }
        let wide: u128 = acc * (MONEY_UNIT as u128) + (facc * mult) as u128;
        proof {
            let v = digits_val(s@.take(k as int));
            if v >= MONEY_CAP {
                assert(v * (MONEY_UNIT as int) >= v) by (nonlinear_arith)
                    requires
                        v >= 0,
                ;
            }
        }
        if wide < MONEY_CAP {
            Some(Money { units: wide as u64 })
        } else {
            None
        }
    }

    /// Renders the amount as ASCII text, exactly as `spec_format`
    /// describes it: the canonical shortest decimal form.
    pub fn format(&self) -> (r: Vec<u8>)
        ensures
            r@ == spec_format(*self),
    {
        let whole: u64 = self.units / MONEY_UNIT;
        let frac: u64 = self.units % MONEY_UNIT;
        let mut out: Vec<u8> = Vec::new();
        push_digits(whole, &mut out);
        if frac != 0 {
            out.push(46);
            let d1: u8 = 48 + (frac / 1000) as u8;
            let d2: u8 = 48 + ((frac / 100) % 10) as u8;
            let d3: u8 = 48 + ((frac / 10) % 10) as u8;
            let d4: u8 = 48 + (frac % 10) as u8;
            if frac % 1000 == 0 {
                out.push(d1);
            } else if frac % 100 == 0 {
                out.push(d1);
                out.push(d2);
            } else if frac % 10 == 0 {
                out.push(d1);
                out.push(d2);
                out.push(d3);
            } else {
                out.push(d1);
                out.push(d2);
                out.push(d3);
                out.push(d4);
            }
            proof {
                assert(out@ =~= spec_format(*self));
            }
        }
        out
    }
}

/// Appends the decimal digits of `n`, most significant first, to `out`.
fn push_digits(n: u64, out: &mut Vec<u8>)
    ensures
        final(out)@ == old(out)@ + spec_digits(n as int),
    decreases n,
{
    if n <= 9 {
        out.push(48 + n as u8);
        proof {
            assert(out@ =~= old(out)@ + spec_digits(n as int));
        }
    } else {
        push_digits(n / 10, out);
        out.push(48 + (n % 10) as u8);
        proof {
            assert(out@ =~= old(out)@ + spec_digits(n as int));
        }
    }
}

/// The small powers of ten, spelled out for the fraction digits.
proof fn lemma_pow10_small()
    ensures
        pow10(0) == 1,
        pow10(1) == 10,
        pow10(2) == 100,
        pow10(3) == 1000,
        pow10(4) == 10000,
{
    assert(pow10(0) == 1);
    assert(pow10(1) == 10);
    assert(pow10(2) == 100);
    assert(pow10(3) == 1000);
    assert(pow10(4) == 10000);
}

/// `dot_pos` is the first dot: no dot lies below `k`, and `k` is either a
/// dot or the end of the text.
proof fn lemma_dot_pos_char(s: Seq<u8>, k: int)
    requires
        0 <= k <= s.len(),
        forall|j: int| 0 <= j < k ==> s[j] != 46,
        k < s.len() ==> s[k] == 46,
    ensures
        dot_pos(s) == k,
    decreases s.len(),
{
    if s.len() == 0 {
    } else if s[0] == 46 {
        assert(k == 0);
    } else {
        let s2 = s.drop_first();
        assert(forall|j: int| 0 <= j < k - 1 ==> s2[j] == s[j + 1] && s[j + 1] != 46);
        assert(k - 1 < s2.len() ==> s2[k - 1] == s[k]);
        lemma_dot_pos_char(s2, k - 1);
    }
}

/// The shortest digit string of a non-negative number is all digits, is
/// never empty, and denotes the number itself.
proof fn lemma_spec_digits_props(n: int)
    requires
        n >= 0,
    ensures
        all_digits(spec_digits(n)),
        spec_digits(n).len() >= 1,
        digits_val(spec_digits(n)) == n,
    decreases n,
{
    if n <= 9 {
        let s = spec_digits(n);
        assert(s == seq![(48 + n) as u8]);
        assert(s.drop_last() =~= Seq::<u8>::empty());
        assert(digits_val(Seq::<u8>::empty()) == 0);
        assert(s.last() == (48 + n) as u8 && (48 + n) as u8 == 48 + n);
        assert(digits_val(s) == n);
        assert(is_digit(s[0]));
    } else {
        lemma_spec_digits_props(n / 10);
        let x = spec_digits(n / 10);
        let d = (48 + n % 10) as u8;
        let s = x.push(d);
        lemma_digits_val_push(x, d);
        assert(d == 48 + n % 10);
        lemma_fundamental_div_mod(n, 10);
        assert(digits_val(s) == n);
        assert forall|i: int| 0 <= i < s.len() implies is_digit(#[trigger] s[i]) by {
            if i < x.len() {
                assert(s[i] == x[i]);
            } else {
                assert(s[i] == d);
            }
        }
    }
}

/// The trimmed fraction digits of a non-zero fractional part are all
/// digits, at most `MONEY_SCALE` of them, and scaled back up by the
/// trimmed-away power of ten they denote exactly the fractional part.
proof fn lemma_spec_frac_props(f: int)
    requires
        0 < f < MONEY_UNIT,
    ensures
        all_digits(spec_frac(f)),
        1 <= spec_frac(f).len() <= MONEY_SCALE,
        digits_val(spec_frac(f)) * pow10(MONEY_SCALE as int - spec_frac(f).len()) == f,
{
    lemma_pow10_small();
    let d1 = (48 + f / 1000) as u8;
    let d2 = (48 + (f / 100) % 10) as u8;
    let d3 = (48 + (f / 10) % 10) as u8;
    let d4 = (48 + f % 10) as u8;
    lemma_fundamental_div_mod(f, 1000);
    lemma_fundamental_div_mod(f, 100);
    lemma_fundamental_div_mod(f, 10);
    assert(0 <= f / 1000 <= 9);
    assert(d1 == 48 + f / 1000);
    assert(d2 == 48 + (f / 100) % 10);
    assert(d3 == 48 + (f / 10) % 10);
    assert(d4 == 48 + f % 10);
    let e = Seq::<u8>::empty();
    assert(digits_val(e) == 0);
    if f % 1000 == 0 {
        let s = spec_frac(f);
        assert(s =~= e.push(d1));
        lemma_digits_val_push(e, d1);
        assert(digits_val(s) == f / 1000);
        assert((f / 1000) * 1000 == f);
        assert(is_digit(s[0]));
    } else if f % 100 == 0 {
        let s = spec_frac(f);
        assert(s =~= e.push(d1).push(d2));
        lemma_digits_val_push(e, d1);
        lemma_digits_val_push(e.push(d1), d2);
        let q = f / 100;
        lemma_fundamental_div_mod(q, 10);
        lemma_div_denominator(f, 100, 10);
        assert(f / 1000 == q / 10);
        assert(digits_val(s) == (q / 10) * 10 + q % 10);
        assert(digits_val(s) == q);
        assert(q * 100 == f);
        assert(is_digit(s[0]) && is_digit(s[1]));
    } else if f % 10 == 0 {
        let s = spec_frac(f);
        assert(s =~= e.push(d1).push(d2).push(d3));
        lemma_digits_val_push(e, d1);
        lemma_digits_val_push(e.push(d1), d2);
        lemma_digits_val_push(e.push(d1).push(d2), d3);
        let q = f / 10;
        lemma_fundamental_div_mod(q, 10);
        lemma_fundamental_div_mod(q / 10, 10);
        lemma_div_denominator(f, 10, 10);
        lemma_div_denominator(f, 10, 100);
        lemma_div_denominator(q, 10, 10);
        assert(f / 100 == q / 10);
        assert(f / 1000 == q / 100);
        assert(q / 100 == (q / 10) / 10);
        assert((f / 100) % 10 == (q / 10) % 10);
        assert((f / 10) % 10 == q % 10);
        assert(digits_val(s) == ((q / 100) * 10 + (q / 10) % 10) * 10 + q % 10);
        assert(q / 10 == (q / 100) * 10 + (q / 10) % 10);
        assert(digits_val(s) == q);
        assert(q * 10 == f);
        assert(is_digit(s[0]) && is_digit(s[1]) && is_digit(s[2]));
    } else {
        let s = spec_frac(f);
        assert(s =~= e.push(d1).push(d2).push(d3).push(d4));
        lemma_digits_val_push(e, d1);
        lemma_digits_val_push(e.push(d1), d2);
        lemma_digits_val_push(e.push(d1).push(d2), d3);
        lemma_digits_val_push(e.push(d1).push(d2).push(d3), d4);
        lemma_fundamental_div_mod(f / 10, 10);
        lemma_fundamental_div_mod(f / 100, 10);
        lemma_div_denominator(f, 10, 10);
        lemma_div_denominator(f, 100, 10);
        assert(f / 100 == (f / 10) / 10);
        assert(f / 1000 == (f / 100) / 10);
        assert(digits_val(s) == (((f / 1000) * 10 + (f / 100) % 10) * 10 + (f / 10) % 10) * 10 + f
            % 10);
        assert(f / 100 == (f / 1000) * 10 + (f / 100) % 10);
        assert(f / 10 == (f / 100) * 10 + (f / 10) % 10);
        assert(digits_val(s) == f);
        assert(is_digit(s[0]) && is_digit(s[1]) && is_digit(s[2]) && is_digit(s[3]));
    }
}

/// Appending one digit multiplies a digit string's value by ten and adds
/// the digit.
proof fn lemma_digits_val_push(s: Seq<u8>, d: u8)
    ensures
        digits_val(s.push(d)) == digits_val(s) * 10 + (d - 48),
{
    assert(s.push(d).drop_last() =~= s);
    assert(s.push(d).last() == d);
}

/// The decimal rendering loses nothing: parsing the text that `format`
/// produces for any amount gives back exactly that amount.
pub proof fn lemma_format_parse_round_trip(m: Money)
    ensures
        spec_parse(spec_format(m)) == Some(m),
{
    let u = m.units as int;
    let unit = MONEY_UNIT as int;
    let whole = u / unit;
    let frac = u % unit;
    lemma_fundamental_div_mod(u, unit);
    lemma_spec_digits_props(whole);
    let w = spec_digits(whole);
    let s = spec_format(m);
    if frac == 0 {
        assert(s == w);
        assert forall|j: int| 0 <= j < s.len() implies s[j] != 46 by {
            assert(is_digit(s[j]));
        }
        lemma_dot_pos_char(s, s.len() as int);
        assert(digits_val(s) * unit == u);
        assert(spec_parse(s) == Some(Money { units: u as u64 }));
    } else {
        lemma_spec_frac_props(frac);
        let f = spec_frac(frac);
        assert(s == w + seq![46u8] + f);
        assert(s.len() == w.len() + 1 + f.len());
        assert forall|j: int| 0 <= j < w.len() implies s[j] == w[j] && s[j] != 46 by {
            assert(s[j] == w[j]);
            assert(is_digit(w[j]));
        }
        assert(s[w.len() as int] == 46);
        lemma_dot_pos_char(s, w.len() as int);
        let k = w.len() as int;
        let ip = s.take(k);
        let fp = s.skip(k + 1);
        assert(ip =~= w);
        assert(fp =~= f);
        assert(digits_val(ip) * unit + digits_val(fp) * pow10(MONEY_SCALE as int - fp.len())
            == u);
        assert(spec_parse(s) == Some(Money { units: u as u64 }));
    }
}

} // verus!
