//! Rendering of fixed-point numbers as decimal text in a 32-byte buffer.
use vstd::prelude::*;
use vstd::string::StringSliceAdditionalSpecFns;

verus! {

#[verifier::external_type_specification]
pub struct ExFmtError(core::fmt::Error);

pub const ZERO: u8 = 0x30;

pub const MINUS: u8 = 0x2D;

pub const DOT: u8 = 0x2E;

/// Capacity of the text buffer, in bytes.
pub const CAPACITY: usize = 32;

/// Decimal text of numbers, written into a fixed buffer; writes beyond its
/// capacity are refused.
pub struct FloatToString {
    buffer: [u8; 32],
    len: usize,
    precision: u8,
}

impl View for FloatToString {
    type V = Seq<u8>;

    closed spec fn view(&self) -> Seq<u8> {
        self.buffer@.subrange(0, self.len as int)
    }
}

impl FloatToString {
    pub closed spec fn wf(&self) -> bool {
        self.len <= CAPACITY
    }

    /// How many fractional digits `convert` writes at most.
    pub closed spec fn precision_spec(&self) -> u8 {
        self.precision
    }

    /// An empty buffer that renders `precision` fractional digits.
    pub fn new(precision: u8) -> (r: Self)
        ensures
            r.wf(),
            r@ == Seq::<u8>::empty(),
            r.precision_spec() == precision,
    {
        FloatToString { buffer: [0; 32], len: 0, precision: precision }
    }

    /// Appends byte `c` if there is room.
    pub fn write_char(&mut self, c: u8) -> (r: core::fmt::Result)
        requires
            old(self).wf(),
        ensures
            final(self).wf(),
            final(self).precision_spec() == old(self).precision_spec(),
            r is Ok <==> old(self)@.len() < CAPACITY,
            r is Ok ==> final(self)@ == old(self)@.push(c),
            r is Err ==> final(self)@ == old(self)@,
    {
        if self.len < CAPACITY {
            self.buffer[self.len] = c;
            self.len = self.len + 1;
            proof {
                assert(self@ =~= old(self)@.push(c));
            }
            Ok(())
        } else {
            Err(core::fmt::Error)
        }
    }

    /// Appends the bytes of `s` while there is room; fails once one does not fit.
    pub fn write_str(&mut self, s: &str) -> (r: core::fmt::Result)
        requires
            old(self).wf(),
        ensures
            final(self).wf(),
            final(self).precision_spec() == old(self).precision_spec(),
            r is Ok <==> old(self)@.len() + s.spec_bytes().len() <= CAPACITY,
            final(self)@ == fill(old(self)@, s.spec_bytes()),
    {
        let bytes = s.as_bytes();
        let mut i: usize = 0;
        while i < bytes.len()
            invariant
                self.wf(),
                self.precision_spec() == old(self).precision_spec(),
                i <= bytes@.len(),
                bytes@ == s.spec_bytes(),
                old(self)@.len() + i <= CAPACITY,
                self@ == old(self)@ + bytes@.subrange(0, i as int),
            decreases bytes.len() - i,
        {
            let ghost before = self@;
            if self.write_char(bytes[i]).is_err() {
                proof {
                    assert(fill(old(self)@, bytes@) =~= old(self)@ + bytes@.subrange(0, i as int));
                }
                return Err(core::fmt::Error);
            }
            assert(bytes@.subrange(0, i + 1) =~= bytes@.subrange(0, i as int).push(bytes@[i as int]));
            i += 1;
        }
        assert(bytes@.subrange(0, i as int) =~= bytes@);
        Ok(())
    }
}

/// `held` followed by as much of `more` as fits in the capacity.
pub open spec fn fill(held: Seq<u8>, more: Seq<u8>) -> Seq<u8> {
    if held.len() >= CAPACITY {
        held
    } else if held.len() + more.len() <= CAPACITY {
        held + more
    } else {
        held + more.subrange(0, CAPACITY - held.len())
    }
}

pub open spec fn pow10(n: nat) -> nat
    decreases n,
{
    if n == 0 {
        1
    } else {
        10 * pow10((n - 1) as nat)
    }
}

/// The decimal digits of `n`, none for zero.
pub open spec fn digits_of(n: nat) -> Seq<u8>
    decreases n,
{
    if n == 0 {
        Seq::empty()
    } else {
        digits_of(n / 10).push((ZERO + n % 10) as u8)
    }
}

/// `n` in decimal.
pub open spec fn decimal_text(n: nat) -> Seq<u8> {
    if n == 0 {
        seq![ZERO]
    } else {
        digits_of(n)
    }
}

/// The first `k` decimal digits of the fraction `f / p`, cut off, not rounded.
pub open spec fn frac_digits(f: nat, p: nat, k: nat) -> Seq<u8>
    decreases k,
{
    if k == 0 || p == 0 {
        Seq::empty()
    } else {
        seq![(ZERO + (f * 10) / p) as u8] + frac_digits((f * 10) % p, p, (k - 1) as nat)
    }
}

pub open spec fn abs(v: int) -> nat {
    if v < 0 {
        (-v) as nat
    } else {
        v as nat
    }
}

/// The text of `value / 10^scale`: a minus sign when negative, the whole part
/// in decimal, then, when the fraction is not zero and `precision` is, a point
/// and `precision` digits of the fraction, cut off.
pub open spec fn fixed_text(value: int, scale: nat, precision: nat) -> Seq<u8> {
    let a = abs(value);
    let p = pow10(scale);
    let sign = if value < 0 {
        seq![MINUS]
    } else {
        Seq::<u8>::empty()
    };
    let frac = if a % p > 0 && precision > 0 {
        seq![DOT] + frac_digits(a % p, p, precision)
    } else {
        Seq::<u8>::empty()
    };
    sign + decimal_text(a / p) + frac
}

/// As much of `x` as the buffer holds.
pub open spec fn clip(x: Seq<u8>) -> Seq<u8> {
    if x.len() <= CAPACITY {
        x
    } else {
        x.subrange(0, CAPACITY as int)
    }
}

proof fn lemma_pow10_positive(n: nat)
    ensures
        pow10(n) >= 1,
    decreases n,
{
    if n > 0 {
        lemma_pow10_positive((n - 1) as nat);
    }
}

proof fn lemma_u64_below_pow10_20()
    ensures
        u64::MAX < pow10(20),
{
    reveal_with_fuel(pow10, 21);
}

impl FloatToString {
    fn put(&mut self, c: u8, Ghost(x): Ghost<Seq<u8>>)
        requires
            old(self).wf(),
            old(self)@ == clip(x),
        ensures
            final(self).wf(),
            final(self).precision_spec() == old(self).precision_spec(),
            final(self)@ == clip(x.push(c)),
    {
        let _ = self.write_char(c);
        assert(clip(x.push(c)) =~= if x.len() < CAPACITY {
            clip(x).push(c)
        } else {
            clip(x)
        });
    }

    /// Renders the fixed-point number `value / 10^scale` with at most the
    /// buffer's precision in fractional digits, replacing what was held, and
    /// returns the text; text beyond the capacity is cut off.
    pub fn convert(&mut self, value: i64, scale: u32) -> (r: Vec<u8>)
        requires
            old(self).wf(),
            scale <= 19,
        ensures
            final(self).wf(),
            final(self).precision_spec() == old(self).precision_spec(),
            final(self)@ == clip(fixed_text(value as int, scale as nat, old(self).precision_spec() as nat)),
            r@ == final(self)@,
    {
        self.len = 0;
        assert(self@ =~= clip(Seq::<u8>::empty()));
        let ghost mut x = Seq::<u8>::empty();
        let neg = value < 0;
        let a: u64 = if neg {
            (0i128 - value as i128) as u64
        } else {
            value as u64
        };
        if neg {
            self.put(MINUS, Ghost(x));
            proof {
                x = x.push(MINUS);
                assert(x =~= seq![MINUS]);
            }
        }
        let mut p: u64 = 1;
        let mut k: u32 = 0;
        while k < scale
            invariant
                k <= scale <= 19,
                p == pow10(k as nat),
            decreases scale - k,
        {
            proof {
                lemma_pow10_monotone(k as nat + 1, 19);
                reveal_with_fuel(pow10, 20);
            }
            p = p * 10;
            k += 1;
        }
        proof {
            lemma_pow10_positive(k as nat);
        }
        let ghost sign = x;
        let ip = a / p;
        let fp = a % p;
        if ip == 0 {
            self.put(ZERO, Ghost(x));
            proof {
                x = x.push(ZERO);
            }
        } else {
            let mut temp: [u8; 20] = [0; 20];
            let mut i: usize = 20;
            let mut t: u64 = ip;
            proof {
                lemma_u64_below_pow10_20();
                assert(temp@.subrange(20, 20) =~= Seq::<u8>::empty());
            }
            while t > 0
                invariant
                    i <= 20,
                    temp@.len() == 20,
                    (t as nat) < pow10(i as nat),
                    digits_of(ip as nat) == digits_of(t as nat) + temp@.subrange(i as int, 20),
                    forall|j: int| i <= j < 20 ==> temp@[j] >= ZERO,
                decreases t,
            {
                proof {
                    if i == 0 {
                        assert(pow10(0) == 1);
                    }
                    let q = pow10((i - 1) as nat);
                    assert(pow10(i as nat) == 10 * q);
                    assert((t as nat) / 10 < q) by (nonlinear_arith)
                        requires (t as nat) < 10 * q;
                }
                let ghost old_temp = temp@;
                i = i - 1;
                temp[i] = ZERO + (t % 10) as u8;
                proof {
                    assert(temp@.subrange(i as int, 20) =~= seq![temp@[i as int]] + old_temp.subrange(
                        i + 1,
                        20,
                    ));
                    assert(digits_of(t as nat) == digits_of((t / 10) as nat).push((ZERO + t % 10) as u8));
                    assert(digits_of((t / 10) as nat).push((ZERO + t % 10) as u8) + old_temp.subrange(
                        i + 1,
                        20,
                    ) =~= digits_of((t / 10) as nat) + temp@.subrange(i as int, 20));
                }
                t = t / 10;
            }
            assert(digits_of(0) =~= Seq::<u8>::empty());
            assert(digits_of(ip as nat) =~= temp@.subrange(i as int, 20));
            let mut j: usize = i;
            let ghost start = x;
            while j < 20
                invariant
                    i <= j <= 20,
                    temp@.len() == 20,
                    self.wf(),
                    self.precision_spec() == old(self).precision_spec(),
                    self@ == clip(x),
                    x == start + temp@.subrange(i as int, j as int),
                decreases 20 - j,
            {
                self.put(temp[j], Ghost(x));
                proof {
                    assert(temp@.subrange(i as int, j + 1) =~= temp@.subrange(i as int, j as int).push(
                        temp@[j as int],
                    ));
                    x = x.push(temp[j as int]);
                }
                j += 1;
            }
        }
        assert(x == sign + decimal_text(ip as nat));
        let ghost whole = x;
        let prec = self.precision;
        if fp > 0 && prec > 0 {
            self.put(DOT, Ghost(x));
            proof {
                x = x.push(DOT);
            }
            let mut f: u64 = fp;
            let mut n: u8 = 0;
            let ghost pre = x;
            while n < prec
                invariant
                    n <= prec,
                    prec == self.precision_spec(),
                    self.wf(),
                    self.precision_spec() == old(self).precision_spec(),
                    self@ == clip(x),
                    f < p,
                    p >= 1,
                    x + frac_digits(f as nat, p as nat, (prec - n) as nat) == pre + frac_digits(
                        fp as nat,
                        p as nat,
                        prec as nat,
                    ),
                decreases prec - n,
            {
                let f10: u128 = f as u128 * 10;
                let digit: u128 = f10 / (p as u128);
                assert(digit < 10) by (nonlinear_arith)
                    requires f10 == f * 10, digit == f10 / (p as u128), f < p, p >= 1;
                let c: u8 = ZERO + digit as u8;
                self.put(c, Ghost(x));
                let ghost rest = frac_digits(((f as nat) * 10) % (p as nat), p as nat, (prec - n - 1) as nat);
                assert(frac_digits(f as nat, p as nat, (prec - n) as nat) == seq![c] + rest);
                proof {
                    assert(x.push(c) + rest =~= x + (seq![c] + rest));
                    x = x.push(c);
                }
                f = (f10 % (p as u128)) as u64;
                n += 1;
            }
            assert(frac_digits(f as nat, p as nat, 0) =~= Seq::<u8>::empty());
            assert(x =~= whole + (seq![DOT] + frac_digits(fp as nat, p as nat, prec as nat)));
        } else {
            assert(x =~= whole + Seq::<u8>::empty());
        }
        assert(x == fixed_text(value as int, scale as nat, prec as nat));
        let mut out: Vec<u8> = Vec::new();
        let mut j: usize = 0;
        while j < self.len
            invariant
                self.wf(),
                j <= self.len,
                out@ == self@.subrange(0, j as int),
            decreases self.len - j,
        {
            out.push(self.buffer[j]);
            assert(self@.subrange(0, j + 1) =~= self@.subrange(0, j as int).push(self@[j as int]));
            j += 1;
        }
        assert(self@.subrange(0, self.len as int) =~= self@);
        out
    }
}

proof fn lemma_pow10_monotone(a: nat, b: nat)
    requires
        a <= b,
    ensures
        pow10(a) <= pow10(b),
    decreases b - a,
{
    if a < b {
        lemma_pow10_monotone(a, (b - 1) as nat);
        lemma_pow10_positive((b - 1) as nat);
    }
}

} // verus!
