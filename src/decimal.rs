use vstd::prelude::*;

verus! {

/// Largest number of fractional digits a decimal may carry.
pub const MAX_SCALE: u32 = 28;

/// Largest magnitude of a mantissa (96 bits).
pub const MAX_MANTISSA: i128 = 0xFFFF_FFFF_FFFF_FFFF_FFFF_FFFF;

/// `10^n`.
pub open spec fn pow10(n: nat) -> int
    decreases n,
{
    if n == 0 {
        1
    } else {
        10 * pow10((n - 1) as nat)
    }
}

/// A mantissa and scale that a decimal of the outside arithmetic can hold.
pub open spec fn repr_in_range(mantissa: int, scale: int) -> bool {
    0 <= scale <= MAX_SCALE && -MAX_MANTISSA <= mantissa <= MAX_MANTISSA
}

/// The value `mantissa / 10^scale`, scaled up by `10^MAX_SCALE` to an integer.
pub open spec fn scaled_value(mantissa: int, scale: int) -> int {
    mantissa * pow10((MAX_SCALE - scale) as nat)
}

/// The magnitude of an integer.
pub open spec fn abs(n: int) -> int {
    if n < 0 {
        -n
    } else {
        n
    }
}

/// The character of a decimal digit.
pub open spec fn digit_char(d: int) -> char {
    if d == 0 {
        '0'
    } else if d == 1 {
        '1'
    } else if d == 2 {
        '2'
    } else if d == 3 {
        '3'
    } else if d == 4 {
        '4'
    } else if d == 5 {
        '5'
    } else if d == 6 {
        '6'
    } else if d == 7 {
        '7'
    } else if d == 8 {
        '8'
    } else {
        '9'
    }
}

/// The decimal digits of `n`, most significant first; none for zero.
pub open spec fn digits_of(n: nat) -> Seq<char>
    decreases n,
{
    if n == 0 {
        Seq::empty()
    } else {
        digits_of(n / 10).push(digit_char((n % 10) as int))
    }
}

/// `n` zero characters.
pub open spec fn zeros(n: nat) -> Seq<char> {
    Seq::new(n, |i: int| '0')
}

/// `mantissa / 10^scale` in positional notation, as the decimal arithmetic
/// writes it: a `-` for a negative value, the digits of the magnitude padded
/// with leading zeros to at least `scale` digits, and a point `scale` digits
/// from the right, with a `0` before it where no whole digit is left.
pub open spec fn decimal_text_of(mantissa: int, scale: int) -> Seq<char> {
    let d = digits_of(abs(mantissa) as nat);
    let p = if d.len() < scale {
        zeros((scale - d.len()) as nat) + d
    } else {
        d
    };
    let w = p.len() - scale;
    let body = if scale == 0 {
        if p.len() == 0 {
            "0"@
        } else {
            p
        }
    } else {
        (if w == 0 {
            "0"@
        } else {
            p.subrange(0, w)
        }) + "."@ + p.subrange(w, p.len() as int)
    };
    (if mantissa < 0 {
        "-"@
    } else {
        ""@
    }) + body
}

/// The power of ten of the leading digit of `d`.
pub open spec fn leading_exponent(d: Decimal) -> int {
    decimal_text_of(abs(d.mantissa as int), 0).len() - 1 - d.scale
}

/// An exponent as the float format writes it: a sign and at least two digits.
pub open spec fn exponent_text(e: int) -> Seq<char> {
    let digits = decimal_text_of(abs(e), 0);
    (if e < 0 {
        "-"@
    } else {
        "+"@
    }) + (if digits.len() == 1 {
        "0"@ + digits
    } else {
        digits
    })
}

/// The digits without their trailing zeros (a lone digit stays).
pub open spec fn strip_trailing_zeros(s: Seq<char>) -> Seq<char>
    decreases s.len(),
{
    if s.len() > 1 && s.last() == '0' {
        strip_trailing_zeros(s.drop_last())
    } else {
        s
    }
}

/// Scientific notation of the digits `digits` with the leading digit's
/// exponent `e`: `[-]d[.ddd]e<sign><two or more digits>`, without trailing zeros.
pub open spec fn scientific_text(negative: bool, digits: Seq<char>, e: int) -> Seq<char> {
    let sig = strip_trailing_zeros(digits);
    (if negative {
        "-"@
    } else {
        ""@
    }) + sig.subrange(0, 1) + (if sig.len() > 1 {
        "."@ + sig.subrange(1, sig.len() as int)
    } else {
        ""@
    }) + "e"@ + exponent_text(e)
}

/// The shortest float format of a decimal: positional with at least one
/// fractional digit (`100.0`, `0.5`) while the leading digit's exponent lies
/// in `-4..16`, scientific otherwise (`5e-05`, `1.25e+16`).
pub open spec fn float_text(d: Decimal) -> Seq<char> {
    let e = leading_exponent(d);
    if d.mantissa == 0 {
        "0.0"@
    } else if e < -4 || e >= 16 {
        scientific_text(d.mantissa < 0, decimal_text_of(abs(d.mantissa as int), 0), e)
    } else if d.scale == 0 {
        decimal_text_of(d.mantissa as int, 0) + ".0"@
    } else {
        decimal_text_of(d.mantissa as int, d.scale as int)
    }
}

/// What the exact decimal parser makes of a text: a mantissa and a scale, or nothing.
pub uninterp spec fn parsed_decimal(text: Seq<char>) -> Option<(i128, u32)>;

/// An exact decimal number `mantissa / 10^scale`, held in lowest terms: no
/// trailing zero in the mantissa while the scale is positive, and zero only as
/// `0 / 10^0`. Two well-formed decimals are equal exactly when their values are.
#[derive(Clone, Copy, Debug, PartialEq, Eq, Structural, Hash)]
pub struct Decimal {
    pub mantissa: i128,
    pub scale: u32,
}

impl Decimal {
    pub open spec fn wf(self) -> bool {
        &&& repr_in_range(self.mantissa as int, self.scale as int)
        &&& (self.scale == 0 || self.mantissa % 10 != 0)
    }

    /// The value, scaled by `10^MAX_SCALE`; the order of decimals is the order of these.
    pub open spec fn key(self) -> int {
        scaled_value(self.mantissa as int, self.scale as int)
    }

    pub open spec fn is_zero_spec(self) -> bool {
        self.mantissa == 0
    }

    pub open spec fn is_negative_spec(self) -> bool {
        self.mantissa < 0
    }

    /// Zero.
    pub fn zero() -> (r: Decimal)
        ensures
            r.wf(),
            r.key() == 0,
            r.is_zero_spec(),
    {
        Decimal { mantissa: 0, scale: 0 }
    }

    pub fn is_zero(&self) -> (r: bool)
        ensures
            r == self.is_zero_spec(),
    {
        self.mantissa == 0
    }

    pub fn is_negative(&self) -> (r: bool)
        ensures
            r == self.is_negative_spec(),
    {
        self.mantissa < 0
    }

    /// The decimal `mantissa / 10^scale` in lowest terms; `None` where the
    /// decimal arithmetic cannot hold it.
    pub fn from_parts(mantissa: i128, scale: u32) -> (r: Option<Decimal>)
        ensures
            r.is_some() <==> repr_in_range(mantissa as int, scale as int),
            r matches Some(d) ==> d.wf() && d.key() == scaled_value(mantissa as int, scale as int),
    {
        if scale > MAX_SCALE || mantissa > MAX_MANTISSA || mantissa < -MAX_MANTISSA {
            None
        } else {
            let (m, s) = normalize_parts(mantissa, scale);
            Some(Decimal { mantissa: m, scale: s })
        }
    }

    /// Parses decimal text exactly (no rounding); `None` where the text is no
    /// decimal or its value cannot be held exactly.
    pub fn parse(text: &str) -> (r: Option<Decimal>)
        ensures
            r.is_some() <==> parsed_decimal(text@).is_some(),
            parsed_decimal(text@) matches Some(p) ==> repr_in_range(p.0 as int, p.1 as int),
            r matches Some(d) ==> d.wf() && d.key() == scaled_value(
                parsed_decimal(text@).unwrap().0 as int,
                parsed_decimal(text@).unwrap().1 as int,
            ),
    {
        match parse_exact(text) {
            Some((m, s)) => {
                let (nm, ns) = normalize_parts(m, s);
                Some(Decimal { mantissa: nm, scale: ns })
            },
            None => None,
        }
    }

    /// The decimal in the shortest float format (see `float_text`).
    pub fn float_text(&self) -> (r: String)
        requires
            self.wf(),
        ensures
            r@ == float_text(*self),
    {
        if self.mantissa == 0 {
            return "0.0".to_owned();
        }
        let magnitude: i128 = if self.mantissa < 0 {
            -self.mantissa
        } else {
            self.mantissa
        };
        let digits = decimal_text(magnitude, 0);
        let k = digits.as_str().unicode_len();
        let e: i128 = k as i128 - 1 - self.scale as i128;
        if e < -4 || e >= 16 {
            scientific(self.mantissa < 0, &digits, e)
        } else if self.scale == 0 {
            let mut out = decimal_text(self.mantissa, 0);
            out.append(".0");
            out
        } else {
            decimal_text(self.mantissa, self.scale)
        }
    }

    /// Strict order of values.
    pub fn lt(&self, other: &Decimal) -> (r: bool)
        requires
            self.wf(),
            other.wf(),
        ensures
            r == (self.key() < other.key()),
    {
        decimal_lt(self.mantissa, self.scale, other.mantissa, other.scale)
    }
}

/// Relies on `rust_decimal::Decimal::from_str_exact`: parses the text without
/// rounding, into a decimal whose mantissa fits 96 bits and whose scale is at most 28.
#[verifier::external_body]
fn parse_exact(text: &str) -> (r: Option<(i128, u32)>)
    ensures
        r == parsed_decimal(text@),
        r matches Some(p) ==> repr_in_range(p.0 as int, p.1 as int),
{
    match rust_decimal::Decimal::from_str_exact(text) {
        Ok(d) => Some((d.mantissa(), d.scale())),
        Err(_) => None,
    }
}

/// Relies on `rust_decimal::Decimal::normalize`: strips trailing zeros of the
/// mantissa and turns negative zero into zero, keeping the value.
#[verifier::external_body]
fn normalize_parts(mantissa: i128, scale: u32) -> (r: (i128, u32))
    requires
        repr_in_range(mantissa as int, scale as int),
    ensures
        repr_in_range(r.0 as int, r.1 as int),
        r.1 == 0 || r.0 % 10 != 0,
        scaled_value(r.0 as int, r.1 as int) == scaled_value(mantissa as int, scale as int),
{
    let d = rust_decimal::Decimal::from_i128_with_scale(mantissa, scale).normalize();
    (d.mantissa(), d.scale())
}

fn scientific(negative: bool, digits: &String, e: i128) -> (r: String)
    requires
        digits@.len() >= 1,
        -MAX_MANTISSA <= e <= MAX_MANTISSA,
    ensures
        r@ == scientific_text(negative, digits@, e as int),
{
    proof {
        reveal_strlit("");
    }
    let k = digits.as_str().unicode_len();
    let mut out = if negative {
        "-".to_owned()
    } else {
        "".to_owned()
    };
    let mut end: usize = k;
    proof {
        assert(digits@.subrange(0, k as int) =~= digits@);
    }
    while end > 1 && digits.as_str().get_char(end - 1) == '0'
        invariant
            1 <= end <= k,
            k == digits@.len(),
            strip_trailing_zeros(digits@.subrange(0, end as int)) == strip_trailing_zeros(digits@),
        decreases end,
    {
        proof {
            assert(digits@.subrange(0, end as int).drop_last() =~= digits@.subrange(0, end - 1));
        }
        end = end - 1;
    }
    let ghost sig = digits@.subrange(0, end as int);
    proof {
        assert(strip_trailing_zeros(sig) == sig);
    }
    out.append(digits.as_str().substring_char(0, 1));
    if end > 1 {
        out.append(".");
        out.append(digits.as_str().substring_char(1, end));
    }
    out.append("e");
    out.append(if e < 0 {
        "-"
    } else {
        "+"
    });
    let magnitude_e: i128 = if e < 0 {
        -e
    } else {
        e
    };
    let exp_digits = decimal_text(magnitude_e, 0);
    if exp_digits.as_str().unicode_len() == 1 {
        out.append("0");
    }
    let ghost before_exp = out@;
    out.append(exp_digits.as_str());
    proof {
        let sign: Seq<char> = if negative {
            "-"@
        } else {
            ""@
        };
        let frac: Seq<char> = if sig.len() > 1 {
            "."@ + sig.subrange(1, sig.len() as int)
        } else {
            ""@
        };
        assert(sig.subrange(0, 1) =~= digits@.subrange(0, 1));
        assert(sig.len() > 1 ==> sig.subrange(1, sig.len() as int) =~= digits@.subrange(1, end as int));
        assert(before_exp =~= sign + sig.subrange(0, 1) + frac + "e"@ + (if e < 0 {
            "-"@
        } else {
            "+"@
        }) + (if exp_digits@.len() == 1 {
            "0"@
        } else {
            ""@
        }));
        assert(out@ =~= scientific_text(negative, digits@, e as int));
    }
    out
}

/// Relies on `rust_decimal::Decimal`'s `Display`: the value written out in
/// positional notation (see `decimal_text_of`), never empty.
#[verifier::external_body]
fn decimal_text(mantissa: i128, scale: u32) -> (r: String)
    requires
        repr_in_range(mantissa as int, scale as int),
    ensures
        r@ == decimal_text_of(mantissa as int, scale as int),
        r@.len() >= 1,
{
    rust_decimal::Decimal::from_i128_with_scale(mantissa, scale).to_string()
}

/// Relies on `rust_decimal::Decimal`'s `<`, which compares values exactly.
#[verifier::external_body]
fn decimal_lt(am: i128, ascale: u32, bm: i128, bscale: u32) -> (r: bool)
    requires
        repr_in_range(am as int, ascale as int),
        repr_in_range(bm as int, bscale as int),
    ensures
        r == (scaled_value(am as int, ascale as int) < scaled_value(bm as int, bscale as int)),
{
    let a = rust_decimal::Decimal::from_i128_with_scale(am, ascale);
    let b = rust_decimal::Decimal::from_i128_with_scale(bm, bscale);
    a < b
}

pub proof fn lemma_pow10_positive(n: nat)
    ensures
        pow10(n) > 0,
    decreases n,
{
    if n > 0 {
        lemma_pow10_positive((n - 1) as nat);
    }
}

pub proof fn lemma_pow10_add(a: nat, b: nat)
    ensures
        pow10(a + b) == pow10(a) * pow10(b),
    decreases a,
{
    if a > 0 {
        lemma_pow10_add((a - 1) as nat, b);
        assert(pow10(a + b) == 10 * pow10((a - 1 + b) as nat));
        let x = pow10((a - 1) as nat);
        let y = pow10(b);
        assert(pow10(a) * y == 10 * (x * y)) by (nonlinear_arith)
            requires pow10(a) == 10 * x;
        assert((a - 1 + b) as nat == ((a - 1) as nat + b) as nat);
    }
}

/// Well-formed decimals of equal value are the same decimal.
pub proof fn lemma_key_injective(a: Decimal, b: Decimal)
    requires
        a.wf(),
        b.wf(),
        a.key() == b.key(),
    ensures
        a == b,
{
    if a.scale <= b.scale {
        lemma_same_scale(a, b);
    } else {
        lemma_same_scale(b, a);
    }
    {
        let p = pow10((MAX_SCALE - a.scale) as nat);
        lemma_pow10_positive((MAX_SCALE - a.scale) as nat);
        assert(a.mantissa == b.mantissa) by (nonlinear_arith)
            requires p > 0, a.mantissa * p == b.mantissa * p;
    }
}

proof fn lemma_same_scale(a: Decimal, b: Decimal)
    requires
        a.wf(),
        b.wf(),
        a.key() == b.key(),
        a.scale <= b.scale,
    ensures
        a.scale == b.scale,
{
    if a.scale == b.scale {
        return;
    }
    let d = (b.scale - a.scale) as nat;
    let low = (MAX_SCALE - b.scale) as nat;
    lemma_pow10_add(d, low);
    assert((MAX_SCALE - a.scale) as nat == d + low);
    lemma_pow10_positive(low);
    let pl = pow10(low);
    let pd = pow10(d);
    assert(a.mantissa * (pd * pl) == b.mantissa * pl);
    assert(a.mantissa * pd == b.mantissa) by (nonlinear_arith)
        requires pl > 0, a.mantissa * (pd * pl) == b.mantissa * pl;
    let pd1 = pow10((d - 1) as nat);
    assert(pd == 10 * pd1);
    assert(b.mantissa == 10 * (a.mantissa * pd1)) by (nonlinear_arith)
        requires b.mantissa == a.mantissa * pd, pd == 10 * pd1;
    assert(b.mantissa % 10 == 0);
    assert(false);
}

} // verus!
