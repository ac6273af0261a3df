//! Rendering a polynomial as LaTeX source.  Coefficients are printed
//! with three significant figures: small magnitudes gain a decimal
//! part, large ones switch to scientific notation with a `\cdot`
//! multiplication sign.

use vstd::prelude::*;
use vstd::string::StringExecFns;
use crate::Polynomial;

verus! {

/// Appends one decimal digit.
fn append_digit(s: &mut String, d: u64)
    requires
        d < 10,
{
    if d == 0 {
        s.append("0");
    } else if d == 1 {
        s.append("1");
    } else if d == 2 {
        s.append("2");
    } else if d == 3 {
        s.append("3");
    } else if d == 4 {
        s.append("4");
    } else if d == 5 {
        s.append("5");
    } else if d == 6 {
        s.append("6");
    } else if d == 7 {
        s.append("7");
    } else if d == 8 {
        s.append("8");
    } else {
        s.append("9");
    }
}

/// Appends the decimal digits of `m`.
fn append_decimal(s: &mut String, m: u64) {
    let mut digits: Vec<u64> = Vec::new();
    let mut rest = m;
    loop
        invariant
            digits@.len() <= 20,
            rest <= m,
            forall|k: int| 0 <= k < digits@.len() ==> digits@[k] < 10,
        decreases rest,
    {
        if digits.len() >= 20 {
            break;
        }
        digits.push(rest % 10);
        rest = rest / 10;
        if rest == 0 {
            break;
        }
        proof {
            vstd::arithmetic::div_mod::lemma_div_is_strictly_smaller(rest as int + 1, 10);
        }
    }
    let mut i = digits.len();
    while i > 0
        invariant
            i <= digits@.len(),
            forall|k: int| 0 <= k < digits@.len() ==> digits@[k] < 10,
        decreases i,
    {
        i = i - 1;
        append_digit(s, digits[i]);
    }
}

/// The number of decimal digits of `m`, minus one.
fn order_of(m: u64) -> (r: u32)
    ensures
        r <= 19,
{
    let mut r: u32 = 0;
    let mut rest = m / 10;
    while rest > 0 && r < 19
        invariant
            r <= 19,
        decreases rest,
    {
        rest = rest / 10;
        proof {
            vstd::arithmetic::div_mod::lemma_div_is_strictly_smaller(rest as int + 1, 10);
        }
        r = r + 1;
    }
    r
}

/// Ten to the power `e`.
fn pow10(e: u32) -> (r: u64)
    requires
        e <= 17,
    ensures
        1 <= r <= 100000000000000000,
{
    if e == 0 {
        1
    } else if e == 1 {
        10
    } else if e == 2 {
        100
    } else if e == 3 {
        1000
    } else if e == 4 {
        10000
    } else if e == 5 {
        100000
    } else if e == 6 {
        1000000
    } else if e == 7 {
        10000000
    } else if e == 8 {
        100000000
    } else if e == 9 {
        1000000000
    } else if e == 10 {
        10000000000
    } else if e == 11 {
        100000000000
    } else if e == 12 {
        1000000000000
    } else if e == 13 {
        10000000000000
    } else if e == 14 {
        100000000000000
    } else if e == 15 {
        1000000000000000
    } else if e == 16 {
        10000000000000000
    } else {
        100000000000000000
    }
}

/// The magnitude of `x` as an unsigned value.
fn magnitude_of(x: i64) -> (r: u64)
    ensures
        r as int == (if x >= 0 {
            x as int
        } else {
            -(x as int)
        }),
        r <= 0x8000_0000_0000_0000,
{
    if x >= 0 {
        x as u64
    } else {
        (-(x as i128)) as u64
    }
}

/// Renders a non-negative magnitude the way a floating-point display
/// with three significant figures would: plain digits for three-figure
/// integers, a padded decimal part below that, and scientific notation
/// above.
fn append_pretty_magnitude(s: &mut String, m: u64)
    requires
        m <= 0x8000_0000_0000_0000,
{
    if m == 0 {
        s.append("0");
        return;
    }
    let r = order_of(m);
    if r <= 2 {
        // Fewer than four digits: show exactly three significant
        // figures, inserting a decimal part where needed.
        let extra = 2 - r;
        if extra == 0 {
            append_decimal(s, m);
        } else {
            append_decimal(s, m);
            s.append(".");
            let mut z: u32 = 0;
            while z < extra
                invariant
                    extra <= 2,
                decreases extra - z,
            {
                s.append("0");
                z = z + 1;
            }
        }
    } else {
        // Four or more digits: three rounded significant figures and
        // a power-of-ten suffix.
        let d = r - 2;
        if d <= 17 {
            let p = pow10(d);
            let rounded = (m + p / 2) / p;
            let mut body = String::new();
            append_decimal(&mut body, rounded);
            body.append(".00");
            // The figure is right-aligned in a ten-column field.
            let mut pad = String::new();
            let blen = body.as_str().unicode_len();
            let mut k: usize = blen;
            while k < 10
                decreases 10 - k,
            {
                pad.append(" ");
                k = k + 1;
            }
            s.append(pad.as_str());
            s.append(body.as_str());
            s.append("\\cdot10^{ ");
            append_decimal(s, d as u64);
            s.append(" }");
        } else {
            append_decimal(s, m);
        }
    }
}

/// Renders one signed coefficient.
fn append_pretty(s: &mut String, x: i64) {
    if x < 0 {
        s.append("-");
    }
    append_pretty_magnitude(s, magnitude_of(x));
}

impl Polynomial {
    /// LaTeX source for the polynomial, highest degree first, with
    /// three significant figures per coefficient and zero terms left
    /// out.
    pub fn to_latex_string(&self) -> (r: String) {
        let mut out = String::new();
        if self.coeffs.len() == 0 {
            out.append("0");
            return out;
        }
        let degree = self.degree();
        if degree == 0 {
            let c = self.coefficient(0);
            if c != 0 {
                append_pretty(&mut out, c);
            } else {
                out.append("0");
            }
            return out;
        }
        if degree == 1 {
            let c0 = self.coefficient(0);
            let c1 = self.coefficient(1);
            if c1 != 0 {
                append_pretty(&mut out, c1);
                out.append("\\, X");
                if c0 > 0 {
                    out.append(" + ");
                    append_pretty(&mut out, c0);
                } else if c0 < 0 {
                    out.append(" - ");
                    append_pretty(&mut out, 0i64.wrapping_sub(c0));
                }
            } else {
                append_pretty(&mut out, c0);
            }
            return out;
        }
        let c = self.coefficient(degree);
        if c >= 0 {
            append_pretty(&mut out, c);
        } else {
            out.append("-");
            append_pretty_magnitude(&mut out, magnitude_of(c));
        }
        out.append("\\, X^{");
        append_decimal(&mut out, degree as u64);
        out.append("}");
        let mut index = degree - 1;
        while index >= 2
            invariant
                index < self@.len(),
            decreases index,
        {
            let ci = self.coefficient(index);
            if ci > 0 {
                out.append("+");
                append_pretty(&mut out, ci);
                out.append("\\, X^{");
                append_decimal(&mut out, index as u64);
                out.append("}");
            } else if ci < 0 {
                out.append("-");
                append_pretty_magnitude(&mut out, magnitude_of(ci));
                out.append("\\, X^{");
                append_decimal(&mut out, index as u64);
                out.append("}");
            }
            index = index - 1;
        }
        let c1 = self.coefficient(1);
        if c1 > 0 {
            out.append("+");
            append_pretty(&mut out, c1);
            out.append("\\, X");
        } else if c1 < 0 {
            out.append("-");
            append_pretty_magnitude(&mut out, magnitude_of(c1));
            out.append("\\, X");
        }
        let c0 = self.coefficient(0);
        if c0 > 0 {
            out.append("+");
            append_pretty(&mut out, c0);
        } else if c0 < 0 {
            out.append("-");
            append_pretty_magnitude(&mut out, magnitude_of(c0));
        }
        out
    }
}

} // verus!
