//! A resilient parser for polynomial expressions over the integers,
//! built on a shunting-yard operator stack.  It accepts sums, products,
//! quotients by constants, powers, parentheses, the indeterminate `X`
//! (or `x`), unary minus and superscript exponents, and reports a
//! structured error instead of failing on malformed input.

use vstd::prelude::*;
use vstd::string::StrSliceExecFns;
use crate::{Polynomial, wf};
use crate::wrapped::{wmul_e, wsub_e};

verus! {

/// The largest coefficient count the parser lets an intermediate
/// polynomial reach; larger results are rejected instead of exhausting
/// memory.
pub const DEG_LIMIT: usize = 0x0010_0000;

/// A binary operator (or an open parenthesis) on the operator stack.
#[derive(PartialEq, Eq, Structural, Clone, Copy)]
pub enum Ops {
    Add,
    Min,
    Mul,
    Div,
    Pow,
    Open,
}

impl Ops {
    /// The binding priority used to decide when a stacked operator is
    /// executed.
    pub fn prio(&self) -> (r: u32)
        ensures
            r <= 3,
    {
        match self {
            Ops::Mul => 2,
            Ops::Div => 2,
            Ops::Pow => 3,
            Ops::Open => 0,
            _ => 1,
        }
    }
}

/// Why a polynomial expression could not be parsed.
pub enum PolynomialError {
    NoBinaryOperator,
    BinaryOperatorZeroOperand(Ops),
    BinaryOperatorOneOperand(Ops),
    ImpossiblePower,
    ImpossiblePower2Polynomials,
    ImpossibleDivision,
    ImpossibleOpen,
    ImpossibleClose,
    UnaryMinusFailed(Ops),
    UnsupportedCharacter(char),
    EmptyStringInput,
    ExcessiveDegree,
}

impl PolynomialError {
    /// A short description of the error.
    pub fn message(&self) -> String {
        let s: &str = match self {
            PolynomialError::NoBinaryOperator => "NoBinaryOperator",
            PolynomialError::BinaryOperatorZeroOperand(_) => "BinaryOperatorZeroOperand",
            PolynomialError::BinaryOperatorOneOperand(_) => "BinaryOperatorOneOperand",
            PolynomialError::ImpossiblePower => "ImpossiblePower",
            PolynomialError::ImpossiblePower2Polynomials => "ImpossiblePower2Polynomials",
            PolynomialError::ImpossibleDivision => "ImpossibleDivision",
            PolynomialError::ImpossibleOpen => "ImpossibleOpen",
            PolynomialError::ImpossibleClose => "ImpossibleClose",
            PolynomialError::UnaryMinusFailed(_) => "UnaryMinusFailed",
            PolynomialError::UnsupportedCharacter(_) => "UnsupportedCharacter",
            PolynomialError::EmptyStringInput => "EmptyStringInput",
            PolynomialError::ExcessiveDegree => "ExcessiveDegree",
        };
        s.to_owned()
    }
}

/// Every stacked operand is canonical and within the size guard.
pub open spec fn operands_ok(s: Seq<Polynomial>) -> bool {
    forall|k: int| 0 <= k < s.len() ==> wf(#[trigger] s[k]@) && s[k]@.len() <= DEG_LIMIT
}

/// The in-flight state of the expression parser.
pub struct Parser {
    pub pols_vec: Vec<Polynomial>,
    pub ops_vec: Vec<Ops>,
    pub reads_num: bool,
    pub reads_dec: bool,
    pub num: u64,
    pub nb_decs: u32,
    pub unary_min: bool,
    pub is_min: bool,
    pub is_factor: bool,
}

/// The constant polynomial with value `c`.
fn const_poly(c: i64) -> (r: Polynomial)
    ensures
        wf(r@),
        r@.len() <= 1,
        r@ == crate::trim(seq![c]),
{
    let mut v: Vec<i64> = Vec::new();
    v.push(c);
    proof {
        assert(v@ =~= seq![c]);
        crate::convspec::lemma_trim_len(v@);
    }
    Polynomial::from_vec(v)
}

/// The monomial X.
fn x_poly() -> (r: Polynomial)
    ensures
        wf(r@),
        r@.len() == 2,
        r@ == seq![0i64, 1i64],
{
    let mut v: Vec<i64> = Vec::new();
    v.push(0);
    v.push(1);
    proof {
        assert(v@ =~= seq![0i64, 1i64]);
        crate::lemma_trim_id(v@);
    }
    Polynomial::from_vec(v)
}

/// Raises `p` to the power `n`, guarding the result size.
fn poly_pow(p: &Polynomial, n: u64) -> (r: Result<Polynomial, PolynomialError>)
    requires
        wf(p@),
        2 <= p@.len() <= DEG_LIMIT,
    ensures
        r matches Ok(pw) ==> wf(pw@) && pw@.len() <= DEG_LIMIT,
{
    if n > DEG_LIMIT as u64 {
        return Err(PolynomialError::ExcessiveDegree);
    }
    let ll = (p.coeffs.len() - 1) as u64;
    proof {
        assert(ll * n <= 0x100_0000_0000) by (nonlinear_arith)
            requires
                0 <= ll <= 0x0010_0000,
                0 <= n <= 0x0010_0000,
        ;
    }
    if ll * n + 1 > DEG_LIMIT as u64 {
        return Err(PolynomialError::ExcessiveDegree);
    }
    proof {
        assert((p@.len() - 1) * (n as usize as int) + 1 <= DEG_LIMIT);
    }
    let pw = p.powi(n as usize);
    if pw.coeffs.len() > DEG_LIMIT {
        return Err(PolynomialError::ExcessiveDegree);
    }
    Ok(pw)
}

/// Raises an integer constant to the power `n` by binary
/// exponentiation, wrapping on overflow.
fn scalar_pow(c: i64, n: u64) -> (r: i64) {
    let mut acc: i64 = 1;
    let mut base: i64 = c;
    let mut e: u64 = n;
    while e > 0
        decreases e,
    {
        if e % 2 == 1 {
            acc = wmul_e(acc, base);
        }
        base = wmul_e(base, base);
        e = e / 2;
    }
    acc
}

impl Parser {
    /// Pops one operator and its operands, applies it, and pushes the
    /// result back on the operand stack.
    pub fn execute_bin_operator(&mut self) -> (r: Result<(), PolynomialError>)
        requires
            operands_ok(old(self).pols_vec@),
        ensures
            operands_ok(final(self).pols_vec@),
            r is Ok ==> final(self).ops_vec@.len() < old(self).ops_vec@.len(),
    {
        let op: Ops = match self.ops_vec.pop() {
            Some(op) => op,
            None => {
                return Err(PolynomialError::NoBinaryOperator);
            },
        };
        let p1: Polynomial = match self.pols_vec.pop() {
            Some(p) => p,
            None => {
                return Err(PolynomialError::BinaryOperatorZeroOperand(op));
            },
        };
        let p2: Polynomial = match self.pols_vec.pop() {
            Some(p) => p,
            None => {
                return Err(PolynomialError::BinaryOperatorOneOperand(op));
            },
        };
        proof {
            assert(old(self).pols_vec@[old(self).pols_vec@.len() - 1] == p1);
            assert(old(self).pols_vec@[old(self).pols_vec@.len() - 2] == p2);
        }
        // Shortcut for an expression of the shape `c X ^ pow`.
        if op == Ops::Mul && self.ops_vec.len() > 0 && self.pols_vec.len() > 0 {
            let next_op = self.ops_vec[self.ops_vec.len() - 1];
            let stacked_deg_zero = self.pols_vec[self.pols_vec.len() - 1].coeffs.len() <= 1;
            if next_op == Ops::Pow && stacked_deg_zero && p1.coeffs.len() <= 1 && p2.is_x() {
                let top = match self.pols_vec.pop() {
                    Some(p) => p,
                    None => {
                        return Err(PolynomialError::NoBinaryOperator);
                    },
                };
                if top.is_zero() {
                    return Err(PolynomialError::ImpossiblePower);
                }
                let c = top.coefficient(0);
                let pw = p1.coefficient(0);
                if pw >= 0 {
                    if pw >= DEG_LIMIT as i64 {
                        return Err(PolynomialError::ExcessiveDegree);
                    }
                    self.ops_vec.pop();
                    let shifted_c = const_poly(c).shl(pw as usize);
                    proof {
                        // The scale is the non-zero leading coefficient
                        // of a canonical one-term polynomial, so the
                        // shifted monomial is canonical too.
                        assert(c != 0);
                        assert(shifted_c@.last() == c);
                    }
                    self.pols_vec.push(shifted_c);
                    return Ok(());
                } else {
                    return Err(PolynomialError::ImpossiblePower);
                }
            }
        }
        let result: Polynomial = match op {
            Ops::Add => p2.add(&p1),
            Ops::Min => p2.sub(&p1),
            Ops::Mul => {
                if p1.coeffs.len() + p2.coeffs.len() > DEG_LIMIT {
                    return Err(PolynomialError::ExcessiveDegree);
                }
                proof {
                    crate::convspec::lemma_trim_len(
                        crate::convspec::conv_seq(
                            p2@,
                            p1@,
                            crate::convspec::full_len(p2@, p1@),
                        ),
                    );
                }
                p2.mul(&p1)
            },
            Ops::Div => {
                if p1.coeffs.len() > 1 {
                    return Err(PolynomialError::ImpossibleDivision);
                }
                let v = p1.coefficient(0);
                if v == 0 {
                    return Err(PolynomialError::ImpossibleDivision);
                }
                // Over the integers only division by a constant is
                // accepted, and the reciprocal truncates toward zero.
                let c: i64 = if v == 1 {
                    1
                } else if v == -1 {
                    -1
                } else {
                    0
                };
                let cp = const_poly(c);
                proof {
                    crate::convspec::lemma_trim_len(
                        crate::convspec::conv_seq(
                            cp@,
                            p2@,
                            crate::convspec::full_len(cp@, p2@),
                        ),
                    );
                }
                cp.mul(&p2)
            },
            Ops::Pow => {
                if p1.coeffs.len() > 1 {
                    return Err(PolynomialError::ImpossiblePower2Polynomials);
                }
                let c = p1.coefficient(0);
                if p2.coeffs.len() <= 1 {
                    let c2 = p2.coefficient(0);
                    if c >= 0 {
                        const_poly(scalar_pow(c2, c as u64))
                    } else if c2 == 1 {
                        const_poly(1)
                    } else if c2 == -1 {
                        const_poly(scalar_pow(c2, (-(c as i128)) as u64))
                    } else if c2 == 0 {
                        return Err(PolynomialError::ImpossiblePower);
                    } else {
                        // A proper fraction truncates to zero.
                        const_poly(0)
                    }
                } else if c >= 0 {
                    match poly_pow(&p2, c as u64) {
                        Ok(pw) => pw,
                        Err(e) => {
                            return Err(e);
                        },
                    }
                } else {
                    return Err(PolynomialError::ImpossiblePower);
                }
            },
            Ops::Open => {
                return Err(PolynomialError::ImpossibleOpen);
            },
        };
        if result.coeffs.len() > DEG_LIMIT {
            return Err(PolynomialError::ExcessiveDegree);
        }
        self.pols_vec.push(result);
        Ok(())
    }

    /// Finishes the number currently being read, if any, and pushes it
    /// as a constant operand.
    pub fn push_num(&mut self) -> (r: Result<(), PolynomialError>)
        requires
            operands_ok(old(self).pols_vec@),
        ensures
            operands_ok(final(self).pols_vec@),
    {
        if !self.reads_num {
            return Ok(());
        }
        if self.is_factor {
            let res = self.push_bin_operator(Ops::Mul);
            match res {
                Ok(()) => {},
                Err(e) => {
                    return Err(e);
                },
            }
        }
        if self.num == 0 {
            self.pols_vec.push(Polynomial::new());
        } else {
            // Scale the collected digits down by the decimal places
            // read, truncating toward zero.
            let mut scale: u64 = 1;
            let mut i: u32 = 0;
            let mut overflowed = false;
            while i < self.nb_decs && !overflowed
                invariant
                    scale >= 1,
                decreases self.nb_decs - i,
            {
                if scale > 0x1999_9999_9999_9999 {
                    overflowed = true;
                } else {
                    scale = scale * 10;
                }
                i = i + 1;
            }
            let magnitude: u64 = if overflowed {
                0
            } else {
                self.num / scale
            };
            let signed: i64 = magnitude as i64;
            let value: i64 = if self.is_min {
                wsub_e(0, signed)
            } else {
                signed
            };
            self.pols_vec.push(const_poly(value));
        }
        self.num = 0;
        self.nb_decs = 0;
        self.reads_num = false;
        self.reads_dec = false;
        self.is_min = false;
        self.is_factor = true;
        Ok(())
    }

    /// Executes every stacked operator of equal or higher priority,
    /// then stacks `op`.
    pub fn push_bin_operator(&mut self, op: Ops) -> (r: Result<(), PolynomialError>)
        requires
            operands_ok(old(self).pols_vec@),
        ensures
            operands_ok(final(self).pols_vec@),
    {
        if self.is_min {
            return Err(PolynomialError::UnaryMinusFailed(op));
        }
        let p = op.prio();
        while self.ops_vec.len() > 0 && self.ops_vec[self.ops_vec.len() - 1].prio() >= p
            invariant
                operands_ok(self.pols_vec@),
            decreases self.ops_vec@.len(),
        {
            let res = self.execute_bin_operator();
            match res {
                Ok(()) => {},
                Err(e) => {
                    return Err(e);
                },
            }
        }
        self.ops_vec.push(op);
        Ok(())
    }

    /// Accumulates one decimal digit of the number being read.
    pub fn read_digit(&mut self, n: u8)
        ensures
            final(self).pols_vec@ == old(self).pols_vec@,
    {
        if self.reads_dec {
            self.nb_decs = if self.nb_decs < 0xffff_ffff {
                self.nb_decs + 1
            } else {
                self.nb_decs
            };
        }
        self.num = (n as u64).wrapping_add(self.num.wrapping_mul(10));
        self.reads_num = true;
        self.unary_min = false;
    }

    /// Starts a power: the expansion of reading a `^` mark.
    fn read_power_mark(&mut self) -> (r: Result<(), PolynomialError>)
        requires
            operands_ok(old(self).pols_vec@),
        ensures
            operands_ok(final(self).pols_vec@),
    {
        if let Err(e) = self.push_num() {
            return Err(e);
        }
        if let Err(e) = self.push_bin_operator(Ops::Pow) {
            return Err(e);
        }
        self.is_factor = false;
        self.unary_min = true;
        Ok(())
    }

    /// Consumes one character of the expression.
    pub fn read_char(&mut self, c: char) -> (r: Result<(), PolynomialError>)
        requires
            operands_ok(old(self).pols_vec@),
        ensures
            operands_ok(final(self).pols_vec@),
    {
        match c {
            ' ' => {
                let res = self.push_num();
                if let Err(e) = res {
                    return Err(e);
                }
            },
            '+' => {
                if let Err(e) = self.push_num() {
                    return Err(e);
                }
                if let Err(e) = self.push_bin_operator(Ops::Add) {
                    return Err(e);
                }
                self.is_factor = false;
                self.unary_min = true;
            },
            '-' => {
                if self.unary_min {
                    self.unary_min = false;
                    self.is_min = true;
                    self.is_factor = false;
                } else {
                    if let Err(e) = self.push_num() {
                        return Err(e);
                    }
                    if let Err(e) = self.push_bin_operator(Ops::Min) {
                        return Err(e);
                    }
                    self.is_factor = false;
                    self.unary_min = true;
                }
            },
            '*' => {
                if let Err(e) = self.push_num() {
                    return Err(e);
                }
                if let Err(e) = self.push_bin_operator(Ops::Mul) {
                    return Err(e);
                }
                self.is_factor = false;
                self.unary_min = true;
            },
            '/' => {
                if let Err(e) = self.push_num() {
                    return Err(e);
                }
                if let Err(e) = self.push_bin_operator(Ops::Div) {
                    return Err(e);
                }
                self.is_factor = false;
                self.unary_min = true;
            },
            '^' => {
                if let Err(e) = self.push_num() {
                    return Err(e);
                }
                if let Err(e) = self.push_bin_operator(Ops::Pow) {
                    return Err(e);
                }
                self.is_factor = false;
                self.unary_min = true;
            },
            'X' | 'x' => {
                if let Err(e) = self.push_num() {
                    return Err(e);
                }
                if self.is_factor {
                    if let Err(e) = self.push_bin_operator(Ops::Mul) {
                        return Err(e);
                    }
                }
                self.is_factor = true;
                self.unary_min = false;
                if self.is_min {
                    // An expression such as `-X`: fold the sign in as
                    // a factor of -1.
                    self.is_min = false;
                    self.pols_vec.push(const_poly(-1));
                    if let Err(e) = self.push_bin_operator(Ops::Mul) {
                        return Err(e);
                    }
                }
                self.pols_vec.push(x_poly());
            },
            '(' => {
                if let Err(e) = self.push_num() {
                    return Err(e);
                }
                if self.is_factor {
                    if let Err(e) = self.push_bin_operator(Ops::Mul) {
                        return Err(e);
                    }
                }
                self.ops_vec.push(Ops::Open);
                if self.is_min {
                    // Turn `-(...)` into `(-1 * (...))`.
                    self.is_min = false;
                    self.pols_vec.push(const_poly(-1));
                    if let Err(e) = self.push_bin_operator(Ops::Mul) {
                        return Err(e);
                    }
                }
                self.ops_vec.push(Ops::Open);
                self.is_factor = false;
                self.unary_min = true;
            },
            ')' => {
                if let Err(e) = self.push_num() {
                    return Err(e);
                }
                // Two layers, since every `(` stacked two.
                let mut layer: usize = 0;
                while layer < 2
                    invariant
                        operands_ok(self.pols_vec@),
                        layer <= 2,
                    decreases 2 - layer,
                {
                    while self.ops_vec.len() > 0
                        && self.ops_vec[self.ops_vec.len() - 1] != Ops::Open
                        invariant
                            operands_ok(self.pols_vec@),
                        decreases self.ops_vec@.len(),
                    {
                        let res = self.execute_bin_operator();
                        match res {
                            Ok(()) => {},
                            Err(e) => {
                                return Err(e);
                            },
                        }
                    }
                    match self.ops_vec.pop() {
                        Some(Ops::Open) => {},
                        _ => {
                            return Err(PolynomialError::ImpossibleClose);
                        },
                    }
                    layer = layer + 1;
                }
                self.is_min = false;
                self.is_factor = true;
                self.unary_min = false;
            },
            '.' | ',' => {
                self.reads_num = true;
                self.reads_dec = true;
                self.unary_min = false;
            },
            '0' => self.read_digit(0),
            '1' => self.read_digit(1),
            '2' => self.read_digit(2),
            '3' => self.read_digit(3),
            '4' => self.read_digit(4),
            '5' => self.read_digit(5),
            '6' => self.read_digit(6),
            '7' => self.read_digit(7),
            '8' => self.read_digit(8),
            '9' => self.read_digit(9),
            '\u{2070}' => {
                if let Err(e) = self.read_power_mark() {
                    return Err(e);
                }
                self.read_digit(0);
            },
            '\u{00b9}' => {
                if let Err(e) = self.read_power_mark() {
                    return Err(e);
                }
                self.read_digit(1);
            },
            '\u{00b2}' => {
                if let Err(e) = self.read_power_mark() {
                    return Err(e);
                }
                self.read_digit(2);
            },
            '\u{00b3}' => {
                if let Err(e) = self.read_power_mark() {
                    return Err(e);
                }
                self.read_digit(3);
            },
            '\u{2074}' => {
                if let Err(e) = self.read_power_mark() {
                    return Err(e);
                }
                self.read_digit(4);
            },
            '\u{2075}' => {
                if let Err(e) = self.read_power_mark() {
                    return Err(e);
                }
                self.read_digit(5);
            },
            '\u{2076}' => {
                if let Err(e) = self.read_power_mark() {
                    return Err(e);
                }
                self.read_digit(6);
            },
            '\u{2077}' => {
                if let Err(e) = self.read_power_mark() {
                    return Err(e);
                }
                self.read_digit(7);
            },
            '\u{2078}' => {
                if let Err(e) = self.read_power_mark() {
                    return Err(e);
                }
                self.read_digit(8);
            },
            '\u{2079}' => {
                if let Err(e) = self.read_power_mark() {
                    return Err(e);
                }
                self.read_digit(9);
            },
            _ => {
                return Err(PolynomialError::UnsupportedCharacter(c));
            },
        }
        Ok(())
    }
}

impl Polynomial {
    /// Parses a polynomial expression, reporting a structured error on
    /// malformed input.  A successful parse is a canonical polynomial.
    pub fn parse_string_checked(s: String) -> (r: Result<Self, PolynomialError>)
        ensures
            r matches Ok(p) ==> wf(p@),
    {
        let mut parser = Parser {
            pols_vec: Vec::new(),
            ops_vec: Vec::new(),
            reads_num: false,
            reads_dec: false,
            num: 0u64,
            nb_decs: 0u32,
            unary_min: true,
            is_min: false,
            is_factor: false,
        };
        let st = s.as_str();
        let n = st.unicode_len();
        let mut i: usize = 0;
        while i < n
            invariant
                n == st@.len(),
                operands_ok(parser.pols_vec@),
            decreases n - i,
        {
            let c = st.get_char(i);
            if let Err(e) = parser.read_char(c) {
                return Err(e);
            }
            i = i + 1;
        }
        if let Err(e) = parser.push_num() {
            return Err(e);
        }
        while parser.ops_vec.len() > 0
            invariant
                operands_ok(parser.pols_vec@),
            decreases parser.ops_vec@.len(),
        {
            let res = parser.execute_bin_operator();
            match res {
                Ok(()) => {},
                Err(e) => {
                    return Err(e);
                },
            }
        }
        let ghost pre = parser.pols_vec@;
        match parser.pols_vec.pop() {
            Some(p) => {
                proof {
                    assert(wf(pre[pre.len() - 1]@));
                }
                Ok(p)
            },
            None => Err(PolynomialError::EmptyStringInput),
        }
    }

    /// As `parse_string_checked`, with the error rendered as text.
    pub fn parse_string(s: String) -> (r: Result<Self, String>)
        ensures
            r matches Ok(p) ==> wf(p@),
    {
        match Self::parse_string_checked(s) {
            Ok(p) => Ok(p),
            Err(e) => Err(e.message()),
        }
    }
}

} // verus!
