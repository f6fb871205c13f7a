//! Arithmetic, comparison, boolean and string operators on [Value]s.

use crate::value::{Val, Value};
use vstd::prelude::*;

verus! {

/// Arithmetic and other binary operators.
#[derive(Debug, PartialEq, Eq, Clone, Copy, Structural)]
pub enum Operator {
    /// No operator (the name `None` is a word of Verus).
    Nop,
    Equal,
    NotEqual,
    Greater,
    Less,
    GreaterEqual,
    LessEqual,
    Plus,
    Minus,
    Multiply,
    Divide,
    Remainder,
    Concat,
    And,
    Or,
}

/// Operators whose result is a bool.
pub open spec fn spec_yields_bool(op: Operator) -> bool {
    match op {
        Operator::Equal | Operator::NotEqual | Operator::Greater | Operator::Less
        | Operator::GreaterEqual | Operator::LessEqual | Operator::And | Operator::Or => true,
        _ => false,
    }
}

/// Binding strength of an operator (0 for `Nop`).
pub open spec fn spec_precedence(op: Operator) -> u8 {
    match op {
        Operator::Concat => 1,
        Operator::Or => 2,
        Operator::And => 3,
        Operator::Equal | Operator::NotEqual | Operator::Less | Operator::Greater
        | Operator::LessEqual | Operator::GreaterEqual => 4,
        Operator::Plus | Operator::Minus => 5,
        Operator::Multiply | Operator::Divide | Operator::Remainder => 6,
        Operator::Nop => 0,
    }
}

/// The text of an operator.
pub open spec fn spec_symbol(op: Operator) -> Seq<char> {
    match op {
        Operator::Nop => "???"@,
        Operator::Equal => "="@,
        Operator::NotEqual => "!="@,
        Operator::Greater => ">"@,
        Operator::Less => "<"@,
        Operator::GreaterEqual => ">="@,
        Operator::LessEqual => "<="@,
        Operator::Plus => "+"@,
        Operator::Minus => "-"@,
        Operator::Multiply => "*"@,
        Operator::Divide => "/"@,
        Operator::Remainder => "%"@,
        Operator::Concat => "|"@,
        Operator::And => "and"@,
        Operator::Or => "or"@,
    }
}

/// Quotient rounded towards zero.
pub open spec fn trunc_div(a: int, b: int) -> int {
    let q = (if a >= 0 {
        a
    } else {
        -a
    }) / (if b >= 0 {
        b
    } else {
        -b
    });
    if (a >= 0) == (b >= 0) {
        q
    } else {
        -q
    }
}

/// Integer division rounds towards zero: the quotient times the divisor
/// plus the remainder is the dividend, the remainder is smaller than the
/// divisor in size, and it is zero or has the sign of the dividend (`-7 / 2`
/// is `-3`, remainder `-1`).
pub proof fn lemma_trunc_div(a: int, b: int)
    requires
        b != 0,
    ensures
        trunc_div(a, b) * b + (a - trunc_div(a, b) * b) == a,
        (if a - trunc_div(a, b) * b >= 0 {
            a - trunc_div(a, b) * b
        } else {
            -(a - trunc_div(a, b) * b)
        }) < (if b >= 0 {
            b
        } else {
            -b
        }),
        a - trunc_div(a, b) * b == 0 || ((a - trunc_div(a, b) * b > 0) == (a > 0)),
{
    let ua = if a >= 0 {
        a
    } else {
        -a
    };
    let ub = if b >= 0 {
        b
    } else {
        -b
    };
    let q = ua / ub;
    let m = ua % ub;
    assert(ua == q * ub + m && 0 <= m < ub) by (nonlinear_arith)
        requires
            ub > 0,
            ua >= 0,
            q == ua / ub,
            m == ua % ub,
    ;
    if (a >= 0) == (b >= 0) {
        assert(trunc_div(a, b) == q);
        if a >= 0 {
            assert(a - q * b == m) by (nonlinear_arith)
                requires
                    a == ua,
                    b == ub,
                    ua == q * ub + m,
            ;
        } else {
            assert(a - q * b == -m) by (nonlinear_arith)
                requires
                    a == -ua,
                    b == -ub,
                    ua == q * ub + m,
            ;
        }
    } else {
        assert(trunc_div(a, b) == -q);
        if a >= 0 {
            assert(a - (-q) * b == m) by (nonlinear_arith)
                requires
                    a == ua,
                    b == -ub,
                    ua == q * ub + m,
            ;
        } else {
            assert(a - (-q) * b == -m) by (nonlinear_arith)
                requires
                    a == -ua,
                    b == ub,
                    ua == q * ub + m,
            ;
        }
    }
}

/// Decimal digits of `n`.
pub open spec fn nat_digits(n: nat) -> Seq<u8>
    decreases n,
{
    if n < 10 {
        seq![(48 + n) as u8]
    } else {
        nat_digits(n / 10).push((48 + n % 10) as u8)
    }
}

/// Decimal text of `i` (with a leading `-` when negative).
pub open spec fn int_text(i: int) -> Seq<u8> {
    if i < 0 {
        seq![45u8] + nat_digits((-i) as nat)
    } else {
        nat_digits(i as nat)
    }
}

/// Text of a bool.
pub open spec fn bool_text(b: bool) -> Seq<u8> {
    if b {
        seq![116u8, 114u8, 117u8, 101u8]
    } else {
        seq![102u8, 97u8, 108u8, 115u8, 101u8]
    }
}

/// Values that convert to text in verified code (strings, ints, bools).
pub open spec fn has_text(v: Val) -> bool {
    v is Str || v is Int || v is Bool
}

/// The text of a value: strings as they are, ints in decimal, bools as
/// `true` or `false`.
pub open spec fn val_text(v: Val) -> Seq<u8> {
    match v {
        Val::Str(s) => s,
        Val::Int(i) => int_text(i as int),
        Val::Bool(b) => bool_text(b),
        _ => Seq::empty(),
    }
}

/// The operator applies to the values without overflow or division by zero.
pub open spec fn eval_ok(op: Operator, x: Val, y: Val) -> bool {
    if op is Concat {
        has_text(x) && has_text(y)
    } else if x is Int && y is Int {
        let a = x->Int_0 as int;
        let b = y->Int_0 as int;
        match op {
            Operator::Equal | Operator::NotEqual | Operator::Less | Operator::Greater
            | Operator::LessEqual | Operator::GreaterEqual => true,
            Operator::Plus => i64::MIN <= a + b <= i64::MAX,
            Operator::Minus => i64::MIN <= a - b <= i64::MAX,
            Operator::Multiply => i64::MIN <= a * b <= i64::MAX,
            Operator::Divide | Operator::Remainder => b != 0 && !(a == i64::MIN && b == -1),
            _ => false,
        }
    } else if x is Bool && y is Bool {
        op is And || op is Or
    } else {
        false
    }
}

/// The result of applying the operator.
pub open spec fn eval_spec(op: Operator, x: Val, y: Val) -> Val {
    if op is Concat {
        Val::Str(val_text(x) + val_text(y))
    } else if x is Int && y is Int {
        let a = x->Int_0 as int;
        let b = y->Int_0 as int;
        match op {
            Operator::Equal => Val::Bool(a == b),
            Operator::NotEqual => Val::Bool(a != b),
            Operator::Less => Val::Bool(a < b),
            Operator::Greater => Val::Bool(a > b),
            Operator::LessEqual => Val::Bool(a <= b),
            Operator::GreaterEqual => Val::Bool(a >= b),
            Operator::Plus => Val::Int((a + b) as i64),
            Operator::Minus => Val::Int((a - b) as i64),
            Operator::Multiply => Val::Int((a * b) as i64),
            Operator::Divide => Val::Int(trunc_div(a, b) as i64),
            _ => Val::Int((a - trunc_div(a, b) * b) as i64),
        }
    } else if x is Bool && y is Bool {
        if op is And {
            Val::Bool(x->Bool_0 && y->Bool_0)
        } else {
            Val::Bool(x->Bool_0 || y->Bool_0)
        }
    } else {
        Val::Str(val_text(x) + val_text(y))
    }
}

impl Operator {
    /// Does the operator give a bool?
    pub fn yields_bool(self) -> (r: bool)
        ensures
            r == spec_yields_bool(self),
    {
        match self {
            Operator::Equal | Operator::NotEqual | Operator::Greater | Operator::Less
            | Operator::GreaterEqual | Operator::LessEqual | Operator::And | Operator::Or => true,
            _ => false,
        }
    }

    /// Binding strength of the operator.
    pub fn precedence(&self) -> (r: u8)
        ensures
            r == spec_precedence(*self),
    {
        match self {
            Operator::Concat => 1,
            Operator::Or => 2,
            Operator::And => 3,
            Operator::Equal | Operator::NotEqual | Operator::Less | Operator::Greater
            | Operator::LessEqual | Operator::GreaterEqual => 4,
            Operator::Plus | Operator::Minus => 5,
            Operator::Multiply | Operator::Divide | Operator::Remainder => 6,
            Operator::Nop => 0,
        }
    }

    /// The text of the operator (what displaying it writes).
    pub fn symbol(&self) -> (r: &'static str)
        ensures
            r@ == spec_symbol(*self),
    {
        match self {
            Operator::Nop => "???",
            Operator::Equal => "=",
            Operator::NotEqual => "!=",
            Operator::Greater => ">",
            Operator::Less => "<",
            Operator::GreaterEqual => ">=",
            Operator::LessEqual => "<=",
            Operator::Plus => "+",
            Operator::Minus => "-",
            Operator::Multiply => "*",
            Operator::Divide => "/",
            Operator::Remainder => "%",
            Operator::Concat => "|",
            Operator::And => "and",
            Operator::Or => "or",
        }
    }

    /// Apply the operator to two values.
    pub fn eval(&self, x: &Value, y: &Value) -> (r: Value)
        requires
            eval_ok(*self, x.model(), y.model()),
        ensures
            r.model() == eval_spec(*self, x.model(), y.model()),
    {
        if let Operator::Concat = self {
            let mut s = val_to_str(x);
            let t = val_to_str(y);
            let mut i: usize = 0;
            let ghost s0 = s@;
            while i < t.len()
                invariant
                    i <= t@.len(),
                    s@ == s0 + t@.subrange(0, i as int),
                decreases t@.len() - i,
            {
                s.push(t[i]);
                i += 1;
                proof {
                    assert(s@ =~= s0 + t@.subrange(0, i as int));
                }
            }
            proof {
                assert(t@.subrange(0, t@.len() as int) =~= t@);
            }
            Value::String(s)
        } else if let (Value::Int(a), Value::Int(b)) = (x, y) {
            let a = *a;
            let b = *b;
            match self {
                Operator::Equal => Value::Bool(a == b),
                Operator::NotEqual => Value::Bool(a != b),
                Operator::Less => Value::Bool(a < b),
                Operator::Greater => Value::Bool(a > b),
                Operator::LessEqual => Value::Bool(a <= b),
                Operator::GreaterEqual => Value::Bool(a >= b),
                Operator::Plus => Value::Int(a + b),
                Operator::Minus => Value::Int(a - b),
                Operator::Multiply => Value::Int(a * b),
                Operator::Divide => Value::Int(int_div(a, b)),
                Operator::Remainder => Value::Int(int_rem(a, b)),
                _ => vstd::pervasive::unreached(),
            }
        } else if let (Value::Bool(a), Value::Bool(b)) = (x, y) {
            match self {
                Operator::And => Value::Bool(*a && *b),
                Operator::Or => Value::Bool(*a || *b),
                _ => vstd::pervasive::unreached(),
            }
        } else {
            vstd::pervasive::unreached()
        }
    }
}

/// Integer division rounded towards zero (as Rust's `/`).
pub fn int_div(a: i64, b: i64) -> (r: i64)
    requires
        b != 0,
        !(a == i64::MIN && b == -1),
    ensures
        r == trunc_div(a as int, b as int),
{
    let ua: u64 = if a >= 0 {
        a as u64
    } else {
        ((-(a + 1)) as u64) + 1
    };
    let ub: u64 = if b >= 0 {
        b as u64
    } else {
        ((-(b + 1)) as u64) + 1
    };
    let q = ua / ub;
    proof {
        assert(q <= ua);
        assert(q as int == (if a >= 0 { a as int } else { -a }) / (if b >= 0 { b as int } else { -b }));
        if (a >= 0) == (b >= 0) {
            assert(q <= i64::MAX) by {
                if b == -1 || b == 1 {
                } else {
                    assert(q <= ua / 2) by (nonlinear_arith)
                        requires q == ua / ub, ub >= 2;
                }
            }
        }
    }
    if (a >= 0) == (b >= 0) {
        q as i64
    } else {
        if q == 0x8000_0000_0000_0000 {
            i64::MIN
        } else {
            -(q as i64)
        }
    }
}

/// Remainder of division rounded towards zero (as Rust's `%`).
pub fn int_rem(a: i64, b: i64) -> (r: i64)
    requires
        b != 0,
        !(a == i64::MIN && b == -1),
    ensures
        r == a - trunc_div(a as int, b as int) * b,
{
    let q = int_div(a, b);
    proof {
        let ua = if a >= 0 { a as int } else { -a };
        let ub = if b >= 0 { b as int } else { -b };
        let qq = ua / ub;
        assert(0 <= ua - qq * ub < ub) by (nonlinear_arith)
            requires qq == ua / ub, ub > 0, ua >= 0;
        assert(q * b == (if a >= 0 { qq * ub } else { -(qq * ub) })) by (nonlinear_arith)
            requires
                q == (if (a >= 0) == (b >= 0) { qq } else { -qq }),
                ub == (if b >= 0 { b as int } else { -b }),
        ;
        assert(a - q * b == (if a >= 0 { ua - qq * ub } else { -(ua - qq * ub) }));
    }
    a - q * b
}

/// Appends the decimal digits of `n`.
pub(crate) fn write_digits(n: u64, out: &mut Vec<u8>)
    ensures
        final(out)@ == old(out)@ + nat_digits(n as nat),
    decreases n,
{
    if n >= 10 {
        write_digits(n / 10, out);
    }
    out.push((48 + n % 10) as u8);
    proof {
        if n >= 10 {
            assert(final(out)@ =~= old(out)@ + nat_digits(n as nat));
        } else {
            assert(final(out)@ =~= old(out)@ + nat_digits(n as nat));
        }
    }
}

/// Text of a value: strings as they are, ints in decimal, bools as `true` or `false`.
pub fn val_to_str(x: &Value) -> (r: Vec<u8>)
    requires
        has_text(x.model()),
    ensures
        r@ == val_text(x.model()),
{
    let mut result: Vec<u8> = Vec::new();
    match x {
        Value::String(s) => {
            let mut i: usize = 0;
            while i < s.len()
                invariant
                    i <= s@.len(),
                    result@ == s@.subrange(0, i as int),
                decreases s@.len() - i,
            {
                result.push(s[i]);
                i += 1;
                proof {
                    assert(result@ =~= s@.subrange(0, i as int));
                }
            }
            proof {
                assert(s@.subrange(0, s@.len() as int) =~= s@);
            }
        },
        Value::Int(i) => {
            let i = *i;
            if i < 0 {
                result.push(45u8);
                let m: u64 = ((-(i + 1)) as u64) + 1;
                write_digits(m, &mut result);
            } else {
                write_digits(i as u64, &mut result);
            }
            proof {
                assert(result@ =~= int_text(i as int));
            }
        },
        Value::Bool(b) => {
            if *b {
                result.push(116u8);
                result.push(114u8);
                result.push(117u8);
                result.push(101u8);
            } else {
                result.push(102u8);
                result.push(97u8);
                result.push(108u8);
                result.push(115u8);
                result.push(101u8);
            }
            proof {
                assert(result@ =~= bool_text(*b));
            }
        },
        _ => vstd::pervasive::unreached(),
    }
    result
}

} // verus!
