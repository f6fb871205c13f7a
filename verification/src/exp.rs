//! Expressions of the query language, and their encoding for execution:
//! binary expressions whose operands have a known type (bool, int or
//! string) become typed expressions, which evaluate with fewer values.

use crate::builtin::Builtin;
use crate::datatype::DataType;
use crate::operator::{eval_ok, eval_spec, trunc_div, Operator};
use crate::value::Val;
use crate::token::{tos, utf8_text};
use vstd::prelude::*;
use vstd::utf8::encode_utf8;

verus! {

/// Position of a piece of text in the source: bytes `start..end`.
#[derive(Debug, Clone, Copy, PartialEq, Eq, Structural)]
pub struct SrcPos {
    pub start: usize,
    pub end: usize,
}

/// Bool expression.
#[derive(Debug)]
pub enum BoolExp {
    /// No expression (the name `None` is a word of Verus).
    Nil,
    Bool(bool),
    Local(usize),
    Col(usize),
    And(Box<BoolExp>, Box<BoolExp>),
    Or(Box<BoolExp>, Box<BoolExp>),
    BoolEq(Box<BoolExp>, Box<BoolExp>),
    BoolNe(Box<BoolExp>, Box<BoolExp>),
    IntEq(Box<IntExp>, Box<IntExp>),
    IntNe(Box<IntExp>, Box<IntExp>),
    IntLt(Box<IntExp>, Box<IntExp>),
    IntGt(Box<IntExp>, Box<IntExp>),
    IntLe(Box<IntExp>, Box<IntExp>),
    IntGe(Box<IntExp>, Box<IntExp>),
    StrEq(Box<StrExp>, Box<StrExp>),
    StrNe(Box<StrExp>, Box<StrExp>),
    StrLt(Box<StrExp>, Box<StrExp>),
    StrGt(Box<StrExp>, Box<StrExp>),
    StrLe(Box<StrExp>, Box<StrExp>),
    StrGe(Box<StrExp>, Box<StrExp>),
}

/// Integer expression.
#[derive(Debug)]
pub enum IntExp {
    /// No expression (the name `None` is a word of Verus).
    Nil,
    Int(i64),
    Local(usize),
    Col(usize),
    Add(Box<IntExp>, Box<IntExp>),
    Sub(Box<IntExp>, Box<IntExp>),
    Mul(Box<IntExp>, Box<IntExp>),
    Div(Box<IntExp>, Box<IntExp>),
    Rem(Box<IntExp>, Box<IntExp>),
}

/// String expression.
#[derive(Debug)]
pub enum StrExp {
    /// No expression (the name `None` is a word of Verus).
    Nil,
    Local(usize),
    Col(usize),
    Str(String),
    StrPos(SrcPos),
    Concat(Box<StrExp>, Box<StrExp>),
}

/// Expression.
#[derive(Debug)]
pub enum Exp {
    /// No expression (the name `None` is a word of Verus).
    Nil,
    /// Boolean expression.
    Bool(BoolExp),
    /// Integer expression.
    Int(IntExp),
    /// String expression.
    Str(StrExp),
    /// Unresolved name, changes to Local or Col.
    Name(SrcPos),
    /// Local variable.
    Local(usize),
    /// Table column.
    Col(usize),
    /// Binary expression.
    Binary(Operator, Box<Exp>, Box<Exp>),
    /// Unresolved function call: schema, function name, arguments.
    FnCallByName(SrcPos, SrcPos, Vec<Exp>),
    /// Function call (resolved): function id and arguments.
    FnCall(usize, Vec<Exp>),
    /// Built-in call: builtin operation and arguments.
    BuiltinCall(Builtin, Vec<Exp>),
    /// Conditional expression: if b1 e1 if b2 e2 ... else e_def.
    If(Vec<(Exp, Exp)>, Box<Exp>),
    /// Default value of a data type.
    Default(DataType),
}

/// Model of an [Exp]: sequences in place of vectors.
pub enum ExpM {
    Nil,
    Bool(BoolExp),
    Int(IntExp),
    Str(StrExp),
    Name(SrcPos),
    Local(usize),
    Col(usize),
    Binary(Operator, Box<ExpM>, Box<ExpM>),
    FnCallByName(SrcPos, SrcPos, Seq<ExpM>),
    FnCall(usize, Seq<ExpM>),
    BuiltinCall(Builtin, Seq<ExpM>),
    If(Seq<(ExpM, ExpM)>, Box<ExpM>),
    Default(DataType),
}

impl Exp {
    /// The model of this expression.
    pub open spec fn model(self) -> ExpM
        decreases self,
    {
        match self {
            Exp::Nil => ExpM::Nil,
            Exp::Bool(b) => ExpM::Bool(b),
            Exp::Int(i) => ExpM::Int(i),
            Exp::Str(s) => ExpM::Str(s),
            Exp::Name(p) => ExpM::Name(p),
            Exp::Local(x) => ExpM::Local(x),
            Exp::Col(x) => ExpM::Col(x),
            Exp::Binary(op, x, y) => ExpM::Binary(op, Box::new((*x).model()), Box::new((*y).model())),
            Exp::FnCallByName(s, f, args) => ExpM::FnCallByName(
                s,
                f,
                Seq::new(
                    args@.len(),
                    |i: int|
                        if 0 <= i < args@.len() {
                            args@[i].model()
                        } else {
                            ExpM::Nil
                        },
                ),
            ),
            Exp::FnCall(f, args) => ExpM::FnCall(
                f,
                Seq::new(
                    args@.len(),
                    |i: int|
                        if 0 <= i < args@.len() {
                            args@[i].model()
                        } else {
                            ExpM::Nil
                        },
                ),
            ),
            Exp::BuiltinCall(b, args) => ExpM::BuiltinCall(
                b,
                Seq::new(
                    args@.len(),
                    |i: int|
                        if 0 <= i < args@.len() {
                            args@[i].model()
                        } else {
                            ExpM::Nil
                        },
                ),
            ),
            Exp::If(list, els) => ExpM::If(
                Seq::new(
                    list@.len(),
                    |i: int|
                        if 0 <= i < list@.len() {
                            (list@[i].0.model(), list@[i].1.model())
                        } else {
                            (ExpM::Nil, ExpM::Nil)
                        },
                ),
                Box::new((*els).model()),
            ),
            Exp::Default(dt) => ExpM::Default(dt),
        }
    }
}

/// The typed expression that `op` applied to the encoded operands `x` and
/// `y` becomes: where both are bool, both int or both string and the
/// operator applies to them, a typed expression; otherwise the binary
/// expression of the encoded operands.
pub open spec fn combine(op: Operator, x: ExpM, y: ExpM) -> ExpM {
    let keep = ExpM::Binary(op, Box::new(x), Box::new(y));
    match (x, y) {
        (ExpM::Bool(a), ExpM::Bool(b)) => {
            let (a, b) = (Box::new(a), Box::new(b));
            match op {
                Operator::And => ExpM::Bool(BoolExp::And(a, b)),
                Operator::Or => ExpM::Bool(BoolExp::Or(a, b)),
                Operator::Equal => ExpM::Bool(BoolExp::BoolEq(a, b)),
                Operator::NotEqual => ExpM::Bool(BoolExp::BoolNe(a, b)),
                _ => keep,
            }
        },
        (ExpM::Int(a), ExpM::Int(b)) => {
            let (a, b) = (Box::new(a), Box::new(b));
            match op {
                Operator::Plus => ExpM::Int(IntExp::Add(a, b)),
                Operator::Minus => ExpM::Int(IntExp::Sub(a, b)),
                Operator::Multiply => ExpM::Int(IntExp::Mul(a, b)),
                Operator::Divide => ExpM::Int(IntExp::Div(a, b)),
                Operator::Remainder => ExpM::Int(IntExp::Rem(a, b)),
                Operator::Equal => ExpM::Bool(BoolExp::IntEq(a, b)),
                Operator::NotEqual => ExpM::Bool(BoolExp::IntNe(a, b)),
                Operator::Less => ExpM::Bool(BoolExp::IntLt(a, b)),
                Operator::Greater => ExpM::Bool(BoolExp::IntGt(a, b)),
                Operator::LessEqual => ExpM::Bool(BoolExp::IntLe(a, b)),
                Operator::GreaterEqual => ExpM::Bool(BoolExp::IntGe(a, b)),
                _ => keep,
            }
        },
        (ExpM::Str(a), ExpM::Str(b)) => {
            let (a, b) = (Box::new(a), Box::new(b));
            match op {
                Operator::Concat => ExpM::Str(StrExp::Concat(a, b)),
                Operator::Equal => ExpM::Bool(BoolExp::StrEq(a, b)),
                Operator::NotEqual => ExpM::Bool(BoolExp::StrNe(a, b)),
                Operator::Less => ExpM::Bool(BoolExp::StrLt(a, b)),
                Operator::Greater => ExpM::Bool(BoolExp::StrGt(a, b)),
                Operator::LessEqual => ExpM::Bool(BoolExp::StrLe(a, b)),
                Operator::GreaterEqual => ExpM::Bool(BoolExp::StrGe(a, b)),
                _ => keep,
            }
        },
        _ => keep,
    }
}

/// Operator `op` applies to operands `x` and `y` where both are typed
/// alike: logic and equality on bools; arithmetic and comparison on ints;
/// concatenation and comparison on strings. Operands not typed alike are
/// left as they are, whatever the operator.
pub open spec fn op_applies(op: Operator, x: ExpM, y: ExpM) -> bool {
    match (x, y) {
        (ExpM::Bool(_), ExpM::Bool(_)) => op == Operator::And || op == Operator::Or || op
            == Operator::Equal || op == Operator::NotEqual,
        (ExpM::Int(_), ExpM::Int(_)) => op != Operator::Nop && op != Operator::Concat && op
            != Operator::And && op != Operator::Or,
        (ExpM::Str(_), ExpM::Str(_)) => op == Operator::Concat || op == Operator::Equal || op
            == Operator::NotEqual || op == Operator::Less || op == Operator::Greater || op
            == Operator::LessEqual || op == Operator::GreaterEqual,
        _ => true,
    }
}

/// The encoding of expression `e` for execution. A binary expression other
/// than concatenation has its operands encoded and then is combined (see
/// [combine]); a concatenation is left whole. The arguments of calls and
/// the parts of a conditional are encoded; other expressions stay. The
/// encoding keeps the value of an expression ([lemma_encoding_keeps_value])
/// and is done once for all ([lemma_encoding_idempotent]).
pub open spec fn encoding(e: ExpM) -> ExpM
    decreases e,
{
    match e {
        ExpM::Binary(op, x, y) => if op == Operator::Concat {
            e
        } else {
            combine(op, encoding(*x), encoding(*y))
        },
        ExpM::FnCall(f, args) => ExpM::FnCall(
            f,
            Seq::new(
                args.len(),
                |i: int|
                    if 0 <= i < args.len() {
                        encoding(args[i])
                    } else {
                        ExpM::Nil
                    },
            ),
        ),
        ExpM::BuiltinCall(b, args) => ExpM::BuiltinCall(
            b,
            Seq::new(
                args.len(),
                |i: int|
                    if 0 <= i < args.len() {
                        encoding(args[i])
                    } else {
                        ExpM::Nil
                    },
            ),
        ),
        ExpM::If(list, els) => ExpM::If(
            Seq::new(
                list.len(),
                |i: int|
                    if 0 <= i < list.len() {
                        (encoding(list[i].0), encoding(list[i].1))
                    } else {
                        (ExpM::Nil, ExpM::Nil)
                    },
            ),
            Box::new(encoding(*els)),
        ),
        _ => e,
    }
}

/// Expression `e` can be encoded: in each binary expression that is
/// encoded, the operator applies to its encoded operands where they are
/// typed alike (see [op_applies]).
pub open spec fn encodable(e: ExpM) -> bool
    decreases e,
{
    match e {
        ExpM::Binary(op, x, y) => op == Operator::Concat || (encodable(*x) && encodable(*y)
            && op_applies(op, encoding(*x), encoding(*y))),
        ExpM::FnCall(_, args) => forall|i: int| 0 <= i < args.len() ==> encodable(#[trigger] args[i]),
        ExpM::BuiltinCall(_, args) => forall|i: int|
            0 <= i < args.len() ==> encodable(#[trigger] args[i]),
        ExpM::If(list, els) => (forall|i: int|
            0 <= i < list.len() ==> encodable(#[trigger] list[i].0) && encodable(list[i].1))
            && encodable(*els),
        _ => true,
    }
}

/// Encoding is done once for all: encoding an encoded expression changes
/// nothing, and an expression that can be encoded stays encodable once
/// encoded, so [Exp::encode] may be called on it again.
pub proof fn lemma_encoding_idempotent(e: ExpM)
    ensures
        encoding(encoding(e)) == encoding(e),
        encodable(e) ==> encodable(encoding(e)),
    decreases e,
{
    match e {
        ExpM::Binary(op, x, y) => {
            if op != Operator::Concat {
                lemma_encoding_idempotent(*x);
                lemma_encoding_idempotent(*y);
                let (ex, ey) = (encoding(*x), encoding(*y));
                if encodable(e) && combine(op, ex, ey) is Binary {
                    assert(op_applies(op, encoding(ex), encoding(ey)));
                }
            }
        },
        ExpM::FnCall(f, args) => {
            let en = encoding(e)->FnCall_1;
            assert forall|i: int| 0 <= i < args.len() implies #[trigger] encoding(en[i]) == en[i]
                by {
                lemma_encoding_idempotent(args[i]);
            }
            assert forall|i: int| 0 <= i < args.len() && encodable(e) implies encodable(
                #[trigger] en[i],
            ) by {
                lemma_encoding_idempotent(args[i]);
            }
            let ee = encoding(e);
            assert(ee == ExpM::FnCall(ee->FnCall_0, en));
            assert forall|i: int| 0 <= i < en.len() implies #[trigger] encoding(ee)->FnCall_1[i]
                == en[i] by {
                lemma_encoding_idempotent(args[i]);
                assert(en[i] == encoding(args[i]));
            }
            assert(encoding(ee)->FnCall_1 =~= en);
        },
        ExpM::BuiltinCall(b, args) => {
            let en = encoding(e)->BuiltinCall_1;
            assert forall|i: int| 0 <= i < args.len() implies #[trigger] encoding(en[i]) == en[i]
                by {
                lemma_encoding_idempotent(args[i]);
            }
            assert forall|i: int| 0 <= i < args.len() && encodable(e) implies encodable(
                #[trigger] en[i],
            ) by {
                lemma_encoding_idempotent(args[i]);
            }
            let ee = encoding(e);
            assert(ee == ExpM::BuiltinCall(ee->BuiltinCall_0, en));
            assert forall|i: int| 0 <= i < en.len() implies #[trigger] encoding(ee)->BuiltinCall_1[i]
                == en[i] by {
                lemma_encoding_idempotent(args[i]);
                assert(en[i] == encoding(args[i]));
            }
            assert(encoding(ee)->BuiltinCall_1 =~= en);
        },
        ExpM::If(list, els) => {
            let en = encoding(e)->If_0;
            assert forall|i: int| 0 <= i < list.len() implies (encoding(#[trigger] en[i].0),
                encoding(en[i].1)) == en[i] by {
                lemma_encoding_idempotent(list[i].0);
                lemma_encoding_idempotent(list[i].1);
            }
            assert forall|i: int| 0 <= i < list.len() && encodable(e) implies encodable(
                #[trigger] en[i].0,
            ) && encodable(en[i].1) by {
                lemma_encoding_idempotent(list[i].0);
                lemma_encoding_idempotent(list[i].1);
            }
            lemma_encoding_idempotent(*els);
            assert(encoding(encoding(e))->If_0 =~= en);
        },
        _ => {},
    }
}

/// What an expression is evaluated in: the values of the local variables,
/// the values of the current row's columns, and the source text (which
/// string positions refer to).
pub struct Ctx {
    pub locals: Seq<Val>,
    pub row: Seq<Val>,
    pub src: Seq<u8>,
}

/// The value of local variable (or column) `x` among `vals`.
pub open spec fn nth(vals: Seq<Val>, x: usize) -> Option<Val> {
    if x < vals.len() {
        Some(vals[x as int])
    } else {
        None
    }
}

/// The int of value `v`, where it is one.
pub open spec fn int_of(v: Option<Val>) -> Option<i64> {
    match v {
        Some(Val::Int(i)) => Some(i),
        _ => None,
    }
}

/// The bool of value `v`, where it is one.
pub open spec fn bool_of(v: Option<Val>) -> Option<bool> {
    match v {
        Some(Val::Bool(b)) => Some(b),
        _ => None,
    }
}

/// The bytes of string value `v`, where it is one.
pub open spec fn str_of(v: Option<Val>) -> Option<Seq<u8>> {
    match v {
        Some(Val::Str(s)) => Some(s),
        _ => None,
    }
}

/// `a` comes before `b` in the order of their bytes.
pub open spec fn bytes_lt(a: Seq<u8>, b: Seq<u8>) -> bool
    decreases a.len(),
{
    if a.len() == 0 {
        b.len() > 0
    } else if b.len() == 0 {
        false
    } else if a[0] != b[0] {
        a[0] < b[0]
    } else {
        bytes_lt(a.drop_first(), b.drop_first())
    }
}

/// The value of int expression `e` in `c`; `None` where evaluating it fails:
/// a local or column that is not an int, an overflow, a division by zero.
pub open spec fn int_value(e: IntExp, c: Ctx) -> Option<i64>
    decreases e,
{
    match e {
        IntExp::Int(x) => Some(x),
        IntExp::Local(x) => int_of(nth(c.locals, x)),
        IntExp::Col(x) => int_of(nth(c.row, x)),
        IntExp::Add(a, b) => match (int_value(*a, c), int_value(*b, c)) {
            (Some(x), Some(y)) => if i64::MIN <= x + y <= i64::MAX {
                Some((x + y) as i64)
            } else {
                None
            },
            _ => None,
        },
        IntExp::Sub(a, b) => match (int_value(*a, c), int_value(*b, c)) {
            (Some(x), Some(y)) => if i64::MIN <= x - y <= i64::MAX {
                Some((x - y) as i64)
            } else {
                None
            },
            _ => None,
        },
        IntExp::Mul(a, b) => match (int_value(*a, c), int_value(*b, c)) {
            (Some(x), Some(y)) => if i64::MIN <= x * y <= i64::MAX {
                Some((x * y) as i64)
            } else {
                None
            },
            _ => None,
        },
        IntExp::Div(a, b) => match (int_value(*a, c), int_value(*b, c)) {
            (Some(x), Some(y)) => if y != 0 && !(x == i64::MIN && y == -1) {
                Some(trunc_div(x as int, y as int) as i64)
            } else {
                None
            },
            _ => None,
        },
        IntExp::Rem(a, b) => match (int_value(*a, c), int_value(*b, c)) {
            (Some(x), Some(y)) => if y != 0 && !(x == i64::MIN && y == -1) {
                Some((x - trunc_div(x as int, y as int) * y) as i64)
            } else {
                None
            },
            _ => None,
        },
        IntExp::Nil => None,
    }
}

/// The value (its bytes) of string expression `e` in `c`; `None` where
/// evaluating it fails.
pub open spec fn str_value(e: StrExp, c: Ctx) -> Option<Seq<u8>>
    decreases e,
{
    match e {
        StrExp::Local(x) => str_of(nth(c.locals, x)),
        StrExp::Col(x) => str_of(nth(c.row, x)),
        StrExp::Str(s) => Some(encode_utf8(s@)),
        StrExp::StrPos(p) => if pos_text(p, c.src) is Some {
            Some(c.src.subrange(p.start as int, p.end as int))
        } else {
            None
        },
        StrExp::Concat(a, b) => match (str_value(*a, c), str_value(*b, c)) {
            (Some(x), Some(y)) => Some(x + y),
            _ => None,
        },
        StrExp::Nil => None,
    }
}

/// The value of bool expression `e` in `c`; `None` where evaluating it
/// fails. `and` and `or` look at their second operand only where the first
/// does not decide.
pub open spec fn bool_value(e: BoolExp, c: Ctx) -> Option<bool>
    decreases e,
{
    match e {
        BoolExp::Bool(x) => Some(x),
        BoolExp::Local(x) => bool_of(nth(c.locals, x)),
        BoolExp::Col(x) => bool_of(nth(c.row, x)),
        BoolExp::And(a, b) => match bool_value(*a, c) {
            Some(false) => Some(false),
            Some(true) => bool_value(*b, c),
            None => None,
        },
        BoolExp::Or(a, b) => match bool_value(*a, c) {
            Some(true) => Some(true),
            Some(false) => bool_value(*b, c),
            None => None,
        },
        BoolExp::BoolEq(a, b) => match (bool_value(*a, c), bool_value(*b, c)) {
            (Some(x), Some(y)) => Some(x == y),
            _ => None,
        },
        BoolExp::BoolNe(a, b) => match (bool_value(*a, c), bool_value(*b, c)) {
            (Some(x), Some(y)) => Some(x != y),
            _ => None,
        },
        BoolExp::IntEq(a, b) => match (int_value(*a, c), int_value(*b, c)) {
            (Some(x), Some(y)) => Some(x == y),
            _ => None,
        },
        BoolExp::IntNe(a, b) => match (int_value(*a, c), int_value(*b, c)) {
            (Some(x), Some(y)) => Some(x != y),
            _ => None,
        },
        BoolExp::IntLt(a, b) => match (int_value(*a, c), int_value(*b, c)) {
            (Some(x), Some(y)) => Some(x < y),
            _ => None,
        },
        BoolExp::IntGt(a, b) => match (int_value(*a, c), int_value(*b, c)) {
            (Some(x), Some(y)) => Some(x > y),
            _ => None,
        },
        BoolExp::IntLe(a, b) => match (int_value(*a, c), int_value(*b, c)) {
            (Some(x), Some(y)) => Some(x <= y),
            _ => None,
        },
        BoolExp::IntGe(a, b) => match (int_value(*a, c), int_value(*b, c)) {
            (Some(x), Some(y)) => Some(x >= y),
            _ => None,
        },
        BoolExp::StrEq(a, b) => match (str_value(*a, c), str_value(*b, c)) {
            (Some(x), Some(y)) => Some(x == y),
            _ => None,
        },
        BoolExp::StrNe(a, b) => match (str_value(*a, c), str_value(*b, c)) {
            (Some(x), Some(y)) => Some(x != y),
            _ => None,
        },
        BoolExp::StrLt(a, b) => match (str_value(*a, c), str_value(*b, c)) {
            (Some(x), Some(y)) => Some(bytes_lt(x, y)),
            _ => None,
        },
        BoolExp::StrGt(a, b) => match (str_value(*a, c), str_value(*b, c)) {
            (Some(x), Some(y)) => Some(bytes_lt(y, x)),
            _ => None,
        },
        BoolExp::StrLe(a, b) => match (str_value(*a, c), str_value(*b, c)) {
            (Some(x), Some(y)) => Some(!bytes_lt(y, x)),
            _ => None,
        },
        BoolExp::StrGe(a, b) => match (str_value(*a, c), str_value(*b, c)) {
            (Some(x), Some(y)) => Some(!bytes_lt(x, y)),
            _ => None,
        },
        BoolExp::Nil => None,
    }
}

/// The value of expression `e` in `c`, where evaluating it needs no call
/// (of a function or a builtin) and no conditional: constants, locals,
/// columns, typed expressions, and binary expressions, whose operator is
/// applied to the values of its operands as [Operator::eval] applies it.
/// `None` where evaluating it fails or needs what is left out.
pub open spec fn value_of(e: ExpM, c: Ctx) -> Option<Val>
    decreases e,
{
    match e {
        ExpM::Bool(b) => match bool_value(b, c) {
            Some(x) => Some(Val::Bool(x)),
            None => None,
        },
        ExpM::Int(i) => match int_value(i, c) {
            Some(x) => Some(Val::Int(x)),
            None => None,
        },
        ExpM::Str(s) => match str_value(s, c) {
            Some(x) => Some(Val::Str(x)),
            None => None,
        },
        ExpM::Local(x) => nth(c.locals, x),
        ExpM::Col(x) => nth(c.row, x),
        ExpM::Binary(op, x, y) => match (value_of(*x, c), value_of(*y, c)) {
            (Some(a), Some(b)) => if eval_ok(op, a, b) {
                Some(eval_spec(op, a, b))
            } else {
                None
            },
            _ => None,
        },
        _ => None,
    }
}

/// What encoding is for: an encoded expression has the value that the
/// expression has, wherever that value is defined (see [value_of]).
pub proof fn lemma_encoding_keeps_value(e: ExpM, c: Ctx)
    requires
        value_of(e, c) is Some,
    ensures
        value_of(encoding(e), c) == value_of(e, c),
    decreases e,
{
    match e {
        ExpM::Binary(op, x, y) => {
            if op != Operator::Concat {
                lemma_encoding_keeps_value(*x, c);
                lemma_encoding_keeps_value(*y, c);
            }
        },
        _ => {},
    }
}

/// What operator `op` gives on values `a` and `b` of one type, as the query
/// language defines it: on strings, comparison by the order of their bytes
/// (and concatenation); on bools, logic and equality; on ints, comparison
/// and arithmetic (`None` on overflow or division by zero).
pub open spec fn op_on_values(op: Operator, a: Val, b: Val) -> Option<Val> {
    match (a, b) {
        (Val::Str(s), Val::Str(t)) => match op {
            Operator::Equal => Some(Val::Bool(s == t)),
            Operator::NotEqual => Some(Val::Bool(s != t)),
            Operator::Less => Some(Val::Bool(bytes_lt(s, t))),
            Operator::Greater => Some(Val::Bool(bytes_lt(t, s))),
            Operator::LessEqual => Some(Val::Bool(s == t || bytes_lt(s, t))),
            Operator::GreaterEqual => Some(Val::Bool(s == t || bytes_lt(t, s))),
            Operator::Concat => Some(Val::Str(s + t)),
            _ => None,
        },
        (Val::Bool(p), Val::Bool(q)) => match op {
            Operator::And => Some(Val::Bool(p && q)),
            Operator::Or => Some(Val::Bool(p || q)),
            Operator::Equal => Some(Val::Bool(p == q)),
            Operator::NotEqual => Some(Val::Bool(p != q)),
            _ => None,
        },
        (Val::Int(i), Val::Int(j)) => {
            let (x, y) = (i as int, j as int);
            match op {
                Operator::Equal => Some(Val::Bool(x == y)),
                Operator::NotEqual => Some(Val::Bool(x != y)),
                Operator::Less => Some(Val::Bool(x < y)),
                Operator::Greater => Some(Val::Bool(x > y)),
                Operator::LessEqual => Some(Val::Bool(x <= y)),
                Operator::GreaterEqual => Some(Val::Bool(x >= y)),
                Operator::Plus => if i64::MIN <= x + y <= i64::MAX {
                    Some(Val::Int((x + y) as i64))
                } else {
                    None
                },
                Operator::Minus => if i64::MIN <= x - y <= i64::MAX {
                    Some(Val::Int((x - y) as i64))
                } else {
                    None
                },
                Operator::Multiply => if i64::MIN <= x * y <= i64::MAX {
                    Some(Val::Int((x * y) as i64))
                } else {
                    None
                },
                Operator::Divide => if y != 0 && !(x == i64::MIN && y == -1) {
                    Some(Val::Int(trunc_div(x, y) as i64))
                } else {
                    None
                },
                Operator::Remainder => if y != 0 && !(x == i64::MIN && y == -1) {
                    Some(Val::Int((x - trunc_div(x, y) * y) as i64))
                } else {
                    None
                },
                _ => None,
            }
        },
        _ => None,
    }
}

/// [Operator::eval] gives what the operator means (see [op_on_values]):
/// on ints comparison and arithmetic, on bools `and` and `or`, wherever it
/// applies to the values.
pub proof fn lemma_eval_is_operator_meaning(op: Operator, a: Val, b: Val)
    requires
        eval_ok(op, a, b),
        op != Operator::Concat,
    ensures
        op_on_values(op, a, b) == Some(eval_spec(op, a, b)),
{
}

/// Both expressions are typed, and typed alike: both bool, both int or
/// both string.
pub open spec fn typed_alike(x: ExpM, y: ExpM) -> bool {
    (x is Bool && y is Bool) || (x is Int && y is Int) || (x is Str && y is Str)
}

/// The order of bytes is a strict order: no string comes before itself,
/// and of two strings at most one comes before the other.
pub proof fn lemma_bytes_lt_asym(a: Seq<u8>, b: Seq<u8>)
    ensures
        bytes_lt(a, b) ==> !bytes_lt(b, a),
        !bytes_lt(a, a),
    decreases a.len(),
{
    if a.len() > 0 && b.len() > 0 && a[0] == b[0] {
        lemma_bytes_lt_asym(a.drop_first(), b.drop_first());
    }
    if a.len() > 0 {
        lemma_bytes_lt_asym(a.drop_first(), a.drop_first());
    }
}

/// The order of bytes is total: of two different strings one comes before
/// the other.
pub proof fn lemma_bytes_lt_total(a: Seq<u8>, b: Seq<u8>)
    ensures
        a != b ==> bytes_lt(a, b) || bytes_lt(b, a),
    decreases a.len(),
{
    if a.len() > 0 && b.len() > 0 && a[0] == b[0] {
        lemma_bytes_lt_total(a.drop_first(), b.drop_first());
        if a.drop_first() == b.drop_first() {
            assert(a =~= seq![a[0]] + a.drop_first());
            assert(b =~= seq![b[0]] + b.drop_first());
        }
    }
    if a.len() == 0 && b.len() == 0 {
        assert(a =~= b);
    }
}

/// The order of bytes is the dictionary order: a proper prefix comes
/// first, and otherwise the first byte at which two strings differ decides.
pub proof fn lemma_bytes_lt_order(a: Seq<u8>, b: Seq<u8>, i: int)
    requires
        0 <= i <= a.len(),
        i <= b.len(),
        a.subrange(0, i) == b.subrange(0, i),
    ensures
        i == a.len() && i < b.len() ==> bytes_lt(a, b),
        i < a.len() && i < b.len() && a[i] < b[i] ==> bytes_lt(a, b),
        i < a.len() && i < b.len() && a[i] > b[i] ==> !bytes_lt(a, b),
        i == b.len() ==> !bytes_lt(a, b),
    decreases i,
{
    if i > 0 {
        assert(a[0] == a.subrange(0, i)[0] && b[0] == b.subrange(0, i)[0]);
        assert(a.drop_first().subrange(0, i - 1) =~= a.subrange(0, i).drop_first());
        assert(b.drop_first().subrange(0, i - 1) =~= b.subrange(0, i).drop_first());
        lemma_bytes_lt_order(a.drop_first(), b.drop_first(), i - 1);
    }
}

/// An operator between operands that encode to typed expressions of one
/// type is encoded to an expression whose value is what the operator gives
/// on the operands' values (see [op_on_values]): `'a' < Name` is true
/// exactly when `'a'` comes before the column's string.
pub proof fn lemma_encoding_applies_operator(op: Operator, x: ExpM, y: ExpM, c: Ctx)
    requires
        op != Operator::Concat,
        encodable(ExpM::Binary(op, Box::new(x), Box::new(y))),
        typed_alike(encoding(x), encoding(y)),
        value_of(encoding(x), c) is Some,
        value_of(encoding(y), c) is Some,
    ensures
        value_of(encoding(ExpM::Binary(op, Box::new(x), Box::new(y))), c) == op_on_values(
            op,
            value_of(encoding(x), c)->0,
            value_of(encoding(y), c)->0,
        ),
{
    let (ex, ey) = (encoding(x), encoding(y));
    assert(encoding(ExpM::Binary(op, Box::new(x), Box::new(y))) == combine(op, ex, ey));
    if ex is Str {
        let (a, b) = (str_value(ex->Str_0, c)->0, str_value(ey->Str_0, c)->0);
        assert(value_of(ex, c) == Some(Val::Str(a)));
        assert(value_of(ey, c) == Some(Val::Str(b)));
        lemma_bytes_lt_asym(a, b);
        lemma_bytes_lt_asym(b, a);
        lemma_bytes_lt_total(a, b);
        if a == b {
            lemma_bytes_lt_asym(a, a);
        }
    } else if ex is Bool {
        assert(value_of(ex, c) == Some(Val::Bool(bool_value(ex->Bool_0, c)->0)));
        assert(value_of(ey, c) == Some(Val::Bool(bool_value(ey->Bool_0, c)->0)));
    } else {
        assert(value_of(ex, c) == Some(Val::Int(int_value(ex->Int_0, c)->0)));
        assert(value_of(ey, c) == Some(Val::Int(int_value(ey->Int_0, c)->0)));
    }
}

impl Exp {
    /// Encode for execution: replace binary expressions whose operands have
    /// a known type by bool, int or string expressions.
    pub fn encode(&mut self)
        requires
            encodable(old(self).model()),
        ensures
            final(self).model() == encoding(old(self).model()),
    {
        let mut e = Exp::Nil;
        std::mem::swap(&mut e, self);
        *self = Exp::encoded(e);
    }

    /// The encoding of `e`.
    #[verifier::spinoff_prover]
    pub(crate) fn encoded(e: Exp) -> (r: Exp)
        requires
            encodable(e.model()),
        ensures
            r.model() == encoding(e.model()),
        decreases e,
    {
        let ghost e0 = e;
        match e {
            Exp::Binary(op, x, y) => {
                if op == Operator::Concat {
                    return Exp::Binary(op, x, y);
                }
                let xe = Exp::encoded(*x);
                let ye = Exp::encoded(*y);
                Exp::combined(op, xe, ye)
            },
            Exp::FnCall(f, args) => {
                let ghost m = e0.model()->FnCall_1;
                proof {
                    assert(decreases_to!(e0 => args));
                    assert forall|i: int| 0 <= i < args@.len() implies encodable(
                        #[trigger] args@[i].model(),
                    ) by {
                        assert(m[i] == args@[i].model());
                    }
                }
                let v = Exp::encoded_list(args);
                let r = Exp::FnCall(f, v);
                proof {
                    assert forall|i: int| 0 <= i < m.len() implies #[trigger] r.model()->FnCall_1[i]
                        == encoding(e0.model())->FnCall_1[i] by {
                        assert(m[i] == args@[i].model());
                        assert(r.model()->FnCall_1[i] == v@[i].model());
                        assert(v@[i].model() == encoding(args@[i].model()));
                    }
                    assert(r.model()->FnCall_1 =~= encoding(e0.model())->FnCall_1);
                }
                r
            },
            Exp::BuiltinCall(b, args) => {
                let ghost m = e0.model()->BuiltinCall_1;
                proof {
                    assert(decreases_to!(e0 => args));
                    assert forall|i: int| 0 <= i < args@.len() implies encodable(
                        #[trigger] args@[i].model(),
                    ) by {
                        assert(m[i] == args@[i].model());
                    }
                }
                let v = Exp::encoded_list(args);
                let r = Exp::BuiltinCall(b, v);
                proof {
                    assert forall|i: int| 0 <= i < m.len() implies #[trigger] r.model()->BuiltinCall_1[i]
                        == encoding(e0.model())->BuiltinCall_1[i] by {
                        assert(m[i] == args@[i].model());
                        assert(r.model()->BuiltinCall_1[i] == v@[i].model());
                        assert(v@[i].model() == encoding(args@[i].model()));
                    }
                    assert(r.model()->BuiltinCall_1 =~= encoding(e0.model())->BuiltinCall_1);
                }
                r
            },
            Exp::If(list, els) => {
                let ghost m = e0.model()->If_0;
                proof {
                    assert(decreases_to!(e0 => list));
                    assert forall|i: int| 0 <= i < list@.len() implies encodable(
                        #[trigger] list@[i].0.model(),
                    ) && encodable(list@[i].1.model()) by {
                        assert(m[i] == (list@[i].0.model(), list@[i].1.model()));
                        assert(encodable(m[i].0) && encodable(m[i].1));
                    }
                }
                let v = Exp::encoded_pairs(list);
                let ee = Exp::encoded(*els);
                let r = Exp::If(v, Box::new(ee));
                proof {
                    assert forall|i: int| 0 <= i < m.len() implies #[trigger] r.model()->If_0[i]
                        == encoding(e0.model())->If_0[i] by {
                        assert(m[i] == (list@[i].0.model(), list@[i].1.model()));
                        assert(r.model()->If_0[i] == (v@[i].0.model(), v@[i].1.model()));
                        assert(v@[i].0.model() == encoding(list@[i].0.model()));
                    }
                    assert(r.model()->If_0 =~= encoding(e0.model())->If_0);
                }
                r
            },
            other => other,
        }
    }

    /// The encodings of the expressions of `args`, in order.
    pub(crate) fn encoded_list(args: Vec<Exp>) -> (r: Vec<Exp>)
        requires
            forall|i: int| 0 <= i < args@.len() ==> encodable(#[trigger] args@[i].model()),
        ensures
            r@.len() == args@.len(),
            forall|i: int|
                0 <= i < args@.len() ==> #[trigger] r@[i].model() == encoding(args@[i].model()),
        decreases args,
    {
        let ghost a0 = args;
        let mut rest = args;
        let mut out: Vec<Exp> = Vec::new();
        while rest.len() > 0
            invariant
                a0 == args,
                out@.len() + rest@.len() == a0@.len(),
                rest@ == a0@.subrange(out@.len() as int, a0@.len() as int),
                forall|i: int| 0 <= i < a0@.len() ==> encodable(#[trigger] a0@[i].model()),
                forall|i: int|
                    0 <= i < out@.len() ==> #[trigger] out@[i].model() == encoding(a0@[i].model()),
            decreases rest@.len(),
        {
            let ghost k = out@.len() as int;
            let x = rest.remove(0);
            proof {
                assert(x == a0@[k]);
                assert(decreases_to!(a0 => a0@));
                assert(decreases_to!(a0@ => a0@[k]));
            }
            let xe = Exp::encoded(x);
            out.push(xe);
            proof {
                assert(rest@ =~= a0@.subrange(out@.len() as int, a0@.len() as int));
            }
        }
        out
    }

    /// The encodings of the pairs of expressions of `list`, in order.
    #[verifier::spinoff_prover]
    fn encoded_pairs(list: Vec<(Exp, Exp)>) -> (r: Vec<(Exp, Exp)>)
        requires
            forall|i: int|
                0 <= i < list@.len() ==> encodable(#[trigger] list@[i].0.model()) && encodable(
                    list@[i].1.model(),
                ),
        ensures
            r@.len() == list@.len(),
            forall|i: int|
                0 <= i < list@.len() ==> #[trigger] r@[i].0.model() == encoding(list@[i].0.model())
                    && r@[i].1.model() == encoding(list@[i].1.model()),
        decreases list,
    {
        let ghost a0 = list;
        let mut rest = list;
        let mut out: Vec<(Exp, Exp)> = Vec::new();
        while rest.len() > 0
            invariant
                a0 == list,
                out@.len() + rest@.len() == a0@.len(),
                rest@ == a0@.subrange(out@.len() as int, a0@.len() as int),
                forall|i: int|
                    0 <= i < a0@.len() ==> encodable(#[trigger] a0@[i].0.model()) && encodable(
                        a0@[i].1.model(),
                    ),
                forall|i: int|
                    0 <= i < out@.len() ==> #[trigger] out@[i].0.model() == encoding(
                        a0@[i].0.model(),
                    ) && out@[i].1.model() == encoding(a0@[i].1.model()),
            decreases rest@.len(),
        {
            let ghost k = out@.len() as int;
            let (c, x) = rest.remove(0);
            proof {
                assert(c == a0@[k].0 && x == a0@[k].1);
                assert(decreases_to!(a0 => a0@));
                assert(decreases_to!(a0@ => a0@[k]));
                assert(decreases_to!(a0@[k] => a0@[k].0));
                assert(decreases_to!(a0@[k] => a0@[k].1));
            }
            let ce = Exp::encoded(c);
            let xe = Exp::encoded(x);
            out.push((ce, xe));
            proof {
                assert(rest@ =~= a0@.subrange(out@.len() as int, a0@.len() as int));
            }
        }
        out
    }

    /// The typed expression that `op` on encoded operands `x` and `y`
    /// becomes (see [combine]).
    fn combined(op: Operator, x: Exp, y: Exp) -> (r: Exp)
        requires
            op != Operator::Concat,
            op_applies(op, x.model(), y.model()),
        ensures
            r.model() == combine(op, x.model(), y.model()),
    {
        match (x, y) {
            (Exp::Bool(a), Exp::Bool(b)) => {
                let (a, b) = (Box::new(a), Box::new(b));
                match op {
                    Operator::And => Exp::Bool(BoolExp::And(a, b)),
                    Operator::Or => Exp::Bool(BoolExp::Or(a, b)),
                    Operator::Equal => Exp::Bool(BoolExp::BoolEq(a, b)),
                    _ => Exp::Bool(BoolExp::BoolNe(a, b)),
                }
            },
            (Exp::Int(a), Exp::Int(b)) => {
                let (a, b) = (Box::new(a), Box::new(b));
                match op {
                    Operator::Plus => Exp::Int(IntExp::Add(a, b)),
                    Operator::Minus => Exp::Int(IntExp::Sub(a, b)),
                    Operator::Multiply => Exp::Int(IntExp::Mul(a, b)),
                    Operator::Divide => Exp::Int(IntExp::Div(a, b)),
                    Operator::Remainder => Exp::Int(IntExp::Rem(a, b)),
                    Operator::Equal => Exp::Bool(BoolExp::IntEq(a, b)),
                    Operator::NotEqual => Exp::Bool(BoolExp::IntNe(a, b)),
                    Operator::Less => Exp::Bool(BoolExp::IntLt(a, b)),
                    Operator::Greater => Exp::Bool(BoolExp::IntGt(a, b)),
                    Operator::LessEqual => Exp::Bool(BoolExp::IntLe(a, b)),
                    _ => Exp::Bool(BoolExp::IntGe(a, b)),
                }
            },
            (Exp::Str(a), Exp::Str(b)) => {
                let (a, b) = (Box::new(a), Box::new(b));
                match op {
                    Operator::Equal => Exp::Bool(BoolExp::StrEq(a, b)),
                    Operator::NotEqual => Exp::Bool(BoolExp::StrNe(a, b)),
                    Operator::Less => Exp::Bool(BoolExp::StrLt(a, b)),
                    Operator::Greater => Exp::Bool(BoolExp::StrGt(a, b)),
                    Operator::LessEqual => Exp::Bool(BoolExp::StrLe(a, b)),
                    _ => Exp::Bool(BoolExp::StrGe(a, b)),
                }
            },
            (x, y) => Exp::Binary(op, Box::new(x), Box::new(y)),
        }
    }
}

/// Expression `e` refers to a table column directly: an [ExpM::Col], in
/// itself or in an operand, argument or part of a conditional (typed
/// expressions are not looked into).
pub open spec fn has_col(e: ExpM) -> bool
    decreases e,
{
    match e {
        ExpM::Col(_) => true,
        ExpM::Binary(_, x, y) => has_col(*x) || has_col(*y),
        ExpM::FnCall(_, args) => exists|i: int| 0 <= i < args.len() && has_col(#[trigger] args[i]),
        ExpM::BuiltinCall(_, args) => exists|i: int|
            0 <= i < args.len() && has_col(#[trigger] args[i]),
        ExpM::If(list, els) => (exists|i: int|
            0 <= i < list.len() && (has_col(#[trigger] list[i].0) || has_col(list[i].1)))
            || has_col(*els),
        _ => false,
    }
}

/// The expression for local variable or column `x` of data type `dt`: a
/// typed one for bool, int and string.
pub open spec fn typed_ref(x: usize, dt: DataType, col: bool) -> ExpM {
    match dt {
        DataType::Bool => ExpM::Bool(if col { BoolExp::Col(x) } else { BoolExp::Local(x) }),
        DataType::Int => ExpM::Int(if col { IntExp::Col(x) } else { IntExp::Local(x) }),
        DataType::String(_) => ExpM::Str(if col { StrExp::Col(x) } else { StrExp::Local(x) }),
        _ => if col { ExpM::Col(x) } else { ExpM::Local(x) },
    }
}

impl Exp {
    /// Checks whether an expression has any column references.
    pub fn has_col(&self) -> (r: bool)
        ensures
            r == has_col(self.model()),
        decreases self,
    {
        match self {
            Exp::Col(_) => true,
            Exp::Binary(_, lhs, rhs) => lhs.has_col() || rhs.has_col(),
            Exp::FnCall(_, args) => {
                let r = Exp::any_has_col(args);
                proof {
                    let m = self.model()->FnCall_1;
                    assert forall|i: int| 0 <= i < args@.len() implies #[trigger] m[i]
                        == args@[i].model() by {}
                    if r {
                        let i = choose|i: int| 0 <= i < args@.len() && has_col(#[trigger] args@[i].model());
                        assert(has_col(m[i]));
                    }
                }
                r
            },
            Exp::BuiltinCall(_, args) => {
                let r = Exp::any_has_col(args);
                proof {
                    let m = self.model()->BuiltinCall_1;
                    assert forall|i: int| 0 <= i < args@.len() implies #[trigger] m[i]
                        == args@[i].model() by {}
                    if r {
                        let i = choose|i: int| 0 <= i < args@.len() && has_col(#[trigger] args@[i].model());
                        assert(has_col(m[i]));
                    }
                }
                r
            },
            Exp::If(list, els) => {
                let p = Exp::any_pair_has_col(list);
                let r = p || els.has_col();
                proof {
                    let m = self.model()->If_0;
                    assert forall|i: int| 0 <= i < list@.len() implies #[trigger] m[i] == (
                    list@[i].0.model(), list@[i].1.model()) by {}
                    if p {
                        let i = choose|i: int|
                            0 <= i < list@.len() && (has_col(#[trigger] list@[i].0.model())
                                || has_col(list@[i].1.model()));
                        assert(has_col(m[i].0) || has_col(m[i].1));
                    }
                }
                r
            },
            _ => false,
        }
    }

    /// Whether any expression of `args` has a column reference.
    fn any_has_col(args: &Vec<Exp>) -> (r: bool)
        ensures
            r == exists|i: int| 0 <= i < args@.len() && has_col(#[trigger] args@[i].model()),
        decreases args,
    {
        let mut i: usize = 0;
        while i < args.len()
            invariant
                i <= args@.len(),
                forall|j: int| 0 <= j < i ==> !has_col(#[trigger] args@[j].model()),
            decreases args@.len() - i,
        {
            proof {
                assert(decreases_to!(args => args@));
                assert(decreases_to!(args@ => args@[i as int]));
            }
            if args[i].has_col() {
                return true;
            }
            i += 1;
        }
        false
    }

    /// Whether any pair of expressions of `list` has a column reference.
    fn any_pair_has_col(list: &Vec<(Exp, Exp)>) -> (r: bool)
        ensures
            r == exists|i: int|
                0 <= i < list@.len() && (has_col(#[trigger] list@[i].0.model()) || has_col(
                    list@[i].1.model(),
                )),
        decreases list,
    {
        let mut i: usize = 0;
        while i < list.len()
            invariant
                i <= list@.len(),
                forall|j: int|
                    0 <= j < i ==> !has_col(#[trigger] list@[j].0.model()) && !has_col(
                        list@[j].1.model(),
                    ),
            decreases list@.len() - i,
        {
            proof {
                assert(decreases_to!(list => list@));
                assert(decreases_to!(list@ => list@[i as int]));
                assert(decreases_to!(list@[i as int] => list@[i as int].0));
                assert(decreases_to!(list@[i as int] => list@[i as int].1));
            }
            let (c, e) = &list[i];
            if c.has_col() || e.has_col() {
                return true;
            }
            i += 1;
        }
        false
    }

    /// New local variable, variant chosen based on datatype.
    pub fn local(x: usize, dt: &DataType) -> (r: Exp)
        ensures
            r.model() == typed_ref(x, *dt, false),
    {
        match dt {
            DataType::Bool => Exp::Bool(BoolExp::Local(x)),
            DataType::Int => Exp::Int(IntExp::Local(x)),
            DataType::String(_) => Exp::Str(StrExp::Local(x)),
            _ => Exp::Local(x),
        }
    }

    /// New column, variant chosen based on datatype.
    pub fn col(x: usize, dt: &DataType) -> (r: Exp)
        ensures
            r.model() == typed_ref(x, *dt, true),
    {
        match dt {
            DataType::Bool => Exp::Bool(BoolExp::Col(x)),
            DataType::Int => Exp::Int(IntExp::Col(x)),
            DataType::String(_) => Exp::Str(StrExp::Col(x)),
            _ => Exp::Col(x),
        }
    }
}

/// The operand `x` of a where condition of the form `Id = x` (column 0
/// equal to an expression that refers to no column), if it has that form.
pub open spec fn id_eq(wher: ExpM) -> Option<ExpM> {
    match wher {
        ExpM::Binary(op, l, r) => if op == Operator::Equal && *l == ExpM::Col(0) && !has_col(*r) {
            Some(*r)
        } else {
            None
        },
        _ => None,
    }
}

/// Encode a where condition. Where it has the form `Id = x` (see [id_eq]),
/// the encoded `x` is returned and taken out of the condition (an
/// [Exp::Nil] is left in its place), so that the row can be looked up by
/// id; otherwise the condition is encoded and `None` returned.
pub fn encode_wher(wher: &mut Exp) -> (r: Option<Exp>)
    requires
        encodable(old(wher).model()),
    ensures
        id_eq(old(wher).model()) matches Some(x) ==> r is Some && r->0.model() == encoding(x)
            && final(wher).model() == ExpM::Binary(
            Operator::Equal,
            Box::new(ExpM::Col(0)),
            Box::new(ExpM::Nil),
        ),
        id_eq(old(wher).model()) is None ==> r is None && final(wher).model() == encoding(
            old(wher).model(),
        ),
        r is Some <==> (old(wher).model() matches ExpM::Binary(op, l, x) && op == Operator::Equal
            && *l == ExpM::Col(0) && !has_col(*x)),
        r matches Some(v) ==> (old(wher).model() matches ExpM::Binary(_, _, x) && v.model()
            == encoding(*x)),
{
    let mut e = Exp::Nil;
    std::mem::swap(&mut e, wher);
    let ghost e0 = e;
    match e {
        Exp::Binary(op, lhs, rhs) => {
            let is_id = match &*lhs {
                Exp::Col(c) => *c == 0,
                _ => false,
            };
            proof {
                assert(e0.model() == ExpM::Binary(op, Box::new((*lhs).model()), Box::new((*rhs).model())));
                assert(is_id <==> (*lhs).model() == ExpM::Col(0));
            }
            if op == Operator::Equal && is_id && !rhs.has_col() {
                let x = Exp::encoded(*rhs);
                *wher = Exp::Binary(op, lhs, Box::new(Exp::Nil));
                proof {
                    assert(id_eq(e0.model()) == Some((*rhs).model()));
                    assert((*lhs).model() == ExpM::Col(0));
                    assert(Exp::Nil.model() == ExpM::Nil);
                    assert(*wher == Exp::Binary(op, lhs, Box::new(Exp::Nil)));
                    assert(wher.model() == ExpM::Binary(
                        Operator::Equal,
                        Box::new(ExpM::Col(0)),
                        Box::new(ExpM::Nil),
                    ));
                }
                Some(x)
            } else {
                *wher = Exp::encoded(Exp::Binary(op, lhs, rhs));
                None
            }
        },
        other => {
            *wher = Exp::encoded(other);
            None
        },
    }
}

/// Encode each expression of a list.
pub fn encode_exp_list(list: &mut Vec<Exp>)
    requires
        forall|i: int| 0 <= i < old(list)@.len() ==> encodable(#[trigger] old(list)@[i].model()),
    ensures
        final(list)@.len() == old(list)@.len(),
        forall|i: int|
            0 <= i < old(list)@.len() ==> #[trigger] final(list)@[i].model() == encoding(
                old(list)@[i].model(),
            ),
{
    let mut v: Vec<Exp> = Vec::new();
    std::mem::swap(&mut v, list);
    *list = Exp::encoded_list(v);
}

/// The text of source positions `p` in `src`, where `p` lies in `src` and
/// the bytes there are UTF-8.
pub open spec fn pos_text(p: SrcPos, src: Seq<u8>) -> Option<Seq<char>> {
    if p.start <= p.end <= src.len() {
        utf8_text(src.subrange(p.start as int, p.end as int))
    } else {
        None
    }
}

/// String expression `s` can be taken over from source `src`: a constant,
/// a local or a column, or a source position with text.
pub open spec fn str_convertible(s: StrExp, src: Seq<u8>) -> bool {
    match s {
        StrExp::Str(_) | StrExp::Local(_) | StrExp::Col(_) => true,
        StrExp::StrPos(p) => pos_text(p, src) is Some,
        _ => false,
    }
}

/// `r` is string expression `s` taken over from source `src`: a source
/// position becomes the string of its text.
pub open spec fn str_converted(r: StrExp, s: StrExp, src: Seq<u8>) -> bool {
    match s {
        StrExp::Str(x) => r matches StrExp::Str(y) && y@ == x@,
        StrExp::StrPos(p) => r matches StrExp::Str(y) && pos_text(p, src) == Some(y@),
        _ => r == s,
    }
}

/// Expression `e`, from source `src`, can be taken over by [Exp::from]:
/// its typed parts are constants, locals or columns (see
/// [str_convertible]), and it has no unresolved or empty part.
pub open spec fn convertible(e: ExpM, src: Seq<u8>) -> bool
    decreases e,
{
    match e {
        ExpM::Bool(b) => b is Bool || b is Local || b is Col,
        ExpM::Int(i) => i is Int || i is Local || i is Col,
        ExpM::Str(s) => str_convertible(s, src),
        ExpM::Local(_) | ExpM::Col(_) => true,
        ExpM::Binary(_, x, y) => convertible(*x, src) && convertible(*y, src),
        ExpM::FnCall(_, args) => forall|i: int|
            0 <= i < args.len() ==> convertible(#[trigger] args[i], src),
        ExpM::BuiltinCall(_, args) => forall|i: int|
            0 <= i < args.len() ==> convertible(#[trigger] args[i], src),
        ExpM::If(list, els) => (forall|i: int|
            0 <= i < list.len() ==> convertible(#[trigger] list[i].0, src) && convertible(
                list[i].1,
                src,
            )) && convertible(*els, src),
        _ => false,
    }
}

/// `r` is expression `e` taken over from source `src`: the same
/// expression, with each string at a source position replaced by its text
/// (see [str_converted]).
pub open spec fn converted(r: ExpM, e: ExpM, src: Seq<u8>) -> bool
    decreases e,
{
    match e {
        ExpM::Str(s) => r matches ExpM::Str(t) && str_converted(t, s, src),
        ExpM::Binary(op, x, y) => r matches ExpM::Binary(op2, rx, ry) && op2 == op && converted(
            *rx,
            *x,
            src,
        ) && converted(*ry, *y, src),
        ExpM::FnCall(f, args) => r matches ExpM::FnCall(g, rargs) && g == f && rargs.len()
            == args.len() && forall|i: int|
            0 <= i < args.len() ==> converted(#[trigger] rargs[i], args[i], src),
        ExpM::BuiltinCall(b, args) => r matches ExpM::BuiltinCall(c, rargs) && c == b
            && rargs.len() == args.len() && forall|i: int|
            0 <= i < args.len() ==> converted(#[trigger] rargs[i], args[i], src),
        ExpM::If(list, els) => r matches ExpM::If(rl, re) && rl.len() == list.len() && (forall|
            i: int,
        |
            0 <= i < list.len() ==> converted(#[trigger] rl[i].0, list[i].0, src) && converted(
                rl[i].1,
                list[i].1,
                src,
            )) && converted(*re, *els, src),
        _ => r == e,
    }
}

impl BoolExp {
    /// Take over a bool constant, local or column.
    pub fn from(exp: &BoolExp, _src: &[u8]) -> (r: BoolExp)
        requires
            *exp is Bool || *exp is Local || *exp is Col,
        ensures
            r == *exp,
    {
        match exp {
            BoolExp::Bool(x) => BoolExp::Bool(*x),
            BoolExp::Local(x) => BoolExp::Local(*x),
            BoolExp::Col(x) => BoolExp::Col(*x),
            _ => BoolExp::Nil,
        }
    }
}

impl IntExp {
    /// Take over an int constant, local or column.
    pub fn from(exp: &IntExp, _src: &[u8]) -> (r: IntExp)
        requires
            *exp is Int || *exp is Local || *exp is Col,
        ensures
            r == *exp,
    {
        match exp {
            IntExp::Int(x) => IntExp::Int(*x),
            IntExp::Local(x) => IntExp::Local(*x),
            IntExp::Col(x) => IntExp::Col(*x),
            _ => IntExp::Nil,
        }
    }
}

impl StrExp {
    /// Take over a string expression: a source position becomes the string
    /// of its text in `src`.
    pub fn from(exp: &StrExp, src: &[u8]) -> (r: StrExp)
        requires
            str_convertible(*exp, src@),
        ensures
            str_converted(r, *exp, src@),
    {
        match exp {
            StrExp::Str(x) => StrExp::Str(x.clone()),
            StrExp::Local(x) => StrExp::Local(*x),
            StrExp::Col(x) => StrExp::Col(*x),
            StrExp::StrPos(p) => {
                let t = tos(vstd::slice::slice_subrange(src, p.start, p.end));
                StrExp::Str(t.to_string())
            },
            _ => StrExp::Nil,
        }
    }
}

impl Exp {
    /// Take over an expression parsed from source `src`: strings at
    /// source positions become strings of their text.
    #[verifier::spinoff_prover]
    pub fn from(exp: &Exp, src: &[u8]) -> (r: Exp)
        requires
            convertible(exp.model(), src@),
        ensures
            converted(r.model(), exp.model(), src@),
        decreases exp,
    {
        match exp {
            Exp::Bool(x) => Exp::Bool(BoolExp::from(x, src)),
            Exp::Int(x) => Exp::Int(IntExp::from(x, src)),
            Exp::Str(x) => Exp::Str(StrExp::from(x, src)),
            Exp::Local(x) => Exp::Local(*x),
            Exp::Col(x) => Exp::Col(*x),
            Exp::Binary(op, lhs, rhs) => {
                let lhs = Box::new(Exp::from(lhs, src));
                let rhs = Box::new(Exp::from(rhs, src));
                Exp::Binary(*op, lhs, rhs)
            },
            Exp::FnCall(fid, args) => {
                let ghost m = exp.model()->FnCall_1;
                proof {
                    assert forall|i: int| 0 <= i < args@.len() implies convertible(
                        #[trigger] args@[i].model(),
                        src@,
                    ) by {
                        assert(m[i] == args@[i].model());
                    }
                }
                let a = gvals(args, src);
                let r = Exp::FnCall(*fid, a);
                proof {
                    assert forall|i: int| 0 <= i < args@.len() implies converted(
                        #[trigger] r.model()->FnCall_1[i],
                        m[i],
                        src@,
                    ) by {
                        assert(m[i] == args@[i].model());
                        assert(r.model()->FnCall_1[i] == a@[i].model());
                    }
                }
                r
            },
            Exp::BuiltinCall(bi, args) => {
                let ghost m = exp.model()->BuiltinCall_1;
                proof {
                    assert forall|i: int| 0 <= i < args@.len() implies convertible(
                        #[trigger] args@[i].model(),
                        src@,
                    ) by {
                        assert(m[i] == args@[i].model());
                    }
                }
                let a = gvals(args, src);
                let r = Exp::BuiltinCall(*bi, a);
                proof {
                    assert forall|i: int| 0 <= i < args@.len() implies converted(
                        #[trigger] r.model()->BuiltinCall_1[i],
                        m[i],
                        src@,
                    ) by {
                        assert(m[i] == args@[i].model());
                        assert(r.model()->BuiltinCall_1[i] == a@[i].model());
                    }
                }
                r
            },
            Exp::If(list, els) => {
                let ghost m = exp.model()->If_0;
                let mut x: Vec<(Exp, Exp)> = Vec::new();
                let mut i: usize = 0;
                while i < list.len()
                    invariant
                        *exp == Exp::If(*list, *els),
                        m == exp.model()->If_0,
                        convertible(exp.model(), src@),
                        i <= list@.len(),
                        x@.len() == i,
                        forall|j: int|
                            0 <= j < i ==> converted(#[trigger] x@[j].0.model(), m[j].0, src@)
                                && converted(x@[j].1.model(), m[j].1, src@),
                    decreases list@.len() - i,
                {
                    proof {
                        assert(m[i as int] == (list@[i as int].0.model(), list@[i as int].1.model()));
                        assert(convertible(m[i as int].0, src@));
                        assert(decreases_to!(*exp => *list));
                        assert(decreases_to!(*list => list@));
                        assert(decreases_to!(list@ => list@[i as int]));
                    }
                    let ce = Exp::from(&list[i].0, src);
                    let e = Exp::from(&list[i].1, src);
                    x.push((ce, e));
                    i += 1;
                }
                let e2 = Box::new(Exp::from(els, src));
                let r = Exp::If(x, e2);
                proof {
                    assert forall|j: int| 0 <= j < list@.len() implies converted(
                        #[trigger] r.model()->If_0[j].0,
                        m[j].0,
                        src@,
                    ) && converted(r.model()->If_0[j].1, m[j].1, src@) by {
                        assert(r.model()->If_0[j] == (x@[j].0.model(), x@[j].1.model()));
                    }
                }
                r
            },
            _ => Exp::Nil,
        }
    }
}

/// Take over each expression of `list` (see [Exp::from]).
pub fn gvals(list: &Vec<Exp>, src: &[u8]) -> (r: Vec<Exp>)
    requires
        forall|i: int| 0 <= i < list@.len() ==> convertible(#[trigger] list@[i].model(), src@),
    ensures
        r@.len() == list@.len(),
        forall|i: int|
            0 <= i < list@.len() ==> converted(#[trigger] r@[i].model(), list@[i].model(), src@),
    decreases list,
{
    let mut result: Vec<Exp> = Vec::new();
    let mut i: usize = 0;
    while i < list.len()
        invariant
            i <= list@.len(),
            result@.len() == i,
            forall|j: int| 0 <= j < list@.len() ==> convertible(#[trigger] list@[j].model(), src@),
            forall|j: int|
                0 <= j < i ==> converted(#[trigger] result@[j].model(), list@[j].model(), src@),
        decreases list@.len() - i,
    {
        proof {
            assert(decreases_to!(list => list@));
            assert(decreases_to!(list@ => list@[i as int]));
        }
        result.push(Exp::from(&list[i], src));
        i += 1;
    }
    result
}

} // verus!
