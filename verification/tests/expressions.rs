use tablestg::builtin::Builtin;
use tablestg::datatype::DataType;
use tablestg::exp::{encode_exp_list, encode_wher, gvals, BoolExp, Exp, IntExp, SrcPos, StrExp};
use tablestg::operator::Operator;

fn num(x: i64) -> Exp {
    Exp::Int(IntExp::Int(x))
}

fn bin(op: Operator, x: Exp, y: Exp) -> Exp {
    Exp::Binary(op, Box::new(x), Box::new(y))
}

#[test]
fn encode_turns_int_sum_into_typed_add() {
    let mut e = bin(Operator::Plus, num(1), num(2));
    e.encode();
    match e {
        Exp::Int(IntExp::Add(a, b)) => {
            assert!(matches!(*a, IntExp::Int(1)));
            assert!(matches!(*b, IntExp::Int(2)));
        }
        other => panic!("unexpected {:?}", other),
    }
}

#[test]
fn encode_turns_int_comparison_into_bool() {
    let mut e = bin(Operator::Less, num(1), Exp::Int(IntExp::Local(4)));
    e.encode();
    match e {
        Exp::Bool(BoolExp::IntLt(a, b)) => {
            assert!(matches!(*a, IntExp::Int(1)));
            assert!(matches!(*b, IntExp::Local(4)));
        }
        other => panic!("unexpected {:?}", other),
    }
}

#[test]
fn encode_turns_string_equality_into_bool() {
    let mut e = bin(
        Operator::NotEqual,
        Exp::Str(StrExp::Str("a".to_string())),
        Exp::Str(StrExp::Col(2)),
    );
    e.encode();
    match e {
        Exp::Bool(BoolExp::StrNe(a, b)) => {
            assert!(matches!(*a, StrExp::Str(ref s) if s == "a"));
            assert!(matches!(*b, StrExp::Col(2)));
        }
        other => panic!("unexpected {:?}", other),
    }
}

#[test]
fn encode_works_inside_out() {
    // (1 = 1) and true
    let mut e = bin(
        Operator::And,
        bin(Operator::Equal, num(1), num(1)),
        Exp::Bool(BoolExp::Bool(true)),
    );
    e.encode();
    match e {
        Exp::Bool(BoolExp::And(a, b)) => {
            assert!(matches!(*a, BoolExp::IntEq(_, _)));
            assert!(matches!(*b, BoolExp::Bool(true)));
        }
        other => panic!("unexpected {:?}", other),
    }
}

#[test]
fn encode_leaves_concatenation_whole() {
    let mut e = bin(
        Operator::Concat,
        Exp::Str(StrExp::Str("a".to_string())),
        bin(Operator::Plus, num(1), num(2)),
    );
    e.encode();
    match e {
        Exp::Binary(Operator::Concat, a, b) => {
            assert!(matches!(*a, Exp::Str(StrExp::Str(_))));
            // Operands of a concatenation are not encoded.
            assert!(matches!(*b, Exp::Binary(Operator::Plus, _, _)));
        }
        other => panic!("unexpected {:?}", other),
    }
}

#[test]
fn encode_keeps_operands_of_unknown_type() {
    let mut e = bin(Operator::Plus, num(1), Exp::Local(0));
    e.encode();
    match e {
        Exp::Binary(Operator::Plus, a, b) => {
            assert!(matches!(*a, Exp::Int(IntExp::Int(1))));
            assert!(matches!(*b, Exp::Local(0)));
        }
        other => panic!("unexpected {:?}", other),
    }
}

#[test]
fn encode_reaches_call_arguments_and_conditionals() {
    let mut e = Exp::If(
        vec![(
            bin(Operator::Greater, num(3), num(2)),
            Exp::FnCall(7, vec![bin(Operator::Minus, num(5), num(1))]),
        )],
        Box::new(Exp::BuiltinCall(Builtin::len, vec![bin(Operator::Multiply, num(2), num(3))])),
    );
    e.encode();
    match e {
        Exp::If(list, els) => {
            assert_eq!(list.len(), 1);
            assert!(matches!(list[0].0, Exp::Bool(BoolExp::IntGt(_, _))));
            match &list[0].1 {
                Exp::FnCall(7, args) => {
                    assert_eq!(args.len(), 1);
                    assert!(matches!(args[0], Exp::Int(IntExp::Sub(_, _))));
                }
                other => panic!("unexpected {:?}", other),
            }
            match *els {
                Exp::BuiltinCall(_, args) => {
                    assert!(matches!(args[0], Exp::Int(IntExp::Mul(_, _))));
                }
                other => panic!("unexpected {:?}", other),
            }
        }
        other => panic!("unexpected {:?}", other),
    }
}

#[test]
fn encoding_twice_is_encoding_once() {
    let mut e = bin(Operator::Or, bin(Operator::Equal, num(1), Exp::Local(1)), Exp::Bool(BoolExp::Col(0)));
    e.encode();
    let once = format!("{:?}", e);
    e.encode();
    assert_eq!(format!("{:?}", e), once);
}

#[test]
fn has_col_finds_column_references() {
    assert!(Exp::Col(1).has_col());
    assert!(!Exp::Local(1).has_col());
    assert!(bin(Operator::Plus, num(1), Exp::Col(0)).has_col());
    assert!(Exp::FnCall(1, vec![Exp::Local(0), Exp::Col(3)]).has_col());
    assert!(!Exp::FnCall(1, vec![Exp::Local(0)]).has_col());
    assert!(Exp::If(vec![(Exp::Local(0), Exp::Col(1))], Box::new(Exp::Nil)).has_col());
    assert!(Exp::If(vec![], Box::new(Exp::Col(2))).has_col());
    // Typed expressions are not looked into.
    assert!(!Exp::Int(IntExp::Col(0)).has_col());
    assert!(!Exp::Name(SrcPos { start: 0, end: 1 }).has_col());
}

#[test]
fn local_and_col_are_typed_by_data_type() {
    assert!(matches!(Exp::local(2, &DataType::Int), Exp::Int(IntExp::Local(2))));
    assert!(matches!(Exp::local(2, &DataType::Bool), Exp::Bool(BoolExp::Local(2))));
    assert!(matches!(Exp::local(2, &DataType::String(16)), Exp::Str(StrExp::Local(2))));
    assert!(matches!(Exp::local(2, &DataType::Float), Exp::Local(2)));
    assert!(matches!(Exp::col(5, &DataType::Int), Exp::Int(IntExp::Col(5))));
    assert!(matches!(Exp::col(5, &DataType::Binary(8)), Exp::Col(5)));
}

#[test]
fn where_id_equals_is_taken_out() {
    // Id = 2 + 3
    let mut w = bin(Operator::Equal, Exp::Col(0), bin(Operator::Plus, num(2), num(3)));
    let x = encode_wher(&mut w);
    assert!(matches!(x, Some(Exp::Int(IntExp::Add(_, _)))));
    match w {
        Exp::Binary(Operator::Equal, a, b) => {
            assert!(matches!(*a, Exp::Col(0)));
            assert!(matches!(*b, Exp::Nil));
        }
        other => panic!("unexpected {:?}", other),
    }
}

#[test]
fn where_on_other_columns_is_encoded_in_place() {
    // Id = Col(1): the right side refers to a column.
    let mut w = bin(Operator::Equal, Exp::Col(0), Exp::Col(1));
    assert!(encode_wher(&mut w).is_none());
    assert!(matches!(w, Exp::Binary(Operator::Equal, _, _)));
    // A typed condition is encoded.
    let mut w = bin(Operator::Greater, Exp::Int(IntExp::Col(1)), num(0));
    assert!(encode_wher(&mut w).is_none());
    assert!(matches!(w, Exp::Bool(BoolExp::IntGt(_, _))));
}

#[test]
fn expression_lists_are_encoded_one_by_one() {
    let mut list = vec![bin(Operator::Minus, num(3), num(1)), Exp::Local(0)];
    encode_exp_list(&mut list);
    assert_eq!(list.len(), 2);
    assert!(matches!(list[0], Exp::Int(IntExp::Sub(_, _))));
    assert!(matches!(list[1], Exp::Local(0)));
}

#[test]
fn from_takes_string_positions_as_text() {
    let src = b"x = 'hello' | y";
    let e = bin(
        Operator::Concat,
        Exp::Str(StrExp::StrPos(SrcPos { start: 5, end: 10 })),
        Exp::Str(StrExp::Local(1)),
    );
    match Exp::from(&e, src) {
        Exp::Binary(Operator::Concat, a, b) => {
            assert!(matches!(*a, Exp::Str(StrExp::Str(ref t)) if t == "hello"));
            assert!(matches!(*b, Exp::Str(StrExp::Local(1))));
        }
        other => panic!("unexpected {:?}", other),
    }
}

#[test]
fn from_keeps_the_shape_of_calls_and_conditionals() {
    let src = b"abc";
    let e = Exp::If(
        vec![(Exp::Bool(BoolExp::Col(0)), Exp::FnCall(4, vec![num(7), Exp::Local(2)]))],
        Box::new(Exp::Str(StrExp::StrPos(SrcPos { start: 1, end: 3 }))),
    );
    match Exp::from(&e, src) {
        Exp::If(list, els) => {
            assert_eq!(list.len(), 1);
            assert!(matches!(list[0].0, Exp::Bool(BoolExp::Col(0))));
            assert!(matches!(&list[0].1, Exp::FnCall(4, args) if args.len() == 2));
            assert!(matches!(*els, Exp::Str(StrExp::Str(ref t)) if t == "bc"));
        }
        other => panic!("unexpected {:?}", other),
    }
    let v = gvals(&vec![num(1), Exp::Col(3)], src);
    assert_eq!(v.len(), 2);
    assert!(matches!(v[0], Exp::Int(IntExp::Int(1))));
    assert!(matches!(v[1], Exp::Col(3)));
}
