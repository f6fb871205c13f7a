use tablestg::builtin::{contains_bytes, parse_int, replace_bytes, str_literal, substr_bytes, Builtin};
use tablestg::datatype::DataType;
use tablestg::operator::{int_div, int_rem, val_to_str, Operator};
use tablestg::pagetree::{levels, ParentPage};
use tablestg::store::{Extra, Main, Store};
use tablestg::table::{Table, TableInner};
use tablestg::token::{tos, try_tos, Token, TokenReader};
use tablestg::transaction::{set_pair, DummyTransaction, GenTransaction, Part};
use tablestg::value::{append, Value, F64};
use tablestg::vbucket::{Pos, Reader, Writer};
use tablestg::vbuckmap::{IdVKey, VBuckMapInfo, VBuckMapIter};
use std::sync::Arc;

fn record(id: u64, tail: &[u8]) -> Vec<u8> {
    let mut r = id.to_le_bytes().to_vec();
    r.extend_from_slice(tail);
    r
}

fn empty_store(next_id: u64) -> Store {
    Store {
        main: Main {
            vbm: VBuckMapInfo { root: 1, buckets: 1 },
            record_count: 0,
            remove_balance: 0,
            changed: false,
        },
        extra: Extra { next_id, vbm: VBuckMapInfo { root: 2, buckets: 1 }, record_count: 0 },
    }
}

#[test]
fn vbucket_insert_then_get() {
    let mut w = Writer::new(vec![0u8; 1000]);
    assert!(!w.entry_full());
    let r1 = record(7, b"seven");
    let r2 = record(8, b"eight!");
    assert_eq!(w.space(r1.len()), 0);
    w.insert(&r1, 7);
    w.insert(&r2, 8);
    let data = w.into_data();
    let rd = Reader::new(&data);
    let (off, len) = rd.get(&IdVKey::new(7), 7).unwrap();
    assert_eq!(&data[off..off + len], &r1[..]);
    let (off, len) = rd.get(&IdVKey::new(8), 8).unwrap();
    assert_eq!(&data[off..off + len], &r2[..]);
    assert!(rd.get(&IdVKey::new(9), 7).is_none());
}

#[test]
fn vbucket_same_slot_newest_first() {
    // Hashes 5 and 108 share slot 5 of 103.
    let mut w = Writer::new(vec![0u8; 1000]);
    let a = record(1, b"a");
    let b = record(2, b"bb");
    w.insert(&a, 5);
    w.insert(&b, 108);
    let data = w.into_data();
    let rd = Reader::new(&data);
    let mut pos = Pos::start();
    let (off, len) = rd.iter_next(&mut pos).unwrap();
    assert_eq!(&data[off..off + len], &b[..]);
    let (off, len) = rd.iter_next(&mut pos).unwrap();
    assert_eq!(&data[off..off + len], &a[..]);
    assert!(rd.iter_next(&mut pos).is_none());
}

#[test]
fn vbucket_remove() {
    let mut w = Writer::new(vec![0u8; 1000]);
    let a = record(1, b"abc");
    w.insert(&a, 1);
    assert_eq!(w.remove(&IdVKey::new(2), 1), 0);
    assert_eq!(w.remove(&IdVKey::new(1), 1), a.len());
    let data = w.into_data();
    assert!(Reader::new(&data).get(&IdVKey::new(1), 1).is_none());
    // The freed entry is reused by the next insert.
    let mut w = Writer::new(data);
    let b = record(3, b"x");
    w.insert(&b, 1);
    let data = w.into_data();
    assert_eq!(data[0], 1);
    let (off, len) = Reader::new(&data).get(&IdVKey::new(3), 1).unwrap();
    assert_eq!(&data[off..off + len], &b[..]);
}

#[test]
fn vbucket_space_needed() {
    let w = Writer::new(vec![0u8; 120]);
    // 107 header bytes, 1 length byte, 10 record bytes, 3 entry bytes.
    assert_eq!(w.space(10), 1);
    assert_eq!(w.space(9), 0);
}

#[test]
fn vbuckmap_iter_look() {
    let mut w = Writer::new(vec![0u8; 1000]);
    w.insert(&record(1, b""), 0);
    w.insert(&record(2, b""), 1);
    let data = w.into_data();
    let mut it = VBuckMapIter::new(data.clone(), VBuckMapInfo { root: 3, buckets: 1 });
    let mut ids = Vec::new();
    while let Some((off, len)) = it.look() {
        assert_eq!(len, 8);
        ids.push(u64::from_le_bytes(data[off..off + 8].try_into().unwrap()));
    }
    assert_eq!(ids, vec![1, 2]);
    let mut empty = VBuckMapIter::new(Vec::new(), VBuckMapInfo::default());
    assert!(empty.look().is_none());
}

#[test]
fn parent_page_assign_fetch() {
    let mut p = ParentPage::new();
    assert_eq!(p.fetch(3), 0);
    p.assign(3, 0x0102_0304_0506_0708);
    p.assign(0, 42);
    assert_eq!(p.fetch(3), 0x0102_0304_0506_0708);
    assert_eq!(p.fetch(0), 42);
    assert_eq!(p.fetch(1), 0);
    let bytes = p.take();
    assert_eq!(bytes.len(), 32);
    assert_eq!(&bytes[24..32], &0x0102_0304_0506_0708u64.to_le_bytes());
    assert_eq!(ParentPage::from(bytes).fetch(0), 42);
}

#[test]
fn page_tree_levels() {
    assert_eq!(levels(0), 0);
    assert_eq!(levels(1), 0);
    assert_eq!(levels(2), 1);
    assert_eq!(levels(494), 1);
    assert_eq!(levels(495), 2);
    assert_eq!(levels(494 * 494), 2);
    assert_eq!(levels(494 * 494 + 1), 3);
    assert_eq!(levels(u64::MAX), 8);
}

#[test]
fn store_small_entry() {
    let s = empty_store(5);
    let (x, done) = s.entry_bytes(Some(8), b"hello");
    assert_eq!(x, b"\x01hello".to_vec());
    assert_eq!(done, 5);
    assert_eq!(s.record_count(), 0);
    assert!(!s.changed());
}

#[test]
fn store_large_entry_parses_back() {
    let s = empty_store(77);
    let data = vec![9u8; 300];
    let (x, done) = s.entry_bytes(Some(8), &data);
    assert_eq!(done, 8);
    assert_eq!(x[0], 2);
    assert_eq!(x.len(), 1 + 8 + 2 + 8);
    assert_eq!(s.extra.parse_x(&x), (77, 300, 8));
    let (x, done) = s.entry_bytes(None, &data);
    assert_eq!(done, 0);
    assert_eq!(s.extra.parse_x(&x), (77, 300, 0));
    let big = vec![1u8; 70000];
    let (x, _) = s.entry_bytes(None, &big);
    assert_eq!(x[0], 4);
    assert_eq!(s.extra.parse_x(&x), (77, 70000, 0));
}

#[test]
fn table_ids() {
    let mut t = Table {
        inner: TableInner { next_id: 1, store: empty_store(1) },
        datatype: Arc::new(DataType::Int),
        changed: false,
    };
    assert_eq!(t.new_id(), 1);
    assert_eq!(t.new_id(), 2);
    t.reserve_id(10);
    assert_eq!(t.new_id(), 11);
    t.reserve_id(5);
    assert_eq!(t.new_id(), 12);
    assert_eq!(t.record_count(), 0);
}

#[test]
fn builtin_names() {
    assert_eq!(Builtin::new(b"substr").ok(), Some(Builtin::substr));
    assert_eq!(Builtin::new(b"col_is_referenced").ok(), Some(Builtin::col_is_referenced));
    assert!(Builtin::new(b"nosuch").is_err());
    assert!(matches!(Builtin::len.result_type(), DataType::Int));
    assert!(matches!(Builtin::contains.result_type(), DataType::Bool));
    assert!(matches!(Builtin::batch.result_type(), DataType::Empty));
    assert!(matches!(Builtin::arg.result_type(), DataType::String(0)));
    let t = Builtin::substr.arg_types();
    assert_eq!(t.len(), 3);
    assert!(matches!(t[1], DataType::Int));
    assert_eq!(Builtin::error.arg_types().len(), 0);
}

fn s(x: &str) -> Value {
    Value::String(x.as_bytes().to_vec())
}

fn text(v: Value) -> String {
    match v {
        Value::String(b) => String::from_utf8(b).unwrap(),
        _ => panic!("not a string"),
    }
}

#[test]
fn builtin_eval_strings() {
    let mut st = vec![s("hello world"), Value::Int(6), Value::Int(100)];
    assert_eq!(text(Builtin::substr.eval(&mut st, &mut DummyTransaction {}, &mut Vec::new()).unwrap()), "world");
    assert!(st.is_empty());
    let mut st = vec![s("hello"), Value::Int(-3), Value::Int(2)];
    assert_eq!(text(Builtin::substr.eval(&mut st, &mut DummyTransaction {}, &mut Vec::new()).unwrap()), "he");
    let mut st = vec![s("a&b&c"), s("&"), s("&amp;")];
    assert_eq!(text(Builtin::replace.eval(&mut st, &mut DummyTransaction {}, &mut Vec::new()).unwrap()), "a&amp;b&amp;c");
    let mut st = vec![s("ab"), s(""), s("x")];
    assert_eq!(text(Builtin::replace.eval(&mut st, &mut DummyTransaction {}, &mut Vec::new()).unwrap()), "xaxbx");
    let mut st = vec![s("x"), s("hello"), s("ll")];
    assert!(matches!(Builtin::contains.eval(&mut st, &mut DummyTransaction {}, &mut Vec::new()), Some(Value::Bool(true))));
    assert_eq!(st.len(), 1);
    let mut st = vec![s("héllo")];
    assert!(matches!(Builtin::len.eval(&mut st, &mut DummyTransaction {}, &mut Vec::new()), Some(Value::Int(6))));
    let mut st = vec![s("it's")];
    assert_eq!(text(Builtin::string_literal.eval(&mut st, &mut DummyTransaction {}, &mut Vec::new()).unwrap()), "\"it's\"");
    let mut st = vec![s("x")];
    assert!(Builtin::execute.eval(&mut st, &mut DummyTransaction {}, &mut Vec::new()).is_none());
    assert_eq!(st.len(), 1);
}

#[test]
fn builtin_parseint() {
    for (t, v) in [
        ("123", 123i64),
        ("-45", -45),
        ("+7", 7),
        ("", 0),
        ("-", 0),
        ("12a", 0),
        (" 1", 0),
        ("9223372036854775807", i64::MAX),
        ("9223372036854775808", 0),
        ("-9223372036854775808", i64::MIN),
        ("99999999999999999999x", 0),
    ] {
        let mut st = vec![s(t)];
        assert!(matches!(Builtin::parseint.eval(&mut st, &mut DummyTransaction {}, &mut Vec::new()), Some(Value::Int(x)) if x == v), "{}", t);
        assert_eq!(parse_int(t.as_bytes()), t.parse::<i64>().unwrap_or_default());
    }
}

#[test]
fn string_functions_match_std() {
    let cases = [("hello", "l", "L"), ("aaaa", "aa", "b"), ("", "", "-"), ("ünï", "", "."), ("abc", "abcd", "z")];
    for (src, pat, with) in cases {
        let r = replace_bytes(src.as_bytes(), pat.as_bytes(), with.as_bytes());
        assert_eq!(String::from_utf8(r).unwrap(), src.replace(pat, with));
        assert_eq!(contains_bytes(src.as_bytes(), pat.as_bytes()), src.contains(pat));
    }
    assert_eq!(substr_bytes(b"abcdef", 2, 3), b"cde".to_vec());
    assert_eq!(substr_bytes(b"abc", 3, 5), Vec::<u8>::new());
    let mut out = Vec::new();
    str_literal(b"say \"it's\"", &mut out);
    assert_eq!(out, b"#s10'say \"it's\"'".to_vec());
    let mut out = Vec::new();
    str_literal(b"plain", &mut out);
    assert_eq!(out, b"'plain'".to_vec());
}

#[test]
fn tos_checks_utf8() {
    assert_eq!(tos(b"abc"), "abc");
    assert_eq!(try_tos("héllo".as_bytes()), Some("héllo"));
    assert_eq!(try_tos(&[0xff, 0xfe]), None);
}

#[test]
fn token_reader_reads_tokens() {
    let input = b" x.y( 42 , 'hi' )";
    let mut tr = TokenReader::new(input);
    let mut got = Vec::new();
    loop {
        let t = tr.next_token().ok().unwrap();
        if t == Token::Eof {
            break;
        }
        got.push(t);
    }
    assert_eq!(
        got,
        vec![
            Token::Ident(1, 1),
            Token::Dot,
            Token::Ident(3, 1),
            Token::LBra,
            Token::Int(42),
            Token::Comma,
            Token::String(12, 2),
            Token::RBra,
        ]
    );
    let mut q = TokenReader::new(b"'hi'");
    assert!(q.next_token().ok().unwrap() == Token::String(1, 2));
    assert_eq!(q.pos, 4);
    let mut bad = TokenReader::new(b"'open");
    assert!(bad.next_token().is_err());
}

#[test]
fn operator_eval_ints_and_concat() {
    assert!(matches!(Operator::Plus.eval(&Value::Int(2), &Value::Int(3)), Value::Int(5)));
    assert!(matches!(Operator::Less.eval(&Value::Int(2), &Value::Int(3)), Value::Bool(true)));
    assert!(matches!(Operator::And.eval(&Value::Bool(true), &Value::Bool(false)), Value::Bool(false)));
    assert_eq!(text(Operator::Concat.eval(&s("n="), &Value::Int(-12))), "n=-12");
    assert_eq!(int_div(-7, 2), -3);
    assert_eq!(int_rem(-7, 2), -1);
    assert_eq!(val_to_str(&Value::Bool(true)), b"true".to_vec());
    assert_eq!(Operator::Plus.precedence(), Operator::Minus.precedence());
    assert!(Operator::Multiply.precedence() > Operator::Plus.precedence());
    assert_eq!(Operator::Concat.symbol(), "|");
}

#[test]
fn datatype_roundtrip() {
    let dt = DataType::Tuple(vec![DataType::Int, DataType::String(100), DataType::Bool, DataType::Float]);
    let v = Value::List(vec![Value::Int(-5), s("abc"), Value::Bool(true), Value::Float(F64(1.5f64.to_bits()))]);
    let bytes = dt.value_to_bytes0(&v);
    match dt.bytes_to_value0(&bytes) {
        Value::List(items) => {
            assert!(matches!(items[0], Value::Int(-5)));
            assert_eq!(text(Value::String(items[1].string().clone())), "abc");
            assert!(matches!(items[2], Value::Bool(true)));
            assert!(matches!(items[3], Value::Float(F64(b)) if b == 1.5f64.to_bits()));
        }
        _ => panic!("not a list"),
    }
    assert_eq!(DataType::decode_usize(&[0x85, 0x01]), (133, 2));
}

#[test]
fn gen_transaction_query_and_response() {
    let mut t = GenTransaction::new(1234);
    assert_eq!(t.qy.sql, b"let x = web.main()".to_vec());
    assert_eq!(t.global(0), 1234);
    assert_eq!(t.rp.status_code, 200);
    assert!(!t.read_only());
    t.qy.path = b"/home".to_vec();
    t.qy.params.push((b"a".to_vec(), b"1".to_vec()));
    t.qy.params.push((b"a".to_vec(), b"2".to_vec()));
    t.qy.cookies.push((b"c".to_vec(), b"yum".to_vec()));
    assert_eq!(t.arg(0, b"ignored"), b"/home".to_vec());
    assert_eq!(t.arg(1, b"a"), b"1".to_vec());
    assert_eq!(t.arg(1, b"b"), Vec::<u8>::new());
    assert_eq!(t.arg(2, b"a"), Vec::<u8>::new());
    assert_eq!(t.arg(3, b"c"), b"yum".to_vec());
    assert_eq!(t.arg(9, b"c"), Vec::<u8>::new());
    t.output(b"hello ");
    t.output(b"world");
    assert_eq!(t.rp.output, b"hello world".to_vec());
    t.status_code(404);
    assert_eq!(t.rp.status_code, 404);
    t.status_code(65536 + 201);
    assert_eq!(t.rp.status_code, 201);
    t.header(b"Content-Type", b"text/plain");
    assert_eq!(t.rp.headers, vec![(b"Content-Type".to_vec(), b"text/plain".to_vec())]);
    t.set_error(b"oops");
    assert_eq!(t.get_error(), b"oops".to_vec());
    assert_eq!(t.get_error(), Vec::<u8>::new());
    t.qy.parts.push(Part {
        name: b"f".to_vec(),
        file_name: b"f.txt".to_vec(),
        content_type: b"text/plain".to_vec(),
        text: b"hi".to_vec(),
        data: vec![1, 2, 3],
    });
    assert_eq!(t.file_attr(0, 0), b"f".to_vec());
    assert_eq!(t.file_attr(0, 1), b"text/plain".to_vec());
    assert_eq!(t.file_attr(0, 2), b"f.txt".to_vec());
    assert_eq!(t.file_attr(0, 3), b"hi".to_vec());
    assert_eq!(t.file_attr(1, 0), Vec::<u8>::new());
    assert_eq!(t.file_attr(-1, 0), Vec::<u8>::new());
    assert_eq!(t.file_content(0), vec![1, 2, 3]);
}

#[test]
fn append_strings_and_binary() {
    let mut x = s("abc");
    append(&mut x, &s("def"));
    assert_eq!(text(x), "abcdef");
    let mut b = Value::Binary(vec![1, 2]);
    append(&mut b, &Value::Binary(vec![3]));
    match b {
        Value::Binary(v) => assert_eq!(v, vec![1, 2, 3]),
        _ => panic!("binary expected"),
    }
}

#[test]
fn builtins_use_the_transaction() {
    let mut tr = GenTransaction::new(0);
    tr.qy.path = b"/home".to_vec();
    let mut batch: Vec<Vec<u8>> = Vec::new();
    let mut st = vec![Value::Int(0), s("")];
    assert_eq!(text(Builtin::arg.eval(&mut st, &mut tr, &mut batch).unwrap()), "/home");
    assert!(st.is_empty());
    let mut st = vec![s("Content-Type"), s("text/plain")];
    assert!(matches!(Builtin::header.eval(&mut st, &mut tr, &mut batch), Some(Value::Empty)));
    assert_eq!(tr.rp.headers.len(), 1);
    tr.set_error(b"oops");
    let mut st: Vec<Value> = Vec::new();
    assert_eq!(text(Builtin::error.eval(&mut st, &mut tr, &mut batch).unwrap()), "oops");
    let mut st = vec![s("select 1")];
    assert!(matches!(Builtin::batch.eval(&mut st, &mut tr, &mut batch), Some(Value::Empty)));
    assert_eq!(batch, vec![b"select 1".to_vec()]);
}

#[test]
fn concat_converts_ints_and_bools() {
    assert_eq!(text(Operator::Concat.eval(&Value::Int(1), &Value::Int(2))), "12");
    assert_eq!(text(Operator::Concat.eval(&Value::Bool(true), &Value::Int(-3))), "true-3");
}

#[test]
fn query_pairs_behave_as_a_map() {
    let mut m: Vec<(Vec<u8>, Vec<u8>)> = Vec::new();
    set_pair(&mut m, b"a", b"1");
    set_pair(&mut m, b"b", b"2");
    set_pair(&mut m, b"a", b"3");
    assert_eq!(m.len(), 2);
    let mut t = GenTransaction::new(0);
    t.qy.params = m;
    assert_eq!(t.arg(1, b"a"), b"3".to_vec());
    assert_eq!(t.arg(1, b"b"), b"2".to_vec());
    assert_eq!(t.arg(1, b"c"), Vec::<u8>::new());
    // An attribute of a file that is not there is empty, whatever is asked.
    assert_eq!(t.file_attr(5, 9), Vec::<u8>::new());
}

#[test]
fn vbucket_rebuild_compacts() {
    let mut w = Writer::new(vec![0u8; 1000]);
    let a = record(1, b"abc");
    let b = record(2, b"defgh");
    let c = record(3, b"i");
    w.insert(&a, 1);
    w.insert(&b, 2);
    w.insert(&c, 3);
    assert_eq!(w.remove(&IdVKey::new(2), 2), b.len());
    let data = w.into_data();
    let r = Reader::new(&data).rebuild(500);
    assert_eq!(r.len(), 500);
    assert_eq!(r[1], 0); // no free entry
    assert_eq!(r[0], 2); // one entry per record
    let dall = r[2] as usize + 256 * r[3] as usize;
    assert_eq!(dall, (1 + a.len()) + (1 + c.len())); // data packed
    let (off, len) = Reader::new(&r).get(&IdVKey::new(3), 3).unwrap();
    assert_eq!(&r[off..off + len], &c[..]);
    assert!(Reader::new(&r).get(&IdVKey::new(2), 2).is_none());
}
