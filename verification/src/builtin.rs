//! Builtin (system) functions of the SQL-like language.
//!
//! Strings are UTF-8 byte sequences; the string functions here work on bytes,
//! which gives the same results as working on characters for valid UTF-8.

use crate::datatype::DataType;
use crate::operator::{int_text, nat_digits, write_digits};
use crate::token::{digits_value, is_digit, lemma_digits_value_mono, E};
use crate::value::Value;
use vstd::prelude::*;

verus! {

/// Builtin functions
#[allow(non_camel_case_types)]
#[derive(Debug, PartialEq, Eq, Structural, Clone, Copy)]
pub enum Builtin {
    len,
    substr,
    replace,
    contains,
    fn_text,
    table_text,
    table_col_names,
    col_is_referenced,
    table_literal,
    string_literal,
    execute,
    batch,
    arg,
    header,
    parseint,
    error,
}

/// The builtin function named `name`, if there is one.
pub open spec fn builtin_named(name: Seq<u8>) -> Option<Builtin> {
    if name == seq![108u8, 101, 110] {
        Some(Builtin::len)
    } else if name == seq![115u8, 117, 98, 115, 116, 114] {
        Some(Builtin::substr)
    } else if name == seq![114u8, 101, 112, 108, 97, 99, 101] {
        Some(Builtin::replace)
    } else if name == seq![99u8, 111, 110, 116, 97, 105, 110, 115] {
        Some(Builtin::contains)
    } else if name == seq![102u8, 110, 95, 116, 101, 120, 116] {
        Some(Builtin::fn_text)
    } else if name == seq![116u8, 97, 98, 108, 101, 95, 116, 101, 120, 116] {
        Some(Builtin::table_text)
    } else if name == seq![116u8, 97, 98, 108, 101, 95, 99, 111, 108, 95, 110, 97, 109, 101, 115] {
        Some(Builtin::table_col_names)
    } else if name == seq![
        99u8,
        111,
        108,
        95,
        105,
        115,
        95,
        114,
        101,
        102,
        101,
        114,
        101,
        110,
        99,
        101,
        100,
    ] {
        Some(Builtin::col_is_referenced)
    } else if name == seq![101u8, 120, 101, 99, 117, 116, 101] {
        Some(Builtin::execute)
    } else if name == seq![98u8, 97, 116, 99, 104] {
        Some(Builtin::batch)
    } else if name == seq![97u8, 114, 103] {
        Some(Builtin::arg)
    } else if name == seq![104u8, 101, 97, 100, 101, 114] {
        Some(Builtin::header)
    } else if name == seq![112u8, 97, 114, 115, 101, 105, 110, 116] {
        Some(Builtin::parseint)
    } else if name == seq![116u8, 97, 98, 108, 101, 95, 108, 105, 116, 101, 114, 97, 108] {
        Some(Builtin::table_literal)
    } else if name == seq![115u8, 116, 114, 105, 110, 103, 95, 108, 105, 116, 101, 114, 97, 108] {
        Some(Builtin::string_literal)
    } else if name == seq![101u8, 114, 114, 111, 114] {
        Some(Builtin::error)
    } else {
        None
    }
}

/// Are the bytes of `a` those of `b`?
fn same_bytes(a: &[u8], b: &[u8]) -> (r: bool)
    ensures
        r == (a@ == b@),
{
    if a.len() != b.len() {
        return false;
    }
    let mut i: usize = 0;
    while i < a.len()
        invariant
            a@.len() == b@.len(),
            i <= a@.len(),
            forall|j: int| 0 <= j < i ==> a@[j] == b@[j],
        decreases a@.len() - i,
    {
        if a[i] != b[i] {
            return false;
        }
        i += 1;
    }
    assert(a@ =~= b@);
    true
}

/// `pat` occurs in `s` at byte `i`.
pub open spec fn occurs_at(s: Seq<u8>, pat: Seq<u8>, i: int) -> bool {
    0 <= i && i + pat.len() <= s.len() && s.subrange(i, i + pat.len()) == pat
}

/// `pat` occurs somewhere in `s` (the empty pattern occurs in every string).
pub open spec fn contains_spec(s: Seq<u8>, pat: Seq<u8>) -> bool {
    exists|i: int| occurs_at(s, pat, i)
}

/// Does `pat` occur in `s` at `i`?
fn occurs(s: &[u8], pat: &[u8], i: usize) -> (r: bool)
    ensures
        r == occurs_at(s@, pat@, i as int),
{
    if i > s.len() || pat.len() > s.len() - i {
        return false;
    }
    let mut j: usize = 0;
    while j < pat.len()
        invariant
            i + pat@.len() <= s@.len(),
            s@.len() <= usize::MAX,
            j <= pat@.len(),
            forall|k: int| 0 <= k < j ==> s@[i + k] == pat@[k],
        decreases pat@.len() - j,
    {
        if s[i + j] != pat[j] {
            assert(s@.subrange(i as int, i + pat@.len())[j as int] != pat@[j as int]);
            return false;
        }
        j += 1;
    }
    assert(s@.subrange(i as int, i + pat@.len()) =~= pat@);
    true
}

/// Text of `s` with each non-overlapping occurrence of `pat`, from byte `i`
/// on and found from the left, replaced by `with` (`pat` not empty).
pub open spec fn replace_from(s: Seq<u8>, pat: Seq<u8>, with: Seq<u8>, i: int) -> Seq<u8>
    decreases s.len() - i,
{
    if i < 0 || i >= s.len() {
        Seq::empty()
    } else if pat.len() > 0 && occurs_at(s, pat, i) {
        with + replace_from(s, pat, with, i + pat.len())
    } else {
        seq![s[i]] + replace_from(s, pat, with, i + 1)
    }
}

/// First byte of a UTF-8 encoded character (not a continuation byte).
pub open spec fn is_char_start(b: u8) -> bool {
    b < 128 || b >= 192
}

/// Text of `s` from byte `i` on with `with` put before each character and at
/// the end (what replacing the empty pattern does).
pub open spec fn interleave_from(s: Seq<u8>, with: Seq<u8>, i: int) -> Seq<u8>
    decreases s.len() - i,
{
    if i < 0 || i >= s.len() {
        with
    } else {
        (if is_char_start(s[i]) {
            with + seq![s[i]]
        } else {
            seq![s[i]]
        }) + interleave_from(s, with, i + 1)
    }
}

/// Replacing from byte `i` changes nothing where `pat` does not occur there
/// or after, or where it is replaced by itself.
proof fn lemma_replace_from_keeps(s: Seq<u8>, pat: Seq<u8>, with: Seq<u8>, i: int)
    requires
        0 <= i <= s.len(),
        pat.len() > 0,
        with == pat || forall|j: int| i <= j ==> !#[trigger] occurs_at(s, pat, j),
    ensures
        replace_from(s, pat, with, i) == s.subrange(i, s.len() as int),
    decreases s.len() - i,
{
    if i < s.len() {
        if occurs_at(s, pat, i) {
            lemma_replace_from_keeps(s, pat, with, i + pat.len());
            assert(s.subrange(i, s.len() as int) =~= s.subrange(i, i + pat.len()) + s.subrange(
                i + pat.len(),
                s.len() as int,
            ));
        } else {
            lemma_replace_from_keeps(s, pat, with, i + 1);
            assert(s.subrange(i, s.len() as int) =~= seq![s[i]] + s.subrange(i + 1, s.len() as int));
        }
    } else {
        assert(s.subrange(i, s.len() as int) =~= Seq::<u8>::empty());
    }
}

/// `replace` changes only occurrences: replacing a pattern that does not
/// occur gives the text back, and so does replacing a pattern by itself.
pub proof fn lemma_replace_keeps(s: Seq<u8>, pat: Seq<u8>, with: Seq<u8>)
    requires
        pat.len() > 0,
    ensures
        !contains_spec(s, pat) ==> replace_spec(s, pat, with) == s,
        replace_spec(s, pat, pat) == s,
{
    lemma_replace_from_keeps(s, pat, pat, 0);
    assert(s.subrange(0, s.len() as int) =~= s);
    if !contains_spec(s, pat) {
        lemma_replace_from_keeps(s, pat, with, 0);
    }
}

/// Text of `s` with every occurrence of `pat` replaced by `with`.
pub open spec fn replace_spec(s: Seq<u8>, pat: Seq<u8>, with: Seq<u8>) -> Seq<u8> {
    if pat.len() == 0 {
        interleave_from(s, with, 0)
    } else {
        replace_from(s, pat, with, 0)
    }
}

/// Replaces every occurrence of `pat` in `s` by `with`.
pub fn replace_bytes(s: &[u8], pat: &[u8], with: &[u8]) -> (r: Vec<u8>)
    ensures
        r@ == replace_spec(s@, pat@, with@),
{
    let mut result: Vec<u8> = Vec::new();
    let mut i: usize = 0;
    if pat.len() == 0 {
        while i < s.len()
            invariant
                i <= s@.len(),
                result@ + interleave_from(s@, with@, i as int) == interleave_from(s@, with@, 0),
            decreases s@.len() - i,
        {
            let ghost before = result@;
            let b = s[i];
            if b < 128 || b >= 192 {
                result.extend_from_slice(with);
            }
            result.push(b);
            proof {
                assert(before + interleave_from(s@, with@, i as int) =~= result@ + interleave_from(
                    s@,
                    with@,
                    i + 1,
                ));
            }
            i += 1;
        }
        result.extend_from_slice(with);
        return result;
    }
    while i < s.len()
        invariant
            i <= s@.len(),
            pat@.len() > 0,
            result@ + replace_from(s@, pat@, with@, i as int) == replace_from(s@, pat@, with@, 0),
        decreases s@.len() - i,
    {
        let ghost before = result@;
        if occurs(s, pat, i) {
            result.extend_from_slice(with);
            proof {
                assert(before + replace_from(s@, pat@, with@, i as int) =~= result@ + replace_from(
                    s@,
                    pat@,
                    with@,
                    i + pat@.len(),
                ));
            }
            i += pat.len();
        } else {
            result.push(s[i]);
            proof {
                assert(before + replace_from(s@, pat@, with@, i as int) =~= result@ + replace_from(
                    s@,
                    pat@,
                    with@,
                    i + 1,
                ));
            }
            i += 1;
        }
    }
    assert(result@ =~= result@ + replace_from(s@, pat@, with@, i as int));
    result
}

/// Does `pat` occur in `s`?
pub fn contains_bytes(s: &[u8], pat: &[u8]) -> (r: bool)
    ensures
        r == contains_spec(s@, pat@),
{
    if pat.len() > s.len() {
        proof {
            assert forall|i: int| !occurs_at(s@, pat@, i) by {}
        }
        return false;
    }
    let last = s.len() - pat.len();
    let mut i: usize = 0;
    while i < last
        invariant
            last == s@.len() - pat@.len(),
            i <= last,
            forall|j: int| 0 <= j < i ==> !occurs_at(s@, pat@, j),
        decreases last - i,
    {
        if occurs(s, pat, i) {
            return true;
        }
        i += 1;
    }
    if occurs(s, pat, last) {
        return true;
    }
    proof {
        assert forall|j: int| !occurs_at(s@, pat@, j) by {
            if 0 <= j && j < i {
            }
        }
    }
    false
}

/// The integer that the text `s` holds: an optional sign, then one or more
/// decimal digits, in the range of `i64`.
pub open spec fn parse_i64(s: Seq<u8>) -> Option<i64> {
    let neg = s.len() > 0 && s[0] == 45;
    let start: int = if s.len() > 0 && (s[0] == 45 || s[0] == 43) {
        1
    } else {
        0
    };
    let v = digits_value(s, start, s.len() as int);
    if start >= s.len() || !(forall|i: int| start <= i < s.len() ==> is_digit(#[trigger] s[i])) {
        None
    } else if neg && v <= 0x8000_0000_0000_0000 {
        Some((-v) as i64)
    } else if !neg && v <= i64::MAX {
        Some(v as i64)
    } else {
        None
    }
}

/// The decimal value of digits depends only on those digits (wherever they
/// stand).
proof fn lemma_digits_value_shift(s: Seq<u8>, t: Seq<u8>, start: int, end: int, k: int)
    requires
        forall|i: int| start <= i < end ==> #[trigger] s[i] == t[i + k],
    ensures
        digits_value(s, start, end) == digits_value(t, start + k, end + k),
    decreases end - start,
{
    if end > start {
        lemma_digits_value_shift(s, t, start, end - 1, k);
    }
}

/// The decimal digits of `n` are digits, and their value is `n`.
proof fn lemma_nat_digits_value(n: nat)
    ensures
        nat_digits(n).len() >= 1,
        forall|i: int| 0 <= i < nat_digits(n).len() ==> #[trigger] is_digit(nat_digits(n)[i]),
        digits_value(nat_digits(n), 0, nat_digits(n).len() as int) == n,
    decreases n,
{
    if n >= 10 {
        lemma_nat_digits_value(n / 10);
        let d = nat_digits(n / 10);
        let s = nat_digits(n);
        assert(s == d.push((48 + n % 10) as u8));
        lemma_digits_value_shift(d, s, 0, d.len() as int, 0);
        assert(s[d.len() as int] == 48 + n % 10);
        assert(digits_value(s, 0, s.len() as int) == digits_value(s, 0, d.len() as int) * 10 + (
        s[d.len() as int] - 48));
        assert(n == (n / 10) * 10 + n % 10) by (nonlinear_arith);
        assert(digits_value(s, 0, d.len() as int) == n / 10);
    } else {
        let s = nat_digits(n);
        assert(digits_value(s, 0, 0) == 0);
        assert(s[0] == 48 + n);
    }
}

/// Reading back the text of an integer gives the integer: `sys.parseint`
/// of the decimal text of `i` (as `|` with an int gives it) is `i`.
pub proof fn lemma_parse_int_text(i: i64)
    ensures
        parse_i64(int_text(i as int)) == Some(i),
{
    if i >= 0 {
        lemma_nat_digits_value(i as nat);
        let d = nat_digits(i as nat);
        assert(d[0] != 45 && d[0] != 43) by {
            assert(is_digit(d[0]));
        }
    } else {
        let n = (-i) as nat;
        lemma_nat_digits_value(n);
        let d = nat_digits(n);
        let s = int_text(i as int);
        assert(s == seq![45u8] + d);
        assert forall|j: int| 0 <= j < d.len() implies #[trigger] d[j] == s[j + 1] by {}
        lemma_digits_value_shift(d, s, 0, d.len() as int, 1);
        assert forall|j: int| 1 <= j < s.len() implies is_digit(#[trigger] s[j]) by {
            assert(s[j] == d[j - 1]);
        }
    }
}

/// The integer the text holds, 0 when it is not an integer in the range of
/// `i64`.
pub fn parse_int(s: &[u8]) -> (r: i64)
    ensures
        r == match parse_i64(s@) {
            Some(v) => v,
            None => 0,
        },
{
    let n = s.len();
    let neg = n > 0 && s[0] == 45;
    let start: usize = if n > 0 && (s[0] == 45 || s[0] == 43) {
        1
    } else {
        0
    };
    if start >= n {
        return 0;
    }
    let limit: u64 = if neg {
        0x8000_0000_0000_0000
    } else {
        0x7FFF_FFFF_FFFF_FFFF
    };
    let mut acc: u64 = 0;
    let mut i: usize = start;
    while i < n
        invariant
            n == s@.len(),
            start <= i <= n,
            start < n,
            neg == (n > 0 && s@[0] == 45),
            start == (if n > 0 && (s@[0] == 45 || s@[0] == 43) { 1usize } else { 0usize }),
            acc as int == digits_value(s@, start as int, i as int),
            acc <= limit,
            limit == (if neg { 0x8000_0000_0000_0000u64 } else { 0x7FFF_FFFF_FFFF_FFFFu64 }),
            forall|k: int| start <= k < i ==> is_digit(#[trigger] s@[k]),
        decreases n - i,
    {
        let c = s[i];
        if c < 48 || c > 57 {
            proof {
                assert(!is_digit(s@[i as int]));
                assert(!(forall|k: int| start <= k < s@.len() ==> is_digit(#[trigger] s@[k])));
            }
            return 0;
        }
        let d = (c - 48) as u64;
        if acc > (limit - d) / 10 {
            proof {
                assert(acc * 10 + d > limit) by (nonlinear_arith)
                    requires
                        acc > (limit - d) / 10,
                        d <= 9,
                        d <= limit,
                ;
                assert(digits_value(s@, start as int, i + 1) == digits_value(s@, start as int, i as int)
                    * 10 + (s@[i as int] - 48));
                // A longer run of digits is worth at least as much.
                if forall|k: int| start <= k < n ==> is_digit(#[trigger] s@[k]) {
                    lemma_digits_value_mono(s@, start as int, i + 1, n as int);
                }
            }
            return 0;
        }
        acc = acc * 10 + d;
        i += 1;
    }
    if neg {
        if acc == 0x8000_0000_0000_0000 {
            i64::MIN
        } else {
            -(acc as i64)
        }
    } else {
        acc as i64
    }
}

/// The byte length of `s` as an `i64` (lengths of memory objects fit).
fn len_i64(s: &Vec<u8>) -> (r: i64)
    requires
        s@.len() <= i64::MAX,
    ensures
        r == s@.len(),
{
    s.len() as i64
}

/// Start and end bytes of `sys.substr(s, start, n)` on a string `len` bytes
/// long: negative arguments count as 0 and the end is clamped to the length.
pub open spec fn substr_range(len: int, start: i64, n: i64) -> (int, int) {
    let st: int = if start < 0 {
        0
    } else {
        start as int
    };
    let nn: int = if n < 0 {
        0
    } else {
        n as int
    };
    let end = if st + nn > len {
        len
    } else {
        st + nn
    };
    (st, end)
}

/// Byte `i` of `s` is the start of a character, or the end of `s`.
pub open spec fn char_boundary(s: Seq<u8>, i: int) -> bool {
    i == s.len() || (0 <= i < s.len() && is_char_start(s[i]))
}

/// `sys.substr` is defined for `s`: the range starts within the string and
/// both ends lie on character boundaries.
pub open spec fn substr_ok(s: Seq<u8>, start: i64, n: i64) -> bool {
    let (st, end) = substr_range(s.len() as int, start, n);
    &&& st <= end
    &&& char_boundary(s, st)
    &&& char_boundary(s, end)
}

/// The bytes of `s` from `start`, `n` long (clamped).
pub fn substr_bytes(s: &[u8], start: i64, n: i64) -> (r: Vec<u8>)
    requires
        substr_ok(s@, start, n),
    ensures
        r@ == s@.subrange(substr_range(s@.len() as int, start, n).0, substr_range(s@.len() as int, start, n).1),
{
    let st: u64 = if start < 0 {
        0
    } else {
        start as u64
    };
    let nn: u64 = if n < 0 {
        0
    } else {
        n as u64
    };
    let len = s.len();
    let st = st as usize;
    let end: usize = if nn >= (len - st) as u64 {
        len
    } else {
        st + nn as usize
    };
    let mut r: Vec<u8> = Vec::new();
    let mut i: usize = st;
    while i < end
        invariant
            st <= i <= end <= s@.len(),
            r@ == s@.subrange(st as int, i as int),
        decreases end - i,
    {
        r.push(s[i]);
        i += 1;
        proof {
            assert(r@ =~= s@.subrange(st as int, i as int));
        }
    }
    r
}

/// Quote byte values: `'` 39, `"` 34.
pub open spec fn literal_text(s: Seq<u8>) -> Seq<u8> {
    if !s.contains(39) {
        seq![39u8] + s + seq![39u8]
    } else if !s.contains(34) {
        seq![34u8] + s + seq![34u8]
    } else {
        seq![35u8, 115u8] + nat_digits(s.len()) + seq![39u8] + s + seq![39u8]
    }
}

/// Does `s` hold byte `b`?
fn has_byte(s: &[u8], b: u8) -> (r: bool)
    ensures
        r == s@.contains(b),
{
    let mut i: usize = 0;
    while i < s.len()
        invariant
            i <= s@.len(),
            forall|j: int| 0 <= j < i ==> s@[j] != b,
        decreases s@.len() - i,
    {
        if s[i] == b {
            assert(s@[i as int] == b);
            return true;
        }
        i += 1;
    }
    false
}

/// Appends a string literal for `s` to `to`: quoted with `'` when `s` has
/// none, else with `"` when it has none, else as `#s<len>'...'`.
pub fn str_literal(s: &[u8], to: &mut Vec<u8>)
    ensures
        final(to)@ == old(to)@ + literal_text(s@),
{
    if !has_byte(s, 39) {
        to.push(39);
        to.extend_from_slice(s);
        to.push(39);
    } else if !has_byte(s, 34) {
        to.push(34);
        to.extend_from_slice(s);
        to.push(34);
    } else {
        to.push(35);
        to.push(115);
        write_digits(s.len() as u64, to);
        to.push(39);
        to.extend_from_slice(s);
        to.push(39);
    }
    proof {
        assert(final(to)@ =~= old(to)@ + literal_text(s@));
    }
}

/// The builtins that [Builtin::eval] evaluates: the pure ones, and those
/// that use the transaction or the batch list.
pub open spec fn evaluates(b: Builtin) -> bool {
    is_pure(b) || matches!(b, Builtin::arg | Builtin::header | Builtin::error | Builtin::batch)
}

/// The builtins whose result depends only on their arguments.
pub open spec fn is_pure(b: Builtin) -> bool {
    matches!(b, Builtin::len | Builtin::substr | Builtin::replace | Builtin::contains
        | Builtin::string_literal | Builtin::parseint)
}

/// Number of arguments of each builtin.
pub open spec fn arg_count(b: Builtin) -> nat {
    match b {
        Builtin::len | Builtin::string_literal | Builtin::execute | Builtin::batch
        | Builtin::parseint => 1,
        Builtin::substr | Builtin::replace | Builtin::col_is_referenced => 3,
        Builtin::contains | Builtin::header | Builtin::fn_text | Builtin::table_text
        | Builtin::table_col_names | Builtin::table_literal | Builtin::arg => 2,
        Builtin::error => 0,
    }
}

/// The arguments a pure builtin finds on top of the stack have the kinds it
/// takes (strings, and integers for the start and length of `substr`), and
/// `substr` is defined on them.
pub open spec fn args_ok(b: Builtin, st: Seq<Value>) -> bool {
    let n = st.len();
    match b {
        Builtin::len => n >= 1 && st[n - 1] is String && st[n - 1]->String_0@.len() <= i64::MAX,
        Builtin::string_literal | Builtin::parseint => n >= 1 && st[n - 1] is String,
        Builtin::contains => n >= 2 && st[n - 1] is String && st[n - 2] is String,
        Builtin::replace => n >= 3 && st[n - 1] is String && st[n - 2] is String && st[n - 3] is String,
        Builtin::substr => n >= 3 && st[n - 1] is Int && st[n - 2] is Int && st[n - 3] is String
            && substr_ok(st[n - 3]->String_0@, st[n - 2]->Int_0, st[n - 1]->Int_0),
        Builtin::arg => n >= 2 && st[n - 1] is String && st[n - 2] is Int,
        Builtin::header => n >= 2 && st[n - 1] is String && st[n - 2] is String,
        Builtin::batch => n >= 1 && st[n - 1] is String,
        _ => true,
    }
}

/// The value a pure builtin gives for the arguments on top of the stack.
pub open spec fn pure_result(b: Builtin, st: Seq<Value>) -> Value {
    let n = st.len();
    match b {
        Builtin::len => Value::Int(st[n - 1]->String_0@.len() as i64),
        Builtin::contains => Value::Bool(
            contains_spec(st[n - 2]->String_0@, st[n - 1]->String_0@),
        ),
        Builtin::parseint => Value::Int(
            match parse_i64(st[n - 1]->String_0@) {
                Some(v) => v,
                None => 0,
            },
        ),
        _ => Value::Empty,
    }
}

/// The bytes of the string a pure builtin gives, for those that give one.
pub open spec fn pure_text(b: Builtin, st: Seq<Value>) -> Seq<u8> {
    let n = st.len();
    match b {
        Builtin::substr => {
            let s = st[n - 3]->String_0@;
            let (a, e) = substr_range(s.len() as int, st[n - 2]->Int_0, st[n - 1]->Int_0);
            s.subrange(a, e)
        },
        Builtin::replace => replace_spec(
            st[n - 3]->String_0@,
            st[n - 2]->String_0@,
            st[n - 1]->String_0@,
        ),
        Builtin::string_literal => literal_text(st[n - 1]->String_0@),
        _ => Seq::empty(),
    }
}

/// The bytes of a string argument.
fn pop_string(stack: &mut Vec<Value>) -> (r: Vec<u8>)
    requires
        old(stack)@.len() >= 1,
        old(stack)@.last() is String,
    ensures
        final(stack)@ == old(stack)@.drop_last(),
        r@ == old(stack)@.last()->String_0@,
{
    match stack.pop() {
        Some(Value::String(s)) => s,
        _ => vstd::pervasive::unreached(),
    }
}

/// An integer argument.
fn pop_int(stack: &mut Vec<Value>) -> (r: i64)
    requires
        old(stack)@.len() >= 1,
        old(stack)@.last() is Int,
    ensures
        final(stack)@ == old(stack)@.drop_last(),
        r == old(stack)@.last()->Int_0,
{
    match stack.pop() {
        Some(Value::Int(i)) => i,
        _ => vstd::pervasive::unreached(),
    }
}

impl Builtin {
    /// The builtin named `name`, or an error for an unknown name.
    pub fn new(name: &[u8]) -> (r: Result<Self, E>)
        ensures
            match builtin_named(name@) {
                Some(b) => r == Ok::<Builtin, E>(b),
                None => r is Err,
            },
    {
        if same_bytes(name, [108, 101, 110u8].as_slice()) {
            return Ok(Builtin::len);
        }
        if same_bytes(name, [115, 117, 98, 115, 116, 114u8].as_slice()) {
            return Ok(Builtin::substr);
        }
        if same_bytes(name, [114, 101, 112, 108, 97, 99, 101u8].as_slice()) {
            return Ok(Builtin::replace);
        }
        if same_bytes(name, [99, 111, 110, 116, 97, 105, 110, 115u8].as_slice()) {
            return Ok(Builtin::contains);
        }
        if same_bytes(name, [102, 110, 95, 116, 101, 120, 116u8].as_slice()) {
            return Ok(Builtin::fn_text);
        }
        if same_bytes(name, [116, 97, 98, 108, 101, 95, 116, 101, 120, 116u8].as_slice()) {
            return Ok(Builtin::table_text);
        }
        if same_bytes(name, [116, 97, 98, 108, 101, 95, 99, 111, 108, 95, 110, 97, 109, 101, 115u8].as_slice()) {
            return Ok(Builtin::table_col_names);
        }
        if same_bytes(name, [99, 111, 108, 95, 105, 115, 95, 114, 101, 102, 101, 114, 101, 110, 99, 101, 100u8].as_slice()) {
            return Ok(Builtin::col_is_referenced);
        }
        if same_bytes(name, [101, 120, 101, 99, 117, 116, 101u8].as_slice()) {
            return Ok(Builtin::execute);
        }
        if same_bytes(name, [98, 97, 116, 99, 104u8].as_slice()) {
            return Ok(Builtin::batch);
        }
        if same_bytes(name, [97, 114, 103u8].as_slice()) {
            return Ok(Builtin::arg);
        }
        if same_bytes(name, [104, 101, 97, 100, 101, 114u8].as_slice()) {
            return Ok(Builtin::header);
        }
        if same_bytes(name, [112, 97, 114, 115, 101, 105, 110, 116u8].as_slice()) {
            return Ok(Builtin::parseint);
        }
        if same_bytes(name, [116, 97, 98, 108, 101, 95, 108, 105, 116, 101, 114, 97, 108u8].as_slice()) {
            return Ok(Builtin::table_literal);
        }
        if same_bytes(name, [115, 116, 114, 105, 110, 103, 95, 108, 105, 116, 101, 114, 97, 108u8].as_slice()) {
            return Ok(Builtin::string_literal);
        }
        if same_bytes(name, [101, 114, 114, 111, 114u8].as_slice()) {
            return Ok(Builtin::error);
        }
        Err(E::new("Unknown sys call"))
    }

    /// Evaluates a builtin whose arguments are on top of the stack (the last
    /// argument on top); they are popped. `arg`, `header` and `error` use the
    /// transaction `tr`; `batch` adds its source to `batch`. Returns `None`,
    /// with the stack unchanged, for the builtins that need the database
    /// dictionary or run a query (`execute`).
    pub fn eval<T: crate::transaction::Transaction>(
        &self,
        stack: &mut Vec<Value>,
        tr: &mut T,
        batch: &mut Vec<Vec<u8>>,
    ) -> (r: Option<Value>)
        requires
            args_ok(*self, old(stack)@),
        ensures
            !evaluates(*self) ==> r is None && final(stack)@ == old(stack)@ && *final(tr) == *old(tr)
                && final(batch)@ == old(batch)@,
            is_pure(*self) ==> *final(tr) == *old(tr) && final(batch)@ == old(batch)@,
            evaluates(*self) && !(*self is error) ==> final(stack)@ == old(stack)@.subrange(
                0,
                old(stack)@.len() - arg_count(*self),
            ),
            *self is arg ==> (r matches Some(Value::String(t)) && t@ == old(tr).arg_text(
                old(stack)@[old(stack)@.len() - 2]->Int_0,
                old(stack)@[old(stack)@.len() - 1]->String_0@,
            ) && final(batch)@ == old(batch)@),
            *self is header ==> r == Some(Value::Empty) && final(batch)@ == old(batch)@,
            *self is header ==> final(tr).keeps_headers() == old(tr).keeps_headers() && (old(
                tr,
            ).keeps_headers() ==> final(tr).headers() == old(tr).headers().push(
                (
                    old(stack)@[old(stack)@.len() - 2]->String_0@,
                    old(stack)@[old(stack)@.len() - 1]->String_0@,
                ),
            )),
            *self is error ==> (r matches Some(Value::String(t)) && t@ == old(tr).error_text())
                && final(stack)@ == old(stack)@ && final(batch)@ == old(batch)@,
            *self is batch ==> r == Some(Value::Empty) && *final(tr) == *old(tr) && final(batch)@.len()
                == old(batch)@.len() + 1 && final(batch)@.subrange(0, old(batch)@.len() as int)
                == old(batch)@ && final(batch)@.last()@ == old(stack)@[old(stack)@.len()
                - 1]->String_0@,
            is_pure(*self) ==> {
                &&& final(stack)@ == old(stack)@.subrange(
                    0,
                    old(stack)@.len() - arg_count(*self),
                )
                &&& r is Some
                &&& match *self {
                    Builtin::substr | Builtin::replace | Builtin::string_literal => r.unwrap() is String
                        && r.unwrap()->String_0@ == pure_text(*self, old(stack)@),
                    _ => r == Some(pure_result(*self, old(stack)@)),
                }
            },
    {
        let ghost st = stack@;
        match self {
            Builtin::len => {
                let s = pop_string(stack);
                Some(Value::Int(len_i64(&s)))
            },
            Builtin::substr => {
                let n = pop_int(stack);
                let start = pop_int(stack);
                let src = pop_string(stack);
                let r = substr_bytes(src.as_slice(), start, n);
                proof {
                    assert(stack@ =~= st.subrange(0, st.len() - 3));
                }
                Some(Value::String(r))
            },
            Builtin::replace => {
                let with = pop_string(stack);
                let pat = pop_string(stack);
                let src = pop_string(stack);
                let r = replace_bytes(src.as_slice(), pat.as_slice(), with.as_slice());
                proof {
                    assert(stack@ =~= st.subrange(0, st.len() - 3));
                }
                Some(Value::String(r))
            },
            Builtin::contains => {
                let pat = pop_string(stack);
                let src = pop_string(stack);
                let r = contains_bytes(src.as_slice(), pat.as_slice());
                proof {
                    assert(stack@ =~= st.subrange(0, st.len() - 2));
                }
                Some(Value::Bool(r))
            },
            Builtin::string_literal => {
                let s = pop_string(stack);
                let mut result: Vec<u8> = Vec::new();
                str_literal(s.as_slice(), &mut result);
                proof {
                    assert(result@ =~= literal_text(st[st.len() - 1]->String_0@));
                }
                Some(Value::String(result))
            },
            Builtin::parseint => {
                let s = pop_string(stack);
                Some(Value::Int(parse_int(s.as_slice())))
            },
            Builtin::arg => {
                let name = pop_string(stack);
                let kind = pop_int(stack);
                let result = tr.arg(kind, name.as_slice());
                proof {
                    assert(stack@ =~= st.subrange(0, st.len() - 2));
                }
                Some(Value::String(result))
            },
            Builtin::header => {
                let value = pop_string(stack);
                let name = pop_string(stack);
                tr.header(name.as_slice(), value.as_slice());
                proof {
                    assert(stack@ =~= st.subrange(0, st.len() - 2));
                }
                Some(Value::Empty)
            },
            Builtin::batch => {
                let source = pop_string(stack);
                batch.push(source);
                Some(Value::Empty)
            },
            Builtin::error => Some(Value::String(tr.get_error())),
            _ => None,
        }
    }

    /// The type of the value the builtin returns.
    pub fn result_type(&self) -> (r: DataType)
        ensures
            r == match *self {
                Builtin::execute | Builtin::batch | Builtin::header => DataType::Empty,
                Builtin::contains | Builtin::col_is_referenced => DataType::Bool,
                Builtin::len | Builtin::parseint => DataType::Int,
                _ => DataType::String(0),
            },
    {
        match self {
            Builtin::execute | Builtin::batch | Builtin::header => DataType::Empty,
            Builtin::contains | Builtin::col_is_referenced => DataType::Bool,
            Builtin::len | Builtin::parseint => DataType::Int,
            _ => DataType::String(0),
        }
    }

    /// The types of the arguments the builtin takes, in order.
    pub fn arg_types(&self) -> (r: Vec<DataType>)
        ensures
            r@ == match *self {
                Builtin::len | Builtin::string_literal | Builtin::execute | Builtin::batch
                | Builtin::parseint => seq![DataType::String(0)],
                Builtin::substr => seq![DataType::String(0), DataType::Int, DataType::Int],
                Builtin::replace | Builtin::col_is_referenced => seq![
                    DataType::String(0),
                    DataType::String(0),
                    DataType::String(0),
                ],
                Builtin::contains | Builtin::header | Builtin::fn_text | Builtin::table_text
                | Builtin::table_col_names | Builtin::table_literal => seq![
                    DataType::String(0),
                    DataType::String(0),
                ],
                Builtin::arg => seq![DataType::Int, DataType::String(0)],
                Builtin::error => Seq::<DataType>::empty(),
            },
            r@.len() == arg_count(*self),
    {
        match self {
            Builtin::len | Builtin::string_literal | Builtin::execute | Builtin::batch
            | Builtin::parseint => vec![DataType::String(0)],
            Builtin::substr => vec![DataType::String(0), DataType::Int, DataType::Int],
            Builtin::replace | Builtin::col_is_referenced => vec![
                DataType::String(0),
                DataType::String(0),
                DataType::String(0),
            ],
            Builtin::contains | Builtin::header | Builtin::fn_text | Builtin::table_text
            | Builtin::table_col_names | Builtin::table_literal => vec![
                DataType::String(0),
                DataType::String(0),
            ],
            Builtin::arg => vec![DataType::Int, DataType::String(0)],
            Builtin::error => Vec::new(),
        }
    }
}

} // verus!
