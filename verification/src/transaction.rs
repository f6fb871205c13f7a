//! Transactions that carry a query and collect its response.

use vstd::prelude::*;
use vstd::string::StringSliceAdditionalSpecFns;

verus! {

/// Transaction where output is discarded (used for initialisation ).
pub struct DummyTransaction {}

/// What the builtin functions ask of a transaction: query arguments,
/// response headers and the error text.
pub trait Transaction {
    /// The text that [Transaction::arg] gives for `kind` and `name`.
    spec fn arg_text(&self, kind: i64, name: Seq<u8>) -> Seq<u8>;

    /// The text that [Transaction::get_error] gives.
    spec fn error_text(&self) -> Seq<u8>;

    /// ARG builtin function. Get path, query parameter, form value or cookie.
    fn arg(&mut self, kind: i64, name: &[u8]) -> (r: Vec<u8>)
        ensures
            r@ == old(self).arg_text(kind, name@),
    ;

    /// The headers of the response, as (name, value) pairs in the order they
    /// were added.
    spec fn headers(&self) -> Seq<(Seq<u8>, Seq<u8>)>;

    /// The transaction keeps the headers it is given (one whose response is
    /// discarded does not).
    spec fn keeps_headers(&self) -> bool;

    /// HEADER builtin function, adds header to response.
    fn header(&mut self, name: &[u8], value: &[u8])
        ensures
            final(self).keeps_headers() == old(self).keeps_headers(),
            old(self).keeps_headers() ==> final(self).headers() == old(self).headers().push(
                (name@, value@),
            ),
    ;

    /// Get the error string.
    fn get_error(&mut self) -> (r: Vec<u8>)
        ensures
            r@ == old(self).error_text(),
    ;
}

impl Transaction for DummyTransaction {
    /// No argument: empty text.
    open spec fn arg_text(&self, kind: i64, name: Seq<u8>) -> Seq<u8> {
        Seq::empty()
    }

    /// No error: empty text.
    open spec fn error_text(&self) -> Seq<u8> {
        Seq::empty()
    }

    /// The response is discarded: no headers.
    open spec fn headers(&self) -> Seq<(Seq<u8>, Seq<u8>)> {
        Seq::empty()
    }

    open spec fn keeps_headers(&self) -> bool {
        false
    }

    fn arg(&mut self, kind: i64, name: &[u8]) -> (r: Vec<u8>) {
        Vec::new()
    }

    fn header(&mut self, name: &[u8], value: &[u8]) {
    }

    fn get_error(&mut self) -> (r: Vec<u8>) {
        Vec::new()
    }
}

/// Part of multipart data ( uploaded files ).
pub struct Part {
    /// Part name.
    pub name: Vec<u8>,
    /// Part filename.
    pub file_name: Vec<u8>,
    /// Part contenttype.
    pub content_type: Vec<u8>,
    /// Text.
    pub text: Vec<u8>,
    /// Data.
    pub data: Vec<u8>,
}

/// General Query. Parameters, form values and cookies are maps from names
/// to values, held as name, value pairs: [set_pair] fills them as a map
/// does, so each name occurs once (see [GenQuery::wf]).
pub struct GenQuery {
    /// The SQL query string.
    pub sql: Vec<u8>,
    /// The path argument for the query.
    pub path: Vec<u8>,
    /// Query parameters.
    pub params: Vec<(Vec<u8>, Vec<u8>)>,
    /// Query form.
    pub form: Vec<(Vec<u8>, Vec<u8>)>,
    /// Query cookies.
    pub cookies: Vec<(Vec<u8>, Vec<u8>)>,
    /// Query parts ( files ).
    pub parts: Vec<Part>,
    /// Micro-seconds since January 1, 1970 0:00:00 UTC
    pub now: i64,
}

/// General Response.
pub struct GenResponse {
    /// Error string.
    pub err: Vec<u8>,
    /// Response status code.
    pub status_code: u16,
    /// Response headers.
    pub headers: Vec<(Vec<u8>, Vec<u8>)>,
    /// Reponse body.
    pub output: Vec<u8>,
}

/// Query + Response.
pub struct GenTransaction {
    /// Transaction Query.
    pub qy: GenQuery,
    /// Transaction Response.
    pub rp: GenResponse,
    /// Transaction is read only
    pub read_only: bool,
}

/// The value of the first pair of `m` named `name`.
pub open spec fn lookup_pair(m: Seq<(Vec<u8>, Vec<u8>)>, name: Seq<u8>) -> Option<Seq<u8>>
    decreases m.len(),
{
    if m.len() == 0 {
        None
    } else if m[0].0@ == name {
        Some(m[0].1@)
    } else {
        lookup_pair(m.drop_first(), name)
    }
}

/// Are the bytes equal?
fn same_bytes(a: &[u8], b: &[u8]) -> (r: bool)
    ensures
        r == (a@ == b@),
{
    if a.len() != b.len() {
        return false;
    }
    let mut i: usize = 0;
    while i < a.len()
        invariant
            a@.len() == b@.len(),
            i <= a@.len(),
            a@.subrange(0, i as int) == b@.subrange(0, i as int),
        decreases a@.len() - i,
    {
        if a[i] != b[i] {
            proof {
                assert(a@[i as int] != b@[i as int]);
            }
            return false;
        }
        i += 1;
        proof {
            assert(a@.subrange(0, i as int) =~= a@.subrange(0, i - 1).push(a@[i - 1]));
            assert(b@.subrange(0, i as int) =~= b@.subrange(0, i - 1).push(b@[i - 1]));
        }
    }
    proof {
        assert(a@ =~= a@.subrange(0, a@.len() as int));
        assert(b@ =~= b@.subrange(0, b@.len() as int));
    }
    true
}

/// The value of the first pair of `m` named `name`.
fn find_pair(m: &Vec<(Vec<u8>, Vec<u8>)>, name: &[u8]) -> (r: Option<Vec<u8>>)
    ensures
        match r {
            Some(v) => lookup_pair(m@, name@) == Some(v@),
            None => lookup_pair(m@, name@) is None,
        },
{
    let mut i: usize = 0;
    proof {
        assert(m@.subrange(0, m@.len() as int) =~= m@);
    }
    while i < m.len()
        invariant
            i <= m@.len(),
            lookup_pair(m@, name@) == lookup_pair(m@.subrange(i as int, m@.len() as int), name@),
        decreases m@.len() - i,
    {
        proof {
            let rest = m@.subrange(i as int, m@.len() as int);
            assert(rest.drop_first() =~= m@.subrange(i + 1, m@.len() as int));
        }
        if same_bytes(m[i].0.as_slice(), name) {
            return Some(vstd::slice::slice_to_vec(m[i].1.as_slice()));
        }
        i += 1;
    }
    None
}

/// No name occurs twice among the pairs of `m`: the pairs are a map from
/// names to values.
pub open spec fn names_unique(m: Seq<(Vec<u8>, Vec<u8>)>) -> bool {
    forall|i: int, j: int| 0 <= i < j < m.len() ==> m[i].0@ != m[j].0@
}

impl GenQuery {
    /// The parameters, form values and cookies each name a value at most
    /// once.
    pub open spec fn wf(&self) -> bool {
        names_unique(self.params@) && names_unique(self.form@) && names_unique(self.cookies@)
    }
}

/// A lookup in pairs that agree with `m` on which are named `n`, and on
/// their values, gives what it gives in `m`.
proof fn lemma_lookup_same(m: Seq<(Vec<u8>, Vec<u8>)>, m2: Seq<(Vec<u8>, Vec<u8>)>, n: Seq<u8>)
    requires
        m2.len() == m.len(),
        forall|j: int| 0 <= j < m.len() ==> (#[trigger] m[j].0@ == n) == (m2[j].0@ == n),
        forall|j: int| 0 <= j < m.len() && #[trigger] m[j].0@ == n ==> m2[j].1@ == m[j].1@,
    ensures
        lookup_pair(m2, n) == lookup_pair(m, n),
    decreases m.len(),
{
    if m.len() > 0 {
        assert forall|j: int| 0 <= j < m.drop_first().len() implies (#[trigger] m.drop_first()[j].0@
            == n) == (m2.drop_first()[j].0@ == n) by {
            assert(m.drop_first()[j] == m[j + 1]);
            assert(m2.drop_first()[j] == m2[j + 1]);
        }
        assert forall|j: int| 0 <= j < m.drop_first().len() && #[trigger] m.drop_first()[j].0@ == n
            implies m2.drop_first()[j].1@ == m.drop_first()[j].1@ by {
            assert(m.drop_first()[j] == m[j + 1]);
            assert(m2.drop_first()[j] == m2[j + 1]);
        }
        assert((m[0].0@ == n) == (m2[0].0@ == n));
        lemma_lookup_same(m.drop_first(), m2.drop_first(), n);
    }
}

/// The first pair of `m` named `n` is at `i`: a lookup of `n` gives its
/// value.
proof fn lemma_lookup_at(m: Seq<(Vec<u8>, Vec<u8>)>, i: int, n: Seq<u8>)
    requires
        0 <= i < m.len(),
        m[i].0@ == n,
        forall|j: int| 0 <= j < i ==> #[trigger] m[j].0@ != n,
    ensures
        lookup_pair(m, n) == Some(m[i].1@),
    decreases i,
{
    if i > 0 {
        assert forall|j: int| 0 <= j < i - 1 implies #[trigger] m.drop_first()[j].0@ != n by {
            assert(m.drop_first()[j] == m[j + 1]);
        }
        assert(m[0].0@ != n);
        lemma_lookup_at(m.drop_first(), i - 1, n);
    }
}

/// A lookup of a name that no pair of `m` has finds nothing.
proof fn lemma_lookup_none(m: Seq<(Vec<u8>, Vec<u8>)>, n: Seq<u8>)
    requires
        forall|j: int| 0 <= j < m.len() ==> #[trigger] m[j].0@ != n,
    ensures
        lookup_pair(m, n) is None,
    decreases m.len(),
{
    if m.len() > 0 {
        assert forall|j: int| 0 <= j < m.drop_first().len() implies #[trigger] m.drop_first()[j].0@
            != n by {
            assert(m.drop_first()[j] == m[j + 1]);
        }
        assert(m[0].0@ != n);
        lemma_lookup_none(m.drop_first(), n);
    }
}

/// A pair added at the end is found only where no earlier pair has its
/// name.
proof fn lemma_lookup_push(m: Seq<(Vec<u8>, Vec<u8>)>, p: (Vec<u8>, Vec<u8>), n: Seq<u8>)
    ensures
        lookup_pair(m.push(p), n) == match lookup_pair(m, n) {
            Some(v) => Some(v),
            None => if p.0@ == n {
                Some(p.1@)
            } else {
                None
            },
        },
    decreases m.len(),
{
    if m.len() > 0 {
        assert(m.push(p)[0] == m[0]);
        assert(m.push(p).drop_first() =~= m.drop_first().push(p));
        lemma_lookup_push(m.drop_first(), p, n);
    } else {
        assert(m.push(p)[0] == p);
        assert(m.push(p).drop_first() =~= Seq::<(Vec<u8>, Vec<u8>)>::empty());
        assert(lookup_pair(Seq::<(Vec<u8>, Vec<u8>)>::empty(), n) is None);
        assert(lookup_pair(m, n) is None);
    }
}

/// Set the value of `name` among pairs `m`, as a map does: the pair named
/// `name` gets `value`, or a pair is added at the end. Other names keep
/// their values, and names stay unique.
pub fn set_pair(m: &mut Vec<(Vec<u8>, Vec<u8>)>, name: &[u8], value: &[u8])
    ensures
        lookup_pair(final(m)@, name@) == Some(value@),
        forall|n: Seq<u8>| n != name@ ==> #[trigger] lookup_pair(final(m)@, n) == lookup_pair(old(m)@, n),
        names_unique(old(m)@) ==> names_unique(final(m)@),
{
    let ghost m0 = m@;
    let mut i: usize = 0;
    while i < m.len()
        invariant
            m@ == m0,
            m0 == old(m)@,
            i <= m@.len(),
            forall|j: int| 0 <= j < i ==> #[trigger] m@[j].0@ != name@,
        decreases m@.len() - i,
    {
        if same_bytes(m[i].0.as_slice(), name) {
            let p = (vstd::slice::slice_to_vec(name), vstd::slice::slice_to_vec(value));
            assert(m0[i as int].0@ == name@);
            m.set(i, p);
            proof {
                assert(m@[i as int].0@ == name@);
                lemma_lookup_at(m@, i as int, name@);
                assert forall|n: Seq<u8>| n != name@ implies #[trigger] lookup_pair(m@, n)
                    == lookup_pair(m0, n) by {
                    assert forall|j: int| 0 <= j < m0.len() implies (#[trigger] m0[j].0@ == n) == (
                    m@[j].0@ == n) by {
                        if j != i {
                            assert(m@[j] == m0[j]);
                        }
                    }
                    assert forall|j: int| 0 <= j < m0.len() && #[trigger] m0[j].0@ == n implies m@[j].1@
                        == m0[j].1@ by {
                        if j != i {
                            assert(m@[j] == m0[j]);
                        }
                    }
                    lemma_lookup_same(m0, m@, n);
                }
                assert(forall|j: int| 0 <= j < m0.len() ==> #[trigger] m@[j].0@ == m0[j].0@);
            }
            return;
        }
        i += 1;
    }
    let p = (vstd::slice::slice_to_vec(name), vstd::slice::slice_to_vec(value));
    m.push(p);
    proof {
        lemma_lookup_none(m0, name@);
        lemma_lookup_push(m0, p, name@);
        assert forall|n: Seq<u8>| n != name@ implies #[trigger] lookup_pair(m@, n) == lookup_pair(
            m0,
            n,
        ) by {
            lemma_lookup_push(m0, p, n);
        }
        assert(m@ == m0.push(p));
    }
}

impl GenTransaction {
    /// Construct, for a request made at `now` (micro-seconds since January
    /// 1, 1970 0:00:00 UTC): the query runs `web.main`, the response is
    /// empty with status 200.
    pub fn new(now: i64) -> (r: Self)
        ensures
            r.qy.sql@ == "let x = web.main()".spec_bytes(),
            r.qy.now == now,
            r.qy.path@.len() == 0,
            r.qy.params@.len() == 0,
            r.qy.form@.len() == 0,
            r.qy.cookies@.len() == 0,
            r.qy.parts@.len() == 0,
            r.rp.err@.len() == 0,
            r.rp.status_code == 200,
            r.rp.headers@.len() == 0,
            r.rp.output@.len() == 0,
            !r.read_only,
    {
        let sql = vstd::slice::slice_to_vec("let x = web.main()".as_bytes());
        Self {
            qy: GenQuery {
                sql,
                path: Vec::new(),
                params: Vec::new(),
                form: Vec::new(),
                cookies: Vec::new(),
                parts: Vec::new(),
                now,
            },
            rp: GenResponse {
                err: Vec::new(),
                status_code: 200,
                headers: Vec::new(),
                output: Vec::new(),
            },
            read_only: false,
        }
    }

    /// Output bytes: appended to the response body.
    pub fn output(&mut self, bytes: &[u8])
        ensures
            final(self).rp.output@ == old(self).rp.output@ + bytes@,
            final(self).rp.headers == old(self).rp.headers,
            final(self).rp.status_code == old(self).rp.status_code,
            final(self).rp.err == old(self).rp.err,
            final(self).qy == old(self).qy,
            final(self).read_only == old(self).read_only,
    {
        self.rp.output.extend_from_slice(bytes);
    }

    /// Is transaction read only?
    pub fn read_only(&self) -> (r: bool)
        ensures
            r == self.read_only,
    {
        self.read_only
    }

    /// ARG builtin function: the path (kind 0), or the value of a query
    /// parameter (1), form value (2) or cookie (3) named `s`; empty when
    /// there is none.
    pub fn arg(&self, kind: i64, s: &[u8]) -> (r: Vec<u8>)
        ensures
            r@ == match kind {
                0 => Some(self.qy.path@),
                1 => lookup_pair(self.qy.params@, s@),
                2 => lookup_pair(self.qy.form@, s@),
                3 => lookup_pair(self.qy.cookies@, s@),
                _ => None,
            }.unwrap_or(Seq::empty()),
    {
        let v = match kind {
            0 => Some(vstd::slice::slice_to_vec(self.qy.path.as_slice())),
            1 => find_pair(&self.qy.params, s),
            2 => find_pair(&self.qy.form, s),
            3 => find_pair(&self.qy.cookies, s),
            _ => None,
        };
        match v {
            Some(v) => v,
            None => Vec::new(),
        }
    }

    /// Sets the response status code (its low 16 bits).
    pub fn status_code(&mut self, code: i64)
        ensures
            final(self).rp.status_code == code as u16,
            final(self).rp.output == old(self).rp.output,
            final(self).rp.headers == old(self).rp.headers,
            final(self).rp.err == old(self).rp.err,
            final(self).qy == old(self).qy,
            final(self).read_only == old(self).read_only,
    {
        self.rp.status_code = code as u16;
    }

    /// HEADER builtin function, adds header to response.
    pub fn header(&mut self, name: &[u8], value: &[u8])
        ensures
            final(self).rp.headers@.len() == old(self).rp.headers@.len() + 1,
            final(self).rp.headers@.subrange(0, old(self).rp.headers@.len() as int)
                == old(self).rp.headers@,
            final(self).rp.headers@.last().0@ == name@,
            final(self).rp.headers@.last().1@ == value@,
            final(self).rp.output == old(self).rp.output,
            final(self).rp.status_code == old(self).rp.status_code,
            final(self).rp.err == old(self).rp.err,
            final(self).qy == old(self).qy,
            final(self).read_only == old(self).read_only,
    {
        let n = vstd::slice::slice_to_vec(name);
        let v = vstd::slice::slice_to_vec(value);
        self.rp.headers.push((n, v));
    }

    /// GLOBAL builtin function: the time of the request (kind 0).
    pub fn global(&self, kind: i64) -> (r: i64)
        requires
            kind == 0,
        ensures
            r == self.qy.now,
    {
        self.qy.now
    }

    /// Set the error string.
    pub fn set_error(&mut self, err: &[u8])
        ensures
            final(self).rp.err@ == err@,
            final(self).rp.output == old(self).rp.output,
            final(self).rp.headers == old(self).rp.headers,
            final(self).rp.status_code == old(self).rp.status_code,
            final(self).qy == old(self).qy,
            final(self).read_only == old(self).read_only,
    {
        self.rp.err = vstd::slice::slice_to_vec(err);
    }

    /// Get the error string, which is then cleared.
    pub fn get_error(&mut self) -> (r: Vec<u8>)
        ensures
            r@ == old(self).rp.err@,
            final(self).rp.err@.len() == 0,
            final(self).rp.output == old(self).rp.output,
            final(self).rp.headers == old(self).rp.headers,
            final(self).rp.status_code == old(self).rp.status_code,
            final(self).qy == old(self).qy,
            final(self).read_only == old(self).read_only,
    {
        let result = vstd::slice::slice_to_vec(self.rp.err.as_slice());
        self.rp.err = Vec::new();
        result
    }

    /// An attribute of uploaded file `k`: its name (0), content type (1),
    /// file name (2) or text (3); empty when there is no such file.
    pub fn file_attr(&self, k: i64, x: i64) -> (r: Vec<u8>)
        requires
            0 <= k < self.qy.parts@.len() ==> 0 <= x <= 3,
        ensures
            r@ == if 0 <= k < self.qy.parts@.len() {
                let p = self.qy.parts@[k as int];
                if x == 0 {
                    p.name@
                } else if x == 1 {
                    p.content_type@
                } else if x == 2 {
                    p.file_name@
                } else {
                    p.text@
                }
            } else {
                Seq::empty()
            },
    {
        if k < 0 || k as u64 >= self.qy.parts.len() as u64 {
            return Vec::new();
        }
        let p = &self.qy.parts[k as usize];
        let b = if x == 0 {
            p.name.as_slice()
        } else if x == 1 {
            p.content_type.as_slice()
        } else if x == 2 {
            p.file_name.as_slice()
        } else {
            p.text.as_slice()
        };
        vstd::slice::slice_to_vec(b)
    }

    /// The data of uploaded file `k`.
    pub fn file_content(&self, k: i64) -> (r: Vec<u8>)
        requires
            0 <= k < self.qy.parts@.len(),
        ensures
            r@ == self.qy.parts@[k as int].data@,
    {
        let n = self.qy.parts.len();
        let u = k as u64;
        assert(u == k && u < n);
        let i = u as usize;
        assert(i == u);
        let p = &self.qy.parts[i];
        vstd::slice::slice_to_vec(p.data.as_slice())
    }
}

impl Transaction for GenTransaction {
    /// What [GenTransaction::arg] gives.
    open spec fn arg_text(&self, kind: i64, name: Seq<u8>) -> Seq<u8> {
        match kind {
            0 => Some(self.qy.path@),
            1 => lookup_pair(self.qy.params@, name),
            2 => lookup_pair(self.qy.form@, name),
            3 => lookup_pair(self.qy.cookies@, name),
            _ => None,
        }.unwrap_or(Seq::empty())
    }

    /// The error text of the response.
    open spec fn error_text(&self) -> Seq<u8> {
        self.rp.err@
    }

    /// The headers of the response.
    open spec fn headers(&self) -> Seq<(Seq<u8>, Seq<u8>)> {
        Seq::new(self.rp.headers@.len(), |i: int| (self.rp.headers@[i].0@, self.rp.headers@[i].1@))
    }

    open spec fn keeps_headers(&self) -> bool {
        true
    }

    fn arg(&mut self, kind: i64, name: &[u8]) -> (r: Vec<u8>) {
        GenTransaction::arg(self, kind, name)
    }

    fn header(&mut self, name: &[u8], value: &[u8]) {
        GenTransaction::header(self, name, value);
        proof {
            let n = old(self).rp.headers@.len();
            assert forall|i: int| 0 <= i < n implies self.rp.headers@[i] == old(self).rp.headers@[i] by {
                assert(self.rp.headers@.subrange(0, n as int)[i] == self.rp.headers@[i]);
            }
            assert(self.headers() =~= old(self).headers().push((name@, value@)));
        }
    }

    fn get_error(&mut self) -> (r: Vec<u8>) {
        GenTransaction::get_error(self)
    }
}

} // verus!
