//! The interpreter: the variable environment, `{{name}}` interpolation,
//! request selection, and execution through a transport.

use vstd::prelude::*;
use vstd::slice::slice_subrange;

use crate::ast::{
    method_of, opt_view, HttpMethod, Request, RequestV, ReqxFile, ReqxFileV, Variable, VariableV,
    variables_view,
};
use crate::client::{HttpClient, HttpResponse};
use crate::text::{chars_of, decimal, push_all, push_decimal, string_of, trim, trim_chars};

verus! {

/// A mapping from variable name to value; a later insert for a name replaces
/// the earlier value.
pub struct Env {
    entries: Vec<(String, String)>,
}

pub open spec fn pair_view(p: (String, String)) -> (Seq<char>, Seq<char>) {
    (p.0@, p.1@)
}

pub open spec fn pairs_view(s: Seq<(String, String)>) -> Seq<(Seq<char>, Seq<char>)> {
    s.map_values(|p: (String, String)| pair_view(p))
}

/// The mapping that a sequence of inserts builds, later entries winning.
pub open spec fn env_map(entries: Seq<(Seq<char>, Seq<char>)>) -> Map<Seq<char>, Seq<char>>
    decreases entries.len(),
{
    if entries.len() == 0 {
        Map::empty()
    } else {
        env_map(entries.drop_last()).insert(entries.last().0, entries.last().1)
    }
}

impl View for Env {
    type V = Map<Seq<char>, Seq<char>>;

    closed spec fn view(&self) -> Map<Seq<char>, Seq<char>> {
        env_map(pairs_view(self.entries@))
    }
}

impl Env {
    pub fn new() -> (r: Env)
        ensures
            r@ == Map::<Seq<char>, Seq<char>>::empty(),
    {
        let r = Env { entries: Vec::new() };
        assert(pairs_view(r.entries@) =~= seq![]);
        r
    }

    /// Binds `name` to `value`, replacing any earlier value.
    pub fn insert(&mut self, name: String, value: String)
        ensures
            final(self)@ == old(self)@.insert(name@, value@),
    {
        let ghost before = pairs_view(self.entries@);
        self.entries.push((name, value));
        assert(pairs_view(self.entries@).drop_last() =~= before);
    }

    /// The value bound to `name`, if any.
    pub fn get(&self, name: &String) -> (r: Option<&String>)
        ensures
            match r {
                Some(v) => self@.contains_key(name@) && self@[name@] == v@,
                None => !self@.contains_key(name@),
            },
    {
        let ghost ev = pairs_view(self.entries@);
        let mut i = self.entries.len();
        assert(ev.subrange(0, i as int) =~= ev);
        while i > 0
            invariant
                i <= self.entries@.len(),
                ev == pairs_view(self.entries@),
                env_map(ev).contains_key(name@) == env_map(ev.subrange(0, i as int)).contains_key(
                    name@,
                ),
                env_map(ev).contains_key(name@) ==> env_map(ev)[name@] == env_map(
                    ev.subrange(0, i as int),
                )[name@],
            decreases i,
        {
            let ghost sub = ev.subrange(0, i as int);
            assert(sub.drop_last() =~= ev.subrange(0, i - 1));
            assert(sub.last() == pair_view(self.entries@[i - 1]));
            if self.entries[i - 1].0 == *name {
                return Some(&self.entries[i - 1].1);
            }
            i = i - 1;
        }
        None
    }
}

/// The environment that a document's variables build, in document order.
pub open spec fn env_of(vs: Seq<VariableV>) -> Map<Seq<char>, Seq<char>>
    decreases vs.len(),
{
    if vs.len() == 0 {
        Map::empty()
    } else {
        env_of(vs.drop_last()).insert(vs.last().name, vs.last().value)
    }
}

/// Wherever else a name is defined, the environment holds the value of its
/// last definition in document order.
pub proof fn lemma_last_definition_wins(vs: Seq<VariableV>, i: int)
    requires
        0 <= i < vs.len(),
        forall|j: int| i < j < vs.len() ==> vs[j].name != vs[i].name,
    ensures
        env_of(vs).contains_key(vs[i].name),
        env_of(vs)[vs[i].name] == vs[i].value,
    decreases vs.len(),
{
    if i < vs.len() - 1 {
        let d = vs.drop_last();
        assert forall|j: int| i < j < d.len() implies d[j].name != d[i].name by {
            assert(d[j] == vs[j]);
        }
        lemma_last_definition_wins(d, i);
    }
}

/// Builds the environment from the variables, a later definition of a name
/// replacing an earlier one.
pub fn build_env(variables: &Vec<Variable>) -> (r: Env)
    ensures
        r@ == env_of(variables_view(variables@)),
{
    let ghost vv = variables_view(variables@);
    let mut env = Env::new();
    let mut i: usize = 0;
    assert(vv.subrange(0, 0) =~= seq![]);
    while i < variables.len()
        invariant
            i <= variables@.len(),
            vv == variables_view(variables@),
            env@ == env_of(vv.subrange(0, i as int)),
        decreases variables@.len() - i,
    {
        let v = &variables[i];
        env.insert(v.name.clone(), v.value.clone());
        assert(vv.subrange(0, i + 1).drop_last() =~= vv.subrange(0, i as int));
        i = i + 1;
    }
    assert(vv.subrange(0, i as int) =~= vv);
    env
}

/// Why a string could not be interpolated.
pub enum InterpFault {
    /// A `{{` with no `}}` after it; holds the text after the `{{`.
    Unclosed(Seq<char>),
    /// A reference to a name the environment does not hold.
    Undefined(Seq<char>),
}

pub open spec fn interp_message(f: InterpFault) -> Seq<char> {
    match f {
        InterpFault::Unclosed(rest) => "Unclosed variable interpolation: {{"@ + rest + "}"@,
        InterpFault::Undefined(name) => "Undefined variable: "@ + name,
    }
}

/// Index of the first `}}` in `r` at or after `i`, or -1 when there is none.
pub open spec fn close_from(r: Seq<char>, i: int) -> int
    decreases r.len() - i,
{
    if i < 0 || i + 1 >= r.len() {
        -1
    } else if r[i] == '}' && r[i + 1] == '}' {
        i
    } else {
        close_from(r, i + 1)
    }
}

proof fn lemma_close_from(r: Seq<char>, i: int)
    requires
        0 <= i,
    ensures
        close_from(r, i) == -1 || (i <= close_from(r, i) && close_from(r, i) + 1 < r.len()),
    decreases r.len() - i,
{
    if i + 1 < r.len() && !(r[i] == '}' && r[i + 1] == '}') {
        lemma_close_from(r, i + 1);
    }
}

/// `s` with each `{{name}}` replaced by the value of the trimmed name; the
/// values are not interpolated again.
pub open spec fn interp(s: Seq<char>, env: Map<Seq<char>, Seq<char>>) -> Result<
    Seq<char>,
    InterpFault,
>
    decreases s.len(),
    via interp_decreases
{
    if s.len() == 0 {
        Ok(seq![])
    } else if s.len() >= 2 && s[0] == '{' && s[1] == '{' {
        let r = s.subrange(2, s.len() as int);
        let c = close_from(r, 0);
        if c < 0 {
            Err(InterpFault::Unclosed(r))
        } else {
            let name = trim(r.subrange(0, c));
            if env.contains_key(name) {
                match interp(r.subrange(c + 2, r.len() as int), env) {
                    Ok(t) => Ok(env[name] + t),
                    Err(f) => Err(f),
                }
            } else {
                Err(InterpFault::Undefined(name))
            }
        }
    } else {
        match interp(s.drop_first(), env) {
            Ok(t) => Ok(seq![s[0]] + t),
            Err(f) => Err(f),
        }
    }
}

#[via_fn]
proof fn interp_decreases(s: Seq<char>, env: Map<Seq<char>, Seq<char>>) {
    if s.len() >= 2 {
        lemma_close_from(s.subrange(2, s.len() as int), 0);
    }
}

pub open spec fn prepend(p: Seq<char>, r: Result<Seq<char>, InterpFault>) -> Result<
    Seq<char>,
    InterpFault,
> {
    match r {
        Ok(t) => Ok(p + t),
        Err(f) => Err(f),
    }
}

/// A string with no `{{` in it interpolates to itself, in any environment.
pub proof fn lemma_interp_plain(s: Seq<char>, env: Map<Seq<char>, Seq<char>>)
    requires
        forall|i: int| 0 <= i < s.len() - 1 ==> !(#[trigger] s[i] == '{' && s[i + 1] == '{'),
    ensures
        interp(s, env) == Ok::<Seq<char>, InterpFault>(s),
    decreases s.len(),
{
    if s.len() == 0 {
        assert(s =~= seq![]);
    } else {
        if s.len() >= 2 {
            assert(!(s[0] == '{' && s[1] == '{'));
        }
        let t = s.drop_first();
        assert forall|i: int| 0 <= i < t.len() - 1 implies !(#[trigger] t[i] == '{' && t[i + 1] == '{') by {
            assert(t[i] == s[i + 1] && t[i + 1] == s[i + 2]);
        }
        lemma_interp_plain(t, env);
        assert(seq![s[0]] + t =~= s);
    }
}

proof fn lemma_close_from_prefix(a: Seq<char>, b: Seq<char>, i: int)
    requires
        0 <= i,
        close_from(a, i) >= 0,
    ensures
        close_from(a + b, i) == close_from(a, i),
    decreases a.len() - i,
{
    lemma_close_from(a, i);
    if !(a[i] == '}' && a[i + 1] == '}') {
        lemma_close_from_prefix(a, b, i + 1);
    }
}

/// When a prefix interpolates and does not end in `{`, a `{{` after it with no
/// `}}` anywhere after that fails as unclosed, and reports the text after the `{{`.
pub proof fn lemma_unclosed_after_prefix(p: Seq<char>, r: Seq<char>, env: Map<Seq<char>, Seq<char>>)
    requires
        interp(p, env) is Ok,
        p.len() == 0 || p.last() != '{',
        close_from(r, 0) < 0,
    ensures
        interp(p + seq!['{', '{'] + r, env) == Err::<Seq<char>, InterpFault>(
            InterpFault::Unclosed(r),
        ),
    decreases p.len(),
{
    let q = seq!['{', '{'] + r;
    let s = p + q;
    assert(p + seq!['{', '{'] + r =~= s);
    if p.len() == 0 {
        assert(s =~= q);
        assert(s.subrange(2, s.len() as int) =~= r);
    } else if p.len() >= 2 && p[0] == '{' && p[1] == '{' {
        let pr = p.subrange(2, p.len() as int);
        let c = close_from(pr, 0);
        lemma_close_from(pr, 0);
        assert(s.subrange(2, s.len() as int) =~= pr + q);
        lemma_close_from_prefix(pr, q, 0);
        let rest = pr.subrange(c + 2, pr.len() as int);
        assert((pr + q).subrange(c + 2, (pr + q).len() as int) =~= rest + q);
        if rest.len() > 0 {
            assert(rest.last() == p.last());
        }
        lemma_unclosed_after_prefix(rest, r, env);
        assert(rest + seq!['{', '{'] + r =~= rest + q);
        let sr = s.subrange(2, s.len() as int);
        assert(s[0] == '{' && s[1] == '{');
        assert(close_from(sr, 0) == c);
        assert(sr.subrange(0, c) =~= pr.subrange(0, c));
        assert(sr.subrange(c + 2, sr.len() as int) =~= rest + q);
    } else {
        let t = p.drop_first();
        assert(s.drop_first() =~= t + q);
        if t.len() > 0 {
            assert(t.last() == p.last());
        }
        lemma_unclosed_after_prefix(t, r, env);
        assert(t + seq!['{', '{'] + r =~= t + q);
        assert(s[0] == p[0]);
        if p.len() >= 2 {
            assert(s[1] == p[1]);
        } else {
            assert(p.last() == p[0]);
        }
        assert(!(s.len() >= 2 && s[0] == '{' && s[1] == '{'));
    }
}

/// Reads a `{{...}}` reference after its `{{`: the trimmed name and the
/// index just past the closing `}}`.
pub fn parse_variable_name(r: &[char]) -> (res: Result<(String, usize), String>)
    ensures
        close_from(r@, 0) < 0 ==> res is Err && res->Err_0@ == interp_message(
            InterpFault::Unclosed(r@),
        ),
        close_from(r@, 0) >= 0 ==> res is Ok && res->Ok_0.0@ == trim(
            r@.subrange(0, close_from(r@, 0)),
        ) && res->Ok_0.1 == close_from(r@, 0) + 2,
{
    let mut j: usize = 0;
    while j < r.len() && j + 1 < r.len() && !(r[j] == '}' && r[j + 1] == '}')
        invariant
            j <= r@.len(),
            close_from(r@, 0) == close_from(r@, j as int),
        decreases r@.len() - j,
    {
        j = j + 1;
    }
    if j >= r.len() || j + 1 >= r.len() {
        let mut msg = chars_of("Unclosed variable interpolation: {{");
        push_all(&mut msg, r);
        let close = chars_of("}");
        push_all(&mut msg, close.as_slice());
        return Err(string_of(msg.as_slice()));
    }
    let name = trim_chars(slice_subrange(r, 0, j));
    Ok((string_of(name), j + 2))
}

/// Replaces each `{{name}}` in `s` by its value in `vars`.
pub fn interpolate(s: &str, vars: &Env) -> (r: Result<String, String>)
    ensures
        match interp(s@, vars@) {
            Ok(t) => r is Ok && r->Ok_0@ == t,
            Err(f) => r is Err && r->Err_0@ == interp_message(f),
        },
{
    let cs = chars_of(s);
    let mut rest: &[char] = cs.as_slice();
    let mut out: Vec<char> = Vec::new();
    assert(out@ + s@ =~= s@);
    while rest.len() > 0
        invariant
            interp(s@, vars@) == prepend(out@, interp(rest@, vars@)),
        decreases rest@.len(),
    {
        if rest.len() >= 2 && rest[0] == '{' && rest[1] == '{' {
            let r = slice_subrange(rest, 2, rest.len());
            assert(r@ == rest@.subrange(2, rest@.len() as int));
            proof {
                lemma_close_from(r@, 0);
            }
            match parse_variable_name(r) {
                Err(e) => {
                    return Err(e);
                },
                Ok((name, after)) => {
                    match vars.get(&name) {
                        None => {
                            let mut msg = chars_of("Undefined variable: ");
                            let n = chars_of(name.as_str());
                            push_all(&mut msg, n.as_slice());
                            return Err(string_of(msg.as_slice()));
                        },
                        Some(v) => {
                            let ghost before = out@;
                            let vc = chars_of(v.as_str());
                            push_all(&mut out, vc.as_slice());
                            let next = slice_subrange(r, after, r.len());
                            proof {
                                let t = interp(next@, vars@);
                                if t is Ok {
                                    assert(before + (v@ + t->Ok_0) =~= out@ + t->Ok_0);
                                }
                            }
                            rest = next;
                        },
                    }
                },
            }
        } else {
            let ghost before = out@;
            out.push(rest[0]);
            let next = slice_subrange(rest, 1, rest.len());
            proof {
                assert(next@ =~= rest@.drop_first());
                let t = interp(next@, vars@);
                if t is Ok {
                    assert(before + (seq![rest@[0]] + t->Ok_0) =~= out@ + t->Ok_0);
                }
            }
            rest = next;
        }
    }
    assert(out@ + seq![] =~= out@);
    Ok(string_of(out.as_slice()))
}

/// A URL that starts with `:` is short for `http://localhost` followed by it.
pub open spec fn expand(url: Seq<char>) -> Seq<char> {
    if url.len() > 0 && url[0] == ':' {
        "http://localhost"@ + url
    } else {
        url
    }
}

/// Expands the `:PORT...` shorthand to `http://localhost:PORT...`.
pub fn expand_url(url: &str) -> (r: String)
    ensures
        r@ == expand(url@),
{
    let cs = chars_of(url);
    if cs.len() > 0 && cs[0] == ':' {
        let mut out = chars_of("http://localhost");
        push_all(&mut out, cs.as_slice());
        string_of(out.as_slice())
    } else {
        string_of(cs.as_slice())
    }
}

/// A request with its references resolved, as handed to the transport.
#[derive(Debug, Clone)]
pub struct ResolvedRequest {
    pub method: HttpMethod,
    pub url: String,
    pub headers: Vec<(String, String)>,
    pub body: Option<String>,
}

/// Model of a resolved request.
pub struct ResolvedV {
    pub method: HttpMethod,
    pub url: Seq<char>,
    pub headers: Seq<(Seq<char>, Seq<char>)>,
    pub body: Option<Seq<char>>,
}

impl View for ResolvedRequest {
    type V = ResolvedV;

    open spec fn view(&self) -> ResolvedV {
        ResolvedV {
            method: self.method,
            url: self.url@,
            headers: pairs_view(self.headers@),
            body: opt_view(self.body),
        }
    }
}

/// The headers with key, then value, interpolated, in order; the first failure wins.
pub open spec fn resolve_headers(
    hs: Seq<(Seq<char>, Seq<char>)>,
    env: Map<Seq<char>, Seq<char>>,
) -> Result<Seq<(Seq<char>, Seq<char>)>, InterpFault>
    decreases hs.len(),
{
    if hs.len() == 0 {
        Ok(seq![])
    } else {
        match resolve_headers(hs.drop_last(), env) {
            Err(f) => Err(f),
            Ok(prev) => match interp(hs.last().0, env) {
                Err(f) => Err(f),
                Ok(k) => match interp(hs.last().1, env) {
                    Err(f) => Err(f),
                    Ok(v) => Ok(prev.push((k, v))),
                },
            },
        }
    }
}

/// A request resolved: URL interpolated then expanded, then headers, then body.
pub open spec fn resolve(r: RequestV, env: Map<Seq<char>, Seq<char>>) -> Result<ResolvedV, InterpFault> {
    match interp(r.url, env) {
        Err(f) => Err(f),
        Ok(u) => match resolve_headers(r.headers, env) {
            Err(f) => Err(f),
            Ok(hs) => match r.body {
                None => Ok(ResolvedV { method: r.method, url: expand(u), headers: hs, body: None }),
                Some(b) => match interp(b, env) {
                    Err(f) => Err(f),
                    Ok(t) => Ok(
                        ResolvedV { method: r.method, url: expand(u), headers: hs, body: Some(t) },
                    ),
                },
            },
        },
    }
}

proof fn lemma_resolve_headers_err(hs: Seq<(Seq<char>, Seq<char>)>, env: Map<Seq<char>, Seq<char>>, k: int, m: int)
    requires
        0 <= k <= m <= hs.len(),
        resolve_headers(hs.subrange(0, k), env) is Err,
    ensures
        resolve_headers(hs.subrange(0, m), env) == resolve_headers(hs.subrange(0, k), env),
    decreases m - k,
{
    if m > k {
        lemma_resolve_headers_err(hs, env, k, m - 1);
        assert(hs.subrange(0, m).drop_last() =~= hs.subrange(0, m - 1));
    }
}

/// Resolves the references of one request against the environment.
pub fn resolve_request(req: &Request, vars: &Env) -> (r: Result<ResolvedRequest, String>)
    ensures
        match resolve(req@, vars@) {
            Ok(rv) => r is Ok && r->Ok_0@ == rv,
            Err(f) => r is Err && r->Err_0@ == interp_message(f),
        },
{
    let interpolated_url = match interpolate(req.url.as_str(), vars) {
        Ok(u) => u,
        Err(e) => {
            return Err(e);
        },
    };
    let url = expand_url(interpolated_url.as_str());
    let ghost hv = req@.headers;
    let mut headers: Vec<(String, String)> = Vec::new();
    let mut i: usize = 0;
    assert(hv.subrange(0, 0) =~= seq![]);
    assert(pairs_view(headers@) =~= seq![]);
    while i < req.headers.len()
        invariant
            i <= req.headers@.len(),
            hv == req@.headers,
            hv.len() == req.headers@.len(),
            interp(req@.url, vars@) == Ok::<Seq<char>, InterpFault>(interpolated_url@),
            resolve_headers(hv.subrange(0, i as int), vars@) == Ok::<
                Seq<(Seq<char>, Seq<char>)>,
                InterpFault,
            >(pairs_view(headers@)),
        decreases req.headers@.len() - i,
    {
        let h = &req.headers[i];
        assert(hv.subrange(0, i + 1).drop_last() =~= hv.subrange(0, i as int));
        assert(hv.subrange(0, i + 1).last() == h@);
        let key = match interpolate(h.key.as_str(), vars) {
            Ok(k) => k,
            Err(e) => {
                proof {
                    assert(resolve_headers(hv.subrange(0, i + 1), vars@)->Err_0 == interp(
                        h.key@,
                        vars@,
                    )->Err_0);
                    lemma_resolve_headers_err(hv, vars@, i + 1, hv.len() as int);
                    assert(hv.subrange(0, hv.len() as int) =~= hv);

                }
                return Err(e);
            },
        };
        let value = match interpolate(h.value.as_str(), vars) {
            Ok(v) => v,
            Err(e) => {
                proof {
                    assert(resolve_headers(hv.subrange(0, i + 1), vars@)->Err_0 == interp(
                        h.value@,
                        vars@,
                    )->Err_0);
                    lemma_resolve_headers_err(hv, vars@, i + 1, hv.len() as int);
                    assert(hv.subrange(0, hv.len() as int) =~= hv);

                }
                return Err(e);
            },
        };
        let ghost before = pairs_view(headers@);
        headers.push((key, value));
        assert(pairs_view(headers@) =~= before.push((key@, value@)));
        i = i + 1;
    }
    assert(hv.subrange(0, i as int) =~= hv);
    let body = match &req.body {
        Some(b) => match interpolate(b.as_str(), vars) {
            Ok(t) => Some(t),
            Err(e) => {
                return Err(e);
            },
        },
        None => None,
    };
    Ok(ResolvedRequest { method: req.method, url, headers, body })
}

/// Why no request could be selected.
pub enum SelectFault {
    /// A 1-based index outside `1..=total`, with the total.
    BadIndex(int, int),
    /// A method filter that names no method.
    BadFilter(Seq<char>),
}

pub open spec fn select_message(f: SelectFault) -> Seq<char> {
    match f {
        SelectFault::BadIndex(k, n) => "Invalid request index: "@ + decimal(k as nat)
            + ". The file has "@ + decimal(n as nat) + " request(s)."@,
        SelectFault::BadFilter(name) => "Invalid HTTP method filter: "@ + name,
    }
}

pub open spec fn methods_of(rs: Seq<RequestV>) -> Seq<HttpMethod> {
    rs.map_values(|r: RequestV| r.method)
}

/// The positions of `ps` whose request has method `m`, in order.
pub open spec fn keep_method(ps: Seq<int>, methods: Seq<HttpMethod>, m: HttpMethod) -> Seq<int>
    decreases ps.len(),
{
    if ps.len() == 0 {
        seq![]
    } else if methods[ps.last()] == m {
        keep_method(ps.drop_last(), methods, m).push(ps.last())
    } else {
        keep_method(ps.drop_last(), methods, m)
    }
}

/// The 0-based positions to run: the one that a 1-based index names, or all
/// of them; then only those with the filter's method.
pub open spec fn select(
    methods: Seq<HttpMethod>,
    index: Option<usize>,
    filter: Option<Seq<char>>,
) -> Result<Seq<int>, SelectFault> {
    let base = match index {
        Some(k) => if 1 <= k <= methods.len() {
            Ok(seq![k - 1])
        } else {
            Err(SelectFault::BadIndex(k as int, methods.len() as int))
        },
        None => Ok(Seq::new(methods.len(), |p: int| p)),
    };
    match base {
        Err(f) => Err(f),
        Ok(ps) => match filter {
            None => Ok(ps),
            Some(name) => match method_of(name) {
                None => Err(SelectFault::BadFilter(name)),
                Some(m) => Ok(keep_method(ps, methods, m)),
            },
        },
    }
}

/// A 1-based index of 0, or past the last request, is refused.
pub proof fn lemma_index_out_of_range(
    methods: Seq<HttpMethod>,
    k: usize,
    filter: Option<Seq<char>>,
)
    requires
        k == 0 || k > methods.len(),
    ensures
        select(methods, Some(k), filter) == Err::<Seq<int>, SelectFault>(
            SelectFault::BadIndex(k as int, methods.len() as int),
        ),
{
}

/// A filter that names no method is refused (once the index, if any, is in range).
pub proof fn lemma_unknown_filter(methods: Seq<HttpMethod>, index: Option<usize>, name: Seq<char>)
    requires
        method_of(name) is None,
        index matches Some(k) ==> 1 <= k <= methods.len(),
    ensures
        select(methods, index, Some(name)) == Err::<Seq<int>, SelectFault>(
            SelectFault::BadFilter(name),
        ),
{
}

proof fn lemma_keep_none(ps: Seq<int>, methods: Seq<HttpMethod>, m: HttpMethod)
    requires
        forall|q: int| 0 <= q < ps.len() ==> methods[ps[q]] != m,
    ensures
        keep_method(ps, methods, m) == Seq::<int>::empty(),
    decreases ps.len(),
{
    if ps.len() > 0 {
        lemma_keep_none(ps.drop_last(), methods, m);
    }
}

/// A valid filter that no request matches selects nothing, and is no error.
pub proof fn lemma_filter_without_match(
    methods: Seq<HttpMethod>,
    index: Option<usize>,
    name: Seq<char>,
)
    requires
        method_of(name) is Some,
        forall|p: int| 0 <= p < methods.len() ==> methods[p] != method_of(name)->0,
        index matches Some(k) ==> 1 <= k <= methods.len(),
    ensures
        select(methods, index, Some(name)) == Ok::<Seq<int>, SelectFault>(Seq::<int>::empty()),
{
    let m = method_of(name)->0;
    match index {
        Some(k) => lemma_keep_none(seq![k - 1], methods, m),
        None => lemma_keep_none(Seq::new(methods.len(), |p: int| p), methods, m),
    }
}

pub open spec fn positions_view(v: Seq<usize>) -> Seq<int> {
    v.map_values(|p: usize| p as int)
}

fn selection_message(head: &str, k: usize, mid: &str, n: usize, tail: &str) -> (r: String)
    ensures
        r@ == head@ + decimal(k as nat) + mid@ + decimal(n as nat) + tail@,
{
    let mut msg = chars_of(head);
    push_decimal(k, &mut msg);
    let m = chars_of(mid);
    push_all(&mut msg, m.as_slice());
    push_decimal(n, &mut msg);
    let t = chars_of(tail);
    push_all(&mut msg, t.as_slice());
    string_of(msg.as_slice())
}

/// Selects the requests to run: by 1-based index, or all; then by method.
pub fn select_requests(
    file: &ReqxFile,
    request_index: Option<usize>,
    method_filter: &Option<String>,
) -> (r: Result<Vec<usize>, String>)
    ensures
        match select(methods_of(file@.requests), request_index, opt_view(*method_filter)) {
            Ok(ps) => r is Ok && positions_view(r->Ok_0@) == ps,
            Err(f) => r is Err && r->Err_0@ == select_message(f),
        },
        r is Ok ==> forall|k: int|
            0 <= k < r->Ok_0@.len() ==> r->Ok_0@[k] < file.requests@.len(),
{
    let total = file.requests.len();
    let ghost methods = methods_of(file@.requests);
    let mut base: Vec<usize> = Vec::new();
    match request_index {
        Some(k) => {
            if k == 0 || k > total {
                return Err(
                    selection_message(
                        "Invalid request index: ",
                        k,
                        ". The file has ",
                        total,
                        " request(s).",
                    ),
                );
            }
            base.push(k - 1);
            assert(positions_view(base@) =~= seq![k - 1]);
            assert(base@[0] < total);
        },
        None => {
            let mut p: usize = 0;
            while p < total
                invariant
                    p <= total,
                    total == file.requests@.len(),
                    positions_view(base@) =~= Seq::new(p as nat, |q: int| q),
                    forall|k: int| 0 <= k < base@.len() ==> base@[k] < p,
                decreases total - p,
            {
                let ghost before = positions_view(base@);
                base.push(p);
                assert(positions_view(base@) =~= before.push(p as int));
                p = p + 1;
            }
        },
    }
    assert(forall|k: int| 0 <= k < base@.len() ==> base@[k] < total);
    match method_filter {
        None => Ok(base),
        Some(name) => match HttpMethod::from_name(name.as_str()) {
            None => {
                let mut msg = chars_of("Invalid HTTP method filter: ");
                let n = chars_of(name.as_str());
                push_all(&mut msg, n.as_slice());
                Err(string_of(msg.as_slice()))
            },
            Some(m) => {
                let ghost bv = positions_view(base@);
                let mut kept: Vec<usize> = Vec::new();
                let mut q: usize = 0;
                assert(bv.subrange(0, 0) =~= seq![]);
                assert(positions_view(kept@) =~= seq![]);
                while q < base.len()
                    invariant
                        q <= base@.len(),
                        bv == positions_view(base@),
                        total == file.requests@.len(),
                        methods == methods_of(file@.requests),
                        forall|k: int| 0 <= k < base@.len() ==> base@[k] < total,
                        forall|k: int| 0 <= k < kept@.len() ==> kept@[k] < total,
                        positions_view(kept@) == keep_method(bv.subrange(0, q as int), methods, m),
                    decreases base@.len() - q,
                {
                    let p = base[q];
                    assert(bv.subrange(0, q + 1).drop_last() =~= bv.subrange(0, q as int));
                    assert(methods[p as int] == file.requests@[p as int].method);
                    if file.requests[p].method == m {
                        let ghost before = positions_view(kept@);
                        kept.push(p);
                        assert(positions_view(kept@) =~= before.push(p as int));
                    }
                    q = q + 1;
                }
                assert(bv.subrange(0, q as int) =~= bv);
                Ok(kept)
            },
        },
    }
}

/// One request as it ran: its 0-based position, comment, what was sent, and
/// the response (none on a dry run).
#[derive(Debug, Clone)]
pub struct RequestRun {
    pub position: usize,
    pub comment: Option<String>,
    pub request: ResolvedRequest,
    pub response: Option<HttpResponse>,
}

/// The outcome of a run, for presentation.
#[derive(Debug, Clone)]
pub struct ExecutionReport {
    pub total: usize,
    pub verbose: bool,
    pub dry_run: bool,
    pub method_filter: Option<String>,
    pub runs: Vec<RequestRun>,
}

/// The selected requests resolved in order; the first failure wins.
pub open spec fn resolve_all(doc: ReqxFileV, env: Map<Seq<char>, Seq<char>>, ps: Seq<int>) -> Result<
    Seq<ResolvedV>,
    InterpFault,
>
    decreases ps.len(),
{
    if ps.len() == 0 {
        Ok(seq![])
    } else {
        match resolve_all(doc, env, ps.drop_last()) {
            Err(f) => Err(f),
            Ok(prev) => match resolve(doc.requests[ps.last()], env) {
                Err(f) => Err(f),
                Ok(rv) => Ok(prev.push(rv)),
            },
        }
    }
}

proof fn lemma_resolve_all_err(doc: ReqxFileV, env: Map<Seq<char>, Seq<char>>, ps: Seq<int>, k: int, m: int)
    requires
        0 <= k <= m <= ps.len(),
        resolve_all(doc, env, ps.subrange(0, k)) is Err,
    ensures
        resolve_all(doc, env, ps.subrange(0, m)) == resolve_all(doc, env, ps.subrange(0, k)),
    decreases m - k,
{
    if m > k {
        lemma_resolve_all_err(doc, env, ps, k, m - 1);
        assert(ps.subrange(0, m).drop_last() =~= ps.subrange(0, m - 1));
    }
}

/// The runs of a report agree with the selection and the resolved requests.
pub open spec fn runs_match(
    runs: Seq<RequestRun>,
    doc: ReqxFileV,
    ps: Seq<int>,
    rs: Seq<ResolvedV>,
    dry_run: bool,
) -> bool {
    &&& runs.len() == ps.len()
    &&& rs.len() == ps.len()
    &&& forall|j: int|
        0 <= j < runs.len() ==> {
            &&& #[trigger] runs[j].position == ps[j]
            &&& runs[j].request@ == rs[j]
            &&& opt_view(runs[j].comment) == doc.requests[ps[j]].comment
            &&& (runs[j].response is Some) == !dry_run
        }
}

proof fn lemma_runs_match_intro(
    runs: Seq<RequestRun>,
    doc: ReqxFileV,
    ps: Seq<int>,
    rs: Seq<ResolvedV>,
    dry_run: bool,
)
    requires
        runs.len() == ps.len(),
        rs.len() == ps.len(),
        forall|j: int|
            0 <= j < runs.len() ==> {
                &&& #[trigger] runs[j].position == ps[j]
                &&& runs[j].request@ == rs[j]
                &&& opt_view(runs[j].comment) == doc.requests[ps[j]].comment
                &&& (runs[j].response is Some) == !dry_run
            },
    ensures
        runs_match(runs, doc, ps, rs, dry_run),
{
}

/// Runs the selected requests of `file` in order through `client`, after
/// resolving their references; stops at the first failure. On a dry run the
/// transport is not called. `verbose` is kept in the report for presentation.
pub fn execute<C: HttpClient>(
    client: &C,
    file: &ReqxFile,
    verbose: bool,
    dry_run: bool,
    request_index: Option<usize>,
    method_filter: Option<String>,
) -> (r: Result<ExecutionReport, String>)
    ensures
        ({
            let sel = select(methods_of(file@.requests), request_index, opt_view(method_filter));
            let env = env_of(file@.variables);
            &&& sel is Err ==> r is Err && r->Err_0@ == select_message(sel->Err_0)
            &&& sel is Ok && resolve_all(file@, env, sel->Ok_0) is Err && dry_run ==> r is Err
                && r->Err_0@ == interp_message(resolve_all(file@, env, sel->Ok_0)->Err_0)
            &&& sel is Ok && resolve_all(file@, env, sel->Ok_0) is Ok && dry_run ==> r is Ok
            &&& sel is Ok && sel->Ok_0.len() > 0 && resolve(file@.requests[sel->Ok_0[0]], env) is Err
                ==> r is Err && r->Err_0@ == interp_message(
                resolve(file@.requests[sel->Ok_0[0]], env)->Err_0,
            )
            &&& sel is Ok && sel->Ok_0.len() == 0 ==> r is Ok && r->Ok_0.runs@.len() == 0
            &&& r is Ok ==> {
                &&& sel is Ok
                &&& resolve_all(file@, env, sel->Ok_0) is Ok
                &&& runs_match(
                    r->Ok_0.runs@,
                    file@,
                    sel->Ok_0,
                    resolve_all(file@, env, sel->Ok_0)->Ok_0,
                    dry_run,
                )
                &&& r->Ok_0.total == file.requests@.len()
                &&& r->Ok_0.verbose == verbose
                &&& r->Ok_0.dry_run == dry_run
                &&& opt_view(r->Ok_0.method_filter) == opt_view(method_filter)
            }
        }),
{
    let env = build_env(&file.variables);
    let sel = match select_requests(file, request_index, &method_filter) {
        Ok(s) => s,
        Err(e) => {
            return Err(e);
        },
    };
    let ghost ps = positions_view(sel@);
    let ghost doc = file@;
    let mut runs: Vec<RequestRun> = Vec::new();
    let mut k: usize = 0;
    assert(ps.subrange(0, 0) =~= seq![]);
    while k < sel.len()
        invariant
            k <= sel@.len(),
            ps == positions_view(sel@),
            ps.len() == sel@.len(),
            select(methods_of(file@.requests), request_index, opt_view(method_filter)) == Ok::<
                Seq<int>,
                SelectFault,
            >(ps),
            doc == file@,
            env@ == env_of(doc.variables),
            forall|j: int| 0 <= j < sel@.len() ==> sel@[j] < file.requests@.len(),
            resolve_all(doc, env@, ps.subrange(0, k as int)) is Ok,
            k > 0 ==> resolve(doc.requests[ps[0]], env@) is Ok,
            runs_match(
                runs@,
                doc,
                ps.subrange(0, k as int),
                resolve_all(doc, env@, ps.subrange(0, k as int))->Ok_0,
                dry_run,
            ),
        decreases sel@.len() - k,
    {
        let p = sel[k];
        let req = &file.requests[p];
        assert(ps.subrange(0, k + 1).drop_last() =~= ps.subrange(0, k as int));
        assert(ps.subrange(0, k + 1).last() == p as int);
        assert(doc.requests[p as int] == req@);
        let resolved = match resolve_request(req, &env) {
            Ok(x) => x,
            Err(e) => {
                proof {
                    assert(ps[k as int] == p as int);
                    assert(resolve_all(doc, env@, ps.subrange(0, k + 1))->Err_0 == resolve(
                        req@,
                        env@,
                    )->Err_0);
                    lemma_resolve_all_err(doc, env@, ps, k + 1, ps.len() as int);
                    assert(ps.subrange(0, ps.len() as int) =~= ps);
                }
                return Err(e);
            },
        };
        let response = if dry_run {
            None
        } else {
            let body: Option<&str> = match &resolved.body {
                Some(b) => Some(b.as_str()),
                None => None,
            };
            match client.execute(
                &resolved.method,
                resolved.url.as_str(),
                resolved.headers.as_slice(),
                body,
            ) {
                Ok(resp) => Some(resp),
                Err(e) => {
                    return Err(e);
                },
            }
        };
        let comment = match &req.comment {
            Some(c) => Some(c.clone()),
            None => None,
        };
        let ghost prev = resolve_all(doc, env@, ps.subrange(0, k as int))->Ok_0;
        let ghost old_runs = runs@;
        assert(opt_view(comment) == req@.comment);
        assert((response is Some) == !dry_run);
        runs.push(RequestRun { position: p, comment, request: resolved, response });
        assert(resolve_all(doc, env@, ps.subrange(0, k + 1))->Ok_0 == prev.push(resolved@));
        assert forall|j: int| 0 <= j < runs@.len() implies {
            &&& #[trigger] runs@[j].position == ps.subrange(0, k + 1)[j]
            &&& runs@[j].request@ == prev.push(resolved@)[j]
            &&& opt_view(runs@[j].comment) == doc.requests[ps.subrange(0, k + 1)[j]].comment
            &&& (runs@[j].response is Some) == !dry_run
        } by {
            if j < k {
                assert(runs@[j] == old_runs[j]);
                assert(old_runs[j].position == ps.subrange(0, k as int)[j]);
                assert(ps.subrange(0, k + 1)[j] == ps.subrange(0, k as int)[j]);
                assert(prev.push(resolved@)[j] == prev[j]);
            } else {
                assert(runs@[j].position == p);
                assert(ps.subrange(0, k + 1)[j] == p as int);
                assert(prev.push(resolved@)[j] == resolved@);
            }
        }
        assert(runs@.len() == k + 1);
        assert(prev.len() == k);
        proof {
            lemma_runs_match_intro(runs@, doc, ps.subrange(0, k + 1), prev.push(resolved@), dry_run);
        }
        k = k + 1;
    }
    assert(ps.subrange(0, k as int) =~= ps);
    Ok(ExecutionReport { total: file.requests.len(), verbose, dry_run, method_filter, runs })
}

} // verus!
