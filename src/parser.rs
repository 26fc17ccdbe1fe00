//! The parser: turns the token sequence into a document of variables and
//! request blocks.

use vstd::prelude::*;

use crate::ast::{
    headers_view, method_of, opt_view, requests_view, variables_view, Header, HttpMethod, Request, RequestV, ReqxFile, ReqxFileV,
    Variable, VariableV,
};
use crate::lexer::{toks_view, LocatedToken, Token, TokenV};
use crate::text::{chars_of, decimal, push_all, push_decimal, string_of};

verus! {

/// Why a token sequence is not a document.
pub enum ParseFault {
    UnexpectedEnd,
    UnsupportedMethod(int, Seq<char>),
    MissingUrl(int),
    ExpectedMethodOrUrl(int),
}

pub open spec fn parse_message(f: ParseFault) -> Seq<char> {
    match f {
        ParseFault::UnexpectedEnd => "Unexpected end of input: expected HTTP method or URL"@,
        ParseFault::UnsupportedMethod(line, m) => "Line "@ + decimal(line as nat)
            + ": unsupported HTTP method: "@ + m,
        ParseFault::MissingUrl(line) => "Line "@ + decimal(line as nat)
            + ": expected URL after method"@,
        ParseFault::ExpectedMethodOrUrl(line) => "Line "@ + decimal(line as nat)
            + ": expected HTTP method or URL"@,
    }
}

/// Index of the first token at or after `i` that is not a blank line, or `toks.len()`.
pub open spec fn next_non_blank(toks: Seq<(TokenV, int)>, i: int) -> int
    decreases toks.len() - i,
{
    if i >= toks.len() {
        toks.len() as int
    } else if toks[i].0 is BlankLine {
        next_non_blank(toks, i + 1)
    } else {
        i
    }
}

/// The leading region from `i`: the variables found (after `vars`) and where it ends.
/// A comment whose next non-blank token is a method stays for the first request.
pub open spec fn leading(toks: Seq<(TokenV, int)>, i: int, vars: Seq<VariableV>) -> (
    Seq<VariableV>,
    int,
)
    decreases toks.len() - i,
{
    if i < 0 || i >= toks.len() {
        (vars, i)
    } else {
        match toks[i].0 {
            TokenV::Variable(name, value) => leading(
                toks,
                i + 1,
                vars.push(VariableV { name, value, line: toks[i].1 }),
            ),
            TokenV::BlankLine => leading(toks, i + 1, vars),
            TokenV::Comment(_) => {
                let k = next_non_blank(toks, i + 1);
                if k < toks.len() && toks[k].0 is Method {
                    (vars, i)
                } else {
                    leading(toks, i + 1, vars)
                }
            },
            TokenV::Separator => (vars, i + 1),
            _ => (vars, i),
        }
    }
}

/// The comments before a request line: the last one (or `last`), and where the run ends.
pub open spec fn comment_run(toks: Seq<(TokenV, int)>, i: int, last: Option<Seq<char>>) -> (
    Option<Seq<char>>,
    int,
)
    decreases toks.len() - i,
{
    if i < 0 || i >= toks.len() {
        (last, i)
    } else {
        match toks[i].0 {
            TokenV::Comment(text) => comment_run(toks, i + 1, Some(text)),
            TokenV::BlankLine => comment_run(toks, i + 1, last),
            _ => (last, i),
        }
    }
}

/// The request line at `i`: explicit method (if any), URL, its line, and the next index.
pub open spec fn method_and_url(toks: Seq<(TokenV, int)>, i: int) -> Result<
    (Option<HttpMethod>, Seq<char>, int, int),
    ParseFault,
> {
    if i < 0 || i >= toks.len() {
        Err(ParseFault::UnexpectedEnd)
    } else {
        let line = toks[i].1;
        match toks[i].0 {
            TokenV::Method(m) => match method_of(m) {
                None => Err(ParseFault::UnsupportedMethod(line, m)),
                Some(method) => if i + 1 < toks.len() && toks[i + 1].0 is Url {
                    Ok((Some(method), toks[i + 1].0->Url_0, line, i + 2))
                } else {
                    Err(ParseFault::MissingUrl(line))
                },
            },
            TokenV::Url(u) => Ok((None, u, line, i + 1)),
            _ => Err(ParseFault::ExpectedMethodOrUrl(line)),
        }
    }
}

/// The headers from `i` (after `hs`) and where the run ends. A blank line ends the run
/// and is consumed; any other token ends it and stays.
pub open spec fn header_run(
    toks: Seq<(TokenV, int)>,
    i: int,
    hs: Seq<(Seq<char>, Seq<char>)>,
) -> (Seq<(Seq<char>, Seq<char>)>, int)
    decreases toks.len() - i,
{
    if i < 0 || i >= toks.len() {
        (hs, i)
    } else {
        match toks[i].0 {
            TokenV::Header(k, v) => header_run(toks, i + 1, hs.push((k, v))),
            TokenV::BlankLine => (hs, i + 1),
            _ => (hs, i),
        }
    }
}

/// The body lines from `i` (after `ls`) and where they end. A blank line followed by a
/// body line is an empty line of the body; any other token ends the body.
pub open spec fn body_run(toks: Seq<(TokenV, int)>, i: int, ls: Seq<Seq<char>>) -> (
    Seq<Seq<char>>,
    int,
)
    decreases toks.len() - i,
{
    if i < 0 || i >= toks.len() {
        (ls, i)
    } else {
        match toks[i].0 {
            TokenV::BodyLine(l) => body_run(toks, i + 1, ls.push(l)),
            TokenV::BlankLine => if i + 1 < toks.len() && toks[i + 1].0 is BodyLine {
                body_run(toks, i + 1, ls.push(seq![]))
            } else {
                (ls, i)
            },
            _ => (ls, i),
        }
    }
}

/// The lines joined with `\n` between them.
pub open spec fn join_lines(ls: Seq<Seq<char>>) -> Seq<char>
    decreases ls.len(),
{
    if ls.len() == 0 {
        seq![]
    } else if ls.len() == 1 {
        ls[0]
    } else {
        join_lines(ls.drop_last()) + seq!['\n'] + ls.last()
    }
}

/// A request without an explicit method is a POST when it has a body, a GET otherwise.
pub open spec fn infer_method(explicit: Option<HttpMethod>, body: Option<Seq<char>>) -> HttpMethod {
    match explicit {
        Some(m) => m,
        None => if body is Some {
            HttpMethod::Post
        } else {
            HttpMethod::Get
        },
    }
}

/// The request block at `i` and the index after it.
pub open spec fn request_at(toks: Seq<(TokenV, int)>, i: int) -> Result<(RequestV, int), ParseFault> {
    let (comment, i1) = comment_run(toks, i, None);
    match method_and_url(toks, i1) {
        Err(f) => Err(f),
        Ok((explicit, url, line, i2)) => {
            let (headers, i3) = header_run(toks, i2, seq![]);
            let (lines, i4) = body_run(toks, i3, seq![]);
            let body = if lines.len() == 0 {
                None
            } else {
                Some(join_lines(lines))
            };
            Ok(
                (
                    RequestV {
                        comment,
                        method: infer_method(explicit, body),
                        url,
                        headers,
                        body,
                        line,
                    },
                    i4,
                ),
            )
        },
    }
}

proof fn lemma_comment_run(toks: Seq<(TokenV, int)>, i: int, last: Option<Seq<char>>)
    requires
        0 <= i <= toks.len(),
    ensures
        i <= comment_run(toks, i, last).1 <= toks.len(),
    decreases toks.len() - i,
{
    if i < toks.len() {
        match toks[i].0 {
            TokenV::Comment(text) => lemma_comment_run(toks, i + 1, Some(text)),
            TokenV::BlankLine => lemma_comment_run(toks, i + 1, last),
            _ => {},
        }
    }
}

proof fn lemma_header_run(toks: Seq<(TokenV, int)>, i: int, hs: Seq<(Seq<char>, Seq<char>)>)
    requires
        0 <= i <= toks.len(),
    ensures
        i <= header_run(toks, i, hs).1 <= toks.len(),
    decreases toks.len() - i,
{
    if i < toks.len() {
        if let TokenV::Header(k, v) = toks[i].0 {
            lemma_header_run(toks, i + 1, hs.push((k, v)));
        }
    }
}

proof fn lemma_body_run(toks: Seq<(TokenV, int)>, i: int, ls: Seq<Seq<char>>)
    requires
        0 <= i <= toks.len(),
    ensures
        i <= body_run(toks, i, ls).1 <= toks.len(),
    decreases toks.len() - i,
{
    if i < toks.len() {
        match toks[i].0 {
            TokenV::BodyLine(l) => lemma_body_run(toks, i + 1, ls.push(l)),
            TokenV::BlankLine => if i + 1 < toks.len() && toks[i + 1].0 is BodyLine {
                lemma_body_run(toks, i + 1, ls.push(seq![]));
            },
            _ => {},
        }
    }
}

/// A request block always consumes at least one token.
pub proof fn lemma_request_progress(toks: Seq<(TokenV, int)>, i: int)
    requires
        0 <= i <= toks.len(),
        request_at(toks, i) is Ok,
    ensures
        i < request_at(toks, i)->Ok_0.1 <= toks.len(),
{
    lemma_comment_run(toks, i, None);
    let i1 = comment_run(toks, i, None).1;
    let i2 = method_and_url(toks, i1)->Ok_0.3;
    lemma_header_run(toks, i2, seq![]);
    let i3 = header_run(toks, i2, seq![]).1;
    lemma_body_run(toks, i3, seq![]);
}

/// The request blocks from `i` on, with the variables met between them; `vars` and
/// `reqs` hold what came before.
pub open spec fn blocks(
    toks: Seq<(TokenV, int)>,
    i: int,
    vars: Seq<VariableV>,
    reqs: Seq<RequestV>,
) -> Result<ReqxFileV, ParseFault>
    decreases toks.len() - i,
    via blocks_decreases
{
    if i < 0 || i >= toks.len() {
        Ok(ReqxFileV { variables: vars, requests: reqs })
    } else {
        match toks[i].0 {
            TokenV::BlankLine => blocks(toks, i + 1, vars, reqs),
            TokenV::Separator => blocks(toks, i + 1, vars, reqs),
            TokenV::Variable(name, value) => blocks(
                toks,
                i + 1,
                vars.push(VariableV { name, value, line: toks[i].1 }),
                reqs,
            ),
            _ => match request_at(toks, i) {
                Err(f) => Err(f),
                Ok((r, j)) => blocks(toks, j, vars, reqs.push(r)),
            },
        }
    }
}

#[via_fn]
proof fn blocks_decreases(
    toks: Seq<(TokenV, int)>,
    i: int,
    vars: Seq<VariableV>,
    reqs: Seq<RequestV>,
) {
    if 0 <= i < toks.len() && request_at(toks, i) is Ok {
        lemma_request_progress(toks, i);
    }
}

/// What `parse` gives for a token sequence.
pub open spec fn parse_spec(toks: Seq<(TokenV, int)>) -> Result<ReqxFileV, ParseFault> {
    let (vars, i) = leading(toks, 0, seq![]);
    blocks(toks, i, vars, seq![])
}

/// A request whose request line has no method is a GET when it has no body,
/// and a POST when it has one.
pub proof fn lemma_implicit_method(toks: Seq<(TokenV, int)>, i: int)
    requires
        request_at(toks, i) is Ok,
        method_and_url(toks, comment_run(toks, i, None).1)->Ok_0.0 is None,
    ensures
        ({
            let req = request_at(toks, i)->Ok_0.0;
            &&& req.body is None ==> req.method == HttpMethod::Get
            &&& req.body is Some ==> req.method == HttpMethod::Post
        }),
{
}

fn line_message(line: usize, tail: &str, extra: &str) -> (r: String)
    ensures
        r@ == "Line "@ + decimal(line as nat) + tail@ + extra@,
{
    let mut msg = chars_of("Line ");
    push_decimal(line, &mut msg);
    let t = chars_of(tail);
    push_all(&mut msg, t.as_slice());
    let x = chars_of(extra);
    push_all(&mut msg, x.as_slice());
    string_of(msg.as_slice())
}

/// The comments before a request line; the last one is the request's comment.
fn parse_comment(tokens: &Vec<LocatedToken>, start: usize) -> (r: (Option<String>, usize))
    requires
        start <= tokens@.len(),
    ensures
        (opt_view(r.0), r.1 as int) == comment_run(toks_view(tokens@), start as int, None),
{
    let ghost tv = toks_view(tokens@);
    let mut comment: Option<String> = None;
    let mut i = start;
    loop
        invariant
            start <= i <= tokens@.len(),
            tv == toks_view(tokens@),
            comment_run(tv, start as int, None) == comment_run(tv, i as int, opt_view(comment)),
        ensures
            i <= tokens@.len(),
            comment_run(tv, start as int, None) == (opt_view(comment), i as int),
        decreases tokens@.len() - i,
    {
        if i >= tokens.len() {
            break;
        }
        match &tokens[i].token {
            Token::Comment(text) => {
                comment = Some(text.clone());
            },
            Token::BlankLine => {},
            _ => {
                break;
            },
        }
        i = i + 1;
    }
    (comment, i)
}

/// The request line: `METHOD` followed by a URL, or a URL alone.
fn parse_method_and_url(tokens: &Vec<LocatedToken>, i: usize) -> (r: Result<
    (Option<HttpMethod>, String, usize, usize),
    String,
>)
    ensures
        match method_and_url(toks_view(tokens@), i as int) {
            Ok((m, url, line, next)) => r is Ok && r->Ok_0.0 == m && r->Ok_0.1@ == url
                && r->Ok_0.2 == line && r->Ok_0.3 == next,
            Err(f) => r is Err && r->Err_0@ == parse_message(f),
        },
{
    if i >= tokens.len() {
        return Err(string_of(chars_of("Unexpected end of input: expected HTTP method or URL").as_slice()));
    }
    let line = tokens[i].line;
    match &tokens[i].token {
        Token::Method(m) => {
            let name = chars_of(m.as_str());
            match HttpMethod::from_chars(name.as_slice()) {
                None => Err(line_message(line, ": unsupported HTTP method: ", m.as_str())),
                Some(method) => {
                    if i + 1 < tokens.len() {
                        match &tokens[i + 1].token {
                            Token::Url(u) => {
                                return Ok((Some(method), u.clone(), line, i + 2));
                            },
                            _ => {},
                        }
                    }
                    let r = line_message(line, ": expected URL after method", "");
                    proof {
                        reveal_strlit("");
                        assert(r@ =~= "Line "@ + decimal(line as nat) + ": expected URL after method"@);
                    }
                    Err(r)
                },
            }
        },
        Token::Url(u) => Ok((None, u.clone(), line, i + 1)),
        _ => {
            let r = line_message(line, ": expected HTTP method or URL", "");
            proof {
                reveal_strlit("");
                assert(r@ =~= "Line "@ + decimal(line as nat) + ": expected HTTP method or URL"@);
            }
            Err(r)
        },
    }
}

/// The header lines after the request line.
fn parse_headers(tokens: &Vec<LocatedToken>, start: usize) -> (r: (Vec<Header>, usize))
    requires
        start <= tokens@.len(),
    ensures
        (headers_view(r.0@), r.1 as int) == header_run(toks_view(tokens@), start as int, seq![]),
{
    let ghost tv = toks_view(tokens@);
    let mut headers: Vec<Header> = Vec::new();
    let mut i = start;
    assert(headers_view(headers@) =~= seq![]);
    loop
        invariant_except_break
            header_run(tv, start as int, seq![]) == header_run(tv, i as int, headers_view(headers@)),
        invariant
            start <= i <= tokens@.len(),
            tv == toks_view(tokens@),
        ensures
            header_run(tv, start as int, seq![]) == (headers_view(headers@), i as int),
        decreases tokens@.len() - i,
    {
        if i >= tokens.len() {
            break;
        }
        match &tokens[i].token {
            Token::Header { key, value } => {
                let ghost before = headers_view(headers@);
                headers.push(Header { key: key.clone(), value: value.clone() });
                assert(headers_view(headers@) =~= before.push((key@, value@)));
            },
            Token::BlankLine => {
                i = i + 1;
                break;
            },
            _ => {
                break;
            },
        }
        i = i + 1;
    }
    (headers, i)
}

/// The body lines, joined with `\n`; `None` when there are none.
fn parse_body(tokens: &Vec<LocatedToken>, start: usize) -> (r: (Option<String>, usize))
    requires
        start <= tokens@.len(),
    ensures
        ({
            let (ls, j) = body_run(toks_view(tokens@), start as int, seq![]);
            &&& r.1 == j
            &&& opt_view(r.0) == if ls.len() == 0 {
                None
            } else {
                Some(join_lines(ls))
            }
        }),
{
    let ghost tv = toks_view(tokens@);
    let ghost mut ls: Seq<Seq<char>> = seq![];
    let mut out: Vec<char> = Vec::new();
    let mut any = false;
    let mut i = start;
    loop
        invariant
            start <= i <= tokens@.len(),
            tv == toks_view(tokens@),
            body_run(tv, start as int, seq![]) == body_run(tv, i as int, ls),
            out@ == join_lines(ls),
            any == (ls.len() > 0),
        ensures
            body_run(tv, start as int, seq![]) == (ls, i as int),
            out@ == join_lines(ls),
            any == (ls.len() > 0),
        decreases tokens@.len() - i,
    {
        if i >= tokens.len() {
            break;
        }
        let ghost line: Seq<char>;
        match &tokens[i].token {
            Token::BodyLine(l) => {
                if any {
                    out.push('\n');
                }
                let cs = chars_of(l.as_str());
                push_all(&mut out, cs.as_slice());
                proof {
                    line = l@;
                }
            },
            Token::BlankLine => {
                if i + 1 < tokens.len() && matches!(tokens[i + 1].token, Token::BodyLine(_)) {
                    if any {
                        out.push('\n');
                    }
                    proof {
                        line = seq![];
                    }
                } else {
                    break;
                }
            },
            _ => {
                break;
            },
        }
        proof {
            let next = ls.push(line);
            assert(next.drop_last() =~= ls);
            assert(out@ =~= join_lines(next));
            ls = next;
        }
        any = true;
        i = i + 1;
    }
    if any {
        (Some(string_of(out.as_slice())), i)
    } else {
        (None, i)
    }
}

/// One request block: comments, request line, headers, body.
fn parse_request(tokens: &Vec<LocatedToken>, start: usize) -> (r: Result<(Request, usize), String>)
    requires
        start <= tokens@.len(),
    ensures
        match request_at(toks_view(tokens@), start as int) {
            Ok((req, next)) => r is Ok && r->Ok_0.0@ == req && r->Ok_0.1 == next,
            Err(f) => r is Err && r->Err_0@ == parse_message(f),
        },
{
    let (comment, i1) = parse_comment(tokens, start);
    let (explicit, url, line, i2) = match parse_method_and_url(tokens, i1) {
        Ok(x) => x,
        Err(e) => {
            return Err(e);
        },
    };
    proof {
        lemma_comment_run(toks_view(tokens@), start as int, None);
    }
    let (headers, i3) = parse_headers(tokens, i2);
    proof {
        lemma_header_run(toks_view(tokens@), i2 as int, seq![]);
    }
    let (body, i4) = parse_body(tokens, i3);
    let method = match explicit {
        Some(m) => m,
        None => if body.is_some() {
            HttpMethod::Post
        } else {
            HttpMethod::Get
        },
    };
    Ok((Request { comment, method, url, headers, body, line }, i4))
}

/// Parses a token sequence into a document.
pub fn parse(tokens: Vec<LocatedToken>) -> (r: Result<ReqxFile, String>)
    ensures
        match parse_spec(toks_view(tokens@)) {
            Ok(doc) => r is Ok && r->Ok_0@ == doc,
            Err(f) => r is Err && r->Err_0@ == parse_message(f),
        },
{
    let ghost tv = toks_view(tokens@);
    let mut variables: Vec<Variable> = Vec::new();
    let mut requests: Vec<Request> = Vec::new();
    let mut i: usize = 0;
    assert(variables_view(variables@) =~= seq![]);
    assert(requests_view(requests@) =~= seq![]);
    loop
        invariant_except_break
            leading(tv, 0, seq![]) == leading(tv, i as int, variables_view(variables@)),
        invariant
            i <= tokens@.len(),
            tv == toks_view(tokens@),
        ensures
            i <= tokens@.len(),
            leading(tv, 0, seq![]) == (variables_view(variables@), i as int),
        decreases tokens@.len() - i,
    {
        if i >= tokens.len() {
            break;
        }
        match &tokens[i].token {
            Token::Variable { name, value } => {
                let ghost before = variables_view(variables@);
                let v = Variable { name: name.clone(), value: value.clone(), line: tokens[i].line };
                variables.push(v);
                assert(variables_view(variables@) =~= before.push(v@));
            },
            Token::BlankLine => {},
            Token::Comment(_) => {
                let mut k = i + 1;
                while k < tokens.len() && matches!(tokens[k].token, Token::BlankLine)
                    invariant
                        i < k <= tokens@.len(),
                        tv == toks_view(tokens@),
                        next_non_blank(tv, i + 1) == next_non_blank(tv, k as int),
                    decreases tokens@.len() - k,
                {
                    k = k + 1;
                }
                if k < tokens.len() && matches!(tokens[k].token, Token::Method(_)) {
                    break;
                }
            },
            Token::Separator => {
                i = i + 1;
                break;
            },
            _ => {
                break;
            },
        }
        i = i + 1;
    }
    loop
        invariant
            i <= tokens@.len(),
            tv == toks_view(tokens@),
            parse_spec(tv) == blocks(
                tv,
                i as int,
                variables_view(variables@),
                requests_view(requests@),
            ),
        ensures
            parse_spec(tv) == Ok::<ReqxFileV, ParseFault>(
                ReqxFileV {
                    variables: variables_view(variables@),
                    requests: requests_view(requests@),
                },
            ),
        decreases tokens@.len() - i,
    {
        if i >= tokens.len() {
            break;
        }
        match &tokens[i].token {
            Token::BlankLine => {
                i = i + 1;
            },
            Token::Separator => {
                i = i + 1;
            },
            Token::Variable { name, value } => {
                let ghost before = variables_view(variables@);
                let v = Variable { name: name.clone(), value: value.clone(), line: tokens[i].line };
                variables.push(v);
                assert(variables_view(variables@) =~= before.push(v@));
                i = i + 1;
            },
            _ => {
                match parse_request(&tokens, i) {
                    Ok((req, j)) => {
                        proof {
                            lemma_request_progress(tv, i as int);
                        }
                        let ghost before = requests_view(requests@);
                        requests.push(req);
                        assert(requests_view(requests@) =~= before.push(req@));
                        i = j;
                    },
                    Err(e) => {
                        return Err(e);
                    },
                }
            },
        }
    }
    Ok(ReqxFile { variables, requests })
}

} // verus!
