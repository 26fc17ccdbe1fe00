//! How the request lines of a text relate to the requests that parsing it
//! yields: the parser turns each request line into exactly one request.

use vstd::prelude::*;

use crate::ast::{method_of, HttpMethod, RequestV, VariableV};
use crate::lexer::TokenV;
use crate::parser::{
    next_non_blank, blocks, body_run, comment_run, header_run, leading, lemma_request_progress, method_and_url,
    parse_spec, request_at,
};

verus! {

/// Token `j` starts a request line: a method, or a URL that does not follow a method.
pub open spec fn is_head(ts: Seq<(TokenV, int)>, j: int) -> bool {
    &&& 0 <= j < ts.len()
    &&& (ts[j].0 is Method || (ts[j].0 is Url && !(j > 0 && ts[j - 1].0 is Method)))
}

/// The number of request lines among tokens `a..b`.
pub open spec fn heads_between(ts: Seq<(TokenV, int)>, a: int, b: int) -> nat
    decreases b - a,
{
    if b <= a {
        0
    } else {
        heads_between(ts, a, b - 1) + if is_head(ts, b - 1) {
            1nat
        } else {
            0nat
        }
    }
}

/// The number of request lines of a token sequence.
pub open spec fn request_lines(ts: Seq<(TokenV, int)>) -> nat {
    heads_between(ts, 0, ts.len() as int)
}

/// The indexes of the request lines among tokens `a..b`, in order.
pub open spec fn head_positions(ts: Seq<(TokenV, int)>, a: int, b: int) -> Seq<int>
    decreases b - a,
{
    if b <= a {
        seq![]
    } else if is_head(ts, b - 1) {
        head_positions(ts, a, b - 1).push(b - 1)
    } else {
        head_positions(ts, a, b - 1)
    }
}

/// Request `r` comes from the request line at token `h`: same source line,
/// same URL, and the method written there, or else POST with a body and GET
/// without one.
pub open spec fn from_request_line(r: RequestV, ts: Seq<(TokenV, int)>, h: int) -> bool {
    &&& r.line == ts[h].1
    &&& match ts[h].0 {
        TokenV::Method(m) => r.method == method_of(m)->0 && r.url == ts[h + 1].0->Url_0,
        TokenV::Url(u) => r.url == u && r.method == if r.body is Some {
            HttpMethod::Post
        } else {
            HttpMethod::Get
        },
        _ => false,
    }
}

/// Index of the last token before `h` that is not a blank line, or -1.
pub open spec fn prev_non_blank(ts: Seq<(TokenV, int)>, h: int) -> int
    decreases h,
{
    if h <= 0 || h > ts.len() {
        -1
    } else if ts[h - 1].0 is BlankLine {
        prev_non_blank(ts, h - 1)
    } else {
        h - 1
    }
}

/// The request line at `h` has a comment line as the last line before it that
/// is not blank, and either the request line names a method or a separator
/// comes before that comment (a comment before a bare URL ahead of any
/// separator belongs to the leading region).
pub open spec fn claims_comment(ts: Seq<(TokenV, int)>, h: int) -> bool {
    let p = prev_non_blank(ts, h);
    &&& 0 <= p
    &&& ts[p].0 is Comment
    &&& (ts[h].0 is Method || exists|s: int| 0 <= s < p && ts[s].0 is Separator)
}

/// Token `p` is the comment `c`, and only blank lines stand between it and token `h`.
pub open spec fn nearest_comment(ts: Seq<(TokenV, int)>, h: int, c: Seq<char>) -> bool {
    exists|p: int|
        0 <= p < h && ts[p].0 == TokenV::Comment(c) && forall|q: int|
            p < q < h ==> (#[trigger] ts[q].0) is BlankLine
}

proof fn lemma_heads_split(ts: Seq<(TokenV, int)>, a: int, b: int, c: int)
    requires
        a <= b <= c,
    ensures
        heads_between(ts, a, c) == heads_between(ts, a, b) + heads_between(ts, b, c),
    decreases c - b,
{
    if c > b {
        lemma_heads_split(ts, a, b, c - 1);
    }
}

proof fn lemma_positions(ts: Seq<(TokenV, int)>, a: int, b: int)
    ensures
        head_positions(ts, a, b).len() == heads_between(ts, a, b),
        forall|k: int|
            0 <= k < head_positions(ts, a, b).len() ==> a <= #[trigger] head_positions(ts, a, b)[k]
                < b,
    decreases b - a,
{
    if b > a {
        lemma_positions(ts, a, b - 1);
    }
}

proof fn lemma_positions_split(ts: Seq<(TokenV, int)>, a: int, b: int, c: int)
    requires
        a <= b <= c,
    ensures
        head_positions(ts, a, c) =~= head_positions(ts, a, b) + head_positions(ts, b, c),
    decreases c - b,
{
    if c > b {
        lemma_positions_split(ts, a, b, c - 1);
    }
}

proof fn lemma_heads_one(ts: Seq<(TokenV, int)>, a: int)
    ensures
        heads_between(ts, a, a + 1) == if is_head(ts, a) {
            1nat
        } else {
            0nat
        },
{
    assert(heads_between(ts, a, a) == 0);
}

/// Moves one token from the front of a range.
proof fn lemma_heads_front(ts: Seq<(TokenV, int)>, a: int, c: int)
    requires
        a < c,
    ensures
        heads_between(ts, a, c) == heads_between(ts, a + 1, c) + if is_head(ts, a) {
            1nat
        } else {
            0nat
        },
{
    lemma_heads_split(ts, a, a + 1, c);
    lemma_heads_one(ts, a);
}

proof fn lemma_leading_heads(ts: Seq<(TokenV, int)>, i: int, vars: Seq<VariableV>)
    requires
        0 <= i <= ts.len(),
        i == 0 || !(ts[i - 1].0 is Method),
    ensures
        ({
            let e = leading(ts, i, vars).1;
            &&& i <= e <= ts.len()
            &&& heads_between(ts, i, e) == 0
            &&& e == 0 || !(ts[e - 1].0 is Method)
        }),
    decreases ts.len() - i,
{
    if i < ts.len() {
        let e = leading(ts, i, vars).1;
        match ts[i].0 {
            TokenV::Variable(name, value) => {
                lemma_leading_heads(ts, i + 1, vars.push(VariableV { name, value, line: ts[i].1 }));
                lemma_heads_front(ts, i, e);
            },
            TokenV::BlankLine => {
                lemma_leading_heads(ts, i + 1, vars);
                lemma_heads_front(ts, i, e);
            },
            TokenV::Comment(_) => {
                if e != i {
                    lemma_leading_heads(ts, i + 1, vars);
                    lemma_heads_front(ts, i, e);
                }
            },
            TokenV::Separator => {
                lemma_heads_one(ts, i);
            },
            _ => {},
        }
    }
}

proof fn lemma_comment_heads(ts: Seq<(TokenV, int)>, i: int, last: Option<Seq<char>>)
    requires
        0 <= i <= ts.len(),
    ensures
        ({
            let e = comment_run(ts, i, last).1;
            &&& i <= e <= ts.len()
            &&& heads_between(ts, i, e) == 0
            &&& e == i || !(ts[e - 1].0 is Method)
        }),
    decreases ts.len() - i,
{
    if i < ts.len() {
        let e = comment_run(ts, i, last).1;
        match ts[i].0 {
            TokenV::Comment(text) => {
                lemma_comment_heads(ts, i + 1, Some(text));
                lemma_heads_front(ts, i, e);
            },
            TokenV::BlankLine => {
                lemma_comment_heads(ts, i + 1, last);
                lemma_heads_front(ts, i, e);
            },
            _ => {},
        }
    }
}

proof fn lemma_comment_source(ts: Seq<(TokenV, int)>, i: int, last: Option<Seq<char>>)
    requires
        0 <= i <= ts.len(),
    ensures
        ({
            let (c, e) = comment_run(ts, i, last);
            ||| c == last && forall|q: int| i <= q < e ==> (#[trigger] ts[q].0) is BlankLine
            ||| c is Some && exists|p: int|
                i <= p < e && ts[p].0 == TokenV::Comment(c->0) && forall|q: int|
                    p < q < e ==> (#[trigger] ts[q].0) is BlankLine
        }),
    decreases ts.len() - i,
{
    if i < ts.len() {
        let (c, e) = comment_run(ts, i, last);
        match ts[i].0 {
            TokenV::Comment(text) => {
                lemma_comment_source(ts, i + 1, Some(text));
                lemma_comment_heads(ts, i + 1, Some(text));
                if c == Some(text) && forall|q: int|
                    i + 1 <= q < e ==> (#[trigger] ts[q].0) is BlankLine {
                    assert(ts[i].0 == TokenV::Comment(c->0));
                    assert(forall|q: int| i < q < e ==> (#[trigger] ts[q].0) is BlankLine);
                }
            },
            TokenV::BlankLine => {
                lemma_comment_source(ts, i + 1, last);
            },
            _ => {},
        }
    }
}

proof fn lemma_header_heads(ts: Seq<(TokenV, int)>, p: int, hs: Seq<(Seq<char>, Seq<char>)>)
    requires
        0 < p <= ts.len(),
        !(ts[p - 1].0 is Method),
    ensures
        ({
            let e = header_run(ts, p, hs).1;
            &&& p <= e <= ts.len()
            &&& heads_between(ts, p, e) == 0
            &&& !(ts[e - 1].0 is Method)
            &&& forall|q: int| p <= q < e ==> !(#[trigger] ts[q].0 is Comment)
        }),
    decreases ts.len() - p,
{
    if p < ts.len() {
        let e = header_run(ts, p, hs).1;
        match ts[p].0 {
            TokenV::Header(k, v) => {
                lemma_header_heads(ts, p + 1, hs.push((k, v)));
                lemma_heads_front(ts, p, e);
            },
            TokenV::BlankLine => {
                lemma_heads_one(ts, p);
            },
            _ => {},
        }
    }
}

proof fn lemma_body_heads(ts: Seq<(TokenV, int)>, i: int, ls: Seq<Seq<char>>)
    requires
        0 <= i <= ts.len(),
    ensures
        ({
            let e = body_run(ts, i, ls).1;
            &&& i <= e <= ts.len()
            &&& heads_between(ts, i, e) == 0
            &&& e == i || !(ts[e - 1].0 is Method)
            &&& forall|q: int| i <= q < e ==> !(#[trigger] ts[q].0 is Comment)
        }),
    decreases ts.len() - i,
{
    if i < ts.len() {
        let e = body_run(ts, i, ls).1;
        match ts[i].0 {
            TokenV::BodyLine(l) => {
                lemma_body_heads(ts, i + 1, ls.push(l));
                lemma_heads_front(ts, i, e);
            },
            TokenV::BlankLine => {
                if i + 1 < ts.len() && ts[i + 1].0 is BodyLine {
                    lemma_body_heads(ts, i + 1, ls.push(seq![]));
                    lemma_heads_front(ts, i, e);
                }
            },
            _ => {},
        }
    }
}

proof fn lemma_request_heads(ts: Seq<(TokenV, int)>, i: int)
    requires
        0 <= i <= ts.len(),
        i == 0 || !(ts[i - 1].0 is Method),
        request_at(ts, i) is Ok,
    ensures
        heads_between(ts, i, request_at(ts, i)->Ok_0.1) == 1,
        !(ts[request_at(ts, i)->Ok_0.1 - 1].0 is Method),
        head_positions(ts, i, request_at(ts, i)->Ok_0.1).len() == 1,
        head_positions(ts, i, request_at(ts, i)->Ok_0.1)[0] == comment_run(ts, i, None).1,
        ({
            let j = request_at(ts, i)->Ok_0.1;
            let h = comment_run(ts, i, None).1;
            &&& i <= h < j
            &&& !(ts[h].0 is BlankLine)
            &&& forall|q: int| h <= q < j ==> !(#[trigger] ts[q].0 is Comment)
        }),
        from_request_line(
            request_at(ts, i)->Ok_0.0,
            ts,
            head_positions(ts, i, request_at(ts, i)->Ok_0.1)[0],
        ),
        request_at(ts, i)->Ok_0.0.comment matches Some(c) ==> nearest_comment(
            ts,
            head_positions(ts, i, request_at(ts, i)->Ok_0.1)[0],
            c,
        ),
{
    let i1 = comment_run(ts, i, None).1;
    lemma_comment_heads(ts, i, None);
    lemma_comment_source(ts, i, None);
    let i2 = method_and_url(ts, i1)->Ok_0.3;
    if ts[i1].0 is Method {
        assert(i2 == i1 + 2);
        lemma_heads_front(ts, i1, i2);
        lemma_heads_one(ts, i1 + 1);
        assert(heads_between(ts, i1 + 2, i2) == 0);
    } else {
        assert(i2 == i1 + 1);
        assert(is_head(ts, i1));
        lemma_heads_one(ts, i1);
    }
    let i3 = header_run(ts, i2, seq![]).1;
    lemma_header_heads(ts, i2, seq![]);
    let i4 = body_run(ts, i3, seq![]).1;
    lemma_body_heads(ts, i3, seq![]);
    lemma_heads_split(ts, i, i1, i2);
    lemma_heads_split(ts, i, i2, i3);
    lemma_heads_split(ts, i, i3, i4);
    lemma_positions(ts, i, i1);
    lemma_positions(ts, i1, i2);
    lemma_positions(ts, i2, i4);
    lemma_heads_split(ts, i2, i3, i4);
    lemma_positions_split(ts, i, i1, i2);
    lemma_positions_split(ts, i, i2, i4);
    assert(head_positions(ts, i1, i1) =~= seq![]);
    assert(head_positions(ts, i1, i1 + 1) =~= seq![i1]);
    if ts[i1].0 is Method {
        lemma_positions_split(ts, i1, i1 + 1, i2);
        lemma_positions(ts, i1 + 1, i2);
    }
    assert(head_positions(ts, i, request_at(ts, i)->Ok_0.1) =~= seq![i1]);
    assert forall|q: int| i1 <= q < i4 implies !(#[trigger] ts[q].0 is Comment) by {
        if q >= i3 {
        } else if q >= i2 {
        } else {
            assert(q == i1 || q == i1 + 1);
        }
    }
}

proof fn lemma_blocks_heads(
    ts: Seq<(TokenV, int)>,
    i: int,
    vars: Seq<VariableV>,
    reqs: Seq<RequestV>,
)
    requires
        0 <= i <= ts.len(),
        i == 0 || !(ts[i - 1].0 is Method),
        blocks(ts, i, vars, reqs) is Ok,
    ensures
        ({
            let rs = blocks(ts, i, vars, reqs)->Ok_0.requests;
            let hp = head_positions(ts, i, ts.len() as int);
            &&& rs.len() == reqs.len() + heads_between(ts, i, ts.len() as int)
            &&& forall|k: int| 0 <= k < reqs.len() ==> #[trigger] rs[k] == reqs[k]
            &&& forall|k: int|
                0 <= k < hp.len() ==> from_request_line(#[trigger] rs[reqs.len() + k], ts, hp[k])
            &&& forall|k: int|
                0 <= k < hp.len() ==> (#[trigger] rs[reqs.len() + k].comment matches Some(c)
                    ==> nearest_comment(ts, hp[k], c))
        }),
    decreases ts.len() - i,
{
    lemma_positions(ts, i, ts.len() as int);
    if i < ts.len() {
        match ts[i].0 {
            TokenV::BlankLine => {
                lemma_blocks_heads(ts, i + 1, vars, reqs);
                lemma_heads_front(ts, i, ts.len() as int);
                lemma_positions_split(ts, i, i + 1, ts.len() as int);
                assert(head_positions(ts, i, i) =~= seq![]);
                assert(head_positions(ts, i, i + 1) =~= seq![]);
            },
            TokenV::Separator => {
                lemma_blocks_heads(ts, i + 1, vars, reqs);
                lemma_heads_front(ts, i, ts.len() as int);
                lemma_positions_split(ts, i, i + 1, ts.len() as int);
                assert(head_positions(ts, i, i) =~= seq![]);
                assert(head_positions(ts, i, i + 1) =~= seq![]);
            },
            TokenV::Variable(name, value) => {
                lemma_blocks_heads(
                    ts,
                    i + 1,
                    vars.push(VariableV { name, value, line: ts[i].1 }),
                    reqs,
                );
                lemma_heads_front(ts, i, ts.len() as int);
                lemma_positions_split(ts, i, i + 1, ts.len() as int);
                assert(head_positions(ts, i, i) =~= seq![]);
                assert(head_positions(ts, i, i + 1) =~= seq![]);
            },
            _ => {
                let (r, j) = request_at(ts, i)->Ok_0;
                lemma_request_progress(ts, i);
                lemma_request_heads(ts, i);
                lemma_blocks_heads(ts, j, vars, reqs.push(r));
                lemma_heads_split(ts, i, j, ts.len() as int);
                lemma_positions_split(ts, i, j, ts.len() as int);
                let rs = blocks(ts, i, vars, reqs)->Ok_0.requests;
                let hp = head_positions(ts, i, ts.len() as int);
                let hq = head_positions(ts, j, ts.len() as int);
                assert forall|k: int| 0 <= k < reqs.len() implies #[trigger] rs[k] == reqs[k] by {
                    assert(rs[k] == reqs.push(r)[k]);
                }
                assert forall|k: int| 0 <= k < hp.len() implies from_request_line(
                    #[trigger] rs[reqs.len() + k],
                    ts,
                    hp[k],
                ) by {
                    if k == 0 {
                        assert(rs[reqs.len() as int] == reqs.push(r)[reqs.len() as int]);
                    } else {
                        assert(hp[k] == hq[k - 1]);
                        assert(rs[reqs.len() + k] == rs[reqs.push(r).len() + (k - 1)]);
                    }
                }
                assert forall|k: int| 0 <= k < hp.len() implies (#[trigger] rs[reqs.len()
                    + k].comment matches Some(c) ==> nearest_comment(ts, hp[k], c)) by {
                    if k == 0 {
                        assert(rs[reqs.len() as int] == reqs.push(r)[reqs.len() as int]);
                    } else {
                        assert(hp[k] == hq[k - 1]);
                        assert(rs[reqs.len() + k] == rs[reqs.push(r).len() + (k - 1)]);
                    }
                }
            },
        }
    }
}

/// Each request line (a method, or a URL not right after a method) yields
/// exactly one request, in source order: when tokens parse, the document holds
/// as many requests as the tokens hold request lines, the k-th request comes
/// from the k-th request line (its line, its URL, and its method, inferred
/// from the body when none is written), and its comment, when it has one, is
/// the nearest comment line before that request line, with only blank lines
/// between. This holds of any token sequence, so of every text that
/// `tokenize` accepts.
pub proof fn lemma_one_request_per_request_line(ts: Seq<(TokenV, int)>)
    requires
        parse_spec(ts) is Ok,
    ensures
        ({
            let rs = parse_spec(ts)->Ok_0.requests;
            let hp = head_positions(ts, 0, ts.len() as int);
            &&& rs.len() == request_lines(ts)
            &&& hp.len() == rs.len()
            &&& forall|k: int| 0 <= k < rs.len() ==> from_request_line(#[trigger] rs[k], ts, hp[k])
            &&& forall|k: int|
                0 <= k < rs.len() ==> (#[trigger] rs[k].comment matches Some(c) ==> nearest_comment(
                    ts,
                    hp[k],
                    c,
                ))
        }),
{
    let (vars, i) = leading(ts, 0, seq![]);
    lemma_leading_heads(ts, 0, seq![]);
    lemma_blocks_heads(ts, i, vars, seq![]);
    lemma_heads_split(ts, 0, i, ts.len() as int);
    lemma_positions(ts, 0, i);
    lemma_positions(ts, 0, ts.len() as int);
    lemma_positions_split(ts, 0, i, ts.len() as int);
    let rs = parse_spec(ts)->Ok_0.requests;
    let hp = head_positions(ts, 0, ts.len() as int);
    assert forall|k: int| 0 <= k < rs.len() implies from_request_line(#[trigger] rs[k], ts, hp[k]) by {
        assert(hp[k] == head_positions(ts, i, ts.len() as int)[k]);
        assert(rs[k] == rs[0 + k]);
    }
    assert forall|k: int| 0 <= k < rs.len() implies (#[trigger] rs[k].comment matches Some(c)
        ==> nearest_comment(ts, hp[k], c)) by {
        assert(hp[k] == head_positions(ts, i, ts.len() as int)[k]);
        assert(rs[k] == rs[0 + k]);
    }
}

proof fn lemma_prev(ts: Seq<(TokenV, int)>, h: int)
    requires
        0 <= h <= ts.len(),
    ensures
        -1 <= prev_non_blank(ts, h) < h,
        forall|q: int| prev_non_blank(ts, h) < q < h ==> (#[trigger] ts[q].0) is BlankLine,
        prev_non_blank(ts, h) >= 0 ==> !(ts[prev_non_blank(ts, h)].0 is BlankLine),
    decreases h,
{
    if h > 0 && ts[h - 1].0 is BlankLine {
        lemma_prev(ts, h - 1);
    }
}

proof fn lemma_prev_ge(ts: Seq<(TokenV, int)>, x: int, j: int)
    requires
        0 <= x < j <= ts.len(),
        !(ts[x].0 is BlankLine),
    ensures
        x <= prev_non_blank(ts, j) < j,
    decreases j,
{
    if ts[j - 1].0 is BlankLine {
        lemma_prev_ge(ts, x, j - 1);
    }
}

proof fn lemma_next_non_blank(ts: Seq<(TokenV, int)>, a: int, h: int)
    requires
        0 <= a <= h < ts.len(),
        forall|q: int| a <= q < h ==> (#[trigger] ts[q].0) is BlankLine,
        !(ts[h].0 is BlankLine),
    ensures
        next_non_blank(ts, a) == h,
    decreases h - a,
{
    if a < h {
        lemma_next_non_blank(ts, a + 1, h);
    }
}

proof fn lemma_leading_stops_sep(ts: Seq<(TokenV, int)>, i: int, vars: Seq<VariableV>, s: int)
    requires
        0 <= i <= s < ts.len(),
        ts[s].0 is Separator,
    ensures
        leading(ts, i, vars).1 <= s + 1,
    decreases s - i,
{
    if i < s {
        match ts[i].0 {
            TokenV::Variable(name, value) => lemma_leading_stops_sep(
                ts,
                i + 1,
                vars.push(VariableV { name, value, line: ts[i].1 }),
                s,
            ),
            TokenV::BlankLine => lemma_leading_stops_sep(ts, i + 1, vars, s),
            TokenV::Comment(_) => lemma_leading_stops_sep(ts, i + 1, vars, s),
            _ => {},
        }
    }
}

proof fn lemma_leading_stops_comment(ts: Seq<(TokenV, int)>, i: int, vars: Seq<VariableV>, p: int)
    requires
        0 <= i <= p < ts.len(),
        ts[p].0 is Comment,
        next_non_blank(ts, p + 1) < ts.len(),
        ts[next_non_blank(ts, p + 1)].0 is Method,
    ensures
        leading(ts, i, vars).1 <= p,
    decreases p - i,
{
    if i < p {
        match ts[i].0 {
            TokenV::Variable(name, value) => lemma_leading_stops_comment(
                ts,
                i + 1,
                vars.push(VariableV { name, value, line: ts[i].1 }),
                p,
            ),
            TokenV::BlankLine => lemma_leading_stops_comment(ts, i + 1, vars, p),
            TokenV::Comment(_) => lemma_leading_stops_comment(ts, i + 1, vars, p),
            _ => {},
        }
    }
}

proof fn lemma_comment_run_blanks(ts: Seq<(TokenV, int)>, j: int, l: Option<Seq<char>>)
    requires
        0 <= j <= ts.len(),
        forall|q: int| j <= q < comment_run(ts, j, l).1 ==> (#[trigger] ts[q].0) is BlankLine,
    ensures
        comment_run(ts, j, l).0 == l,
    decreases ts.len() - j,
{
    if j < ts.len() {
        match ts[j].0 {
            TokenV::Comment(text) => {
                lemma_comment_heads(ts, j + 1, Some(text));
                assert((ts[j].0) is BlankLine);
            },
            TokenV::BlankLine => lemma_comment_run_blanks(ts, j + 1, l),
            _ => {},
        }
    }
}

proof fn lemma_comment_run_picks(ts: Seq<(TokenV, int)>, i: int, last: Option<Seq<char>>, p: int)
    requires
        0 <= i <= p < comment_run(ts, i, last).1,
        comment_run(ts, i, last).1 <= ts.len(),
        ts[p].0 is Comment,
        forall|q: int| p < q < comment_run(ts, i, last).1 ==> (#[trigger] ts[q].0) is BlankLine,
    ensures
        comment_run(ts, i, last).0 == Some(ts[p].0->Comment_0),
    decreases p - i,
{
    if i == p {
        lemma_comment_run_blanks(ts, i + 1, Some(ts[p].0->Comment_0));
    } else {
        match ts[i].0 {
            TokenV::Comment(text) => lemma_comment_run_picks(ts, i + 1, Some(text), p),
            TokenV::BlankLine => lemma_comment_run_picks(ts, i + 1, last, p),
            _ => {},
        }
    }
}

proof fn lemma_request_claims(ts: Seq<(TokenV, int)>, i: int, big_l: int)
    requires
        0 <= i < ts.len(),
        !(ts[i].0 is BlankLine),
        i == 0 || !(ts[i - 1].0 is Method),
        request_at(ts, i) is Ok,
        big_l == leading(ts, 0, seq![]).1,
        prev_non_blank(ts, i) >= 0 && ts[prev_non_blank(ts, i)].0 is Comment ==> prev_non_blank(
            ts,
            i,
        ) < big_l,
    ensures
        ({
            let (r, j) = request_at(ts, i)->Ok_0;
            let h = head_positions(ts, i, j)[0];
            &&& claims_comment(ts, h) ==> r.comment == Some(
                ts[prev_non_blank(ts, h)].0->Comment_0,
            )
            &&& 0 <= prev_non_blank(ts, j)
            &&& !(ts[prev_non_blank(ts, j)].0 is Comment)
        }),
{
    lemma_request_heads(ts, i);
    lemma_request_progress(ts, i);
    lemma_comment_heads(ts, i, None);
    let j = request_at(ts, i)->Ok_0.1;
    let h = comment_run(ts, i, None).1;
    lemma_prev(ts, h);
    let p = prev_non_blank(ts, h);
    if claims_comment(ts, h) {
        if p >= i {
            lemma_comment_run_picks(ts, i, None, p);
        } else {
            if i < h {
                assert((ts[i].0) is BlankLine);
            }
            assert(i == h);
            if ts[h].0 is Method {
                lemma_next_non_blank(ts, p + 1, h);
                lemma_leading_stops_comment(ts, 0, seq![], p);
            } else {
                let s = choose|s: int| 0 <= s < p && ts[s].0 is Separator;
                lemma_leading_stops_sep(ts, 0, seq![], s);
            }
        }
    }
    lemma_prev_ge(ts, h, j);
}

proof fn lemma_blocks_claims(
    ts: Seq<(TokenV, int)>,
    i: int,
    vars: Seq<VariableV>,
    reqs: Seq<RequestV>,
    big_l: int,
)
    requires
        0 <= i <= ts.len(),
        i == 0 || !(ts[i - 1].0 is Method),
        blocks(ts, i, vars, reqs) is Ok,
        big_l == leading(ts, 0, seq![]).1,
        prev_non_blank(ts, i) >= 0 && ts[prev_non_blank(ts, i)].0 is Comment ==> prev_non_blank(
            ts,
            i,
        ) < big_l,
    ensures
        ({
            let rs = blocks(ts, i, vars, reqs)->Ok_0.requests;
            let hp = head_positions(ts, i, ts.len() as int);
            forall|k: int|
                0 <= k < hp.len() ==> (claims_comment(ts, hp[k]) ==> #[trigger] rs[reqs.len()
                    + k].comment == Some(ts[prev_non_blank(ts, hp[k])].0->Comment_0))
        }),
    decreases ts.len() - i,
{
    lemma_positions(ts, i, ts.len() as int);
    if i < ts.len() {
        match ts[i].0 {
            TokenV::BlankLine => {
                lemma_blocks_claims(ts, i + 1, vars, reqs, big_l);
                lemma_positions_split(ts, i, i + 1, ts.len() as int);
                assert(head_positions(ts, i, i) =~= seq![]);
                assert(head_positions(ts, i, i + 1) =~= seq![]);
            },
            TokenV::Separator => {
                lemma_blocks_claims(ts, i + 1, vars, reqs, big_l);
                lemma_positions_split(ts, i, i + 1, ts.len() as int);
                assert(head_positions(ts, i, i) =~= seq![]);
                assert(head_positions(ts, i, i + 1) =~= seq![]);
            },
            TokenV::Variable(name, value) => {
                lemma_blocks_claims(
                    ts,
                    i + 1,
                    vars.push(VariableV { name, value, line: ts[i].1 }),
                    reqs,
                    big_l,
                );
                lemma_positions_split(ts, i, i + 1, ts.len() as int);
                assert(head_positions(ts, i, i) =~= seq![]);
                assert(head_positions(ts, i, i + 1) =~= seq![]);
            },
            _ => {
                let (r, j) = request_at(ts, i)->Ok_0;
                lemma_request_progress(ts, i);
                lemma_request_heads(ts, i);
                lemma_request_claims(ts, i, big_l);
                lemma_blocks_claims(ts, j, vars, reqs.push(r), big_l);
                lemma_blocks_heads(ts, j, vars, reqs.push(r));
                lemma_positions_split(ts, i, j, ts.len() as int);
                let rs = blocks(ts, i, vars, reqs)->Ok_0.requests;
                let hp = head_positions(ts, i, ts.len() as int);
                let hq = head_positions(ts, j, ts.len() as int);
                assert forall|k: int| 0 <= k < hp.len() implies (claims_comment(ts, hp[k])
                    ==> #[trigger] rs[reqs.len() + k].comment == Some(
                    ts[prev_non_blank(ts, hp[k])].0->Comment_0,
                )) by {
                    if k == 0 {
                        assert(rs[reqs.len() as int] == reqs.push(r)[reqs.len() as int]);
                    } else {
                        assert(hp[k] == hq[k - 1]);
                        assert(rs[reqs.len() + k] == rs[reqs.push(r).len() + (k - 1)]);
                    }
                }
            },
        }
    }
}

/// A request line that claims the comment line before it (see
/// `claims_comment`) gets that comment: when tokens parse, such a request's
/// comment is that line's text.
pub proof fn lemma_claimed_comment(ts: Seq<(TokenV, int)>)
    requires
        parse_spec(ts) is Ok,
    ensures
        ({
            let rs = parse_spec(ts)->Ok_0.requests;
            let hp = head_positions(ts, 0, ts.len() as int);
            &&& hp.len() == rs.len()
            &&& forall|k: int|
                0 <= k < rs.len() ==> (claims_comment(ts, hp[k]) ==> #[trigger] rs[k].comment
                    == Some(ts[prev_non_blank(ts, hp[k])].0->Comment_0))
        }),
{
    lemma_one_request_per_request_line(ts);
    let (vars, i) = leading(ts, 0, seq![]);
    lemma_leading_heads(ts, 0, seq![]);
    lemma_prev(ts, i);
    lemma_blocks_claims(ts, i, vars, seq![], i);
    lemma_heads_split(ts, 0, i, ts.len() as int);
    lemma_positions(ts, 0, i);
    lemma_positions_split(ts, 0, i, ts.len() as int);
    let rs = parse_spec(ts)->Ok_0.requests;
    let hp = head_positions(ts, 0, ts.len() as int);
    assert forall|k: int| 0 <= k < rs.len() implies (claims_comment(ts, hp[k])
        ==> #[trigger] rs[k].comment == Some(ts[prev_non_blank(ts, hp[k])].0->Comment_0)) by {
        assert(hp[k] == head_positions(ts, i, ts.len() as int)[k]);
        assert(rs[k] == rs[0 + k]);
    }
}

} // verus!
