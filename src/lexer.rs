//! The lexer: one classification per source line, driven by a small state
//! machine (inside a body or not; request line seen in this block or not).

use vstd::prelude::*;
use vstd::slice::slice_subrange;

use crate::ast::{method_name, method_of, HttpMethod};
use crate::text::{
    chars_of, chars_start_with, contains_char, decimal, find_char, first_index, is_whitespace,
    is_ws, push_all, push_decimal, starts_with, string_of, trim, trim_chars,
};

verus! {

/// A token of a `.reqx` file.
#[derive(Debug, Clone, PartialEq)]
pub enum Token {
    /// A comment line: `# some comment`.
    Comment(String),
    /// The block separator `###`.
    Separator,
    /// A variable definition: `@name = value`.
    Variable { name: String, value: String },
    /// An HTTP method keyword, upper-cased.
    Method(String),
    /// A URL.
    Url(String),
    /// A header line: `Key: Value`.
    Header { key: String, value: String },
    /// A line of a request body, verbatim.
    BodyLine(String),
    /// An empty or whitespace-only line.
    BlankLine,
}

/// A token with its 1-based source line.
#[derive(Debug, Clone)]
pub struct LocatedToken {
    pub token: Token,
    pub line: usize,
}

/// Model of a token.
pub enum TokenV {
    Comment(Seq<char>),
    Separator,
    Variable(Seq<char>, Seq<char>),
    Method(Seq<char>),
    Url(Seq<char>),
    Header(Seq<char>, Seq<char>),
    BodyLine(Seq<char>),
    BlankLine,
}

impl View for Token {
    type V = TokenV;

    open spec fn view(&self) -> TokenV {
        match self {
            Token::Comment(s) => TokenV::Comment(s@),
            Token::Separator => TokenV::Separator,
            Token::Variable { name, value } => TokenV::Variable(name@, value@),
            Token::Method(s) => TokenV::Method(s@),
            Token::Url(s) => TokenV::Url(s@),
            Token::Header { key, value } => TokenV::Header(key@, value@),
            Token::BodyLine(s) => TokenV::BodyLine(s@),
            Token::BlankLine => TokenV::BlankLine,
        }
    }
}

impl View for LocatedToken {
    type V = (TokenV, int);

    open spec fn view(&self) -> (TokenV, int) {
        (self.token@, self.line as int)
    }
}

pub open spec fn toks_view(v: Seq<LocatedToken>) -> Seq<(TokenV, int)> {
    v.map_values(|t: LocatedToken| t@)
}

/// State of the lexer between lines.
pub struct LexState {
    pub toks: Seq<(TokenV, int)>,
    pub in_body: bool,
    pub has_req: bool,
}

/// Why a line could not be lexed: a variable line without `=` (with the
/// trimmed line), or with an empty name.
pub enum LexFault {
    MissingEquals(int, Seq<char>),
    EmptyName(int),
}

pub open spec fn lex_message(f: LexFault) -> Seq<char> {
    match f {
        LexFault::MissingEquals(line, text) => "Line "@ + decimal(line as nat)
            + ": invalid variable definition (missing '='): "@ + text,
        LexFault::EmptyName(line) => "Line "@ + decimal(line as nat) + ": empty variable name"@,
    }
}

pub open spec fn push_tok(st: LexState, t: TokenV, line: int) -> LexState {
    LexState { toks: st.toks.push((t, line)), in_body: st.in_body, has_req: st.has_req }
}

/// The most recent token that is not a blank line.
pub open spec fn last_meaningful(toks: Seq<(TokenV, int)>) -> Option<TokenV>
    decreases toks.len(),
{
    if toks.len() == 0 {
        None
    } else if toks.last().0 is BlankLine {
        last_meaningful(toks.drop_last())
    } else {
        Some(toks.last().0)
    }
}

/// A blank line after one of these tokens opens the body region.
pub open spec fn opens_body(t: Option<TokenV>) -> bool {
    match t {
        Some(TokenV::Header(_, _)) => true,
        Some(TokenV::Url(_)) => true,
        _ => false,
    }
}

pub open spec fn is_separator_line(t: Seq<char>) -> bool {
    t == seq!['#', '#', '#']
}

pub open spec fn after_separator(st: LexState, line: int) -> LexState {
    LexState { toks: st.toks.push((TokenV::Separator, line)), in_body: false, has_req: false }
}

pub open spec fn after_blank(st: LexState, line: int) -> LexState {
    LexState {
        toks: st.toks.push((TokenV::BlankLine, line)),
        in_body: st.in_body || opens_body(last_meaningful(st.toks)),
        has_req: st.has_req,
    }
}

/// A variable line `t` (trimmed, starting with `@`).
pub open spec fn variable_rule(st: LexState, t: Seq<char>, line: int) -> Result<LexState, LexFault> {
    let eq = first_index(t, '=', 0);
    if eq >= t.len() {
        Err(LexFault::MissingEquals(line, t))
    } else if trim(t.subrange(1, eq)).len() == 0 {
        Err(LexFault::EmptyName(line))
    } else {
        Ok(
            LexState {
                toks: st.toks.push(
                    (
                        TokenV::Variable(
                            trim(t.subrange(1, eq)),
                            trim(t.subrange(eq + 1, t.len() as int)),
                        ),
                        line,
                    ),
                ),
                in_body: false,
                has_req: st.has_req,
            },
        )
    }
}

/// Index of the first whitespace character of `s` at or after `from`, or `s.len()`.
pub open spec fn first_ws(s: Seq<char>, from: int) -> int
    decreases s.len() - from,
{
    if from >= s.len() {
        s.len() as int
    } else if is_ws(s[from]) {
        from
    } else {
        first_ws(s, from + 1)
    }
}

/// The first whitespace-delimited word of a trimmed line.
pub open spec fn first_word(t: Seq<char>) -> Seq<char> {
    t.subrange(0, first_ws(t, 0))
}

pub open spec fn url_like(t: Seq<char>) -> bool {
    starts_with(t, "http://"@) || starts_with(t, "https://"@) || starts_with(t, "localhost"@)
        || starts_with(t, ":"@)
}

/// A request line: `METHOD [url]`, or a line that plainly starts with a URL.
/// `None` when the line is neither.
pub open spec fn request_line_rule(st: LexState, t: Seq<char>, line: int) -> Option<LexState> {
    let w = first_word(t);
    match method_of(w) {
        Some(m) => {
            let rest = trim(t.subrange(w.len() as int, t.len() as int));
            let with_method = st.toks.push((TokenV::Method(method_name(m)), line));
            Some(
                LexState {
                    toks: if rest.len() > 0 {
                        with_method.push((TokenV::Url(rest), line))
                    } else {
                        with_method
                    },
                    in_body: st.in_body,
                    has_req: true,
                },
            )
        },
        None => if url_like(t) {
            Some(
                LexState {
                    toks: st.toks.push((TokenV::Url(t), line)),
                    in_body: st.in_body,
                    has_req: true,
                },
            )
        } else {
            None
        },
    }
}

/// A header line: key before the first `:` (trimmed, non-empty, no space), value after it.
pub open spec fn header_rule(t: Seq<char>) -> Option<(Seq<char>, Seq<char>)> {
    let c = first_index(t, ':', 0);
    let key = trim(t.subrange(0, c));
    if c < t.len() && key.len() > 0 && !contains_char(key, ' ') {
        Some((key, trim(t.subrange(c + 1, t.len() as int))))
    } else {
        None
    }
}

pub open spec fn header_key(t: Seq<char>) -> Seq<char> {
    let (key, _) = header_rule(t)->0;
    key
}

pub open spec fn header_value(t: Seq<char>) -> Seq<char> {
    let (_, value) = header_rule(t)->0;
    value
}

/// How one raw line changes the lexer state; the order of the rules decides.
pub open spec fn classify(st: LexState, raw: Seq<char>, line: int) -> Result<LexState, LexFault> {
    let t = trim(raw);
    if is_separator_line(t) {
        Ok(after_separator(st, line))
    } else if t.len() == 0 {
        Ok(after_blank(st, line))
    } else if t[0] == '@' {
        variable_rule(st, t, line)
    } else if st.in_body {
        Ok(push_tok(st, TokenV::BodyLine(raw), line))
    } else if t[0] == '#' {
        Ok(push_tok(st, TokenV::Comment(trim(t.drop_first())), line))
    } else if !st.has_req && request_line_rule(st, t, line) is Some {
        Ok(request_line_rule(st, t, line)->0)
    } else if header_rule(t) is Some {
        let (key, value) = header_rule(t)->0;
        Ok(push_tok(st, TokenV::Header(key, value), line))
    } else if !st.has_req {
        Ok(LexState { toks: st.toks.push((TokenV::Url(t), line)), in_body: st.in_body, has_req: true })
    } else {
        Ok(push_tok(st, TokenV::BodyLine(raw), line))
    }
}

pub open spec fn initial_state() -> LexState {
    LexState { toks: seq![], in_body: false, has_req: false }
}

/// The state after the first `n` lines, line numbers counted from 1.
pub open spec fn run(lines: Seq<Seq<char>>, n: nat) -> Result<LexState, LexFault>
    decreases n,
{
    if n == 0 {
        Ok(initial_state())
    } else {
        match run(lines, (n - 1) as nat) {
            Ok(st) => classify(st, lines[n - 1], n as int),
            Err(f) => Err(f),
        }
    }
}

/// A line that ends at a newline, without a `\r` just before it.
pub open spec fn ended_line(s: Seq<char>, start: int, nl: int) -> Seq<char> {
    if nl > start && s[nl - 1] == '\r' {
        s.subrange(start, nl - 1)
    } else {
        s.subrange(start, nl)
    }
}

/// The lines of `s[start..]` as `str::lines` gives them, scanning from `pos`.
pub open spec fn lines_from(s: Seq<char>, pos: int, start: int) -> Seq<Seq<char>>
    decreases s.len() - pos,
{
    if pos >= s.len() {
        if start < s.len() {
            seq![s.subrange(start, s.len() as int)]
        } else {
            seq![]
        }
    } else if s[pos] == '\n' {
        seq![ended_line(s, start, pos)] + lines_from(s, pos + 1, pos + 1)
    } else {
        lines_from(s, pos + 1, start)
    }
}

/// The lines of a text: split at `\n`, a `\r` before it dropped, no empty last line.
pub open spec fn lines_of(s: Seq<char>) -> Seq<Seq<char>> {
    lines_from(s, 0, 0)
}

/// What `tokenize` gives for a text.
pub open spec fn tokenize_spec(input: Seq<char>) -> Result<Seq<(TokenV, int)>, LexFault> {
    match run(lines_of(input), lines_of(input).len()) {
        Ok(st) => Ok(st.toks),
        Err(f) => Err(f),
    }
}

proof fn lemma_run_prefix(a: Seq<Seq<char>>, b: Seq<Seq<char>>, n: nat)
    requires
        n <= a.len(),
        n <= b.len(),
        forall|i: int| 0 <= i < n ==> a[i] == b[i],
    ensures
        run(a, n) == run(b, n),
    decreases n,
{
    if n > 0 {
        lemma_run_prefix(a, b, (n - 1) as nat);
    }
}

proof fn lemma_run_err(a: Seq<Seq<char>>, k: nat, n: nat)
    requires
        k <= n,
        run(a, k) is Err,
    ensures
        run(a, n) == run(a, k),
    decreases n,
{
    if n > k {
        lemma_run_err(a, k, (n - 1) as nat);
    }
}

/// Internal lexer state machine.
struct Lexer {
    tokens: Vec<LocatedToken>,
    in_body: bool,
    has_request_line: bool,
}

impl View for Lexer {
    type V = LexState;

    closed spec fn view(&self) -> LexState {
        LexState {
            toks: toks_view(self.tokens@),
            in_body: self.in_body,
            has_req: self.has_request_line,
        }
    }
}

impl Lexer {
    fn new() -> (r: Lexer)
        ensures
            r@ == initial_state(),
    {
        let r = Lexer { tokens: Vec::new(), in_body: false, has_request_line: false };
        assert(toks_view(r.tokens@) =~= seq![]);
        r
    }

    /// Appends a token with its line number.
    fn push(&mut self, token: Token, line: usize)
        ensures
            final(self)@ == push_tok(old(self)@, token@, line as int),
    {
        self.tokens.push(LocatedToken { token, line });
        assert(toks_view(self.tokens@) =~= toks_view(old(self).tokens@).push((token@, line as int)));
    }

    /// The last token that is not a blank line, if any.
    fn last_meaningful_token(&self) -> (r: Option<&Token>)
        ensures
            match r {
                Some(t) => last_meaningful(self@.toks) == Some(t@),
                None => last_meaningful(self@.toks) is None,
            },
    {
        let mut i = self.tokens.len();
        assert(self@.toks.subrange(0, i as int) =~= self@.toks);
        while i > 0
            invariant
                i <= self.tokens@.len(),
                last_meaningful(self@.toks) == last_meaningful(self@.toks.subrange(0, i as int)),
            decreases i,
        {
            let lt = &self.tokens[i - 1];
            assert(self@.toks.subrange(0, i as int).last() == lt@);
            if !matches!(lt.token, Token::BlankLine) {
                return Some(&lt.token);
            }
            assert(self@.toks.subrange(0, i as int).drop_last() =~= self@.toks.subrange(
                0,
                i - 1,
            ));
            i = i - 1;
        }
        None
    }

    /// `###`: the block separator; leaves body mode and forgets the request line.
    fn try_separator(&mut self, trimmed: &[char], line: usize) -> (r: bool)
        ensures
            r == is_separator_line(trimmed@),
            r ==> final(self)@ == after_separator(old(self)@, line as int),
            !r ==> final(self)@ == old(self)@,
    {
        let sep = chars_of("###");
        proof {
            reveal_strlit("###");
            assert(sep@ =~= seq!['#', '#', '#']);
        }
        if !(trimmed.len() == 3 && chars_start_with(trimmed, sep.as_slice())) {
            proof {
                if trimmed@.len() == 3 {
                    assert(trimmed@.subrange(0, 3) =~= trimmed@);
                }
            }
            return false;
        }
        assert(trimmed@.subrange(0, 3) =~= trimmed@);
        self.in_body = false;
        self.has_request_line = false;
        self.push(Token::Separator, line);
        true
    }

    /// An empty or whitespace-only line; after a header or a URL it opens the body.
    fn try_blank(&mut self, trimmed: &[char], line: usize) -> (r: bool)
        ensures
            r == (trimmed@.len() == 0),
            r ==> final(self)@ == after_blank(old(self)@, line as int),
            !r ==> final(self)@ == old(self)@,
    {
        if trimmed.len() != 0 {
            return false;
        }
        if !self.in_body {
            let starts_body = match self.last_meaningful_token() {
                Some(Token::Header { .. }) => true,
                Some(Token::Url(_)) => true,
                _ => false,
            };
            if starts_body {
                self.in_body = true;
            }
        }
        self.push(Token::BlankLine, line);
        true
    }

    /// `@name = value`: a variable definition; it also ends a body.
    fn try_variable(&mut self, trimmed: &[char], line: usize) -> (r: Result<bool, String>)
        requires
            trimmed@.len() > 0,
        ensures
            trimmed@[0] != '@' ==> r == Ok::<bool, String>(false) && final(self)@ == old(self)@,
            trimmed@[0] == '@' ==> match variable_rule(old(self)@, trimmed@, line as int) {
                Ok(st) => r == Ok::<bool, String>(true) && final(self)@ == st,
                Err(f) => r is Err && r->Err_0@ == lex_message(f),
            },
    {
        if trimmed[0] != '@' {
            return Ok(false);
        }
        let eq = find_char(trimmed, '=', 1);
        assert(first_index(trimmed@, '=', 0) == first_index(trimmed@, '=', 1));
        if eq >= trimmed.len() {
            let mut msg = chars_of("Line ");
            push_decimal(line, &mut msg);
            let mid = chars_of(": invalid variable definition (missing '='): ");
            push_all(&mut msg, mid.as_slice());
            push_all(&mut msg, trimmed);
            return Err(string_of(msg.as_slice()));
        }
        let name = trim_chars(slice_subrange(trimmed, 1, eq));
        if name.len() == 0 {
            let mut msg = chars_of("Line ");
            push_decimal(line, &mut msg);
            let tail = chars_of(": empty variable name");
            push_all(&mut msg, tail.as_slice());
            return Err(string_of(msg.as_slice()));
        }
        let value = trim_chars(slice_subrange(trimmed, eq + 1, trimmed.len()));
        self.in_body = false;
        self.push(Token::Variable { name: string_of(name), value: string_of(value) }, line);
        Ok(true)
    }

    /// `# text`: a comment (a separator was tried first).
    fn try_comment(&mut self, trimmed: &[char], line: usize) -> (r: bool)
        requires
            trimmed@.len() > 0,
        ensures
            r == (trimmed@[0] == '#'),
            r ==> final(self)@ == push_tok(
                old(self)@,
                TokenV::Comment(trim(trimmed@.drop_first())),
                line as int,
            ),
            !r ==> final(self)@ == old(self)@,
    {
        if trimmed[0] != '#' {
            return false;
        }
        let rest = slice_subrange(trimmed, 1, trimmed.len());
        assert(rest@ =~= trimmed@.drop_first());
        let text = trim_chars(rest);
        self.push(Token::Comment(string_of(text)), line);
        true
    }

    /// `METHOD url`, `METHOD`, or a line that plainly starts with a URL.
    fn try_request_line(&mut self, trimmed: &[char], line: usize) -> (r: bool)
        ensures
            r == (!old(self)@.has_req && request_line_rule(old(self)@, trimmed@, line as int) is Some),
            r ==> final(self)@ == request_line_rule(old(self)@, trimmed@, line as int)->0,
            !r ==> final(self)@ == old(self)@,
    {
        if self.has_request_line {
            return false;
        }
        let mut w: usize = 0;
        while w < trimmed.len() && !is_whitespace(trimmed[w])
            invariant
                w <= trimmed@.len(),
                first_ws(trimmed@, 0) == first_ws(trimmed@, w as int),
            decreases trimmed@.len() - w,
        {
            w = w + 1;
        }
        let word = slice_subrange(trimmed, 0, w);
        match HttpMethod::from_chars(word) {
            Some(m) => {
                self.push(Token::Method(m.name()), line);
                let url = trim_chars(slice_subrange(trimmed, w, trimmed.len()));
                if url.len() > 0 {
                    self.push(Token::Url(string_of(url)), line);
                }
                self.has_request_line = true;
                return true;
            },
            None => {},
        }
        let p1 = chars_of("http://");
        let p2 = chars_of("https://");
        let p3 = chars_of("localhost");
        let p4 = chars_of(":");
        if chars_start_with(trimmed, p1.as_slice()) || chars_start_with(trimmed, p2.as_slice())
            || chars_start_with(trimmed, p3.as_slice()) || chars_start_with(
            trimmed,
            p4.as_slice(),
        ) {
            self.push(Token::Url(string_of(trimmed)), line);
            self.has_request_line = true;
            return true;
        }
        false
    }

    /// `Key: Value`: a header (the key holds no space).
    fn try_header(&mut self, trimmed: &[char], line: usize) -> (r: bool)
        ensures
            r == header_rule(trimmed@) is Some,
            r ==> final(self)@ == push_tok(
                old(self)@,
                TokenV::Header(header_key(trimmed@), header_value(trimmed@)),
                line as int,
            ),
            !r ==> final(self)@ == old(self)@,
    {
        let colon = find_char(trimmed, ':', 0);
        if colon >= trimmed.len() {
            return false;
        }
        let key = trim_chars(slice_subrange(trimmed, 0, colon));
        if key.len() == 0 || find_char(key, ' ', 0) < key.len() {
            return false;
        }
        let value = trim_chars(slice_subrange(trimmed, colon + 1, trimmed.len()));
        self.push(Token::Header { key: string_of(key), value: string_of(value) }, line);
        true
    }

    /// Classifies one source line and appends its token(s).
    fn classify_line(&mut self, raw_line: &[char], line: usize) -> (r: Result<(), String>)
        ensures
            match classify(old(self)@, raw_line@, line as int) {
                Ok(st) => r is Ok && final(self)@ == st,
                Err(f) => r is Err && r->Err_0@ == lex_message(f),
            },
    {
        let trimmed = trim_chars(raw_line);
        // A separator is tried before a comment: both start with `#`.
        if self.try_separator(trimmed, line) {
            return Ok(());
        }
        if self.try_blank(trimmed, line) {
            return Ok(());
        }
        match self.try_variable(trimmed, line) {
            Ok(true) => {
                return Ok(());
            },
            Ok(false) => {},
            Err(e) => {
                return Err(e);
            },
        }
        if self.in_body {
            self.push(Token::BodyLine(string_of(raw_line)), line);
            return Ok(());
        }
        if self.try_comment(trimmed, line) {
            return Ok(());
        }
        if self.try_request_line(trimmed, line) {
            return Ok(());
        }
        if self.try_header(trimmed, line) {
            return Ok(());
        }
        if !self.has_request_line {
            self.push(Token::Url(string_of(trimmed)), line);
            self.has_request_line = true;
            return Ok(());
        }
        self.push(Token::BodyLine(string_of(raw_line)), line);
        Ok(())
    }
}

/// Tokenizes the text of a `.reqx` file, line by line.
pub fn tokenize(input: &str) -> (r: Result<Vec<LocatedToken>, String>)
    requires
        input@.len() < usize::MAX,
    ensures
        match tokenize_spec(input@) {
            Ok(ts) => r is Ok && toks_view(r->Ok_0@) == ts,
            Err(f) => r is Err && r->Err_0@ == lex_message(f),
        },
{
    let cs = chars_of(input);
    let n = cs.len();
    let mut lexer = Lexer::new();
    let mut start: usize = 0;
    let mut pos: usize = 0;
    let mut line: usize = 1;
    let ghost mut done: Seq<Seq<char>> = seq![];
    while pos < n
        invariant
            n == cs@.len(),
            cs@ == input@,
            n < usize::MAX,
            start <= pos <= n,
            line == done.len() + 1,
            line <= start + 1,
            lines_of(cs@) == done + lines_from(cs@, pos as int, start as int),
            run(done, done.len()) == Ok::<LexState, LexFault>(lexer@),
        decreases n - pos,
    {
        if cs[pos] == '\n' {
            let end = if pos > start && cs[pos - 1] == '\r' {
                pos - 1
            } else {
                pos
            };
            let raw = slice_subrange(cs.as_slice(), start, end);
            assert(raw@ == ended_line(cs@, start as int, pos as int));
            let ghost before = lexer@;
            let res = lexer.classify_line(raw, line);
            let ghost all = lines_of(cs@);
            proof {
                assert(lines_from(cs@, pos as int, start as int) == seq![raw@] + lines_from(
                    cs@,
                    pos + 1,
                    pos + 1,
                ));
                assert(done.push(raw@) + lines_from(cs@, pos + 1, pos + 1) =~= all);
                lemma_run_prefix(done.push(raw@), done, done.len());
                lemma_run_prefix(all, done.push(raw@), done.len() + 1);
            }
            match res {
                Err(e) => {
                    proof {
                        lemma_run_err(all, done.len() + 1, all.len());
                    }
                    return Err(e);
                },
                Ok(()) => {},
            }
            proof {
                done = done.push(raw@);
            }
            line = line + 1;
            start = pos + 1;
        }
        pos = pos + 1;
    }
    let ghost all = lines_of(cs@);
    if start < n {
        let raw = slice_subrange(cs.as_slice(), start, n);
        let res = lexer.classify_line(raw, line);
        proof {
            assert(all =~= done.push(raw@));
            lemma_run_prefix(all, done, done.len());
        }
        match res {
            Err(e) => {
                return Err(e);
            },
            Ok(()) => {},
        }
    } else {
        assert(all =~= done);
    }
    Ok(lexer.tokens)
}

} // verus!
