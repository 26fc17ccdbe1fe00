//! The document that the parser builds: variables and request blocks, in source order.

use vstd::prelude::*;

use crate::text::{chars_of, string_of};

verus! {

/// A parsed `.reqx` document.
#[derive(Debug, Clone)]
pub struct ReqxFile {
    pub variables: Vec<Variable>,
    pub requests: Vec<Request>,
}

/// A variable definition: `@name = value`.
#[derive(Debug, Clone)]
pub struct Variable {
    pub name: String,
    pub value: String,
    pub line: usize,
}

/// One request block.
#[derive(Debug, Clone)]
pub struct Request {
    pub comment: Option<String>,
    pub method: HttpMethod,
    pub url: String,
    pub headers: Vec<Header>,
    pub body: Option<String>,
    pub line: usize,
}

/// A header line: `Key: Value`.
#[derive(Debug, Clone)]
pub struct Header {
    pub key: String,
    pub value: String,
}

/// The methods a request may use.
#[derive(Debug, Clone, Copy, PartialEq, Eq, Structural)]
pub enum HttpMethod {
    Get,
    Post,
    Put,
    Patch,
    Delete,
    Head,
    Options,
}

/// Model of a variable definition.
pub struct VariableV {
    pub name: Seq<char>,
    pub value: Seq<char>,
    pub line: int,
}

/// Model of a request block; headers are `(key, value)` pairs.
pub struct RequestV {
    pub comment: Option<Seq<char>>,
    pub method: HttpMethod,
    pub url: Seq<char>,
    pub headers: Seq<(Seq<char>, Seq<char>)>,
    pub body: Option<Seq<char>>,
    pub line: int,
}

/// Model of a document.
pub struct ReqxFileV {
    pub variables: Seq<VariableV>,
    pub requests: Seq<RequestV>,
}

pub open spec fn opt_view(o: Option<String>) -> Option<Seq<char>> {
    match o {
        Some(s) => Some(s@),
        None => None,
    }
}

impl View for Variable {
    type V = VariableV;

    open spec fn view(&self) -> VariableV {
        VariableV { name: self.name@, value: self.value@, line: self.line as int }
    }
}

impl View for Header {
    type V = (Seq<char>, Seq<char>);

    open spec fn view(&self) -> (Seq<char>, Seq<char>) {
        (self.key@, self.value@)
    }
}

pub open spec fn headers_view(hs: Seq<Header>) -> Seq<(Seq<char>, Seq<char>)> {
    hs.map_values(|h: Header| h@)
}

impl View for Request {
    type V = RequestV;

    open spec fn view(&self) -> RequestV {
        RequestV {
            comment: opt_view(self.comment),
            method: self.method,
            url: self.url@,
            headers: headers_view(self.headers@),
            body: opt_view(self.body),
            line: self.line as int,
        }
    }
}

pub open spec fn variables_view(vs: Seq<Variable>) -> Seq<VariableV> {
    vs.map_values(|v: Variable| v@)
}

pub open spec fn requests_view(rs: Seq<Request>) -> Seq<RequestV> {
    rs.map_values(|r: Request| r@)
}

impl View for ReqxFile {
    type V = ReqxFileV;

    open spec fn view(&self) -> ReqxFileV {
        ReqxFileV {
            variables: variables_view(self.variables@),
            requests: requests_view(self.requests@),
        }
    }
}

/// The canonical (upper-case) name of a method.
pub open spec fn method_name(m: HttpMethod) -> Seq<char> {
    match m {
        HttpMethod::Get => seq!['G', 'E', 'T'],
        HttpMethod::Post => seq!['P', 'O', 'S', 'T'],
        HttpMethod::Put => seq!['P', 'U', 'T'],
        HttpMethod::Patch => seq!['P', 'A', 'T', 'C', 'H'],
        HttpMethod::Delete => seq!['D', 'E', 'L', 'E', 'T', 'E'],
        HttpMethod::Head => seq!['H', 'E', 'A', 'D'],
        HttpMethod::Options => seq!['O', 'P', 'T', 'I', 'O', 'N', 'S'],
    }
}

/// What `str::to_uppercase` makes of a text.
pub uninterp spec fn upper_of(s: Seq<char>) -> Seq<char>;

/// Relies on `str::to_uppercase`: the text in upper case, by Unicode's
/// mapping, which depends on the characters alone.
#[verifier::external_body]
fn to_upper(s: &str) -> (r: String)
    ensures
        r@ == upper_of(s@),
{
    s.to_uppercase()
}

/// The method whose name is `s` in upper case.
pub open spec fn method_of(s: Seq<char>) -> Option<HttpMethod> {
    if upper_of(s) == method_name(HttpMethod::Get) {
        Some(HttpMethod::Get)
    } else if upper_of(s) == method_name(HttpMethod::Post) {
        Some(HttpMethod::Post)
    } else if upper_of(s) == method_name(HttpMethod::Put) {
        Some(HttpMethod::Put)
    } else if upper_of(s) == method_name(HttpMethod::Patch) {
        Some(HttpMethod::Patch)
    } else if upper_of(s) == method_name(HttpMethod::Delete) {
        Some(HttpMethod::Delete)
    } else if upper_of(s) == method_name(HttpMethod::Head) {
        Some(HttpMethod::Head)
    } else if upper_of(s) == method_name(HttpMethod::Options) {
        Some(HttpMethod::Options)
    } else {
        None
    }
}

impl HttpMethod {
    /// The canonical upper-case name, e.g. `"GET"`.
    pub fn as_str(&self) -> (r: &'static str)
        ensures
            r@ == method_name(*self),
    {
        match self {
            HttpMethod::Get => {
                proof {
                    reveal_strlit("GET");
                }
                assert("GET"@ =~= method_name(*self));
                "GET"
            },
            HttpMethod::Post => {
                proof {
                    reveal_strlit("POST");
                }
                assert("POST"@ =~= method_name(*self));
                "POST"
            },
            HttpMethod::Put => {
                proof {
                    reveal_strlit("PUT");
                }
                assert("PUT"@ =~= method_name(*self));
                "PUT"
            },
            HttpMethod::Patch => {
                proof {
                    reveal_strlit("PATCH");
                }
                assert("PATCH"@ =~= method_name(*self));
                "PATCH"
            },
            HttpMethod::Delete => {
                proof {
                    reveal_strlit("DELETE");
                }
                assert("DELETE"@ =~= method_name(*self));
                "DELETE"
            },
            HttpMethod::Head => {
                proof {
                    reveal_strlit("HEAD");
                }
                assert("HEAD"@ =~= method_name(*self));
                "HEAD"
            },
            HttpMethod::Options => {
                proof {
                    reveal_strlit("OPTIONS");
                }
                assert("OPTIONS"@ =~= method_name(*self));
                "OPTIONS"
            },
        }
    }

    /// The canonical name as an owned string.
    pub fn name(&self) -> (r: String)
        ensures
            r@ == method_name(*self),
    {
        let cs = chars_of(self.as_str());
        string_of(cs.as_slice())
    }

    /// The method whose name is `s` in upper case.
    pub fn from_chars(s: &[char]) -> (r: Option<HttpMethod>)
        ensures
            r == method_of(s@),
    {
        let text = string_of(s);
        let upper = to_upper(text.as_str());
        if upper == HttpMethod::Get.name() {
            Some(HttpMethod::Get)
        } else if upper == HttpMethod::Post.name() {
            Some(HttpMethod::Post)
        } else if upper == HttpMethod::Put.name() {
            Some(HttpMethod::Put)
        } else if upper == HttpMethod::Patch.name() {
            Some(HttpMethod::Patch)
        } else if upper == HttpMethod::Delete.name() {
            Some(HttpMethod::Delete)
        } else if upper == HttpMethod::Head.name() {
            Some(HttpMethod::Head)
        } else if upper == HttpMethod::Options.name() {
            Some(HttpMethod::Options)
        } else {
            None
        }
    }

    /// The method whose name is `s` in upper case (`"post"` gives `Post`).
    pub fn from_name(s: &str) -> (r: Option<HttpMethod>)
        ensures
            r == method_of(s@),
    {
        let cs = chars_of(s);
        HttpMethod::from_chars(cs.as_slice())
    }
}

} // verus!
