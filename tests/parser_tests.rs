use reqx::ast::HttpMethod;
use reqx::lexer::{tokenize, LocatedToken, Token};
use reqx::parser::parse;

#[test]
fn test_parse_simple_get() {
    let input = "GET https://api.example.com/users\nAccept: application/json";
    let tokens = tokenize(input).unwrap();
    let file = parse(tokens).unwrap();
    assert_eq!(file.requests.len(), 1);
    assert_eq!(file.requests[0].method, HttpMethod::Get);
    assert_eq!(file.requests[0].url, "https://api.example.com/users");
    assert_eq!(file.requests[0].headers.len(), 1);
    assert_eq!(file.requests[0].headers[0].key, "Accept");
}

#[test]
fn test_parse_with_variables() {
    let input = r#"@base_url = https://api.example.com
@token = abc123

###

GET {{base_url}}/users
Authorization: Bearer {{token}}"#;
    let tokens = tokenize(input).unwrap();
    let file = parse(tokens).unwrap();
    assert_eq!(file.variables.len(), 2);
    assert_eq!(file.variables[0].name, "base_url");
    assert_eq!(file.variables[1].name, "token");
    assert_eq!(file.requests.len(), 1);
}

#[test]
fn test_parse_post_with_body() {
    let input = r#"POST https://api.example.com/users
Content-Type: application/json

{
  "name": "Test User",
  "email": "test@example.com"
}"#;
    let tokens = tokenize(input).unwrap();
    let file = parse(tokens).unwrap();
    assert_eq!(file.requests.len(), 1);
    assert_eq!(file.requests[0].method, HttpMethod::Post);
    assert!(file.requests[0].body.is_some());
    let body = file.requests[0].body.as_ref().unwrap();
    assert!(body.contains("\"name\""));
    assert!(body.contains("Test User"));
}

#[test]
fn test_parse_multiple_requests() {
    let input = r#"# First request
GET https://api.example.com/users

###

# Second request
POST https://api.example.com/users
Content-Type: application/json

{"name": "test"}"#;
    let tokens = tokenize(input).unwrap();
    let file = parse(tokens).unwrap();
    assert_eq!(file.requests.len(), 2);
    assert_eq!(file.requests[0].method, HttpMethod::Get);
    assert_eq!(file.requests[0].comment, Some("First request".to_string()));
    assert_eq!(file.requests[1].method, HttpMethod::Post);
    assert_eq!(file.requests[1].comment, Some("Second request".to_string()));
}

#[test]
fn test_parse_implicit_methods() {
    let input = r#"
# No body, defaults to GET
:3000/users

###

# Has body, defaults to POST
:3000/users

{"name": "test"}
        "#;
    let tokens = tokenize(input).unwrap();
    let file = parse(tokens).unwrap();
    assert_eq!(file.requests.len(), 2);
    assert_eq!(file.requests[0].method, HttpMethod::Get);
    assert_eq!(file.requests[0].url, ":3000/users");

    assert_eq!(file.requests[1].method, HttpMethod::Post);
    assert_eq!(file.requests[1].url, ":3000/users");
    assert!(file.requests[1].body.is_some());
}

#[test]
fn parse_counts_blocks_in_order() {
    let input = "# one\nGET :1/a\n\n###\n# two\n:2/b\n\n###\n\n# three\nPUT :3/c\n\n{}";
    let file = parse(tokenize(input).unwrap()).unwrap();
    assert_eq!(file.requests.len(), 3);
    let urls: Vec<&str> = file.requests.iter().map(|r| r.url.as_str()).collect();
    assert_eq!(urls, vec![":1/a", ":2/b", ":3/c"]);
    let comments: Vec<Option<String>> = file.requests.iter().map(|r| r.comment.clone()).collect();
    assert_eq!(
        comments,
        vec![Some("one".to_string()), Some("two".to_string()), Some("three".to_string())]
    );
    assert_eq!(file.requests[2].method, HttpMethod::Put);
    assert_eq!(file.requests[2].body, Some("{}".to_string()));
    assert_eq!(file.requests[1].line, 6);
}

#[test]
fn parse_last_comment_is_kept() {
    let input = "###\n# first\n# second\nGET :1";
    let file = parse(tokenize(input).unwrap()).unwrap();
    assert_eq!(file.requests.len(), 1);
    assert_eq!(file.requests[0].comment, Some("second".to_string()));
}

#[test]
fn parse_body_keeps_inner_blank_line() {
    let input = "POST :3000/x\n\n{\n\n}";
    let file = parse(tokenize(input).unwrap()).unwrap();
    assert_eq!(file.requests[0].body, Some("{\n\n}".to_string()));
}

#[test]
fn parse_duplicate_headers_kept() {
    let input = "GET :1\nX-A: 1\nX-A: 2";
    let file = parse(tokenize(input).unwrap()).unwrap();
    let hs: Vec<(String, String)> = file.requests[0]
        .headers
        .iter()
        .map(|h| (h.key.clone(), h.value.clone()))
        .collect();
    assert_eq!(
        hs,
        vec![("X-A".to_string(), "1".to_string()), ("X-A".to_string(), "2".to_string())]
    );
}

#[test]
fn parse_variables_between_blocks() {
    let input = "@a = 1\nGET :1\n\n###\n@a = 2\nGET :2";
    let file = parse(tokenize(input).unwrap()).unwrap();
    assert_eq!(file.variables.len(), 2);
    assert_eq!(file.variables[1].value, "2");
    assert_eq!(file.variables[1].line, 5);
    assert_eq!(file.requests.len(), 2);
}

#[test]
fn parse_missing_url_error() {
    let err = parse(tokenize("GET").unwrap()).unwrap_err();
    assert_eq!(err, "Line 1: expected URL after method");
}

#[test]
fn parse_expected_method_error() {
    let err = parse(tokenize("Host: example.com").unwrap()).unwrap_err();
    assert_eq!(err, "Line 1: expected HTTP method or URL");
}

#[test]
fn parse_unexpected_end_error() {
    let err = parse(tokenize("###\n# only a comment").unwrap()).unwrap_err();
    assert_eq!(err, "Unexpected end of input: expected HTTP method or URL");
}

#[test]
fn parse_unsupported_method_error() {
    let tokens = vec![
        LocatedToken { token: Token::Method("FETCH".to_string()), line: 3 },
        LocatedToken { token: Token::Url(":1".to_string()), line: 3 },
    ];
    let err = parse(tokens).unwrap_err();
    assert_eq!(err, "Line 3: unsupported HTTP method: FETCH");
}

#[test]
fn method_names() {
    assert_eq!(HttpMethod::from_name("post"), Some(HttpMethod::Post));
    assert_eq!(HttpMethod::from_name("OpTiOnS"), Some(HttpMethod::Options));
    assert_eq!(HttpMethod::from_name("FETCH"), None);
    assert_eq!(HttpMethod::Patch.as_str(), "PATCH");
    assert_eq!(HttpMethod::Delete.name(), "DELETE");
}
