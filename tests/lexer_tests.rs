use reqx::lexer::{tokenize, LocatedToken, Token};

#[test]
fn test_tokenize_variable() {
    let input = "@base_url = https://api.example.com";
    let tokens = tokenize(input).unwrap();
    assert_eq!(tokens.len(), 1);
    assert_eq!(
        tokens[0].token,
        Token::Variable {
            name: "base_url".to_string(),
            value: "https://api.example.com".to_string(),
        }
    );
}

#[test]
fn test_tokenize_separator() {
    let input = "###";
    let tokens = tokenize(input).unwrap();
    assert_eq!(tokens.len(), 1);
    assert_eq!(tokens[0].token, Token::Separator);
}

#[test]
fn test_tokenize_comment() {
    let input = "# This is a comment";
    let tokens = tokenize(input).unwrap();
    assert_eq!(tokens.len(), 1);
    assert_eq!(
        tokens[0].token,
        Token::Comment("This is a comment".to_string())
    );
}

#[test]
fn test_tokenize_method_and_url() {
    let input = "GET https://api.example.com/users";
    let tokens = tokenize(input).unwrap();
    assert_eq!(tokens.len(), 2);
    assert_eq!(tokens[0].token, Token::Method("GET".to_string()));
    assert_eq!(
        tokens[1].token,
        Token::Url("https://api.example.com/users".to_string())
    );
}

#[test]
fn test_tokenize_url_only() {
    let input = ":3000/api/status";
    let tokens = tokenize(input).unwrap();
    assert_eq!(tokens.len(), 1);
    assert_eq!(tokens[0].token, Token::Url(":3000/api/status".to_string()));
}

#[test]
fn test_tokenize_header() {
    let input = "Content-Type: application/json";
    let tokens = tokenize(input).unwrap();
    assert_eq!(tokens.len(), 1);
    assert_eq!(
        tokens[0].token,
        Token::Header {
            key: "Content-Type".to_string(),
            value: "application/json".to_string(),
        }
    );
}

#[test]
fn test_tokenize_full_request() {
    let input = r#"@token = abc123

###

# Get users
GET https://api.example.com/users
Authorization: Bearer {{token}}
Accept: application/json

{
  "key": "value"
}"#;
    let tokens = tokenize(input).unwrap();

    let mut found_var = false;
    let mut found_sep = false;
    let mut found_comment = false;
    let mut found_method = false;
    let mut found_body = false;
    for t in &tokens {
        match &t.token {
            Token::Variable { name, .. } if name == "token" => found_var = true,
            Token::Separator => found_sep = true,
            Token::Comment(c) if c == "Get users" => found_comment = true,
            Token::Method(m) if m == "GET" => found_method = true,
            Token::BodyLine(_) => found_body = true,
            _ => {}
        }
    }
    assert!(found_var, "should find variable");
    assert!(found_sep, "should find separator");
    assert!(found_comment, "should find comment");
    assert!(found_method, "should find method");
    assert!(found_body, "should find body");
}

fn kinds(tokens: &[LocatedToken]) -> Vec<Token> {
    tokens.iter().map(|t| t.token.clone()).collect()
}

#[test]
fn lexer_full_sequence_and_lines() {
    let input = "@token = abc\n\n# Get\nget https://x.io\nAccept: a/b\n\n{\n  \"k\": 1\n}";
    let tokens = tokenize(input).unwrap();
    assert_eq!(
        kinds(&tokens),
        vec![
            Token::Variable { name: "token".to_string(), value: "abc".to_string() },
            Token::BlankLine,
            Token::Comment("Get".to_string()),
            Token::Method("GET".to_string()),
            Token::Url("https://x.io".to_string()),
            Token::Header { key: "Accept".to_string(), value: "a/b".to_string() },
            Token::BlankLine,
            Token::BodyLine("{".to_string()),
            Token::BodyLine("  \"k\": 1".to_string()),
            Token::BodyLine("}".to_string()),
        ]
    );
    let lines: Vec<usize> = tokens.iter().map(|t| t.line).collect();
    assert_eq!(lines, vec![1, 2, 3, 4, 4, 5, 6, 7, 8, 9]);
}

#[test]
fn lexer_method_without_url() {
    let tokens = tokenize("DELETE").unwrap();
    assert_eq!(kinds(&tokens), vec![Token::Method("DELETE".to_string())]);
}

#[test]
fn lexer_crlf_lines() {
    let tokens = tokenize("GET http://a\r\nAccept: x\r\n").unwrap();
    assert_eq!(
        kinds(&tokens),
        vec![
            Token::Method("GET".to_string()),
            Token::Url("http://a".to_string()),
            Token::Header { key: "Accept".to_string(), value: "x".to_string() },
        ]
    );
}

#[test]
fn lexer_fallback_url_then_body_line() {
    let tokens = tokenize("example.com/path\nnot a header line").unwrap();
    assert_eq!(
        kinds(&tokens),
        vec![
            Token::Url("example.com/path".to_string()),
            Token::BodyLine("not a header line".to_string()),
        ]
    );
}

#[test]
fn lexer_separator_resets_request_line() {
    let tokens = tokenize(":1/a\n###\n:2/b").unwrap();
    assert_eq!(
        kinds(&tokens),
        vec![
            Token::Url(":1/a".to_string()),
            Token::Separator,
            Token::Url(":2/b".to_string()),
        ]
    );
}

#[test]
fn lexer_variable_ends_body() {
    let tokens = tokenize(":1\n\nbody\n@x = 1\nmore").unwrap();
    assert_eq!(
        kinds(&tokens),
        vec![
            Token::Url(":1".to_string()),
            Token::BlankLine,
            Token::BodyLine("body".to_string()),
            Token::Variable { name: "x".to_string(), value: "1".to_string() },
            Token::BodyLine("more".to_string()),
        ]
    );
}

#[test]
fn lexer_missing_equals_error() {
    let err = tokenize("GET :1\n@foo bar").unwrap_err();
    assert_eq!(err, "Line 2: invalid variable definition (missing '='): @foo bar");
}

#[test]
fn lexer_empty_name_error() {
    let err = tokenize("@ = 1").unwrap_err();
    assert_eq!(err, "Line 1: empty variable name");
}

#[test]
fn lexer_empty_input() {
    assert!(tokenize("").unwrap().is_empty());
}
