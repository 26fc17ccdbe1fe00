use reqx::ast::HttpMethod;
use reqx::client::{ExampleMockClient, HttpClient, HttpResponse};
use reqx::interpreter::{execute, expand_url, interpolate, Env};
use reqx::lexer::{tokenize, Token};
use reqx::parser::parse;

#[test]
fn test_interpolate_basic() {
    let mut vars = Env::new();
    vars.insert("name".to_string(), "world".to_string());
    let result = interpolate("hello {{name}}!", &vars).unwrap();
    assert_eq!(result, "hello world!");
}

#[test]
fn test_interpolate_multiple() {
    let mut vars = Env::new();
    vars.insert("base".to_string(), "https://api.example.com".to_string());
    vars.insert("version".to_string(), "v2".to_string());
    let result = interpolate("{{base}}/{{version}}/users", &vars).unwrap();
    assert_eq!(result, "https://api.example.com/v2/users");
}

#[test]
fn test_interpolate_undefined_var() {
    let vars = Env::new();
    let result = interpolate("hello {{missing}}", &vars);
    assert!(result.is_err());
}

#[test]
fn test_interpolate_no_vars() {
    let vars = Env::new();
    let result = interpolate("no interpolation here", &vars).unwrap();
    assert_eq!(result, "no interpolation here");
}

#[test]
fn test_expand_url_localhost_shorthand() {
    assert_eq!(expand_url(":3000"), "http://localhost:3000");
    assert_eq!(
        expand_url(":8080/api/users"),
        "http://localhost:8080/api/users"
    );
    assert_eq!(expand_url("https://api.com"), "https://api.com");
    assert_eq!(expand_url("http://127.0.0.1:8000"), "http://127.0.0.1:8000");
}

#[derive(Debug)]
struct CapturedRequest {
    pub method: HttpMethod,
    pub url: String,
    pub headers: Vec<(String, String)>,
    pub body: Option<String>,
}

struct MockClient {
    pub last_request: std::sync::Mutex<Option<CapturedRequest>>,
}

impl HttpClient for MockClient {
    fn execute(
        &self,
        method: &HttpMethod,
        url: &str,
        headers: &[(String, String)],
        body: Option<&str>,
    ) -> Result<HttpResponse, String> {
        let mut last = self.last_request.lock().unwrap();
        *last = Some(CapturedRequest {
            method: method.clone(),
            url: url.to_string(),
            headers: headers.to_owned(),
            body: body.map(|b| b.to_string()),
        });

        Ok(HttpResponse {
            status: 200,
            status_is_success: true,
            status_is_client_error: false,
            status_is_server_error: false,
            headers: Vec::new(),
            body: "{}".to_string(),
        })
    }
}

struct RecordingClient {
    calls: std::sync::Mutex<Vec<CapturedRequest>>,
    fail_with: Option<String>,
}

impl RecordingClient {
    fn new() -> Self {
        RecordingClient { calls: std::sync::Mutex::new(Vec::new()), fail_with: None }
    }
}

impl HttpClient for RecordingClient {
    fn execute(
        &self,
        method: &HttpMethod,
        url: &str,
        headers: &[(String, String)],
        body: Option<&str>,
    ) -> Result<HttpResponse, String> {
        self.calls.lock().unwrap().push(CapturedRequest {
            method: *method,
            url: url.to_string(),
            headers: headers.to_vec(),
            body: body.map(|b| b.to_string()),
        });
        if let Some(msg) = &self.fail_with {
            return Err(msg.clone());
        }
        Ok(HttpResponse {
            status: 201,
            status_is_success: true,
            status_is_client_error: false,
            status_is_server_error: false,
            headers: vec![("X".to_string(), "y".to_string())],
            body: "ok".to_string(),
        })
    }
}

#[test]
fn test_exhaustive_integration_success() {
    let input = r#"
@api_key = secret123
@base_url = https://api.example.com

# First: GET with headers and variables
GET {{base_url}}/v1/users
X-Api-Key: {{api_key}}
Accept: application/json

###

# Second: POST with implicit method and body
{{base_url}}/v1/data

{
  "key": "value",
  "meta": "{{api_key}}"
}

###

# Third: Localhost shorthand
:8080/status
"#;

    let tokens = tokenize(input).expect("Tokenization failed");
    let file = parse(tokens).expect("Parsing failed");
    let client = MockClient {
        last_request: std::sync::Mutex::new(None),
    };

    execute(&client, &file, false, false, Some(1), None).expect("Execution failed");
    {
        let last = client.last_request.lock().unwrap().take().unwrap();
        assert_eq!(last.method, HttpMethod::Get);
        assert_eq!(last.url, "https://api.example.com/v1/users");
        assert!(
            last.headers
                .iter()
                .any(|(k, v)| k == "X-Api-Key" && v == "secret123")
        );
    }

    execute(&client, &file, false, false, Some(2), None).expect("Execution failed");
    {
        let last = client.last_request.lock().unwrap().take().unwrap();
        assert_eq!(last.method, HttpMethod::Post);
        assert_eq!(last.url, "https://api.example.com/v1/data");
        assert!(last.body.unwrap().contains("secret123"));
    }

    execute(&client, &file, false, false, Some(3), None).expect("Execution failed");
    {
        let last = client.last_request.lock().unwrap().take().unwrap();
        assert_eq!(last.url, "http://localhost:8080/status");
    }
}

#[test]
fn test_exhaustive_integration_errors() {
    let input_err1 = "GET https://{{missing_var}}.com";
    let tokens = tokenize(input_err1).unwrap();
    let file = parse(tokens).unwrap();
    let client = MockClient {
        last_request: std::sync::Mutex::new(None),
    };
    let res = execute(&client, &file, false, false, None, None);
    assert!(res.is_err());
    assert!(res.unwrap_err().contains("Undefined variable"));

    let input_err2 = "GET https://example.com/{{unclosed";
    let tokens = tokenize(input_err2).unwrap();
    let file = parse(tokens).unwrap();
    let res = execute(&client, &file, false, false, None, None);
    assert!(res.is_err());
    assert!(res.unwrap_err().contains("Unclosed variable interpolation"));
}

#[test]
fn test_exhaustive_variable_persistence() {
    let input = r#"
@count = 1
GET https://api.com/{{count}}

###
@count = 2
GET https://api.com/{{count}}
"#;
    let tokens = tokenize(input).unwrap();
    let file = parse(tokens).unwrap();
    let client = MockClient {
        last_request: std::sync::Mutex::new(None),
    };

    execute(&client, &file, false, false, Some(1), None).unwrap();
    {
        let last = client.last_request.lock().unwrap().take().unwrap();
        assert_eq!(last.url, "https://api.com/2");
    }
}

#[test]
fn end_to_end_single_recorded_call() {
    let input = "@base=https://api.example.com\n\nGET {{base}}/users\nAccept: application/json";
    let file = parse(tokenize(input).unwrap()).unwrap();
    let client = RecordingClient::new();
    let report = execute(&client, &file, false, false, None, None).unwrap();
    let calls = client.calls.lock().unwrap();
    assert_eq!(calls.len(), 1);
    assert_eq!(calls[0].method, HttpMethod::Get);
    assert_eq!(calls[0].url, "https://api.example.com/users");
    assert_eq!(
        calls[0].headers,
        vec![("Accept".to_string(), "application/json".to_string())]
    );
    assert_eq!(calls[0].body, None);
    assert_eq!(report.runs.len(), 1);
    assert_eq!(report.runs[0].position, 0);
    assert_eq!(report.runs[0].response.as_ref().unwrap().status, 201);
}

#[test]
fn end_to_end_implicit_post_with_body() {
    let input = "@name = Ada\nGET :9000/a\n\n###\n\nhttps://x.io/people\n\n{\"name\": \"{{name}}\"}";
    let file = parse(tokenize(input).unwrap()).unwrap();
    let client = RecordingClient::new();
    execute(&client, &file, false, false, None, None).unwrap();
    let calls = client.calls.lock().unwrap();
    assert_eq!(calls.len(), 2);
    assert_eq!(calls[0].method, HttpMethod::Get);
    assert_eq!(calls[0].url, "http://localhost:9000/a");
    assert_eq!(calls[1].method, HttpMethod::Post);
    assert_eq!(calls[1].url, "https://x.io/people");
    assert_eq!(calls[1].body, Some("{\"name\": \"Ada\"}".to_string()));
}

fn three_requests() -> reqx::ast::ReqxFile {
    let input = "GET :1/a\n\n###\nPOST :1/b\n\n{}\n\n###\nGET :1/c";
    parse(tokenize(input).unwrap()).unwrap()
}

#[test]
fn select_index_zero_fails() {
    let file = three_requests();
    let client = RecordingClient::new();
    let err = execute(&client, &file, false, false, Some(0), None).unwrap_err();
    assert_eq!(err, "Invalid request index: 0. The file has 3 request(s).");
    assert!(client.calls.lock().unwrap().is_empty());
}

#[test]
fn select_index_past_end_fails() {
    let file = three_requests();
    let client = RecordingClient::new();
    let err = execute(&client, &file, false, false, Some(4), None).unwrap_err();
    assert_eq!(err, "Invalid request index: 4. The file has 3 request(s).");
}

#[test]
fn select_unknown_method_filter_fails() {
    let file = three_requests();
    let client = RecordingClient::new();
    let err = execute(&client, &file, false, false, None, Some("FETCH".to_string())).unwrap_err();
    assert_eq!(err, "Invalid HTTP method filter: FETCH");
}

#[test]
fn select_filter_without_match_succeeds() {
    let file = three_requests();
    let client = RecordingClient::new();
    let report = execute(&client, &file, false, false, None, Some("delete".to_string())).unwrap();
    assert!(report.runs.is_empty());
    assert!(client.calls.lock().unwrap().is_empty());
}

#[test]
fn select_filter_keeps_order() {
    let file = three_requests();
    let client = RecordingClient::new();
    let report = execute(&client, &file, true, false, None, Some("get".to_string())).unwrap();
    let positions: Vec<usize> = report.runs.iter().map(|r| r.position).collect();
    assert_eq!(positions, vec![0, 2]);
    assert_eq!(report.total, 3);
    assert!(report.verbose);
    let urls: Vec<String> = client.calls.lock().unwrap().iter().map(|c| c.url.clone()).collect();
    assert_eq!(urls, vec!["http://localhost:1/a", "http://localhost:1/c"]);
}

#[test]
fn dry_run_sends_nothing() {
    let file = three_requests();
    let client = RecordingClient::new();
    let report = execute(&client, &file, false, true, None, None).unwrap();
    assert_eq!(report.runs.len(), 3);
    assert!(report.runs.iter().all(|r| r.response.is_none()));
    assert_eq!(report.runs[1].request.method, HttpMethod::Post);
    assert_eq!(report.runs[1].request.body, Some("{}".to_string()));
    assert!(client.calls.lock().unwrap().is_empty());
}

#[test]
fn transport_failure_stops_the_run() {
    let file = three_requests();
    let client = RecordingClient {
        calls: std::sync::Mutex::new(Vec::new()),
        fail_with: Some("connection refused".to_string()),
    };
    let err = execute(&client, &file, false, false, None, None).unwrap_err();
    assert_eq!(err, "connection refused");
    assert_eq!(client.calls.lock().unwrap().len(), 1);
}

#[test]
fn header_references_resolved() {
    let input = "@k = X-Key\n@v = 42\nGET :5/x\n{{k}}: {{ v }}";
    let file = parse(tokenize(input).unwrap()).unwrap();
    let client = RecordingClient::new();
    execute(&client, &file, false, false, None, None).unwrap();
    let calls = client.calls.lock().unwrap();
    assert_eq!(calls[0].headers, vec![("X-Key".to_string(), "42".to_string())]);
}

#[test]
fn interpolate_error_messages() {
    let mut vars = Env::new();
    vars.insert("a".to_string(), "1".to_string());
    assert_eq!(
        interpolate("x {{ b }} y", &vars).unwrap_err(),
        "Undefined variable: b"
    );
    assert_eq!(
        interpolate("x {{a} y", &vars).unwrap_err(),
        "Unclosed variable interpolation: {{a} y}"
    );
}

#[test]
fn interpolate_is_not_recursive() {
    let mut vars = Env::new();
    vars.insert("a".to_string(), "{{b}}".to_string());
    vars.insert("b".to_string(), "no".to_string());
    assert_eq!(interpolate("<{{a}}>", &vars).unwrap(), "<{{b}}>");
}

#[test]
fn env_last_insert_wins() {
    let mut vars = Env::new();
    vars.insert("a".to_string(), "1".to_string());
    vars.insert("b".to_string(), "2".to_string());
    vars.insert("a".to_string(), "3".to_string());
    assert_eq!(vars.get(&"a".to_string()), Some(&"3".to_string()));
    assert_eq!(vars.get(&"b".to_string()), Some(&"2".to_string()));
    assert_eq!(vars.get(&"c".to_string()), None);
}

#[test]
fn example_mock_client_answers() {
    let client = ExampleMockClient;
    let resp = client.execute(&HttpMethod::Get, "http://x", &[], None).unwrap();
    assert_eq!(resp.status, 200);
    assert!(resp.status_is_success);
    assert_eq!(
        resp.headers,
        vec![("Content-Type".to_string(), "application/json".to_string())]
    );
    assert_eq!(resp.body, "{\"message\": \"Hello from ExampleMockClient!\"}");
}

#[test]
fn body_line_right_after_headers_is_kept() {
    let file = parse(tokenize("http://x\nA: b\nhello").unwrap()).unwrap();
    assert_eq!(file.requests.len(), 1);
    assert_eq!(file.requests[0].headers.len(), 1);
    assert_eq!(file.requests[0].body, Some("hello".to_string()));
    assert_eq!(file.requests[0].method, HttpMethod::Post);
}

#[test]
fn unicode_upper_case_method_names() {
    assert_eq!(HttpMethod::from_name("po\u{17f}t"), Some(HttpMethod::Post));
    assert_eq!(HttpMethod::from_name("opt\u{131}ons"), Some(HttpMethod::Options));
    let tokens = tokenize("option\u{17f} x").unwrap();
    let kinds: Vec<Token> = tokens.iter().map(|t| t.token.clone()).collect();
    assert_eq!(
        kinds,
        vec![Token::Method("OPTIONS".to_string()), Token::Url("x".to_string())]
    );
}

#[test]
fn real_run_interpolation_error_before_any_call() {
    let file = parse(tokenize("GET https://{{missing_var}}.com").unwrap()).unwrap();
    let client = RecordingClient::new();
    let err = execute(&client, &file, false, false, None, None).unwrap_err();
    assert_eq!(err, "Undefined variable: missing_var");
    assert!(client.calls.lock().unwrap().is_empty());
}
