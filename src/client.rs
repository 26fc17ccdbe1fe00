//! The transport that the interpreter drives, supplied by the caller.

use vstd::prelude::*;

use crate::ast::HttpMethod;

verus! {

/// What a transport returns for a completed request.
#[derive(Debug, Clone)]
pub struct HttpResponse {
    pub status: u16,
    pub status_is_success: bool,
    pub status_is_client_error: bool,
    pub status_is_server_error: bool,
    pub headers: Vec<(String, String)>,
    pub body: String,
}

/// Sends one request: method, URL, headers in order, optional body. A real
/// network client, a mock or a recorded fixture may stand behind it.
pub trait HttpClient {
    fn execute(
        &self,
        method: &HttpMethod,
        url: &str,
        headers: &[(String, String)],
        body: Option<&str>,
    ) -> Result<HttpResponse, String>;
}

/// A transport that sends nothing and answers every request with a canned
/// JSON response.
pub struct ExampleMockClient;

impl HttpClient for ExampleMockClient {
    fn execute(
        &self,
        method: &HttpMethod,
        url: &str,
        headers: &[(String, String)],
        body: Option<&str>,
    ) -> Result<HttpResponse, String> {
        Ok(
            HttpResponse {
                status: 200,
                status_is_success: true,
                status_is_client_error: false,
                status_is_server_error: false,
                headers: vec![("Content-Type".to_owned(), "application/json".to_owned())],
                body: "{\"message\": \"Hello from ExampleMockClient!\"}".to_owned(),
            },
        )
    }
}

} // verus!
