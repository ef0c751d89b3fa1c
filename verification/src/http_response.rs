//! The wire form of every HTTP reply this proxy sends.
//!
//! A static table from status to its full serialized response line; replies
//! carry no body except the proxy-authentication challenge.

use vstd::prelude::*;
use vstd::string::StringSliceAdditionalSpecFns;

verus! {

/// ASCII text as its byte sequence.
pub open spec fn ascii_of(s: Seq<char>) -> Seq<u8> {
    Seq::new(s.len(), |i: int| s[i] as u8)
}

#[derive(Clone, Copy, Debug, PartialEq, Eq, Structural)]
pub enum HttpResponse {
    Continue,
    SwitchingProtocols,
    StatusOk,
    OkEstablished,
    Created,
    Accepted,
    NonAuthoritativeInformation,
    NoContent,
    ResetContent,
    PartialContent,
    MultipleChoices,
    MovedPermanently,
    Found,
    SeeOther,
    NotModified,
    UseProxy,
    TemporaryRedirect,
    BadRequest,
    Unauthorized,
    PaymentRequired,
    Forbidden,
    NotFound,
    MethodNotAllowed,
    NotAcceptable,
    ProxyAuthenticationRequired,
    RequestTimeout,
    Conflict,
    Gone,
    LengthRequired,
    PreconditionFailed,
    RequestEntityTooLarge,
    RequestUriTooLong,
    UnsupportedMediaType,
    RequestedRangeNotSatisfiable,
    ExpectationFailed,
    InternalServerError,
    NotImplemented,
    BadGateway,
    ServiceUnavailable,
    GatewayTimeout,
    HttpVersionNotSupported,
}

impl HttpResponse {
    /// The response's full wire text.
    pub open spec fn spec_text(self) -> Seq<char> {
        match self {
            HttpResponse::Continue => "HTTP/1.1 100 Continue\r\n\r\n"@,
            HttpResponse::SwitchingProtocols => "HTTP/1.1 101 Switching Protocols\r\n\r\n"@,
            HttpResponse::StatusOk => "HTTP/1.1 200 OK\r\n\r\n"@,
            HttpResponse::OkEstablished => "HTTP/1.1 200 Connection Established\r\n\r\n"@,
            HttpResponse::Created => "HTTP/1.1 201 Created\r\n\r\n"@,
            HttpResponse::Accepted => "HTTP/1.1 202 Accepted\r\n\r\n"@,
            HttpResponse::NonAuthoritativeInformation => "HTTP/1.1 203 Non-Authoritative Information\r\n\r\n"@,
            HttpResponse::NoContent => "HTTP/1.1 204 No Content\r\n\r\n"@,
            HttpResponse::ResetContent => "HTTP/1.1 205 Reset Content\r\n\r\n"@,
            HttpResponse::PartialContent => "HTTP/1.1 206 Partial Content\r\n\r\n"@,
            HttpResponse::MultipleChoices => "HTTP/1.1 300 Multiple Choices\r\n\r\n"@,
            HttpResponse::MovedPermanently => "HTTP/1.1 301 Moved Permanently\r\n\r\n"@,
            HttpResponse::Found => "HTTP/1.1 302 Found\r\n\r\n"@,
            HttpResponse::SeeOther => "HTTP/1.1 303 See Other\r\n\r\n"@,
            HttpResponse::NotModified => "HTTP/1.1 304 Not Modified\r\n\r\n"@,
            HttpResponse::UseProxy => "HTTP/1.1 305 Use Proxy\r\n\r\n"@,
            HttpResponse::TemporaryRedirect => "HTTP/1.1 307 Temporary Redirect\r\n\r\n"@,
            HttpResponse::BadRequest => "HTTP/1.1 400 Bad Request\r\n\r\n"@,
            HttpResponse::Unauthorized => "HTTP/1.1 401 Unauthorized\r\n\r\n"@,
            HttpResponse::PaymentRequired => "HTTP/1.1 402 Payment Required\r\n\r\n"@,
            HttpResponse::Forbidden => "HTTP/1.1 403 Forbidden\r\n\r\n"@,
            HttpResponse::NotFound => "HTTP/1.1 404 Not Found\r\n\r\n"@,
            HttpResponse::MethodNotAllowed => "HTTP/1.1 405 Method Not Allowed\r\n\r\n"@,
            HttpResponse::NotAcceptable => "HTTP/1.1 406 Not Acceptable\r\n\r\n"@,
            HttpResponse::ProxyAuthenticationRequired => "HTTP/1.1 407 Proxy Authentication Required\r\nProxy-Authenticate: Basic realm=\"Leastslow Network\"\r\n\r\nAccess Denied"@,
            HttpResponse::RequestTimeout => "HTTP/1.1 408 Request Timeout\r\n\r\n"@,
            HttpResponse::Conflict => "HTTP/1.1 409 Conflict\r\n\r\n"@,
            HttpResponse::Gone => "HTTP/1.1 410 Gone\r\n\r\n"@,
            HttpResponse::LengthRequired => "HTTP/1.1 411 Length Required\r\n\r\n"@,
            HttpResponse::PreconditionFailed => "HTTP/1.1 412 Precondition Failed\r\n\r\n"@,
            HttpResponse::RequestEntityTooLarge => "HTTP/1.1 413 Request Entity Too Large\r\n\r\n"@,
            HttpResponse::RequestUriTooLong => "HTTP/1.1 414 Request-URI Too Long\r\n\r\n"@,
            HttpResponse::UnsupportedMediaType => "HTTP/1.1 415 Unsupported Media Type\r\n\r\n"@,
            HttpResponse::RequestedRangeNotSatisfiable => "HTTP/1.1 416 Requested Range Not Satisfiable\r\n\r\n"@,
            HttpResponse::ExpectationFailed => "HTTP/1.1 417 Expectation Failed\r\n\r\n"@,
            HttpResponse::InternalServerError => "HTTP/1.1 500 Internal Server Error\r\n\r\n"@,
            HttpResponse::NotImplemented => "HTTP/1.1 501 Not Implemented\r\n\r\n"@,
            HttpResponse::BadGateway => "HTTP/1.1 502 Bad Gateway\r\n\r\n"@,
            HttpResponse::ServiceUnavailable => "HTTP/1.1 503 Service Unavailable\r\n\r\n"@,
            HttpResponse::GatewayTimeout => "HTTP/1.1 504 Gateway Timeout\r\n\r\n"@,
            HttpResponse::HttpVersionNotSupported => "HTTP/1.1 505 HTTP Version Not Supported\r\n\r\n"@,
        }
    }

    /// The serialized response: the ASCII bytes of its wire text.
    pub fn as_bytes(&self) -> (r: &'static [u8])
        ensures
            r@ == ascii_of(self.spec_text()),
    {
        broadcast use vstd::string::is_ascii_spec_bytes;

        match self {
            HttpResponse::Continue => {
                let s = "HTTP/1.1 100 Continue\r\n\r\n";
                proof {
                    reveal_strlit("HTTP/1.1 100 Continue\r\n\r\n");
                    assert(s.is_ascii());
                    assert(s.spec_bytes() =~= ascii_of(self.spec_text()));
                }
                s.as_bytes()
            },
            HttpResponse::SwitchingProtocols => {
                let s = "HTTP/1.1 101 Switching Protocols\r\n\r\n";
                proof {
                    reveal_strlit("HTTP/1.1 101 Switching Protocols\r\n\r\n");
                    assert(s.is_ascii());
                    assert(s.spec_bytes() =~= ascii_of(self.spec_text()));
                }
                s.as_bytes()
            },
            HttpResponse::StatusOk => {
                let s = "HTTP/1.1 200 OK\r\n\r\n";
                proof {
                    reveal_strlit("HTTP/1.1 200 OK\r\n\r\n");
                    assert(s.is_ascii());
                    assert(s.spec_bytes() =~= ascii_of(self.spec_text()));
                }
                s.as_bytes()
            },
            HttpResponse::OkEstablished => {
                let s = "HTTP/1.1 200 Connection Established\r\n\r\n";
                proof {
                    reveal_strlit("HTTP/1.1 200 Connection Established\r\n\r\n");
                    assert(s.is_ascii());
                    assert(s.spec_bytes() =~= ascii_of(self.spec_text()));
                }
                s.as_bytes()
            },
            HttpResponse::Created => {
                let s = "HTTP/1.1 201 Created\r\n\r\n";
                proof {
                    reveal_strlit("HTTP/1.1 201 Created\r\n\r\n");
                    assert(s.is_ascii());
                    assert(s.spec_bytes() =~= ascii_of(self.spec_text()));
                }
                s.as_bytes()
            },
            HttpResponse::Accepted => {
                let s = "HTTP/1.1 202 Accepted\r\n\r\n";
                proof {
                    reveal_strlit("HTTP/1.1 202 Accepted\r\n\r\n");
                    assert(s.is_ascii());
                    assert(s.spec_bytes() =~= ascii_of(self.spec_text()));
                }
                s.as_bytes()
            },
            HttpResponse::NonAuthoritativeInformation => {
                let s = "HTTP/1.1 203 Non-Authoritative Information\r\n\r\n";
                proof {
                    reveal_strlit("HTTP/1.1 203 Non-Authoritative Information\r\n\r\n");
                    assert(s.is_ascii());
                    assert(s.spec_bytes() =~= ascii_of(self.spec_text()));
                }
                s.as_bytes()
            },
            HttpResponse::NoContent => {
                let s = "HTTP/1.1 204 No Content\r\n\r\n";
                proof {
                    reveal_strlit("HTTP/1.1 204 No Content\r\n\r\n");
                    assert(s.is_ascii());
                    assert(s.spec_bytes() =~= ascii_of(self.spec_text()));
                }
                s.as_bytes()
            },
            HttpResponse::ResetContent => {
                let s = "HTTP/1.1 205 Reset Content\r\n\r\n";
                proof {
                    reveal_strlit("HTTP/1.1 205 Reset Content\r\n\r\n");
                    assert(s.is_ascii());
                    assert(s.spec_bytes() =~= ascii_of(self.spec_text()));
                }
                s.as_bytes()
            },
            HttpResponse::PartialContent => {
                let s = "HTTP/1.1 206 Partial Content\r\n\r\n";
                proof {
                    reveal_strlit("HTTP/1.1 206 Partial Content\r\n\r\n");
                    assert(s.is_ascii());
                    assert(s.spec_bytes() =~= ascii_of(self.spec_text()));
                }
                s.as_bytes()
            },
            HttpResponse::MultipleChoices => {
                let s = "HTTP/1.1 300 Multiple Choices\r\n\r\n";
                proof {
                    reveal_strlit("HTTP/1.1 300 Multiple Choices\r\n\r\n");
                    assert(s.is_ascii());
                    assert(s.spec_bytes() =~= ascii_of(self.spec_text()));
                }
                s.as_bytes()
            },
            HttpResponse::MovedPermanently => {
                let s = "HTTP/1.1 301 Moved Permanently\r\n\r\n";
                proof {
                    reveal_strlit("HTTP/1.1 301 Moved Permanently\r\n\r\n");
                    assert(s.is_ascii());
                    assert(s.spec_bytes() =~= ascii_of(self.spec_text()));
                }
                s.as_bytes()
            },
            HttpResponse::Found => {
                let s = "HTTP/1.1 302 Found\r\n\r\n";
                proof {
                    reveal_strlit("HTTP/1.1 302 Found\r\n\r\n");
                    assert(s.is_ascii());
                    assert(s.spec_bytes() =~= ascii_of(self.spec_text()));
                }
                s.as_bytes()
            },
            HttpResponse::SeeOther => {
                let s = "HTTP/1.1 303 See Other\r\n\r\n";
                proof {
                    reveal_strlit("HTTP/1.1 303 See Other\r\n\r\n");
                    assert(s.is_ascii());
                    assert(s.spec_bytes() =~= ascii_of(self.spec_text()));
                }
                s.as_bytes()
            },
            HttpResponse::NotModified => {
                let s = "HTTP/1.1 304 Not Modified\r\n\r\n";
                proof {
                    reveal_strlit("HTTP/1.1 304 Not Modified\r\n\r\n");
                    assert(s.is_ascii());
                    assert(s.spec_bytes() =~= ascii_of(self.spec_text()));
                }
                s.as_bytes()
            },
            HttpResponse::UseProxy => {
                let s = "HTTP/1.1 305 Use Proxy\r\n\r\n";
                proof {
                    reveal_strlit("HTTP/1.1 305 Use Proxy\r\n\r\n");
                    assert(s.is_ascii());
                    assert(s.spec_bytes() =~= ascii_of(self.spec_text()));
                }
                s.as_bytes()
            },
            HttpResponse::TemporaryRedirect => {
                let s = "HTTP/1.1 307 Temporary Redirect\r\n\r\n";
                proof {
                    reveal_strlit("HTTP/1.1 307 Temporary Redirect\r\n\r\n");
                    assert(s.is_ascii());
                    assert(s.spec_bytes() =~= ascii_of(self.spec_text()));
                }
                s.as_bytes()
            },
            HttpResponse::BadRequest => {
                let s = "HTTP/1.1 400 Bad Request\r\n\r\n";
                proof {
                    reveal_strlit("HTTP/1.1 400 Bad Request\r\n\r\n");
                    assert(s.is_ascii());
                    assert(s.spec_bytes() =~= ascii_of(self.spec_text()));
                }
                s.as_bytes()
            },
            HttpResponse::Unauthorized => {
                let s = "HTTP/1.1 401 Unauthorized\r\n\r\n";
                proof {
                    reveal_strlit("HTTP/1.1 401 Unauthorized\r\n\r\n");
                    assert(s.is_ascii());
                    assert(s.spec_bytes() =~= ascii_of(self.spec_text()));
                }
                s.as_bytes()
            },
            HttpResponse::PaymentRequired => {
                let s = "HTTP/1.1 402 Payment Required\r\n\r\n";
                proof {
                    reveal_strlit("HTTP/1.1 402 Payment Required\r\n\r\n");
                    assert(s.is_ascii());
                    assert(s.spec_bytes() =~= ascii_of(self.spec_text()));
                }
                s.as_bytes()
            },
            HttpResponse::Forbidden => {
                let s = "HTTP/1.1 403 Forbidden\r\n\r\n";
                proof {
                    reveal_strlit("HTTP/1.1 403 Forbidden\r\n\r\n");
                    assert(s.is_ascii());
                    assert(s.spec_bytes() =~= ascii_of(self.spec_text()));
                }
                s.as_bytes()
            },
            HttpResponse::NotFound => {
                let s = "HTTP/1.1 404 Not Found\r\n\r\n";
                proof {
                    reveal_strlit("HTTP/1.1 404 Not Found\r\n\r\n");
                    assert(s.is_ascii());
                    assert(s.spec_bytes() =~= ascii_of(self.spec_text()));
                }
                s.as_bytes()
            },
            HttpResponse::MethodNotAllowed => {
                let s = "HTTP/1.1 405 Method Not Allowed\r\n\r\n";
                proof {
                    reveal_strlit("HTTP/1.1 405 Method Not Allowed\r\n\r\n");
                    assert(s.is_ascii());
                    assert(s.spec_bytes() =~= ascii_of(self.spec_text()));
                }
                s.as_bytes()
            },
            HttpResponse::NotAcceptable => {
                let s = "HTTP/1.1 406 Not Acceptable\r\n\r\n";
                proof {
                    reveal_strlit("HTTP/1.1 406 Not Acceptable\r\n\r\n");
                    assert(s.is_ascii());
                    assert(s.spec_bytes() =~= ascii_of(self.spec_text()));
                }
                s.as_bytes()
            },
            HttpResponse::ProxyAuthenticationRequired => {
                let s = "HTTP/1.1 407 Proxy Authentication Required\r\nProxy-Authenticate: Basic realm=\"Leastslow Network\"\r\n\r\nAccess Denied";
                proof {
                    reveal_strlit("HTTP/1.1 407 Proxy Authentication Required\r\nProxy-Authenticate: Basic realm=\"Leastslow Network\"\r\n\r\nAccess Denied");
                    assert(s.is_ascii());
                    assert(s.spec_bytes() =~= ascii_of(self.spec_text()));
                }
                s.as_bytes()
            },
            HttpResponse::RequestTimeout => {
                let s = "HTTP/1.1 408 Request Timeout\r\n\r\n";
                proof {
                    reveal_strlit("HTTP/1.1 408 Request Timeout\r\n\r\n");
                    assert(s.is_ascii());
                    assert(s.spec_bytes() =~= ascii_of(self.spec_text()));
                }
                s.as_bytes()
            },
            HttpResponse::Conflict => {
                let s = "HTTP/1.1 409 Conflict\r\n\r\n";
                proof {
                    reveal_strlit("HTTP/1.1 409 Conflict\r\n\r\n");
                    assert(s.is_ascii());
                    assert(s.spec_bytes() =~= ascii_of(self.spec_text()));
                }
                s.as_bytes()
            },
            HttpResponse::Gone => {
                let s = "HTTP/1.1 410 Gone\r\n\r\n";
                proof {
                    reveal_strlit("HTTP/1.1 410 Gone\r\n\r\n");
                    assert(s.is_ascii());
                    assert(s.spec_bytes() =~= ascii_of(self.spec_text()));
                }
                s.as_bytes()
            },
            HttpResponse::LengthRequired => {
                let s = "HTTP/1.1 411 Length Required\r\n\r\n";
                proof {
                    reveal_strlit("HTTP/1.1 411 Length Required\r\n\r\n");
                    assert(s.is_ascii());
                    assert(s.spec_bytes() =~= ascii_of(self.spec_text()));
                }
                s.as_bytes()
            },
            HttpResponse::PreconditionFailed => {
                let s = "HTTP/1.1 412 Precondition Failed\r\n\r\n";
                proof {
                    reveal_strlit("HTTP/1.1 412 Precondition Failed\r\n\r\n");
                    assert(s.is_ascii());
                    assert(s.spec_bytes() =~= ascii_of(self.spec_text()));
                }
                s.as_bytes()
            },
            HttpResponse::RequestEntityTooLarge => {
                let s = "HTTP/1.1 413 Request Entity Too Large\r\n\r\n";
                proof {
                    reveal_strlit("HTTP/1.1 413 Request Entity Too Large\r\n\r\n");
                    assert(s.is_ascii());
                    assert(s.spec_bytes() =~= ascii_of(self.spec_text()));
                }
                s.as_bytes()
            },
            HttpResponse::RequestUriTooLong => {
                let s = "HTTP/1.1 414 Request-URI Too Long\r\n\r\n";
                proof {
                    reveal_strlit("HTTP/1.1 414 Request-URI Too Long\r\n\r\n");
                    assert(s.is_ascii());
                    assert(s.spec_bytes() =~= ascii_of(self.spec_text()));
                }
                s.as_bytes()
            },
            HttpResponse::UnsupportedMediaType => {
                let s = "HTTP/1.1 415 Unsupported Media Type\r\n\r\n";
                proof {
                    reveal_strlit("HTTP/1.1 415 Unsupported Media Type\r\n\r\n");
                    assert(s.is_ascii());
                    assert(s.spec_bytes() =~= ascii_of(self.spec_text()));
                }
                s.as_bytes()
            },
            HttpResponse::RequestedRangeNotSatisfiable => {
                let s = "HTTP/1.1 416 Requested Range Not Satisfiable\r\n\r\n";
                proof {
                    reveal_strlit("HTTP/1.1 416 Requested Range Not Satisfiable\r\n\r\n");
                    assert(s.is_ascii());
                    assert(s.spec_bytes() =~= ascii_of(self.spec_text()));
                }
                s.as_bytes()
            },
            HttpResponse::ExpectationFailed => {
                let s = "HTTP/1.1 417 Expectation Failed\r\n\r\n";
                proof {
                    reveal_strlit("HTTP/1.1 417 Expectation Failed\r\n\r\n");
                    assert(s.is_ascii());
                    assert(s.spec_bytes() =~= ascii_of(self.spec_text()));
                }
                s.as_bytes()
            },
            HttpResponse::InternalServerError => {
                let s = "HTTP/1.1 500 Internal Server Error\r\n\r\n";
                proof {
                    reveal_strlit("HTTP/1.1 500 Internal Server Error\r\n\r\n");
                    assert(s.is_ascii());
                    assert(s.spec_bytes() =~= ascii_of(self.spec_text()));
                }
                s.as_bytes()
            },
            HttpResponse::NotImplemented => {
                let s = "HTTP/1.1 501 Not Implemented\r\n\r\n";
                proof {
                    reveal_strlit("HTTP/1.1 501 Not Implemented\r\n\r\n");
                    assert(s.is_ascii());
                    assert(s.spec_bytes() =~= ascii_of(self.spec_text()));
                }
                s.as_bytes()
            },
            HttpResponse::BadGateway => {
                let s = "HTTP/1.1 502 Bad Gateway\r\n\r\n";
                proof {
                    reveal_strlit("HTTP/1.1 502 Bad Gateway\r\n\r\n");
                    assert(s.is_ascii());
                    assert(s.spec_bytes() =~= ascii_of(self.spec_text()));
                }
                s.as_bytes()
            },
            HttpResponse::ServiceUnavailable => {
                let s = "HTTP/1.1 503 Service Unavailable\r\n\r\n";
                proof {
                    reveal_strlit("HTTP/1.1 503 Service Unavailable\r\n\r\n");
                    assert(s.is_ascii());
                    assert(s.spec_bytes() =~= ascii_of(self.spec_text()));
                }
                s.as_bytes()
            },
            HttpResponse::GatewayTimeout => {
                let s = "HTTP/1.1 504 Gateway Timeout\r\n\r\n";
                proof {
                    reveal_strlit("HTTP/1.1 504 Gateway Timeout\r\n\r\n");
                    assert(s.is_ascii());
                    assert(s.spec_bytes() =~= ascii_of(self.spec_text()));
                }
                s.as_bytes()
            },
            HttpResponse::HttpVersionNotSupported => {
                let s = "HTTP/1.1 505 HTTP Version Not Supported\r\n\r\n";
                proof {
                    reveal_strlit("HTTP/1.1 505 HTTP Version Not Supported\r\n\r\n");
                    assert(s.is_ascii());
                    assert(s.spec_bytes() =~= ascii_of(self.spec_text()));
                }
                s.as_bytes()
            },
        }
    }
}

} // verus!
