//! What can go wrong, and how it is answered.
use crate::text::{self, push_decimal};
use vstd::prelude::*;
use vstd::string::*;

verus! {

/// What went wrong.
#[derive(Debug)]
pub enum Error {
    /// A DynamoDB operation failed; holds the cause.
    Dynamo(String),
    /// The sitemap could not be fetched; holds the cause.
    SitemapFetch(String),
    /// The sitemap is longer than accepted; holds the number of bytes.
    SitemapTooLarge(u64),
    /// A request's body is longer than accepted.
    PayloadTooLarge,
    /// There were too many requests.
    RateLimited,
    /// There is no such resource, or it is switched off.
    NotFound,
    /// There are no statistics yet, and another request is gathering them.
    StatsUnavailable,
    /// The server could not start or run; holds the cause.
    Serve(String),
}

/// How loudly an error is logged.
#[derive(Clone, Copy, Debug, PartialEq, Eq, Structural)]
pub enum LogLevel {
    /// Not at all: the client is at fault.
    Silent,
    /// As a warning.
    Warn,
    /// As an error.
    Error,
}

impl Error {
    /// The HTTP status that answers this error.
    pub open spec fn status_code(self) -> u16 {
        match self {
            Error::Dynamo(_) | Error::Serve(_) => 500,
            Error::SitemapFetch(_) | Error::SitemapTooLarge(_) => 502,
            Error::PayloadTooLarge => 413,
            Error::RateLimited => 429,
            Error::NotFound => 404,
            Error::StatsUnavailable => 503,
        }
    }

    /// The text of this error.
    pub open spec fn message_text(self) -> Seq<char> {
        match self {
            Error::Dynamo(cause) => "DynamoDB error: "@ + cause@,
            Error::SitemapFetch(cause) => "sitemap fetch failed: "@ + cause@,
            Error::SitemapTooLarge(len) => "sitemap too large: "@ + text::decimal(len as nat)
                + " bytes"@,
            Error::PayloadTooLarge => "payload too large"@,
            Error::RateLimited => "rate limited"@,
            Error::NotFound => "not found"@,
            Error::StatsUnavailable => "stats unavailable"@,
            Error::Serve(cause) => "server error: "@ + cause@,
        }
    }

    /// How loudly this error is logged.
    pub open spec fn loudness(self) -> LogLevel {
        match self {
            Error::Dynamo(_) | Error::Serve(_) => LogLevel::Error,
            Error::SitemapFetch(_) | Error::SitemapTooLarge(_) => LogLevel::Warn,
            _ => LogLevel::Silent,
        }
    }

    /// The HTTP status that answers this error.
    pub fn status(&self) -> (r: u16)
        ensures
            r == self.status_code(),
    {
        match self {
            Error::Dynamo(_) => 500,
            Error::SitemapFetch(_) => 502,
            Error::SitemapTooLarge(_) => 502,
            Error::PayloadTooLarge => 413,
            Error::RateLimited => 429,
            Error::NotFound => 404,
            Error::StatsUnavailable => 503,
            Error::Serve(_) => 500,
        }
    }

    /// The text of this error.
    pub fn message(&self) -> (r: String)
        ensures
            r@ == self.message_text(),
    {
        match self {
            Error::Dynamo(cause) => "DynamoDB error: ".to_string().concat(cause.as_str()),
            Error::SitemapFetch(cause) => "sitemap fetch failed: ".to_string().concat(
                cause.as_str(),
            ),
            Error::SitemapTooLarge(len) => {
                let mut out = "sitemap too large: ".to_string();
                push_decimal(&mut out, *len);
                out.concat(" bytes")
            }
            Error::PayloadTooLarge => "payload too large".to_string(),
            Error::RateLimited => "rate limited".to_string(),
            Error::NotFound => "not found".to_string(),
            Error::StatsUnavailable => "stats unavailable".to_string(),
            Error::Serve(cause) => "server error: ".to_string().concat(cause.as_str()),
        }
    }

    /// How loudly this error is logged.
    pub fn log_level(&self) -> (r: LogLevel)
        ensures
            r == self.loudness(),
    {
        match self {
            Error::Dynamo(_) => LogLevel::Error,
            Error::SitemapFetch(_) => LogLevel::Warn,
            Error::SitemapTooLarge(_) => LogLevel::Warn,
            Error::PayloadTooLarge => LogLevel::Silent,
            Error::RateLimited => LogLevel::Silent,
            Error::NotFound => LogLevel::Silent,
            Error::StatsUnavailable => LogLevel::Silent,
            Error::Serve(_) => LogLevel::Error,
        }
    }
}

/// What every error is answered with, says and is logged as, whatever it holds.
pub proof fn errors_are_answered_and_told(e: &Error, status: u16, message: String, level: LogLevel)
    requires
        call_ensures(Error::status, (e,), status),
        call_ensures(Error::message, (e,), message),
        call_ensures(Error::log_level, (e,), level),
    ensures
        e matches Error::Dynamo(cause) ==> status == 500 && level == LogLevel::Error && message@
            == "DynamoDB error: "@ + cause@,
        e matches Error::SitemapFetch(cause) ==> status == 502 && level == LogLevel::Warn
            && message@ == "sitemap fetch failed: "@ + cause@,
        e matches Error::SitemapTooLarge(len) ==> status == 502 && level == LogLevel::Warn
            && message@ == "sitemap too large: "@ + text::decimal(len as nat) + " bytes"@,
        e is PayloadTooLarge ==> status == 413 && level == LogLevel::Silent && message@
            == "payload too large"@,
        e is RateLimited ==> status == 429 && level == LogLevel::Silent && message@
            == "rate limited"@,
        e is NotFound ==> status == 404 && level == LogLevel::Silent && message@ == "not found"@,
        e is StatsUnavailable ==> status == 503 && level == LogLevel::Silent && message@
            == "stats unavailable"@,
        e matches Error::Serve(cause) ==> status == 500 && level == LogLevel::Error && message@
            == "server error: "@ + cause@,
{
}

} // verus!
