//! The configuration, from the values of environment variables.
use crate::text::{self, eq_ignore_ascii_case};
use vstd::prelude::*;
use vstd::string::*;

verus! {

/// The configuration of the server.
pub struct Config {
    /// `TABLE_NAME`: the DynamoDB table.
    pub table_name: String,
    /// `SITE_ORIGIN`: the origin of the site, such as `https://example.com`.
    pub site_origin: String,
    /// `SITEMAP_URL`: where the sitemap is.
    pub sitemap_url: String,
    /// `PORT`: the port to listen on.
    pub port: String,
    /// `ENABLE_STATUS`: whether the status may be asked for.
    pub enable_status: bool,
}

/// A variable that must be set and is not.
#[derive(Clone, Copy, Debug, PartialEq, Eq, Structural)]
pub enum MissingVariable {
    TableName,
    SiteOrigin,
    SitemapUrl,
}

impl MissingVariable {
    /// What is to be done about it.
    pub open spec fn message_text(self) -> Seq<char> {
        match self {
            MissingVariable::TableName => "TABLE_NAME must be set"@,
            MissingVariable::SiteOrigin => "SITE_ORIGIN must be set (e.g. https://example.com)"@,
            MissingVariable::SitemapUrl =>
                "SITEMAP_URL must be set (e.g. https://example.com/sitemap-0.xml)"@,
        }
    }

    /// What is to be done about it.
    pub fn message(&self) -> (r: &'static str)
        ensures
            r@ == self.message_text(),
    {
        match self {
            MissingVariable::TableName => "TABLE_NAME must be set",
            MissingVariable::SiteOrigin => "SITE_ORIGIN must be set (e.g. https://example.com)",
            MissingVariable::SitemapUrl =>
                "SITEMAP_URL must be set (e.g. https://example.com/sitemap-0.xml)",
        }
    }
}

/// Whether the value of `ENABLE_STATUS` switches the status on: `1`, or `true` in any case.
pub open spec fn switches_on(value: Option<Seq<char>>) -> bool {
    value is Some && (value->0 == seq!['1'] || text::same_ignoring_case(value->0, "true"@))
}

/// What an optional string holds.
pub open spec fn view_of(value: Option<&str>) -> Option<Seq<char>> {
    match value {
        Some(s) => Some(s@),
        None => None,
    }
}

/// Tells whether the value of `ENABLE_STATUS` switches the status on.
pub fn status_enabled(value: Option<&str>) -> (r: bool)
    ensures
        r == switches_on(view_of(value)),
{
    match value {
        None => false,
        Some(s) => {
            proof {
                reveal_strlit("1");
                assert("1"@ =~= seq!['1']);
            }
            is_text(s, "1") || eq_ignore_ascii_case(s, "true")
        }
    }
}

/// Tells whether two texts are the same.
fn is_text(a: &str, b: &str) -> (r: bool)
    ensures
        r == (a@ == b@),
{
    let r = text::starts_with(a, b) && text::starts_with(b, a);
    proof {
        if r {
            assert(a@.take(b@.len() as int) =~= a@);
        } else if a@ == b@ {
            assert(a@.take(b@.len() as int) =~= a@);
        }
    }
    r
}

impl Config {
    /// The configuration that the values of the variables make up; the first variable that must
    /// be set and is not, if there is one. The port is 3001 if none is set.
    pub fn from_variables(
        table_name: Option<String>,
        port: Option<String>,
        site_origin: Option<String>,
        sitemap_url: Option<String>,
        enable_status: Option<&str>,
    ) -> (r: Result<Config, MissingVariable>)
        ensures
            match r {
                Ok(config) => table_name is Some && config.table_name@ == table_name->0@
                    && site_origin is Some && config.site_origin@ == site_origin->0@
                    && sitemap_url is Some && config.sitemap_url@ == sitemap_url->0@
                    && config.port@ == (if port is Some {
                    port->0@
                } else {
                    "3001"@
                }) && config.enable_status == switches_on(view_of(enable_status)),
                Err(MissingVariable::TableName) => table_name is None,
                Err(MissingVariable::SiteOrigin) => table_name is Some && site_origin is None,
                Err(MissingVariable::SitemapUrl) => table_name is Some && site_origin is Some
                    && sitemap_url is None,
            },
    {
        let table_name = match table_name {
            Some(s) => s,
            None => {
                return Err(MissingVariable::TableName);
            }
        };
        let port = match port {
            Some(s) => s,
            None => "3001".to_string(),
        };
        let site_origin = match site_origin {
            Some(s) => s,
            None => {
                return Err(MissingVariable::SiteOrigin);
            }
        };
        let sitemap_url = match sitemap_url {
            Some(s) => s,
            None => {
                return Err(MissingVariable::SitemapUrl);
            }
        };
        Ok(
            Config {
                table_name,
                site_origin,
                sitemap_url,
                port,
                enable_status: status_enabled(enable_status),
            },
        )
    }

    /// The address to listen on: the port, on all interfaces.
    pub fn listen_address(&self) -> (r: String)
        ensures
            r@ == "0.0.0.0:"@ + self.port@,
    {
        "0.0.0.0:".to_string().concat(self.port.as_str())
    }
}

/// The status is switched on by `1` and by `true` in upper, lower or mixed case, and by nothing else.
pub proof fn the_status_is_switched_on_by_one_and_true(value: Option<&str>, r: bool)
    requires
        call_ensures(status_enabled, (value,), r),
    ensures
        r <==> value is Some && {
            let s = value->0@;
            ||| s.len() == 1 && s[0] == '1'
            ||| s.len() == 4 && (s[0] == 't' || s[0] == 'T') && (s[1] == 'r' || s[1] == 'R') && (s[2]
                == 'u' || s[2] == 'U') && (s[3] == 'e' || s[3] == 'E')
        },
{
    reveal_strlit("true");
    if value is Some {
        let s = value->0@;
        let t = "true"@;
        assert(t.len() == 4 && t[0] == 't' && t[1] == 'r' && t[2] == 'u' && t[3] == 'e');
        text::case_is_that_of_ascii_letters(s, t);
        if s.len() == 1 && s[0] == '1' {
            assert(s =~= seq!['1']);
        }
        if text::same_ignoring_case(s, t) {
            assert(text::ascii_lower(s[0]) == 't');
            assert(text::ascii_lower(s[1]) == 'r');
            assert(text::ascii_lower(s[2]) == 'u');
            assert(text::ascii_lower(s[3]) == 'e');
        }
        if s.len() == 4 && (s[0] == 't' || s[0] == 'T') && (s[1] == 'r' || s[1] == 'R') && (s[2]
            == 'u' || s[2] == 'U') && (s[3] == 'e' || s[3] == 'E') {
            assert forall|i: int| 0 <= i < 4 implies text::ascii_lower(#[trigger] s[i])
                == text::ascii_lower(t[i]) by {
                assert(i == 0 || i == 1 || i == 2 || i == 3);
            }
        }
    }
}

} // verus!
