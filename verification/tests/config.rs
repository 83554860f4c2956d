use edge_analytics::config::{status_enabled, Config, MissingVariable};
use edge_analytics::error::{Error, LogLevel};

fn some(s: &str) -> Option<String> {
    Some(s.to_string())
}

#[test]
fn variables_make_a_configuration() {
    let config = Config::from_variables(
        some("t"),
        some("8080"),
        some("https://example.com"),
        some("https://example.com/sitemap.xml"),
        Some("1"),
    )
    .unwrap();
    assert_eq!(config.table_name, "t");
    assert_eq!(config.site_origin, "https://example.com");
    assert_eq!(config.sitemap_url, "https://example.com/sitemap.xml");
    assert_eq!(config.port, "8080");
    assert!(config.enable_status);
    assert_eq!(config.listen_address(), "0.0.0.0:8080");
}

#[test]
fn port_and_status_have_defaults() {
    let config = Config::from_variables(some("t"), None, some("o"), some("s"), None).unwrap();
    assert_eq!(config.listen_address(), "0.0.0.0:3001");
    assert!(!config.enable_status);
}

#[test]
fn missing_variables_are_named() {
    let missing = |t: Option<String>, o: Option<String>, s: Option<String>| {
        Config::from_variables(t, None, o, s, None).err().unwrap()
    };
    assert_eq!(missing(None, None, None), MissingVariable::TableName);
    assert_eq!(missing(some("t"), None, None), MissingVariable::SiteOrigin);
    assert_eq!(missing(some("t"), some("o"), None), MissingVariable::SitemapUrl);
    assert_eq!(MissingVariable::TableName.message(), "TABLE_NAME must be set");
    assert_eq!(
        MissingVariable::SiteOrigin.message(),
        "SITE_ORIGIN must be set (e.g. https://example.com)"
    );
    assert_eq!(
        MissingVariable::SitemapUrl.message(),
        "SITEMAP_URL must be set (e.g. https://example.com/sitemap-0.xml)"
    );
}

#[test]
fn status_is_switched_on_by_one_and_true() {
    assert!(status_enabled(Some("1")));
    assert!(status_enabled(Some("true")));
    assert!(status_enabled(Some("TRUE")));
    assert!(status_enabled(Some("True")));
    assert!(!status_enabled(Some("yes")));
    assert!(!status_enabled(Some("0")));
    assert!(!status_enabled(Some("11")));
    assert!(!status_enabled(Some("")));
    assert!(!status_enabled(None));
}

#[test]
fn errors_are_answered_logged_and_told() {
    let cause = || "broken".to_string();
    let cases = [
        (Error::Dynamo(cause()), 500, LogLevel::Error, "DynamoDB error: broken"),
        (Error::SitemapFetch(cause()), 502, LogLevel::Warn, "sitemap fetch failed: broken"),
        (Error::SitemapTooLarge(1234567), 502, LogLevel::Warn, "sitemap too large: 1234567 bytes"),
        (Error::PayloadTooLarge, 413, LogLevel::Silent, "payload too large"),
        (Error::RateLimited, 429, LogLevel::Silent, "rate limited"),
        (Error::NotFound, 404, LogLevel::Silent, "not found"),
        (Error::StatsUnavailable, 503, LogLevel::Silent, "stats unavailable"),
        (Error::Serve(cause()), 500, LogLevel::Error, "server error: broken"),
    ];
    for (error, status, level, message) in cases {
        assert_eq!(error.status(), status);
        assert_eq!(error.log_level(), level);
        assert_eq!(error.message(), message);
    }
}
