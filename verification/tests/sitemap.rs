use edge_analytics::error::Error;
use edge_analytics::sitemap::{
    is_valid_path, listed_paths, normalize, parse_sitemap, path_of_loc, path_of_url, PathCollector, SitemapDownload, XmlEvent,
    MAX_SITEMAP_BYTES, MAX_SITEMAP_PATHS,
};

#[test]
fn valid_paths() {
    assert!(is_valid_path("/"));
    assert!(is_valid_path("/profile"));
    assert!(is_valid_path("/projects/oxiflight"));
    assert!(is_valid_path("/projects/my-project-123"));
}

#[test]
fn invalid_paths() {
    assert!(!is_valid_path(""));
    assert!(!is_valid_path("no-leading-slash"));
    assert!(!is_valid_path("/<script>"));
    assert!(!is_valid_path("/path with spaces"));
    assert!(!is_valid_path("/path?query=1"));
    assert!(!is_valid_path("/../../etc/passwd"));
    assert!(!is_valid_path(&format!("/{}", "a".repeat(128))));
    assert!(!is_valid_path("//double-slash"));
    assert!(!is_valid_path("/foo//bar"));
}

#[test]
fn parse_standard_sitemap() {
    let xml = br#"<?xml version="1.0" encoding="UTF-8"?>
<urlset xmlns="http://www.sitemaps.org/schemas/sitemap/0.9">
  <url><loc>https://example.com/</loc></url>
  <url><loc>https://example.com/about</loc></url>
  <url><loc>https://example.com/projects/test</loc></url>
</urlset>"#;
    let paths = parse_sitemap(xml, "https://example.com");
    assert_eq!(paths.len(), 3);
    assert!(paths.contains("/"));
    assert!(paths.contains("/about"));
    assert!(paths.contains("/projects/test"));
}

#[test]
fn parse_ignores_comments_and_cdata() {
    let xml = br#"<?xml version="1.0"?>
<urlset>
  <!-- <loc>https://example.com/hidden</loc> -->
  <url><loc>https://example.com/real</loc></url>
  <url><loc><![CDATA[https://example.com/cdata]]></loc></url>
</urlset>"#;
    let paths = parse_sitemap(xml, "https://example.com");
    assert!(paths.contains("/real"));
    // CDATA and comments are both ignored: only plain text inside <loc> is accepted
    assert!(!paths.contains("/cdata"));
    assert!(!paths.contains("/hidden"));
}

#[test]
fn parse_rejects_invalid_paths() {
    let xml = br#"<urlset>
  <url><loc>https://example.com/valid</loc></url>
  <url><loc>https://example.com/&lt;script&gt;</loc></url>
  <url><loc>https://other.com/wrong-origin</loc></url>
</urlset>"#;
    let paths = parse_sitemap(xml, "https://example.com");
    assert_eq!(paths.len(), 1);
    assert!(paths.contains("/valid"));
}

#[test]
fn parse_caps_at_max_paths() {
    let mut xml = String::from("<urlset>");
    for i in 0..600 {
        xml.push_str(&format!(
            "<url><loc>https://example.com/page-{i}</loc></url>"
        ));
    }
    xml.push_str("</urlset>");
    let paths = parse_sitemap(xml.as_bytes(), "https://example.com");
    assert_eq!(paths.len(), MAX_SITEMAP_PATHS);
}

#[test]
fn letters_beyond_ascii() {
    assert!(is_valid_path("/\u{fc}ber-uns"));
    assert!(is_valid_path("/\u{4eac}/\u{0663}"));
    assert!(!is_valid_path("/\u{2014}"));
    assert!(!is_valid_path("/\u{1f600}"));
}

#[test]
fn path_length_is_counted_in_bytes() {
    assert!(is_valid_path(&format!("/{}", "a".repeat(127))));
    assert!(is_valid_path(&format!("/a{}", "\u{fc}".repeat(63))));
    assert!(!is_valid_path(&format!("/{}", "\u{fc}".repeat(64))));
}

#[test]
fn ascii_outside_letters_and_digits_is_refused() {
    for c in 0u8..128 {
        let c = c as char;
        let allowed = c.is_alphanumeric() || c == '-';
        assert_eq!(is_valid_path(&format!("/a{c}b")), allowed || c == '/');
    }
}

#[test]
fn slashes_at_the_end_are_cut() {
    assert_eq!(normalize("/about/"), "/about");
    assert_eq!(normalize("/about///"), "/about");
    assert_eq!(normalize("/about"), "/about");
    assert_eq!(normalize("/"), "/");
    assert_eq!(normalize("///"), "/");
    assert_eq!(normalize(""), "/");
    assert_eq!(normalize("\u{fc}/"), "\u{fc}");
    assert_eq!(normalize(&normalize("/a//")), "/a");
}

#[test]
fn paths_of_character_data() {
    let origin = "https://example.com";
    let path = |raw: &[u8]| path_of_loc(raw, origin);
    assert_eq!(path(b"https://example.com/a/"), Some("/a".to_string()));
    assert_eq!(path(b"https://example.com"), Some("/".to_string()));
    assert_eq!(path(b"https://example.com/a&#45;b"), Some("/a-b".to_string()));
    assert_eq!(path(b"https://example.com/a&amp;b"), None);
    assert_eq!(path(b"https://example.com/a&nosuch;b"), None);
    assert_eq!(path(b"https://example.com/a&b"), None);
    assert_eq!(path(b"https://example.com.evil/a"), None);
    assert_eq!(path(b" https://example.com/a"), None);
    assert_eq!(path(b"https://example.com/\xff"), None);
    assert_eq!(path("https://example.com/\u{fc}".as_bytes()), Some("/\u{fc}".to_string()));
    assert_eq!(path(b"http"), None);
}

#[test]
fn text_outside_loc_is_ignored() {
    let xml = b"<urlset>https://example.com/a<url>https://example.com/b\
        <loc>https://example.com/c</loc>https://example.com/d</url>\
        <lastmod>https://example.com/e</lastmod><loc/>https://example.com/f</urlset>";
    let paths = parse_sitemap(xml, "https://example.com");
    assert_eq!(paths.len(), 1);
    assert!(paths.contains("/c"));
}

#[test]
fn only_the_first_text_of_a_loc_counts() {
    let xml = b"<u><loc>https://example.com/a<!-- x -->https://example.com/b</loc></u>";
    let paths = parse_sitemap(xml, "https://example.com");
    assert_eq!(paths.len(), 1);
    assert!(paths.contains("/a"));
}

#[test]
fn what_stands_before_an_error_is_kept() {
    let xml = b"<urlset><loc>https://example.com/a</loc></wrong>\
        <loc>https://example.com/b</loc></urlset>";
    let paths = parse_sitemap(xml, "https://example.com");
    assert_eq!(paths.len(), 1);
    assert!(paths.contains("/a"));
    assert_eq!(parse_sitemap(b"", "https://example.com").len(), 0);
    assert_eq!(parse_sitemap(b"not xml <", "https://example.com").len(), 0);
}

#[test]
fn a_byte_order_mark_is_skipped() {
    let xml = b"\xef\xbb\xbf<loc>https://example.com/a</loc>";
    assert!(parse_sitemap(xml, "https://example.com").contains("/a"));
}

#[test]
fn collector_follows_events() {
    let origin = "https://example.com";
    let mut collector = PathCollector::new();
    let text = XmlEvent::Text(b"https://example.com/a".to_vec());
    collector.on_event(&text, origin);
    collector.on_event(&XmlEvent::Start(b"loc".to_vec()), origin);
    collector.on_event(&XmlEvent::Start(b"b".to_vec()), origin);
    collector.on_event(&XmlEvent::End(b"loc".to_vec()), origin);
    collector.on_event(&text, origin);
    collector.on_event(&XmlEvent::Start(b"loc".to_vec()), origin);
    collector.on_event(&XmlEvent::Other, origin);
    collector.on_event(&XmlEvent::End(b"b".to_vec()), origin);
    collector.on_event(&text, origin);
    assert!(!collector.is_done());
    collector.on_event(&XmlEvent::Malformed, origin);
    assert!(collector.is_done());
    collector.on_event(&XmlEvent::Start(b"loc".to_vec()), origin);
    collector.on_event(&XmlEvent::Text(b"https://example.com/late".to_vec()), origin);
    let paths = collector.into_paths();
    assert_eq!(paths.len(), 1);
    assert!(paths.contains("/a"));
    let mut ended = PathCollector::new();
    ended.on_event(&XmlEvent::Eof, origin);
    assert!(ended.is_done());
}

#[test]
fn a_response_without_success_has_no_sitemap() {
    assert!(matches!(SitemapDownload::begin(false, Some(u64::MAX)), Ok(None)));
    assert!(matches!(SitemapDownload::begin(false, None), Ok(None)));
}

#[test]
fn announced_length_is_limited() {
    assert!(matches!(
        SitemapDownload::begin(true, Some(MAX_SITEMAP_BYTES + 1)),
        Err(Error::SitemapTooLarge(1_048_577))
    ));
    assert!(matches!(SitemapDownload::begin(true, Some(MAX_SITEMAP_BYTES)), Ok(Some(_))));
    assert!(matches!(SitemapDownload::begin(true, None), Ok(Some(_))));
}

#[test]
fn received_length_is_limited() {
    let mut download = SitemapDownload::begin(true, None).unwrap().unwrap();
    assert!(download.push(&vec![b'a'; 1_048_576]).is_ok());
    assert!(download.push(b"").is_ok());
    assert!(matches!(download.push(b"b"), Err(Error::SitemapTooLarge(1_048_577))));
}

#[test]
fn a_download_in_pieces_is_read() {
    let mut download = SitemapDownload::begin(true, Some(10)).unwrap().unwrap();
    for piece in ["<urlset><loc>https://exam", "ple.com/a</lo", "c></urlset>"] {
        assert!(download.push(piece.as_bytes()).is_ok());
    }
    let paths = download.finish("https://example.com");
    assert_eq!(paths.len(), 1);
    assert!(paths.contains("/a"));
}

#[test]
fn paths_of_urls() {
    let path = |url: &str| path_of_url(url, "https://example.com");
    assert_eq!(path("https://example.com"), Some("/".to_string()));
    assert_eq!(path("https://example.com/"), Some("/".to_string()));
    assert_eq!(path("https://example.com/a/b//"), Some("/a/b".to_string()));
    assert_eq!(path("https://example.com/a&amp;b"), None);
    assert_eq!(path("https://example.com/a.html"), None);
    assert_eq!(path("https://example.org/a"), None);
    assert_eq!(path_of_url("/a", ""), Some("/a".to_string()));
}

#[test]
fn no_download_lists_no_paths() {
    assert_eq!(listed_paths(None, "https://example.com").len(), 0);
    let mut download = SitemapDownload::begin(true, None).unwrap().unwrap();
    assert!(download.push(b"<loc>https://example.com/a</loc>").is_ok());
    assert!(listed_paths(Some(download), "https://example.com").contains("/a"));
}

#[test]
fn a_path_listed_twice_is_taken_once() {
    let xml = b"<u><loc>https://example.com/a</loc><loc>https://example.com/a/</loc></u>";
    assert_eq!(parse_sitemap(xml, "https://example.com").len(), 1);
}

#[test]
fn the_first_distinct_paths_are_taken_in_order() {
    let mut xml = String::from("<urlset>");
    for i in 0..600 {
        xml.push_str(&format!("<loc>https://example.com/page-{i}</loc>"));
        xml.push_str(&format!("<loc>https://example.com/page-{i}/</loc>"));
        xml.push_str("<loc>https://example.com/no.path</loc><loc>https://other.com/x</loc>");
    }
    xml.push_str("</urlset>");
    let paths = parse_sitemap(xml.as_bytes(), "https://example.com");
    assert_eq!(paths.len(), 500);
    for i in 0..600 {
        assert_eq!(paths.contains(&format!("/page-{i}")), i < 500);
    }
}

#[test]
fn every_way_to_cut_a_sitemap_lists_the_same() {
    let xml = "<urlset><loc>https://example.com/\u{fc}</loc><loc>https://example.com/b</loc></urlset>";
    for size in 1..xml.len() + 1 {
        let mut download = SitemapDownload::begin(true, None).unwrap().unwrap();
        for piece in xml.as_bytes().chunks(size) {
            assert!(download.push(piece).is_ok());
        }
        let paths = download.finish("https://example.com");
        assert_eq!(paths.len(), 2);
        assert!(paths.contains("/\u{fc}") && paths.contains("/b"));
    }
}
