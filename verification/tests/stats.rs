use edge_analytics::stats::{scan_goes_on, ScanRow, Tally};
use edge_analytics::text::{
    eq_ignore_ascii_case, parse_i64, push_decimal, push_padded, starts_with, strip_prefix,
    trim_end_slashes,
};
use edge_analytics::time::{date_at, date_hour_at};

fn row(path: &str, hour: &str, views: &str) -> ScanRow {
    ScanRow {
        path: Some(path.to_string()),
        date_hour: Some(hour.to_string()),
        views: Some(views.to_string()),
    }
}

fn listed(tally: Tally) -> (i64, i64, Vec<(String, i64)>) {
    let stats = tally.finish();
    let pages = stats.top_pages.into_iter().map(|p| (p.path, p.views)).collect();
    (stats.total_views, stats.today, pages)
}

#[test]
fn counts_are_summed_up() {
    let mut tally = Tally::new("2026-04-21".to_string());
    assert!(tally.add_page(&vec![
        row("/", "2026-04-21T14", "5"),
        row("/about", "2026-04-20T23", "7"),
        row("/", "2026-04-20T10", "1"),
    ]));
    let (total, today, pages) = listed(tally);
    assert_eq!(total, 13);
    assert_eq!(today, 5);
    assert_eq!(pages, vec![("/about".to_string(), 7), ("/".to_string(), 6)]);
}

#[test]
fn no_rows_no_views() {
    assert_eq!(listed(Tally::new("2026-04-21".to_string())), (0, 0, vec![]));
}

#[test]
fn rows_with_missing_attributes() {
    let mut tally = Tally::new("2026-04-21".to_string());
    let bare = ScanRow { path: None, date_hour: None, views: Some("3".to_string()) };
    let uncounted = ScanRow { path: Some("/a".to_string()), date_hour: None, views: None };
    assert!(tally.add_row(&bare));
    assert!(tally.add_row(&uncounted));
    assert!(tally.add_row(&row("/b", "2026-04-21T00", "many")));
    assert!(tally.add_row(&row("/c", "2026-04-21T00", "-2")));
    let (total, today, pages) = listed(tally);
    assert_eq!(total, 1);
    assert_eq!(today, -2);
    assert_eq!(pages.len(), 3);
    assert_eq!(pages[2], ("/c".to_string(), -2));
}

#[test]
fn ten_pages_are_listed() {
    let mut tally = Tally::new("2026-04-21".to_string());
    for i in 0..15 {
        assert!(tally.add_row(&row(&format!("/p{i}"), "2026-04-21T14", &format!("{}", i % 12))));
    }
    let (total, _, pages) = listed(tally);
    assert_eq!(total, 69);
    assert_eq!(pages.len(), 10);
    assert_eq!(pages[0], ("/p11".to_string(), 11));
    for pair in pages.windows(2) {
        assert!(pair[0].1 >= pair[1].1);
    }
    assert_eq!(pages[9].1, 2);
}

#[test]
fn sums_that_do_not_fit_are_refused() {
    let mut tally = Tally::new("2026-04-21".to_string());
    assert!(tally.add_row(&row("/a", "x", "9223372036854775807")));
    assert!(!tally.add_row(&row("/b", "x", "1")));
    assert!(!tally.add_page(&vec![row("/b", "x", "0"), row("/b", "x", "1")]));
    assert!(tally.add_row(&row("/b", "x", "-1")));
    let (total, _, pages) = listed(tally);
    assert_eq!(total, i64::MAX - 1);
    assert_eq!(pages, vec![("/a".to_string(), i64::MAX), ("/b".to_string(), -1)]);
}

#[test]
fn page_breaks_and_order_do_not_matter() {
    let rows = [("/a", "2026-04-21T01", "1"), ("/b", "2026-04-20T01", "5"), ("/a", "x", "2")];
    let mut at_once = Tally::new("2026-04-21".to_string());
    let mut in_pages = Tally::new("2026-04-21".to_string());
    let mut reversed = Tally::new("2026-04-21".to_string());
    let page: Vec<ScanRow> = rows.iter().map(|r| row(r.0, r.1, r.2)).collect();
    assert!(at_once.add_page(&page));
    for r in rows.iter() {
        assert!(in_pages.add_page(&vec![row(r.0, r.1, r.2)]));
    }
    for r in rows.iter().rev() {
        assert!(reversed.add_row(&row(r.0, r.1, r.2)));
    }
    let sums = listed(at_once);
    assert_eq!(sums, listed(in_pages));
    assert_eq!(sums, listed(reversed));
    assert_eq!(sums, (8, 1, vec![("/b".to_string(), 5), ("/a".to_string(), 3)]));
}

#[test]
fn a_written_counter_is_summed_up() {
    let secs = 1_776_780_000;
    let hour = date_hour_at(secs);
    let mut same_day = Tally::new(date_at(secs + 9 * 3600));
    let mut next_day = Tally::new(date_at(secs + 10 * 3600));
    assert!(same_day.add_row(&row("/a", &hour, "47")));
    assert!(next_day.add_row(&row("/a", &hour, "47")));
    assert_eq!(listed(same_day), (47, 47, vec![("/a".to_string(), 47)]));
    assert_eq!(listed(next_day), (47, 0, vec![("/a".to_string(), 47)]));
}

#[test]
fn a_scan_goes_on_from_a_key() {
    assert!(scan_goes_on(Some(2)));
    assert!(!scan_goes_on(Some(0)));
    assert!(!scan_goes_on(None));
}

#[test]
fn integers_are_read() {
    for text in [
        "", "+", "-", "0", "7", "+7", "-7", "007", "1 ", " 1", "1a", "--1", "+-1", "1-",
        "9223372036854775807", "9223372036854775808", "-9223372036854775808",
        "-9223372036854775809", "99999999999999999999999999999999999999999999999999", "1.5", "1e3",
        "\u{0663}",
    ] {
        assert_eq!(parse_i64(text), text.parse::<i64>().ok(), "{text}");
    }
}

#[test]
fn integers_are_written() {
    for n in [0u64, 1, 9, 10, 99, 100, 1000, 1234567890, u64::MAX] {
        let mut out = String::from("n=");
        push_decimal(&mut out, n);
        assert_eq!(out, format!("n={n}"));
        let mut padded = String::new();
        push_padded(&mut padded, n, 4);
        assert_eq!(padded, format!("{n:04}"));
    }
    let mut zero = String::new();
    push_padded(&mut zero, 5, 0);
    assert_eq!(zero, "5");
}

#[test]
fn prefixes() {
    assert!(starts_with("2026-04-21T14", "2026-04-21"));
    assert!(!starts_with("2026-04", "2026-04-21"));
    assert!(starts_with("", ""));
    assert!(!starts_with("\u{fc}x", "u"));
    assert_eq!(strip_prefix("\u{fc}/a", "\u{fc}"), Some("/a"));
    assert_eq!(strip_prefix("abc", "abc"), Some(""));
    assert_eq!(strip_prefix("abc", "x"), None);
    assert_eq!(trim_end_slashes("/\u{fc}//"), "/\u{fc}");
    assert_eq!(trim_end_slashes("\u{22f}"), "\u{22f}");
}

#[test]
fn case_of_ascii_letters() {
    assert!(eq_ignore_ascii_case("TrUe", "true"));
    assert!(!eq_ignore_ascii_case("tru", "true"));
    assert!(!eq_ignore_ascii_case("truee", "true"));
    assert!(!eq_ignore_ascii_case("@", "`"));
    assert!(!eq_ignore_ascii_case("\u{c4}", "\u{e4}"));
}
