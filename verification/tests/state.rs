use edge_analytics::clock::{Clock, Instant};
use edge_analytics::error::Error;
use edge_analytics::handlers::{
    early_refresh_due, mix, rand_simple, screen_view, should_early_refresh, view_status,
    view_update, ViewBody, ViewScreening, WriteReply,
};
use edge_analytics::sitemap::parse_sitemap;
use edge_analytics::state::{initial_paths, AppState, ClaimStep, RefreshGuard, StatsStep};
use edge_analytics::stats::{PageStats, StatsResponse};
use edge_analytics::text::trim_end_slashes;
use std::sync::atomic::{AtomicBool, Ordering};
use std::sync::Arc;

fn server(xml: &str) -> AppState {
    let paths = initial_paths(Ok(parse_sitemap(xml.as_bytes(), "https://example.com")));
    AppState::new("counters".to_string(), paths, true)
}

fn about() -> AppState {
    server("<u><loc>https://example.com/about</loc><loc>https://example.com/</loc></u>")
}

fn view(path: &str) -> ViewBody {
    ViewBody::View(Some(path.to_string()))
}

fn sample(total: i64) -> StatsResponse {
    let page = PageStats { path: "/about".to_string(), views: total };
    StatsResponse { total_views: total, today: 1, top_pages: vec![page] }
}

#[test]
fn early_refresh_false_for_fresh_cache() {
    let clock = Clock::start();
    let recent = clock.now();
    assert!(!should_early_refresh(recent, &clock));
}

#[test]
fn rand_simple_in_range() {
    for _ in 0..100 {
        let val = rand_simple() as f64 / u32::MAX as f64;
        assert!((0.0..1.0).contains(&val));
    }
}

#[test]
fn path_trim_reuses_allocation() {
    let original = String::from("/profile");
    let ptr_before = original.as_ptr();
    let trimmed = trim_end_slashes(&original);
    assert_eq!(trimmed.as_ptr(), ptr_before);
}

#[test]
fn refresh_guard_clears_flag() {
    let flag = Arc::new(AtomicBool::new(true));
    {
        let _guard = RefreshGuard(Arc::clone(&flag));
        assert!(flag.load(Ordering::Relaxed));
    }
    assert!(!flag.load(Ordering::Relaxed));
}

#[test]
fn only_one_guard_at_a_time() {
    let flag = Arc::new(AtomicBool::new(false));
    let first = RefreshGuard::acquire(&flag);
    assert!(first.is_some());
    assert!(flag.load(Ordering::Relaxed));
    assert!(RefreshGuard::acquire(&flag).is_none());
    drop(first);
    assert!(!flag.load(Ordering::Relaxed));
    assert!(RefreshGuard::acquire(&flag).is_some());
}

#[test]
fn early_refresh_by_age_and_draw() {
    assert!(!early_refresh_due(0, 0));
    assert!(!early_refresh_due(239, 0));
    assert!(!early_refresh_due(240, 0));
    assert!(early_refresh_due(241, 0));
    assert!(early_refresh_due(270, 0x7fff_ffff));
    assert!(!early_refresh_due(270, 0x8000_0000));
    assert!(!early_refresh_due(274, 2433814801));
    assert!(early_refresh_due(274, 2433814800));
    assert!(!early_refresh_due(244, 286331153));
    assert!(early_refresh_due(244, 286331152));
    assert!(!early_refresh_due(299, u32::MAX));
    assert!(early_refresh_due(300, u32::MAX));
    assert!(early_refresh_due(u64::MAX, u32::MAX));
}

#[test]
fn nanoseconds_are_mixed() {
    assert_eq!(mix(0), 0);
    assert_eq!(mix(1), 2654435761);
    assert_eq!(mix(2), 1013904226);
    assert_eq!(mix(985892193), 2433814801);
    assert_eq!(mix(999_999_999), 999_999_999u32.wrapping_mul(2654435761));
}

#[test]
fn screening_by_type_and_length() {
    let json = Some("application/json".as_bytes());
    assert!(matches!(screen_view(None, 10), Ok(ViewScreening::Ignore)));
    assert!(matches!(screen_view(Some(b"text/plain"), 2048), Ok(ViewScreening::Ignore)));
    assert!(matches!(screen_view(Some(b"application/jso"), 10), Ok(ViewScreening::Ignore)));
    assert!(matches!(screen_view(json, 1024), Ok(ViewScreening::Read)));
    assert!(matches!(
        screen_view(Some(b"application/json; charset=utf-8"), 0),
        Ok(ViewScreening::Read)
    ));
    assert!(matches!(screen_view(json, 1025), Err(Error::PayloadTooLarge)));
}

#[test]
fn oversized_body_is_answered_with_413() {
    let refused = screen_view(Some(b"application/json"), 2048);
    assert_eq!(refused.unwrap_err().status(), 413);
}

#[test]
fn requested_paths() {
    assert_eq!(ViewBody::Malformed.requested_path(), None);
    assert_eq!(ViewBody::View(None).requested_path(), None);
    assert_eq!(view("").requested_path(), None);
    assert_eq!(view("/about").requested_path(), Some("/about".to_string()));
    assert_eq!(view("/about//").requested_path(), Some("/about".to_string()));
    assert_eq!(view("//").requested_path(), Some("/".to_string()));
    let longest = format!("/{}", "a".repeat(127));
    assert_eq!(view(&longest).requested_path(), Some(longest.clone()));
    assert_eq!(view(&format!("{longest}/")).requested_path(), None);
}

#[test]
fn a_listed_path_is_written() {
    let mut state = about();
    let update = state
        .track_view_at(view("/about/"), Instant::new(0, 0), 1_776_780_000)
        .unwrap()
        .unwrap();
    assert_eq!(update.table_name, "counters");
    assert_eq!(update.path, "/about");
    assert_eq!(update.date_hour, "2026-04-21T14");
    assert_eq!(update.update_expression, "ADD #v :inc");
    assert_eq!(update.condition_expression, "attribute_not_exists(#v) OR #v < :max");
    assert_eq!(update.count_attribute, "views");
    assert_eq!(update.increment, "1");
    assert_eq!(update.maximum, "1000");
}

#[test]
fn an_update_is_made_of_path_and_hour() {
    let update = view_update("t", "/x".to_string(), 3600);
    assert_eq!(update.table_name, "t");
    assert_eq!(update.path, "/x");
    assert_eq!(update.date_hour, "1970-01-01T01");
}

#[test]
fn slashes_at_the_end_of_a_view_do_not_matter() {
    let mut state = about();
    for path in ["/about", "/about/", "/about////", "/", "///"] {
        assert!(matches!(state.track_view(view(path)), Ok(Some(_))));
    }
}

#[test]
fn what_is_not_listed_is_dropped() {
    let mut state = about();
    for path in [
        "/<script>alert(1)</script>",
        "/../../etc/passwd",
        "/nonexistent-page",
        "",
        "about",
    ] {
        assert!(matches!(state.track_view(view(path)), Ok(None)));
    }
    assert!(matches!(state.track_view(ViewBody::Malformed), Ok(None)));
    assert!(matches!(state.track_view(ViewBody::View(None)), Ok(None)));
}

#[test]
fn rapid_views_engage_the_limit_at_sixty() {
    let mut state = about();
    let mut accepted = 0;
    let mut limited = 0;
    for _ in 0..120 {
        match state.track_view(view("/about")) {
            Ok(Some(_)) => accepted += 1,
            Ok(None) => panic!("dropped"),
            Err(e) => {
                assert_eq!(e.status(), 429);
                limited += 1;
            }
        }
    }
    assert_eq!(accepted, 60);
    assert_eq!(limited, 60);
    assert!(matches!(state.track_view(view("/")), Ok(Some(_))));
}

#[test]
fn views_are_let_through_again_after_a_minute() {
    let mut state = about();
    for _ in 0..60 {
        assert!(state.track_view_at(view("/about"), Instant::new(5, 0), 0).is_ok());
    }
    assert!(state.track_view_at(view("/about"), Instant::new(64, 0), 0).is_err());
    state.cleanup_at(Instant::new(64, 0));
    assert!(state.track_view_at(view("/about"), Instant::new(64, 0), 0).is_err());
    assert!(state.track_view_at(view("/about"), Instant::new(65, 0), 0).is_ok());
    state.cleanup();
}

#[test]
fn a_written_view_is_answered_with_204() {
    assert_eq!(view_status(&WriteReply::Stored), 204);
    assert_eq!(view_status(&WriteReply::CapReached), 204);
    assert_eq!(view_status(&WriteReply::Failed("down".to_string())), 204);
}

#[test]
fn the_root_is_counted_without_a_sitemap() {
    let fetch_failed = Err(Error::SitemapFetch("timeout".to_string()));
    let fallback = initial_paths(fetch_failed);
    assert_eq!(fallback.len(), 1);
    assert!(fallback.contains("/"));
    let listed_none = initial_paths(Ok(parse_sitemap(b"<u/>", "https://example.com")));
    assert_eq!(listed_none.len(), 1);
    assert!(listed_none.contains("/"));
}

#[test]
fn paths_are_replaced_only_by_paths() {
    let mut state = about();
    assert!(!state.refresh_paths(Err(Error::SitemapTooLarge(2_000_000))));
    assert!(!state.refresh_paths(Ok(parse_sitemap(b"", "https://example.com"))));
    assert!(matches!(state.track_view(view("/about")), Ok(Some(_))));
    let xml = b"<u><loc>https://example.com/new</loc></u>";
    assert!(state.refresh_paths(Ok(parse_sitemap(xml, "https://example.com"))));
    assert!(matches!(state.track_view(view("/about")), Ok(None)));
    assert!(matches!(state.track_view(view("/new")), Ok(Some(_))));
}

#[test]
fn status_tells_uptime_and_paths() {
    let state = about();
    let status = state.health_status().unwrap();
    assert_eq!(status.status, "ok");
    assert!(status.uptime_seconds < 60);
    assert_eq!(status.paths_monitored, 2);
    let later = state.health_status_at(Instant::new(1000, 0)).unwrap();
    assert!(later.uptime_seconds == 999 || later.uptime_seconds == 1000);
}

#[test]
fn status_can_be_switched_off() {
    let paths = initial_paths(Err(Error::SitemapTooLarge(2_000_000)));
    let state = AppState::new("t".to_string(), paths, false);
    assert!(matches!(state.health_status(), Err(Error::NotFound)));
}

#[test]
fn statistics_are_gathered_when_there_are_none() {
    let mut state = about();
    assert!(matches!(state.stats(), Ok(StatsStep::Claim)));
    assert!(matches!(state.stale_stats(), Err(Error::StatsUnavailable)));
    assert!(!state.wants_early_refresh());
}

#[test]
fn kept_statistics_are_given_back() {
    let mut state = about();
    state.store_stats_at(sample(7), Instant::new(100, 0));
    match state.stats_at(Instant::new(399, 999_999_999)) {
        Ok(StatsStep::Answer(data)) => {
            assert_eq!(data.total_views, 7);
            assert_eq!(data.today, 1);
            assert_eq!(data.top_pages.len(), 1);
            assert_eq!(data.top_pages[0].path, "/about");
            assert_eq!(data.top_pages[0].views, 7);
        }
        _ => panic!("no answer"),
    }
    assert!(matches!(state.stats_at(Instant::new(400, 0)), Ok(StatsStep::Claim)));
    assert_eq!(state.stale_stats().unwrap().total_views, 7);
    state.store_stats(sample(8));
    assert!(!state.wants_early_refresh());
    assert!(matches!(state.stats(), Ok(StatsStep::Answer(_))));
}

#[test]
fn statistics_are_limited_to_twelve_a_minute() {
    let mut state = about();
    let now = Instant::new(0, 0);
    for _ in 0..12 {
        assert!(state.stats_at(now).is_ok());
    }
    assert!(matches!(state.stats_at(now), Err(Error::RateLimited)));
    assert!(state.stats_at(Instant::new(61, 0)).is_ok());
}

#[test]
fn the_scan_reads_three_attributes() {
    let scan = about().scan_request();
    assert_eq!(scan.table_name, "counters");
    assert_eq!(scan.projection_expression, "#p, dateHour, #v");
    assert_eq!(scan.path_attribute, "path");
    assert_eq!(scan.count_attribute, "views");
}

#[test]
fn who_has_the_guard_gathers() {
    let mut state = about();
    let flag = Arc::new(AtomicBool::new(false));
    let guard = RefreshGuard::acquire(&flag);
    assert!(matches!(state.claim(None), Err(Error::StatsUnavailable)));
    match state.claim(guard) {
        Ok(ClaimStep::Gather(_guard)) => assert!(flag.load(Ordering::Relaxed)),
        _ => panic!("not claimed"),
    }
    assert!(!flag.load(Ordering::Relaxed));
    state.store_stats_at(sample(3), Instant::new(0, 0));
    match state.claim(None) {
        Ok(ClaimStep::Answer(data)) => assert_eq!(data.total_views, 3),
        _ => panic!("no answer"),
    }
}

#[test]
fn a_guard_comes_of_a_successful_exchange() {
    let flag = Arc::new(AtomicBool::new(true));
    assert!(RefreshGuard::from_exchange(&flag, Err(true)).is_none());
    assert!(flag.load(Ordering::Relaxed));
    let guard = RefreshGuard::from_exchange(&flag, Ok(false)).unwrap();
    assert!(Arc::ptr_eq(&guard.0, &flag));
    drop(guard);
    assert!(!flag.load(Ordering::Relaxed));
}

#[test]
fn a_started_minute_counts_what_is_left_of_it() {
    let mut state = about();
    let counted = |state: &mut AppState, secs: u64| {
        matches!(state.track_view_at(view("/about"), Instant::new(secs, 0), 0), Ok(Some(_)))
    };
    for _ in 0..40 {
        assert!(counted(&mut state, 10));
    }
    let mut rest = 0;
    for _ in 0..30 {
        if counted(&mut state, 69) {
            rest += 1;
        }
    }
    assert_eq!(rest, 20);
    let mut next = 0;
    for _ in 0..70 {
        if counted(&mut state, 70) {
            next += 1;
        }
    }
    assert_eq!(next, 60);
}

#[test]
fn the_cap_is_a_number_of_the_write() {
    let update = view_update("t", "/x".to_string(), 0);
    assert_eq!(update.maximum.parse::<i64>().unwrap(), 1000);
    assert_eq!(update.increment.parse::<i64>().unwrap(), 1);
}

#[test]
fn the_write_holds_the_path_and_the_hour_only() {
    let mut state = about();
    let mut write = |body: ViewBody, at: u64| {
        let update = state.track_view_at(body, Instant::new(at, 0), 7200).unwrap().unwrap();
        (update.path, update.date_hour)
    };
    let first = write(view("/about"), 0);
    let second = write(view("/about///"), 30);
    assert_eq!(first, second);
    assert_eq!(first, ("/about".to_string(), "1970-01-01T02".to_string()));
}

#[test]
fn a_beacon_with_a_string_is_counted() {
    let body = "{\"path\":\"/\"}";
    let beacon = Some("text/plain;charset=UTF-8".as_bytes());
    assert!(matches!(screen_view(beacon, body.len()), Ok(ViewScreening::Read)));
    assert!(matches!(screen_view(beacon, 1024), Ok(ViewScreening::Read)));
    assert!(matches!(screen_view(beacon, 1025), Err(Error::PayloadTooLarge)));
    assert!(matches!(screen_view(Some(b"text/plain;charset=UTF-"), 12), Ok(ViewScreening::Ignore)));
    let mut state = about();
    let update = state.track_view(view("/")).unwrap().unwrap();
    assert_eq!(update.path, "/");
    assert_eq!(view_status(&WriteReply::Stored), 204);
}

#[test]
fn a_path_is_counted_sixty_times_whatever_else_happens() {
    let mut state = about();
    let mut counted = 0;
    for i in 0..100 {
        let now = Instant::new(i / 2, 0);
        if let Ok(Some(_)) = state.track_view_at(view("/about"), now, 0) {
            counted += 1;
            assert_eq!(counted, i + 1);
        }
        let _ = state.track_view_at(view("/"), now, 0);
        let _ = state.track_view_at(view("/unlisted"), now, 0);
        let _ = state.stats_at(now);
        state.store_stats_at(sample(1), now);
        state.cleanup_at(now);
    }
    assert_eq!(counted, 60);
}

#[test]
fn two_fillings_are_the_most_of_any_minute() {
    let mut state = about();
    let mut counted = 0;
    for secs in [0, 59, 60] {
        for _ in 0..100 {
            let r = state.track_view_at(view("/about"), Instant::new(secs, 0), 0);
            if secs > 0 && matches!(r, Ok(Some(_))) {
                counted += 1;
            }
            if secs == 0 {
                break;
            }
        }
        state.cleanup_at(Instant::new(secs, 0));
    }
    assert_eq!(counted, 119);
}
