use std::time::{Duration, SystemTime};
use wiivci_core::assets::gametdb::{
    cache_dir_name, fetch_wiitdb_text, judge_cache, looks_like_wiitdb, lookup_title,
    lookup_title_opt, parse_wiitdb, CacheState, CACHE_TTL,
};

/// A time as nanoseconds from the epoch.
fn nanos(t: SystemTime) -> i128 {
    t.duration_since(SystemTime::UNIX_EPOCH).unwrap().as_nanos() as i128
}

fn cache_is_fresh(modified: SystemTime, now: SystemTime, ttl: Duration) -> bool {
    wiivci_core::assets::gametdb::cache_is_fresh(nanos(modified), nanos(now), ttl.as_nanos() as i128)
}

#[test]
fn cache_is_fresh_within_ttl() {
    let now = SystemTime::now();
    let ttl = Duration::from_secs(7 * 24 * 60 * 60);
    assert!(cache_is_fresh(now - Duration::from_secs(60), now, ttl));
    assert!(cache_is_fresh(now - (ttl - Duration::from_secs(1)), now, ttl));
}

#[test]
fn cache_is_fresh_past_ttl() {
    let now = SystemTime::now();
    let ttl = Duration::from_secs(7 * 24 * 60 * 60);
    assert!(!cache_is_fresh(now - ttl, now, ttl));
    assert!(!cache_is_fresh(now - (ttl + Duration::from_secs(1)), now, ttl));
}

#[test]
fn cache_is_fresh_treats_future_mtime_as_fresh() {
    let now = SystemTime::now();
    let ttl = Duration::from_secs(60);
    assert!(cache_is_fresh(now + Duration::from_secs(3600), now, ttl));
}

const SAMPLE: &str = "\
# comment line
AGSE01 = Donkey Kong Country Returns
RSPE01 = Rhythm Heaven Fever
SOUP01 = Super Mario Galaxy 2
";

#[test]
fn finds_exact_match() {
    assert_eq!(
        parse_wiitdb(SAMPLE, "RSPE01"),
        Some("Rhythm Heaven Fever".to_string())
    );
}

#[test]
fn matches_case_insensitively() {
    assert_eq!(
        parse_wiitdb(SAMPLE, "rspe01"),
        Some("Rhythm Heaven Fever".to_string())
    );
}

#[test]
fn returns_none_when_missing() {
    assert_eq!(parse_wiitdb(SAMPLE, "ZZZZ99"), None);
}

#[test]
fn skips_comments_and_blank_lines() {
    assert_eq!(
        parse_wiitdb(SAMPLE, "SOUP01"),
        Some("Super Mario Galaxy 2".to_string())
    );
}

#[test]
fn tolerates_header_line_without_equals() {
    let text = "\
wiitdb.txt - GameTDB flat title database
AGSE01 = Donkey Kong Country Returns
RSPE01 = Rhythm Heaven Fever
";
    assert_eq!(
        parse_wiitdb(text, "RSPE01"),
        Some("Rhythm Heaven Fever".to_string())
    );
}

#[test]
fn tolerates_mid_file_garbage_line() {
    let text = "\
AGSE01 = Donkey Kong Country Returns
this is not a valid entry line at all
RSPE01 = Rhythm Heaven Fever
SOUP01 = Super Mario Galaxy 2
";
    assert_eq!(
        parse_wiitdb(text, "AGSE01"),
        Some("Donkey Kong Country Returns".to_string())
    );
    assert_eq!(
        parse_wiitdb(text, "RSPE01"),
        Some("Rhythm Heaven Fever".to_string())
    );
    assert_eq!(
        parse_wiitdb(text, "SOUP01"),
        Some("Super Mario Galaxy 2".to_string())
    );
}

#[test]
fn tolerates_truncated_trailing_line() {
    let text = "\
AGSE01 = Donkey Kong Country Returns
RSPE01 = Rhythm Heaven Fever
SOUP0";
    assert_eq!(
        parse_wiitdb(text, "AGSE01"),
        Some("Donkey Kong Country Returns".to_string())
    );
    assert_eq!(
        parse_wiitdb(text, "RSPE01"),
        Some("Rhythm Heaven Fever".to_string())
    );
    assert_eq!(parse_wiitdb(text, "SOUP01"), None);
}

#[test]
fn looks_like_wiitdb_accepts_real_text() {
    assert!(looks_like_wiitdb(SAMPLE));
}

#[test]
fn looks_like_wiitdb_rejects_html_error_page() {
    assert!(!looks_like_wiitdb(
        "<!DOCTYPE html>\n<html><body>502 Bad Gateway</body></html>\n"
    ));
    assert!(!looks_like_wiitdb(
        "<html><head><title>Error</title></head></html>\n"
    ));
}

#[test]
fn looks_like_wiitdb_rejects_empty() {
    assert!(!looks_like_wiitdb(""));
    assert!(!looks_like_wiitdb("   \n  \n"));
}

#[test]
fn looks_like_wiitdb_rejects_text_with_no_entry_lines() {
    assert!(!looks_like_wiitdb("# just a comment\n\n"));
}

#[test]
fn values_keep_later_equals_signs_and_windows_line_ends_go() {
    assert_eq!(
        parse_wiitdb("AAAA01 = 1 + 1 = 2\r\n", "AAAA01"),
        Some("1 + 1 = 2".to_string())
    );
    assert_eq!(parse_wiitdb("\u{a0}\u{2003}AAAA01\u{3000}= x", "AAAA01"), Some("x".to_string()));
}

#[test]
fn the_first_entry_of_a_game_counts() {
    assert_eq!(
        parse_wiitdb("AAAA01 = first\nAAAA01 = second\n", "AAAA01"),
        Some("first".to_string())
    );
}

#[test]
fn lookups_need_a_database() {
    assert_eq!(lookup_title_opt(None, "RSPE01"), None);
    assert_eq!(
        lookup_title_opt(Some(SAMPLE.to_string()), "RSPE01"),
        Some("Rhythm Heaven Fever".to_string())
    );
    assert_eq!(lookup_title(Some(SAMPLE.to_string()), "ZZZZ99").unwrap(), None);
}

#[test]
fn caches_are_judged_by_content_and_age() {
    let text = Some(SAMPLE.to_string());
    assert!(matches!(judge_cache(None, None, 0), CacheState::Missing));
    assert!(matches!(
        judge_cache(Some("<html>".to_string()), Some(0), 0),
        CacheState::Invalid
    ));
    assert!(matches!(judge_cache(text.clone(), None, 0), CacheState::Fresh(_)));
    assert!(matches!(
        judge_cache(text.clone(), Some(0), CACHE_TTL - 1),
        CacheState::Fresh(_)
    ));
    assert!(matches!(
        judge_cache(text, Some(0), CACHE_TTL),
        CacheState::Stale(t) if t == SAMPLE
    ));
}

#[test]
fn a_bad_download_falls_back_to_the_stale_cache() {
    let stale = Some("AAAA01 = old".to_string());
    assert_eq!(
        fetch_wiitdb_text(Some(SAMPLE.to_string()), stale.clone()),
        (Some(SAMPLE.to_string()), true)
    );
    assert_eq!(
        fetch_wiitdb_text(Some("<html>".to_string()), stale.clone()),
        (stale.clone(), false)
    );
    assert_eq!(fetch_wiitdb_text(None, stale.clone()), (stale, false));
    assert_eq!(fetch_wiitdb_text(None, None), (None, false));
}

#[test]
fn cache_directories_are_one_component() {
    let name = cache_dir_name(Some("../a b/c".to_string()), None);
    assert!(!name.contains('/') && !name.contains('.'), "{name}");
    assert_ne!(
        cache_dir_name(Some("ann".to_string()), None),
        cache_dir_name(Some("bob".to_string()), None)
    );
}

#[test]
fn derives_from_rspe() {
    let ids = wiivci_core::meta::titleid::derive(*b"RSPE");
    assert_eq!(ids.title_id, 0x0005000252535045);
    assert_eq!(ids.group_id, 0x52535045);
    assert_eq!(ids.reserved_flag2, 0x52535045);
    assert_eq!(ids.product_code, "WUP-N-RSPE");
}

#[test]
fn product_code_matches_for_valid_id() {
    let ids = wiivci_core::meta::titleid::derive(*b"TEST");
    assert_eq!(ids.product_code, "WUP-N-TEST");
}

#[test]
fn product_code_replaces_bytes_that_are_no_text() {
    assert_eq!(wiivci_core::meta::titleid::derive([b'R', 0xFF, b'P', b'E']).product_code, "WUP-N-R\u{FFFD}PE");
}

#[test]
fn different_discs_have_different_titles() {
    assert_ne!(wiivci_core::meta::titleid::derive(*b"RSPE").title_id, wiivci_core::meta::titleid::derive(*b"RSPJ").title_id);
}
