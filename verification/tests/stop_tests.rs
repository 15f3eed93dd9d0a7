use aio_core::stop::StopFilter;
use aio_core::stop::StopManager;
use aio_core::stop::StopToken;
use aio_core::stop::StopTokenState;

#[test]
fn inspector_finds_pattern() {
    let tok = StopToken::new("stop".to_string());
    let mut insp = tok.inspect_from(0);
    assert!(matches!(insp.check("please stop now"), StopTokenState::Found));
}

#[test]
fn inspector_tracks_progress() {
    let tok = StopToken::new("stop".to_string());
    let mut insp = tok.inspect_from(0);
    assert!(matches!(insp.check("xxst"), StopTokenState::InProgress));
    assert_eq!(insp.position(), 2);
}

#[test]
fn inspector_resets_on_mismatch() {
    let tok = StopToken::new("ab".to_string());
    let mut insp = tok.inspect_from(1);
    assert!(matches!(insp.check("x"), StopTokenState::InProgress));
    assert_eq!(insp.position(), 0);
}

#[test]
fn inspector_naive_restart_misses_overlap() {
    // The naive restart does not re-examine the mismatching character.
    let tok = StopToken::new("ab".to_string());
    let mut insp = tok.inspect_from(0);
    assert!(matches!(insp.check("aab"), StopTokenState::InProgress));
}

#[test]
fn manager_detects_within_fragment() {
    let mut m = StopManager::new();
    m.add_stop_from_string("END");
    assert!(!m.check("nothing here"));
    assert!(m.check("xx END yy"));
}

#[test]
fn manager_counters_persist_across_fragments() {
    let mut m = StopManager::new();
    m.add_stop_from_string("World");
    assert!(!m.check("Hello Wor"));
    assert!(m.check("ld!"));
}

#[test]
fn manager_reset_clears_progress() {
    let mut m = StopManager::new();
    m.add_stop_from_string("World");
    assert!(!m.check("Wor"));
    m.reset();
    assert!(!m.check("ld"));
}

#[test]
fn manager_without_patterns_never_matches() {
    let mut m = StopManager::new();
    assert!(!m.check("anything"));
}

#[test]
fn manager_accepts_stop_token() {
    let mut m = StopManager::new();
    m.add_stop(StopToken::new("q".to_string()));
    assert!(m.check("q"));
}

#[test]
fn filter_truncates_at_match_start() {
    let mut f = StopFilter::new();
    f.add_stop(StopToken::new("XY".to_string()));
    let (pass, matched) = f.feed("abXYcd");
    assert_eq!(pass, "ab");
    assert!(matched);
}

#[test]
fn filter_releases_held_text_on_mismatch() {
    let mut f = StopFilter::new();
    f.add_stop(StopToken::new("XY".to_string()));
    let (pass, matched) = f.feed("abX");
    assert_eq!(pass, "ab");
    assert!(!matched);
    let (pass2, matched2) = f.feed("Zw");
    assert_eq!(pass2, "XZw");
    assert!(!matched2);
}

#[test]
fn filter_flush_returns_held_text() {
    let mut f = StopFilter::new();
    f.add_stop(StopToken::new("XY".to_string()));
    let (pass, _) = f.feed("abX");
    assert_eq!(pass, "ab");
    assert_eq!(f.flush(), "X");
}

#[test]
fn filter_detects_split_at_every_point() {
    // A stop sequence split across two fragments at every possible split
    // point is still detected, and nothing of it is ever passed on.
    let pattern = "STOP";
    for i in 0..=pattern.len() {
        let mut f = StopFilter::new();
        f.add_stop(StopToken::new(pattern.to_string()));
        let (pass1, m1) = f.feed(&pattern[..i]);
        let (pass2, m2) = f.feed(&pattern[i..]);
        assert_eq!(pass1, "", "split at {}", i);
        assert_eq!(pass2, "", "split at {}", i);
        assert!(m1 || m2, "split at {}", i);
    }
}

#[test]
fn filter_emits_text_before_split_match() {
    let mut f = StopFilter::new();
    f.add_stop(StopToken::new("STOP".to_string()));
    let (pass1, m1) = f.feed("abST");
    let (pass2, m2) = f.feed("OPcd");
    assert_eq!(pass1, "ab");
    assert!(!m1);
    assert_eq!(pass2, "");
    assert!(m2);
}
