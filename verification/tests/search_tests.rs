use pithy::search::query::{
    assemble_response, empty_response, hit_from_raw, plan_is_empty, plan_query, RawHit,
};
use pithy::search::schema::{after_attempt, index_dir_for, index_failure, IndexAttempt, OpenStep, WRITER_LOCK_FILE};
use pithy::search::{list_tags, search_status, search_window, STATUS_BUILDING, STATUS_ERROR, STATUS_READY};
use pithy::menu::{menu_action, MenuAction};

#[test]
fn empty_query_returns_empty() {
    let plan = plan_query("  ");
    assert!(plan_is_empty(&plan));
    let result = empty_response("  ");
    assert!(result.hits.is_empty());
    assert_eq!(result.query, "  ");
}

#[test]
fn query_plans() {
    let plan = plan_query("tips #programming");
    assert_eq!(plan.tags, vec!["programming"]);
    assert_eq!(plan.free_text, "tips");
    assert!(!plan_is_empty(&plan));

    let plan = plan_query("  hello\tworld  #a #b # #  ");
    assert_eq!(plan.tags, vec!["a", "b"]);
    assert_eq!(plan.free_text, "hello world # #");

    let plan = plan_query("#rust");
    assert_eq!(plan.tags, vec!["rust"]);
    assert_eq!(plan.free_text, "");
    assert!(!plan_is_empty(&plan));

    let plan = plan_query("#é\u{3000}x");
    assert_eq!(plan.tags, vec!["é"]);
    assert_eq!(plan.free_text, "x");
}

fn raw(path: Option<&str>, snippet: &str, score: f32) -> RawHit {
    RawHit {
        path: path.map(|s| s.to_string()),
        filename_stem: None,
        tags: vec!["t".to_string()],
        modified_date: None,
        snippet_html: snippet.to_string(),
        score_bits: score.to_bits(),
    }
}

#[test]
fn hits_from_the_index() {
    let h = hit_from_raw(raw(Some("notes/a.md"), "<b>a</b>", 1.5));
    assert_eq!(h.path, "notes/a.md");
    assert_eq!(h.filename_stem, "");
    assert_eq!(h.snippet.as_deref(), Some("<b>a</b>"));
    assert_eq!(h.tags, vec!["t"]);
    assert_eq!(h.modified_date, 0);
    assert_eq!(f32::from_bits(h.score_bits), 1.5);
    let h = hit_from_raw(raw(None, "", 0.25));
    assert_eq!(h.path, "");
    assert!(h.snippet.is_none());
}

#[test]
fn offset_skips_results() {
    let top = vec![raw(Some("a.md"), "", 2.0), raw(Some("b.md"), "", 1.0), raw(Some("c.md"), "", 0.5)];
    let r = assemble_response(top, 1, "q");
    assert_eq!(r.query, "q");
    assert_eq!(r.hits.len(), 2);
    assert_eq!(r.hits[0].path, "b.md");
    assert_eq!(r.hits[1].path, "c.md");
    let top = vec![raw(Some("a.md"), "", 2.0)];
    let skipped = assemble_response(top, 1, "q");
    assert!(skipped.hits.is_empty());
    let skipped = assemble_response(Vec::new(), 5, "q");
    assert!(skipped.hits.is_empty());
}

#[test]
fn search_windows() {
    assert_eq!(search_window(None, None), (20, 0, 20));
    assert_eq!(search_window(Some(5), Some(10)), (5, 10, 15));
    assert_eq!(search_window(Some(u32::MAX), Some(u32::MAX)), (u32::MAX, u32::MAX, 2 * u32::MAX as u64));
}

#[test]
fn status_labels() {
    assert_eq!(search_status(STATUS_BUILDING), "building");
    assert_eq!(search_status(STATUS_READY), "ready");
    assert_eq!(search_status(STATUS_ERROR), "error");
    assert_eq!(search_status(200), "error");
}

#[test]
fn tags_of_the_index() {
    let terms: Vec<Vec<u8>> = vec![
        b"rust".to_vec(),
        vec![0xff, 0xfe],
        "é".as_bytes().to_vec(),
        b"alpha".to_vec(),
        b"rust".to_vec(),
    ];
    assert_eq!(list_tags(&terms), vec!["alpha", "rust", "é"]);
    assert!(list_tags(&Vec::new()).is_empty());
}

#[test]
fn opening_the_index() {
    assert_eq!(index_dir_for("/v"), "/v/.pithy/search");
    assert_eq!(WRITER_LOCK_FILE, ".tantivy-writer.lock");
    assert!(matches!(after_attempt(IndexAttempt::Open, true), OpenStep::Ready));
    assert!(matches!(after_attempt(IndexAttempt::Open, false), OpenStep::Next(IndexAttempt::Create)));
    assert!(matches!(after_attempt(IndexAttempt::Create, false), OpenStep::Next(IndexAttempt::CreateAfterUnlock)));
    assert!(matches!(after_attempt(IndexAttempt::CreateAfterUnlock, true), OpenStep::Ready));
    assert!(matches!(after_attempt(IndexAttempt::CreateAfterUnlock, false), OpenStep::Failed));
    assert_eq!(index_failure("locked"), "Failed to create search index: locked");
}

#[test]
fn menu_actions() {
    assert!(matches!(menu_action("settings"), MenuAction::Emit(e) if e == "open-config"));
    assert!(matches!(menu_action("new-note"), MenuAction::Emit(e) if e == "open-quick-switcher"));
    assert!(matches!(menu_action("delete-note"), MenuAction::Emit(e) if e == "delete-note"));
    assert!(matches!(menu_action("fullscreen"), MenuAction::ToggleFullscreen));
    assert!(matches!(menu_action("quit"), MenuAction::Ignore));
}
