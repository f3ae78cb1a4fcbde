use pithy::search::worker::{note_document, PendingOps, WorkerAction, WorkerEvent};
use pithy::search::IndexOp;

fn up(p: &str) -> WorkerEvent {
    WorkerEvent::Received(IndexOp::Upsert { rel_path: p.to_string() })
}

fn del(p: &str) -> WorkerEvent {
    WorkerEvent::Received(IndexOp::Delete { rel_path: p.to_string() })
}

fn sorted(mut v: Vec<String>) -> Vec<String> {
    v.sort();
    v
}

#[test]
fn the_last_operation_on_a_note_wins() {
    let mut p = PendingOps::new();
    assert!(!p.waits_with_timeout());
    assert!(matches!(p.handle(up("a.md")), WorkerAction::Wait));
    assert!(p.waits_with_timeout());
    assert!(matches!(p.handle(del("a.md")), WorkerAction::Wait));
    assert!(matches!(p.handle(up("b.md")), WorkerAction::Wait));
    assert!(matches!(p.handle(up("b.md")), WorkerAction::Wait));
    assert!(matches!(p.handle(del("c.md")), WorkerAction::Wait));
    assert!(matches!(p.handle(up("c.md")), WorkerAction::Wait));
    assert_eq!(sorted(p.upserts.clone()), vec!["b.md", "c.md"]);
    assert_eq!(p.deletes, vec!["a.md"]);
    match p.handle(WorkerEvent::TimedOut) {
        WorkerAction::Flush { deletes, upserts } => {
            assert_eq!(deletes, vec!["a.md"]);
            assert_eq!(sorted(upserts), vec!["b.md", "c.md"]);
        }
        _ => panic!("a timeout flushes"),
    }
    assert!(p.upserts.is_empty() && p.deletes.is_empty());
    assert!(!p.waits_with_timeout());
}

#[test]
fn a_rebuild_drops_what_is_pending() {
    let mut p = PendingOps::new();
    p.handle(up("a.md"));
    p.handle(del("b.md"));
    assert!(matches!(p.handle(WorkerEvent::Received(IndexOp::Rebuild)), WorkerAction::Rebuild));
    assert!(p.upserts.is_empty() && p.deletes.is_empty());
    assert!(!p.dirty);
    match p.handle(WorkerEvent::Closed) {
        WorkerAction::Finish { flush } => assert!(flush.is_none()),
        _ => panic!("a closed channel finishes"),
    }
}

#[test]
fn closing_flushes_what_changed() {
    let mut p = PendingOps::new();
    p.handle(up("x.md"));
    match p.handle(WorkerEvent::Closed) {
        WorkerAction::Finish { flush: Some((deletes, upserts)) } => {
            assert!(deletes.is_empty());
            assert_eq!(upserts, vec!["x.md"]);
        }
        _ => panic!("pending changes are written before the worker stops"),
    }
    assert!(!p.dirty);
}

#[test]
fn records_and_take() {
    let mut p = PendingOps::new();
    p.record_upsert("a.md".to_string());
    p.record_upsert("a.md".to_string());
    p.record_delete("b.md".to_string());
    assert_eq!(p.upserts, vec!["a.md"]);
    assert_eq!(p.deletes, vec!["b.md"]);
    let (d, u) = p.take_flush();
    assert_eq!((d, u), (vec!["b.md".to_string()], vec!["a.md".to_string()]));
    p.record_delete("c.md".to_string());
    p.clear();
    assert!(p.deletes.is_empty() && !p.dirty);
}

#[test]
fn documents_for_notes() {
    let d = note_document("sub/My Note.md", "Hello #World and #rust".to_string(), 1700000000);
    assert_eq!(d.path, "sub/My Note.md");
    assert_eq!(d.filename_stem, "My Note");
    assert_eq!(d.body, "Hello #World and #rust");
    assert_eq!(d.tags, vec!["rust", "world"]);
    assert_eq!(d.modified_date, 1700000000);
    let d = note_document(".hidden", String::new(), 0);
    assert_eq!(d.filename_stem, ".hidden");
    assert!(d.tags.is_empty());
    let d = note_document("a.tar.gz", String::new(), -5);
    assert_eq!(d.filename_stem, "a.tar");
    assert_eq!(d.modified_date, -5);
}
