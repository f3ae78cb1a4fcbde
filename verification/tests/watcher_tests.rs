use pithy::paths::relative_path;
use pithy::search::watcher::{event_op, event_ops, should_ignore, WatchEventKind};
use pithy::search::IndexOp;

fn vault() -> String {
    "/vault".to_string()
}

fn join(v: &str, rel: &str) -> String {
    format!("{v}/{rel}")
}

#[test]
fn ignores_dotfiles() {
    let v = vault();
    assert!(should_ignore(&join(&v, ".git/HEAD"), &v));
    assert!(should_ignore(&join(&v, ".DS_Store"), &v));
}

#[test]
fn ignores_non_md() {
    let v = vault();
    assert!(should_ignore(&join(&v, "image.png"), &v));
    assert!(should_ignore(&join(&v, "notes.txt"), &v));
}

#[test]
fn ignores_pithy_tmp() {
    let v = vault();
    assert!(should_ignore(&join(&v, "note.md.pithy-tmp"), &v));
}

#[test]
fn ignores_sync_artifacts() {
    let v = vault();
    assert!(should_ignore(&join(&v, "file.icloud"), &v));
    assert!(should_ignore(&join(&v, "file.conflict"), &v));
}

#[test]
fn accepts_valid_md() {
    let v = vault();
    assert!(!should_ignore(&join(&v, "note.md"), &v));
    assert!(!should_ignore(&join(&v, "sub/dir/note.md"), &v));
}

#[test]
fn ignores_pithy_index_dir() {
    let v = vault();
    assert!(should_ignore(&join(&v, ".pithy/search/meta.json"), &v));
}

#[test]
fn ignores_paths_outside_the_vault() {
    assert!(should_ignore("/elsewhere/note.md", "/vault"));
    assert!(should_ignore("/vaulted/note.md", "/vault"));
    assert!(!should_ignore("/vault//a/./note.md", "/vault/"));
    assert!(should_ignore("/vault/a/.hidden/note.md", "/vault"));
    assert!(should_ignore("/vault/NOTE.MD", "/vault"));
}

#[test]
fn events_become_index_operations() {
    assert!(matches!(event_op(WatchEventKind::Create, "a.md".into()), Some(IndexOp::Upsert { rel_path }) if rel_path == "a.md"));
    assert!(matches!(event_op(WatchEventKind::Modify, "a.md".into()), Some(IndexOp::Upsert { .. })));
    assert!(matches!(event_op(WatchEventKind::Remove, "a.md".into()), Some(IndexOp::Delete { rel_path }) if rel_path == "a.md"));
    assert!(event_op(WatchEventKind::Other, "a.md".into()).is_none());
}

#[test]
fn an_event_with_several_paths() {
    let paths: Vec<String> = vec![
        "/vault/a.md".into(),
        "/vault/.git/index".into(),
        "/vault/sub/b.md".into(),
        "/other/c.md".into(),
        "/vault/img.png".into(),
    ];
    let ops = event_ops(WatchEventKind::Remove, &paths, "/vault");
    assert_eq!(ops.len(), 2);
    assert!(matches!(&ops[0], IndexOp::Delete { rel_path } if rel_path == "a.md"));
    assert!(matches!(&ops[1], IndexOp::Delete { rel_path } if rel_path == "sub/b.md"));
    let ops = event_ops(WatchEventKind::Create, &paths, "/vault");
    assert!(matches!(&ops[1], IndexOp::Upsert { rel_path } if rel_path == "sub/b.md"));
    assert!(event_ops(WatchEventKind::Other, &paths, "/vault").is_empty());
}

#[test]
fn relative_paths() {
    assert_eq!(relative_path("/vault/sub/b.md", "/vault").as_deref(), Some("sub/b.md"));
    assert_eq!(relative_path("/vault", "/vault").as_deref(), Some(""));
    assert_eq!(relative_path("/vaulted/x", "/vault"), None);
    assert_eq!(relative_path("/vault//a/./b.md", "/vault/"), Some("a/./b.md".to_string()));
    assert_eq!(relative_path("/vault/a/", "/vault").as_deref(), Some("a"));
    assert_eq!(relative_path("/vault/./a/.", "/vault").as_deref(), Some("a"));
    assert_eq!(relative_path("/a/b/", "").as_deref(), Some("/a/b"));
    assert_eq!(relative_path("./x/", "").as_deref(), Some("./x"));
    assert_eq!(relative_path("./x/y", ".").as_deref(), Some("x/y"));
    assert_eq!(relative_path("/", "").as_deref(), Some("/"));
    assert_eq!(relative_path("/a", "/").as_deref(), Some("a"));
    assert_eq!(relative_path("a/b", "/a"), None);
}

#[test]
fn relative_paths_agree_with_std() {
    let cases = [
        ("/vault//a/./b.md", "/vault/"),
        ("/vault/a/", "/vault"),
        ("/vault/./a/.", "/vault"),
        ("/a/b/", ""),
        ("./x/", ""),
        ("./x/y", "."),
        ("/", ""),
        ("/a", "/"),
        ("a/b", "/a"),
        ("a//b/../c/", "a"),
        ("", ""),
        (".", ""),
        ("//", ""),
    ];
    for (p, b) in cases {
        let expected = std::path::Path::new(p)
            .strip_prefix(b)
            .ok()
            .map(|r| r.to_string_lossy().into_owned());
        assert_eq!(relative_path(p, b), expected, "{p} against {b}");
    }
}
