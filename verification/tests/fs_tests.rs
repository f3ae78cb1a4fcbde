use pithy::fs::{
    asset_link, check_delete, check_image_size, check_image_source, check_rename,
    copy_candidate_name, count_wikilink_references, decimal_of, find_wikilinks, finish_listing,
    is_allowed_image_extension, is_note_path, matching_wikilinks, normalize_for_match,
    rename_ops, replace_wikilink_references, resolve_path, sanitize_filename,
    sanitize_filename_impl, sanitize_image_filename, stem_to_display, temp_file_name,
    walk_admits, wikilink_reference, MAX_IMAGE_BYTES, WELCOME_NOTE,
};
use pithy::search::IndexOp;

#[test]
fn sanitize_basic_cases() {
    assert_eq!(sanitize_filename_impl(" Hello World.md "), "Hello World");
    assert_eq!(sanitize_filename_impl("____"), "untitled");
    assert_eq!(sanitize_filename_impl("My/Bad:Name?.md"), "MyBadName");
    assert_eq!(sanitize_filename_impl("  already-clean  "), "already-clean");
    assert_eq!(sanitize_filename_impl("UPPER CASE"), "UPPER CASE");
}

#[test]
fn sanitize_strips_trailing_dashes() {
    assert_eq!(sanitize_filename_impl("hello---"), "hello");
    assert_eq!(sanitize_filename_impl("---hello---"), "hello");
}

#[test]
fn sanitize_empty_becomes_untitled() {
    assert_eq!(sanitize_filename_impl(""), "untitled");
    assert_eq!(sanitize_filename_impl("   "), "untitled");
    assert_eq!(sanitize_filename_impl("///"), "untitled");
}

#[test]
fn sanitize_collapses_separators_and_drops_the_rest() {
    assert_eq!(sanitize_filename_impl("a\t\n b"), "a b");
    assert_eq!(sanitize_filename_impl("a - b"), "a -b");
    assert_eq!(sanitize_filename_impl("a_-_b"), "a -b");
    assert_eq!(sanitize_filename_impl("café.md"), "caf");
    assert_eq!(sanitize_filename_impl("note.md.md"), "notemd");
    assert_eq!(sanitize_filename("x?y".to_string()).unwrap(), "xy");
}

#[test]
fn sanitize_is_idempotent_on_examples() {
    for name in [" Hello World.md ", "a - b", "---x---", "", "café_ é", "a.md", "1 2  3"] {
        let once = sanitize_filename_impl(name);
        assert_eq!(sanitize_filename_impl(&once), once);
    }
}

#[test]
fn resolve_path_rejects_traversal() {
    let vault = "/tmp/vault";
    assert!(resolve_path(vault, "../evil.md").is_err());
    assert!(resolve_path(vault, "foo/../../etc/passwd").is_err());
}

#[test]
fn resolve_path_rejects_absolute() {
    let vault = "/tmp/vault";
    assert!(resolve_path(vault, "/etc/passwd").is_err());
    assert_eq!(resolve_path(vault, "/etc/passwd").unwrap_err(), "Invalid path");
}

#[test]
fn resolve_path_accepts_valid_relative() {
    let vault = "/tmp/vault";
    let result = resolve_path(vault, "notes/hello.md");
    assert!(result.is_ok());
    assert!(result.unwrap().ends_with("notes/hello.md"));
}

#[test]
fn resolve_path_edges() {
    assert_eq!(resolve_path("/v", "./a.md").unwrap(), "/v/./a.md");
    assert_eq!(resolve_path("/v", "..a.md").unwrap(), "/v/..a.md");
    assert_eq!(resolve_path("/v", "a..").unwrap(), "/v/a..");
    assert_eq!(resolve_path("/v", "a/..").unwrap_err(), "Invalid path");
    assert_eq!(resolve_path("/v/", "a.md").unwrap(), "/v/a.md");
}

#[test]
fn find_wikilinks_and_replace() {
    let content = "See [[my note]] and [[My Note]] but not [[other]]";
    let links = find_wikilinks(content);
    let target_norm = normalize_for_match("my note");
    let matching: Vec<(usize, usize)> = links
        .into_iter()
        .filter(|(s, e)| normalize_for_match(&content[*s..*e]) == target_norm)
        .collect();
    assert_eq!(matching.len(), 2);

    let replacement = "renamed note";
    let mut new_content = content.to_string();
    for (start, end) in matching.into_iter().rev() {
        new_content.replace_range(start..end, replacement);
    }
    assert_eq!(new_content, "See [[renamed note]] and [[renamed note]] but not [[other]]");
}

#[test]
fn replace_references_through_the_library() {
    let content = "See [[my note]] and [[My Note]] but not [[other]]";
    assert_eq!(count_wikilink_references(content, "my-note"), 2);
    assert_eq!(matching_wikilinks(content, "my-note"), vec![(6, 13), (22, 29)]);
    assert_eq!(
        replace_wikilink_references(content, "my-note", "renamed-note").unwrap(),
        "See [[renamed note]] and [[renamed note]] but not [[other]]"
    );
    assert!(replace_wikilink_references(content, "absent", "x").is_none());
    assert_eq!(
        replace_wikilink_references("[[é]] [[É]]", "é", "ü-ü").unwrap(),
        "[[ü ü]] [[ü ü]]"
    );
}

#[test]
fn wikilink_reference_counts() {
    let r = wikilink_reference("a/b.md".to_string(), "[[x]] [[X]] [[y]]", "x").unwrap();
    assert_eq!(r.rel_path, "a/b.md");
    assert_eq!(r.count, 2);
    assert!(wikilink_reference("c.md".to_string(), "no links", "x").is_none());
}

#[test]
fn normalize_for_match_basic() {
    assert_eq!(normalize_for_match("Hello World"), "hello-world");
    assert_eq!(normalize_for_match("project-kickoff"), "project-kickoff");
    assert_eq!(normalize_for_match("some_note"), "some-note");
    assert_eq!(normalize_for_match("  spaced  out  "), "spaced-out");
    assert_eq!(normalize_for_match("MiXeD---CaSe"), "mixed-case");
    assert_eq!(normalize_for_match("hello_-_world"), "hello-world");
}

#[test]
fn normalize_parity_with_typescript() {
    assert_eq!(normalize_for_match("My Note"), "my-note");
    assert_eq!(normalize_for_match("my-note"), "my-note");
    assert_eq!(normalize_for_match("my_note"), "my-note");
    assert_eq!(normalize_for_match("MY  NOTE"), "my-note");
}

#[test]
fn normalize_lowercases_beyond_ascii() {
    assert_eq!(normalize_for_match("ÉCOLE Été"), "école-été");
    assert_eq!(normalize_for_match("a\u{3000}b"), "a-b");
    assert_eq!(normalize_for_match(""), "");
    assert_eq!(normalize_for_match("---"), "");
}

#[test]
fn find_wikilinks_basic() {
    let content = "Hello [[world]] and [[foo bar]]!";
    let links = find_wikilinks(content);
    assert_eq!(links.len(), 2);
    assert_eq!(&content[links[0].0..links[0].1], "world");
    assert_eq!(&content[links[1].0..links[1].1], "foo bar");
}

#[test]
fn find_wikilinks_ignores_newlines() {
    let content = "[[ok]]\n[[broken\nlink]]\n[[also ok]]";
    let links = find_wikilinks(content);
    assert_eq!(links.len(), 2);
    assert_eq!(&content[links[0].0..links[0].1], "ok");
    assert_eq!(&content[links[1].0..links[1].1], "also ok");
}

#[test]
fn find_wikilinks_empty_brackets() {
    let content = "[[]] not a link";
    let links = find_wikilinks(content);
    assert_eq!(links.len(), 0);
}

#[test]
fn find_wikilinks_adjacent() {
    let content = "[[a]][[b]]";
    let links = find_wikilinks(content);
    assert_eq!(links.len(), 2);
    assert_eq!(&content[links[0].0..links[0].1], "a");
    assert_eq!(&content[links[1].0..links[1].1], "b");
}

#[test]
fn find_wikilinks_well_formed_on_examples() {
    for content in ["[[[a]]]", "[[a]]]]", "[[", "]]", "[[x]", "[[a]] [[b\n]] [[c]]", "[[é]]"] {
        let links = find_wikilinks(content);
        let mut prev_end = 0;
        for (s, e) in links {
            assert!(s >= prev_end + 2 && s < e && e + 2 <= content.len());
            assert_eq!(&content[s - 2..s], "[[");
            assert_eq!(&content[e..e + 2], "]]");
            assert!(!content[s..e].contains('\n'));
            prev_end = e + 2;
        }
    }
    assert_eq!(find_wikilinks("[[[a]]]"), vec![(2, 4)]);
}

#[test]
fn stem_to_display_basic() {
    assert_eq!(stem_to_display("hello-world"), "hello world");
    assert_eq!(stem_to_display("simple"), "simple");
}

#[test]
fn sanitize_image_filename_basic() {
    let (stem, ext) = sanitize_image_filename("My Screenshot.png").unwrap();
    assert_eq!(stem, "my-screenshot");
    assert_eq!(ext, "png");
}

#[test]
fn sanitize_image_filename_preserves_extension() {
    let (stem, ext) = sanitize_image_filename("photo.JPEG").unwrap();
    assert_eq!(stem, "photo");
    assert_eq!(ext, "jpeg");
}

#[test]
fn sanitize_image_filename_strips_illegal_chars() {
    let (stem, ext) = sanitize_image_filename("bad:file*name?.png").unwrap();
    assert_eq!(stem, "badfilename");
    assert_eq!(ext, "png");
}

#[test]
fn sanitize_image_filename_rejects_unsupported() {
    assert!(sanitize_image_filename("doc.pdf").is_err());
    assert!(sanitize_image_filename("script.js").is_err());
    assert_eq!(sanitize_image_filename("doc.PDF").unwrap_err(), "Unsupported image type: .pdf");
}

#[test]
fn sanitize_image_filename_rejects_no_extension() {
    assert!(sanitize_image_filename("noext").is_err());
    assert_eq!(sanitize_image_filename("noext").unwrap_err(), "File has no extension");
    assert_eq!(sanitize_image_filename(".png").unwrap_err(), "File has no extension");
}

#[test]
fn sanitize_image_filename_empty_stem_becomes_image() {
    let (stem, ext) = sanitize_image_filename("___.png").unwrap();
    assert_eq!(stem, "image");
    assert_eq!(ext, "png");
}

#[test]
fn sanitize_image_filename_keeps_unicode() {
    let (stem, ext) = sanitize_image_filename("dir/Été  Photo.Png").unwrap();
    assert_eq!(stem, "été-photo");
    assert_eq!(ext, "png");
}

#[test]
fn image_source_checks() {
    assert!(check_image_source("/a/b/pic.PNG").is_ok());
    assert_eq!(check_image_source("/a/b/pic").unwrap_err(), "Source file has no extension");
    assert_eq!(check_image_source("/a/b/doc.Txt").unwrap_err(), "Source file type not allowed: .txt");
    assert!(check_image_size(MAX_IMAGE_BYTES).is_ok());
    assert_eq!(check_image_size(MAX_IMAGE_BYTES + 1).unwrap_err(), "Image exceeds maximum size of 200 MB");
    assert_eq!(MAX_IMAGE_BYTES, 200 * 1024 * 1024);
    for ext in ["png", "jpg", "jpeg", "gif", "webp", "svg", "bmp", "ico"] {
        assert!(is_allowed_image_extension(ext));
    }
    assert!(!is_allowed_image_extension("PNG"));
    assert_eq!(asset_link("photo-2.png"), "_assets/photo-2.png");
}

#[test]
fn copy_candidate_names() {
    assert_eq!(copy_candidate_name("photo", "png", 0), "photo.png");
    assert_eq!(copy_candidate_name("photo", "png", 1), "photo-1.png");
    assert_eq!(copy_candidate_name("photo", "png", 2), "photo-2.png");
    assert_eq!(copy_candidate_name("photo", "png", 10), "photo-10.png");
    assert_eq!(copy_candidate_name("p", "gif", u32::MAX), "p-4294967295.gif");
    let names: Vec<String> = (0..50).map(|n| copy_candidate_name("x", "png", n)).collect();
    for i in 0..names.len() {
        for j in 0..i {
            assert_ne!(names[i], names[j]);
        }
    }
}

#[test]
fn decimal_digits() {
    assert_eq!(decimal_of(0).into_iter().collect::<String>(), "0");
    assert_eq!(decimal_of(7).into_iter().collect::<String>(), "7");
    assert_eq!(decimal_of(1230).into_iter().collect::<String>(), "1230");
}

#[test]
fn note_files_and_listing() {
    assert_eq!(temp_file_name("note.md"), ".note.md.pithy-tmp");
    assert!(walk_admits("notes"));
    assert!(!walk_admits(".git"));
    assert!(walk_admits(""));
    assert!(is_note_path("/v/a/b.md"));
    assert!(!is_note_path("/v/a/b.MD"));
    assert!(!is_note_path("/v/a/.md"));
    assert!(!is_note_path("/v/a/b.md.pithy-tmp"));
    assert_eq!(finish_listing(vec![]), vec!["welcome.md".to_string()]);
    assert_eq!(
        finish_listing(vec!["b.md".into(), "a/z.md".into(), "B.md".into(), "a.md".into()]),
        vec!["B.md", "a.md", "a/z.md", "b.md"]
    );
    assert!(WELCOME_NOTE.starts_with("# Welcome to Pithy"));
}

#[test]
fn delete_and_rename_checks() {
    assert!(check_delete(true).is_ok());
    assert_eq!(check_delete(false).unwrap_err(), "File does not exist");
    assert!(check_rename(true, false).is_ok());
    assert_eq!(check_rename(false, false).unwrap_err(), "Source file does not exist");
    assert_eq!(check_rename(false, true).unwrap_err(), "Source file does not exist");
    assert_eq!(check_rename(true, true).unwrap_err(), "A note with that name already exists");
    let (a, b) = rename_ops("old.md".to_string(), "new.md".to_string());
    assert!(matches!(a, IndexOp::Delete { rel_path } if rel_path == "old.md"));
    assert!(matches!(b, IndexOp::Upsert { rel_path } if rel_path == "new.md"));
}

#[test]
fn image_stems_are_lowercased_beyond_ascii() {
    let (stem, ext) = sanitize_image_filename("Été.PNG").unwrap();
    assert_eq!(stem, "été");
    assert_eq!(ext, "png");
    let (stem, _) = sanitize_image_filename("ÀB_Ç D.gif").unwrap();
    assert_eq!(stem, "àb-ç-d");
}

#[test]
fn normalizing_twice_changes_nothing() {
    for s in ["Hello World", "a__b--c", " -x- ", "MiXeD---CaSe", "snake_case-Name"] {
        let once = normalize_for_match(s);
        assert_eq!(normalize_for_match(&once), once);
        assert_eq!(once, once.to_lowercase());
        assert_eq!(normalize_for_match(&s.replace('_', "-")), once);
    }
}

#[test]
fn a_single_link() {
    assert_eq!(find_wikilinks("[[x y]]"), vec![(2, 5)]);
    assert_eq!(find_wikilinks("[[é[a]]"), vec![(2, 6)]);
}

#[test]
fn resolved_paths_lie_under_the_vault() {
    for (v, rel) in [("/tmp/vault", "notes/a.md"), ("/tmp/vault/", "./a.md"), ("", "a.md"), ("v", "b/c")] {
        let p = resolve_path(v, rel).unwrap();
        assert!(std::path::Path::new(&p).starts_with(v));
    }
}
