use pithy::paths::{components_of, file_name_of, join, name_extension_of, name_stem_of, strip_prefix_of};
use std::path::{Component, Path};

const SAMPLES: [&str; 16] = [
    "", "/", "a", "a/", "/a/b.md", "a//b", "./a/b", "a/./b/.", "../x", "a/..", ".hidden",
    "dir/.md", "a.tar.gz", "/v/x.", "..", "./",
];

fn chars(s: &str) -> Vec<char> {
    s.chars().collect()
}

fn text(cs: &[char]) -> String {
    cs.iter().collect()
}

#[test]
fn components_agree_with_std() {
    for p in SAMPLES {
        let ours: Vec<String> = components_of(&chars(p)).iter().map(|c| text(c)).collect();
        let std: Vec<String> = Path::new(p)
            .components()
            .map(|c| match c {
                Component::RootDir => "/".to_string(),
                other => other.as_os_str().to_string_lossy().into_owned(),
            })
            .collect();
        assert_eq!(ours, std, "{p}");
    }
}

#[test]
fn names_agree_with_std() {
    for p in SAMPLES {
        let name = file_name_of(&chars(p)).map(|f| text(&f));
        let std_name = Path::new(p).file_name().map(|f| f.to_string_lossy().into_owned());
        assert_eq!(name, std_name, "{p}");
        if let Some(f) = file_name_of(&chars(p)) {
            let ext = name_extension_of(&f).map(|e| text(&e));
            let std_ext = Path::new(p).extension().map(|e| e.to_string_lossy().into_owned());
            assert_eq!(ext, std_ext, "{p}");
            let stem = text(&name_stem_of(&f));
            let std_stem = Path::new(p).file_stem().map(|e| e.to_string_lossy().into_owned());
            assert_eq!(Some(stem), std_stem, "{p}");
        }
    }
}

#[test]
fn joins_agree_with_std() {
    for base in ["", "/", "/v", "/v/", "v"] {
        for rel in ["a", "a/b", "", "./a"] {
            let std = Path::new(base).join(rel).to_string_lossy().into_owned();
            assert_eq!(join(base, rel), std, "{base} + {rel}");
        }
    }
}

#[test]
fn prefixes_agree_with_std() {
    for p in SAMPLES {
        for b in ["", "/", "a", "./a", "/a"] {
            let ours = strip_prefix_of(&chars(p), &chars(b)).is_some();
            assert_eq!(ours, Path::new(p).strip_prefix(b).is_ok(), "{p} against {b}");
        }
    }
}
