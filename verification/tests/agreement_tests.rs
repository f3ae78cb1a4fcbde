//! The library against plain std-only versions of the same rules, on many generated inputs.
use pithy::config::expand_tilde;
use pithy::fs::{
    find_wikilinks, normalize_for_match, replace_wikilink_references, sanitize_filename_impl,
    sanitize_image_filename, stem_to_display,
};
use pithy::search::query::plan_query;
use pithy::search::tags::extract_tags;
use pithy::search::watcher::should_ignore;
use std::path::{Component, Path};

struct Gen(u64);

impl Gen {
    fn next(&mut self) -> u64 {
        self.0 = self.0.wrapping_mul(6364136223846793005).wrapping_add(1442695040888963407);
        self.0 >> 33
    }

    fn string(&mut self, alphabet: &[&str], max_len: u64) -> String {
        let n = self.next() % (max_len + 1);
        (0..n).map(|_| alphabet[(self.next() % alphabet.len() as u64) as usize]).collect()
    }
}

const NAME_ALPHABET: [&str; 26] = [
    "a", "Z", "0", " ", "-", "_", "\t", "/", ".", "md", ":", "*", "?", "\"", "<", "|", "é", "É",
    "日", "\u{3000}", "ß", "İ", "png", "JPG", "\\", "\n",
];

const TEXT_ALPHABET: [&str; 24] = [
    "#", "a", "B", "7", " ", "\n", "`", "```", "~~~", "[", "]", "(", ")", "{", "http://x",
    "https://y", "-", "_", "/", "é", "Ä", "日", "\u{3000}", "]]",
];

fn plain_sanitize(name: &str) -> String {
    let mut s = name.trim().to_string();
    if let Some(stripped) = s.strip_suffix(".md") {
        s = stripped.to_string();
    }
    let mut out = String::new();
    let mut prev_space = false;
    let mut prev_dash = false;
    for ch in s.chars() {
        if matches!(ch, '/' | '\\' | ':' | '*' | '?' | '"' | '<' | '>' | '|') {
            continue;
        }
        if ch == '-' {
            if !prev_dash && !out.is_empty() {
                out.push('-');
                prev_dash = true;
                prev_space = false;
            }
            continue;
        }
        if ch.is_whitespace() || ch == '_' {
            if !prev_space && !prev_dash && !out.is_empty() {
                out.push(' ');
                prev_space = true;
            }
            continue;
        }
        if ch.is_ascii_alphanumeric() {
            out.push(ch);
            prev_space = false;
            prev_dash = false;
        }
    }
    let out = out.trim_matches(|c: char| c == '-' || c == ' ').to_string();
    if out.is_empty() { "untitled".into() } else { out }
}

fn plain_normalize(s: &str) -> String {
    let lower = s.to_lowercase();
    let mut out = String::new();
    let mut prev_dash = false;
    for ch in lower.chars() {
        if ch.is_whitespace() || ch == '-' || ch == '_' {
            if !prev_dash && !out.is_empty() {
                out.push('-');
                prev_dash = true;
            }
        } else {
            out.push(ch);
            prev_dash = false;
        }
    }
    out.trim_end_matches('-').to_string()
}

fn plain_wikilinks(content: &str) -> Vec<(usize, usize)> {
    let bytes = content.as_bytes();
    let len = bytes.len();
    let mut results = Vec::new();
    let mut i = 0;
    while i + 1 < len {
        if bytes[i] == b'[' && bytes[i + 1] == b'[' {
            let inner_start = i + 2;
            let mut j = inner_start;
            while j + 1 < len {
                if bytes[j] == b'\n' {
                    break;
                }
                if bytes[j] == b']' && bytes[j + 1] == b']' {
                    if j > inner_start {
                        results.push((inner_start, j));
                    }
                    i = j + 2;
                    break;
                }
                j += 1;
            }
            if j + 1 >= len || bytes[j] == b'\n' {
                i = j + 1;
            }
        } else {
            i += 1;
        }
    }
    results
}

const IMAGE_TYPES: [&str; 8] = ["png", "jpg", "jpeg", "gif", "webp", "svg", "bmp", "ico"];

fn plain_image_name(name: &str) -> Result<(String, String), String> {
    let path = Path::new(name);
    let ext = path
        .extension()
        .and_then(|e| e.to_str())
        .map(|e| e.to_lowercase())
        .ok_or_else(|| "File has no extension".to_string())?;
    if !IMAGE_TYPES.contains(&ext.as_str()) {
        return Err(format!("Unsupported image type: .{ext}"));
    }
    let stem = path.file_stem().and_then(|s| s.to_str()).unwrap_or("image");
    let mut out = String::new();
    let mut prev_dash = false;
    for ch in stem.chars() {
        if matches!(ch, '/' | '\\' | ':' | '*' | '?' | '"' | '<' | '>' | '|') {
            continue;
        }
        if ch.is_whitespace() || ch == '_' || ch == '-' {
            if !prev_dash && !out.is_empty() {
                out.push('-');
                prev_dash = true;
            }
            continue;
        }
        out.extend(ch.to_lowercase());
        prev_dash = false;
    }
    let out = out.trim_matches('-').to_string();
    Ok((if out.is_empty() { "image".to_string() } else { out }, ext))
}

fn plain_tags_of_line(line: &str, tags: &mut Vec<String>) {
    let chars: Vec<char> = line.chars().collect();
    let len = chars.len();
    let starts = |i: usize, p: &str| {
        let pc: Vec<char> = p.chars().collect();
        i + pc.len() <= len && pc.iter().enumerate().all(|(k, c)| chars[i + k] == *c)
    };
    let mut i = 0;
    while i < len {
        if chars[i] == '`' {
            i += 1;
            while i < len && chars[i] != '`' {
                i += 1;
            }
            if i < len {
                i += 1;
            }
            continue;
        }
        if i + 7 < len && starts(i, "http://") || i + 8 < len && starts(i, "https://") {
            while i < len && !chars[i].is_whitespace() && chars[i] != ')' {
                i += 1;
            }
            continue;
        }
        if chars[i] == ']' && i + 1 < len && chars[i + 1] == '(' {
            i += 2;
            while i < len && chars[i] != ')' {
                i += 1;
            }
            if i < len {
                i += 1;
            }
            continue;
        }
        if chars[i] == '#' {
            let boundary = i == 0 || {
                let prev = chars[i - 1];
                prev.is_whitespace() || prev == '(' || prev == '[' || prev == '{'
            };
            if boundary && i + 1 < len && (chars[i + 1].is_alphanumeric() || chars[i + 1] == '_') {
                let tag_start = i + 1;
                let mut j = tag_start;
                while j < len && (chars[j].is_alphanumeric() || matches!(chars[j], '-' | '_' | '/')) {
                    j += 1;
                }
                let mut end = j;
                while end > tag_start && (chars[end - 1] == '-' || chars[end - 1] == '/') {
                    end -= 1;
                }
                if end > tag_start {
                    tags.push(chars[tag_start..end].iter().collect::<String>().to_lowercase());
                }
                i = j;
                continue;
            }
        }
        i += 1;
    }
}

fn plain_tags(text: &str) -> Vec<String> {
    let mut tags = Vec::new();
    let mut in_fence = false;
    let mut fence_char = '`';
    let mut fence_len = 0;
    for line in text.lines() {
        let trimmed = line.trim_start();
        if !in_fence {
            if let Some(first) = trimmed.chars().next() {
                if first == '`' || first == '~' {
                    let count = trimmed.chars().take_while(|&c| c == first).count();
                    if count >= 3 {
                        in_fence = true;
                        fence_char = first;
                        fence_len = count;
                        continue;
                    }
                }
            }
        } else {
            let count = trimmed.chars().take_while(|&c| c == fence_char).count();
            if count >= fence_len && trimmed[fence_char.len_utf8() * count..].trim().is_empty() {
                in_fence = false;
            }
            continue;
        }
        plain_tags_of_line(line, &mut tags);
    }
    tags.sort();
    tags.dedup();
    tags
}

fn plain_should_ignore(path: &Path, vault_dir: &Path) -> bool {
    let rel = match path.strip_prefix(vault_dir) {
        Ok(r) => r,
        Err(_) => return true,
    };
    for component in rel.components() {
        if let Component::Normal(s) = component {
            if s.to_string_lossy().starts_with('.') {
                return true;
            }
        }
    }
    let file_name = match path.file_name().and_then(|f| f.to_str()) {
        Some(f) => f,
        None => return true,
    };
    if file_name.ends_with(".icloud") || file_name.ends_with(".conflict") || file_name.ends_with(".pithy-tmp") {
        return true;
    }
    !matches!(path.extension().and_then(|e| e.to_str()), Some("md"))
}

#[test]
fn note_names_agree() {
    let mut g = Gen(1);
    for _ in 0..3000 {
        let s = g.string(&NAME_ALPHABET, 12);
        assert_eq!(sanitize_filename_impl(&s), plain_sanitize(&s), "{s:?}");
    }
}

#[test]
fn link_targets_agree() {
    let mut g = Gen(2);
    for _ in 0..3000 {
        let s = g.string(&NAME_ALPHABET, 12);
        assert_eq!(normalize_for_match(&s), plain_normalize(&s), "{s:?}");
    }
}

#[test]
fn wikilinks_agree() {
    let mut g = Gen(3);
    let alphabet = ["[", "]", "[[", "]]", "a", "\n", "é", " "];
    for _ in 0..3000 {
        let s = g.string(&alphabet, 16);
        assert_eq!(find_wikilinks(&s), plain_wikilinks(&s), "{s:?}");
    }
}

#[test]
fn image_names_agree() {
    let mut g = Gen(4);
    for _ in 0..3000 {
        let s = g.string(&NAME_ALPHABET, 10);
        assert_eq!(sanitize_image_filename(&s), plain_image_name(&s), "{s:?}");
    }
}

#[test]
fn tags_agree() {
    let mut g = Gen(5);
    for _ in 0..3000 {
        let s = g.string(&TEXT_ALPHABET, 20);
        assert_eq!(extract_tags(&s), plain_tags(&s), "{s:?}");
    }
}

#[test]
fn ignore_rules_agree() {
    let mut g = Gen(6);
    let alphabet = ["/", "a", ".", "md", ".md", ".icloud", ".conflict", ".pithy-tmp", "v", "//"];
    for _ in 0..3000 {
        let p = g.string(&alphabet, 8);
        let v = g.string(&alphabet, 3);
        assert_eq!(should_ignore(&p, &v), plain_should_ignore(Path::new(&p), Path::new(&v)), "{p:?} in {v:?}");
    }
}

#[test]
fn tilde_agrees() {
    let mut g = Gen(7);
    let alphabet = ["~", "/", "a", "~/", " "];
    for _ in 0..1000 {
        let p = g.string(&alphabet, 5);
        let expected = if p == "~" {
            "/h".to_string()
        } else if let Some(rest) = p.strip_prefix("~/") {
            format!("/h/{rest}")
        } else {
            p.clone()
        };
        assert_eq!(expand_tilde(&p, "/h"), expected, "{p:?}");
    }
}

#[test]
fn query_plans_agree() {
    let mut g = Gen(8);
    let alphabet = ["#", "a", " ", "\t", "é", "#b", "\u{3000}", "x y"];
    for _ in 0..2000 {
        let q = g.string(&alphabet, 8);
        let tokens: Vec<&str> = q.split_whitespace().collect();
        let tags: Vec<String> = tokens
            .iter()
            .filter(|t| t.starts_with('#') && t.len() > 1)
            .map(|t| t[1..].to_string())
            .collect();
        let free: String = tokens
            .iter()
            .filter(|t| !t.starts_with('#') || t.len() <= 1)
            .copied()
            .collect::<Vec<&str>>()
            .join(" ");
        let plan = plan_query(&q);
        assert_eq!(plan.tags, tags, "{q:?}");
        assert_eq!(plan.free_text, free.trim(), "{q:?}");
    }
}

#[test]
fn rewritten_links_agree() {
    let mut g = Gen(9);
    let alphabet = ["[[", "]]", "a", "A", "-", " ", "é", "\n", "b"];
    for _ in 0..2000 {
        let content = g.string(&alphabet, 14);
        let old_stem = g.string(&["a", "-", "A", "é"], 3);
        let new_stem = g.string(&["x", "-", "ü"], 3);
        let target = plain_normalize(&old_stem);
        let matching: Vec<(usize, usize)> = plain_wikilinks(&content)
            .into_iter()
            .filter(|(s, e)| plain_normalize(&content[*s..*e]) == target)
            .collect();
        let expected = if matching.is_empty() {
            None
        } else {
            let replacement = stem_to_display(&new_stem);
            let mut out = content.clone();
            for (s, e) in matching.into_iter().rev() {
                out.replace_range(s..e, &replacement);
            }
            Some(out)
        };
        assert_eq!(replace_wikilink_references(&content, &old_stem, &new_stem), expected, "{content:?}");
    }
}
