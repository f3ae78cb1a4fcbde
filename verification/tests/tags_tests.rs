use pithy::search::tags::{extract_tags, sort_dedup};

#[test]
fn basic_tags() {
    let input = "Hello #world and #rust are great";
    let tags = extract_tags(input);
    assert_eq!(tags, vec!["rust", "world"]);
}

#[test]
fn tag_with_hyphens_and_underscores() {
    let input = "#my-tag and #my_tag";
    let tags = extract_tags(input);
    assert_eq!(tags, vec!["my-tag", "my_tag"]);
}

#[test]
fn tag_with_slashes() {
    let input = "#project/backend/api";
    let tags = extract_tags(input);
    assert_eq!(tags, vec!["project/backend/api"]);
}

#[test]
fn ignores_headings() {
    let input = "# Heading\n## Subheading\n### Another\nSome #real-tag here";
    let tags = extract_tags(input);
    assert_eq!(tags, vec!["real-tag"]);
}

#[test]
fn ignores_fenced_code_block() {
    let input = "Before #visible\n```\n#hidden inside code\n```\nAfter #also-visible";
    let tags = extract_tags(input);
    assert_eq!(tags, vec!["also-visible", "visible"]);
}

#[test]
fn ignores_tilde_fenced_code_block() {
    let input = "~~~\n#hidden\n~~~\n#shown";
    let tags = extract_tags(input);
    assert_eq!(tags, vec!["shown"]);
}

#[test]
fn ignores_inline_code() {
    let input = "Use `#not-a-tag` but #real-tag is fine";
    let tags = extract_tags(input);
    assert_eq!(tags, vec!["real-tag"]);
}

#[test]
fn ignores_url_fragments() {
    let input = "Visit https://example.com/page#section and #real";
    let tags = extract_tags(input);
    assert_eq!(tags, vec!["real"]);
}

#[test]
fn ignores_markdown_link_url() {
    let input = "See [link](https://example.com#anchor) and #tag";
    let tags = extract_tags(input);
    assert_eq!(tags, vec!["tag"]);
}

#[test]
fn deduplicates() {
    let input = "#rust #rust #rust";
    let tags = extract_tags(input);
    assert_eq!(tags, vec!["rust"]);
}

#[test]
fn lowercases() {
    let input = "#Rust #PYTHON #GoLang";
    let tags = extract_tags(input);
    assert_eq!(tags, vec!["golang", "python", "rust"]);
}

#[test]
fn empty_input() {
    let tags = extract_tags("");
    assert!(tags.is_empty());
}

#[test]
fn hash_only_not_a_tag() {
    let input = "# ";
    let tags = extract_tags(input);
    assert!(tags.is_empty());

    let tags2 = extract_tags("#");
    assert!(tags2.is_empty());
}

#[test]
fn tag_at_start_of_line() {
    let input = "#first\nsome text\n#second";
    let tags = extract_tags(input);
    assert_eq!(tags, vec!["first", "second"]);
}

#[test]
fn tag_after_punctuation() {
    let input = "(#parens) [#brackets] {#braces}";
    let tags = extract_tags(input);
    assert_eq!(tags, vec!["braces", "brackets", "parens"]);
}

#[test]
fn tags_are_sorted_and_distinct_on_examples() {
    for input in ["#b #a #B #ä #Ä", "x #z/y #z-y #z_y", "#1 #10 #2", "```\n#in\n```\n#out"] {
        let tags = extract_tags(input);
        for w in tags.windows(2) {
            assert!(w[0] < w[1]);
        }
        for t in &tags {
            assert_eq!(t, &t.to_lowercase());
        }
    }
    assert_eq!(extract_tags("#b #a #B #ä #Ä"), vec!["a", "b", "ä"]);
}

#[test]
fn unicode_tags_and_trailing_separators() {
    assert_eq!(extract_tags("#日本語 #café"), vec!["café", "日本語"]);
    assert_eq!(extract_tags("end #tag/ #x-"), vec!["tag", "x"]);
    assert_eq!(extract_tags("a#b c"), Vec::<String>::new());
}

#[test]
fn unclosed_fence_hides_the_rest() {
    assert_eq!(extract_tags("#a\n```\n#b\n"), vec!["a"]);
    assert_eq!(extract_tags("````\n```\n#b\n````\n#c"), vec!["c"]);
}

#[test]
fn sort_dedup_orders_by_code_point() {
    let v: Vec<String> = ["b", "a", "b", "B", "é"].iter().map(|s| s.to_string()).collect();
    assert_eq!(sort_dedup(&v), vec!["B", "a", "b", "é"]);
}

#[test]
fn tags_of_a_concatenation() {
    let a = "Intro #one\r";
    let b = "```\n#hidden\n```\n#two #ONE";
    let mut expected = extract_tags(a);
    expected.extend(extract_tags(b));
    expected.sort();
    expected.dedup();
    assert_eq!(extract_tags(&format!("{a}\n{b}")), expected);
    assert_eq!(expected, vec!["one", "two"]);
}

#[test]
fn ascii_tags_have_their_shape() {
    for t in extract_tags("#A-b_C/d/ #x-- (#Y) #z9") {
        assert!(!t.is_empty());
        assert_eq!(t, t.to_lowercase());
        assert!(t.chars().all(|c| c.is_ascii_lowercase() || c.is_ascii_digit() || "-_/".contains(c)));
        assert!(!t.ends_with('-') && !t.ends_with('/'));
    }
}
