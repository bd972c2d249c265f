use md_numberer::document::Document;
use md_numberer::pipeline::{apply_number, sentinel_line, toggle_numbering, MdError};

fn doc_of(lines: &[&str]) -> Document {
    Document { lines: lines.iter().map(|l| l.as_bytes().to_vec()).collect() }
}

fn lines_of(d: &Document) -> Vec<String> {
    d.lines.iter().map(|l| String::from_utf8(l.clone()).unwrap()).collect()
}

const SENTINEL: &str = "<!--worked by md_numberer. DO NOT EDIT this line-->";

#[test]
fn counter_reset_law() {
    // Headings at levels [2,3,3,2,3] with limit=2, starting_num=1.
    let mut d = doc_of(&["## a", "### b", "### c", "## d", "### e"]);
    d.add_prefix_number(2, 1);
    assert_eq!(
        lines_of(&d),
        vec!["## 1. a", "### 1.1. b", "### 1.2. c", "## 2. d", "### 2.1. e"]
    );
}

#[test]
fn sub_limit_heading_untouched() {
    let mut d = doc_of(&["# title", "## section"]);
    d.add_prefix_number(2, 1);
    assert_eq!(lines_of(&d), vec!["# title", "## 1. section"]);
}

#[test]
fn first_heading_starting_num_one() {
    let mut d = doc_of(&["## a"]);
    d.add_prefix_number(2, 1);
    assert_eq!(lines_of(&d), vec!["## 1. a"]);
}

#[test]
fn first_heading_starting_num_zero() {
    // With starting_num = 0 the counters start at -1, so the first heading
    // at a level shows 0, not 1.
    let mut d = doc_of(&["## a", "## b"]);
    d.add_prefix_number(2, 0);
    assert_eq!(lines_of(&d), vec!["## 0. a", "## 1. b"]);
}

#[test]
fn unseen_intermediate_level_renders_reset_value() {
    // A heading deeper than the limit whose intermediate level was never
    // seen renders that level's counter as it stands: 0 for starting_num=1,
    // -1 for starting_num=0.
    let mut d = doc_of(&["### deep"]);
    d.add_prefix_number(1, 1);
    assert_eq!(lines_of(&d), vec!["### 0.0.1. deep"]);

    let mut d = doc_of(&["### deep"]);
    d.add_prefix_number(1, 0);
    assert_eq!(lines_of(&d), vec!["### -1.-1.0. deep"]);
}

#[test]
fn deeper_levels_reset_on_shallower_heading() {
    let mut d = doc_of(&["# a", "## b", "### c", "# d", "### e"]);
    d.add_prefix_number(1, 1);
    assert_eq!(
        lines_of(&d),
        vec!["# 1. a", "## 1.1. b", "### 1.1.1. c", "# 2. d", "### 2.0.1. e"]
    );
}

#[test]
fn non_heading_lines_untouched() {
    let mut d = doc_of(&["plain text", "", " # indented, not a heading", "#mixed token"]);
    d.add_prefix_number(1, 1);
    assert_eq!(
        lines_of(&d),
        vec!["plain text", "", " # indented, not a heading", "#mixed token"]
    );
}

#[test]
fn hash_run_without_text_is_numbered() {
    let mut d = doc_of(&["##"]);
    d.add_prefix_number(2, 1);
    assert_eq!(lines_of(&d), vec!["## 1."]);
}

#[test]
fn heading_beyond_level_six_is_numbered() {
    let mut d = doc_of(&["####### seven"]);
    d.add_prefix_number(6, 1);
    assert_eq!(lines_of(&d), vec!["####### 0.1. seven"]);
}

#[test]
fn strip_removes_second_field_of_headings() {
    let mut d = doc_of(&["## 1. a", "### 1.1. b", "plain", "", "## 2. c"]);
    d.delete_prefix_number();
    assert_eq!(lines_of(&d), vec!["## a", "### b", "plain", "", "## c"]);
}

#[test]
fn strip_leaves_indented_lines_alone() {
    // A line starting with a space has an empty first token, so it is not a
    // heading and keeps both of its fields.
    let mut d = doc_of(&[" 1. indented text"]);
    d.delete_prefix_number();
    assert_eq!(lines_of(&d), vec![" 1. indented text"]);
}

#[test]
fn strip_leaves_heading_without_second_field() {
    let mut d = doc_of(&["##", "## x"]);
    d.delete_prefix_number();
    assert_eq!(lines_of(&d), vec!["##", "##"]);
}

#[test]
fn round_trip_apply_then_strip() {
    let original = ["## a", "### b", "text under b", "", "## c"];
    let mut d = doc_of(&original);
    d.add_prefix_number(2, 1);
    d.delete_prefix_number();
    assert_eq!(lines_of(&d), original.to_vec());
}

#[test]
fn toggle_numbers_and_marks_unmarked_document() {
    let mut d = doc_of(&["## a", "text"]);
    toggle_numbering(&mut d, 2, 1);
    assert_eq!(lines_of(&d), vec!["## 1. a", "text", SENTINEL]);
}

#[test]
fn toggle_strips_and_unmarks_marked_document() {
    let mut d = doc_of(&["## 1. a", "text", SENTINEL]);
    toggle_numbering(&mut d, 2, 1);
    assert_eq!(lines_of(&d), vec!["## a", "text"]);
}

#[test]
fn toggle_twice_restores_document() {
    let original = ["## a", "### b", "plain", "", "## c"];
    let mut d = doc_of(&original);
    toggle_numbering(&mut d, 2, 1);
    toggle_numbering(&mut d, 2, 1);
    assert_eq!(lines_of(&d), original.to_vec());
}

#[test]
fn toggle_second_run_settings_do_not_matter() {
    let original = ["## a", "### b"];
    let mut d = doc_of(&original);
    toggle_numbering(&mut d, 2, 1);
    toggle_numbering(&mut d, 6, 0);
    assert_eq!(lines_of(&d), original.to_vec());
}

#[test]
fn sentinel_line_matches_literal() {
    assert_eq!(sentinel_line(), SENTINEL.as_bytes().to_vec());
}

fn run(path: &str, content: &str) -> Result<String, MdError> {
    apply_number(&path.as_bytes().to_vec(), &content.as_bytes().to_vec(), 1, 1)
        .map(|v| String::from_utf8(v).unwrap())
}

#[test]
fn empty_file_only_newline() {
    assert_eq!(run("a.md", "\n"), Err(MdError::EmptyFile));
}

#[test]
fn empty_file_zero_bytes() {
    assert_eq!(run("a.md", ""), Err(MdError::EmptyFile));
}

#[test]
fn whitespace_only_file_is_empty() {
    assert_eq!(run("a.md", "  \n\t\r\n"), Err(MdError::EmptyFile));
}

#[test]
fn non_markdown_path_rejected() {
    assert_eq!(run("notes.txt", "# a\n"), Err(MdError::NotMarkdown));
    assert_eq!(run("md", "# a\n"), Err(MdError::NotMarkdown));
    assert_eq!(run("a.MD", "# a\n"), Err(MdError::NotMarkdown));
    assert_eq!(run("amd", "# a\n"), Err(MdError::NotMarkdown));
}

#[test]
fn bare_md_suffix_is_markdown() {
    assert!(run(".md", "# a\n").is_ok());
}

#[test]
fn apply_number_numbers_file_content() {
    let out = run("a.md", "# title\n\n## first\ntext\n## second\n").unwrap();
    assert_eq!(
        out,
        format!("# 1. title\n\n## 1.1. first\ntext\n## 1.2. second\n{}", SENTINEL)
    );
}

#[test]
fn apply_number_strips_marked_file_content() {
    let marked = format!("# 1. title\n## 1.1. first\n{}", SENTINEL);
    let out = run("a.md", &marked).unwrap();
    assert_eq!(out, "# title\n## first");
}

#[test]
fn apply_number_round_trip_on_content() {
    let original = "# title\n\n## first\ntext under first\n## second";
    let once = run("a.md", original).unwrap();
    let twice = run("a.md", &once).unwrap();
    assert_eq!(twice, original);
}

#[test]
fn apply_number_trims_surrounding_whitespace() {
    let out = run("a.md", "\n\n# a\n\n").unwrap();
    assert_eq!(out, format!("# 1. a\n{}", SENTINEL));
}

#[test]
fn error_messages() {
    assert_eq!(MdError::EmptyFile.message(), "the target file is empty");
    assert_eq!(
        MdError::NotMarkdown.message(),
        "the target file does not have a markdown extension"
    );
}
