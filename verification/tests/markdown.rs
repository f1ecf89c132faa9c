//! Highlighting: what each part of a line is.

use mindmap::markdown::{
    highlight_document, highlight_line, is_fence, is_separator, link_at, list_marker_end, MdStyle,
    Span,
};

/// The styles of a line, each with the text it covers.
fn styled(line: &str) -> Vec<(&str, MdStyle)> {
    parts(line, &highlight_line(line, false))
}

fn parts<'a>(line: &'a str, spans: &[Span]) -> Vec<(&'a str, MdStyle)> {
    spans.iter().map(|s| (&line[s.start..s.end], s.style)).collect()
}

#[test]
fn spans_cover_every_line_without_gaps() {
    for line in [
        "plain",
        "# heading **bold**",
        "*",
        "**unclosed",
        "`code",
        "[a](b",
        "***all*** of ~~it~~ and `x`",
        "> quote _with_ parts",
        "- [x] done",
        "12. item https://a.b/c).",
        "ünï 👍🏽 *cödé* 漢字",
        "\\*escaped\\*",
        "a_b_c __d__",
        "~~~",
        "---",
    ] {
        for code in [false, true] {
            let spans = highlight_line(line, code);
            assert_eq!(spans[0].start, 0);
            assert_eq!(spans[spans.len() - 1].end, line.len());
            for w in spans.windows(2) {
                assert_eq!(w[0].end, w[1].start);
                assert_ne!(w[0].style, w[1].style, "{line}");
            }
            for s in &spans {
                assert!(s.start < s.end);
                assert!(line.is_char_boundary(s.start) && line.is_char_boundary(s.end));
            }
        }
    }
    assert!(highlight_line("", false).is_empty());
    assert!(highlight_line("", true).is_empty());
}

#[test]
fn emphasis_is_told_from_its_marks() {
    assert_eq!(
        styled("a **b** c"),
        vec![
            ("a ", MdStyle::Text),
            ("**", MdStyle::Marker),
            ("b", MdStyle::Bold),
            ("**", MdStyle::Marker),
            (" c", MdStyle::Text),
        ]
    );
    assert_eq!(styled("*i*")[1], ("i", MdStyle::Italic));
    assert_eq!(styled("***b***")[1], ("b", MdStyle::BoldItalic));
    assert_eq!(styled("~~s~~")[1], ("s", MdStyle::Strikethrough));
    assert_eq!(styled("snake_case_name"), vec![("snake_case_name", MdStyle::Text)]);
    assert_eq!(styled("2 * 3"), vec![("2 * 3", MdStyle::Text)]);
}

#[test]
fn code_stands_between_its_ticks() {
    let line = "`x`";
    let runs: Vec<(usize, usize, MdStyle)> =
        highlight_line(line, false).iter().map(|s| (s.start, s.end, s.style)).collect();
    assert_eq!(
        runs,
        vec![(0, 1, MdStyle::Marker), (1, 2, MdStyle::Code), (2, 3, MdStyle::Marker)]
    );
    assert_eq!(
        styled("a ``b`c`` d"),
        vec![
            ("a ", MdStyle::Text),
            ("``", MdStyle::Marker),
            ("b`c", MdStyle::Code),
            ("``", MdStyle::Marker),
            (" d", MdStyle::Text),
        ]
    );
    assert_eq!(styled("a `b c"), vec![("a `b c", MdStyle::Text)]);
}

#[test]
fn headings_have_levels() {
    assert_eq!(
        styled("### Three"),
        vec![("### ", MdStyle::HeadingMarker(3)), ("Three", MdStyle::Heading(3))]
    );
    assert_eq!(styled("#nope"), vec![("#nope", MdStyle::Text)]);
}

#[test]
fn lists_have_markers_and_boxes() {
    assert_eq!(list_marker_end("- item"), Some(2));
    assert_eq!(list_marker_end("  12. item"), Some(6));
    assert_eq!(list_marker_end("item"), None);
    assert_eq!(styled("- [ ] open")[0], ("- ", MdStyle::ListMarker));
    assert!(styled("- [ ] open").contains(&("[ ] ", MdStyle::TaskOpen)));
    assert!(styled("- [x] done").contains(&("[x] ", MdStyle::TaskDone)));
}

#[test]
fn a_fence_switches_code_on_and_off() {
    assert!(is_fence("```rust") && is_fence("   ~~~") && !is_fence("    ```") && !is_fence("``"));
    let lines = ["```", "*code*", "```", "*text*"];
    let doc = highlight_document(&lines);
    assert_eq!(parts(lines[1], &doc[1]), vec![("*code*", MdStyle::CodeBlock)]);
    assert_eq!(doc[0][0].style, MdStyle::Fence);
    assert_eq!(parts(lines[3], &doc[3])[1], ("text", MdStyle::Italic));
}

#[test]
fn a_break_is_a_line_of_its_own() {
    assert!(is_separator("---") && is_separator("***") && is_separator("___"));
    assert!(!is_separator("--") && !is_separator("- item"));
    assert_eq!(styled("---"), vec![("---", MdStyle::Separator)]);
}

#[test]
fn what_reads_as_a_link_opens() {
    let line = "see [here](https://a.b) or https://c.d/e.";
    assert_eq!(link_at(line, 4), Some("https://a.b".to_string()));
    assert_eq!(link_at(line, 12), Some("https://a.b".to_string()));
    assert_eq!(link_at(line, 30), Some("https://c.d/e".to_string()));
    assert_eq!(link_at(line, 0), None);
    assert_eq!(link_at(line, line.len()), None);
    assert!(styled(line).contains(&("here", MdStyle::LinkText)));
    assert!(styled(line).contains(&("https://c.d/e", MdStyle::LinkUrl)));
}

#[test]
fn deep_nesting_ends() {
    let line = "*a **b ".repeat(40);
    assert!(!highlight_line(&line, false).is_empty());
}

#[test]
fn the_target_of_a_link_is_styled_as_one() {
    assert_eq!(
        styled("[a](b)"),
        vec![
            ("[", MdStyle::Marker),
            ("a", MdStyle::LinkText),
            ("](", MdStyle::Marker),
            ("b", MdStyle::LinkUrl),
            (")", MdStyle::Marker),
        ]
    );
}

#[test]
fn what_does_not_read_as_a_link_does_not_open() {
    assert_eq!(link_at("`http://a`", 2), None);
    assert_eq!(link_at("a `[b](c)` d", 5), None);
    assert_eq!(link_at("# see http://a.b", 8), Some("http://a.b".to_string()));
    assert_eq!(link_at("> - [x] [b](c)", 9), Some("c".to_string()));
    assert_eq!(link_at("**[b](c)**", 3), Some("c".to_string()));
}

#[test]
fn a_long_line_of_quotes_ends() {
    let line = ">  ".repeat(20_000);
    assert!(!highlight_line(&line, false).is_empty());
    assert_eq!(link_at(&line, 1), None);
}
