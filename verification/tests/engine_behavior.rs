use highlighter::engine::SyntaxHighlighter;
use highlighter::registry::{LanguageConfig, LanguageRegistry};
use highlighter::span::{EditDescriptor, StyleSpan, TextPoint};
use highlighter::style::Style;
use highlighter::theme::Theme;

use ropey::Rope;

fn json_language() -> tree_sitter::Language {
    tree_sitter_json::LANGUAGE.into()
}

fn colored(c: u32) -> Style {
    let mut s = Style::unset();
    s.color = Some(c);
    s
}

fn json_registry() -> LanguageRegistry {
    let mut reg = LanguageRegistry::new();
    reg.register(LanguageConfig {
        name: "json".to_string(),
        grammar: json_language(),
        injections: String::new(),
        locals: String::new(),
        highlights: "(number) @number (string) @string (true) @boolean (false) @boolean"
            .to_string(),
        injection_languages: Vec::new(),
    });
    reg.register(LanguageConfig {
        name: "text".to_string(),
        grammar: json_language(),
        injections: String::new(),
        locals: String::new(),
        highlights: String::new(),
        injection_languages: Vec::new(),
    });
    reg
}

fn json_theme() -> Theme {
    let mut theme = Theme::new();
    theme.add("number".to_string(), colored(1));
    theme.add("string".to_string(), colored(2));
    theme.add("boolean".to_string(), colored(3));
    theme
}

fn assert_partition(out: &[StyleSpan], lo: usize, hi: usize) {
    assert!(!out.is_empty());
    assert_eq!(out.first().unwrap().start, lo);
    assert_eq!(out.last().unwrap().end, hi);
    for w in out.windows(2) {
        assert_eq!(w[0].end, w[1].start);
    }
    for s in out {
        assert!(s.start < s.end);
    }
}

fn color_at(out: &[StyleSpan], p: usize) -> Option<u32> {
    for s in out {
        if s.start <= p && p < s.end {
            return s.style.color;
        }
    }
    panic!("offset {} not covered", p);
}

fn whole_edit(old_len: usize, new_len: usize) -> EditDescriptor {
    EditDescriptor {
        start_byte: 0,
        old_end_byte: old_len,
        new_end_byte: new_len,
        start_point: TextPoint { row: 0, column: 0 },
        old_end_point: TextPoint { row: 0, column: old_len },
        new_end_point: TextPoint { row: 0, column: new_len },
    }
}

#[test]
fn styles_cover_range_with_token_colors() {
    let reg = json_registry();
    let mut h = SyntaxHighlighter::new(&reg, "json");
    assert_eq!(h.language, "json");
    assert!(h.is_empty());
    let text = "[1, \"a\", true]";
    h.update(None, &Rope::from_str(text));
    assert!(!h.is_empty());
    let out = h.styles(&(0usize..text.len()), &json_theme());
    assert_partition(&out, 0, text.len());
    assert_eq!(color_at(&out, 1), Some(1), "number");
    assert_eq!(color_at(&out, 5), Some(2), "string");
    assert_eq!(color_at(&out, 10), Some(3), "boolean");
    assert_eq!(color_at(&out, 0), None, "bracket");
}

#[test]
fn update_with_identical_text_does_not_reparse() {
    let reg = json_registry();
    let mut h = SyntaxHighlighter::new(&reg, "json");
    let rope = Rope::from_str("[1, 2]");
    h.update(None, &rope);
    let count = h.parse_invocations();
    assert_eq!(count, 1);
    h.update(None, &rope.clone());
    assert_eq!(h.parse_invocations(), count);
    h.update(None, &Rope::from_str("[1, 2]"));
    assert_eq!(h.parse_invocations(), count);
}

#[test]
fn edit_outside_matched_spans_still_refreshes() {
    let reg = json_registry();
    let mut h = SyntaxHighlighter::new(&reg, "json");
    h.update(None, &Rope::from_str("[1, 2]"));
    let theme = json_theme();
    let before = h.styles(&(0usize..6), &theme);
    assert_eq!(color_at(&before, 4), Some(1));
    // insert one space at offset 3, between the matched number spans
    let edit = EditDescriptor {
        start_byte: 3,
        old_end_byte: 3,
        new_end_byte: 4,
        start_point: TextPoint { row: 0, column: 3 },
        old_end_point: TextPoint { row: 0, column: 3 },
        new_end_point: TextPoint { row: 0, column: 4 },
    };
    h.update(Some(edit), &Rope::from_str("[1,  2]"));
    let after = h.styles(&(0usize..7), &theme);
    assert_partition(&after, 0, 7);
    assert_eq!(color_at(&after, 5), Some(1), "number moved right");
    assert_eq!(color_at(&after, 4), None, "inserted space unstyled");
}

#[test]
fn injection_spans_stay_inside_content_node() {
    let mut reg = LanguageRegistry::new();
    reg.register(LanguageConfig {
        name: "json".to_string(),
        grammar: json_language(),
        injections:
            "((string_content) @injection.content (#set! injection.language \"subjson\"))"
                .to_string(),
        locals: String::new(),
        highlights: "(number) @number".to_string(),
        injection_languages: vec!["subjson".to_string()],
    });
    reg.register(LanguageConfig {
        name: "subjson".to_string(),
        grammar: json_language(),
        injections: String::new(),
        locals: String::new(),
        highlights: "(number) @number".to_string(),
        injection_languages: Vec::new(),
    });
    let mut h = SyntaxHighlighter::new(&reg, "json");
    // the string content "12" sits at bytes 2..4 and parses as a number
    let text = "[\"12\"]";
    h.update(None, &Rope::from_str(text));
    let out = h.styles(&(0usize..text.len()), &json_theme());
    assert_partition(&out, 0, text.len());
    assert_eq!(color_at(&out, 2), Some(1), "injected number start");
    assert_eq!(color_at(&out, 3), Some(1), "injected number end");
    assert_eq!(color_at(&out, 1), None, "opening quote outside injection");
    assert_eq!(color_at(&out, 4), None, "closing quote outside injection");
}

#[test]
fn unknown_injection_language_is_skipped() {
    let mut reg = LanguageRegistry::new();
    reg.register(LanguageConfig {
        name: "json".to_string(),
        grammar: json_language(),
        injections:
            "((string_content) @injection.content (#set! injection.language \"nosuch\"))"
                .to_string(),
        locals: String::new(),
        highlights: "(number) @number".to_string(),
        injection_languages: vec!["nosuch".to_string()],
    });
    let mut h = SyntaxHighlighter::new(&reg, "json");
    let text = "[\"12\"]";
    h.update(None, &Rope::from_str(text));
    let out = h.styles(&(0usize..text.len()), &json_theme());
    assert_partition(&out, 0, text.len());
    assert_eq!(color_at(&out, 2), None, "no sub-language, no contribution");
}

#[test]
fn incremental_and_full_reparse_style_identically() {
    let reg = json_registry();
    let theme = json_theme();

    let mut incremental = SyntaxHighlighter::new(&reg, "json");
    incremental.update(None, &Rope::from_str("[1, 2]"));
    // insert "5" at offset 5: "[1, 2]" -> "[1, 25]"
    let edit = EditDescriptor {
        start_byte: 5,
        old_end_byte: 5,
        new_end_byte: 6,
        start_point: TextPoint { row: 0, column: 5 },
        old_end_point: TextPoint { row: 0, column: 5 },
        new_end_point: TextPoint { row: 0, column: 6 },
    };
    incremental.update(Some(edit), &Rope::from_str("[1, 25]"));
    assert_eq!(incremental.parse_invocations(), 2);

    let mut full = SyntaxHighlighter::new(&reg, "json");
    full.update(None, &Rope::from_str("[1, 25]"));

    let a = incremental.styles(&(0usize..7), &theme);
    let b = full.styles(&(0usize..7), &theme);
    assert_eq!(a.len(), b.len());
    for (x, y) in a.iter().zip(b.iter()) {
        assert_eq!(x.start, y.start);
        assert_eq!(x.end, y.end);
        assert!(x.style == y.style);
    }
}

#[test]
fn whole_text_replacement_without_descriptor() {
    let reg = json_registry();
    let mut h = SyntaxHighlighter::new(&reg, "json");
    h.update(None, &Rope::from_str("[1]"));
    h.update(Some(whole_edit(3, 7)), &Rope::from_str("[false]"));
    let out = h.styles(&(0usize..7), &json_theme());
    assert_eq!(color_at(&out, 2), Some(3), "boolean");
}

#[test]
fn unregistered_language_falls_back_to_plain_text() {
    let reg = json_registry();
    let mut h = SyntaxHighlighter::new(&reg, "nosuch");
    assert_eq!(h.language, "text");
    h.update(None, &Rope::from_str("hello"));
    let out = h.styles(&(0usize..5), &Theme::new());
    assert_eq!(out.len(), 1);
    assert_eq!(out[0].start, 0);
    assert_eq!(out[0].end, 5);
    assert_eq!(out[0].style.color, None);
}

#[test]
fn empty_registry_yields_inert_engine() {
    let reg = LanguageRegistry::new();
    let mut h = SyntaxHighlighter::new(&reg, "json");
    assert_eq!(h.language, "");
    h.update(None, &Rope::from_str("[1]"));
    let out = h.styles(&(0usize..3), &json_theme());
    assert_eq!(out.len(), 1);
    assert_eq!(out[0].style.color, None);
}

#[test]
fn styles_of_subrange_cover_exactly_that_range() {
    let reg = json_registry();
    let mut h = SyntaxHighlighter::new(&reg, "json");
    let text = "[1, \"a\", true]";
    h.update(None, &Rope::from_str(text));
    let out = h.styles(&(4usize..8), &json_theme());
    assert_partition(&out, 4, 8);
}

#[test]
fn patterns_are_classified_by_section() {
    let mut reg = LanguageRegistry::new();
    reg.register(LanguageConfig {
        name: "json".to_string(),
        grammar: json_language(),
        injections:
            "((string_content) @injection.content (#set! injection.language \"subjson\"))"
                .to_string(),
        locals: String::new(),
        highlights: "(number) @number (string) @string".to_string(),
        injection_languages: Vec::new(),
    });
    let h = SyntaxHighlighter::new(&reg, "json");
    // one injection pattern, no locals patterns, two highlights patterns
    assert_eq!(h.locals_pattern_index, 1);
    assert_eq!(h.highlights_pattern_index, 1);
    assert!(h.injection_content_capture_index.is_some());
    assert_eq!(h.local_scope_capture_index, None);
}
