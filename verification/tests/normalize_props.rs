use highlighter::collect::{
    include_children, merge_push, resolve_injection_language, PropertySetting,
};
use highlighter::compile::{count_patterns_before, find_capture_index, non_local_flags};
use highlighter::monitor::{format_bytes, ProcessColumn};
use highlighter::normalize::unique_styles;
use highlighter::span::{LabelSpan, StyleSpan};
use highlighter::style::Style;
use highlighter::text::{bytes_eq, clip_left, clip_right, slice_bytes};
use highlighter::theme::Theme;

fn color(c: u32) -> Style {
    let mut s = Style::unset();
    s.color = Some(c);
    s
}

fn spans_of(v: &[(usize, usize, Style)]) -> Vec<StyleSpan> {
    v.iter().map(|&(s, e, st)| StyleSpan::new(s, e, st)).collect()
}

fn assert_spans(out: &[StyleSpan], expected: &[(usize, usize, Style)]) {
    assert_eq!(out.len(), expected.len(), "span count");
    for (o, e) in out.iter().zip(expected.iter()) {
        assert_eq!(o.start, e.0);
        assert_eq!(o.end, e.1);
        assert_eq!(o.style.color, e.2.color);
    }
}

#[test]
fn test_unique_styles() {
    let red = color(1);
    let green = color(2);
    let blue = color(3);
    let clean = Style::unset();

    let input = spans_of(&[
        (2, 10, clean),
        (2, 10, clean),
        (5, 11, red),
        (2, 6, clean),
        (10, 15, green),
        (15, 30, clean),
        (29, 35, blue),
        (35, 40, green),
        (45, 60, blue),
    ]);
    let out = unique_styles(0, 65, &input);
    assert_spans(
        &out,
        &[
            (0, 5, clean),
            (5, 6, red),
            (6, 10, red),
            (10, 11, green),
            (11, 15, green),
            (15, 29, clean),
            (29, 30, blue),
            (30, 35, blue),
            (35, 40, green),
            (40, 45, clean),
            (45, 60, blue),
            (60, 65, clean),
        ],
    );
}

#[test]
fn normalize_is_idempotent_on_its_output() {
    let input = spans_of(&[
        (2, 10, Style::unset()),
        (5, 11, color(1)),
        (10, 15, color(2)),
        (45, 60, color(3)),
    ]);
    let once = unique_styles(0, 65, &input);
    let twice = unique_styles(0, 65, &once);
    assert_eq!(once.len(), twice.len());
    for (a, b) in once.iter().zip(twice.iter()) {
        assert_eq!(a.start, b.start);
        assert_eq!(a.end, b.end);
        assert!(a.style == b.style);
    }
}

#[test]
fn normalize_empty_input_gives_one_default_span() {
    let out = unique_styles(3, 40, &Vec::new());
    assert_spans(&out, &[(3, 40, Style::unset())]);
}

#[test]
fn normalize_empty_range_gives_nothing() {
    let out = unique_styles(7, 7, &spans_of(&[(2, 9, color(1))]));
    assert!(out.is_empty());
}

#[test]
fn normalize_covers_range_exactly() {
    let out = unique_styles(10, 20, &spans_of(&[(12, 14, color(1)), (13, 17, color(2))]));
    assert_eq!(out.first().unwrap().start, 10);
    assert_eq!(out.last().unwrap().end, 20);
    for w in out.windows(2) {
        assert_eq!(w[0].end, w[1].start);
    }
    for s in &out {
        assert!(s.start < s.end);
    }
}

#[test]
fn normalize_clips_spans_to_range() {
    let out = unique_styles(10, 20, &spans_of(&[(0, 30, color(1))]));
    assert_spans(&out, &[(10, 20, color(1))]);
}

#[test]
fn normalize_drops_zero_length_spans() {
    let out = unique_styles(0, 10, &spans_of(&[(5, 5, color(1))]));
    assert_spans(&out, &[(0, 10, Style::unset())]);
}

#[test]
fn normalize_later_span_wins_per_field() {
    let mut bold = Style::unset();
    bold.font_weight = Some(7);
    let out = unique_styles(0, 10, &spans_of(&[(0, 10, color(1)), (0, 10, bold)]));
    assert_eq!(out.len(), 1);
    assert_eq!(out[0].style.color, Some(1));
    assert_eq!(out[0].style.font_weight, Some(7));
}

#[test]
fn normalize_keeps_significant_boundary_between_equal_styles() {
    let out = unique_styles(0, 10, &spans_of(&[(0, 5, color(1)), (5, 10, color(1))]));
    assert_spans(&out, &[(0, 5, color(1)), (5, 10, color(1))]);
}

#[test]
fn merge_extends_adjacent_same_label() {
    let mut items: Vec<LabelSpan> = Vec::new();
    merge_push(&mut items, LabelSpan::new(0, 4, "kw".to_string()));
    merge_push(&mut items, LabelSpan::new(4, 9, "kw".to_string()));
    assert_eq!(items.len(), 1);
    assert_eq!(items[0].start, 0);
    assert_eq!(items[0].end, 9);
    assert_eq!(items[0].label, "kw");
}

#[test]
fn merge_keeps_earlier_label_on_duplicate_range() {
    let mut items: Vec<LabelSpan> = Vec::new();
    merge_push(&mut items, LabelSpan::new(3, 8, "property".to_string()));
    merge_push(&mut items, LabelSpan::new(3, 8, "string".to_string()));
    assert_eq!(items.len(), 1);
    assert_eq!(items[0].label, "property");
}

#[test]
fn merge_appends_otherwise() {
    let mut items: Vec<LabelSpan> = Vec::new();
    merge_push(&mut items, LabelSpan::new(0, 4, "kw".to_string()));
    merge_push(&mut items, LabelSpan::new(2, 9, "str".to_string()));
    merge_push(&mut items, LabelSpan::new(9, 12, "kw".to_string()));
    assert_eq!(items.len(), 3);
    assert_eq!(items[1].label, "str");
    assert_eq!(items[2].start, 9);
}

fn setting(key: &str, value: Option<&str>) -> PropertySetting {
    PropertySetting { key: key.to_string(), value: value.map(|v| v.to_string()) }
}

#[test]
fn injection_language_explicit_value_wins() {
    let settings = vec![
        setting("injection.include-children", None),
        setting("injection.language", Some("html")),
        setting("injection.self", None),
    ];
    let me = "rust".to_string();
    let got = resolve_injection_language(&settings, &me, None);
    assert_eq!(got, Some("html".to_string()));
    assert!(include_children(&settings));
}

#[test]
fn injection_self_resolves_current_layer() {
    let settings = vec![setting("injection.self", None)];
    let me = "rust".to_string();
    assert_eq!(resolve_injection_language(&settings, &me, None), Some("rust".to_string()));
}

#[test]
fn injection_parent_resolves_calling_layer() {
    let settings = vec![setting("injection.parent", None)];
    let me = "rust".to_string();
    let parent = "markdown".to_string();
    assert_eq!(
        resolve_injection_language(&settings, &me, Some(&parent)),
        Some("markdown".to_string())
    );
    assert_eq!(resolve_injection_language(&settings, &me, None), None);
}

#[test]
fn injection_language_without_value_falls_through() {
    let settings = vec![setting("injection.language", None), setting("injection.self", None)];
    let me = "rust".to_string();
    assert_eq!(resolve_injection_language(&settings, &me, None), Some("rust".to_string()));
}

#[test]
fn pattern_classification_counts_offsets() {
    let offsets = vec![0usize, 10, 25, 40, 41];
    assert_eq!(count_patterns_before(&offsets, 0), 0);
    assert_eq!(count_patterns_before(&offsets, 26), 3);
    assert_eq!(count_patterns_before(&offsets, 100), 5);
}

#[test]
fn capture_index_takes_last_occurrence() {
    let names = vec!["a".to_string(), "injection.content".to_string(), "a".to_string()];
    assert_eq!(find_capture_index(&names, "injection.content"), Some(1));
    assert_eq!(find_capture_index(&names, "a"), Some(2));
    assert_eq!(find_capture_index(&names, "missing"), None);
}

#[test]
fn non_local_table_flags_negated_local() {
    let preds = vec![
        vec![("local".to_string(), false)],
        vec![("local".to_string(), true)],
        vec![("other".to_string(), false)],
        vec![],
    ];
    let flags = non_local_flags(&preds);
    assert_eq!(flags, vec![true, false, false, false]);
}

#[test]
fn theme_missing_label_resolves_to_default() {
    let mut theme = Theme::new();
    theme.add("number".to_string(), color(5));
    assert_eq!(theme.style("number").map(|s| s.color), Some(Some(5)));
    assert!(theme.style("missing").is_none());
    let resolved = theme.resolve("missing");
    assert_eq!(resolved.color, None);
}

#[test]
fn clip_offsets_never_split_characters() {
    // "aéb": 'é' is the two bytes 0xc3 0xa9 at offsets 1..3
    let bytes: Vec<u8> = "a\u{e9}b".bytes().collect();
    assert_eq!(clip_left(&bytes, 2), 1);
    assert_eq!(clip_right(&bytes, 2), 3);
    assert_eq!(clip_left(&bytes, 3), 3);
    assert_eq!(clip_right(&bytes, 99), 4);
    assert_eq!(clip_left(&bytes, 99), 4);
}

#[test]
fn byte_slicing_and_equality() {
    let bytes: Vec<u8> = vec![1, 2, 3, 4, 5];
    assert_eq!(slice_bytes(&bytes, 1, 4), vec![2, 3, 4]);
    assert!(bytes_eq(&vec![1, 2], &vec![1, 2]));
    assert!(!bytes_eq(&vec![1, 2], &vec![1, 3]));
    assert!(!bytes_eq(&vec![1, 2], &vec![1, 2, 3]));
}

#[test]
fn format_bytes_exact_values() {
    assert_eq!(format_bytes(0), "0 B");
    assert_eq!(format_bytes(512), "512 B");
    assert_eq!(format_bytes(1023), "1023 B");
    assert_eq!(format_bytes(1024), "1.00 KB");
    assert_eq!(format_bytes(1536), "1.50 KB");
    assert_eq!(format_bytes(10 * 1024 + 5), "10.00 KB");
    assert_eq!(format_bytes(1024 * 1024), "1.00 MB");
    assert_eq!(format_bytes(5 * 1024 * 1024 + 1024 * 512), "5.50 MB");
    assert_eq!(format_bytes(3 * 1024 * 1024 * 1024), "3.00 GB");
    assert_eq!(format_bytes(2 * 1024 * 1024 * 1024 * 1024), "2.00 TB");
}

#[test]
fn process_columns_enumerate_in_order() {
    let all = ProcessColumn::all();
    assert_eq!(all.len(), 5);
    assert_eq!(all[0].label(), "Name");
    assert_eq!(all[1].key(), "pid");
    assert_eq!(all[2].label(), "CPU %");
    assert_eq!(all[3].key(), "memory");
    assert_eq!(all[4].label(), "Disk");
}

#[test]
fn injection_explicit_value_outranks_self_regardless_of_order() {
    let settings = vec![setting("injection.self", None), setting("injection.language", Some("html"))];
    let me = "rust".to_string();
    assert_eq!(resolve_injection_language(&settings, &me, None), Some("html".to_string()));
}
