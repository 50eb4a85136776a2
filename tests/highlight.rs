use colored::{Color, Colorize};
use json_highlight_writer::document::{Document, Node, Number};
use json_highlight_writer::highlight::{HighlightGenerator, Segment};
use json_highlight_writer::palette::{ColorPolicy, ExhaustibleColors, HighlightError};
use json_highlight_writer::codegen::dump;
use json_highlight_writer::slice::SliceGenerator;
use json_highlight_writer::{highlight, highlight_with_colors, highlight_with_colors_and_remainder, highlight_with_policy};

/// Ids of the nodes of the sample document.
struct Sample {
    doc: Document,
    root: usize,
    bar: usize,
    list: usize,
}

/// `{"foo":false,"bar":null,"answer":42,"list":[null,"world",true]}`
fn sample() -> Sample {
    let mut doc = Document::new();
    let foo = doc.add(Node::Boolean(false));
    let bar = doc.add(Node::Null);
    let answer = doc.add(Node::Number(Number::from_parts(true, 42, 0)));
    let n = doc.add(Node::Null);
    let world = doc.add(Node::Str("world".to_string()));
    let t = doc.add(Node::Boolean(true));
    let list = doc.add(Node::Array(vec![n, world, t]));
    let root = doc.add(Node::Object(vec![
        ("foo".to_string(), foo),
        ("bar".to_string(), bar),
        ("answer".to_string(), answer),
        ("list".to_string(), list),
    ]));
    Sample { doc, root, bar, list }
}

#[test]
fn should_implement_basic_json_dump() {
    let s = sample();
    let mut gen = HighlightGenerator::new();
    gen.write_json(&s.doc, s.list).expect("Can't fail");
    assert_eq!(gen.consume(), r#"[null,"world",true]"#);
}

#[test]
fn should_store_slices_to_highlight() {
    let s = sample();
    let mut slices = vec![s.bar, s.list];
    let mut gen = HighlightGenerator::new();
    gen.write_json_with_highlight(&s.doc, s.root, &mut slices).expect("Can't fail");
    assert_eq!(gen.targets()[0], s.bar);
    assert_eq!(gen.targets()[1], s.list);
}

#[test]
fn should_segment_slices() {
    let s = sample();
    let mut slices = vec![s.list];
    let mut gen = HighlightGenerator::new();
    gen.write_json_with_highlight(&s.doc, s.root, &mut slices).expect("Can't fail");
    let code = gen.segments();
    assert_eq!(
        code[0],
        Segment { text: "{\"foo\":false,\"bar\":null,\"answer\":42,\"list\":".to_string(), marker: None }
    );
    assert_eq!(code[1], Segment { text: "[null,\"world\",true]".to_string(), marker: Some(Color::Red) });
    assert_eq!(code[2], Segment { text: "}".to_string(), marker: None });
}

#[test]
fn should_segment_a_root_slice() {
    let s = sample();
    let mut slices = vec![s.root];
    let mut gen = HighlightGenerator::new();
    gen.write_json_with_highlight(&s.doc, s.root, &mut slices).expect("Can't fail");
    let code = gen.segments();
    assert_eq!(
        code[0],
        Segment {
            text: "{\"foo\":false,\"bar\":null,\"answer\":42,\"list\":[null,\"world\",true]}".to_string(),
            marker: Some(Color::Red),
        }
    );
}

#[test]
fn should_highlight_a_single_match() {
    colored::control::set_override(true);
    let s = sample();
    let mut slices = vec![s.list];
    let mut gen = HighlightGenerator::new();
    gen.write_json_with_highlight(&s.doc, s.root, &mut slices).expect("Can't fail");
    assert_eq!(
        gen.consume(),
        format!(
            "{}{}{}",
            r#"{"foo":false,"bar":null,"answer":42,"list":"#,
            r#"[null,"world",true]"#.red(),
            r#"}"#
        )
    );
}

#[test]
fn should_highlight_remainder() {
    colored::control::set_override(true);
    let s = sample();
    let mut slices = vec![s.list];
    let mut gen = HighlightGenerator::new_with_colors(None, Some(Color::White));
    gen.write_json_with_highlight(&s.doc, s.root, &mut slices).expect("Can't fail");
    assert_eq!(
        gen.consume(),
        format!(
            "{}{}{}",
            r#"{"foo":false,"bar":null,"answer":42,"list":"#.white(),
            r#"[null,"world",true]"#.red(),
            r#"}"#.white()
        )
    );
}

#[test]
fn should_highlight_multiple_matchs() {
    colored::control::set_override(true);
    let s = sample();
    let mut slices = vec![s.bar, s.list];
    let mut gen = HighlightGenerator::new();
    gen.write_json_with_highlight(&s.doc, s.root, &mut slices).expect("Can't fail");
    assert_eq!(
        gen.consume(),
        format!(
            "{}{}{}{}{}",
            r#"{"foo":false,"bar":"#,
            r#"null"#.red(),
            r#","answer":42,"list":"#,
            r#"[null,"world",true]"#.red(),
            r#"}"#
        )
    );
}

#[test]
fn should_highlight_multiple_matchs_with_cycled_colors() {
    colored::control::set_override(true);
    let s = sample();
    let mut slices = vec![s.bar, s.list];
    let mut gen = HighlightGenerator::new_with_colors(Some(vec![Color::Red, Color::Green]), None);
    gen.write_json_with_highlight(&s.doc, s.root, &mut slices).expect("Can't fail");
    assert_eq!(
        gen.consume(),
        format!(
            "{}{}{}{}{}",
            r#"{"foo":false,"bar":"#,
            r#"null"#.red(),
            r#","answer":42,"list":"#,
            r#"[null,"world",true]"#.green(),
            r#"}"#
        )
    );
}

#[test]
fn should_highlight_inner_matches() {
    colored::control::set_override(true);
    let s = sample();
    let mut slices = vec![s.root, s.list];
    let mut gen = HighlightGenerator::new_with_colors(Some(vec![Color::Red, Color::Green]), None);
    gen.write_json_with_highlight(&s.doc, s.root, &mut slices).expect("Can't fail");
    assert_eq!(
        gen.consume(),
        format!(
            "{}{}{}",
            r#"{"foo":false,"bar":null,"answer":42,"list":"#.red(),
            r#"[null,"world",true]"#.green(),
            r#"}"#.red()
        )
    );
}

#[test]
fn no_targets_gives_plain_encoding() {
    let s = sample();
    assert_eq!(
        highlight(&s.doc, s.root, vec![]),
        r#"{"foo":false,"bar":null,"answer":42,"list":[null,"world",true]}"#
    );
}

#[test]
fn scenario_single_marker_on_list() {
    colored::control::set_override(true);
    let s = sample();
    assert_eq!(
        highlight(&s.doc, s.root, vec![s.list]),
        format!(
            "{}{}{}",
            r#"{"foo":false,"bar":null,"answer":42,"list":"#,
            r#"[null,"world",true]"#.red(),
            "}"
        )
    );
}

#[test]
fn scenario_cycled_markers_on_bar_and_list() {
    colored::control::set_override(true);
    let s = sample();
    assert_eq!(
        highlight_with_colors(&s.doc, s.root, vec![s.bar, s.list], vec![Color::Blue, Color::Yellow]),
        format!(
            "{}{}{}{}{}",
            r#"{"foo":false,"bar":"#,
            "null".blue(),
            r#","answer":42,"list":"#,
            r#"[null,"world",true]"#.yellow(),
            "}"
        )
    );
}

#[test]
fn scenario_nested_targets_resume_the_outer_marker() {
    colored::control::set_override(true);
    let s = sample();
    assert_eq!(
        highlight_with_colors(&s.doc, s.root, vec![s.root, s.list], vec![Color::Cyan, Color::Magenta]),
        format!(
            "{}{}{}",
            r#"{"foo":false,"bar":null,"answer":42,"list":"#.cyan(),
            r#"[null,"world",true]"#.magenta(),
            "}".cyan()
        )
    );
}

#[test]
fn nesting_gives_three_segments() {
    let s = sample();
    let mut slices = vec![s.root, s.list];
    let mut gen = HighlightGenerator::new_with_colors(Some(vec![Color::Red, Color::Green]), None);
    gen.write_json_with_highlight(&s.doc, s.root, &mut slices).expect("Can't fail");
    let code = gen.segments();
    assert_eq!(code.len(), 3);
    assert_eq!(code[0].marker, Some(Color::Red));
    assert_eq!(code[1], Segment { text: "[null,\"world\",true]".to_string(), marker: Some(Color::Green) });
    assert_eq!(code[2], Segment { text: "}".to_string(), marker: Some(Color::Red) });
}

#[test]
fn identical_siblings_are_told_apart() {
    let mut doc = Document::new();
    let a = doc.add(Node::Null);
    let b = doc.add(Node::Null);
    let root = doc.add(Node::Array(vec![a, b]));
    let mut gen = HighlightGenerator::new();
    gen.write_json_with_highlight(&doc, root, &mut vec![b]).expect("Can't fail");
    let code = gen.segments();
    assert_eq!(code.len(), 3);
    assert_eq!(code[0], Segment { text: "[null,".to_string(), marker: None });
    assert_eq!(code[1], Segment { text: "null".to_string(), marker: Some(Color::Red) });
    assert_eq!(code[2], Segment { text: "]".to_string(), marker: None });
}

#[test]
fn cycled_markers_wrap_in_pre_order() {
    let mut doc = Document::new();
    let a = doc.add(Node::Boolean(true));
    let b = doc.add(Node::Boolean(false));
    let inner = doc.add(Node::Array(vec![a, b]));
    let c = doc.add(Node::Null);
    let root = doc.add(Node::Array(vec![inner, c]));
    let mut gen = HighlightGenerator::new_with_colors(Some(vec![Color::Red, Color::Green]), None);
    gen.write_json_with_highlight(&doc, root, &mut vec![c, b, inner]).expect("Can't fail");
    let code = gen.segments();
    let markers: Vec<Option<Color>> = code.iter().map(|s| s.marker).collect();
    let texts: Vec<String> = code.iter().map(|s| s.text.clone()).collect();
    assert_eq!(texts, vec!["[", "[true,", "false", "]", ",", "null", "]"]);
    assert_eq!(
        markers,
        vec![None, Some(Color::Red), Some(Color::Green), Some(Color::Red), None, Some(Color::Red), None]
    );
}

#[test]
fn exhaustible_palette_fails_on_the_match_after_the_last() {
    let s = sample();
    let policy = ColorPolicy::Exhaustible(ExhaustibleColors::new(vec![Color::Red]));
    let r = highlight_with_policy(&s.doc, s.root, vec![s.bar, s.list], policy, None);
    assert_eq!(r, Err(HighlightError::PaletteExhausted { match_index: 1, palette_size: 1 }));
}

#[test]
fn exhaustible_palette_is_enough_for_as_many_matches() {
    colored::control::set_override(true);
    let s = sample();
    let policy = ColorPolicy::Exhaustible(ExhaustibleColors::new(vec![Color::Red, Color::Green]));
    let r = highlight_with_policy(&s.doc, s.root, vec![s.bar, s.list], policy, None);
    assert_eq!(
        r,
        Ok(format!(
            "{}{}{}{}{}",
            r#"{"foo":false,"bar":"#,
            "null".red(),
            r#","answer":42,"list":"#,
            r#"[null,"world",true]"#.green(),
            "}"
        ))
    );
}

#[test]
fn empty_palette_without_targets_is_plain() {
    let s = sample();
    let policy = ColorPolicy::Exhaustible(ExhaustibleColors::new(vec![]));
    let r = highlight_with_policy(&s.doc, s.root, vec![], policy, None);
    assert_eq!(r, Ok(r#"{"foo":false,"bar":null,"answer":42,"list":[null,"world",true]}"#.to_string()));
    assert_eq!(
        highlight_with_colors(&s.doc, s.root, vec![], vec![]),
        r#"{"foo":false,"bar":null,"answer":42,"list":[null,"world",true]}"#
    );
}

#[test]
fn dangling_target_is_ignored() {
    let mut s = sample();
    let stray = s.doc.add(Node::Null);
    assert_eq!(
        highlight(&s.doc, s.root, vec![stray]),
        r#"{"foo":false,"bar":null,"answer":42,"list":[null,"world",true]}"#
    );
}

#[test]
fn remainder_and_palette_together() {
    colored::control::set_override(true);
    let s = sample();
    assert_eq!(
        highlight_with_colors_and_remainder(&s.doc, s.root, vec![s.bar], Some(vec![Color::Green]), Some(Color::White)),
        format!(
            "{}{}{}",
            r#"{"foo":false,"bar":"#.white(),
            "null".green(),
            r#","answer":42,"list":[null,"world",true]}"#.white()
        )
    );
}

#[test]
fn segments_join_to_the_encoding() {
    let s = sample();
    let mut gen = HighlightGenerator::new_with_colors(Some(vec![Color::Red]), None);
    gen.write_json_with_highlight(&s.doc, s.root, &mut vec![s.list, s.bar, s.root]).expect("Can't fail");
    let joined: String = gen.segments().iter().map(|seg| seg.text.clone()).collect();
    assert_eq!(joined, dump(&s.doc, s.root));
}

#[test]
fn slice_generator_resumes_the_outer_marker() {
    colored::control::set_override(true);
    let s = sample();
    let mut gen = SliceGenerator::new(16, vec![s.root, s.bar, s.list]);
    gen.write_json(&s.doc, s.root).expect("Can't fail");
    assert_eq!(
        gen.consume(),
        format!(
            "{}{}{}{}{}",
            r#"{"foo":false,"bar":"#.red(),
            "null".green(),
            r#","answer":42,"list":"#.red(),
            r#"[null,"world",true]"#.yellow(),
            "}".red()
        )
    );
}

#[test]
fn slice_generator_runs_out_after_fifteen_matches() {
    let mut doc = Document::new();
    let ids: Vec<usize> = (0..16).map(|_| doc.add(Node::Null)).collect();
    let root = doc.add(Node::Array(ids.clone()));
    let mut gen = SliceGenerator::new(0, ids);
    assert_eq!(
        gen.write_json(&doc, root),
        Err(HighlightError::PaletteExhausted { match_index: 15, palette_size: 15 })
    );
}

#[test]
fn painted_spans_carry_the_color_code() {
    colored::control::set_override(true);
    let s = sample();
    assert_eq!(
        highlight_with_colors(&s.doc, s.root, vec![s.bar, s.list], vec![Color::Red, Color::BrightGreen]),
        "{\"foo\":false,\"bar\":\u{1b}[31mnull\u{1b}[0m,\"answer\":42,\"list\":\u{1b}[92m[null,\"world\",true]\u{1b}[0m}"
    );
}
