use colored::Color;
use json_highlight_writer::palette::{CycledColors, ExhaustibleColors, HighlightError, SingleColor};

#[test]
fn cycledcolors_should_cycle_through_colors() {
    let mut cycle = CycledColors::new(vec![Color::Red, Color::Green, Color::Yellow]);
    assert_eq!(cycle.get_color(), Color::Red);
    assert_eq!(cycle.get_color(), Color::Green);
    assert_eq!(cycle.get_color(), Color::Yellow);
    assert_eq!(cycle.get_color(), Color::Red);
}

#[test]
fn single_color_is_red_forever() {
    let mut single = SingleColor::new();
    assert_eq!(single.get_color(), Color::Red);
    assert_eq!(single.get_color(), Color::Red);
}

#[test]
fn exhaustible_colors_run_out() {
    let mut colors = ExhaustibleColors::new(vec![Color::Blue, Color::Cyan]);
    assert_eq!(colors.get_color(), Ok(Color::Blue));
    assert_eq!(colors.get_color(), Ok(Color::Cyan));
    assert_eq!(colors.get_color(), Err(HighlightError::PaletteExhausted { match_index: 2, palette_size: 2 }));
}
