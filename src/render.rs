use vstd::prelude::*;
use colored::{Color, Colorize};
use crate::codegen::clean;
use crate::highlight::{Segment, models};
use crate::walk::SegmentModel;

verus! {

/// The sequence that ends a painted span.
pub open spec fn reset_code() -> Seq<char> {
    seq!['\u{1b}', '[', '0', 'm']
}

/// The foreground code that colored writes for a named color (a true color's
/// code depends on the terminal, and is left open).
pub open spec fn fg_code(color: Color) -> Seq<char> {
    match color {
        Color::Black => seq!['3', '0'],
        Color::Red => seq!['3', '1'],
        Color::Green => seq!['3', '2'],
        Color::Yellow => seq!['3', '3'],
        Color::Blue => seq!['3', '4'],
        Color::Magenta => seq!['3', '5'],
        Color::Cyan => seq!['3', '6'],
        Color::White => seq!['3', '7'],
        Color::BrightBlack => seq!['9', '0'],
        Color::BrightRed => seq!['9', '1'],
        Color::BrightGreen => seq!['9', '2'],
        Color::BrightYellow => seq!['9', '3'],
        Color::BrightBlue => seq!['9', '4'],
        Color::BrightMagenta => seq!['9', '5'],
        Color::BrightCyan => seq!['9', '6'],
        Color::BrightWhite => seq!['9', '7'],
        Color::TrueColor { .. } => Seq::empty(),
    }
}

/// The style sequence that sets `color` as the foreground: `ESC [ code m`.
pub open spec fn style_of(color: Color) -> Seq<char> {
    seq!['\u{1b}', '['] + fg_code(color) + seq!['m']
}

/// `out` is `text` as the terminal color library paints it in `color`:
/// either the text alone (where coloring is off) or the text between a style
/// sequence and the reset sequence, the style being that of `color` for
/// every named color.
pub open spec fn painted(text: Seq<char>, color: Color, out: Seq<char>) -> bool {
    out == text || exists|style: Seq<char>|
        style.len() > 0 && style[0] == '\u{1b}' && out == style + text + reset_code() && (!(color is TrueColor)
            ==> style == style_of(color))
}

/// Relies on colored's `Colorize::color` for `&str` and the `Display` of
/// `ColoredString`. With coloring on, the output is the style sequence
/// (`ESC [` followed by `Color::to_fg_str` and `m`, no other attribute being
/// set), the input, and `ESC [0m`; the input is only changed where it holds a
/// reset sequence, which text without an escape character cannot. With
/// coloring off, which colored decides from the environment, the output is
/// the input.
#[verifier::external_body]
fn paint(text: &str, color: Color) -> (r: String)
    requires
        clean(text@),
    ensures
        painted(text@, color, r@),
{
    text.color(color).to_string()
}

/// The marker a segment is painted with: its own, or else the remainder's.
pub open spec fn effective_marker(seg: SegmentModel, remainder: Option<Color>) -> Option<Color> {
    if seg.1 is Some {
        seg.1
    } else {
        remainder
    }
}

pub open spec fn piece_of(seg: SegmentModel, remainder: Option<Color>, piece: Seq<char>) -> bool {
    match effective_marker(seg, remainder) {
        None => piece == seg.0,
        Some(c) => painted(seg.0, c, piece),
    }
}

pub open spec fn concat(pieces: Seq<Seq<char>>) -> Seq<char>
    decreases pieces.len(),
{
    if pieces.len() == 0 {
        Seq::empty()
    } else {
        concat(pieces.drop_last()) + pieces.last()
    }
}

/// `out` is the segments rendered in order, each painted with its marker,
/// plain ones with the remainder marker where there is one.
pub open spec fn rendering_of(segs: Seq<SegmentModel>, remainder: Option<Color>, out: Seq<char>) -> bool {
    exists|pieces: Seq<Seq<char>>|
        pieces.len() == segs.len() && (forall|i: int|
            0 <= i < segs.len() ==> piece_of(#[trigger] segs[i], remainder, pieces[i])) && out == concat(
            pieces,
        )
}

pub open spec fn all_clean(segs: Seq<SegmentModel>) -> bool {
    forall|k: int| 0 <= k < segs.len() ==> clean(#[trigger] segs[k].0)
}

/// Joins the segments into the displayable text.
pub fn render(segments: &Vec<Segment>, remainder_color: Option<Color>) -> (r: String)
    requires
        all_clean(models(segments@)),
    ensures
        rendering_of(models(segments@), remainder_color, r@),
{
    let ghost segs = models(segments@);
    let ghost mut pieces: Seq<Seq<char>> = Seq::empty();
    let mut out = String::new();
    let mut i: usize = 0;
    while i < segments.len()
        invariant
            segs == models(segments@),
            all_clean(segs),
            i <= segments@.len(),
            pieces.len() == i,
            forall|k: int| 0 <= k < i ==> piece_of(#[trigger] segs[k], remainder_color, pieces[k]),
            out@ == concat(pieces),
        decreases segments@.len() - i,
    {
        let seg = &segments[i];
        assert(segs[i as int] == seg.model());
        assert(clean(segs[i as int].0));
        let color = match seg.marker {
            Some(c) => Some(c),
            None => remainder_color,
        };
        let piece = match color {
            Some(c) => paint(seg.text.as_str(), c),
            None => seg.text.clone(),
        };
        out.append(piece.as_str());
        proof {
            let old_pieces = pieces;
            pieces = pieces.push(piece@);
            assert(pieces.drop_last() == old_pieces);
            assert forall|k: int| 0 <= k < i + 1 implies piece_of(#[trigger] segs[k], remainder_color, pieces[k]) by {
                if k < i {
                    assert(pieces[k] == old_pieces[k]);
                }
            }
        }
        i = i + 1;
    }
    out
}

} // verus!
