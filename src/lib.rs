use vstd::prelude::*;
use colored::Color;

pub mod codegen;
pub mod document;
pub mod highlight;
pub mod laws;
pub mod palette;
pub mod render;
pub mod slice;
pub mod walk;

use crate::document::Document;
use crate::highlight::HighlightGenerator;
use crate::palette::{
    ColorPolicy, CycledColors, HighlightError, SingleColor, starts_cycled, never_exhausted,
    lemma_single_marker, lemma_cycled_marker,
};
use crate::render::rendering_of;
use crate::walk::{segments_of, start, hits, lemma_walk_text, lemma_walk_count};

verus! {

/// The policy of `highlight`: every match in red.
pub open spec fn red() -> ColorPolicy {
    ColorPolicy::Single(SingleColor { color: Color::Red })
}

/// `out` is node `root` of `nodes` encoded, its targets highlighted with the
/// markers of `policy`, rendered with `remainder` for the plain text.
pub open spec fn highlighted(
    nodes: Seq<crate::document::Node>,
    targets: Seq<usize>,
    policy: ColorPolicy,
    root: nat,
    remainder: Option<Color>,
    out: Seq<char>,
) -> bool {
    match segments_of(nodes, targets, policy, root) {
        Ok(segs) => rendering_of(segs, remainder, out),
        Err(_) => false,
    }
}

/// Highlights the `slices` of the document rooted at `root` with the markers
/// of `policy`, and renders the plain text with `remainder_color`; fails
/// where the policy runs out of markers.
pub fn highlight_with_policy(
    doc: &Document,
    root: usize,
    slices: Vec<usize>,
    policy: ColorPolicy,
    remainder_color: Option<Color>,
) -> (r: Result<String, HighlightError>)
    requires
        doc.wf(),
        root < doc@.len(),
        policy.wf(),
    ensures
        match segments_of(doc@, slices@, policy, root as nat) {
            Ok(segs) => r is Ok && rendering_of(segs, remainder_color, r->Ok_0@),
            Err(e) => r == Err::<String, HighlightError>(e),
        },
{
    let mut gen = HighlightGenerator::with_policy(policy, remainder_color);
    let mut slices = slices;
    let ghost targets = slices@;
    let res = gen.write_json_with_highlight(doc, root, &mut slices);
    assert(Seq::<usize>::empty() + targets =~= targets);
    match res {
        Ok(()) => Ok(gen.consume()),
        Err(e) => Err(e),
    }
}

proof fn lemma_policy_never_exhausted(p: ColorPolicy, colors: Seq<Color>)
    requires
        p == red() || (starts_cycled(p, colors) && 0 < colors.len() <= usize::MAX),
    ensures
        never_exhausted(p),
{
    assert forall|k: nat| (#[trigger] p.advanced_by(k)).current() is Some by {
        if p == red() {
            lemma_single_marker(p, k);
        } else {
            lemma_cycled_marker(p, colors, k);
        }
    }
}

/// Highlights the `slices` of the document rooted at `root` with the given
/// colors, round-robin (or all in red, where none are given), and paints the
/// plain text with `remainder_color` where it is set.
pub fn highlight_with_colors_and_remainder(
    doc: &Document,
    root: usize,
    slices: Vec<usize>,
    colors: Option<Vec<Color>>,
    remainder_color: Option<Color>,
) -> (r: String)
    requires
        doc.wf(),
        root < doc@.len(),
        colors matches Some(cs) ==> cs@.len() > 0 || hits(doc@, slices@, root as nat) == 0,
    ensures
        match colors {
            None => highlighted(doc@, slices@, red(), root as nat, remainder_color, r@),
            Some(cs) => exists|p: ColorPolicy|
                starts_cycled(p, cs@) && highlighted(doc@, slices@, p, root as nat, remainder_color, r@),
        },
{
    let ghost cs = match &colors {
        Some(c) => c@,
        None => Seq::empty(),
    };
    let ghost given = colors is Some;
    let policy = match colors {
        Some(c) => {
            let n: usize = c.len();
            assert(cs.len() == n);
            ColorPolicy::Cycled(CycledColors::new(c))
        },
        None => ColorPolicy::Single(SingleColor::new()),
    };
    let ghost p = policy;
    proof {
        if !given {
            assert(p->Single_0.color == Color::Red);
            assert(p == red());
        }
        if hits(doc@, slices@, root as nat) == 0 {
            lemma_walk_count(doc@, slices@, p, root as nat, start());
        } else {
            lemma_policy_never_exhausted(p, cs);
            lemma_walk_text(doc@, slices@, p, root as nat, start());
        }
    }
    match highlight_with_policy(doc, root, slices, policy, remainder_color) {
        Ok(s) => s,
        Err(_) => {
            assert(false);
            String::new()
        },
    }
}

/// Highlights the `slices` of the document rooted at `root`, all in red.
pub fn highlight(doc: &Document, root: usize, slices: Vec<usize>) -> (r: String)
    requires
        doc.wf(),
        root < doc@.len(),
    ensures
        highlighted(doc@, slices@, red(), root as nat, None, r@),
{
    highlight_with_colors_and_remainder(doc, root, slices, None, None)
}

/// Highlights the `slices` of the document rooted at `root`, cycling through
/// `colors`; an empty palette will do only where nothing matches.
pub fn highlight_with_colors(doc: &Document, root: usize, slices: Vec<usize>, colors: Vec<Color>) -> (r: String)
    requires
        doc.wf(),
        root < doc@.len(),
        colors@.len() > 0 || hits(doc@, slices@, root as nat) == 0,
    ensures
        exists|p: ColorPolicy| starts_cycled(p, colors@) && highlighted(doc@, slices@, p, root as nat, None, r@),
{
    highlight_with_colors_and_remainder(doc, root, slices, Some(colors), None)
}

} // verus!
