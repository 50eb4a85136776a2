use vstd::prelude::*;
use colored::Color;
use crate::document::Document;
use crate::highlight::HighlightGenerator;
use crate::palette::{ColorPolicy, ExhaustibleColors, HighlightError, starts_exhaustible};
use crate::render::rendering_of;
use crate::walk::{Walk, start, walk, close_open};

verus! {

/// The fifteen markers a `SliceGenerator` hands out, in order.
pub open spec fn slice_palette() -> Seq<Color> {
    seq![
        Color::Red,
        Color::Green,
        Color::Yellow,
        Color::Blue,
        Color::Magenta,
        Color::Cyan,
        Color::White,
        Color::BrightBlack,
        Color::BrightRed,
        Color::BrightGreen,
        Color::BrightYellow,
        Color::BrightBlue,
        Color::BrightMagenta,
        Color::BrightCyan,
        Color::BrightWhite,
    ]
}

/// A highlighter with its targets fixed up front and a palette of fifteen
/// markers that is used up rather than cycled: every match gets a marker of
/// its own.
pub struct SliceGenerator {
    gen: HighlightGenerator,
}

impl SliceGenerator {
    pub closed spec fn inner(&self) -> HighlightGenerator {
        self.gen
    }

    /// `capacity` is a hint for the number of segments.
    pub fn new(capacity: usize, slices: Vec<usize>) -> (g: SliceGenerator)
        ensures
            g.inner().wf(),
            g.inner().state() == start(),
            g.inner().spec_targets() == slices@,
            starts_exhaustible(g.inner().spec_policy(), slice_palette()),
            g.inner().spec_remainder() == None::<Color>,
    {
        let colors = vec![
            Color::Red,
            Color::Green,
            Color::Yellow,
            Color::Blue,
            Color::Magenta,
            Color::Cyan,
            Color::White,
            Color::BrightBlack,
            Color::BrightRed,
            Color::BrightGreen,
            Color::BrightYellow,
            Color::BrightBlue,
            Color::BrightMagenta,
            Color::BrightCyan,
            Color::BrightWhite,
        ];
        assert(colors@ =~= slice_palette());
        let mut gen = HighlightGenerator::with_capacity(
            capacity,
            ColorPolicy::Exhaustible(ExhaustibleColors::new(colors)),
            None,
        );
        let mut slices = slices;
        gen.add_targets(&mut slices);
        assert(Seq::<usize>::empty() + slices@ =~= slices@);
        SliceGenerator { gen }
    }

    /// Appends the encoding of node `id`, each target in a segment of its own.
    pub fn write_json(&mut self, doc: &Document, id: usize) -> (r: Result<(), HighlightError>)
        requires
            old(self).inner().wf(),
            doc.wf(),
            id < doc@.len(),
        ensures
            final(self).inner().same_setup(&old(self).inner()),
            match walk(
                doc@,
                old(self).inner().spec_targets(),
                old(self).inner().spec_policy(),
                id as nat,
                old(self).inner().state(),
            ) {
                Ok(w) => r is Ok && final(self).inner().wf() && final(self).inner().state() == w,
                Err(e) => r == Err::<(), HighlightError>(e),
            },
    {
        self.gen.write_json(doc, id)
    }

    /// Renders the segments written so far.
    pub fn consume(&mut self) -> (r: String)
        requires
            old(self).inner().wf(),
        ensures
            rendering_of(close_open(old(self).inner().state()), old(self).inner().spec_remainder(), r@),
            final(self).inner().wf(),
            final(self).inner().same_setup(&old(self).inner()),
            final(self).inner().state() == (Walk {
                done: close_open(old(self).inner().state()),
                text: Seq::empty(),
                ..old(self).inner().state()
            }),
    {
        self.gen.consume()
    }
}

} // verus!
