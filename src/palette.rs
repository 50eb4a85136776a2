use vstd::prelude::*;
use colored::Color;
use vstd::arithmetic::div_mod::{lemma_mod_self_0, lemma_small_mod, lemma_add_mod_noop};

verus! {

/// A terminal color of the colored crate: the marker that a highlighted span
/// is painted with. Its variants are plain data, read as they stand.
#[verifier::external_type_specification]
pub struct ExColor(colored::Color);

/// Why an encoding was given up.
#[derive(Debug, PartialEq, Eq, Structural)]
pub enum HighlightError {
    /// A match had no marker left: `match_index` (counted from zero) is the
    /// match that found the palette of `palette_size` markers used up.
    PaletteExhausted { match_index: usize, palette_size: usize },
}

/// One marker for every match.
pub struct SingleColor {
    pub color: Color,
}

impl SingleColor {
    pub fn new() -> (s: SingleColor)
        ensures
            s.color == Color::Red,
    {
        SingleColor { color: Color::Red }
    }

    pub fn get_color(&mut self) -> (c: Color)
        ensures
            c == old(self).color,
            final(self).color == old(self).color,
    {
        self.color
    }
}

/// A palette handed out round-robin, forever.
pub struct CycledColors {
    pub colors: Vec<Color>,
    /// The position of the next marker.
    pub next: usize,
}

impl CycledColors {
    pub open spec fn wf(&self) -> bool {
        self.next < self.colors@.len() || (self.next == 0 && self.colors@.len() == 0)
    }

    pub fn new(colors: Vec<Color>) -> (s: CycledColors)
        ensures
            s.colors@ == colors@,
            s.next == 0,
            s.wf(),
    {
        CycledColors { colors, next: 0 }
    }

    pub fn get_color(&mut self) -> (c: Color)
        requires
            old(self).wf(),
            old(self).colors@.len() > 0,
        ensures
            c == old(self).colors@[old(self).next as int],
            final(self).colors@ == old(self).colors@,
            final(self).next == (old(self).next + 1) % (old(self).colors@.len() as int),
            final(self).wf(),
    {
        let c = self.colors[self.next];
        if self.next == self.colors.len() - 1 {
            proof {
                lemma_mod_self_0(self.colors@.len() as int);
            }
            self.next = 0;
        } else {
            proof {
                lemma_small_mod((self.next + 1) as nat, self.colors@.len() as nat);
            }
            self.next = self.next + 1;
        }
        c
    }
}

/// A palette handed out in order once; a match after the last marker is an
/// error.
pub struct ExhaustibleColors {
    pub colors: Vec<Color>,
    /// How many markers were handed out.
    pub used: usize,
}

impl ExhaustibleColors {
    pub open spec fn wf(&self) -> bool {
        self.used <= self.colors@.len()
    }

    pub fn new(colors: Vec<Color>) -> (s: ExhaustibleColors)
        ensures
            s.colors@ == colors@,
            s.used == 0,
            s.wf(),
    {
        ExhaustibleColors { colors, used: 0 }
    }

    pub fn get_color(&mut self) -> (r: Result<Color, HighlightError>)
        requires
            old(self).wf(),
        ensures
            final(self).colors@ == old(self).colors@,
            final(self).wf(),
            old(self).used < old(self).colors@.len() ==> r == Ok::<Color, HighlightError>(
                old(self).colors@[old(self).used as int],
            ) && final(self).used == old(self).used + 1,
            old(self).used == old(self).colors@.len() ==> r == Err::<Color, HighlightError>(
                HighlightError::PaletteExhausted {
                    match_index: old(self).used,
                    palette_size: old(self).used,
                },
            ) && final(self).used == old(self).used,
    {
        if self.used < self.colors.len() {
            let c = self.colors[self.used];
            self.used = self.used + 1;
            Ok(c)
        } else {
            Err(HighlightError::PaletteExhausted { match_index: self.used, palette_size: self.colors.len() })
        }
    }
}

/// Where the marker of each match comes from.
pub enum ColorPolicy {
    Single(SingleColor),
    Cycled(CycledColors),
    Exhaustible(ExhaustibleColors),
}

impl ColorPolicy {
    pub open spec fn wf(&self) -> bool {
        match self {
            ColorPolicy::Single(_) => true,
            ColorPolicy::Cycled(p) => p.wf(),
            ColorPolicy::Exhaustible(p) => p.wf(),
        }
    }

    /// The marker that the next match gets, if there is one.
    pub open spec fn current(&self) -> Option<Color> {
        match self {
            ColorPolicy::Single(p) => Some(p.color),
            ColorPolicy::Cycled(p) => if p.colors@.len() > 0 {
                Some(p.colors@[p.next as int])
            } else {
                None
            },
            ColorPolicy::Exhaustible(p) => if p.used < p.colors@.len() {
                Some(p.colors@[p.used as int])
            } else {
                None
            },
        }
    }

    /// The policy once a marker was handed out.
    pub open spec fn advanced(&self) -> ColorPolicy {
        match self {
            ColorPolicy::Single(p) => ColorPolicy::Single(SingleColor { color: p.color }),
            ColorPolicy::Cycled(p) => ColorPolicy::Cycled(CycledColors {
                colors: p.colors,
                next: ((p.next + 1) % (p.colors@.len() as int)) as usize,
            }),
            ColorPolicy::Exhaustible(p) => ColorPolicy::Exhaustible(ExhaustibleColors {
                colors: p.colors,
                used: (p.used + 1) as usize,
            }),
        }
    }

    /// The error of a match that finds no marker.
    pub open spec fn exhausted(&self) -> HighlightError {
        match self {
            ColorPolicy::Exhaustible(p) => HighlightError::PaletteExhausted {
                match_index: p.used,
                palette_size: p.colors@.len() as usize,
            },
            ColorPolicy::Cycled(p) => HighlightError::PaletteExhausted {
                match_index: p.next,
                palette_size: p.colors@.len() as usize,
            },
            _ => HighlightError::PaletteExhausted { match_index: 0, palette_size: 0 },
        }
    }

    /// The policy after `k` markers were handed out.
    pub open spec fn advanced_by(&self, k: nat) -> ColorPolicy
        decreases k,
    {
        if k == 0 {
            *self
        } else {
            self.advanced_by((k - 1) as nat).advanced()
        }
    }

    pub open spec fn same_palette(&self, other: &ColorPolicy) -> bool {
        match (self, other) {
            (ColorPolicy::Single(a), ColorPolicy::Single(b)) => a.color == b.color,
            (ColorPolicy::Cycled(a), ColorPolicy::Cycled(b)) => a.colors@ == b.colors@ && a.next == b.next,
            (ColorPolicy::Exhaustible(a), ColorPolicy::Exhaustible(b)) => a.colors@ == b.colors@ && a.used == b.used,
            _ => false,
        }
    }

    /// Hands out the marker of the next match.
    pub fn next_color(&mut self) -> (r: Result<Color, HighlightError>)
        requires
            old(self).wf(),
        ensures
            final(self).wf(),
            match old(self).current() {
                Some(c) => r == Ok::<Color, HighlightError>(c) && final(self).same_palette(&old(self).advanced()),
                None => r == Err::<Color, HighlightError>(old(self).exhausted()) && final(self).same_palette(old(self)),
            },
    {
        match self {
            ColorPolicy::Single(p) => Ok(p.get_color()),
            ColorPolicy::Cycled(p) => {
                if p.colors.len() == 0 {
                    Err(HighlightError::PaletteExhausted { match_index: p.next, palette_size: 0 })
                } else {
                    Ok(p.get_color())
                }
            },
            ColorPolicy::Exhaustible(p) => p.get_color(),
        }
    }
}

/// A cyclic policy that has handed out nothing yet from `colors`.
pub open spec fn starts_cycled(p: ColorPolicy, colors: Seq<Color>) -> bool {
    match p {
        ColorPolicy::Cycled(c) => c.colors@ == colors && c.next == 0,
        _ => false,
    }
}

/// An exhaustible policy that has handed out nothing yet from `colors`.
pub open spec fn starts_exhaustible(p: ColorPolicy, colors: Seq<Color>) -> bool {
    match p {
        ColorPolicy::Exhaustible(c) => c.colors@ == colors && c.used == 0,
        _ => false,
    }
}

/// Two policies with the same palette and position hand out the same markers.
pub proof fn lemma_same_palette(a: ColorPolicy, b: ColorPolicy)
    requires
        a.same_palette(&b),
    ensures
        a.current() == b.current(),
        a.exhausted() == b.exhausted(),
        a.advanced().same_palette(&b.advanced()),
        b.same_palette(&a),
        a.wf() == b.wf(),
{
}

pub proof fn lemma_same_palette_trans(a: ColorPolicy, b: ColorPolicy, c: ColorPolicy)
    requires
        a.same_palette(&b),
        b.same_palette(&c),
    ensures
        a.same_palette(&c),
{
}

pub proof fn lemma_same_palette_refl(a: ColorPolicy)
    ensures
        a.same_palette(&a),
{
}

/// A policy that has a marker for every match, however many.
pub open spec fn never_exhausted(p: ColorPolicy) -> bool {
    forall|k: nat| (#[trigger] p.advanced_by(k)).current() is Some
}

/// A single marker is handed out for every match.
pub proof fn lemma_single_marker(p: ColorPolicy, k: nat)
    requires
        p is Single,
    ensures
        p.advanced_by(k) == p,
        p.advanced_by(k).current() == Some(p->Single_0.color),
    decreases k,
{
    if k > 0 {
        lemma_single_marker(p, (k - 1) as nat);
    }
}

/// A cyclic palette of `N` markers, started at its first, gives the `k`-th
/// match (counted from zero) marker `k mod N`.
pub proof fn lemma_cycled_marker(p: ColorPolicy, colors: Seq<Color>, k: nat)
    requires
        starts_cycled(p, colors),
        0 < colors.len() <= usize::MAX,
    ensures
        starts_cycled_at(p.advanced_by(k), colors, k % colors.len()),
        p.advanced_by(k).current() == Some(colors[(k % colors.len()) as int]),
    decreases k,
{
    let n = colors.len();
    if k > 0 {
        lemma_cycled_marker(p, colors, (k - 1) as nat);
        lemma_add_mod_noop((k - 1) as int, 1, n as int);
        let prev = ((k - 1) as nat) % n;
        if n > 1 {
            lemma_small_mod(1, n);
            assert(((prev + 1) as int) % (n as int) == (k as int) % (n as int));
        } else {
            assert((prev + 1) % 1 == 0);
            assert(k % 1 == 0);
        }
        assert(prev < n);
        assert(((prev + 1) as int) % (n as int) < n);
    } else {
        lemma_small_mod(0, n);
    }
}

/// A cyclic policy over `colors` whose next marker is at `next`.
pub open spec fn starts_cycled_at(p: ColorPolicy, colors: Seq<Color>, next: nat) -> bool {
    match p {
        ColorPolicy::Cycled(c) => c.colors@ == colors && c.next == next,
        _ => false,
    }
}

/// An exhaustible palette of `N` markers gives the `k`-th match (counted from
/// zero) marker `k` while `k < N`, and the match after the last marker finds
/// it exhausted: the error names that match and the palette's size.
pub proof fn lemma_exhaustible_marker(p: ColorPolicy, colors: Seq<Color>, k: nat)
    requires
        starts_exhaustible(p, colors),
        k <= colors.len(),
        colors.len() < usize::MAX,
    ensures
        k < colors.len() ==> p.advanced_by(k).current() == Some(colors[k as int]),
        k == colors.len() ==> p.advanced_by(k).current() is None && p.advanced_by(k).exhausted()
            == (HighlightError::PaletteExhausted {
            match_index: k as usize,
            palette_size: k as usize,
        }),
    decreases k,
{
    lemma_exhaustible_used(p, colors, k);
}

proof fn lemma_exhaustible_used(p: ColorPolicy, colors: Seq<Color>, k: nat)
    requires
        starts_exhaustible(p, colors),
        k <= colors.len(),
        colors.len() < usize::MAX,
    ensures
        match p.advanced_by(k) {
            ColorPolicy::Exhaustible(c) => c.colors@ == colors && c.used == k,
            _ => false,
        },
    decreases k,
{
    if k > 0 {
        lemma_exhaustible_used(p, colors, (k - 1) as nat);
    }
}

} // verus!
