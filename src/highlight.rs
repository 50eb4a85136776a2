use vstd::prelude::*;
use colored::Color;
use crate::document::{Document, Node};
use crate::codegen::{clean, lemma_clean_concat, write_scalar, write_string, member_key};
use crate::palette::{
    ColorPolicy, CycledColors, HighlightError, SingleColor, starts_cycled, lemma_same_palette,
    lemma_same_palette_trans, lemma_same_palette_refl,
};
use crate::render::{all_clean, render, rendering_of};
use crate::walk::{
    SegmentModel, Walk, start, close_open, emit, enter, leave, is_target, walk, walk_node,
    walk_items, walk_members, lemma_items_prefix, lemma_items_err, lemma_members_prefix,
    lemma_members_err,
};

verus! {

/// A finished run of output text, plain (`None`) or highlighted.
#[derive(Debug, PartialEq, Eq)]
pub struct Segment {
    pub text: String,
    pub marker: Option<Color>,
}

impl Segment {
    pub open spec fn model(&self) -> SegmentModel {
        (self.text@, self.marker)
    }
}

pub open spec fn models(segs: Seq<Segment>) -> Seq<SegmentModel> {
    segs.map_values(|s: Segment| s.model())
}

/// No text of the walk holds an escape character.
pub open spec fn walk_clean(w: Walk) -> bool {
    clean(w.text) && forall|k: int| 0 <= k < w.done.len() ==> clean(#[trigger] w.done[k].0)
}

/// The marker of the innermost enclosing match, if any.
pub open spec fn innermost(stack: Seq<Color>) -> Option<Color> {
    if stack.len() > 0 {
        Some(stack.last())
    } else {
        None
    }
}

/// Encodes a document while cutting its text into plain and highlighted
/// segments: the encoding of each target node gets a segment of its own.
pub struct HighlightGenerator {
    code: Vec<Segment>,
    text: String,
    marker: Option<Color>,
    active_colors: Vec<Color>,
    slices: Vec<usize>,
    color: ColorPolicy,
    remainder_color: Option<Color>,
    matches: Ghost<nat>,
    policy: Ghost<ColorPolicy>,
}

impl HighlightGenerator {
    /// The builder's state as a walk.
    pub closed spec fn state(&self) -> Walk {
        Walk {
            done: models(self.code@),
            text: self.text@,
            marker: self.marker,
            stack: self.active_colors@,
            matches: self.matches@,
        }
    }

    pub closed spec fn spec_targets(&self) -> Seq<usize> {
        self.slices@
    }

    /// The policy as it was before the first match.
    pub closed spec fn spec_policy(&self) -> ColorPolicy {
        self.policy@
    }

    pub closed spec fn spec_remainder(&self) -> Option<Color> {
        self.remainder_color
    }

    pub closed spec fn wf(&self) -> bool {
        &&& self.color.wf()
        &&& self.color.same_palette(&self.policy@.advanced_by(self.matches@))
        &&& walk_clean(self.state())
        &&& self.marker == innermost(self.active_colors@)
    }

    pub open spec fn same_setup(&self, other: &Self) -> bool {
        &&& self.spec_targets() == other.spec_targets()
        &&& self.spec_policy() == other.spec_policy()
        &&& self.spec_remainder() == other.spec_remainder()
    }

    /// A generator that highlights every match in red.
    pub fn new() -> (g: HighlightGenerator)
        ensures
            g.wf(),
            g.state() == start(),
            g.spec_targets() == Seq::<usize>::empty(),
            g.spec_policy() == ColorPolicy::Single(SingleColor { color: Color::Red }),
            g.spec_remainder() == None::<Color>,
    {
        HighlightGenerator::with_policy(ColorPolicy::Single(SingleColor::new()), None)
    }

    /// A generator that cycles through `colors`, or highlights in red where
    /// none are given, and paints plain text with `remainder_color`.
    pub fn new_with_colors(colors: Option<Vec<Color>>, remainder_color: Option<Color>) -> (g: HighlightGenerator)
        ensures
            g.wf(),
            g.state() == start(),
            g.spec_targets() == Seq::<usize>::empty(),
            g.spec_remainder() == remainder_color,
            match colors {
                Some(cs) => starts_cycled(g.spec_policy(), cs@),
                None => g.spec_policy() == ColorPolicy::Single(SingleColor { color: Color::Red }),
            },
    {
        let policy = match colors {
            Some(cs) => ColorPolicy::Cycled(CycledColors::new(cs)),
            None => ColorPolicy::Single(SingleColor::new()),
        };
        HighlightGenerator::with_policy(policy, remainder_color)
    }

    pub fn with_policy(policy: ColorPolicy, remainder_color: Option<Color>) -> (g: HighlightGenerator)
        requires
            policy.wf(),
        ensures
            g.wf(),
            g.state() == start(),
            g.spec_targets() == Seq::<usize>::empty(),
            g.spec_policy() == policy,
            g.spec_remainder() == remainder_color,
    {
        HighlightGenerator::with_capacity(0, policy, remainder_color)
    }

    /// As `with_policy`, with room reserved for `capacity` segments.
    pub fn with_capacity(capacity: usize, policy: ColorPolicy, remainder_color: Option<Color>) -> (g: HighlightGenerator)
        requires
            policy.wf(),
        ensures
            g.wf(),
            g.state() == start(),
            g.spec_targets() == Seq::<usize>::empty(),
            g.spec_policy() == policy,
            g.spec_remainder() == remainder_color,
    {
        let ghost p = policy;
        let g = HighlightGenerator {
            code: Vec::with_capacity(capacity),
            text: String::new(),
            marker: None,
            active_colors: Vec::new(),
            slices: Vec::new(),
            color: policy,
            remainder_color,
            matches: Ghost(0),
            policy: Ghost(p),
        };
        proof {
            lemma_same_palette_refl(p);
            assert(models(g.code@) =~= Seq::<SegmentModel>::empty());
            assert(g.active_colors@ =~= Seq::<Color>::empty());
        }
        g
    }

    /// The target node ids.
    pub fn targets(&self) -> (r: &Vec<usize>)
        ensures
            r@ == self.spec_targets(),
    {
        &self.slices
    }

    fn matches_target(&self, id: usize) -> (r: bool)
        ensures
            r == is_target(self.spec_targets(), id as nat),
    {
        let mut k: usize = 0;
        while k < self.slices.len()
            invariant
                k <= self.slices@.len(),
                forall|j: int| 0 <= j < k ==> self.slices@[j] != id,
            decreases self.slices@.len() - k,
        {
            if self.slices[k] == id {
                return true;
            }
            k = k + 1;
        }
        false
    }

    fn write_piece(&mut self, s: &str)
        requires
            old(self).wf(),
            clean(s@),
        ensures
            final(self).wf(),
            final(self).same_setup(old(self)),
            final(self).state() == emit(old(self).state(), s@),
    {
        self.text.append(s);
        proof {
            lemma_clean_concat(old(self).text@, s@);
        }
    }

    /// Closes the open segment; one without text is dropped.
    fn close_segment(&mut self)
        requires
            old(self).wf(),
        ensures
            final(self).wf(),
            final(self).same_setup(old(self)),
            final(self).state() == (Walk {
                done: close_open(old(self).state()),
                text: Seq::empty(),
                ..old(self).state()
            }),
    {
        if !self.text.as_str().is_empty() {
            let mut t = String::new();
            std::mem::swap(&mut t, &mut self.text);
            self.code.push(Segment { text: t, marker: self.marker });
            proof {
                assert(models(self.code@) =~= models(old(self).code@).push((t@, self.marker)));
            }
        }
        assert(self.text@ =~= Seq::<char>::empty());
    }

    /// Opens the segment of a match, with the next marker of the policy.
    fn enter_match(&mut self) -> (r: Result<(), HighlightError>)
        requires
            old(self).wf(),
        ensures
            final(self).same_setup(old(self)),
            match old(self).spec_policy().advanced_by(old(self).state().matches).current() {
                None => r == Err::<(), HighlightError>(
                    old(self).spec_policy().advanced_by(old(self).state().matches).exhausted(),
                ),
                Some(c) => r is Ok && final(self).wf() && final(self).state() == enter(old(self).state(), c),
            },
    {
        self.close_segment();
        let ghost closed = *self;
        let ghost p = self.policy@.advanced_by(self.matches@);
        proof {
            lemma_same_palette(self.color, p);
        }
        let c = match self.color.next_color() {
            Ok(c) => c,
            Err(e) => {
                return Err(e);
            },
        };
        proof {
            lemma_same_palette(closed.color, p);
            lemma_same_palette_trans(self.color, closed.color.advanced(), p.advanced());
            assert(p.advanced() == self.policy@.advanced_by(self.matches@ + 1));
        }
        self.marker = Some(c);
        self.active_colors.push(c);
        self.matches = Ghost(self.matches@ + 1);
        assert(self.state() =~= enter(old(self).state(), c));
        Ok(())
    }

    fn leave_match(&mut self)
        requires
            old(self).wf(),
        ensures
            final(self).wf(),
            final(self).same_setup(old(self)),
            final(self).state() == leave(old(self).state()),
    {
        self.close_segment();
        let _ = self.active_colors.pop();
        let n = self.active_colors.len();
        if n > 0 {
            self.marker = Some(self.active_colors[n - 1]);
        } else {
            self.marker = None;
        }
        assert(self.state() =~= leave(old(self).state()));
    }

    /// Appends the encoding of node `id`, in its own segment where it is a
    /// target.
    pub fn write_json(&mut self, doc: &Document, id: usize) -> (r: Result<(), HighlightError>)
        requires
            old(self).wf(),
            doc.wf(),
            id < doc@.len(),
        ensures
            final(self).same_setup(old(self)),
            match walk(doc@, old(self).spec_targets(), old(self).spec_policy(), id as nat, old(self).state()) {
                Ok(w) => r is Ok && final(self).wf() && final(self).state() == w,
                Err(e) => r == Err::<(), HighlightError>(e),
            },
        decreases id, 1nat,
    {
        let hit = self.matches_target(id);
        if hit {
            match self.enter_match() {
                Ok(()) => {},
                Err(e) => {
                    return Err(e);
                },
            }
        }
        match self.write_node(doc, id) {
            Ok(()) => {},
            Err(e) => {
                return Err(e);
            },
        }
        if hit {
            self.leave_match();
        }
        Ok(())
    }

    fn write_node(&mut self, doc: &Document, id: usize) -> (r: Result<(), HighlightError>)
        requires
            old(self).wf(),
            doc.wf(),
            id < doc@.len(),
        ensures
            final(self).same_setup(old(self)),
            match walk_node(doc@, old(self).spec_targets(), old(self).spec_policy(), id as nat, old(self).state()) {
                Ok(w) => r is Ok && final(self).wf() && final(self).state() == w,
                Err(e) => r == Err::<(), HighlightError>(e),
            },
        decreases id, 0nat,
    {
        let node = doc.node(id);
        let ghost targets = self.spec_targets();
        let ghost policy = self.spec_policy();
        proof {
            reveal_strlit("[");
            reveal_strlit("]");
            reveal_strlit("{");
            reveal_strlit("}");
            assert("["@ =~= seq!['[']);
            assert("]"@ =~= seq![']']);
            assert("{"@ =~= seq!['{']);
            assert("}"@ =~= seq!['}']);
            assert(crate::document::children_below(doc@[id as int], id as nat));
        }
        match node {
            Node::Array(items) => {
                self.write_piece("[");
                let ghost w0 = self.state();
                assert(forall|k: int| 0 <= k < items@.len() ==> (items@[k] as nat) < id as nat);
                let mut i: usize = 0;
                while i < items.len()
                    invariant
                        doc.wf(),
                        id < doc@.len(),
                        doc@[id as int] == Node::Array(*items),
                        forall|k: int| 0 <= k < items@.len() ==> (items@[k] as nat) < id as nat,
                        i <= items@.len(),
                        self.wf(),
                        self.same_setup(old(self)),
                        targets == self.spec_targets(),
                        policy == self.spec_policy(),
                        w0 == emit(old(self).state(), seq!['[']),
                        walk_items(doc@, targets, policy, items@.subrange(0, i as int), id as nat, w0)
                            == Ok::<Walk, HighlightError>(self.state()),
                    decreases items@.len() - i,
                {
                    proof {
                        reveal_strlit(",");
                        assert(","@ =~= seq![',']);
                        lemma_items_prefix(doc@, targets, policy, items@, id as nat, w0, i as int);
                    }
                    if i > 0 {
                        self.write_piece(",");
                    }
                    assert((items@[i as int] as nat) < id as nat);
                    match self.write_json(doc, items[i]) {
                        Ok(()) => {},
                        Err(e) => {
                            proof {
                                lemma_items_err(doc@, targets, policy, items@, id as nat, w0, i + 1);
                            }
                            return Err(e);
                        },
                    }
                    i = i + 1;
                }
                assert(items@.subrange(0, items@.len() as int) == items@);
                self.write_piece("]");
            },
            Node::Object(members) => {
                self.write_piece("{");
                let ghost w0 = self.state();
                assert(forall|k: int| 0 <= k < members@.len() ==> (members@[k].1 as nat) < id as nat);
                let mut i: usize = 0;
                while i < members.len()
                    invariant
                        doc.wf(),
                        id < doc@.len(),
                        doc@[id as int] == Node::Object(*members),
                        forall|k: int| 0 <= k < members@.len() ==> (members@[k].1 as nat) < id as nat,
                        i <= members@.len(),
                        self.wf(),
                        self.same_setup(old(self)),
                        targets == self.spec_targets(),
                        policy == self.spec_policy(),
                        w0 == emit(old(self).state(), seq!['{']),
                        walk_members(doc@, targets, policy, members@.subrange(0, i as int), id as nat, w0)
                            == Ok::<Walk, HighlightError>(self.state()),
                    decreases members@.len() - i,
                {
                    proof {
                        reveal_strlit(",");
                        assert(","@ =~= seq![',']);
                        lemma_members_prefix(doc@, targets, policy, members@, id as nat, w0, i as int);
                    }
                    if i > 0 {
                        self.write_piece(",");
                    }
                    self.write_key(members[i].0.as_str());
                    assert((members@[i as int].1 as nat) < id as nat);
                    match self.write_json(doc, members[i].1) {
                        Ok(()) => {},
                        Err(e) => {
                            proof {
                                lemma_members_err(doc@, targets, policy, members@, id as nat, w0, i + 1);
                            }
                            return Err(e);
                        },
                    }
                    i = i + 1;
                }
                assert(members@.subrange(0, members@.len() as int) == members@);
                self.write_piece("}");
            },
            _ => {
                write_scalar(&mut self.text, node);
                assert(self.state() == emit(old(self).state(), crate::codegen::scalar_encoding(*node)));
            },
        }
        Ok(())
    }

    fn write_key(&mut self, key: &str)
        requires
            old(self).wf(),
        ensures
            final(self).wf(),
            final(self).same_setup(old(self)),
            final(self).state() == emit(old(self).state(), member_key(key@)),
    {
        write_string(&mut self.text, key);
        proof {
            reveal_strlit(":");
        }
        self.write_piece(":");
        assert(self.state().text =~= old(self).state().text + member_key(key@));
    }

    /// Adds `slices` to the targets (leaving `slices` empty) and appends the
    /// encoding of node `root`.
    pub fn write_json_with_highlight(
        &mut self,
        doc: &Document,
        root: usize,
        slices: &mut Vec<usize>,
    ) -> (r: Result<(), HighlightError>)
        requires
            old(self).wf(),
            doc.wf(),
            root < doc@.len(),
        ensures
            final(slices)@ == Seq::<usize>::empty(),
            final(self).spec_targets() == old(self).spec_targets() + old(slices)@,
            final(self).spec_policy() == old(self).spec_policy(),
            final(self).spec_remainder() == old(self).spec_remainder(),
            match walk(
                doc@,
                old(self).spec_targets() + old(slices)@,
                old(self).spec_policy(),
                root as nat,
                old(self).state(),
            ) {
                Ok(w) => r is Ok && final(self).wf() && final(self).state() == w,
                Err(e) => r == Err::<(), HighlightError>(e),
            },
    {
        self.slices.append(slices);
        self.write_json(doc, root)
    }

    /// The segments written so far, the open one closed.
    pub fn segments(self) -> (r: Vec<Segment>)
        requires
            self.wf(),
        ensures
            models(r@) == close_open(self.state()),
            all_clean(models(r@)),
    {
        let mut g = self;
        g.close_segment();
        g.code
    }

    /// Renders the segments written so far: each highlighted one painted with
    /// its marker, each plain one with the remainder marker where one is set.
    pub fn consume(&mut self) -> (r: String)
        requires
            old(self).wf(),
        ensures
            rendering_of(close_open(old(self).state()), old(self).spec_remainder(), r@),
            final(self).wf(),
            final(self).same_setup(old(self)),
            final(self).state() == (Walk {
                done: close_open(old(self).state()),
                text: Seq::empty(),
                ..old(self).state()
            }),
    {
        self.close_segment();
        render(&self.code, self.remainder_color)
    }

    /// Adds `slices` to the targets, leaving `slices` empty.
    pub fn add_targets(&mut self, slices: &mut Vec<usize>)
        requires
            old(self).wf(),
        ensures
            final(self).wf(),
            final(slices)@ == Seq::<usize>::empty(),
            final(self).spec_targets() == old(self).spec_targets() + old(slices)@,
            final(self).spec_policy() == old(self).spec_policy(),
            final(self).spec_remainder() == old(self).spec_remainder(),
            final(self).state() == old(self).state(),
    {
        self.slices.append(slices);
    }
}

} // verus!
