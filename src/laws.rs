use vstd::prelude::*;
use crate::codegen::encoding;
use crate::document::Node;
use crate::palette::{
    ColorPolicy, HighlightError, starts_cycled, starts_exhaustible, lemma_cycled_marker,
    lemma_exhaustible_marker,
};
use crate::render::concat;
use crate::walk::{
    SegmentModel, Walk, segments_of, start, emit, enter, leave, is_target, walk, walk_node, texts,
    written, close_open, hits, all_some, lemma_walk_text, lemma_walk_untargeted,
    lemma_close_open_text, lemma_walk_count, lemma_walk_node_count,
};
use crate::highlighted;

verus! {

/// Whatever the targets and the policy, the texts of the segments, joined in
/// order, are the canonical encoding of the document: highlighting only cuts
/// the text, it never changes it.
pub proof fn law_segments_join_to_encoding(nodes: Seq<Node>, targets: Seq<usize>, policy: ColorPolicy, root: nat)
    requires
        segments_of(nodes, targets, policy, root) is Ok,
    ensures
        texts(segments_of(nodes, targets, policy, root)->Ok_0) == encoding(nodes, root),
{
    lemma_walk_text(nodes, targets, policy, root, start());
    let w = walk(nodes, targets, policy, root, start())->Ok_0;
    lemma_close_open_text(w);
    assert(written(start()) =~= Seq::<char>::empty());
    assert(Seq::<char>::empty() + encoding(nodes, root) =~= encoding(nodes, root));
}

/// With no targets and no remainder marker, the highlighted text is the
/// canonical encoding of the document, whatever the policy.
pub proof fn law_no_targets_gives_encoding(nodes: Seq<Node>, policy: ColorPolicy, root: nat, out: Seq<char>)
    requires
        highlighted(nodes, Seq::empty(), policy, root, None, out),
    ensures
        out == encoding(nodes, root),
{
    let e = encoding(nodes, root);
    lemma_walk_untargeted(nodes, Seq::empty(), policy, root, start());
    let w = emit(start(), e);
    assert(w.text =~= e);
    let segs = close_open(w);
    let pieces = choose|pieces: Seq<Seq<char>>|
        pieces.len() == segs.len() && (forall|i: int|
            0 <= i < segs.len() ==> crate::render::piece_of(#[trigger] segs[i], None, pieces[i])) && out
            == concat(pieces);
    if e.len() > 0 {
        assert(segs[0] == (e, None::<colored::Color>));
        assert(crate::render::piece_of(segs[0], None, pieces[0]));
        assert(pieces.drop_last() =~= Seq::<Seq<char>>::empty());
        assert(concat(Seq::<Seq<char>>::empty()) == Seq::<char>::empty());
        assert(concat(pieces) =~= concat(pieces.drop_last()) + pieces[0]);
        assert(concat(pieces) =~= pieces[0]);
    } else {
        assert(e =~= Seq::<char>::empty());
    }
}

/// With a cyclic palette of `N` markers, a target met after `k` earlier
/// matches (in the order the walk first visits nodes, parent before child)
/// is highlighted with marker `k mod N`.
pub proof fn law_cycled_marker_of_match(
    nodes: Seq<Node>,
    targets: Seq<usize>,
    policy: ColorPolicy,
    colors: Seq<colored::Color>,
    id: nat,
    w: Walk,
)
    requires
        starts_cycled(policy, colors),
        0 < colors.len() <= usize::MAX,
        is_target(targets, id),
    ensures
        walk(nodes, targets, policy, id, w) == (match walk_node(
            nodes,
            targets,
            policy,
            id,
            enter(w, colors[(w.matches % colors.len()) as int]),
        ) {
            Ok(w2) => Ok(leave(w2)),
            Err(e) => Err(e),
        }),
{
    lemma_cycled_marker(policy, colors, w.matches);
}

/// With an exhaustible palette of `N` markers, highlighting fails exactly
/// when the walk meets more than `N` matches, and then the error names match
/// `N` (counted from zero: the one after the last marker) and the palette
/// size `N`.
pub proof fn law_exhaustible_fails_iff_too_many_matches(
    nodes: Seq<Node>,
    targets: Seq<usize>,
    policy: ColorPolicy,
    colors: Seq<colored::Color>,
    root: nat,
)
    requires
        starts_exhaustible(policy, colors),
        colors.len() < usize::MAX,
    ensures
        segments_of(nodes, targets, policy, root) is Err <==> hits(nodes, targets, root) > colors.len(),
        segments_of(nodes, targets, policy, root) is Err ==> segments_of(nodes, targets, policy, root)
            == Err::<Seq<SegmentModel>, HighlightError>(
            HighlightError::PaletteExhausted {
                match_index: colors.len() as usize,
                palette_size: colors.len() as usize,
            },
        ),
{
    let n = colors.len();
    let h = hits(nodes, targets, root);
    lemma_walk_count(nodes, targets, policy, root, start());
    lemma_exhaustible_marker(policy, colors, n);
    match walk(nodes, targets, policy, root, start()) {
        Ok(w) => {
            if h > n {
                assert(policy.advanced_by(n).current() is Some);
            }
        },
        Err(e) => {
            let k = choose|k: nat|
                0 <= k < h && all_some(policy, 0, k) && (#[trigger] policy.advanced_by(k)).current() is None
                    && e == policy.advanced_by(k).exhausted();
            if k < n {
                lemma_exhaustible_marker(policy, colors, k);
            }
            if k > n {
                assert(policy.advanced_by(n).current() is Some);
            }
            assert(k == n);
        },
    }
}

/// A match nested in another ends with the text going on under the marker
/// that it had before the nested match began: the enclosing match's marker
/// resumes, with the enclosing matches as they were.
pub proof fn law_nested_match_resumes_outer_marker(
    nodes: Seq<Node>,
    targets: Seq<usize>,
    policy: ColorPolicy,
    id: nat,
    w: Walk,
)
    requires
        is_target(targets, id),
        w.stack.len() > 0,
        w.marker == Some(w.stack.last()),
        walk(nodes, targets, policy, id, w) is Ok,
    ensures
        walk(nodes, targets, policy, id, w)->Ok_0.marker == w.marker,
        walk(nodes, targets, policy, id, w)->Ok_0.stack == w.stack,
{
    let c = policy.advanced_by(w.matches).current()->Some_0;
    let we = enter(w, c);
    lemma_walk_node_count(nodes, targets, policy, id, we);
    assert(we.stack.drop_last() == w.stack);
}

/// Matching goes by node identity, not content: with only node `a`
/// targeted, any other node `b`, even one of equal content, is walked
/// without a segment of its own, while `a` is a match.
pub proof fn law_matching_is_by_identity(
    nodes: Seq<Node>,
    policy: ColorPolicy,
    a: usize,
    b: usize,
    w: Walk,
)
    requires
        a != b,
    ensures
        is_target(seq![a], a as nat),
        walk(nodes, seq![a], policy, b as nat, w) == walk_node(nodes, seq![a], policy, b as nat, w),
{
    assert(seq![a][0] == a);
}

} // verus!
