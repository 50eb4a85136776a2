use vstd::prelude::*;
use colored::Color;
use crate::document::Node;
use crate::codegen::{scalar_encoding, member_key, encoding, items_encoding, members_encoding};
use crate::palette::{ColorPolicy, HighlightError, never_exhausted};

verus! {

/// A segment of output text: plain (`None`) or highlighted with a marker.
pub type SegmentModel = (Seq<char>, Option<Color>);

/// The state of the segment builder part way through a walk: the finished
/// segments, the text and marker of the open one, the markers of the
/// enclosing matches (innermost last), and how many matches were met.
pub struct Walk {
    pub done: Seq<SegmentModel>,
    pub text: Seq<char>,
    pub marker: Option<Color>,
    pub stack: Seq<Color>,
    pub matches: nat,
}

pub open spec fn start() -> Walk {
    Walk { done: Seq::empty(), text: Seq::empty(), marker: None, stack: Seq::empty(), matches: 0 }
}

/// The finished segments with the open one closed; a segment without text
/// is left out.
pub open spec fn close_open(w: Walk) -> Seq<SegmentModel> {
    if w.text.len() > 0 {
        w.done.push((w.text, w.marker))
    } else {
        w.done
    }
}

pub open spec fn emit(w: Walk, s: Seq<char>) -> Walk {
    Walk { text: w.text + s, ..w }
}

/// Entering a matched node: its text starts a segment with its own marker.
pub open spec fn enter(w: Walk, c: Color) -> Walk {
    Walk {
        done: close_open(w),
        text: Seq::empty(),
        marker: Some(c),
        stack: w.stack.push(c),
        matches: w.matches + 1,
    }
}

/// Leaving a matched node: the text after it goes on with the marker of the
/// enclosing match, or plain where there is none.
pub open spec fn leave(w: Walk) -> Walk {
    let stack = if w.stack.len() > 0 { w.stack.drop_last() } else { w.stack };
    Walk {
        done: close_open(w),
        text: Seq::empty(),
        marker: if stack.len() > 0 { Some(stack.last()) } else { None },
        stack,
        matches: w.matches,
    }
}

pub open spec fn is_target(targets: Seq<usize>, id: nat) -> bool {
    exists|k: int| 0 <= k < targets.len() && targets[k] as nat == id
}

/// The walk over node `id`: a target takes the marker that the policy hands
/// out for the match of its number, in the order the walk meets them.
pub open spec fn walk(
    nodes: Seq<Node>,
    targets: Seq<usize>,
    policy: ColorPolicy,
    id: nat,
    w: Walk,
) -> Result<Walk, HighlightError>
    decreases id, 2nat, 0nat,
{
    if is_target(targets, id) {
        let p = policy.advanced_by(w.matches);
        match p.current() {
            None => Err(p.exhausted()),
            Some(c) => match walk_node(nodes, targets, policy, id, enter(w, c)) {
                Ok(w2) => Ok(leave(w2)),
                Err(e) => Err(e),
            },
        }
    } else {
        walk_node(nodes, targets, policy, id, w)
    }
}

pub open spec fn walk_node(
    nodes: Seq<Node>,
    targets: Seq<usize>,
    policy: ColorPolicy,
    id: nat,
    w: Walk,
) -> Result<Walk, HighlightError>
    decreases id, 1nat, 0nat,
{
    if id < nodes.len() {
        match nodes[id as int] {
            Node::Array(items) => match walk_items(nodes, targets, policy, items@, id, emit(w, seq!['['])) {
                Ok(w2) => Ok(emit(w2, seq![']'])),
                Err(e) => Err(e),
            },
            Node::Object(members) => match walk_members(nodes, targets, policy, members@, id, emit(w, seq!['{'])) {
                Ok(w2) => Ok(emit(w2, seq!['}'])),
                Err(e) => Err(e),
            },
            _ => Ok(emit(w, scalar_encoding(nodes[id as int]))),
        }
    } else {
        Ok(w)
    }
}

pub open spec fn walk_items(
    nodes: Seq<Node>,
    targets: Seq<usize>,
    policy: ColorPolicy,
    items: Seq<usize>,
    bound: nat,
    w: Walk,
) -> Result<Walk, HighlightError>
    decreases bound, 0nat, items.len(),
{
    if items.len() == 0 {
        Ok(w)
    } else {
        match walk_items(nodes, targets, policy, items.drop_last(), bound, w) {
            Ok(w1) => {
                let w2 = if items.len() > 1 { emit(w1, seq![',']) } else { w1 };
                if (items.last() as nat) < bound {
                    walk(nodes, targets, policy, items.last() as nat, w2)
                } else {
                    Ok(w2)
                }
            },
            Err(e) => Err(e),
        }
    }
}

pub open spec fn walk_members(
    nodes: Seq<Node>,
    targets: Seq<usize>,
    policy: ColorPolicy,
    members: Seq<(String, usize)>,
    bound: nat,
    w: Walk,
) -> Result<Walk, HighlightError>
    decreases bound, 0nat, members.len(),
{
    if members.len() == 0 {
        Ok(w)
    } else {
        match walk_members(nodes, targets, policy, members.drop_last(), bound, w) {
            Ok(w1) => {
                let m = members.last();
                let w2 = emit(
                    if members.len() > 1 { emit(w1, seq![',']) } else { w1 },
                    member_key(m.0@),
                );
                if (m.1 as nat) < bound {
                    walk(nodes, targets, policy, m.1 as nat, w2)
                } else {
                    Ok(w2)
                }
            },
            Err(e) => Err(e),
        }
    }
}

/// The segments of the whole document rooted at `root`.
pub open spec fn segments_of(
    nodes: Seq<Node>,
    targets: Seq<usize>,
    policy: ColorPolicy,
    root: nat,
) -> Result<Seq<SegmentModel>, HighlightError> {
    match walk(nodes, targets, policy, root, start()) {
        Ok(w) => Ok(close_open(w)),
        Err(e) => Err(e),
    }
}

pub proof fn lemma_items_prefix(
    nodes: Seq<Node>,
    targets: Seq<usize>,
    policy: ColorPolicy,
    items: Seq<usize>,
    bound: nat,
    w: Walk,
    i: int,
)
    requires
        0 <= i < items.len(),
    ensures
        walk_items(nodes, targets, policy, items.subrange(0, i + 1), bound, w) == (match walk_items(
            nodes,
            targets,
            policy,
            items.subrange(0, i),
            bound,
            w,
        ) {
            Ok(w1) => {
                let w2 = if i > 0 { emit(w1, seq![',']) } else { w1 };
                if (items[i] as nat) < bound {
                    walk(nodes, targets, policy, items[i] as nat, w2)
                } else {
                    Ok(w2)
                }
            },
            Err(e) => Err(e),
        }),
{
    assert(items.subrange(0, i + 1).drop_last() == items.subrange(0, i));
}

pub proof fn lemma_items_err(
    nodes: Seq<Node>,
    targets: Seq<usize>,
    policy: ColorPolicy,
    items: Seq<usize>,
    bound: nat,
    w: Walk,
    k: int,
)
    requires
        0 <= k <= items.len(),
        walk_items(nodes, targets, policy, items.subrange(0, k), bound, w) is Err,
    ensures
        walk_items(nodes, targets, policy, items, bound, w) == walk_items(
            nodes,
            targets,
            policy,
            items.subrange(0, k),
            bound,
            w,
        ),
    decreases items.len() - k,
{
    if k < items.len() {
        lemma_items_prefix(nodes, targets, policy, items, bound, w, k);
        lemma_items_err(nodes, targets, policy, items, bound, w, k + 1);
    } else {
        assert(items.subrange(0, k) == items);
    }
}

pub proof fn lemma_members_prefix(
    nodes: Seq<Node>,
    targets: Seq<usize>,
    policy: ColorPolicy,
    members: Seq<(String, usize)>,
    bound: nat,
    w: Walk,
    i: int,
)
    requires
        0 <= i < members.len(),
    ensures
        walk_members(nodes, targets, policy, members.subrange(0, i + 1), bound, w) == (match walk_members(
            nodes,
            targets,
            policy,
            members.subrange(0, i),
            bound,
            w,
        ) {
            Ok(w1) => {
                let w2 = emit(if i > 0 { emit(w1, seq![',']) } else { w1 }, member_key(members[i].0@));
                if (members[i].1 as nat) < bound {
                    walk(nodes, targets, policy, members[i].1 as nat, w2)
                } else {
                    Ok(w2)
                }
            },
            Err(e) => Err(e),
        }),
{
    assert(members.subrange(0, i + 1).drop_last() == members.subrange(0, i));
}

pub proof fn lemma_members_err(
    nodes: Seq<Node>,
    targets: Seq<usize>,
    policy: ColorPolicy,
    members: Seq<(String, usize)>,
    bound: nat,
    w: Walk,
    k: int,
)
    requires
        0 <= k <= members.len(),
        walk_members(nodes, targets, policy, members.subrange(0, k), bound, w) is Err,
    ensures
        walk_members(nodes, targets, policy, members, bound, w) == walk_members(
            nodes,
            targets,
            policy,
            members.subrange(0, k),
            bound,
            w,
        ),
    decreases members.len() - k,
{
    if k < members.len() {
        lemma_members_prefix(nodes, targets, policy, members, bound, w, k);
        lemma_members_err(nodes, targets, policy, members, bound, w, k + 1);
    } else {
        assert(members.subrange(0, k) == members);
    }
}

/// The text of the segments, in order, markers aside.
pub open spec fn texts(segs: Seq<SegmentModel>) -> Seq<char>
    decreases segs.len(),
{
    if segs.len() == 0 {
        Seq::empty()
    } else {
        texts(segs.drop_last()) + segs.last().0
    }
}

/// All the text a walk has written, finished segments and open one.
pub open spec fn written(w: Walk) -> Seq<char> {
    texts(w.done) + w.text
}

pub proof fn lemma_close_open_text(w: Walk)
    ensures
        texts(close_open(w)) == written(w),
{
    if w.text.len() > 0 {
        assert(w.done.push((w.text, w.marker)).drop_last() == w.done);
    } else {
        assert(w.text =~= Seq::<char>::empty());
        assert(texts(w.done) + w.text =~= texts(w.done));
    }
}

/// A walk writes exactly the encoding of the node, and never fails where the
/// policy has a marker for every match.
pub proof fn lemma_walk_text(nodes: Seq<Node>, targets: Seq<usize>, policy: ColorPolicy, id: nat, w: Walk)
    ensures
        never_exhausted(policy) ==> walk(nodes, targets, policy, id, w) is Ok,
        match walk(nodes, targets, policy, id, w) {
            Ok(w2) => written(w2) == written(w) + encoding(nodes, id),
            Err(_) => true,
        },
    decreases id, 2nat, 0nat,
{
    if is_target(targets, id) {
        let p = policy.advanced_by(w.matches);
        if never_exhausted(policy) {
            assert(p.current() is Some);
        }
        match p.current() {
            Some(c) => {
                let we = enter(w, c);
                lemma_close_open_text(w);
                assert(written(we) =~= written(w));
                lemma_walk_node_text(nodes, targets, policy, id, we);
                match walk_node(nodes, targets, policy, id, we) {
                    Ok(w2) => {
                        lemma_close_open_text(w2);
                        assert(written(leave(w2)) =~= written(w2));
                    },
                    Err(_) => {},
                }
            },
            None => {},
        }
    } else {
        lemma_walk_node_text(nodes, targets, policy, id, w);
    }
}

pub proof fn lemma_walk_node_text(nodes: Seq<Node>, targets: Seq<usize>, policy: ColorPolicy, id: nat, w: Walk)
    ensures
        never_exhausted(policy) ==> walk_node(nodes, targets, policy, id, w) is Ok,
        match walk_node(nodes, targets, policy, id, w) {
            Ok(w2) => written(w2) == written(w) + encoding(nodes, id),
            Err(_) => true,
        },
    decreases id, 1nat, 0nat,
{
    if id < nodes.len() {
        match nodes[id as int] {
            Node::Array(items) => {
                let w1 = emit(w, seq!['[']);
                lemma_items_text(nodes, targets, policy, items@, id, w1);
                match walk_items(nodes, targets, policy, items@, id, w1) {
                    Ok(w2) => {
                        assert(written(w1) =~= written(w) + seq!['[']);
                        assert(written(emit(w2, seq![']'])) =~= written(w2) + seq![']']);
                        assert(written(emit(w2, seq![']'])) =~= written(w) + encoding(nodes, id));
                    },
                    Err(_) => {},
                }
            },
            Node::Object(members) => {
                let w1 = emit(w, seq!['{']);
                lemma_members_text(nodes, targets, policy, members@, id, w1);
                match walk_members(nodes, targets, policy, members@, id, w1) {
                    Ok(w2) => {
                        assert(written(w1) =~= written(w) + seq!['{']);
                        assert(written(emit(w2, seq!['}'])) =~= written(w2) + seq!['}']);
                        assert(written(emit(w2, seq!['}'])) =~= written(w) + encoding(nodes, id));
                    },
                    Err(_) => {},
                }
            },
            _ => {
                assert(written(emit(w, scalar_encoding(nodes[id as int]))) =~= written(w) + encoding(nodes, id));
            },
        }
    } else {
        assert(written(w) + encoding(nodes, id) =~= written(w));
    }
}

pub proof fn lemma_items_text(
    nodes: Seq<Node>,
    targets: Seq<usize>,
    policy: ColorPolicy,
    items: Seq<usize>,
    bound: nat,
    w: Walk,
)
    ensures
        never_exhausted(policy) ==> walk_items(nodes, targets, policy, items, bound, w) is Ok,
        match walk_items(nodes, targets, policy, items, bound, w) {
            Ok(w2) => written(w2) == written(w) + items_encoding(nodes, items, bound),
            Err(_) => true,
        },
    decreases bound, 0nat, items.len(),
{
    if items.len() == 0 {
        assert(written(w) + items_encoding(nodes, items, bound) =~= written(w));
    } else {
        lemma_items_text(nodes, targets, policy, items.drop_last(), bound, w);
        match walk_items(nodes, targets, policy, items.drop_last(), bound, w) {
            Ok(w1) => {
                let sep = if items.len() > 1 { seq![','] } else { Seq::<char>::empty() };
                let w2 = if items.len() > 1 { emit(w1, seq![',']) } else { w1 };
                assert(written(w2) =~= written(w1) + sep);
                if (items.last() as nat) < bound {
                    lemma_walk_text(nodes, targets, policy, items.last() as nat, w2);
                    match walk(nodes, targets, policy, items.last() as nat, w2) {
                        Ok(w3) => {
                            assert(written(w3) =~= written(w) + items_encoding(nodes, items, bound));
                        },
                        Err(_) => {},
                    }
                } else {
                    assert(written(w2) =~= written(w) + items_encoding(nodes, items, bound));
                }
            },
            Err(_) => {},
        }
    }
}

pub proof fn lemma_members_text(
    nodes: Seq<Node>,
    targets: Seq<usize>,
    policy: ColorPolicy,
    members: Seq<(String, usize)>,
    bound: nat,
    w: Walk,
)
    ensures
        never_exhausted(policy) ==> walk_members(nodes, targets, policy, members, bound, w) is Ok,
        match walk_members(nodes, targets, policy, members, bound, w) {
            Ok(w2) => written(w2) == written(w) + members_encoding(nodes, members, bound),
            Err(_) => true,
        },
    decreases bound, 0nat, members.len(),
{
    if members.len() == 0 {
        assert(written(w) + members_encoding(nodes, members, bound) =~= written(w));
    } else {
        lemma_members_text(nodes, targets, policy, members.drop_last(), bound, w);
        match walk_members(nodes, targets, policy, members.drop_last(), bound, w) {
            Ok(w1) => {
                let m = members.last();
                let sep = if members.len() > 1 { seq![','] } else { Seq::<char>::empty() };
                let w2 = emit(if members.len() > 1 { emit(w1, seq![',']) } else { w1 }, member_key(m.0@));
                assert(written(w2) =~= written(w1) + sep + member_key(m.0@));
                if (m.1 as nat) < bound {
                    lemma_walk_text(nodes, targets, policy, m.1 as nat, w2);
                    match walk(nodes, targets, policy, m.1 as nat, w2) {
                        Ok(w3) => {
                            assert(written(w3) =~= written(w) + members_encoding(nodes, members, bound));
                        },
                        Err(_) => {},
                    }
                } else {
                    assert(written(w2) =~= written(w) + members_encoding(nodes, members, bound));
                }
            },
            Err(_) => {},
        }
    }
}

pub proof fn lemma_emit_emit(w: Walk, a: Seq<char>, b: Seq<char>)
    ensures
        emit(emit(w, a), b) == emit(w, a + b),
{
    assert(emit(emit(w, a), b).text =~= emit(w, a + b).text);
}

/// Without targets a walk only appends the node's encoding to the open
/// segment.
pub proof fn lemma_walk_untargeted(nodes: Seq<Node>, targets: Seq<usize>, policy: ColorPolicy, id: nat, w: Walk)
    requires
        targets.len() == 0,
    ensures
        walk(nodes, targets, policy, id, w) == Ok::<Walk, HighlightError>(emit(w, encoding(nodes, id))),
    decreases id, 2nat, 0nat,
{
    lemma_walk_node_untargeted(nodes, targets, policy, id, w);
}

pub proof fn lemma_walk_node_untargeted(nodes: Seq<Node>, targets: Seq<usize>, policy: ColorPolicy, id: nat, w: Walk)
    requires
        targets.len() == 0,
    ensures
        walk_node(nodes, targets, policy, id, w) == Ok::<Walk, HighlightError>(emit(w, encoding(nodes, id))),
    decreases id, 1nat, 0nat,
{
    if id < nodes.len() {
        match nodes[id as int] {
            Node::Array(items) => {
                let w1 = emit(w, seq!['[']);
                lemma_items_untargeted(nodes, targets, policy, items@, id, w1);
                let e = items_encoding(nodes, items@, id);
                lemma_emit_emit(w, seq!['['], e);
                lemma_emit_emit(w, seq!['['] + e, seq![']']);
            },
            Node::Object(members) => {
                let w1 = emit(w, seq!['{']);
                lemma_members_untargeted(nodes, targets, policy, members@, id, w1);
                let e = members_encoding(nodes, members@, id);
                lemma_emit_emit(w, seq!['{'], e);
                lemma_emit_emit(w, seq!['{'] + e, seq!['}']);
            },
            _ => {},
        }
    } else {
        assert(emit(w, encoding(nodes, id)).text =~= w.text);
    }
}

pub proof fn lemma_items_untargeted(
    nodes: Seq<Node>,
    targets: Seq<usize>,
    policy: ColorPolicy,
    items: Seq<usize>,
    bound: nat,
    w: Walk,
)
    requires
        targets.len() == 0,
    ensures
        walk_items(nodes, targets, policy, items, bound, w) == Ok::<Walk, HighlightError>(
            emit(w, items_encoding(nodes, items, bound)),
        ),
    decreases bound, 0nat, items.len(),
{
    if items.len() == 0 {
        assert(emit(w, items_encoding(nodes, items, bound)).text =~= w.text);
    } else {
        lemma_items_untargeted(nodes, targets, policy, items.drop_last(), bound, w);
        let p = items_encoding(nodes, items.drop_last(), bound);
        let sep = if items.len() > 1 { seq![','] } else { Seq::<char>::empty() };
        let w1 = emit(w, p);
        let w2 = if items.len() > 1 { emit(w1, seq![',']) } else { w1 };
        lemma_emit_emit(w, p, sep);
        assert(w2.text =~= emit(w, p + sep).text);
        if (items.last() as nat) < bound {
            lemma_walk_untargeted(nodes, targets, policy, items.last() as nat, w2);
            lemma_emit_emit(w, p + sep, encoding(nodes, items.last() as nat));
        }
    }
}

pub proof fn lemma_members_untargeted(
    nodes: Seq<Node>,
    targets: Seq<usize>,
    policy: ColorPolicy,
    members: Seq<(String, usize)>,
    bound: nat,
    w: Walk,
)
    requires
        targets.len() == 0,
    ensures
        walk_members(nodes, targets, policy, members, bound, w) == Ok::<Walk, HighlightError>(
            emit(w, members_encoding(nodes, members, bound)),
        ),
    decreases bound, 0nat, members.len(),
{
    if members.len() == 0 {
        assert(emit(w, members_encoding(nodes, members, bound)).text =~= w.text);
    } else {
        lemma_members_untargeted(nodes, targets, policy, members.drop_last(), bound, w);
        let m = members.last();
        let p = members_encoding(nodes, members.drop_last(), bound);
        let sep = if members.len() > 1 { seq![','] } else { Seq::<char>::empty() };
        let w1 = emit(w, p);
        let w2 = emit(if members.len() > 1 { emit(w1, seq![',']) } else { w1 }, member_key(m.0@));
        let q = p + sep + member_key(m.0@);
        assert(w2.text =~= emit(w, q).text);
        assert(w2 == emit(w, q));
        if (m.1 as nat) < bound {
            lemma_walk_untargeted(nodes, targets, policy, m.1 as nat, w2);
            lemma_emit_emit(w, q, encoding(nodes, m.1 as nat));
        }
    }
}

/// How many matches the walk over node `id` meets: each target node counts
/// once each time the walk reaches it.
pub open spec fn hits(nodes: Seq<Node>, targets: Seq<usize>, id: nat) -> nat
    decreases id, 2nat, 0nat,
{
    (if is_target(targets, id) { 1nat } else { 0nat }) + hits_node(nodes, targets, id)
}

pub open spec fn hits_node(nodes: Seq<Node>, targets: Seq<usize>, id: nat) -> nat
    decreases id, 1nat, 0nat,
{
    if id < nodes.len() {
        match nodes[id as int] {
            Node::Array(items) => hits_items(nodes, targets, items@, id),
            Node::Object(members) => hits_members(nodes, targets, members@, id),
            _ => 0,
        }
    } else {
        0
    }
}

pub open spec fn hits_items(nodes: Seq<Node>, targets: Seq<usize>, items: Seq<usize>, bound: nat) -> nat
    decreases bound, 0nat, items.len(),
{
    if items.len() == 0 {
        0
    } else {
        hits_items(nodes, targets, items.drop_last(), bound) + if (items.last() as nat) < bound {
            hits(nodes, targets, items.last() as nat)
        } else {
            0
        }
    }
}

pub open spec fn hits_members(
    nodes: Seq<Node>,
    targets: Seq<usize>,
    members: Seq<(String, usize)>,
    bound: nat,
) -> nat
    decreases bound, 0nat, members.len(),
{
    if members.len() == 0 {
        0
    } else {
        hits_members(nodes, targets, members.drop_last(), bound) + if (members.last().1 as nat) < bound {
            hits(nodes, targets, members.last().1 as nat)
        } else {
            0
        }
    }
}

/// The policy has a marker for each match numbered from `a` up to `b`.
pub open spec fn all_some(policy: ColorPolicy, a: nat, b: nat) -> bool {
    forall|k: nat| a <= k < b ==> (#[trigger] policy.advanced_by(k)).current() is Some
}

/// How a walk ends, given how many matches it meets: it succeeds when the
/// policy has a marker for each of them, with the enclosing matches as they
/// were, and otherwise fails at the first match that finds none, with that
/// match's error.
pub open spec fn counted(
    policy: ColorPolicy,
    m: nat,
    h: nat,
    stack: Seq<Color>,
    r: Result<Walk, HighlightError>,
) -> bool {
    match r {
        Ok(w2) => w2.matches == m + h && all_some(policy, m, m + h) && w2.stack == stack,
        Err(e) => exists|k: nat|
            m <= k < m + h && all_some(policy, m, k) && (#[trigger] policy.advanced_by(k)).current() is None
                && e == policy.advanced_by(k).exhausted(),
    }
}

proof fn lemma_counted_seq(
    policy: ColorPolicy,
    m: nat,
    h1: nat,
    h2: nat,
    stack: Seq<Color>,
    r1: Result<Walk, HighlightError>,
    r2: Result<Walk, HighlightError>,
)
    requires
        counted(policy, m, h1, stack, r1),
        r1 is Ok ==> counted(policy, m + h1, h2, stack, r2),
        r1 is Err ==> r2 == r1,
    ensures
        counted(policy, m, h1 + h2, stack, r2),
{
    match r1 {
        Ok(_) => match r2 {
            Ok(_) => {},
            Err(e) => {
                let k = choose|k: nat|
                    m + h1 <= k < m + h1 + h2 && all_some(policy, m + h1, k) && (#[trigger] policy.advanced_by(k)).current() is None
                        && e == policy.advanced_by(k).exhausted();
                assert(all_some(policy, m, k));
            },
        },
        Err(e) => {
            let k = choose|k: nat|
                m <= k < m + h1 && all_some(policy, m, k) && (#[trigger] policy.advanced_by(k)).current() is None
                    && e == policy.advanced_by(k).exhausted();
            assert(m <= k < m + h1 + h2);
        },
    }
}

pub proof fn lemma_walk_count(nodes: Seq<Node>, targets: Seq<usize>, policy: ColorPolicy, id: nat, w: Walk)
    ensures
        counted(policy, w.matches, hits(nodes, targets, id), w.stack, walk(nodes, targets, policy, id, w)),
    decreases id, 2nat, 0nat,
{
    let m = w.matches;
    let hn = hits_node(nodes, targets, id);
    if is_target(targets, id) {
        let p = policy.advanced_by(m);
        match p.current() {
            Some(c) => {
                let we = enter(w, c);
                lemma_walk_node_count(nodes, targets, policy, id, we);
                match walk_node(nodes, targets, policy, id, we) {
                    Ok(w2) => {
                        assert(all_some(policy, m, m + 1 + hn));
                        assert(w.stack.push(c).drop_last() == w.stack);
                    },
                    Err(e) => {
                        let k = choose|k: nat|
                            m + 1 <= k < m + 1 + hn && all_some(policy, m + 1, k) && (#[trigger] policy.advanced_by(k)).current() is None
                                && e == policy.advanced_by(k).exhausted();
                        assert(all_some(policy, m, k));
                    },
                }
            },
            None => {
                assert(all_some(policy, m, m));
            },
        }
    } else {
        lemma_walk_node_count(nodes, targets, policy, id, w);
    }
}

pub proof fn lemma_walk_node_count(nodes: Seq<Node>, targets: Seq<usize>, policy: ColorPolicy, id: nat, w: Walk)
    ensures
        counted(policy, w.matches, hits_node(nodes, targets, id), w.stack, walk_node(nodes, targets, policy, id, w)),
    decreases id, 1nat, 0nat,
{
    if id < nodes.len() {
        match nodes[id as int] {
            Node::Array(items) => {
                lemma_items_count(nodes, targets, policy, items@, id, emit(w, seq!['[']));
            },
            Node::Object(members) => {
                lemma_members_count(nodes, targets, policy, members@, id, emit(w, seq!['{']));
            },
            _ => {},
        }
    }
}

pub proof fn lemma_items_count(
    nodes: Seq<Node>,
    targets: Seq<usize>,
    policy: ColorPolicy,
    items: Seq<usize>,
    bound: nat,
    w: Walk,
)
    ensures
        counted(policy, w.matches, hits_items(nodes, targets, items, bound), w.stack, walk_items(nodes, targets, policy, items, bound, w)),
    decreases bound, 0nat, items.len(),
{
    if items.len() > 0 {
        let front = items.drop_last();
        let h1 = hits_items(nodes, targets, front, bound);
        let r1 = walk_items(nodes, targets, policy, front, bound, w);
        lemma_items_count(nodes, targets, policy, front, bound, w);
        let h2 = if (items.last() as nat) < bound { hits(nodes, targets, items.last() as nat) } else { 0 };
        match r1 {
            Ok(w1) => {
                let w2 = if items.len() > 1 { emit(w1, seq![',']) } else { w1 };
                if (items.last() as nat) < bound {
                    lemma_walk_count(nodes, targets, policy, items.last() as nat, w2);
                }
            },
            Err(_) => {},
        }
        lemma_counted_seq(policy, w.matches, h1, h2, w.stack, r1, walk_items(nodes, targets, policy, items, bound, w));
    }
}

pub proof fn lemma_members_count(
    nodes: Seq<Node>,
    targets: Seq<usize>,
    policy: ColorPolicy,
    members: Seq<(String, usize)>,
    bound: nat,
    w: Walk,
)
    ensures
        counted(
            policy,
            w.matches,
            hits_members(nodes, targets, members, bound),
            w.stack,
            walk_members(nodes, targets, policy, members, bound, w),
        ),
    decreases bound, 0nat, members.len(),
{
    if members.len() > 0 {
        let front = members.drop_last();
        let h1 = hits_members(nodes, targets, front, bound);
        let r1 = walk_members(nodes, targets, policy, front, bound, w);
        lemma_members_count(nodes, targets, policy, front, bound, w);
        let m = members.last();
        let h2 = if (m.1 as nat) < bound { hits(nodes, targets, m.1 as nat) } else { 0 };
        match r1 {
            Ok(w1) => {
                let w2 = emit(if members.len() > 1 { emit(w1, seq![',']) } else { w1 }, member_key(m.0@));
                if (m.1 as nat) < bound {
                    lemma_walk_count(nodes, targets, policy, m.1 as nat, w2);
                }
            },
            Err(_) => {},
        }
        lemma_counted_seq(policy, w.matches, h1, h2, w.stack, r1, walk_members(nodes, targets, policy, members, bound, w));
    }
}

} // verus!
