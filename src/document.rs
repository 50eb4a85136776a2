use vstd::prelude::*;

verus! {

/// A JSON number as the parts of a decimal: `mantissa * 10^exponent`, with a
/// sign, or not-a-number.
#[derive(Clone, Copy, Debug, PartialEq, Eq, Structural)]
pub enum Number {
    Decimal { positive: bool, mantissa: u64, exponent: i16 },
    NotANumber,
}

impl Number {
    pub fn from_parts(positive: bool, mantissa: u64, exponent: i16) -> (n: Number)
        ensures
            n == (Number::Decimal { positive, mantissa, exponent }),
    {
        Number::Decimal { positive, mantissa, exponent }
    }

    pub fn nan() -> (n: Number)
        ensures
            n == Number::NotANumber,
    {
        Number::NotANumber
    }
}

/// One node of a document. Children are named by their node id, which is
/// the identity of a node: two nodes with equal content are still two nodes.
#[derive(Debug)]
pub enum Node {
    Null,
    Boolean(bool),
    Number(Number),
    Str(String),
    Array(Vec<usize>),
    Object(Vec<(String, usize)>),
}

/// How many children a node has.
pub open spec fn arity(node: Node) -> nat {
    match node {
        Node::Array(items) => items@.len(),
        Node::Object(members) => members@.len(),
        _ => 0,
    }
}

/// The id of the `k`-th child of a node.
pub open spec fn child(node: Node, k: int) -> usize {
    match node {
        Node::Array(items) => items@[k],
        Node::Object(members) => members@[k].1,
        _ => 0,
    }
}

/// Every child id of `node` is below `bound`.
pub open spec fn children_below(node: Node, bound: nat) -> bool {
    match node {
        Node::Array(items) => forall|k: int| 0 <= k < items@.len() ==> (items@[k] as nat) < bound,
        Node::Object(members) => forall|k: int|
            0 <= k < members@.len() ==> (members@[k].1 as nat) < bound,
        _ => true,
    }
}

/// No node is listed twice among the children of `node`.
pub open spec fn children_distinct(node: Node) -> bool {
    forall|a: int, b: int| 0 <= a < b < arity(node) ==> child(node, a) != child(node, b)
}

/// The keys of an object are distinct.
pub open spec fn keys_distinct(node: Node) -> bool {
    match node {
        Node::Object(members) => forall|a: int, b: int|
            0 <= a < b < members@.len() ==> members@[a].0@ != members@[b].0@,
        _ => true,
    }
}

/// Node `c` is a child of some node of `nodes`.
pub open spec fn is_child(nodes: Seq<Node>, c: usize) -> bool {
    exists|i: int, k: int| 0 <= i < nodes.len() && 0 <= k < arity(nodes[i]) && #[trigger] child(nodes[i], k) == c
}

/// Every node has its children before it, listed once, under distinct keys,
/// and no node is the child of two nodes: the nodes form a forest.
pub open spec fn nodes_wf(nodes: Seq<Node>) -> bool {
    &&& forall|i: int|
        0 <= i < nodes.len() ==> {
            &&& children_below(#[trigger] nodes[i], i as nat)
            &&& children_distinct(nodes[i])
            &&& keys_distinct(nodes[i])
        }
    &&& forall|i1: int, k1: int, i2: int, k2: int|
        0 <= i1 < i2 < nodes.len() && 0 <= k1 < arity(nodes[i1]) && 0 <= k2 < arity(nodes[i2]) ==> #[trigger] child(
            nodes[i1],
            k1,
        ) != #[trigger] child(nodes[i2], k2)
}

/// `node` can join the document: its children are there, listed once, under
/// distinct keys, and none of them is a child already.
pub open spec fn addable(nodes: Seq<Node>, node: Node) -> bool {
    &&& children_below(node, nodes.len())
    &&& children_distinct(node)
    &&& keys_distinct(node)
    &&& forall|k: int| 0 <= k < arity(node) ==> !is_child(nodes, #[trigger] child(node, k))
}

impl Node {
    pub fn child_count(&self) -> (n: usize)
        ensures
            n == arity(*self),
    {
        match self {
            Node::Array(items) => items.len(),
            Node::Object(members) => members.len(),
            _ => 0,
        }
    }

    pub fn child_id(&self, k: usize) -> (c: usize)
        requires
            k < arity(*self),
        ensures
            c == child(*self, k as int),
    {
        match self {
            Node::Array(items) => items[k],
            Node::Object(members) => members[k].1,
            _ => 0,
        }
    }
}

proof fn lemma_children_below(node: Node, bound: nat)
    ensures
        children_below(node, bound) <==> forall|k: int| 0 <= k < arity(node) ==> (#[trigger] child(node, k) as nat) < bound,
{
    match node {
        Node::Array(items) => {
            if children_below(node, bound) {
                assert forall|k: int| 0 <= k < arity(node) implies (#[trigger] child(node, k) as nat) < bound by {
                    assert(child(node, k) == items@[k]);
                }
            }
            if forall|k: int| 0 <= k < arity(node) ==> (#[trigger] child(node, k) as nat) < bound {
                assert forall|k: int| 0 <= k < items@.len() implies (items@[k] as nat) < bound by {
                    assert(child(node, k) == items@[k]);
                }
            }
        },
        Node::Object(members) => {
            if children_below(node, bound) {
                assert forall|k: int| 0 <= k < arity(node) implies (#[trigger] child(node, k) as nat) < bound by {
                    assert(child(node, k) == members@[k].1);
                }
            }
            if forall|k: int| 0 <= k < arity(node) ==> (#[trigger] child(node, k) as nat) < bound {
                assert forall|k: int| 0 <= k < members@.len() implies (members@[k].1 as nat) < bound by {
                    assert(child(node, k) == members@[k].1);
                }
            }
        },
        _ => {},
    }
}

proof fn lemma_is_child_push(nodes: Seq<Node>, node: Node, x: usize)
    ensures
        is_child(nodes.push(node), x) <==> (is_child(nodes, x) || exists|k: int|
            0 <= k < arity(node) && #[trigger] child(node, k) == x),
{
    let ns = nodes.push(node);
    if is_child(ns, x) {
        let (i, k) = choose|i: int, k: int| 0 <= i < ns.len() && 0 <= k < arity(ns[i]) && #[trigger] child(ns[i], k) == x;
        if i < nodes.len() {
            assert(ns[i] == nodes[i]);
        } else {
            assert(ns[i] == node);
        }
    }
    if is_child(nodes, x) {
        let (i, k) = choose|i: int, k: int| 0 <= i < nodes.len() && 0 <= k < arity(nodes[i]) && #[trigger] child(nodes[i], k) == x;
        assert(ns[i] == nodes[i]);
        assert(child(ns[i], k) == x);
    }
    if exists|k: int| 0 <= k < arity(node) && #[trigger] child(node, k) == x {
        let k = choose|k: int| 0 <= k < arity(node) && #[trigger] child(node, k) == x;
        let i = nodes.len() as int;
        assert(ns[i] == node);
        assert(child(ns[i], k) == x);
    }
}

/// A JSON document held as an arena of nodes. A node's children always have
/// smaller ids than the node itself, and each node is the child of at most
/// one other, so every node is the root of a finite tree of its own.
#[derive(Debug)]
pub struct Document {
    nodes: Vec<Node>,
    /// Which nodes are a child of another.
    has_parent: Vec<bool>,
}

impl View for Document {
    type V = Seq<Node>;

    closed spec fn view(&self) -> Seq<Node> {
        self.nodes@
    }
}

impl Document {
    pub closed spec fn parents_known(&self) -> bool {
        &&& self.has_parent@.len() == self.nodes@.len()
        &&& forall|x: int| 0 <= x < self.nodes@.len() ==> #[trigger] self.has_parent@[x] == is_child(self.nodes@, x as usize)
    }

    pub open spec fn wf(&self) -> bool {
        nodes_wf(self@) && self.parents_known()
    }

    pub fn new() -> (d: Document)
        ensures
            d@ == Seq::<Node>::empty(),
            d.wf(),
    {
        Document { nodes: Vec::new(), has_parent: Vec::new() }
    }

    /// Whether `node` can be added: see `addable`.
    pub fn accepts(&self, node: &Node) -> (r: bool)
        requires
            self.wf(),
        ensures
            r == addable(self@, *node),
    {
        let len = self.nodes.len();
        let n = node.child_count();
        proof {
            lemma_children_below(*node, len as nat);
        }
        let mut seen: Vec<bool> = Vec::new();
        while seen.len() < len
            invariant
                seen@.len() <= len,
                forall|x: int| 0 <= x < seen@.len() ==> !seen@[x],
            decreases len - seen@.len(),
        {
            seen.push(false);
        }
        let mut k: usize = 0;
        while k < n
            invariant
                self.wf(),
                len == self@.len(),
                n == arity(*node),
                k <= n,
                seen@.len() == len,
                forall|x: int| 0 <= x < len ==> (#[trigger] seen@[x] <==> exists|j: int| 0 <= j < k && child(*node, j) == x),
                forall|j: int| 0 <= j < k ==> (#[trigger] child(*node, j) as nat) < len && !is_child(self@, child(*node, j)),
                forall|a: int, b: int| 0 <= a < b < k ==> child(*node, a) != child(*node, b),
            decreases n - k,
        {
            let c = node.child_id(k);
            if c >= len {
                return false;
            }
            if self.has_parent[c] {
                assert(self.has_parent@[c as int]);
                return false;
            }
            if seen[c] {
                proof {
                    assert(seen@[c as int]);
                    let j = choose|j: int| 0 <= j < k && child(*node, j) == c;
                    assert(child(*node, j) == child(*node, k as int));
                }
                return false;
            }
            seen.set(c, true);
            assert forall|x: int| 0 <= x < len implies (#[trigger] seen@[x] <==> exists|j: int|
                0 <= j < k + 1 && child(*node, j) == x) by {
                if x == c {
                    assert(child(*node, k as int) == x);
                }
            }
            k = k + 1;
        }
        match node {
            Node::Object(members) => {
                let m = members.len();
                let mut a: usize = 0;
                while a < m
                    invariant
                        *node == Node::Object(*members),
                        m == members@.len(),
                        a <= m,
                        forall|p: int, q: int| 0 <= p < q < m && p < a ==> members@[p].0@ != members@[q].0@,
                    decreases m - a,
                {
                    let mut b: usize = a + 1;
                    while b < m
                        invariant
                            *node == Node::Object(*members),
                            m == members@.len(),
                            a < m,
                            a < b <= m,
                            forall|p: int, q: int| 0 <= p < q < m && p < a ==> members@[p].0@ != members@[q].0@,
                            forall|q: int| a < q < b ==> members@[a as int].0@ != members@[q].0@,
                        decreases m - b,
                    {
                        if members[a].0 == members[b].0 {
                            assert(members@[a as int].0@ == members@[b as int].0@);
                            proof {
                                if keys_distinct(*node) {
                                    let ms = members@;
                                    assert(*node == Node::Object(*members));
                                    assert(node->Object_0@ == ms);
                                    assert(forall|p: int, q: int| 0 <= p < q < ms.len() ==> ms[p].0@ != ms[q].0@);
                                    assert(ms[a as int].0@ != ms[b as int].0@);
                                }
                            }
                            return false;
                        }
                        b = b + 1;
                    }
                    a = a + 1;
                }
            },
            _ => {},
        }
        true
    }

    /// Adds a node whose children are already in the document and are
    /// nobody's children yet; returns its id.
    pub fn add(&mut self, node: Node) -> (id: usize)
        requires
            old(self).wf(),
            addable(old(self)@, node),
        ensures
            final(self)@ == old(self)@.push(node),
            id == old(self)@.len(),
            final(self).wf(),
    {
        let id = self.nodes.len();
        let n = node.child_count();
        proof {
            lemma_children_below(node, id as nat);
        }
        let mut k: usize = 0;
        while k < n
            invariant
                self.nodes@ == old(self).nodes@,
                id == self.nodes@.len(),
                n == arity(node),
                k <= n,
                children_below(node, id as nat),
                forall|j: int| 0 <= j < arity(node) ==> (#[trigger] child(node, j) as nat) < id,
                self.has_parent@.len() == id,
                forall|x: int| 0 <= x < id ==> (#[trigger] self.has_parent@[x] == (is_child(self.nodes@, x as usize)
                    || exists|j: int| 0 <= j < k && child(node, j) == x)),
            decreases n - k,
        {
            let c = node.child_id(k);
            self.has_parent.set(c, true);
            assert forall|x: int| 0 <= x < id implies (#[trigger] self.has_parent@[x] == (is_child(self.nodes@, x as usize)
                || exists|j: int| 0 <= j < k + 1 && child(node, j) == x)) by {
                if x == c {
                    assert(child(node, k as int) == x);
                }
            }
            k = k + 1;
        }
        self.has_parent.push(false);
        self.nodes.push(node);
        let ghost ns = self.nodes@;
        proof {
            let olds = old(self).nodes@;
            assert(ns == olds.push(node));
            assert forall|x: int| 0 <= x < ns.len() implies #[trigger] self.has_parent@[x] == is_child(ns, x as usize) by {
                lemma_is_child_push(olds, node, x as usize);
                if x == id {
                    if is_child(olds, x as usize) {
                        let (i, k) = choose|i: int, k: int| 0 <= i < olds.len() && 0 <= k < arity(olds[i]) && #[trigger] child(olds[i], k) == x as usize;
                        assert(children_below(olds[i], i as nat));
                        lemma_children_below(olds[i], i as nat);
                    }
                }
            }
            assert forall|i: int| 0 <= i < ns.len() implies {
                &&& children_below(#[trigger] ns[i], i as nat)
                &&& children_distinct(ns[i])
                &&& keys_distinct(ns[i])
            } by {
                if i < id {
                    assert(ns[i] == olds[i]);
                }
            }
            assert forall|i1: int, k1: int, i2: int, k2: int|
                0 <= i1 < i2 < ns.len() && 0 <= k1 < arity(ns[i1]) && 0 <= k2 < arity(ns[i2]) implies #[trigger] child(
                    ns[i1],
                    k1,
                ) != #[trigger] child(ns[i2], k2) by {
                assert(ns[i1] == olds[i1]);
                if i2 == id {
                    assert(ns[i2] == node);
                    if child(ns[i1], k1) == child(ns[i2], k2) {
                        assert(child(olds[i1], k1) == child(node, k2));
                        assert(is_child(olds, child(node, k2)));
                    }
                } else {
                    assert(ns[i2] == olds[i2]);
                }
            }
        }
        id
    }

    pub fn len(&self) -> (n: usize)
        ensures
            n == self@.len(),
    {
        self.nodes.len()
    }

    pub fn node(&self, id: usize) -> (r: &Node)
        requires
            id < self@.len(),
        ensures
            *r == self@[id as int],
    {
        &self.nodes[id]
    }
}

} // verus!
