//! The cluster map: a tree of weighted nodes whose children are kept in name order.
use vstd::prelude::*;
use crate::path::{components, is_leaf_name, lex_lt, views, has_osd, lex_less, plain_name};
use crate::path::{lemma_lex_total, lemma_lex_transitive};

verus! {

/// A child of a node, under its name.
pub struct Child {
    pub name: String,
    pub node: Node,
}

/// A vertex of the cluster map: a root, rack, host or device.
pub struct Node {
    /// The sum of the weights of the leaves below, or the node's own weight for a leaf.
    pub weight: u64,
    /// An out node is passed over by selection, with all it holds.
    pub out: bool,
    /// The children, in strictly increasing order of name.
    pub children: Vec<Child>,
}

/// `i` is the first child of `cs` named `name`.
pub open spec fn first_named(cs: Seq<Child>, name: Seq<char>, i: int) -> bool {
    &&& 0 <= i < cs.len()
    &&& cs[i].name@ == name
    &&& forall|j: int| 0 <= j < i ==> cs[j].name@ != name
}

/// The position of the child named `name`, if there is one.
pub open spec fn child_index(cs: Seq<Child>, name: Seq<char>) -> Option<int> {
    if exists|i: int| first_named(cs, name, i) {
        Some(choose|i: int| first_named(cs, name, i))
    } else {
        None
    }
}

/// The node reached from `n` by following the names of `c`.
pub open spec fn node_at(n: Node, c: Seq<Seq<char>>) -> Option<Node>
    decreases c.len(),
{
    if c.len() == 0 {
        Some(n)
    } else {
        match child_index(n.children@, c[0]) {
            Some(i) => node_at(n.children@[i].node, c.drop_first()),
            None => None,
        }
    }
}

/// The names of the children, as a set.
pub open spec fn name_set(cs: Seq<Child>) -> Set<Seq<char>> {
    Set::new(|s: Seq<char>| exists|i: int| 0 <= i < cs.len() && cs[i].name@ == s)
}

/// Weight of the node at `c`; zero where there is none.
pub open spec fn weight_at(n: Node, c: Seq<Seq<char>>) -> u64 {
    match node_at(n, c) {
        Some(m) => m.weight,
        None => 0,
    }
}

/// Whether the node at `c` is out; a missing node is not.
pub open spec fn out_at(n: Node, c: Seq<Seq<char>>) -> bool {
    match node_at(n, c) {
        Some(m) => m.out,
        None => false,
    }
}

/// Names of the children of the node at `c`; none where there is no node.
pub open spec fn names_at(n: Node, c: Seq<Seq<char>>) -> Set<Seq<char>> {
    match node_at(n, c) {
        Some(m) => name_set(m.children@),
        None => Set::empty(),
    }
}

/// Children named in strictly increasing lexicographic order.
pub open spec fn sorted_names(cs: Seq<Child>) -> bool {
    forall|i: int, j: int| 0 <= i < j < cs.len() ==> lex_lt(#[trigger] cs[i].name@, #[trigger] cs[j].name@)
}

/// Children under plain names, in strictly increasing order.
pub open spec fn well_kept(cs: Seq<Child>) -> bool {
    &&& sorted_names(cs)
    &&& forall|i: int| 0 <= i < cs.len() ==> plain_name(#[trigger] cs[i].name@)
}

/// Every node of the tree keeps its children under plain names and in name order.
pub open spec fn wf(n: Node) -> bool {
    forall|q: Seq<Seq<char>>| #[trigger] node_at(n, q) is Some ==> well_kept(node_at(n, q)->0.children@)
}

/// `w + d`, wrapping around modulo 2^64.
pub open spec fn shifted(w: u64, d: i64) -> u64 {
    let s = w + d;
    if s > u64::MAX {
        (s - 0x1_0000_0000_0000_0000) as u64
    } else if s < 0 {
        (s + 0x1_0000_0000_0000_0000) as u64
    } else {
        s as u64
    }
}

/// `n` is `o` after adding `d` to the weight of every node along `c`, the nodes
/// missing on the way created with weight zero, in, and without children.
pub open spec fn added(o: Node, n: Node, c: Seq<Seq<char>>, d: i64) -> bool {
    forall|q: Seq<Seq<char>>| #![trigger node_at(n, q)]
        if q.is_prefix_of(c) {
            &&& node_at(n, q) is Some
            &&& weight_at(n, q) == shifted(weight_at(o, q), d)
            &&& out_at(n, q) == out_at(o, q)
            &&& names_at(n, q) == if q.len() < c.len() {
                names_at(o, q).insert(c[q.len() as int])
            } else {
                names_at(o, q)
            }
        } else {
            node_at(n, q) == node_at(o, q)
        }
}

/// `n` is `o` with the node at `c` marked `out`, and nothing else changed.
pub open spec fn marked(o: Node, n: Node, c: Seq<Seq<char>>, out: bool) -> bool {
    forall|q: Seq<Seq<char>>| #![trigger node_at(n, q)]
        if q == c {
            node_at(n, q) == Some(Node { out, ..node_at(o, q)->0 })
        } else if q.is_prefix_of(c) {
            &&& node_at(n, q) is Some
            &&& weight_at(n, q) == weight_at(o, q)
            &&& out_at(n, q) == out_at(o, q)
            &&& names_at(n, q) == names_at(o, q)
        } else {
            node_at(n, q) == node_at(o, q)
        }
}

/// The number of children named as devices, counted down through the children that are not.
pub open spec fn osd_count(n: Node) -> nat
    decreases n, 0nat,
{
    osd_count_from(n.children@, 0)
}

/// [`osd_count`] summed over the children from position `k` on.
pub open spec fn osd_count_from(cs: Seq<Child>, k: nat) -> nat
    decreases cs, cs.len() - k,
{
    if k >= cs.len() {
        0
    } else {
        (if is_leaf_name(cs[k as int].name@) {
            1
        } else {
            osd_count(cs[k as int].node)
        }) + osd_count_from(cs, k + 1)
    }
}

pub proof fn lemma_child_index_first(cs: Seq<Child>, name: Seq<char>, i: int)
    requires
        first_named(cs, name, i),
    ensures
        child_index(cs, name) == Some(i),
{
    let k = choose|k: int| first_named(cs, name, k);
    if k < i {
        assert(cs[k].name@ != name);
    } else if k > i {
        assert(cs[i].name@ != name);
    }
}

pub proof fn lemma_child_index_none(cs: Seq<Child>, name: Seq<char>)
    requires
        forall|j: int| 0 <= j < cs.len() ==> cs[j].name@ != name,
    ensures
        child_index(cs, name) is None,
{
}

proof fn lemma_node_at_cons(n: Node, x: Seq<char>, q: Seq<Seq<char>>)
    ensures
        node_at(n, seq![x] + q) == match child_index(n.children@, x) {
            Some(i) => node_at(n.children@[i].node, q),
            None => None,
        },
{
    assert((seq![x] + q).drop_first() =~= q);
}

proof fn lemma_split(q: Seq<Seq<char>>)
    requires
        q.len() > 0,
    ensures
        q == seq![q[0]] + q.drop_first(),
{
    assert(q =~= seq![q[0]] + q.drop_first());
}

/// Inserting a child under a new name shifts the positions after it by one.
proof fn lemma_index_after_insert(cs: Seq<Child>, p: int, ch: Child, x: Seq<char>)
    requires
        0 <= p <= cs.len(),
        forall|j: int| 0 <= j < cs.len() ==> cs[j].name@ != ch.name@,
    ensures
        x == ch.name@ ==> child_index(cs.insert(p, ch), x) == Some(p),
        x != ch.name@ ==> match child_index(cs, x) {
            None => child_index(cs.insert(p, ch), x) is None,
            Some(j) => child_index(cs.insert(p, ch), x) == Some(if j < p { j } else { j + 1 }),
        },
{
    let ns = cs.insert(p, ch);
    if x == ch.name@ {
        lemma_child_index_first(ns, x, p);
    } else {
        match child_index(cs, x) {
            None => {
                assert forall|j: int| 0 <= j < ns.len() implies ns[j].name@ != x by {
                    if j < p {
                        assert(ns[j] == cs[j]);
                        if cs[j].name@ == x {
                            lemma_first_exists(cs, x, j);
                        }
                    } else if j > p {
                        assert(ns[j] == cs[j - 1]);
                        if cs[j - 1].name@ == x {
                            lemma_first_exists(cs, x, j - 1);
                        }
                    }
                }
            },
            Some(j) => {
                assert(first_named(cs, x, j));
                let jj = if j < p { j } else { j + 1 };
                assert forall|k: int| 0 <= k < jj implies ns[k].name@ != x by {
                    if k < p {
                        assert(ns[k] == cs[k]);
                    } else if k > p {
                        assert(ns[k] == cs[k - 1]);
                    }
                }
                lemma_child_index_first(ns, x, jj);
            },
        }
    }
}

/// Where some child has the name, a first one has it.
proof fn lemma_first_exists(cs: Seq<Child>, x: Seq<char>, j: int)
    requires
        0 <= j < cs.len(),
        cs[j].name@ == x,
    ensures
        exists|k: int| first_named(cs, x, k),
    decreases j,
{
    if exists|k: int| 0 <= k < j && cs[k].name@ == x {
        let k = choose|k: int| 0 <= k < j && cs[k].name@ == x;
        lemma_first_exists(cs, x, k);
    } else {
        assert(first_named(cs, x, j));
    }
}

/// Replacing a child by one of the same name keeps every position.
proof fn lemma_index_after_update(cs: Seq<Child>, i: int, ch: Child, x: Seq<char>)
    requires
        0 <= i < cs.len(),
        ch.name@ == cs[i].name@,
    ensures
        child_index(cs.update(i, ch), x) == child_index(cs, x),
{
    let ns = cs.update(i, ch);
    assert forall|k: int| first_named(cs, x, k) <==> first_named(ns, x, k) by {
        assert forall|j: int| 0 <= j < cs.len() implies ns[j].name@ == cs[j].name@ by {}
    }
    if exists|k: int| first_named(cs, x, k) {
        let k = choose|k: int| first_named(cs, x, k);
        lemma_child_index_first(cs, x, k);
        lemma_child_index_first(ns, x, k);
    }
}

/// Inserting a child at a position between smaller and larger names keeps the names sorted.
proof fn lemma_insert_sorted(cs: Seq<Child>, p: int, ch: Child)
    requires
        sorted_names(cs),
        0 <= p <= cs.len(),
        forall|j: int| 0 <= j < cs.len() ==> cs[j].name@ != ch.name@,
        forall|j: int| 0 <= j < p ==> !lex_lt(ch.name@, #[trigger] cs[j].name@),
        p < cs.len() ==> lex_lt(ch.name@, cs[p].name@),
    ensures
        sorted_names(cs.insert(p, ch)),
{
    let ns = cs.insert(p, ch);
    assert forall|i: int, j: int| 0 <= i < j < ns.len() implies lex_lt(#[trigger] ns[i].name@, #[trigger] ns[j].name@) by {
        if i < p && j == p {
            lemma_lex_total(cs[i].name@, ch.name@);
        } else if i < p && j > p {
            lemma_lex_total(cs[i].name@, ch.name@);
            assert(ns[j] == cs[j - 1]);
        } else if i == p && j > p {
            assert(ns[j] == cs[j - 1]);
            if j - 1 > p {
                lemma_lex_transitive(ch.name@, cs[p].name@, cs[j - 1].name@);
            }
        } else if i > p {
            assert(ns[i] == cs[i - 1]);
            assert(ns[j] == cs[j - 1]);
        }
    }
}

/// A node without children has itself at the empty path and nothing below.
proof fn lemma_node_at_leaf(n: Node, q: Seq<Seq<char>>)
    requires
        n.children@.len() == 0,
    ensures
        q.len() > 0 ==> node_at(n, q) is None,
        wf(n),
{
    if q.len() > 0 {
        lemma_child_index_none(n.children@, q[0]);
    }
    assert forall|r: Seq<Seq<char>>| #[trigger] node_at(n, r) is Some implies well_kept(node_at(n, r)->0.children@) by {
        if r.len() > 0 {
            lemma_child_index_none(n.children@, r[0]);
        }
    }
}

proof fn lemma_prefix_cons(q: Seq<Seq<char>>, c: Seq<Seq<char>>)
    requires
        q.len() > 0,
    ensures
        q.is_prefix_of(c) <==> (c.len() > 0 && q[0] == c[0] && q.drop_first().is_prefix_of(c.drop_first())),
{
    if q.is_prefix_of(c) {
        assert(q[0] == c.subrange(0, q.len() as int)[0]);
        assert(c.drop_first().subrange(0, q.len() - 1) =~= q.drop_first());
    }
    if c.len() > 0 && q[0] == c[0] && q.drop_first().is_prefix_of(c.drop_first()) {
        assert forall|j: int| 0 <= j < q.len() implies c.subrange(0, q.len() as int)[j] == q[j] by {
            if j > 0 {
                assert(q[j] == q.drop_first()[j - 1]);
                assert(c.drop_first().subrange(0, q.len() - 1)[j - 1] == c[j]);
            }
        }
        assert(c.subrange(0, q.len() as int) =~= q);
    }
}

/// Two nodes with the same children agree at every nonempty path.
proof fn lemma_node_at_same_children(a: Node, b: Node, q: Seq<Seq<char>>)
    requires
        a.children@ == b.children@,
        q.len() > 0,
    ensures
        node_at(a, q) == node_at(b, q),
{
}

impl Node {
    /// A node of weight zero, in, without children.
    pub fn empty() -> (r: Node)
        ensures
            r.weight == 0,
            !r.out,
            r.children@.len() == 0,
    {
        Node { weight: 0, out: false, children: Vec::new() }
    }

    /// The position of the child named `name`.
    pub fn find(&self, name: &String) -> (r: Option<usize>)
        ensures
            r matches Some(i) ==> i < self.children@.len() && child_index(self.children@, name@) == Some(i as int),
            r is None ==> child_index(self.children@, name@) is None,
            r is None ==> forall|j: int| 0 <= j < self.children@.len() ==> self.children@[j].name@ != name@,
    {
        let mut i: usize = 0;
        while i < self.children.len()
            invariant
                i <= self.children@.len(),
                forall|j: int| 0 <= j < i ==> self.children@[j].name@ != name@,
            decreases self.children@.len() - i,
        {
            if self.children[i].name == *name {
                proof {
                    lemma_child_index_first(self.children@, name@, i as int);
                }
                return Some(i);
            }
            i += 1;
        }
        None
    }

    /// Adds `delta` to the weight of this node and of every node along `comps[k..]`,
    /// creating the nodes that are missing.
    pub fn add_weight_at(&mut self, comps: &Vec<String>, k: usize, delta: i64)
        requires
            k <= comps@.len(),
            wf(*old(self)),
            forall|i: int| 0 <= i < comps@.len() ==> plain_name(#[trigger] comps@[i]@),
        ensures
            wf(*final(self)),
            added(*old(self), *final(self), views(comps@).skip(k as int), delta),
        decreases comps@.len() - k,
    {
        let ghost o = *self;
        let ghost c = views(comps@).skip(k as int);
        self.weight = self.weight.wrapping_add_signed(delta);
        if k == comps.len() {
            proof {
                assert forall|q: Seq<Seq<char>>| #[trigger] node_at(*self, q) is Some implies well_kept(
                    node_at(*self, q)->0.children@,
                ) by {
                    if q.len() > 0 {
                        lemma_node_at_same_children(*self, o, q);
                    } else {
                        assert(node_at(o, q) is Some);
                    }
                }
                assert forall|q: Seq<Seq<char>>| #![trigger node_at(*self, q)]
                    q.is_prefix_of(c) || node_at(*self, q) == node_at(o, q) by {
                    if q.len() > 0 {
                        lemma_node_at_same_children(*self, o, q);
                    } else {
                        assert(q.is_prefix_of(c));
                    }
                }
                assert forall|q: Seq<Seq<char>>| #![trigger node_at(*self, q)] q.is_prefix_of(c) implies q.len() == 0 by {}
            }
            return;
        }
        let name = &comps[k];
        let ghost x = name@;
        assert(c[0] == x);
        let ghost o_after = *self;
        let opt = self.find(name);
        let ghost found = opt is Some;
        let i: usize = match opt {
            Some(i) => i,
            None => {
                let p = self.insert_pos(name);
                let nc = Child { name: name.clone(), node: Node::empty() };
                proof {
                    assert(node_at(o, seq![]) is Some);
                    lemma_insert_sorted(self.children@, p as int, nc);
                }
                self.children.insert(p, nc);
                p
            },
        };
        let ghost cs1 = self.children@;
        proof {
            assert(o_after.children@ == o.children@);
            assert(node_at(o, seq![]) is Some);
            if !found {
                assert(cs1 =~= o.children@.insert(i as int, cs1[i as int]));
                lemma_index_after_insert(o.children@, i as int, cs1[i as int], x);
            }
        }
        let mut ch = self.children.remove(i);
        let ghost ch0 = ch;
        proof {
            assert(ch0 == cs1[i as int]);
            assert forall|q1: Seq<Seq<char>>| #[trigger] node_at(ch0.node, q1) is Some implies well_kept(
                node_at(ch0.node, q1)->0.children@,
            ) by {
                if found {
                    lemma_node_at_cons(o, x, q1);
                    assert(node_at(o, seq![x] + q1) is Some);
                } else {
                    lemma_node_at_leaf(ch0.node, q1);
                }
            }
            assert(views(comps@).skip(k + 1) =~= c.drop_first());
        }
        ch.node.add_weight_at(comps, k + 1, delta);
        self.children.insert(i, ch);
        proof {
            let n = *self;
            let cs2 = n.children@;
            let c1 = c.drop_first();
            assert(cs2 =~= cs1.update(i as int, ch));
            assert forall|y: Seq<char>| #[trigger] child_index(cs2, y) == child_index(cs1, y) by {
                lemma_index_after_update(cs1, i as int, ch, y);
            }
            assert forall|y: Seq<char>| #![trigger child_index(o.children@, y)] y != x implies match child_index(o.children@, y) {
                None => child_index(cs1, y) is None,
                Some(j) => child_index(cs1, y) matches Some(j1) && 0 <= j1 < cs1.len() && cs1[j1] == o.children@[j],
            } by {
                if !found {
                    lemma_index_after_insert(o.children@, i as int, cs1[i as int], y);
                    if let Some(j) = child_index(o.children@, y) {
                        assert(first_named(o.children@, y, choose|k: int| first_named(o.children@, y, k)));
                    }
                } else if let Some(j) = child_index(o.children@, y) {
                    assert(first_named(o.children@, y, choose|k: int| first_named(o.children@, y, k)));
                }
            }
            // the children of the root keep their order
            assert(sorted_names(cs1)) by {
                if found {
                    assert(cs1 == o.children@);
                }
            }
            assert(sorted_names(cs2)) by {
                assert forall|a: int, b: int| 0 <= a < b < cs2.len() implies lex_lt(#[trigger] cs2[a].name@, #[trigger] cs2[b].name@) by {
                    assert(cs1[a].name@ == cs2[a].name@);
                    assert(cs1[b].name@ == cs2[b].name@);
                }
            }
            assert forall|a: int| 0 <= a < cs2.len() implies plain_name(#[trigger] cs2[a].name@) by {
                assert(cs1[a].name@ == cs2[a].name@);
                if !found && a != i {
                    if a < i {
                        assert(cs1[a] == o.children@[a]);
                    } else {
                        assert(cs1[a] == o.children@[a - 1]);
                    }
                }
            }
            assert(name_set(cs2) =~= name_set(o.children@).insert(x)) by {
                assert forall|t: Seq<char>| name_set(cs2).contains(t) implies name_set(o.children@).insert(x).contains(t) by {
                    let j = choose|j: int| 0 <= j < cs2.len() && cs2[j].name@ == t;
                    if t != x {
                        if found {
                            assert(o.children@[j].name@ == t);
                        } else if j < i {
                            assert(o.children@[j].name@ == t);
                        } else {
                            assert(o.children@[j - 1].name@ == t);
                        }
                    }
                }
                assert forall|t: Seq<char>| name_set(o.children@).insert(x).contains(t) implies name_set(cs2).contains(t) by {
                    if t == x {
                        assert(cs2[i as int].name@ == t);
                    } else {
                        let j = choose|j: int| 0 <= j < o.children@.len() && o.children@[j].name@ == t;
                        if found {
                            assert(cs2[j].name@ == t);
                        } else if j < i {
                            assert(cs2[j].name@ == t);
                        } else {
                            assert(cs2[j + 1].name@ == t);
                        }
                    }
                }
            }
            assert forall|q: Seq<Seq<char>>| #![trigger node_at(n, q)]
                if q.is_prefix_of(c) {
                    &&& node_at(n, q) is Some
                    &&& weight_at(n, q) == shifted(weight_at(o, q), delta)
                    &&& out_at(n, q) == out_at(o, q)
                    &&& names_at(n, q) == if q.len() < c.len() {
                        names_at(o, q).insert(c[q.len() as int])
                    } else {
                        names_at(o, q)
                    }
                } else {
                    node_at(n, q) == node_at(o, q)
                } by {
                if q.len() == 0 {
                    assert(q.is_prefix_of(c));
                } else {
                    let y = q[0];
                    let q1 = q.drop_first();
                    lemma_split(q);
                    lemma_node_at_cons(n, y, q1);
                    lemma_node_at_cons(o, y, q1);
                    lemma_prefix_cons(q, c);
                    if y == x {
                        assert(child_index(cs2, x) == Some(i as int));
                        assert(cs2[i as int] == ch);
                        assert(node_at(n, q) == node_at(ch.node, q1));
                        assert(c1.len() == c.len() - 1);
                        if q1.is_prefix_of(c1) && q1.len() < c1.len() {
                            assert(c1[q1.len() as int] == c[q.len() as int]);
                        }
                        if found {
                            assert(node_at(o, q) == node_at(ch0.node, q1));
                        } else {
                            assert(node_at(o, q) is None);
                            lemma_node_at_leaf(ch0.node, q1);
                            assert(name_set(ch0.node.children@) =~= Set::empty());
                        }
                    } else {
                        match child_index(o.children@, y) {
                            None => {},
                            Some(j) => {
                                let j1 = child_index(cs1, y)->0;
                                assert(cs2[j1] == cs1[j1]);
                            },
                        }
                    }
                }
            }
            assert forall|q: Seq<Seq<char>>| #[trigger] node_at(n, q) is Some implies well_kept(
                node_at(n, q)->0.children@,
            ) by {
                if q.len() > 0 {
                    let y = q[0];
                    let q1 = q.drop_first();
                    lemma_split(q);
                    lemma_node_at_cons(n, y, q1);
                    lemma_node_at_cons(o, y, q1);
                    if y == x {
                        assert(node_at(n, q) == node_at(ch.node, q1));
                    } else {
                        match child_index(o.children@, y) {
                            None => {},
                            Some(j) => {
                                let j1 = child_index(cs1, y)->0;
                                assert(cs2[j1] == cs1[j1]);
                                assert(node_at(o, q) is Some);
                            },
                        }
                    }
                }
            }
        }
    }

    /// The node at `comps[k..]` below this one, if there is one.
    pub fn lookup(&self, comps: &Vec<String>, k: usize) -> (r: Option<&Node>)
        requires
            k <= comps@.len(),
        ensures
            r matches Some(m) ==> node_at(*self, views(comps@).skip(k as int)) == Some(*m),
            r is None ==> node_at(*self, views(comps@).skip(k as int)) is None,
        decreases comps@.len() - k,
    {
        let ghost c = views(comps@).skip(k as int);
        if k == comps.len() {
            return Some(self);
        }
        assert(c[0] == comps@[k as int]@);
        assert(views(comps@).skip(k + 1) =~= c.drop_first());
        match self.find(&comps[k]) {
            Some(i) => self.children[i].node.lookup(comps, k + 1),
            None => None,
        }
    }

    /// Marks the node at `comps[k..]` below this one out, or in.
    pub fn set_out_at(&mut self, comps: &Vec<String>, k: usize, out: bool)
        requires
            k <= comps@.len(),
            wf(*old(self)),
            node_at(*old(self), views(comps@).skip(k as int)) is Some,
        ensures
            wf(*final(self)),
            marked(*old(self), *final(self), views(comps@).skip(k as int), out),
        decreases comps@.len() - k,
    {
        let ghost o = *self;
        let ghost c = views(comps@).skip(k as int);
        if k == comps.len() {
            self.out = out;
            proof {
                assert(node_at(o, seq![]) is Some);
                assert forall|q: Seq<Seq<char>>| #[trigger] node_at(*self, q) is Some implies well_kept(
                    node_at(*self, q)->0.children@,
                ) by {
                    if q.len() > 0 {
                        lemma_node_at_same_children(*self, o, q);
                    }
                }
                assert forall|q: Seq<Seq<char>>| #![trigger node_at(*self, q)]
                    q == c || node_at(*self, q) == node_at(o, q) by {
                    if q.len() > 0 {
                        lemma_node_at_same_children(*self, o, q);
                    } else {
                        assert(q =~= c);
                    }
                }
            }
            return;
        }
        let name = &comps[k];
        let ghost x = name@;
        assert(c[0] == x);
        let i: usize = match self.find(name) {
            Some(i) => i,
            None => {
                return;
            },
        };
        let ghost cs1 = self.children@;
        let mut ch = self.children.remove(i);
        let ghost ch0 = ch;
        proof {
            assert(node_at(o, seq![]) is Some);
            assert(ch0 == cs1[i as int]);
            assert forall|q1: Seq<Seq<char>>| #[trigger] node_at(ch0.node, q1) is Some implies well_kept(
                node_at(ch0.node, q1)->0.children@,
            ) by {
                lemma_node_at_cons(o, x, q1);
                assert(node_at(o, seq![x] + q1) is Some);
            }
            assert(views(comps@).skip(k + 1) =~= c.drop_first());
            lemma_split(c);
            lemma_node_at_cons(o, x, c.drop_first());
        }
        ch.node.set_out_at(comps, k + 1, out);
        self.children.insert(i, ch);
        proof {
            let n = *self;
            let cs2 = n.children@;
            let c1 = c.drop_first();
            assert(cs2 =~= cs1.update(i as int, ch));
            assert forall|y: Seq<char>| #[trigger] child_index(cs2, y) == child_index(cs1, y) by {
                lemma_index_after_update(cs1, i as int, ch, y);
            }
            assert(sorted_names(cs2)) by {
                assert forall|a: int, b: int| 0 <= a < b < cs2.len() implies lex_lt(#[trigger] cs2[a].name@, #[trigger] cs2[b].name@) by {
                    assert(cs1[a].name@ == cs2[a].name@);
                    assert(cs1[b].name@ == cs2[b].name@);
                }
            }
            assert forall|a: int| 0 <= a < cs2.len() implies plain_name(#[trigger] cs2[a].name@) by {
                assert(cs1[a].name@ == cs2[a].name@);
            }
            assert(name_set(cs2) =~= name_set(cs1)) by {
                assert forall|t: Seq<char>| name_set(cs2).contains(t) implies name_set(cs1).contains(t) by {
                    let j = choose|j: int| 0 <= j < cs2.len() && cs2[j].name@ == t;
                    assert(cs1[j].name@ == t);
                }
                assert forall|t: Seq<char>| name_set(cs1).contains(t) implies name_set(cs2).contains(t) by {
                    let j = choose|j: int| 0 <= j < cs1.len() && cs1[j].name@ == t;
                    assert(cs2[j].name@ == t);
                }
            }
            assert forall|q: Seq<Seq<char>>| #![trigger node_at(n, q)]
                if q == c {
                    node_at(n, q) == Some(Node { out, ..node_at(o, q)->0 })
                } else if q.is_prefix_of(c) {
                    &&& node_at(n, q) is Some
                    &&& weight_at(n, q) == weight_at(o, q)
                    &&& out_at(n, q) == out_at(o, q)
                    &&& names_at(n, q) == names_at(o, q)
                } else {
                    node_at(n, q) == node_at(o, q)
                } by {
                if q.len() == 0 {
                    assert(q.is_prefix_of(c));
                    assert(q != c);
                } else {
                    let y = q[0];
                    let q1 = q.drop_first();
                    lemma_split(q);
                    lemma_node_at_cons(n, y, q1);
                    lemma_node_at_cons(o, y, q1);
                    lemma_prefix_cons(q, c);
                    if y == x {
                        assert(cs2[i as int] == ch);
                        assert(node_at(n, q) == node_at(ch.node, q1));
                        assert(node_at(o, q) == node_at(ch0.node, q1));
                        assert(q == c <==> q1 == c1) by {
                            if q1 == c1 {
                                assert(q =~= c);
                            }
                        }
                    } else {
                        if let Some(j) = child_index(cs1, y) {
                            assert(cs2[j] == cs1[j]);
                        }
                    }
                }
            }
            assert forall|q: Seq<Seq<char>>| #[trigger] node_at(n, q) is Some implies well_kept(
                node_at(n, q)->0.children@,
            ) by {
                if q.len() > 0 {
                    let y = q[0];
                    let q1 = q.drop_first();
                    lemma_split(q);
                    lemma_node_at_cons(n, y, q1);
                    lemma_node_at_cons(o, y, q1);
                    if y == x {
                        assert(node_at(n, q) == node_at(ch.node, q1));
                    } else {
                        if let Some(j) = child_index(cs1, y) {
                            assert(cs2[j] == cs1[j]);
                            assert(node_at(o, q) is Some);
                        }
                    }
                }
            }
        }
    }

    /// The position at which a child named `name` keeps the children in order.
    fn insert_pos(&self, name: &String) -> (p: usize)
        ensures
            p <= self.children@.len(),
            forall|j: int| 0 <= j < p ==> !lex_lt(name@, #[trigger] self.children@[j].name@),
            p < self.children@.len() ==> lex_lt(name@, self.children@[p as int].name@),
    {
        let mut i: usize = 0;
        while i < self.children.len()
            invariant
                i <= self.children@.len(),
                forall|j: int| 0 <= j < i ==> !lex_lt(name@, #[trigger] self.children@[j].name@),
            decreases self.children@.len() - i,
        {
            if lex_less(name.as_str(), self.children[i].name.as_str()) {
                return i;
            }
            i += 1;
        }
        i
    }
}

} // verus!
