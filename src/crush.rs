//! The placement engine: a cluster map, the logarithm table that drives the draw,
//! and the operations that edit the map and place replicas on it.
use vstd::prelude::*;
use crate::node::{Node, node_at, wf, added, marked, weight_at, out_at, child_index, osd_count, osd_count_from};
use crate::path::{components, split_path, join, join_names, is_leaf_name, has_osd, views, sort_paths, sorted_paths};
use crate::path::{lemma_sorted_unique, lemma_top_of, plain_name, top};
use crate::select::{SelectError, LN_TABLE_LEN, selection, select_run, in_child_of, lemma_run_ok};
use crate::{find_next_power_of_2, is_pow2};

verus! {

/// The placement engine.
pub struct Crush {
    root: Node,
    ln_table: Vec<u64>,
}

/// The leaf path that a descent from `node` reaches: one child drawn at each level
/// until a device is accepted.
pub open spec fn descend(ln: Seq<u64>, root: Node, node: Node, key: u32) -> Result<Seq<Seq<char>>, SelectError>
    decreases node, 1nat,
{
    match selection(ln, root, node, key, 1) {
        Err(e) => Err(e),
        Ok(t) => extend(ln, root, node, key, t[0]),
    }
}

/// The leaf path that starts with the name `x` drawn at `node`: `x` alone for a device,
/// else `x` and a descent from the child of that name.
pub open spec fn extend(ln: Seq<u64>, root: Node, node: Node, key: u32, x: Seq<char>) -> Result<
    Seq<Seq<char>>,
    SelectError,
>
    decreases node, 0nat,
{
    if is_leaf_name(x) {
        Ok(seq![x])
    } else {
        match child_index(node.children@, x) {
            None => Err(SelectError::NoSuchPath),
            Some(i) => if 0 <= i < node.children@.len() {
                match descend(ln, root, node.children@[i].node, key) {
                    Ok(rest) => Ok(seq![x] + rest),
                    Err(e) => Err(e),
                }
            } else {
                Err(SelectError::NoSuchPath)
            },
        }
    }
}

/// The paths that the top-level picks `picks` extend to, in the order of the picks;
/// the first failure wins.
pub open spec fn placements(ln: Seq<u64>, root: Node, key: u32, picks: Seq<Seq<char>>) -> Result<
    Seq<Seq<char>>,
    SelectError,
>
    decreases picks.len(),
{
    if picks.len() == 0 {
        Ok(seq![])
    } else {
        match placements(ln, root, key, picks.drop_last()) {
            Err(e) => Err(e),
            Ok(ps) => match extend(ln, root, root, key, picks.last()) {
                Err(e) => Err(e),
                Ok(c) => Ok(ps.push(join(c))),
            },
        }
    }
}

/// The leaf paths of `replicas` replicas of `key`, before sorting: distinct top-level
/// picks, each extended down to a device.
pub open spec fn located(ln: Seq<u64>, root: Node, key: u32, replicas: u32) -> Result<
    Seq<Seq<char>>,
    SelectError,
> {
    match selection(ln, root, root, key, replicas) {
        Err(e) => Err(e),
        Ok(picks) => placements(ln, root, key, picks),
    }
}

/// `r` stands for `res` with the strings seen as their views.
pub open spec fn names_result(r: Result<Vec<String>, SelectError>, res: Result<Seq<Seq<char>>, SelectError>) -> bool {
    match r {
        Ok(v) => res == Ok::<Seq<Seq<char>>, SelectError>(views(v@)),
        Err(e) => res == Err::<Seq<Seq<char>>, SelectError>(e),
    }
}

impl Crush {
    /// The cluster map.
    pub closed spec fn tree(&self) -> Node {
        self.root
    }

    /// The logarithm table.
    pub closed spec fn ln(&self) -> Seq<u64> {
        self.ln_table@
    }

    /// The table has its full length and every node keeps its children in name order.
    pub closed spec fn inv(&self) -> bool {
        &&& self.ln_table@.len() == LN_TABLE_LEN
        &&& wf(self.root)
    }

    /// An engine with an empty map over the given logarithm table, whose entry `i` is
    /// `-ln(i / 65536) * 2^44` rounded (the largest `u64` at zero). None when the table
    /// does not have 65536 entries.
    pub fn new(ln_table: Vec<u64>) -> (r: Option<Crush>)
        ensures
            r is Some <==> ln_table@.len() == LN_TABLE_LEN,
            r matches Some(c) ==> {
                &&& c.inv()
                &&& c.ln() == ln_table@
                &&& c.tree().weight == 0
                &&& !c.tree().out
                &&& c.tree().children@.len() == 0
            },
    {
        if ln_table.len() != LN_TABLE_LEN {
            return None;
        }
        let root = Node::empty();
        proof {
            assert forall|q: Seq<Seq<char>>| #[trigger] node_at(root, q) is Some implies crate::node::well_kept(
                node_at(root, q)->0.children@,
            ) by {
                if q.len() > 0 {
                    crate::node::lemma_child_index_none(root.children@, q[0]);
                }
            }
        }
        Some(Crush { root, ln_table })
    }

    /// Adds `weight` to every node along `path`, the root included, creating the
    /// missing ones; weights wrap around modulo 2^64.
    pub fn add_weight(&mut self, path: &str, weight: i64)
        requires
            old(self).inv(),
        ensures
            final(self).inv(),
            final(self).ln() == old(self).ln(),
            added(old(self).tree(), final(self).tree(), components(path@), weight),
    {
        let comps = split_path(path);
        assert(views(comps@).skip(0) =~= views(comps@));
        self.root.add_weight_at(&comps, 0, weight);
    }

    /// Selects `num` distinct children of the node at `start_path` for `pgid`.
    pub fn select(&self, pgid: u32, num: u32, start_path: &str) -> (r: Result<Vec<String>, SelectError>)
        requires
            self.inv(),
        ensures
            r == Err::<Vec<String>, SelectError>(SelectError::NoSuchPath) <==> node_at(self.tree(), components(start_path@)) is None,
            node_at(self.tree(), components(start_path@)) matches Some(start) ==> names_result(
                r,
                selection(self.ln(), self.tree(), start, pgid, num),
            ),
            r matches Ok(v) ==> {
                &&& v@.len() == num
                &&& views(v@).no_duplicates()
                &&& forall|k: int| 0 <= k < v@.len() ==> {
                    ||| in_child_of(node_at(self.tree(), components(start_path@))->0, #[trigger] v@[k]@)
                    ||| in_child_of(self.tree(), v@[k]@)
                }
            },
    {
        match self.get_node_by_path(start_path) {
            None => Err(SelectError::NoSuchPath),
            Some(start) => self.select_from(start, pgid, num),
        }
    }

    /// The node at `path`, if there is one.
    fn get_node_by_path(&self, path: &str) -> (r: Option<&Node>)
        ensures
            r matches Some(m) ==> node_at(self.root, components(path@)) == Some(*m),
            r is None ==> node_at(self.root, components(path@)) is None,
    {
        let comps = split_path(path);
        assert(views(comps@).skip(0) =~= views(comps@));
        self.root.lookup(&comps, 0)
    }

    /// Selects `num` distinct children of `start`, retrying on rejection.
    fn select_from(&self, start: &Node, key: u32, num: u32) -> (r: Result<Vec<String>, SelectError>)
        requires
            self.inv(),
        ensures
            names_result(r, selection(self.ln(), self.tree(), *start, key, num)),
            r != Err::<Vec<String>, SelectError>(SelectError::NoSuchPath),
            r matches Ok(v) ==> {
                &&& v@.len() == num
                &&& views(v@).no_duplicates()
                &&& forall|k: int| 0 <= k < v@.len() ==> in_child_of(*start, #[trigger] v@[k]@) || in_child_of(self.tree(), v@[k]@)
            },
    {
        let ghost ln = self.ln_table@;
        let ghost total = selection(ln, self.root, *start, key, num);
        let mut targets: Vec<String> = Vec::new();
        let mut fc: u32 = 0;
        let mut r: u32 = 0;
        assert(views(targets@) =~= seq![]);
        while r < num
            invariant
                self.inv(),
                ln == self.ln_table@,
                total == selection(ln, self.root, *start, key, num),
                r <= num,
                select_run(ln, self.root, *start, key, num, r as nat, fc as nat, 0, false, views(targets@)) == total,
            decreases num - r,
        {
            let mut at_root = false;
            let mut lf: u32 = 0;
            loop
                invariant_except_break
                    lf <= 3,
                    select_run(ln, self.root, *start, key, num, r as nat, fc as nat, lf as nat, at_root, views(targets@)) == total,
                invariant
                    self.inv(),
                    ln == self.ln_table@,
                    total == selection(ln, self.root, *start, key, num),
                    r < num,
                ensures
                    select_run(ln, self.root, *start, key, num, (r + 1) as nat, fc as nat, 0, false, views(targets@)) == total,
                decreases u32::MAX - fc,
            {
                if fc > u32::MAX - r {
                    assert(total == Err::<Seq<Seq<char>>, SelectError>(SelectError::Exhausted));
                    return Err(SelectError::Exhausted);
                }
                let idx = r + fc;
                let node = if at_root {
                    &self.root
                } else {
                    start
                };
                match node.pick(&self.ln_table, key, idx) {
                    None => {
                        assert(total == Err::<Seq<Seq<char>>, SelectError>(SelectError::NoCandidates));
                        return Err(SelectError::NoCandidates);
                    },
                    Some(i) => {
                        let ch = &node.children[i];
                        if !ch.node.out && !crate::select::holds_name(&targets, &ch.name) {
                            let ghost before = views(targets@);
                            targets.push(ch.name.clone());
                            assert(views(targets@) =~= before.push(ch.name@));
                            break;
                        }
                        if fc == u32::MAX {
                            proof {
                                let t = views(targets@);
                                assert(select_run(ln, self.root, *start, key, num, r as nat, (fc + 1) as nat, 0, true, t) == Err::<Seq<Seq<char>>, SelectError>(SelectError::Exhausted));
                                assert(select_run(ln, self.root, *start, key, num, r as nat, (fc + 1) as nat, (lf + 1) as nat, at_root, t) == Err::<Seq<Seq<char>>, SelectError>(SelectError::Exhausted));
                            }
                            return Err(SelectError::Exhausted);
                        }
                        fc += 1;
                        lf += 1;
                        if lf > 3 {
                            at_root = true;
                            lf = 0;
                        }
                    },
                }
            }
            r += 1;
        }
        proof {
            assert(select_run(ln, self.root, *start, key, num, r as nat, fc as nat, 0, false, views(targets@)) == Ok::<Seq<Seq<char>>, SelectError>(views(targets@)));
            assert(Seq::<Seq<char>>::empty().no_duplicates());
            lemma_run_ok(ln, self.root, *start, key, num, 0, 0, 0, false, Seq::<Seq<char>>::empty());
            assert forall|k: int| 0 <= k < targets@.len() implies in_child_of(*start, #[trigger] targets@[k]@) || in_child_of(self.root, targets@[k]@) by {
                assert(views(targets@)[k] == targets@[k]@);
            }
        }
        Ok(targets)
    }

    /// Draws one child at `node` and goes on below it until a device is accepted.
    fn descend_from(&self, node: &Node, key: u32) -> (r: Result<Vec<String>, SelectError>)
        requires
            self.inv(),
        ensures
            names_result(r, descend(self.ln(), self.tree(), *node, key)),
        decreases *node, 1nat,
    {
        match self.select_from(node, key, 1) {
            Err(e) => Err(e),
            Ok(t) => {
                assert(views(t@)[0] == t@[0]@);
                self.extend_from(node, key, &t[0])
            },
        }
    }

    /// The leaf path that starts with the name `x` drawn at `node`.
    fn extend_from(&self, node: &Node, key: u32, x: &String) -> (r: Result<Vec<String>, SelectError>)
        requires
            self.inv(),
        ensures
            names_result(r, extend(self.ln(), self.tree(), *node, key, x@)),
        decreases *node, 0nat,
    {
        if has_osd(x.as_str()) {
            let mut v: Vec<String> = Vec::new();
            v.push(x.clone());
            assert(views(v@) =~= seq![x@]);
            return Ok(v);
        }
        match node.find(x) {
            None => Err(SelectError::NoSuchPath),
            Some(i) => {
                proof {
                    assert(decreases_to!(*node => node.children));
                    assert(decreases_to!(node.children => node.children@));
                    assert(decreases_to!(node.children@ => node.children@[i as int]));
                }
                match self.descend_from(&node.children[i].node, key) {
                    Err(e) => Err(e),
                    Ok(rest) => {
                        let mut rest = rest;
                        let ghost tail = views(rest@);
                        rest.insert(0, x.clone());
                        assert(views(rest@) =~= seq![x@] + tail);
                        Ok(rest)
                    },
                }
            },
        }
    }

    /// The leaf path that `pgid` is placed on: one child drawn at each level from the
    /// root until a device is accepted.
    pub fn locate(&self, pgid: u32) -> (r: Result<String, SelectError>)
        requires
            self.inv(),
        ensures
            match r {
                Ok(p) => descend(self.ln(), self.tree(), self.tree(), pgid) matches Ok(c) && p@ == join(c),
                Err(e) => descend(self.ln(), self.tree(), self.tree(), pgid) == Err::<Seq<Seq<char>>, SelectError>(e),
            },
    {
        match self.descend_from(&self.root, pgid) {
            Err(e) => Err(e),
            Ok(c) => Ok(join_names(&c)),
        }
    }

    /// The number of devices below `node`: children named as devices, counted down
    /// through the children that are not.
    pub fn get_osds(&self, node: &Node) -> (r: u32)
        requires
            osd_count(*node) <= u32::MAX,
        ensures
            r == osd_count(*node),
        decreases *node,
    {
        let mut count: u32 = 0;
        let mut i: usize = 0;
        while i < node.children.len()
            invariant
                i <= node.children@.len(),
                osd_count(*node) <= u32::MAX,
                count + osd_count_from(node.children@, i as nat) == osd_count(*node),
            decreases node.children@.len() - i,
        {
            let ch = &node.children[i];
            if has_osd(ch.name.as_str()) {
                count += 1;
            } else {
                proof {
                    assert(decreases_to!(*node => node.children));
                    assert(decreases_to!(node.children => node.children@));
                    assert(decreases_to!(node.children@ => node.children@[i as int]));
                }
                count += self.get_osds(&ch.node);
            }
            i += 1;
        }
        count
    }

    /// The recommended number of placement groups for `replicas` replicas: the
    /// smallest power of two at least `100 * devices / replicas`.
    pub fn get_recommended_pgs(&self, replicas: u32) -> (r: u32)
        requires
            replicas > 0,
            osd_count(self.tree()) * 100 <= u32::MAX,
            (osd_count(self.tree()) * 100) as int / (replicas as int) <= 0x8000_0000,
        ensures
            ({
                let q = (osd_count(self.tree()) * 100) as int / (replicas as int);
                &&& is_pow2(r as int)
                &&& r >= q
                &&& r == 1 || r / 2 < q
            }),
    {
        find_next_power_of_2(self.get_osds(&self.root) * 100 / replicas)
    }

    /// The sorted leaf paths of `replicas` replicas of `pgid`: distinct children of the
    /// root, each extended down to a device.
    pub fn locate_all(&self, pgid: u32, replicas: u32) -> (r: Result<Vec<String>, SelectError>)
        requires
            self.inv(),
        ensures
            match r {
                Ok(v) => located(self.ln(), self.tree(), pgid, replicas) matches Ok(ps) && views(v@).to_multiset()
                    == ps.to_multiset() && sorted_paths(views(v@)),
                Err(e) => located(self.ln(), self.tree(), pgid, replicas) == Err::<Seq<Seq<char>>, SelectError>(e),
            },
    {
        let picks = match self.select_from(&self.root, pgid, replicas) {
            Err(e) => {
                return Err(e);
            },
            Ok(p) => p,
        };
        let ghost pv = views(picks@);
        let mut paths: Vec<String> = Vec::new();
        let mut i: usize = 0;
        assert(pv.subrange(0, 0) =~= seq![]);
        assert(views(paths@) =~= seq![]);
        while i < picks.len()
            invariant
                self.inv(),
                pv == views(picks@),
                selection(self.ln(), self.tree(), self.tree(), pgid, replicas) == Ok::<Seq<Seq<char>>, SelectError>(pv),
                i <= picks@.len(),
                placements(self.ln(), self.tree(), pgid, pv.subrange(0, i as int)) == Ok::<Seq<Seq<char>>, SelectError>(views(paths@)),
            decreases picks@.len() - i,
        {
            assert(pv.subrange(0, i + 1).drop_last() =~= pv.subrange(0, i as int));
            assert(pv.subrange(0, i + 1).last() == picks@[i as int]@);
            match self.extend_from(&self.root, pgid, &picks[i]) {
                Err(e) => {
                    proof {
                        assert(placements(self.ln(), self.tree(), pgid, pv.subrange(0, i + 1)) == Err::<Seq<Seq<char>>, SelectError>(e));
                        lemma_placements_err(self.ln(), self.tree(), pgid, pv, i + 1);
                    }
                    return Err(e);
                },
                Ok(c) => {
                    let p = join_names(&c);
                    let ghost before = views(paths@);
                    paths.push(p);
                    assert(views(paths@) =~= before.push(p@));
                },
            }
            i += 1;
        }
        assert(pv.subrange(0, picks@.len() as int) =~= pv);
        Ok(sort_paths(paths))
    }

    /// The weight of the whole cluster.
    pub fn total_weight(&self) -> (r: u64)
        ensures
            r == self.tree().weight,
    {
        self.root.weight
    }

    /// The weight of the node at `path`.
    pub fn get_weight(&self, path: &str) -> (r: u64)
        requires
            node_at(self.tree(), components(path@)) is Some,
        ensures
            r == weight_at(self.tree(), components(path@)),
    {
        match self.get_node_by_path(path) {
            Some(n) => n.weight,
            None => 0,
        }
    }

    /// Marks the node at `path` out (`true`) or in (`false`).
    pub fn set_inout(&mut self, path: &str, out: bool)
        requires
            old(self).inv(),
            node_at(old(self).tree(), components(path@)) is Some,
        ensures
            final(self).inv(),
            final(self).ln() == old(self).ln(),
            marked(old(self).tree(), final(self).tree(), components(path@), out),
    {
        let comps = split_path(path);
        assert(views(comps@).skip(0) =~= views(comps@));
        self.root.set_out_at(&comps, 0, out);
    }

    /// Whether the node at `path` is out.
    pub fn get_inout(&self, path: &str) -> (r: bool)
        requires
            node_at(self.tree(), components(path@)) is Some,
        ensures
            r == out_at(self.tree(), components(path@)),
    {
        match self.get_node_by_path(path) {
            Some(n) => n.out,
            None => false,
        }
    }
}

/// Once the picks up to `k` fail, so do all of them, with the same error.
proof fn lemma_placements_err(ln: Seq<u64>, root: Node, key: u32, picks: Seq<Seq<char>>, k: int)
    requires
        0 <= k <= picks.len(),
        placements(ln, root, key, picks.subrange(0, k)) is Err,
    ensures
        placements(ln, root, key, picks) == placements(ln, root, key, picks.subrange(0, k)),
    decreases picks.len(),
{
    if k < picks.len() {
        assert(picks.drop_last().subrange(0, k) =~= picks.subrange(0, k));
        lemma_placements_err(ln, root, key, picks.drop_last(), k);
    } else {
        assert(picks.subrange(0, k) =~= picks);
    }
}

/// `p` begins with the whole name `x`: `x` is a prefix of `p`, followed by a slash or nothing.
pub open spec fn begins_with_name(p: Seq<char>, x: Seq<char>) -> bool {
    &&& x.is_prefix_of(p)
    &&& (p.len() == x.len() || p[x.len() as int] == '/')
}

proof fn lemma_join_begins(c: Seq<Seq<char>>)
    requires
        c.len() > 0,
    ensures
        begins_with_name(join(c), c[0]),
    decreases c.len(),
{
    if c.len() > 1 {
        let d = c.drop_last();
        lemma_join_begins(d);
        let j = join(d);
        let x = c[0];
        assert(d[0] == x);
        let jj = j + seq!['/'] + c.last();
        assert(join(c) == jj);
        assert(jj.subrange(0, x.len() as int) =~= j.subrange(0, x.len() as int));
        if j.len() == x.len() {
            assert(jj[x.len() as int] == '/');
        } else {
            assert(jj[x.len() as int] == j[x.len() as int]);
        }
    } else {
        assert(c[0].subrange(0, c[0].len() as int) =~= c[0]);
    }
}

proof fn lemma_placements_begin(ln: Seq<u64>, root: Node, key: u32, picks: Seq<Seq<char>>)
    requires
        placements(ln, root, key, picks) is Ok,
    ensures
        placements(ln, root, key, picks)->Ok_0.len() == picks.len(),
        forall|k: int| 0 <= k < picks.len() ==> begins_with_name(
            #[trigger] placements(ln, root, key, picks)->Ok_0[k],
            picks[k],
        ),
    decreases picks.len(),
{
    if picks.len() > 0 {
        let d = picks.drop_last();
        lemma_placements_begin(ln, root, key, d);
        let c = extend(ln, root, root, key, picks.last())->Ok_0;
        assert(c.len() > 0 && c[0] == picks.last());
        lemma_join_begins(c);
        let ps = placements(ln, root, key, picks)->Ok_0;
        assert forall|k: int| 0 <= k < picks.len() implies begins_with_name(#[trigger] ps[k], picks[k]) by {
            if k < d.len() {
                assert(ps[k] == placements(ln, root, key, d)->Ok_0[k]);
                assert(picks[k] == d[k]);
            }
        }
    }
}

/// Replicas come from distinct subtrees of the root: when `locate_all` succeeds, its
/// paths have pairwise distinct top-level components, each the name of a child of the
/// root that is in, drawn by the top-level selection.
pub proof fn lemma_located_diverse(c: Crush, pgid: u32, replicas: u32)
    requires
        c.inv(),
        located(c.ln(), c.tree(), pgid, replicas) is Ok,
    ensures
        selection(c.ln(), c.tree(), c.tree(), pgid, replicas) matches Ok(picks) && {
            let ps = located(c.ln(), c.tree(), pgid, replicas)->Ok_0;
            &&& picks.len() == replicas
            &&& ps.len() == replicas
            &&& forall|k: int| 0 <= k < ps.len() ==> top(#[trigger] ps[k]) == picks[k]
            &&& forall|k: int| 0 <= k < ps.len() ==> in_child_of(c.tree(), #[trigger] top(ps[k]))
            &&& forall|a: int, b: int| 0 <= a < b < ps.len() ==> top(#[trigger] ps[a]) != top(#[trigger] ps[b])
        },
{
    let (ln, root) = (c.ln(), c.tree());
    assert(Seq::<Seq<char>>::empty().no_duplicates());
    lemma_run_ok(ln, root, root, pgid, replicas, 0, 0, 0, false, Seq::<Seq<char>>::empty());
    let picks = selection(ln, root, root, pgid, replicas)->Ok_0;
    lemma_placements_begin(ln, root, pgid, picks);
    let ps = located(ln, root, pgid, replicas)->Ok_0;
    assert(node_at(root, seq![]) is Some);
    assert forall|k: int| 0 <= k < ps.len() implies top(#[trigger] ps[k]) == picks[k] by {
        assert(in_child_of(root, picks[k]));
        let i = choose|i: int| 0 <= i < root.children@.len() && root.children@[i].name@ == picks[k] && !root.children@[i].node.out;
        assert(plain_name(root.children@[i].name@));
        lemma_top_of(ps[k], picks[k]);
    }
}

/// Placement is deterministic: any two lists that `locate_all` may return for the same
/// engine and key (sorted, holding the paths of the placement) are the same list.
pub proof fn lemma_locate_all_deterministic(c: Crush, pgid: u32, replicas: u32, a: Seq<Seq<char>>, b: Seq<Seq<char>>)
    requires
        located(c.ln(), c.tree(), pgid, replicas) is Ok,
        a.to_multiset() == located(c.ln(), c.tree(), pgid, replicas)->Ok_0.to_multiset(),
        b.to_multiset() == located(c.ln(), c.tree(), pgid, replicas)->Ok_0.to_multiset(),
        sorted_paths(a),
        sorted_paths(b),
    ensures
        a == b,
{
    lemma_sorted_unique(a, b);
}

} // verus!
