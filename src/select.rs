//! The straw draw among the children of a node, and the selection of distinct
//! children with retry on rejection.
use vstd::prelude::*;
use std::collections::hash_map::DefaultHasher;
use std::hash::BuildHasher;
use std::hash::BuildHasherDefault;
use crate::node::{Child, Node};
use crate::path::views;

verus! {

/// Size of the logarithm table that the straw draw reads.
pub const LN_TABLE_LEN: usize = 65536;

/// The 64-bit hash of a child's name, a key and an index, as std's
/// `DefaultHasher` computes it.
pub uninterp spec fn straw_hash(name: Seq<char>, key: u32, index: u32) -> u64;

/// Relies on std's `DefaultHasher` as `BuildHasherDefault` makes it, that is with
/// the fixed keys of `DefaultHasher::new` and no per-process seed: the hash of the
/// triple `(name, key, index)` depends on the three values alone.
#[verifier::external_body]
fn hash_of(name: &str, key: u32, index: u32) -> (r: u64)
    ensures
        r == straw_hash(name@, key, index),
{
    BuildHasherDefault::<DefaultHasher>::default().hash_one((name, key, index))
}

/// Why a selection gave no result.
#[derive(PartialEq, Eq, Structural, Debug, Clone, Copy)]
pub enum SelectError {
    /// A path names no node of the map.
    NoSuchPath,
    /// The node to choose from has no child of positive weight.
    NoCandidates,
    /// The draw index ran past `u32::MAX` before enough children were accepted.
    Exhausted,
}

/// The straw for a hash and a weight: the table entry at the low 16 bits of the hash,
/// divided by the weight.
pub open spec fn straw_of(ln: Seq<u64>, hash: u64, weight: u64) -> int {
    ln[(hash % 65536) as int] as int / weight as int
}

/// The straw of a child for a key and an index. The smallest straw wins.
pub open spec fn straw(ln: Seq<u64>, ch: Child, key: u32, index: u32) -> int {
    straw_of(ln, straw_hash(ch.name@, key, index), ch.node.weight)
}

/// The straw for `hash` and a positive `weight`.
pub fn straw_value(ln: &Vec<u64>, hash: u64, weight: u64) -> (r: u64)
    requires
        ln@.len() == LN_TABLE_LEN,
        weight > 0,
    ensures
        r == straw_of(ln@, hash, weight),
{
    let slot = hash & 0xFFFF;
    assert(slot == hash % 65536) by (bit_vector)
        requires
            slot == hash & 0xFFFF,
    ;
    ln[slot as usize] / weight
}

/// Child `i` has positive weight and the smallest straw, and no child before it
/// has as small a one.
pub open spec fn first_min(ln: Seq<u64>, cs: Seq<Child>, key: u32, index: u32, i: int) -> bool {
    &&& 0 <= i < cs.len()
    &&& cs[i].node.weight > 0
    &&& forall|j: int|
        0 <= j < cs.len() && cs[j].node.weight > 0 ==> {
            &&& straw(ln, cs[i], key, index) <= #[trigger] straw(ln, cs[j], key, index)
            &&& j < i ==> straw(ln, cs[j], key, index) > straw(ln, cs[i], key, index)
        }
}

/// The child that the draw picks for `(key, index)`; none when no child has positive weight.
pub open spec fn chosen(ln: Seq<u64>, cs: Seq<Child>, key: u32, index: u32) -> Option<int> {
    if exists|i: int| first_min(ln, cs, key, index, i) {
        Some(choose|i: int| first_min(ln, cs, key, index, i))
    } else {
        None
    }
}

/// Runs of the selection: `r` replicas accepted so far with `fc` rejections in all and
/// `lf` since the last restart, drawing at the root once `at_root`, with `targets` accepted.
/// A draw uses index `r + fc`. An accepted child is in and not yet among the targets;
/// the fourth rejection in a row restarts the draws at the root.
pub open spec fn select_run(
    ln: Seq<u64>,
    root: Node,
    start: Node,
    key: u32,
    num: u32,
    r: nat,
    fc: nat,
    lf: nat,
    at_root: bool,
    targets: Seq<Seq<char>>,
) -> Result<Seq<Seq<char>>, SelectError>
    decreases 0x1_0000_0000 - r - fc,
{
    if r >= num {
        Ok(targets)
    } else if r + fc > u32::MAX {
        Err(SelectError::Exhausted)
    } else {
        let node = if at_root {
            root
        } else {
            start
        };
        match chosen(ln, node.children@, key, (r + fc) as u32) {
            None => Err(SelectError::NoCandidates),
            Some(i) => {
                let ch = node.children@[i];
                if !ch.node.out && !targets.contains(ch.name@) {
                    select_run(ln, root, start, key, num, r + 1, fc, 0, false, targets.push(ch.name@))
                } else if lf + 1 > 3 {
                    select_run(ln, root, start, key, num, r, fc + 1, 0, true, targets)
                } else {
                    select_run(ln, root, start, key, num, r, fc + 1, lf + 1, at_root, targets)
                }
            },
        }
    }
}

/// The names that a selection of `num` children from `start` accepts.
pub open spec fn selection(ln: Seq<u64>, root: Node, start: Node, key: u32, num: u32) -> Result<
    Seq<Seq<char>>,
    SelectError,
> {
    select_run(ln, root, start, key, num, 0, 0, 0, false, seq![])
}

/// `name` names a child of `n` that is in.
pub open spec fn in_child_of(n: Node, name: Seq<char>) -> bool {
    exists|i: int| 0 <= i < n.children@.len() && n.children@[i].name@ == name && !n.children@[i].node.out
}

proof fn lemma_first_min_unique(ln: Seq<u64>, cs: Seq<Child>, key: u32, index: u32, i: int)
    requires
        first_min(ln, cs, key, index, i),
    ensures
        chosen(ln, cs, key, index) == Some(i),
{
    let k = choose|k: int| first_min(ln, cs, key, index, k);
    assert(straw(ln, cs[i], key, index) <= straw(ln, cs[k], key, index));
    assert(straw(ln, cs[k], key, index) <= straw(ln, cs[i], key, index));
}

/// Child `i` wins the draw among the first `n` children.
pub open spec fn first_min_upto(ln: Seq<u64>, cs: Seq<Child>, key: u32, index: u32, n: int, i: int) -> bool {
    &&& 0 <= i < n <= cs.len()
    &&& cs[i].node.weight > 0
    &&& forall|j: int|
        0 <= j < n && cs[j].node.weight > 0 ==> {
            &&& straw(ln, cs[i], key, index) <= #[trigger] straw(ln, cs[j], key, index)
            &&& j < i ==> straw(ln, cs[j], key, index) > straw(ln, cs[i], key, index)
        }
}

proof fn lemma_first_min_upto(ln: Seq<u64>, cs: Seq<Child>, key: u32, index: u32, n: int)
    requires
        0 < n <= cs.len(),
        exists|j: int| 0 <= j < n && cs[j].node.weight > 0,
    ensures
        exists|i: int| first_min_upto(ln, cs, key, index, n, i),
    decreases n,
{
    if exists|j: int| 0 <= j < n - 1 && cs[j].node.weight > 0 {
        let m = n - 1;
        lemma_first_min_upto(ln, cs, key, index, m);
        let i = choose|i: int| first_min_upto(ln, cs, key, index, m, i);
        if cs[n - 1].node.weight > 0 && straw(ln, cs[n - 1], key, index) < straw(ln, cs[i], key, index) {
            assert(first_min_upto(ln, cs, key, index, n, n - 1));
        } else {
            assert(first_min_upto(ln, cs, key, index, n, i));
        }
    } else {
        assert(first_min_upto(ln, cs, key, index, n, n - 1));
    }
}

/// The draw picks a child exactly when some child has positive weight.
pub proof fn lemma_chosen_some(ln: Seq<u64>, cs: Seq<Child>, key: u32, index: u32)
    ensures
        chosen(ln, cs, key, index) is Some <==> exists|j: int| 0 <= j < cs.len() && cs[j].node.weight > 0,
        chosen(ln, cs, key, index) matches Some(i) ==> first_min(ln, cs, key, index, i),
{
    if exists|j: int| 0 <= j < cs.len() && cs[j].node.weight > 0 {
        let n = cs.len() as int;
        lemma_first_min_upto(ln, cs, key, index, n);
        let i = choose|i: int| first_min_upto(ln, cs, key, index, n, i);
        assert(first_min(ln, cs, key, index, i));
    }
}

/// What a run that succeeds returns: `num` names, pairwise distinct, each an in child
/// of the start node or of the root, the targets of the run first.
pub proof fn lemma_run_ok(
    ln: Seq<u64>,
    root: Node,
    start: Node,
    key: u32,
    num: u32,
    r: nat,
    fc: nat,
    lf: nat,
    at_root: bool,
    targets: Seq<Seq<char>>,
)
    requires
        targets.len() == r,
        r <= num,
        targets.no_duplicates(),
        forall|k: int| 0 <= k < targets.len() ==> in_child_of(start, #[trigger] targets[k]) || in_child_of(root, targets[k]),
        select_run(ln, root, start, key, num, r, fc, lf, at_root, targets) is Ok,
    ensures
        ({
            let res = select_run(ln, root, start, key, num, r, fc, lf, at_root, targets)->Ok_0;
            &&& res.len() == num
            &&& res.no_duplicates()
            &&& forall|k: int| 0 <= k < res.len() ==> in_child_of(start, #[trigger] res[k]) || in_child_of(root, res[k])
        }),
    decreases 0x1_0000_0000 - r - fc,
{
    if r < num && r + fc <= u32::MAX {
        let node = if at_root {
            root
        } else {
            start
        };
        let i = chosen(ln, node.children@, key, (r + fc) as u32)->0;
        let ch = node.children@[i];
        if !ch.node.out && !targets.contains(ch.name@) {
            let t2 = targets.push(ch.name@);
            assert forall|k: int| 0 <= k < t2.len() implies in_child_of(start, #[trigger] t2[k]) || in_child_of(root, t2[k]) by {
                if k == targets.len() {
                    if at_root {
                        assert(in_child_of(root, t2[k]));
                    } else {
                        assert(in_child_of(start, t2[k]));
                    }
                } else {
                    assert(t2[k] == targets[k]);
                }
            }
            assert(t2.no_duplicates()) by {
                assert forall|a: int, b: int| 0 <= a < b < t2.len() implies t2[a] != t2[b] by {
                    if b == targets.len() {
                        assert(targets[a] == t2[a]);
                    }
                }
            }
            lemma_run_ok(ln, root, start, key, num, r + 1, fc, 0, false, t2);
        } else if lf + 1 > 3 {
            lemma_run_ok(ln, root, start, key, num, r, fc + 1, 0, true, targets);
        } else {
            lemma_run_ok(ln, root, start, key, num, r, fc + 1, lf + 1, at_root, targets);
        }
    }
}

/// Whether `name` is among `names`.
pub fn holds_name(names: &Vec<String>, name: &String) -> (r: bool)
    ensures
        r == views(names@).contains(name@),
{
    let mut i: usize = 0;
    while i < names.len()
        invariant
            i <= names@.len(),
            forall|j: int| 0 <= j < i ==> names@[j]@ != name@,
        decreases names@.len() - i,
    {
        if names[i] == *name {
            assert(views(names@)[i as int] == name@);
            return true;
        }
        i += 1;
    }
    assert forall|j: int| 0 <= j < views(names@).len() implies views(names@)[j] != name@ by {}
    false
}

impl Node {
    /// The straw draw among the children for `(key, index)`: the position of the
    /// child of positive weight with the smallest straw, the first one on a tie.
    pub fn pick(&self, ln: &Vec<u64>, key: u32, index: u32) -> (r: Option<usize>)
        requires
            ln@.len() == LN_TABLE_LEN,
        ensures
            r matches Some(i) ==> chosen(ln@, self.children@, key, index) == Some(i as int),
            r is None ==> chosen(ln@, self.children@, key, index) is None,
    {
        let mut best: Option<usize> = None;
        let mut best_w: u64 = 0;
        let mut i: usize = 0;
        let ghost cs = self.children@;
        while i < self.children.len()
            invariant
                ln@.len() == LN_TABLE_LEN,
                i <= cs.len(),
                cs == self.children@,
                best is None ==> forall|j: int| 0 <= j < i ==> cs[j].node.weight == 0,
                best matches Some(b) ==> {
                    &&& b < i
                    &&& cs[b as int].node.weight > 0
                    &&& best_w == straw(ln@, cs[b as int], key, index)
                    &&& forall|j: int|
                        0 <= j < i && cs[j].node.weight > 0 ==> {
                            &&& best_w <= #[trigger] straw(ln@, cs[j], key, index)
                            &&& j < b ==> straw(ln@, cs[j], key, index) > best_w
                        }
                },
            decreases cs.len() - i,
        {
            let ch = &self.children[i];
            if ch.node.weight > 0 {
                let w = straw_value(ln, hash_of(ch.name.as_str(), key, index), ch.node.weight);
                match best {
                    None => {
                        best = Some(i);
                        best_w = w;
                    },
                    Some(b) => {
                        if w < best_w {
                            best = Some(i);
                            best_w = w;
                        }
                    },
                }
            }
            i += 1;
        }
        match best {
            Some(b) => {
                proof {
                    lemma_first_min_unique(ln@, cs, key, index, b as int);
                }
            },
            None => {},
        }
        best
    }
}

} // verus!
