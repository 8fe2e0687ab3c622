//! Paths of the cluster map, leaf names, and the lexicographic order on names.
use vstd::prelude::*;
use vstd::string::*;

verus! {

/// The views of a sequence of strings.
pub open spec fn views(v: Seq<String>) -> Seq<Seq<char>> {
    v.map_values(|s: String| s@)
}

/// Position of the first slash in `s`, or its length when it has none.
pub open spec fn slash_pos(s: Seq<char>) -> nat
    decreases s.len(),
{
    if s.len() == 0 || s[0] == '/' {
        0
    } else {
        1 + slash_pos(s.drop_first())
    }
}

/// A name without a slash, which a path can hold as one component.
pub open spec fn plain_name(s: Seq<char>) -> bool {
    forall|i: int| 0 <= i < s.len() ==> s[i] != '/'
}

/// The top-level component of a path: what comes before its first slash.
pub open spec fn top(p: Seq<char>) -> Seq<char> {
    p.subrange(0, slash_pos(p) as int)
}

/// The components of a path: the names between slashes, from the front.
/// The empty path has none; a slash at the very end closes the last name.
pub open spec fn components(p: Seq<char>) -> Seq<Seq<char>>
    decreases p.len(),
{
    if p.len() == 0 {
        seq![]
    } else {
        let k = slash_pos(p) as int;
        if k < p.len() {
            seq![p.subrange(0, k)] + components(p.subrange(k + 1, p.len() as int))
        } else {
            seq![p]
        }
    }
}

/// `osd` stands in `s` at position `i`.
pub open spec fn osd_at(s: Seq<char>, i: int) -> bool {
    0 <= i && i + 3 <= s.len() && s[i] == 'o' && s[i + 1] == 's' && s[i + 2] == 'd'
}

/// A name that holds `osd` marks a device, a leaf of the cluster map.
pub open spec fn is_leaf_name(s: Seq<char>) -> bool {
    exists|i: int| #[trigger] osd_at(s, i)
}

/// The components joined by slashes.
pub open spec fn join(c: Seq<Seq<char>>) -> Seq<char>
    decreases c.len(),
{
    if c.len() == 0 {
        seq![]
    } else if c.len() == 1 {
        c[0]
    } else {
        join(c.drop_last()) + seq!['/'] + c.last()
    }
}

/// Paths in nondecreasing lexicographic order.
pub open spec fn sorted_paths(s: Seq<Seq<char>>) -> bool {
    forall|i: int, j: int| 0 <= i < j < s.len() ==> !lex_lt(#[trigger] s[j], #[trigger] s[i])
}

/// Strict lexicographic order by code point, which is also the order of the UTF-8 bytes.
pub open spec fn lex_lt(a: Seq<char>, b: Seq<char>) -> bool
    decreases a.len(),
{
    if a.len() == 0 {
        b.len() > 0
    } else if b.len() == 0 {
        false
    } else if a[0] != b[0] {
        (a[0] as int) < (b[0] as int)
    } else {
        lex_lt(a.drop_first(), b.drop_first())
    }
}

proof fn lemma_slash_pos_bounds(s: Seq<char>)
    ensures
        slash_pos(s) <= s.len(),
        forall|j: int| 0 <= j < slash_pos(s) ==> s[j] != '/',
    decreases s.len(),
{
    if s.len() > 0 && s[0] != '/' {
        lemma_slash_pos_bounds(s.drop_first());
        assert forall|j: int| 0 <= j < slash_pos(s) implies s[j] != '/' by {
            if j > 0 {
                assert(s[j] == s.drop_first()[j - 1]);
            }
        }
    }
}

/// Every component of a path is a plain name.
pub proof fn lemma_components_plain(p: Seq<char>)
    ensures
        forall|i: int| 0 <= i < components(p).len() ==> plain_name(#[trigger] components(p)[i]),
    decreases p.len(),
{
    if p.len() > 0 {
        let k = slash_pos(p) as int;
        lemma_slash_pos_bounds(p);
        if k < p.len() {
            let rest = p.subrange(k + 1, p.len() as int);
            lemma_components_plain(rest);
            assert forall|i: int| 0 <= i < components(p).len() implies plain_name(#[trigger] components(p)[i]) by {
                if i > 0 {
                    assert(components(p)[i] == components(rest)[i - 1]);
                }
            }
        } else {
            assert(components(p) == seq![p]);
        }
    }
}

/// A path that begins with a plain name has that name as its top-level component.
pub proof fn lemma_top_of(p: Seq<char>, x: Seq<char>)
    requires
        plain_name(x),
        x.is_prefix_of(p),
        p.len() == x.len() || p[x.len() as int] == '/',
    ensures
        top(p) == x,
{
    assert forall|j: int| 0 <= j < x.len() implies p[j] != '/' by {
        assert(p[j] == p.subrange(0, x.len() as int)[j]);
    }
    lemma_slash_pos(p, x.len() as int);
    assert(top(p) =~= x);
}

proof fn lemma_slash_pos(s: Seq<char>, k: int)
    requires
        0 <= k <= s.len(),
        forall|j: int| 0 <= j < k ==> s[j] != '/',
        k == s.len() || s[k] == '/',
    ensures
        slash_pos(s) == k,
    decreases k,
{
    if k > 0 {
        lemma_slash_pos(s.drop_first(), k - 1);
    }
}

pub proof fn lemma_lex_total(a: Seq<char>, b: Seq<char>)
    ensures
        a != b ==> lex_lt(a, b) || lex_lt(b, a),
        !(lex_lt(a, b) && lex_lt(b, a)),
    decreases a.len(),
{
    if a.len() > 0 && b.len() > 0 && a[0] == b[0] {
        lemma_lex_total(a.drop_first(), b.drop_first());
        if a.drop_first() == b.drop_first() {
            assert(a =~= seq![a[0]] + a.drop_first());
            assert(b =~= seq![b[0]] + b.drop_first());
        }
    } else if a.len() == 0 && b.len() == 0 {
        assert(a =~= b);
    } else if a.len() > 0 && b.len() > 0 {
        assert((a[0] as int) != (b[0] as int));
    }
}

pub proof fn lemma_lex_transitive(a: Seq<char>, b: Seq<char>, c: Seq<char>)
    requires
        lex_lt(a, b),
        lex_lt(b, c),
    ensures
        lex_lt(a, c),
    decreases a.len(),
{
    if a.len() > 0 && a[0] == b[0] && b[0] == c[0] {
        lemma_lex_transitive(a.drop_first(), b.drop_first(), c.drop_first());
    }
}

/// Splits a path into its components.
pub fn split_path(path: &str) -> (r: Vec<String>)
    ensures
        views(r@) == components(path@),
        forall|i: int| 0 <= i < r@.len() ==> plain_name(#[trigger] r@[i]@),
{
    proof {
        lemma_components_plain(path@);
    }
    let n = path.unicode_len();
    let mut comps: Vec<String> = Vec::new();
    let mut start: usize = 0;
    let mut i: usize = 0;
    assert(path@.subrange(0, n as int) =~= path@);
    assert(views(comps@) =~= seq![]);
    while i < n
        invariant
            n == path@.len(),
            start <= i <= n,
            forall|j: int| start <= j < i ==> path@[j] != '/',
            views(comps@) + components(path@.subrange(start as int, n as int)) == components(path@),
        decreases n - i,
    {
        if path.get_char(i) == '/' {
            let ghost sub = path@.subrange(start as int, n as int);
            proof {
                lemma_slash_pos(sub, i - start);
                assert(sub.subrange(0, i - start) =~= path@.subrange(start as int, i as int));
                assert(sub.subrange(i - start + 1, sub.len() as int) =~= path@.subrange(
                    i + 1,
                    n as int,
                ));
            }
            let name = String::from_str(path.substring_char(start, i));
            let ghost before = comps@;
            comps.push(name);
            proof {
                assert(views(comps@) =~= views(before) + seq![path@.subrange(start as int, i as int)]);
            }
            start = i + 1;
        }
        i += 1;
    }
    let ghost sub = path@.subrange(start as int, n as int);
    if start < n {
        proof {
            lemma_slash_pos(sub, sub.len() as int);
        }
        let name = String::from_str(path.substring_char(start, n));
        let ghost before = comps@;
        comps.push(name);
        proof {
            assert(views(comps@) =~= views(before) + seq![sub]);
            assert(components(sub) == seq![sub]);
        }
    } else {
        assert(components(sub) =~= seq![]);
    }
    assert(views(comps@) =~= components(path@));
    assert forall|i: int| 0 <= i < comps@.len() implies plain_name(#[trigger] comps@[i]@) by {
        assert(comps@[i]@ == components(path@)[i]);
    }
    comps
}

/// The names joined by slashes.
pub fn join_names(v: &Vec<String>) -> (r: String)
    ensures
        r@ == join(views(v@)),
{
    let mut s = String::new();
    if v.len() == 0 {
        return s;
    }
    s.append(v[0].as_str());
    assert(views(v@).subrange(0, 1) =~= seq![v@[0]@]);
    let mut i: usize = 1;
    while i < v.len()
        invariant
            1 <= i <= v@.len(),
            s@ == join(views(v@).subrange(0, i as int)),
        decreases v@.len() - i,
    {
        proof {
            reveal_strlit("/");
        }
        s.append("/");
        s.append(v[i].as_str());
        assert(views(v@).subrange(0, i + 1).drop_last() =~= views(v@).subrange(0, i as int));
        i += 1;
    }
    assert(views(v@).subrange(0, v@.len() as int) =~= views(v@));
    s
}

/// The paths in nondecreasing lexicographic order.
pub fn sort_paths(v: Vec<String>) -> (r: Vec<String>)
    ensures
        views(r@).to_multiset() == views(v@).to_multiset(),
        sorted_paths(views(r@)),
{
    let mut out: Vec<String> = Vec::new();
    let mut i: usize = 0;
    assert(views(out@) =~= views(v@.subrange(0, 0)));
    while i < v.len()
        invariant
            i <= v@.len(),
            views(out@).to_multiset() == views(v@.subrange(0, i as int)).to_multiset(),
            sorted_paths(views(out@)),
        decreases v@.len() - i,
    {
        let x = &v[i];
        let mut p: usize = 0;
        while p < out.len()
            invariant
                p <= out@.len(),
                forall|j: int| 0 <= j < p ==> !lex_lt(x@, #[trigger] out@[j]@),
            ensures
                p <= out@.len(),
                forall|j: int| 0 <= j < p ==> !lex_lt(x@, #[trigger] out@[j]@),
                p < out@.len() ==> lex_lt(x@, out@[p as int]@),
            decreases out@.len() - p,
        {
            if lex_less(x.as_str(), out[p].as_str()) {
                break;
            }
            p += 1;
        }
        let ghost before = views(out@);
        out.insert(p, x.clone());
        proof {
            let now = views(out@);
            assert(now =~= before.insert(p as int, x@));
            lemma_insert_multiset(before, p as int, x@);
            assert(views(v@.subrange(0, i + 1)) =~= views(v@.subrange(0, i as int)).push(x@));
            views(v@.subrange(0, i as int)).to_multiset_ensures();
            assert forall|a: int, b: int| 0 <= a < b < now.len() implies !lex_lt(#[trigger] now[b], #[trigger] now[a]) by {
                if b == p && a < p {
                    assert(now[a] == before[a]);
                } else if a == p && b > p {
                    assert(now[b] == before[b - 1]);
                    lemma_lex_total(before[b - 1], x@);
                    if b - 1 > p {
                        if lex_lt(before[b - 1], x@) {
                            lemma_lex_transitive(before[b - 1], x@, before[p as int]);
                        }
                    }
                } else if a < p && b > p {
                    assert(now[a] == before[a]);
                    assert(now[b] == before[b - 1]);
                } else if a > p {
                    assert(now[a] == before[a - 1]);
                    assert(now[b] == before[b - 1]);
                } else {
                    assert(now[a] == before[a]);
                    assert(now[b] == before[b]);
                }
            }
        }
        i += 1;
    }
    assert(v@.subrange(0, v@.len() as int) =~= v@);
    out
}

/// Two lists in nondecreasing order that hold the same paths are the same list.
pub proof fn lemma_sorted_unique(a: Seq<Seq<char>>, b: Seq<Seq<char>>)
    requires
        sorted_paths(a),
        sorted_paths(b),
        a.to_multiset() == b.to_multiset(),
    ensures
        a == b,
    decreases a.len(),
{
    a.to_multiset_ensures();
    b.to_multiset_ensures();
    if a.len() == 0 {
        assert(a =~= b);
    } else {
        let x = a[0];
        let y = b[0];
        assert(a.contains(x));
        assert(b.contains(y));
        assert(a.to_multiset().count(x) > 0);
        assert(b.contains(x));
        assert(b.to_multiset().count(y) > 0);
        assert(a.contains(y));
        if x != y {
            lemma_lex_total(x, y);
            if lex_lt(x, y) {
                let j = choose|j: int| 0 <= j < b.len() && b[j] == x;
                assert(j > 0);
                assert(!lex_lt(b[j], b[0]));
            } else {
                let j = choose|j: int| 0 <= j < a.len() && a[j] == y;
                assert(j > 0);
                assert(!lex_lt(a[j], a[0]));
            }
        }
        assert(a.remove(0) =~= a.drop_first());
        assert(b.remove(0) =~= b.drop_first());
        let a1 = a.drop_first();
        let b1 = b.drop_first();
        assert(sorted_paths(a1)) by {
            assert forall|i: int, j: int| 0 <= i < j < a1.len() implies !lex_lt(#[trigger] a1[j], #[trigger] a1[i]) by {
                assert(a1[i] == a[i + 1] && a1[j] == a[j + 1]);
            }
        }
        assert(sorted_paths(b1)) by {
            assert forall|i: int, j: int| 0 <= i < j < b1.len() implies !lex_lt(#[trigger] b1[j], #[trigger] b1[i]) by {
                assert(b1[i] == b[i + 1] && b1[j] == b[j + 1]);
            }
        }
        lemma_sorted_unique(a1, b1);
        assert(a =~= b) by {
            assert forall|i: int| 0 <= i < a.len() implies a[i] == b[i] by {
                if i > 0 {
                    assert(a[i] == a1[i - 1]);
                    assert(b[i] == b1[i - 1]);
                }
            }
        }
    }
}

proof fn lemma_insert_multiset(s: Seq<Seq<char>>, p: int, x: Seq<char>)
    requires
        0 <= p <= s.len(),
    ensures
        s.insert(p, x).to_multiset() == s.to_multiset().insert(x),
{
    broadcast use vstd::seq_lib::group_to_multiset_ensures;
    let t = s.insert(p, x);
    assert(t.remove(p) =~= s);
    assert(t[p] == x);
    assert(t.to_multiset().count(x) > 0) by {
        assert(t.contains(x));
    }
    assert(t.to_multiset() =~= s.to_multiset().insert(x));
}

/// Whether the name holds `osd`.
pub fn has_osd(s: &str) -> (r: bool)
    ensures
        r == is_leaf_name(s@),
{
    let n = s.unicode_len();
    if n < 3 {
        assert forall|j: int| !#[trigger] osd_at(s@, j) by {}
        return false;
    }
    let mut i: usize = 0;
    while i < n - 2
        invariant
            n == s@.len(),
            n >= 3,
            i <= n - 2,
            forall|j: int| j < i ==> !#[trigger] osd_at(s@, j),
        decreases n - i,
    {
        if s.get_char(i) == 'o' && s.get_char(i + 1) == 's' && s.get_char(i + 2) == 'd' {
            assert(osd_at(s@, i as int));
            return true;
        }
        i += 1;
    }
    assert forall|j: int| !#[trigger] osd_at(s@, j) by {
        if osd_at(s@, j) {
            assert(j < i);
        }
    }
    false
}

/// Whether `a` comes strictly before `b` in lexicographic order.
pub fn lex_less(a: &str, b: &str) -> (r: bool)
    ensures
        r == lex_lt(a@, b@),
{
    let na = a.unicode_len();
    let nb = b.unicode_len();
    let mut i: usize = 0;
    assert(a@.skip(0) =~= a@);
    assert(b@.skip(0) =~= b@);
    while i < na && i < nb
        invariant
            na == a@.len(),
            nb == b@.len(),
            i <= na,
            i <= nb,
            lex_lt(a@, b@) == lex_lt(a@.skip(i as int), b@.skip(i as int)),
        decreases na - i,
    {
        let ca = a.get_char(i);
        let cb = b.get_char(i);
        if ca != cb {
            return (ca as u32) < (cb as u32);
        }
        assert(a@.skip(i as int).drop_first() =~= a@.skip(i + 1));
        assert(b@.skip(i as int).drop_first() =~= b@.skip(i + 1));
        i += 1;
    }
    i == na && i < nb
}

} // verus!
