use vstd::multiset::Multiset;
use vstd::prelude::*;

use crate::node::{
    child_path, concat, diff_child, diff_nodes, diff_upto, empty_diff, first_of_name, has_name,
    last_named, leftovers_upto, lemma_last_named_found, lemma_last_named_unique, unique_names, DiffModel, NodeModel,
    NodeType, PathModel,
};

verus! {

broadcast use vstd::multiset::group_multiset_axioms;

/// An update with its two versions swapped.
pub open spec fn swapped_update(u: (PathModel, NodeModel, NodeModel)) -> (PathModel, NodeModel, NodeModel) {
    (u.0, u.2, u.1)
}

/// The updates of `us`, each with its two versions swapped.
pub open spec fn swapped_updates(us: Seq<(PathModel, NodeModel, NodeModel)>) -> Seq<(PathModel, NodeModel, NodeModel)> {
    us.map_values(|u: (PathModel, NodeModel, NodeModel)| swapped_update(u))
}

/// A diff with the order of its lists left aside.
#[verifier::ext_equal]
struct DiffBag {
    added: Multiset<(PathModel, NodeModel)>,
    removed: Multiset<(PathModel, NodeModel)>,
    updated: Multiset<(PathModel, NodeModel, NodeModel)>,
}

spec fn no_bag() -> DiffBag {
    DiffBag { added: Multiset::empty(), removed: Multiset::empty(), updated: Multiset::empty() }
}

spec fn bag_add(x: DiffBag, y: DiffBag) -> DiffBag {
    DiffBag {
        added: x.added.add(y.added),
        removed: x.removed.add(y.removed),
        updated: x.updated.add(y.updated),
    }
}

/// `d` as bags, read forwards, or backwards when `rev` holds: then the
/// additions count as removals, the removals as additions, and each update
/// has its versions swapped.
spec fn view_bag(d: DiffModel, rev: bool) -> DiffBag {
    if rev {
        DiffBag {
            added: d.removed.to_multiset(),
            removed: d.added.to_multiset(),
            updated: swapped_updates(d.updated).to_multiset(),
        }
    } else {
        DiffBag {
            added: d.added.to_multiset(),
            removed: d.removed.to_multiset(),
            updated: d.updated.to_multiset(),
        }
    }
}

proof fn lemma_empty_to_multiset<A>()
    ensures
        Seq::<A>::empty().to_multiset() == Multiset::<A>::empty(),
{
    broadcast use vstd::seq_lib::group_to_multiset_ensures;

    assert forall|a: A| Seq::<A>::empty().to_multiset().count(a) == 0 by {
        assert(!Seq::<A>::empty().contains(a));
    }
    assert(Seq::<A>::empty().to_multiset() =~= Multiset::<A>::empty());
}

proof fn lemma_no_entries()
    ensures
        Seq::<(PathModel, NodeModel)>::empty().to_multiset() == Multiset::<(PathModel, NodeModel)>::empty(),
        Seq::<(PathModel, NodeModel, NodeModel)>::empty().to_multiset() == Multiset::<(PathModel, NodeModel, NodeModel)>::empty(),
        swapped_updates(Seq::empty()) == Seq::<(PathModel, NodeModel, NodeModel)>::empty(),
{
    lemma_empty_to_multiset::<(PathModel, NodeModel)>();
    lemma_empty_to_multiset::<(PathModel, NodeModel, NodeModel)>();
    assert(swapped_updates(Seq::empty()) =~= Seq::<(PathModel, NodeModel, NodeModel)>::empty());
}

proof fn lemma_bag_algebra(x: DiffBag, y: DiffBag, z: DiffBag)
    ensures
        bag_add(x, no_bag()) == x,
        bag_add(x, y) == bag_add(y, x),
        bag_add(bag_add(x, y), z) == bag_add(x, bag_add(y, z)),
{
    assert(bag_add(x, no_bag()) =~= x);
    assert(bag_add(x, y) =~= bag_add(y, x));
    assert(bag_add(bag_add(x, y), z) =~= bag_add(x, bag_add(y, z)));
}

proof fn lemma_view_concat(a: DiffModel, b: DiffModel, rev: bool)
    ensures
        view_bag(concat(a, b), rev) == bag_add(view_bag(a, rev), view_bag(b, rev)),
{
    vstd::seq_lib::lemma_multiset_commutative(a.added, b.added);
    vstd::seq_lib::lemma_multiset_commutative(a.removed, b.removed);
    vstd::seq_lib::lemma_multiset_commutative(a.updated, b.updated);
    assert(swapped_updates(a.updated + b.updated) =~= swapped_updates(a.updated) + swapped_updates(b.updated));
    vstd::seq_lib::lemma_multiset_commutative(swapped_updates(a.updated), swapped_updates(b.updated));
    assert(view_bag(concat(a, b), rev) =~= bag_add(view_bag(a, rev), view_bag(b, rev)));
}

spec fn distinct_names(cs: Seq<NodeModel>) -> bool {
    forall|i: int, j: int| 0 <= i < j < cs.len() ==> #[trigger] cs[i].name != #[trigger] cs[j].name
}

spec fn names_of(cs: Seq<NodeModel>) -> Set<Seq<char>> {
    Set::new(|x: Seq<char>| has_name(cs, x))
}

/// The child of `cs` named `x`, when there is one.
spec fn named(cs: Seq<NodeModel>, x: Seq<char>) -> NodeModel {
    cs[last_named(cs, x)]
}

/// What comparing the old child `oc` with the new child `c` of one name adds
/// to a diff.
spec fn pair_diff(oc: NodeModel, c: NodeModel, cp: PathModel) -> DiffModel {
    if oc.node_type == NodeType::File && c.node_type == NodeType::File {
        if oc.id != c.id {
            DiffModel { updated: seq![(cp, oc, c)], ..empty_diff() }
        } else {
            empty_diff()
        }
    } else if oc.node_type == NodeType::Folder && c.node_type == NodeType::Folder {
        diff_nodes(oc, c, cp)
    } else {
        DiffModel { added: seq![(cp, c)], removed: seq![(cp, oc)], ..empty_diff() }
    }
}

spec fn pair_bag(o: NodeModel, n: NodeModel, p: PathModel, rev: bool) -> spec_fn(Seq<char>) -> DiffBag {
    |x: Seq<char>| view_bag(pair_diff(named(o.children, x), named(n.children, x), child_path(p, x)), rev)
}

/// The bags of the first `k` of `cs` whose names are in `names`.
spec fn sum_matched(cs: Seq<NodeModel>, names: Set<Seq<char>>, g: spec_fn(Seq<char>) -> DiffBag, k: int) -> DiffBag
    decreases k,
{
    if k <= 0 || k > cs.len() {
        no_bag()
    } else if names.contains(cs[k - 1].name) {
        bag_add(sum_matched(cs, names, g, k - 1), g(cs[k - 1].name))
    } else {
        sum_matched(cs, names, g, k - 1)
    }
}

/// The first `k` of `cs` whose names are not in `names`, each at its path.
spec fn unmatched(cs: Seq<NodeModel>, names: Set<Seq<char>>, p: PathModel, k: int) -> Seq<(PathModel, NodeModel)>
    decreases k,
{
    if k <= 0 || k > cs.len() {
        Seq::empty()
    } else if names.contains(cs[k - 1].name) {
        unmatched(cs, names, p, k - 1)
    } else {
        unmatched(cs, names, p, k - 1).push((child_path(p, cs[k - 1].name), cs[k - 1]))
    }
}

spec fn unmatched_bag(u: Seq<(PathModel, NodeModel)>, rev: bool) -> DiffBag {
    if rev {
        DiffBag { removed: u.to_multiset(), ..no_bag() }
    } else {
        DiffBag { added: u.to_multiset(), ..no_bag() }
    }
}

proof fn lemma_child(o: NodeModel, n: NodeModel, p: PathModel, k: int)
    requires
        distinct_names(n.children),
        0 <= k < n.children.len(),
    ensures
        diff_child(o, n, p, k) == if names_of(o.children).contains(n.children[k].name) {
            pair_diff(named(o.children, n.children[k].name), n.children[k], child_path(p, n.children[k].name))
        } else {
            DiffModel { added: seq![(child_path(p, n.children[k].name), n.children[k])], ..empty_diff() }
        },
{
    let c = n.children[k];
    lemma_last_named_found(o.children, c.name);
    assert forall|j: int| 0 <= j < k implies #[trigger] n.children[j].name != n.children[k].name by {
        assert(n.children[j].name != n.children[k].name);
    }
    assert(first_of_name(n.children, k));
}

proof fn lemma_upto(o: NodeModel, n: NodeModel, p: PathModel, k: int, rev: bool)
    requires
        distinct_names(n.children),
        0 <= k <= n.children.len(),
    ensures
        view_bag(diff_upto(o, n, p, k), rev) == bag_add(
            sum_matched(n.children, names_of(o.children), pair_bag(o, n, p, rev), k),
            unmatched_bag(unmatched(n.children, names_of(o.children), p, k), rev),
        ),
    decreases k,
{
    let nm = names_of(o.children);
    let g = pair_bag(o, n, p, rev);
    lemma_no_entries();
    if k == 0 {
        assert(view_bag(empty_diff(), rev) =~= no_bag());
        assert(unmatched_bag(Seq::empty(), rev) =~= no_bag());
        lemma_bag_algebra(no_bag(), no_bag(), no_bag());
    } else {
        lemma_upto(o, n, p, k - 1, rev);
        lemma_view_concat(diff_upto(o, n, p, k - 1), diff_child(o, n, p, k - 1), rev);
        lemma_child(o, n, p, k - 1);
        let c = n.children[k - 1];
        let sm = sum_matched(n.children, nm, g, k - 1);
        let u = unmatched(n.children, nm, p, k - 1);
        if nm.contains(c.name) {
            lemma_last_named_unique(n.children, k - 1);
            assert(named(n.children, c.name) == c);
            assert(view_bag(diff_child(o, n, p, k - 1), rev) == g(c.name));
            lemma_bag_algebra(sm, unmatched_bag(u, rev), g(c.name));
            lemma_bag_algebra(unmatched_bag(u, rev), g(c.name), sm);
            lemma_bag_algebra(sm, g(c.name), unmatched_bag(u, rev));
        } else {
            let e = (child_path(p, c.name), c);
            vstd::seq_lib::lemma_multiset_commutative(u, seq![e]);
            assert(u.push(e) =~= u + seq![e]);
            assert(view_bag(diff_child(o, n, p, k - 1), rev) =~= unmatched_bag(seq![e], rev));
            assert(unmatched_bag(u.push(e), rev) =~= bag_add(unmatched_bag(u, rev), unmatched_bag(seq![e], rev)));
            lemma_bag_algebra(sm, unmatched_bag(u, rev), unmatched_bag(seq![e], rev));
        }
    }
}

proof fn lemma_leftovers(o: NodeModel, n: NodeModel, p: PathModel, j: int)
    requires
        distinct_names(o.children),
        0 <= j <= o.children.len(),
    ensures
        leftovers_upto(o, n, p, j) == unmatched(o.children, names_of(n.children), p, j),
    decreases j,
{
    if j > 0 {
        lemma_leftovers(o, n, p, j - 1);
        lemma_last_named_unique(o.children, j - 1);
    }
}

proof fn lemma_sum_prefix(s: Seq<NodeModel>, s2: Seq<NodeModel>, nm: Set<Seq<char>>, g: spec_fn(Seq<char>) -> DiffBag, k: int)
    requires
        0 <= k <= s.len(),
        k <= s2.len(),
        forall|i: int| 0 <= i < k ==> s[i] == s2[i],
    ensures
        sum_matched(s, nm, g, k) == sum_matched(s2, nm, g, k),
    decreases k,
{
    if k > 0 {
        lemma_sum_prefix(s, s2, nm, g, k - 1);
        assert(s[k - 1] == s2[k - 1]);
    }
}

proof fn lemma_sum_none(t: Seq<NodeModel>, g: spec_fn(Seq<char>) -> DiffBag, k: int)
    requires
        0 <= k <= t.len(),
    ensures
        sum_matched(t, Set::empty(), g, k) == no_bag(),
    decreases k,
{
    if k > 0 {
        lemma_sum_none(t, g, k - 1);
    }
}

proof fn lemma_sum_extend(t: Seq<NodeModel>, nm: Set<Seq<char>>, y: Seq<char>, g: spec_fn(Seq<char>) -> DiffBag, k: int)
    requires
        distinct_names(t),
        !nm.contains(y),
        0 <= k <= t.len(),
    ensures
        sum_matched(t, nm.insert(y), g, k) == if has_name(t.take(k), y) {
            bag_add(sum_matched(t, nm, g, k), g(y))
        } else {
            sum_matched(t, nm, g, k)
        },
    decreases k,
{
    if k > 0 {
        lemma_sum_extend(t, nm, y, g, k - 1);
        let c = t[k - 1];
        let prev = t.take(k - 1);
        let cur = t.take(k);
        assert(cur[k - 1] == c);
        assert(has_name(cur, y) <==> (has_name(prev, y) || c.name == y)) by {
            if has_name(cur, y) {
                let j = choose|j: int| 0 <= j < cur.len() && #[trigger] cur[j].name == y;
                if j < k - 1 {
                    assert(prev[j] == cur[j]);
                }
            }
            if has_name(prev, y) {
                let j = choose|j: int| 0 <= j < prev.len() && #[trigger] prev[j].name == y;
                assert(cur[j] == prev[j]);
            }
        }
        let a = sum_matched(t, nm, g, k - 1);
        if c.name == y {
            assert(!has_name(prev, y)) by {
                if has_name(prev, y) {
                    let j = choose|j: int| 0 <= j < prev.len() && #[trigger] prev[j].name == y;
                    assert(t[j].name == t[k - 1].name);
                }
            }
        } else if nm.contains(c.name) {
            lemma_bag_algebra(a, g(y), g(c.name));
            lemma_bag_algebra(a, g(c.name), g(y));
            lemma_bag_algebra(g(y), g(c.name), a);
        }
    } else {
        assert(!has_name(t.take(0), y));
    }
}

proof fn lemma_reindex(s: Seq<NodeModel>, t: Seq<NodeModel>, g1: spec_fn(Seq<char>) -> DiffBag, g2: spec_fn(Seq<char>) -> DiffBag)
    requires
        distinct_names(s),
        distinct_names(t),
        forall|x: Seq<char>| names_of(s).contains(x) && names_of(t).contains(x) ==> g1(x) == g2(x),
    ensures
        sum_matched(s, names_of(t), g1, s.len() as int) == sum_matched(t, names_of(s), g2, t.len() as int),
    decreases s.len(),
{
    if s.len() == 0 {
        assert(names_of(s) =~= Set::<Seq<char>>::empty());
        lemma_sum_none(t, g2, t.len() as int);
    } else {
        let s2 = s.drop_last();
        let y = s.last().name;
        assert(names_of(s) =~= names_of(s2).insert(y)) by {
            assert forall|x: Seq<char>| has_name(s, x) <==> (has_name(s2, x) || x == y) by {
                if has_name(s, x) {
                    let j = choose|j: int| 0 <= j < s.len() && #[trigger] s[j].name == x;
                    if j < s.len() - 1 {
                        assert(s2[j] == s[j]);
                    }
                }
                if has_name(s2, x) {
                    let j = choose|j: int| 0 <= j < s2.len() && #[trigger] s2[j].name == x;
                    assert(s[j] == s2[j]);
                }
                if x == y {
                    assert(s[s.len() - 1].name == x);
                }
            }
        }
        assert(!names_of(s2).contains(y)) by {
            if has_name(s2, y) {
                let j = choose|j: int| 0 <= j < s2.len() && #[trigger] s2[j].name == y;
                assert(s[j].name == s[s.len() - 1].name);
            }
        }
        assert(distinct_names(s2)) by {
            assert forall|i: int, j: int| 0 <= i < j < s2.len() implies #[trigger] s2[i].name != #[trigger] s2[j].name by {
                assert(s2[i] == s[i]);
                assert(s2[j] == s[j]);
            }
        }
        lemma_reindex(s2, t, g1, g2);
        lemma_sum_prefix(s, s2, names_of(t), g1, s.len() - 1);
        lemma_sum_extend(t, names_of(s2), y, g2, t.len() as int);
        assert(t.take(t.len() as int) =~= t);
    }
}

proof fn lemma_pair_swap(c1: NodeModel, c2: NodeModel, cp: PathModel)
    requires
        unique_names(c1),
        unique_names(c2),
    ensures
        view_bag(pair_diff(c2, c1, cp), false) == view_bag(pair_diff(c1, c2, cp), true),
    decreases c1, 1int,
{
    if c1.node_type == NodeType::Folder && c2.node_type == NodeType::Folder {
        lemma_swap(c1, c2, cp);
    } else {
        lemma_no_entries();
        if c1.node_type == NodeType::File && c2.node_type == NodeType::File && c1.id != c2.id {
            assert(swapped_updates(seq![(cp, c1, c2)]) =~= seq![(cp, c2, c1)]);
        }
        assert(view_bag(pair_diff(c2, c1, cp), false) =~= view_bag(pair_diff(c1, c2, cp), true));
    }
}

proof fn lemma_swap(a: NodeModel, b: NodeModel, p: PathModel)
    requires
        unique_names(a),
        unique_names(b),
    ensures
        view_bag(diff_nodes(b, a, p), false) == view_bag(diff_nodes(a, b, p), true),
    decreases a, 0int,
{
    let s = a.children;
    let t = b.children;
    let ns = names_of(s);
    let nt = names_of(t);
    let gb = pair_bag(b, a, p, false);
    let gr = pair_bag(a, b, p, true);
    let lb = DiffModel { removed: leftovers_upto(b, a, p, t.len() as int), ..empty_diff() };
    let lr = DiffModel { removed: leftovers_upto(a, b, p, s.len() as int), ..empty_diff() };
    lemma_view_concat(diff_upto(b, a, p, s.len() as int), lb, false);
    lemma_view_concat(diff_upto(a, b, p, t.len() as int), lr, true);
    lemma_upto(b, a, p, s.len() as int, false);
    lemma_upto(a, b, p, t.len() as int, true);
    lemma_leftovers(b, a, p, t.len() as int);
    lemma_leftovers(a, b, p, s.len() as int);
    assert forall|x: Seq<char>| ns.contains(x) && nt.contains(x) implies gb(x) == gr(x) by {
        lemma_last_named_found(s, x);
        lemma_last_named_found(t, x);
        let i = last_named(s, x);
        let j = last_named(t, x);
        assert(decreases_to!(a => a.children));
        assert(decreases_to!(a.children => a.children[i]));
        assert(unique_names(s[i]));
        assert(unique_names(t[j]));
        lemma_pair_swap(s[i], t[j], child_path(p, x));
    }
    lemma_reindex(s, t, gb, gr);
    let sm = sum_matched(s, nt, gb, s.len() as int);
    let us = unmatched(s, nt, p, s.len() as int);
    let ut = unmatched(t, ns, p, t.len() as int);
    lemma_no_entries();
    assert(view_bag(lb, false) =~= unmatched_bag(ut, true));
    assert(view_bag(lr, true) =~= unmatched_bag(us, false));
    lemma_bag_algebra(sm, unmatched_bag(us, false), unmatched_bag(ut, true));
    lemma_bag_algebra(sm, unmatched_bag(ut, true), unmatched_bag(us, false));
    lemma_bag_algebra(unmatched_bag(us, false), unmatched_bag(ut, true), sm);
}

/// Law: when no folder of either tree holds two children of one name,
/// comparing `b` with `a` finds what comparing `a` with `b` finds, read the
/// other way: the additions of one are the removals of the other, and the
/// updates are the same with old and new versions swapped (the order of the
/// lists aside).
pub proof fn diff_reversed(a: NodeModel, b: NodeModel, path: PathModel)
    requires
        unique_names(a),
        unique_names(b),
    ensures
        diff_nodes(b, a, path).added.to_multiset() == diff_nodes(a, b, path).removed.to_multiset(),
        diff_nodes(b, a, path).removed.to_multiset() == diff_nodes(a, b, path).added.to_multiset(),
        diff_nodes(b, a, path).updated.to_multiset() == swapped_updates(diff_nodes(a, b, path).updated).to_multiset(),
{
    lemma_swap(a, b, path);
}

} // verus!
