//! What the leaves of a built tree are: exactly one childless node per
//! symbol, carrying the symbol's name, size and key.
use vstd::prelude::*;
use vstd::multiset::Multiset;

use crate::parse::SymV;
use crate::tree::{
    absorbed, built_tree, cluster_node, cluster_root, clustered_children, collapsed,
    collapsed_children, first_named, insert_all, insert_pos, name_prefix, named_prefixes,
    other_node, root_node, sized, sized_children, sort_nodes, unclustered, with_prefix, GroupV,
    KeyV, NodeV,
};
use crate::tree_sizes::{lemma_insert_all_exact, paths_apart};

verus! {

/// What a childless node shows: its name, size and key.
pub open spec fn leaf_entry(n: NodeV) -> (Seq<char>, nat, Option<KeyV>) {
    (n.name, n.size, n.key)
}

/// The childless nodes of a tree.
pub open spec fn leaves(n: NodeV) -> Multiset<(Seq<char>, nat, Option<KeyV>)>
    decreases n,
{
    if n.children.len() == 0 {
        Multiset::singleton(leaf_entry(n))
    } else {
        leaf_list(n.children)
    }
}

/// The childless nodes of a list of trees.
pub open spec fn leaf_list(s: Seq<NodeV>) -> Multiset<(Seq<char>, nat, Option<KeyV>)>
    decreases s,
{
    if s.len() == 0 {
        Multiset::empty()
    } else {
        leaf_list(s.drop_last()).add(leaves(s.last()))
    }
}

/// The leaf each of the first `n` symbols gets: its name, size and key.
pub open spec fn symbol_leaves(syms: Seq<SymV>, keys: Seq<KeyV>, n: int) -> Multiset<
    (Seq<char>, nat, Option<KeyV>),
>
    decreases n,
{
    if n <= 0 {
        Multiset::empty()
    } else {
        symbol_leaves(syms, keys, n - 1).insert((syms[n - 1].name, syms[n - 1].size as nat, Some(keys[n - 1])))
    }
}

pub(crate) proof fn lemma_ml_push(s: Seq<NodeV>, x: NodeV)
    ensures
        leaf_list(s.push(x)) == leaf_list(s).add(leaves(x)),
{
    assert(s.push(x).drop_last() == s);
}

pub(crate) proof fn lemma_ml_update(s: Seq<NodeV>, i: int, x: NodeV)
    requires
        0 <= i < s.len(),
    ensures
        leaf_list(s.update(i, x)).add(leaves(s[i])) == leaf_list(s).add(leaves(x)),
    decreases s.len(),
{
    if i == s.len() - 1 {
        assert(s.update(i, x).drop_last() == s.drop_last());
        assert(leaf_list(s.drop_last()).add(leaves(x)).add(leaves(s[i])) =~= leaf_list(s.drop_last()).add(
            leaves(s[i]),
        ).add(leaves(x)));
    } else {
        assert(s.update(i, x).drop_last() == s.drop_last().update(i, x));
        lemma_ml_update(s.drop_last(), i, x);
        let a = leaf_list(s.drop_last().update(i, x));
        let b = leaf_list(s.drop_last());
        assert(a.add(leaves(s.last())).add(leaves(s[i])) =~= a.add(leaves(s[i])).add(leaves(s.last())));
        assert(b.add(leaves(x)).add(leaves(s.last())) =~= b.add(leaves(s.last())).add(leaves(x)));
    }
}

proof fn lemma_ml_concat(a: Seq<NodeV>, b: Seq<NodeV>)
    ensures
        leaf_list(a + b) == leaf_list(a).add(leaf_list(b)),
    decreases b.len(),
{
    if b.len() == 0 {
        assert(a + b == a);
        assert(leaf_list(a).add(Multiset::empty()) =~= leaf_list(a));
    } else {
        assert((a + b).drop_last() == a + b.drop_last());
        lemma_ml_concat(a, b.drop_last());
        assert(leaf_list(a).add(leaf_list(b.drop_last())).add(leaves(b.last())) =~= leaf_list(a).add(
            leaf_list(b.drop_last()).add(leaves(b.last())),
        ));
    }
}

proof fn lemma_ml_insert(s: Seq<NodeV>, p: int, x: NodeV)
    requires
        0 <= p <= s.len(),
    ensures
        leaf_list(s.insert(p, x)) == leaf_list(s).add(leaves(x)),
{
    let a = s.take(p);
    let b = s.skip(p);
    assert(s == a + b);
    assert(s.insert(p, x) == a.push(x) + b);
    lemma_ml_concat(a, b);
    lemma_ml_concat(a.push(x), b);
    lemma_ml_push(a, x);
    assert(leaf_list(a).add(leaves(x)).add(leaf_list(b)) =~= leaf_list(a).add(leaf_list(b)).add(leaves(x)));
}

proof fn lemma_ml_sort(s: Seq<NodeV>)
    ensures
        leaf_list(sort_nodes(s)) == leaf_list(s),
        sort_nodes(s).len() == s.len(),
    decreases s.len(),
{
    if s.len() > 0 {
        let r = sort_nodes(s.drop_last());
        lemma_ml_sort(s.drop_last());
        crate::tree_sizes::lemma_sort_nodes(s.drop_last());
        let p = insert_pos(r, s.last(), 0);
        crate::tree_sizes::lemma_insert_pos(r, s.last(), 0);
        lemma_ml_insert(r, p, s.last());
    }
}

/// `sized` keeps the leaves.
proof fn lemma_ml_sized(n: NodeV)
    ensures
        leaves(sized(n)) == leaves(n),
        sized(n).children.len() == n.children.len(),
    decreases n, 1int,
{
    if n.children.len() > 0 {
        let cs = sized_children(n);
        lemma_ml_sized_list(n, n.children.len() as int);
        assert(cs.take(n.children.len() as int) == cs);
        assert(n.children.take(n.children.len() as int) == n.children);
        lemma_ml_sort(cs);
    }
}

proof fn lemma_ml_sized_list(n: NodeV, k: int)
    requires
        0 <= k <= n.children.len(),
    ensures
        leaf_list(sized_children(n).take(k)) == leaf_list(n.children.take(k)),
    decreases n, 0int, k,
{
    let cs = sized_children(n);
    if k > 0 {
        lemma_ml_sized_list(n, k - 1);
        assert(cs.take(k).drop_last() == cs.take(k - 1));
        assert(n.children.take(k).drop_last() == n.children.take(k - 1));
        lemma_ml_sized(n.children[k - 1]);
    }
}

/// Merging single-child chains keeps the leaves.
proof fn lemma_ml_absorbed(
    name: Seq<char>,
    size: nat,
    key: Option<KeyV>,
    group: Option<GroupV>,
    children: Seq<NodeV>,
)
    ensures
        leaves(absorbed(name, size, key, group, children)) == (if children.len() == 0 {
            Multiset::singleton((name, size, key))
        } else {
            leaf_list(children)
        }),
        absorbed(name, size, key, group, children).children.len() == 0 <==> children.len() == 0,
    decreases children,
{
    if children.len() == 1 && children[0].children.len() > 0 {
        let c = children[0];
        lemma_ml_absorbed(crate::tree::join_name(name, c.name), size, key, c.group, c.children);
        assert(children.drop_last() =~= Seq::<NodeV>::empty());
        assert(leaf_list(children) == leaf_list(children.drop_last()).add(leaves(children.last())));
        assert(leaf_list(children.drop_last()) == Multiset::<(Seq<char>, nat, Option<KeyV>)>::empty());
        assert(leaf_list(children) =~= leaves(c));
    }
}

proof fn lemma_ml_collapsed(n: NodeV)
    ensures
        leaves(collapsed(n)) == leaves(n),
        collapsed(n).children.len() == 0 <==> n.children.len() == 0,
    decreases n, 1int,
{
    let cs = collapsed_children(n);
    lemma_ml_absorbed(n.name, n.size, n.key, n.group, cs);
    if n.children.len() > 0 {
        lemma_ml_collapsed_list(n, n.children.len() as int);
        assert(cs.take(n.children.len() as int) == cs);
        assert(n.children.take(n.children.len() as int) == n.children);
    }
}

proof fn lemma_ml_collapsed_list(n: NodeV, k: int)
    requires
        0 <= k <= n.children.len(),
    ensures
        leaf_list(collapsed_children(n).take(k)) == leaf_list(n.children.take(k)),
    decreases n, 0int, k,
{
    let cs = collapsed_children(n);
    if k > 0 {
        lemma_ml_collapsed_list(n, k - 1);
        assert(cs.take(k).drop_last() == cs.take(k - 1));
        assert(n.children.take(k).drop_last() == n.children.take(k - 1));
        lemma_ml_collapsed(n.children[k - 1]);
    }
}

// ---------------------------------------------------------------------------
// Clustering the unplaced symbols

/// The leaves of the nodes of `cs` with each prefix of `ps`.
pub open spec fn bucket_leaves(cs: Seq<NodeV>, ps: Seq<Seq<char>>) -> Multiset<(Seq<char>, nat, Option<KeyV>)>
    decreases ps.len(),
{
    if ps.len() == 0 {
        Multiset::empty()
    } else {
        bucket_leaves(cs, ps.drop_last()).add(leaf_list(with_prefix(cs, ps.last())))
    }
}

proof fn lemma_bucket_push_node(cs: Seq<NodeV>, x: NodeV, ps: Seq<Seq<char>>)
    requires
        forall|a: int, b: int| 0 <= a < b < ps.len() ==> ps[a] != ps[b],
    ensures
        bucket_leaves(cs.push(x), ps) == bucket_leaves(cs, ps).add(
            if ps.contains(name_prefix(x.name)) {
                leaves(x)
            } else {
                Multiset::empty()
            },
        ),
    decreases ps.len(),
{
    assert(cs.push(x).drop_last() == cs);
    let p = name_prefix(x.name);
    if ps.len() == 0 {
        assert(bucket_leaves(cs, ps).add(Multiset::empty()) =~= bucket_leaves(cs, ps));
    } else {
        let q = ps.last();
        let pre = ps.drop_last();
        lemma_bucket_push_node(cs, x, pre);
        lemma_ml_push(with_prefix(cs, q), x);
        let bl = bucket_leaves(cs, pre);
        let w = leaf_list(with_prefix(cs, q));
        if pre.contains(p) {
            let a = choose|a: int| 0 <= a < pre.len() && pre[a] == p;
            assert(ps[a] == p);
            assert(q != p);
            assert(ps.contains(p));
            assert(bl.add(leaves(x)).add(w) =~= bl.add(w).add(leaves(x)));
        } else if q == p {
            assert(ps[ps.len() - 1] == p);
            assert(bl.add(Multiset::empty()).add(w.add(leaves(x))) =~= bl.add(w).add(leaves(x)));
        } else {
            if ps.contains(p) {
                let a = choose|a: int| 0 <= a < ps.len() && ps[a] == p;
                assert(a != ps.len() - 1);
                assert(pre[a] == p);
            }
            assert(bl.add(Multiset::empty()).add(w) =~= bl.add(w).add(Multiset::empty()));
        }
    }
}

proof fn lemma_named_distinct(cs: Seq<NodeV>, cl: Seq<Seq<char>>)
    ensures
        forall|a: int, b: int|
            0 <= a < b < named_prefixes(cs, cl).len() ==> named_prefixes(cs, cl)[a]
                != named_prefixes(cs, cl)[b],
    decreases cs.len(),
{
    if cs.len() > 0 {
        lemma_named_distinct(cs.drop_last(), cl);
        let ps = named_prefixes(cs.drop_last(), cl);
        let p = name_prefix(cs.last().name);
        if cl.contains(p) && !ps.contains(p) {
            let all = ps.push(p);
            assert forall|a: int, b: int| 0 <= a < b < all.len() implies all[a] != all[b] by {
                if b == all.len() - 1 {
                    assert(ps[a] != p);
                }
            }
        }
    }
}

proof fn lemma_named_facts(cs: Seq<NodeV>, cl: Seq<Seq<char>>, k: int)
    requires
        0 <= k < named_prefixes(cs, cl).len(),
    ensures
        cl.contains(named_prefixes(cs, cl)[k]),
        with_prefix(cs, named_prefixes(cs, cl)[k]).len() > 0,
    decreases cs.len(),
{
    if cs.len() > 0 {
        let ps = named_prefixes(cs.drop_last(), cl);
        let q = named_prefixes(cs, cl)[k];
        if k < ps.len() {
            lemma_named_facts(cs.drop_last(), cl, k);
            assert(ps[k] == q);
        }
    }
}

proof fn lemma_with_prefix_absent(cs: Seq<NodeV>, p: Seq<char>, cl: Seq<Seq<char>>)
    requires
        cl.contains(p),
        !named_prefixes(cs, cl).contains(p),
    ensures
        with_prefix(cs, p).len() == 0,
    decreases cs.len(),
{
    if cs.len() > 0 {
        let ps = named_prefixes(cs.drop_last(), cl);
        let all = named_prefixes(cs, cl);
        if ps.contains(p) {
            let i = choose|i: int| 0 <= i < ps.len() && ps[i] == p;
            assert(all[i] == p);
        }
        if name_prefix(cs.last().name) == p {
            assert(all[all.len() - 1] == p);
        }
        lemma_with_prefix_absent(cs.drop_last(), p, cl);
    }
}

/// Regrouping children into clusters and `<other>` keeps their leaves.
proof fn lemma_ml_partition(cs: Seq<NodeV>, cl: Seq<Seq<char>>)
    ensures
        bucket_leaves(cs, named_prefixes(cs, cl)).add(leaf_list(unclustered(cs, cl))) == leaf_list(cs),
    decreases cs.len(),
{
    if cs.len() == 0 {
        assert(Multiset::<(Seq<char>, nat, Option<KeyV>)>::empty().add(Multiset::empty()) =~= Multiset::empty());
    } else {
        let pre = cs.drop_last();
        let x = cs.last();
        assert(pre.push(x) == cs);
        lemma_ml_partition(pre, cl);
        let ps = named_prefixes(pre, cl);
        let p = name_prefix(x.name);
        lemma_named_distinct(pre, cl);
        lemma_named_distinct(cs, cl);
        lemma_ml_push(pre, x);
        let bl = bucket_leaves(pre, ps);
        let u = leaf_list(unclustered(pre, cl));
        if cl.contains(p) {
            lemma_bucket_push_node(pre, x, ps);
            if ps.contains(p) {
                assert(bl.add(leaves(x)).add(u) =~= bl.add(u).add(leaves(x)));
            } else {
                assert(named_prefixes(cs, cl) == ps.push(p));
                assert(ps.push(p).drop_last() == ps);
                lemma_with_prefix_absent(pre, p, cl);
                assert(with_prefix(cs, p) == seq![x]);
                assert(seq![x] == Seq::<NodeV>::empty().push(x));
                lemma_ml_push(Seq::<NodeV>::empty(), x);
                let e = Multiset::<(Seq<char>, nat, Option<KeyV>)>::empty();
                assert(bucket_leaves(cs, ps.push(p)) == bucket_leaves(cs, ps).add(leaf_list(with_prefix(cs, p))));
                assert(bl.add(e).add(e.add(leaves(x))).add(u) =~= bl.add(u).add(leaves(x)));
            }
        } else {
            lemma_bucket_push_node(pre, x, ps);
            if ps.contains(p) {
                let a = choose|a: int| 0 <= a < ps.len() && ps[a] == p;
                lemma_named_facts(pre, cl, a);
            }
            lemma_ml_push(unclustered(pre, cl), x);
            let e = Multiset::<(Seq<char>, nat, Option<KeyV>)>::empty();
            assert(bl.add(e).add(u.add(leaves(x))) =~= bl.add(u).add(leaves(x)));
        }
    }
}

proof fn lemma_ml_cluster_list(cs: Seq<NodeV>, cl: Seq<Seq<char>>, n: int)
    requires
        0 <= n <= named_prefixes(cs, cl).len(),
    ensures
        ({
            let ps = named_prefixes(cs, cl).take(n);
            leaf_list(Seq::new(ps.len(), |k: int| cluster_node(ps[k], cs))) == bucket_leaves(cs, ps)
        }),
    decreases n,
{
    let ps = named_prefixes(cs, cl).take(n);
    let s = Seq::new(ps.len(), |k: int| cluster_node(ps[k], cs));
    if n > 0 {
        lemma_ml_cluster_list(cs, cl, n - 1);
        let pre = named_prefixes(cs, cl).take(n - 1);
        assert(ps.drop_last() == pre);
        assert(s.drop_last() == Seq::new(pre.len(), |k: int| cluster_node(pre[k], cs)));
        assert(ps.last() == named_prefixes(cs, cl)[n - 1]);
        let c = cluster_node(ps.last(), cs);
        assert(s.last() == c);
        lemma_named_facts(cs, cl, n - 1);
        assert(c.children.len() > 0);
        assert(leaves(c) == leaf_list(with_prefix(cs, ps.last())));
        assert(leaf_list(s) == leaf_list(s.drop_last()).add(leaves(s.last())));
    } else {
        assert(ps.len() == 0);
        assert(s.len() == 0);
    }
}

proof fn lemma_ml_cluster_root(t: NodeV, cl: Seq<Seq<char>>)
    ensures
        leaf_list(cluster_root(t, cl).children) == leaf_list(t.children),
        cluster_root(t, cl).children.len() == t.children.len(),
{
    let i = first_named(t.children, "<unknown>"@, 0);
    crate::tree::lemma_first_named_range(t.children, "<unknown>"@, 0);
    if i < t.children.len() {
        let u = t.children[i];
        let cs = u.children;
        let u2 = NodeV { children: clustered_children(cs, cl), ..u };
        let named = named_prefixes(cs, cl);
        let others = unclustered(cs, cl);
        let front = Seq::new(named.len(), |k: int| cluster_node(named[k], cs));
        lemma_ml_partition(cs, cl);
        lemma_ml_cluster_list(cs, cl, named.len() as int);
        assert(named.take(named.len() as int) == named);
        if others.len() > 0 {
            lemma_ml_concat(front, seq![other_node(cs, cl)]);
            assert(seq![other_node(cs, cl)] == Seq::<NodeV>::empty().push(other_node(cs, cl)));
            lemma_ml_push(Seq::<NodeV>::empty(), other_node(cs, cl));
            assert(Multiset::<(Seq<char>, nat, Option<KeyV>)>::empty().add(leaf_list(others)) =~= leaf_list(others));
        } else {
            assert(front + Seq::<NodeV>::empty() == front);
            assert(leaf_list(others) =~= Multiset::empty());
            assert(bucket_leaves(cs, named).add(Multiset::empty()) =~= bucket_leaves(cs, named));
        }
        assert(leaves(u2) == leaves(u)) by {
            if cs.len() == 0 {
                assert(named.len() == 0);
                assert(clustered_children(cs, cl).len() == 0);
            } else if clustered_children(cs, cl).len() == 0 {
                lemma_ml_list_nonempty(cs);
                assert(named.len() == 0);
                assert(others.len() == 0);
                assert(leaf_list(cs).len() == 0);
            }
        }
        lemma_ml_update(t.children, i, u2);
        assert(leaf_list(t.children.update(i, u2)) =~= leaf_list(t.children)) by {
            assert(leaf_list(t.children.update(i, u2)).add(leaves(u)) =~= leaf_list(t.children).add(leaves(u)));
            assert forall|v| #[trigger] leaf_list(t.children.update(i, u2)).count(v) == leaf_list(t.children).count(v) by {
                assert(leaf_list(t.children.update(i, u2)).add(leaves(u)).count(v) == leaf_list(t.children).add(
                    leaves(u),
                ).count(v));
            }
        }
    }
}

/// A tree has at least one leaf.
proof fn lemma_leaves_nonempty(n: NodeV)
    ensures
        leaves(n).len() > 0,
    decreases n, 1int,
{
    if n.children.len() > 0 {
        lemma_ml_list_nonempty(n.children);
    }
}

proof fn lemma_ml_list_nonempty(s: Seq<NodeV>)
    requires
        s.len() > 0,
    ensures
        leaf_list(s).len() > 0,
    decreases s, 0int,
{
    lemma_leaves_nonempty(s.last());
}

/// When no symbol's directories and name are a proper prefix of another's
/// ([`paths_apart`]), the built tree's root is the unnamed node of the whole tree, without a key; and
/// when there is a symbol, its childless nodes are exactly one per symbol,
/// with the symbol's name, size and key.
pub proof fn lemma_built_tree_leaves(syms: Seq<SymV>, keys: Seq<KeyV>, cl: Seq<Seq<char>>)
    requires
        paths_apart(syms),
    ensures
        built_tree(syms, keys, cl).name == Seq::<char>::empty(),
        built_tree(syms, keys, cl).group == Some(GroupV::All),
        built_tree(syms, keys, cl).key is None,
        syms.len() == 0 ==> built_tree(syms, keys, cl).children.len() == 0,
        syms.len() > 0 ==> built_tree(syms, keys, cl).children.len() > 0 && leaves(built_tree(syms, keys, cl))
            == symbol_leaves(syms, keys, syms.len() as int),
{
    let ins = insert_all(syms, keys, syms.len());
    lemma_insert_all_leaves(syms, keys, syms.len());
    lemma_ml_cluster_root(ins, cl);
    let c = cluster_root(ins, cl);
    lemma_ml_sized(c);
    let t = sized(c);
    let r = built_tree(syms, keys, cl);
    if syms.len() > 0 {
        assert(t.children.len() > 0);
        assert(leaves(t) == leaf_list(t.children));
        assert(r.children.len() == t.children.len());
        assert(r.children == collapsed_children(t));
        lemma_ml_collapsed_list(t, t.children.len() as int);
        assert(r.children.take(r.children.len() as int) == r.children);
        assert(t.children.take(t.children.len() as int) == t.children);
    }
}

/// The root of the filed tree and its leaves.
proof fn lemma_insert_all_leaves(syms: Seq<SymV>, keys: Seq<KeyV>, n: nat)
    requires
        n <= syms.len(),
        paths_apart(syms),
    ensures
        insert_all(syms, keys, n).name == Seq::<char>::empty(),
        insert_all(syms, keys, n).group == Some(GroupV::All),
        insert_all(syms, keys, n).key is None,
        n == 0 ==> insert_all(syms, keys, n).children.len() == 0,
        n > 0 ==> insert_all(syms, keys, n).children.len() > 0,
        leaf_list(insert_all(syms, keys, n).children) == symbol_leaves(syms, keys, n as int),
    decreases n,
{
    if n > 0 {
        lemma_insert_all_leaves(syms, keys, (n - 1) as nat);
        lemma_insert_all_exact(syms, keys, n);
        lemma_insert_all_exact(syms, keys, (n - 1) as nat);
        crate::tree_sizes::lemma_insert_path_leaves(syms, keys, (n - 1) as nat);
        assert(symbol_leaves(syms, keys, n as int).len() > 0);
        if insert_all(syms, keys, n).children.len() == 0 {
            assert(leaf_list(insert_all(syms, keys, n).children).len() == 0);
        }
    } else {
        assert(root_node().children.len() == 0);
    }
}

} // verus!
