//! What the sizes of a built tree satisfy: every directory-like node is as
//! large as its children together, siblings come largest first, and the root
//! holds the total of all symbols.
use vstd::prelude::*;
use vstd::multiset::Multiset;

use crate::parse::SymV;
use crate::tree_leaves::{leaf_entry, leaf_list, leaves, lemma_ml_push, lemma_ml_update};
use crate::tree::{
    absorbed, built_tree, collapsed, collapsed_children, first_named, insert_all, insert_path,
    insert_pos, leaf_total, sized, sized_children, sort_nodes, sum_sizes, sym_dirs, total_size,
    KeyV, NodeV,
};

verus! {

/// Sizes never grow along the list.
pub open spec fn sizes_descending(s: Seq<NodeV>) -> bool {
    forall|i: int, j: int| 0 <= i < j < s.len() ==> #[trigger] s[i].size >= #[trigger] s[j].size
}

/// A node with children has the total of their sizes, and its children come
/// largest first.
pub open spec fn node_sized(n: NodeV) -> bool {
    &&& (n.children.len() > 0 ==> n.size == sum_sizes(n.children))
    &&& sizes_descending(n.children)
}

/// Every node of the tree is [`node_sized`].
pub open spec fn well_sized(n: NodeV) -> bool
    decreases n,
{
    node_sized(n) && all_well_sized(n.children)
}

/// Every tree of the list is [`well_sized`].
pub open spec fn all_well_sized(s: Seq<NodeV>) -> bool
    decreases s,
{
    s.len() == 0 || (all_well_sized(s.drop_last()) && well_sized(s.last()))
}

proof fn lemma_all_well(s: Seq<NodeV>)
    ensures
        all_well_sized(s) <==> forall|i: int| 0 <= i < s.len() ==> #[trigger] well_sized(s[i]),
    decreases s.len(),
{
    if s.len() > 0 {
        lemma_all_well(s.drop_last());
        if forall|i: int| 0 <= i < s.len() ==> #[trigger] well_sized(s[i]) {
            assert forall|i: int| 0 <= i < s.drop_last().len() implies #[trigger] well_sized(s.drop_last()[i]) by {
                assert(well_sized(s[i]));
            }
            assert(well_sized(s[s.len() - 1]));
        }
        if all_well_sized(s) {
            assert forall|i: int| 0 <= i < s.len() implies #[trigger] well_sized(s[i]) by {
                if i < s.len() - 1 {
                    assert(well_sized(s.drop_last()[i]));
                }
            }
        }
    }
}

proof fn lemma_sum_sizes_push(s: Seq<NodeV>, x: NodeV)
    ensures
        sum_sizes(s.push(x)) == sum_sizes(s) + x.size,
{
    assert(s.push(x).drop_last() == s);
}

proof fn lemma_sum_sizes_insert(s: Seq<NodeV>, p: int, x: NodeV)
    requires
        0 <= p <= s.len(),
    ensures
        sum_sizes(s.insert(p, x)) == sum_sizes(s) + x.size,
    decreases s.len(),
{
    if p == s.len() {
        assert(s.insert(p, x) == s.push(x));
        lemma_sum_sizes_push(s, x);
    } else {
        assert(s.insert(p, x).drop_last() == s.drop_last().insert(p, x));
        lemma_sum_sizes_insert(s.drop_last(), p, x);
    }
}

pub(crate) proof fn lemma_insert_pos(s: Seq<NodeV>, x: NodeV, i: int)
    requires
        0 <= i <= s.len(),
    ensures
        i <= insert_pos(s, x, i) <= s.len(),
        forall|k: int| i <= k < insert_pos(s, x, i) ==> x.size <= #[trigger] s[k].size,
        insert_pos(s, x, i) < s.len() ==> x.size >= s[insert_pos(s, x, i)].size,
    decreases s.len() - i,
{
    if i < s.len() && !crate::tree::node_before(x, s[i]) {
        lemma_insert_pos(s, x, i + 1);
    }
}

/// Sorting siblings into display order keeps their sizes, puts the largest
/// first and only rearranges them.
pub(crate) proof fn lemma_sort_nodes(s: Seq<NodeV>)
    ensures
        sort_nodes(s).len() == s.len(),
        sum_sizes(sort_nodes(s)) == sum_sizes(s),
        sizes_descending(sort_nodes(s)),
        forall|i: int| 0 <= i < s.len() ==> exists|j: int| 0 <= j < s.len() && #[trigger] sort_nodes(s)[i] == s[j],
    decreases s.len(),
{
    if s.len() > 0 {
        let r = sort_nodes(s.drop_last());
        let x = s.last();
        lemma_sort_nodes(s.drop_last());
        lemma_insert_pos(r, x, 0);
        let p = insert_pos(r, x, 0);
        let t = r.insert(p, x);
        assert(sort_nodes(s) == t);
        lemma_sum_sizes_insert(r, p, x);
        assert(s.drop_last().push(x) == s);
        lemma_sum_sizes_push(s.drop_last(), x);
        assert forall|a: int, b: int| 0 <= a < b < t.len() implies #[trigger] t[a].size >= #[trigger] t[b].size by {
            if b < p {
                assert(t[a] == r[a] && t[b] == r[b]);
            } else if b == p {
                assert(t[a] == r[a]);
            } else if a < p {
                assert(t[a] == r[a] && t[b] == r[b - 1]);
                assert(r[a].size >= r[p].size || p == r.len());
            } else if a == p {
                assert(t[b] == r[b - 1]);
                assert(r[p].size >= r[b - 1].size);
            } else {
                assert(t[a] == r[a - 1] && t[b] == r[b - 1]);
            }
        }
        assert forall|i: int| 0 <= i < s.len() implies exists|j: int| 0 <= j < s.len() && #[trigger] t[i] == s[j] by {
            if i < p {
                let j = choose|j: int| 0 <= j < s.len() - 1 && #[trigger] r[i] == s.drop_last()[j];
                assert(t[i] == s[j]);
            } else if i == p {
                assert(t[i] == s[s.len() - 1]);
            } else {
                let j = choose|j: int| 0 <= j < s.len() - 1 && #[trigger] r[i - 1] == s.drop_last()[j];
                assert(t[i] == s[j]);
            }
        }
    }
}

/// `sized` leaves every node as large as its children together, largest
/// first.
proof fn lemma_sized_well(n: NodeV)
    ensures
        well_sized(sized(n)),
    decreases n, 1int,
{
    if n.children.len() > 0 {
        let cs = sized_children(n);
        lemma_sized_children_well(n);
        lemma_sort_nodes(cs);
        let t = sized(n);
        assert(t.children == sort_nodes(cs));
        assert forall|i: int| 0 <= i < t.children.len() implies #[trigger] well_sized(t.children[i]) by {
            let j = choose|j: int| 0 <= j < cs.len() && #[trigger] sort_nodes(cs)[i] == cs[j];
            assert(well_sized(cs[j]));
        }
        lemma_all_well(t.children);
    } else {
        lemma_all_well(n.children);
    }
}

proof fn lemma_sized_children_well(n: NodeV)
    ensures
        forall|i: int| 0 <= i < sized_children(n).len() ==> #[trigger] well_sized(sized_children(n)[i]),
    decreases n, 0int,
{
    assert forall|i: int| 0 <= i < sized_children(n).len() implies #[trigger] well_sized(sized_children(n)[i]) by {
        lemma_sized_well(n.children[i]);
    }
}

/// Lists whose corresponding nodes have equal sizes have equal size sums.
proof fn lemma_sum_sizes_same(a: Seq<NodeV>, b: Seq<NodeV>)
    requires
        a.len() == b.len(),
        forall|i: int| 0 <= i < a.len() ==> #[trigger] a[i].size == b[i].size,
    ensures
        sum_sizes(a) == sum_sizes(b),
    decreases a.len(),
{
    if a.len() > 0 {
        lemma_sum_sizes_same(a.drop_last(), b.drop_last());
    }
}

/// Merging single-child directory chains into a node keeps it well sized,
/// with its size unchanged.
proof fn lemma_absorbed_well(
    name: Seq<char>,
    size: nat,
    key: Option<KeyV>,
    group: Option<crate::tree::GroupV>,
    children: Seq<NodeV>,
)
    requires
        children.len() > 0 ==> size == sum_sizes(children),
        sizes_descending(children),
        forall|i: int| 0 <= i < children.len() ==> #[trigger] well_sized(children[i]),
    ensures
        well_sized(absorbed(name, size, key, group, children)),
        absorbed(name, size, key, group, children).size == size,
    decreases children,
{
    if children.len() == 1 && children[0].children.len() > 0 {
        let c = children[0];
        assert(well_sized(c));
        assert(sum_sizes(children) == c.size) by {
            assert(sum_sizes(children.drop_last()) == 0);
        }
        lemma_all_well(c.children);
        lemma_absorbed_well(crate::tree::join_name(name, c.name), size, key, c.group, c.children);
    } else {
        lemma_all_well(children);
    }
}

/// Collapsing chains keeps a well-sized tree well sized, with its size
/// unchanged.
proof fn lemma_collapsed_well(n: NodeV)
    requires
        well_sized(n),
    ensures
        well_sized(collapsed(n)),
        collapsed(n).size == n.size,
    decreases n, 1int,
{
    let cs = collapsed_children(n);
    lemma_collapsed_children_well(n);
    lemma_sum_sizes_same(cs, n.children);
    lemma_absorbed_well(n.name, n.size, n.key, n.group, cs);
}

proof fn lemma_collapsed_children_well(n: NodeV)
    requires
        well_sized(n),
    ensures
        collapsed_children(n).len() == n.children.len(),
        forall|i: int| 0 <= i < n.children.len() ==> #[trigger] well_sized(collapsed_children(n)[i]),
        forall|i: int| 0 <= i < n.children.len() ==> #[trigger] collapsed_children(n)[i].size == n.children[i].size,
        sizes_descending(collapsed_children(n)),
    decreases n, 0int,
{
    let cs = collapsed_children(n);
    lemma_all_well(n.children);
    assert forall|i: int| 0 <= i < n.children.len() implies well_sized(#[trigger] cs[i]) && cs[i].size == n.children[i].size by {
        assert(well_sized(n.children[i]));
        lemma_collapsed_well(n.children[i]);
    }
    assert forall|i: int, j: int| 0 <= i < j < cs.len() implies #[trigger] cs[i].size >= #[trigger] cs[j].size by {
        assert(cs[i].size == n.children[i].size);
        assert(cs[j].size == n.children[j].size);
        assert(n.children[i].size >= n.children[j].size);
    }
}

/// Every node of a built tree that has children is exactly as large as its
/// children together, and every node's children come largest first.
pub proof fn lemma_built_tree_well_sized(syms: Seq<SymV>, keys: Seq<KeyV>, cl: Seq<Seq<char>>)
    ensures
        well_sized(built_tree(syms, keys, cl)),
{
    let c = crate::tree::cluster_root(crate::tree::insert_all(syms, keys, syms.len()), cl);
    let t = sized(c);
    lemma_sized_well(c);
    lemma_all_well(t.children);
    let r = built_tree(syms, keys, cl);
    assert forall|i: int| 0 <= i < t.children.len() implies well_sized(#[trigger] r.children[i]) && r.children[i].size
        == t.children[i].size by {
        assert(well_sized(t.children[i]));
        lemma_collapsed_well(t.children[i]);
    }
    lemma_sum_sizes_same(r.children, t.children);
    assert forall|i: int, j: int| 0 <= i < j < r.children.len() implies #[trigger] r.children[i].size
        >= #[trigger] r.children[j].size by {
        assert(r.children[i].size == t.children[i].size);
        assert(r.children[j].size == t.children[j].size);
        assert(t.children[i].size >= t.children[j].size);
    }
    lemma_all_well(r.children);
}

// ---------------------------------------------------------------------------
// The root's total

/// The directories a symbol is filed under, then its own name: where its
/// leaf sits in the tree.
pub open spec fn leaf_path(s: SymV) -> Seq<Seq<char>> {
    sym_dirs(s).push(s.name)
}

/// `q` is a leading run of `p`, shorter than `p`.
pub open spec fn proper_prefix(q: Seq<Seq<char>>, p: Seq<Seq<char>>) -> bool {
    q.len() < p.len() && p.take(q.len() as int) == q
}

/// No symbol's directories followed by its name are a proper prefix of
/// another symbol's directories followed by its name (`<unknown>` counting
/// as the directory of an unplaced symbol). Otherwise a later symbol is
/// filed below an earlier symbol's leaf, and that leaf's own size drops out
/// of the sums.
pub open spec fn paths_apart(syms: Seq<SymV>) -> bool {
    forall|i: int, j: int|
        0 <= i < syms.len() && 0 <= j < syms.len() ==> !#[trigger] proper_prefix(
            leaf_path(syms[i]),
            #[trigger] leaf_path(syms[j]),
        )
}

/// Every childless node below `n`, which sits at `path`, sits at one of
/// `paths`.
pub open spec fn filed(n: NodeV, path: Seq<Seq<char>>, paths: Set<Seq<Seq<char>>>) -> bool
    decreases n, 1int,
{
    all_filed(n.children, path, paths)
}

/// `n`, which sits at `path`, is at one of `paths` if it is childless, and is
/// [`filed`] under them.
pub open spec fn entry_filed(n: NodeV, path: Seq<Seq<char>>, paths: Set<Seq<Seq<char>>>) -> bool
    decreases n, 2int,
{
    (n.children.len() == 0 ==> paths.contains(path)) && filed(n, path, paths)
}

/// Every tree of the list, a child list of a node at `path`, is
/// [`entry_filed`].
pub open spec fn all_filed(s: Seq<NodeV>, path: Seq<Seq<char>>, paths: Set<Seq<Seq<char>>>) -> bool
    decreases s, 0int,
{
    s.len() == 0 || (all_filed(s.drop_last(), path, paths) && entry_filed(s.last(), path.push(s.last().name), paths))
}

pub(crate) proof fn lemma_all_filed(s: Seq<NodeV>, path: Seq<Seq<char>>, paths: Set<Seq<Seq<char>>>)
    ensures
        all_filed(s, path, paths) <==> forall|i: int|
            0 <= i < s.len() ==> #[trigger] entry_filed(s[i], path.push(s[i].name), paths),
    decreases s.len(),
{
    if s.len() > 0 {
        lemma_all_filed(s.drop_last(), path, paths);
        if forall|i: int| 0 <= i < s.len() ==> #[trigger] entry_filed(s[i], path.push(s[i].name), paths) {
            assert forall|i: int| 0 <= i < s.drop_last().len() implies #[trigger] entry_filed(
                s.drop_last()[i],
                path.push(s.drop_last()[i].name),
                paths,
            ) by {
                assert(entry_filed(s[i], path.push(s[i].name), paths));
            }
            assert(entry_filed(s[s.len() - 1], path.push(s[s.len() - 1].name), paths));
        }
        if all_filed(s, path, paths) {
            assert forall|i: int| 0 <= i < s.len() implies #[trigger] entry_filed(s[i], path.push(s[i].name), paths) by {
                if i < s.len() - 1 {
                    assert(entry_filed(s.drop_last()[i], path.push(s.drop_last()[i].name), paths));
                }
            }
        }
    }
}

proof fn lemma_filed_grow(n: NodeV, path: Seq<Seq<char>>, a: Set<Seq<Seq<char>>>, b: Set<Seq<Seq<char>>>)
    requires
        filed(n, path, a),
        a.subset_of(b),
    ensures
        filed(n, path, b),
    decreases n, 1int,
{
    lemma_all_filed_grow(n.children, path, a, b);
}

proof fn lemma_entry_filed_grow(n: NodeV, path: Seq<Seq<char>>, a: Set<Seq<Seq<char>>>, b: Set<Seq<Seq<char>>>)
    requires
        entry_filed(n, path, a),
        a.subset_of(b),
    ensures
        entry_filed(n, path, b),
    decreases n, 2int,
{
    lemma_filed_grow(n, path, a, b);
}

proof fn lemma_all_filed_grow(s: Seq<NodeV>, path: Seq<Seq<char>>, a: Set<Seq<Seq<char>>>, b: Set<Seq<Seq<char>>>)
    requires
        all_filed(s, path, a),
        a.subset_of(b),
    ensures
        all_filed(s, path, b),
    decreases s, 0int,
{
    if s.len() > 0 {
        lemma_all_filed_grow(s.drop_last(), path, a, b);
        lemma_entry_filed_grow(s.last(), path.push(s.last().name), a, b);
    }
}

/// Filing a leaf below a node whose walk meets no leaf adds exactly the
/// leaf's size to the leaf total.
proof fn lemma_insert_path_exact(
    node: NodeV,
    dirs: Seq<Seq<char>>,
    d: int,
    leaf: NodeV,
    resolved: bool,
    paths: Set<Seq<Seq<char>>>,
)
    requires
        leaf.children.len() == 0,
        0 <= d <= dirs.len(),
        node.children.len() == 0 ==> node.size == 0,
        filed(node, dirs.take(d), paths),
        forall|k: int| d <= k < dirs.len() ==> !paths.contains(#[trigger] dirs.take(k + 1)),
    ensures
        leaf_total(insert_path(node, dirs, d, leaf, resolved)) == leaf_total(node) + leaf.size,
        insert_path(node, dirs, d, leaf, resolved).children.len() > 0,
        filed(insert_path(node, dirs, d, leaf, resolved), dirs.take(d), paths.insert(dirs.push(leaf.name))),
        leaf_list(insert_path(node, dirs, d, leaf, resolved).children) == leaf_list(node.children).insert(
            leaf_entry(leaf),
        ),
    decreases dirs.len() - d,
{
    let path = dirs.take(d);
    let paths2 = paths.insert(dirs.push(leaf.name));
    let r = insert_path(node, dirs, d, leaf, resolved);
    lemma_all_filed(node.children, path, paths);
    lemma_all_filed(r.children, path, paths2);
    assert(paths.subset_of(paths2));
    if d >= dirs.len() {
        crate::tree::lemma_llt_push(node.children, leaf);
        assert(r.children == node.children.push(leaf));
        lemma_ml_push(node.children, leaf);
        assert(leaf_list(node.children).add(Multiset::singleton(leaf_entry(leaf))) =~= leaf_list(node.children).insert(
            leaf_entry(leaf),
        ));
        assert(path == dirs);
        lemma_all_filed(leaf.children, dirs.push(leaf.name), paths2);
        assert forall|j: int| 0 <= j < r.children.len() implies #[trigger] entry_filed(
            r.children[j],
            path.push(r.children[j].name),
            paths2,
        ) by {
            if j < node.children.len() {
                assert(r.children[j] == node.children[j]);
                assert(entry_filed(node.children[j], path.push(node.children[j].name), paths));
                lemma_entry_filed_grow(node.children[j], path.push(node.children[j].name), paths, paths2);
            } else {
                assert(r.children[j] == leaf);
            }
        }
    } else {
        let i = first_named(node.children, dirs[d], 0);
        crate::tree::lemma_first_named_range(node.children, dirs[d], 0);
        lemma_first_named_is(node.children, dirs[d], 0);
        assert(path.push(dirs[d]) == dirs.take(d + 1));
        if i < node.children.len() {
            let c = node.children[i];
            assert(c.name == dirs[d]);
            assert(entry_filed(c, path.push(c.name), paths));
            assert(!paths.contains(dirs.take(d + 1)));
            assert(c.children.len() > 0);
            lemma_insert_path_exact(c, dirs, d + 1, leaf, resolved, paths);
            let c2 = insert_path(c, dirs, d + 1, leaf, resolved);
            crate::tree::lemma_llt_update(node.children, i, c2);
            assert(r.children == node.children.update(i, c2));
            lemma_ml_update(node.children, i, c2);
            assert forall|v| #[trigger] leaf_list(r.children).count(v) == leaf_list(node.children).insert(
                leaf_entry(leaf),
            ).count(v) by {
                assert(leaf_list(r.children).add(leaves(c)).count(v) == leaf_list(node.children).add(leaves(c2)).count(
                    v,
                ));
            }
            assert(leaf_list(r.children) =~= leaf_list(node.children).insert(leaf_entry(leaf)));
            assert forall|j: int| 0 <= j < r.children.len() implies #[trigger] entry_filed(
                r.children[j],
                path.push(r.children[j].name),
                paths2,
            ) by {
                if j != i {
                    assert(r.children[j] == node.children[j]);
                    assert(entry_filed(node.children[j], path.push(node.children[j].name), paths));
                    lemma_entry_filed_grow(node.children[j], path.push(node.children[j].name), paths, paths2);
                } else {
                    assert(r.children[j] == c2);
                }
            }
        } else {
            let g = if resolved {
                crate::tree::GroupV::Dir(dirs.take(d + 1))
            } else {
                crate::tree::GroupV::Unresolved
            };
            let dn = crate::tree::dir_node(dirs[d], g);
            lemma_all_filed(dn.children, dirs.take(d + 1), paths);
            lemma_insert_path_exact(dn, dirs, d + 1, leaf, resolved, paths);
            let c2 = insert_path(dn, dirs, d + 1, leaf, resolved);
            crate::tree::lemma_llt_push(node.children, c2);
            assert(r.children == node.children.push(c2));
            lemma_ml_push(node.children, c2);
            assert(leaf_list(dn.children) =~= Multiset::empty());
            assert(leaf_list(node.children).add(Multiset::empty().insert(leaf_entry(leaf))) =~= leaf_list(
                node.children,
            ).insert(leaf_entry(leaf)));
            assert forall|j: int| 0 <= j < r.children.len() implies #[trigger] entry_filed(
                r.children[j],
                path.push(r.children[j].name),
                paths2,
            ) by {
                if j < node.children.len() {
                    assert(r.children[j] == node.children[j]);
                    assert(entry_filed(node.children[j], path.push(node.children[j].name), paths));
                    lemma_entry_filed_grow(node.children[j], path.push(node.children[j].name), paths, paths2);
                } else {
                    assert(r.children[j] == c2);
                }
            }
        }
    }
}

pub(crate) proof fn lemma_first_named_is(cs: Seq<NodeV>, name: Seq<char>, i: int)
    requires
        0 <= i,
    ensures
        first_named(cs, name, i) < cs.len() ==> cs[first_named(cs, name, i)].name == name,
    decreases cs.len() - i,
{
    if i < cs.len() && cs[i].name != name {
        lemma_first_named_is(cs, name, i + 1);
    }
}

/// Where the leaves of the first `n` symbols sit.
pub open spec fn first_paths(syms: Seq<SymV>, n: int) -> Set<Seq<Seq<char>>> {
    Set::new(|p: Seq<Seq<char>>| exists|i: int| 0 <= i < n && #[trigger] leaf_path(syms[i]) == p)
}

/// The walk of the `n`-th symbol's directories meets no earlier leaf.
pub(crate) proof fn lemma_walk_clear(syms: Seq<SymV>, n: int)
    requires
        0 <= n < syms.len(),
        paths_apart(syms),
    ensures
        forall|k: int|
            0 <= k < sym_dirs(syms[n]).len() ==> !first_paths(syms, n).contains(#[trigger] sym_dirs(syms[n]).take(k + 1)),
{
    let dirs = sym_dirs(syms[n]);
    assert forall|k: int| 0 <= k < dirs.len() implies !first_paths(syms, n).contains(#[trigger] dirs.take(k + 1)) by {
        if first_paths(syms, n).contains(dirs.take(k + 1)) {
            let i = choose|i: int| 0 <= i < n && #[trigger] leaf_path(syms[i]) == dirs.take(k + 1);
            let p = leaf_path(syms[n]);
            assert(dirs.take(k + 1).len() == k + 1);
            assert(p.take(k + 1) =~= dirs.take(k + 1));
            assert(proper_prefix(leaf_path(syms[i]), leaf_path(syms[n])));
        }
    }
}

proof fn lemma_first_paths_grow(syms: Seq<SymV>, n: int)
    requires
        0 <= n < syms.len(),
    ensures
        first_paths(syms, n).insert(leaf_path(syms[n])) == first_paths(syms, n + 1),
{
    assert forall|x: Seq<Seq<char>>| first_paths(syms, n).insert(leaf_path(syms[n])).contains(x) <==> first_paths(
        syms,
        n + 1,
    ).contains(x) by {
        if first_paths(syms, n + 1).contains(x) {
            let i = choose|i: int| 0 <= i < n + 1 && #[trigger] leaf_path(syms[i]) == x;
            if i < n {
                assert(first_paths(syms, n).contains(x));
            }
        }
        if first_paths(syms, n).contains(x) {
            let i = choose|i: int| 0 <= i < n && #[trigger] leaf_path(syms[i]) == x;
            assert(leaf_path(syms[i]) == x);
        }
    }
    assert(first_paths(syms, n).insert(leaf_path(syms[n])) =~= first_paths(syms, n + 1));
}

/// Filing the `n`-th symbol adds its leaf to the leaves below the root.
pub(crate) proof fn lemma_insert_path_leaves(syms: Seq<SymV>, keys: Seq<KeyV>, n: nat)
    requires
        n < syms.len(),
        paths_apart(syms),
    ensures
        leaf_list(insert_all(syms, keys, n + 1).children) == leaf_list(insert_all(syms, keys, n).children).insert(
            (syms[n as int].name, syms[n as int].size as nat, Some(keys[n as int])),
        ),
{
    let s = syms[n as int];
    let prev = insert_all(syms, keys, n);
    lemma_insert_all_exact(syms, keys, n);
    let dirs = sym_dirs(s);
    lemma_walk_clear(syms, n as int);
    assert(dirs.take(0) == Seq::<Seq<char>>::empty());
    let leaf = crate::tree::leaf_node(s, keys[n as int]);
    lemma_insert_path_exact(prev, dirs, 0, leaf, s.source is Some, first_paths(syms, n as int));
    assert(insert_all(syms, keys, n + 1) == insert_path(prev, dirs, 0, leaf, s.source is Some));
}

pub(crate) proof fn lemma_insert_all_exact(syms: Seq<SymV>, keys: Seq<KeyV>, n: nat)
    requires
        n <= syms.len(),
        paths_apart(syms),
    ensures
        leaf_total(insert_all(syms, keys, n)) == total_size(syms.take(n as int)),
        filed(insert_all(syms, keys, n), Seq::empty(), first_paths(syms, n as int)),
        insert_all(syms, keys, n).children.len() == 0 ==> insert_all(syms, keys, n).size == 0,
    decreases n,
{
    if n == 0 {
        lemma_all_filed(crate::tree::root_node().children, Seq::empty(), first_paths(syms, 0));
        assert(syms.take(0).len() == 0);
    } else {
        let s = syms[n - 1];
        let prev = insert_all(syms, keys, (n - 1) as nat);
        let paths = first_paths(syms, n - 1);
        lemma_insert_all_exact(syms, keys, (n - 1) as nat);
        let dirs = sym_dirs(s);
        lemma_walk_clear(syms, n - 1);
        assert(dirs.take(0) == Seq::<Seq<char>>::empty());
        let leaf = crate::tree::leaf_node(s, keys[n - 1]);
        lemma_insert_path_exact(prev, dirs, 0, leaf, s.source is Some, paths);
        assert(syms.take(n as int).drop_last() == syms.take(n - 1));
        assert(leaf.name == s.name);
        lemma_first_paths_grow(syms, n - 1);
    }
}

/// When no symbol's directories and name are a proper prefix of another's
/// ([`paths_apart`]), the root of the built tree is as large as all the
/// symbols together.
pub proof fn lemma_built_tree_total(syms: Seq<SymV>, keys: Seq<KeyV>, cl: Seq<Seq<char>>)
    requires
        paths_apart(syms),
    ensures
        built_tree(syms, keys, cl).size == total_size(syms),
{
    let ins = insert_all(syms, keys, syms.len());
    lemma_insert_all_exact(syms, keys, syms.len());
    assert(syms.take(syms.len() as int) == syms);
    crate::tree::lemma_cluster_root_total(ins, cl);
    crate::tree::lemma_sized_size(crate::tree::cluster_root(ins, cl));
    if ins.children.len() == 0 {
        assert(leaf_total(ins) == 0);
    }
}

} // verus!
