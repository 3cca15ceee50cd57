//! The shape of a built tree: a node with a key is a childless leaf without
//! a group, and every other node has a group.
use vstd::prelude::*;

use crate::parse::SymV;
use crate::tree::{
    absorbed, built_tree, cluster_node, cluster_root, clustered_children, collapsed,
    collapsed_children, dir_node, first_named, insert_all, insert_path, leaf_node, named_prefixes,
    other_node, root_node, sized, sized_children, sort_nodes, sym_dirs, GroupV, KeyV,
    NodeV,
};
use crate::tree_groups::{lemma_unclustered_elems, lemma_with_prefix_elems, node_shape};
use crate::tree_sizes::{
    entry_filed, filed, first_paths, lemma_all_filed, lemma_first_named_is, lemma_insert_all_exact,
    lemma_sort_nodes, lemma_walk_clear, paths_apart,
};

verus! {

/// Every node of the tree has the [`node_shape`].
pub open spec fn shaped(n: NodeV) -> bool
    decreases n, 1int,
{
    node_shape(n) && shaped_list(n.children)
}

/// Every tree of the list is [`shaped`].
pub open spec fn shaped_list(s: Seq<NodeV>) -> bool
    decreases s, 0int,
{
    s.len() == 0 || (shaped_list(s.drop_last()) && shaped(s.last()))
}

proof fn lemma_shaped_list(s: Seq<NodeV>)
    ensures
        shaped_list(s) <==> forall|i: int| 0 <= i < s.len() ==> #[trigger] shaped(s[i]),
    decreases s.len(),
{
    if s.len() > 0 {
        lemma_shaped_list(s.drop_last());
        if forall|i: int| 0 <= i < s.len() ==> #[trigger] shaped(s[i]) {
            assert forall|i: int| 0 <= i < s.drop_last().len() implies #[trigger] shaped(s.drop_last()[i]) by {
                assert(shaped(s[i]));
            }
            assert(shaped(s[s.len() - 1]));
        }
        if shaped_list(s) {
            assert forall|i: int| 0 <= i < s.len() implies #[trigger] shaped(s[i]) by {
                if i < s.len() - 1 {
                    assert(shaped(s.drop_last()[i]));
                }
            }
        }
    }
}

/// Filing a leaf keeps the shape when the walk meets no leaf.
proof fn lemma_insert_shape(
    node: NodeV,
    dirs: Seq<Seq<char>>,
    d: int,
    leaf: NodeV,
    resolved: bool,
    paths: Set<Seq<Seq<char>>>,
)
    requires
        0 <= d <= dirs.len(),
        shaped(node),
        node.key is None,
        node.children.len() == 0 ==> node.size == 0,
        filed(node, dirs.take(d), paths),
        forall|k: int| d <= k < dirs.len() ==> !paths.contains(#[trigger] dirs.take(k + 1)),
        leaf.children.len() == 0,
        leaf.key is Some,
        leaf.group is None,
    ensures
        shaped(insert_path(node, dirs, d, leaf, resolved)),
    decreases dirs.len() - d,
{
    let path = dirs.take(d);
    let r = insert_path(node, dirs, d, leaf, resolved);
    lemma_shaped_list(node.children);
    lemma_shaped_list(leaf.children);
    if d >= dirs.len() {
        assert(r.children == node.children.push(leaf));
        assert forall|j: int| 0 <= j < r.children.len() implies #[trigger] shaped(r.children[j]) by {
            if j < node.children.len() {
                assert(r.children[j] == node.children[j]);
            }
        }
    } else {
        let i = first_named(node.children, dirs[d], 0);
        crate::tree::lemma_first_named_range(node.children, dirs[d], 0);
        lemma_first_named_is(node.children, dirs[d], 0);
        lemma_all_filed(node.children, path, paths);
        assert(path.push(dirs[d]) == dirs.take(d + 1));
        if i < node.children.len() {
            let c = node.children[i];
            assert(entry_filed(c, path.push(c.name), paths));
            assert(!paths.contains(dirs.take(d + 1)));
            assert(c.children.len() > 0);
            assert(shaped(c));
            assert(c.key is None);
            lemma_insert_shape(c, dirs, d + 1, leaf, resolved, paths);
            let c2 = insert_path(c, dirs, d + 1, leaf, resolved);
            assert(r.children == node.children.update(i, c2));
            assert forall|j: int| 0 <= j < r.children.len() implies #[trigger] shaped(r.children[j]) by {
                if j != i {
                    assert(r.children[j] == node.children[j]);
                }
            }
        } else {
            let g = if resolved {
                GroupV::Dir(dirs.take(d + 1))
            } else {
                GroupV::Unresolved
            };
            let dn = dir_node(dirs[d], g);
            lemma_shaped_list(dn.children);
            lemma_all_filed(dn.children, dirs.take(d + 1), paths);
            lemma_insert_shape(dn, dirs, d + 1, leaf, resolved, paths);
            let c2 = insert_path(dn, dirs, d + 1, leaf, resolved);
            assert(r.children == node.children.push(c2));
            assert forall|j: int| 0 <= j < r.children.len() implies #[trigger] shaped(r.children[j]) by {
                if j < node.children.len() {
                    assert(r.children[j] == node.children[j]);
                }
            }
        }
    }
    lemma_shaped_list(r.children);
}

proof fn lemma_insert_all_shape(syms: Seq<SymV>, keys: Seq<KeyV>, n: nat)
    requires
        n <= syms.len(),
        paths_apart(syms),
    ensures
        shaped(insert_all(syms, keys, n)),
        insert_all(syms, keys, n).key is None,
    decreases n,
{
    if n == 0 {
        lemma_shaped_list(root_node().children);
    } else {
        let s = syms[n - 1];
        let prev = insert_all(syms, keys, (n - 1) as nat);
        lemma_insert_all_shape(syms, keys, (n - 1) as nat);
        lemma_insert_all_exact(syms, keys, (n - 1) as nat);
        let dirs = sym_dirs(s);
        lemma_walk_clear(syms, n - 1);
        assert(dirs.take(0) == Seq::<Seq<char>>::empty());
        let leaf = leaf_node(s, keys[n - 1]);
        lemma_insert_shape(prev, dirs, 0, leaf, s.source is Some, first_paths(syms, n - 1));
    }
}

proof fn lemma_cluster_shape(t: NodeV, cl: Seq<Seq<char>>)
    requires
        shaped(t),
    ensures
        shaped(cluster_root(t, cl)),
{
    let i = first_named(t.children, "<unknown>"@, 0);
    crate::tree::lemma_first_named_range(t.children, "<unknown>"@, 0);
    lemma_shaped_list(t.children);
    if i < t.children.len() {
        let u = t.children[i];
        let cs = u.children;
        assert(shaped(u));
        lemma_shaped_list(cs);
        let named = named_prefixes(cs, cl);
        let kids = clustered_children(cs, cl);
        assert forall|k: int| 0 <= k < kids.len() implies #[trigger] shaped(kids[k]) by {
            if k < named.len() {
                let c = cluster_node(named[k], cs);
                assert(kids[k] == c);
                lemma_with_prefix_elems(cs, named[k]);
                assert forall|j: int| 0 <= j < c.children.len() implies #[trigger] shaped(c.children[j]) by {
                    let m = choose|m: int| 0 <= m < cs.len() && #[trigger] c.children[j] == cs[m]
                        && crate::tree::name_prefix(cs[m].name) == named[k];
                    assert(shaped(cs[m]));
                }
                lemma_shaped_list(c.children);
            } else {
                let c = other_node(cs, cl);
                assert(kids[k] == c);
                lemma_unclustered_elems(cs, cl);
                assert forall|j: int| 0 <= j < c.children.len() implies #[trigger] shaped(c.children[j]) by {
                    let m = choose|m: int| 0 <= m < cs.len() && #[trigger] c.children[j] == cs[m]
                        && !cl.contains(crate::tree::name_prefix(cs[m].name));
                    assert(shaped(cs[m]));
                }
                lemma_shaped_list(c.children);
            }
        }
        lemma_shaped_list(kids);
        let u2 = NodeV { children: kids, ..u };
        if cs.len() == 0 {
            assert(named.len() == 0);
            assert(kids.len() == 0);
        }
        assert(shaped(u2));
        let r = cluster_root(t, cl);
        assert(r.children == t.children.update(i, u2));
        assert forall|j: int| 0 <= j < r.children.len() implies #[trigger] shaped(r.children[j]) by {
            if j != i {
                assert(r.children[j] == t.children[j]);
            }
        }
        lemma_shaped_list(r.children);
    }
}

proof fn lemma_sized_shape(n: NodeV)
    requires
        shaped(n),
    ensures
        shaped(sized(n)),
    decreases n, 1int,
{
    if n.children.len() > 0 {
        let cs = sized_children(n);
        lemma_shaped_list(n.children);
        assert forall|i: int| 0 <= i < cs.len() implies #[trigger] shaped(cs[i]) by {
            assert(shaped(n.children[i]));
            lemma_sized_shape(n.children[i]);
        }
        lemma_sort_nodes(cs);
        let s = sort_nodes(cs);
        assert forall|i: int| 0 <= i < s.len() implies #[trigger] shaped(s[i]) by {
            let j = choose|j: int| 0 <= j < cs.len() && #[trigger] s[i] == cs[j];
            assert(shaped(cs[j]));
        }
        lemma_shaped_list(s);
    }
}

proof fn lemma_absorbed_shape(
    name: Seq<char>,
    size: nat,
    key: Option<KeyV>,
    group: Option<GroupV>,
    children: Seq<NodeV>,
)
    requires
        shaped(NodeV { name, size, children, key, group }),
    ensures
        shaped(absorbed(name, size, key, group, children)),
    decreases children,
{
    if children.len() == 1 && children[0].children.len() > 0 {
        let c = children[0];
        lemma_shaped_list(children);
        assert(shaped(c));
        let m = NodeV { name: crate::tree::join_name(name, c.name), size, children: c.children, key, group: c.group };
        assert(shaped(m));
        lemma_absorbed_shape(crate::tree::join_name(name, c.name), size, key, c.group, c.children);
    }
}

proof fn lemma_collapsed_shape(n: NodeV)
    requires
        shaped(n),
    ensures
        shaped(collapsed(n)),
    decreases n, 1int,
{
    let cs = collapsed_children(n);
    lemma_collapsed_list_shape(n);
    lemma_absorbed_shape(n.name, n.size, n.key, n.group, cs);
}

proof fn lemma_collapsed_list_shape(n: NodeV)
    requires
        shaped(n),
    ensures
        collapsed_children(n).len() == n.children.len(),
        shaped(NodeV { children: collapsed_children(n), ..n }),
    decreases n, 0int,
{
    let cs = collapsed_children(n);
    lemma_shaped_list(n.children);
    assert forall|i: int| 0 <= i < cs.len() implies #[trigger] shaped(cs[i]) by {
        assert(shaped(n.children[i]));
        lemma_collapsed_shape(n.children[i]);
    }
    lemma_shaped_list(cs);
}

/// When no symbol's directories and name are a proper prefix of another's
/// ([`paths_apart`]), every node of the built tree with a key is a childless
/// leaf without a group, and every node without a key has a group. Keys and
/// clusters play no part.
pub proof fn lemma_built_tree_shape(syms: Seq<SymV>, keys: Seq<KeyV>, cl: Seq<Seq<char>>)
    requires
        paths_apart(syms),
    ensures
        shaped(built_tree(syms, keys, cl)),
{
    let ins = insert_all(syms, keys, syms.len());
    lemma_insert_all_shape(syms, keys, syms.len());
    lemma_cluster_shape(ins, cl);
    let c = cluster_root(ins, cl);
    lemma_sized_shape(c);
    let t = sized(c);
    lemma_collapsed_list_shape(t);
    assert(built_tree(syms, keys, cl).children =~= collapsed_children(t));
}

} // verus!
