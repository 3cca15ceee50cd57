//! What the groups of a built tree mean: a node with a group stands for
//! exactly the kind of symbols below it, so aggregating a hovered node's
//! group over both files of a comparison counts every symbol it shows.
use vstd::prelude::*;

use crate::parse::SymV;
use crate::text::components;
use crate::tree::{
    absorbed, built_tree, cluster_node, cluster_root, clustered_children, collapsed,
    collapsed_children, dir_node, first_named, group_contains, insert_all, insert_path, leaf_node,
    name_prefix, named_prefixes, other_node, root_node, sized, sized_children, sort_nodes,
    sym_dirs, unclustered, with_prefix, GroupV, KeyV, NodeV,
};
use crate::tree_sizes::{
    entry_filed, filed, first_paths, lemma_all_filed, lemma_first_named_is, lemma_insert_all_exact,
    lemma_sort_nodes, lemma_walk_clear, paths_apart,
};

verus! {

/// The name of the node for symbols DWARF could not place.
pub open spec fn unknown_name() -> Seq<char> {
    "<unknown>"@
}

/// The directories a symbol with this key is filed under.
pub open spec fn key_dirs(k: KeyV) -> Seq<Seq<char>> {
    match k.source {
        Some(s) => components(s),
        None => seq![unknown_name()],
    }
}

/// A placed symbol's path does not start with the `<unknown>` component.
pub open spec fn key_ok(k: KeyV) -> bool {
    match k.source {
        Some(s) => components(s).len() == 0 || components(s)[0] != unknown_name(),
        None => true,
    }
}

/// `q` is a prefix of `p`.
pub open spec fn is_prefix(q: Seq<Seq<char>>, p: Seq<Seq<char>>) -> bool {
    q.len() <= p.len() && p.take(q.len() as int) == q
}

/// Each key has its symbol's source and name.
pub open spec fn keys_match(syms: Seq<SymV>, keys: Seq<KeyV>) -> bool {
    &&& keys.len() == syms.len()
    &&& forall|i: int|
        0 <= i < syms.len() ==> #[trigger] keys[i].source == syms[i].source && keys[i].name == syms[i].name
}

/// No source path starts with a `<unknown>` component.
pub open spec fn no_unknown_dirs(syms: Seq<SymV>) -> bool {
    forall|i: int|
        0 <= i < syms.len() ==> match #[trigger] syms[i].source {
            Some(s) => components(s).len() == 0 || components(s)[0] != unknown_name(),
            None => true,
        }
}

// ---------------------------------------------------------------------------
// Where the nodes of a filed tree sit

/// The node's group and key agree with its path from the root (`path`
/// ends with the node's own name).
pub open spec fn node_placed(n: NodeV, path: Seq<Seq<char>>) -> bool {
    &&& match n.group {
        Some(GroupV::All) => path.len() == 0 && n.key is None,
        Some(GroupV::Dir(x)) => x == path && x.len() > 0 && x[0] != unknown_name() && n.key is None,
        Some(GroupV::Unresolved) => path == seq![unknown_name()] && n.key is None,
        Some(_) => false,
        None => n.key is Some,
    }
    &&& match n.key {
        Some(k) => key_ok(k) && k.name == n.name && path.len() > 0 && key_dirs(k) == path.drop_last()
            && n.children.len() == 0,
        None => true,
    }
}

/// Every node of the tree is [`node_placed`].
pub open spec fn placed(n: NodeV, path: Seq<Seq<char>>) -> bool
    decreases n, 1int,
{
    node_placed(n, path) && placed_list(n.children, path)
}

/// Every tree of the list, below `path`, is [`placed`].
pub open spec fn placed_list(s: Seq<NodeV>, path: Seq<Seq<char>>) -> bool
    decreases s, 0int,
{
    s.len() == 0 || (placed_list(s.drop_last(), path) && placed(s.last(), path.push(s.last().name)))
}

proof fn lemma_placed_list(s: Seq<NodeV>, path: Seq<Seq<char>>)
    ensures
        placed_list(s, path) <==> forall|i: int| 0 <= i < s.len() ==> #[trigger] placed(s[i], path.push(s[i].name)),
    decreases s.len(),
{
    if s.len() > 0 {
        lemma_placed_list(s.drop_last(), path);
        if forall|i: int| 0 <= i < s.len() ==> #[trigger] placed(s[i], path.push(s[i].name)) {
            assert forall|i: int| 0 <= i < s.drop_last().len() implies #[trigger] placed(
                s.drop_last()[i],
                path.push(s.drop_last()[i].name),
            ) by {
                assert(placed(s[i], path.push(s[i].name)));
            }
            assert(placed(s[s.len() - 1], path.push(s[s.len() - 1].name)));
        }
        if placed_list(s, path) {
            assert forall|i: int| 0 <= i < s.len() implies #[trigger] placed(s[i], path.push(s[i].name)) by {
                if i < s.len() - 1 {
                    assert(placed(s.drop_last()[i], path.push(s.drop_last()[i].name)));
                }
            }
        }
    }
}

/// Filing a symbol's leaf keeps every node placed.
proof fn lemma_insert_placed(
    node: NodeV,
    dirs: Seq<Seq<char>>,
    d: int,
    leaf: NodeV,
    resolved: bool,
    paths: Set<Seq<Seq<char>>>,
)
    requires
        0 <= d <= dirs.len(),
        placed(node, dirs.take(d)),
        node.key is None,
        filed(node, dirs.take(d), paths),
        forall|k: int| d <= k < dirs.len() ==> !paths.contains(#[trigger] dirs.take(k + 1)),
        leaf.children.len() == 0,
        leaf.group is None,
        leaf.key is Some,
        key_ok(leaf.key.unwrap()),
        leaf.key.unwrap().name == leaf.name,
        key_dirs(leaf.key.unwrap()) == dirs,
        resolved ==> dirs.len() == 0 || dirs[0] != unknown_name(),
        !resolved ==> dirs == seq![unknown_name()],
    ensures
        placed(insert_path(node, dirs, d, leaf, resolved), dirs.take(d)),
    decreases dirs.len() - d,
{
    let path = dirs.take(d);
    let r = insert_path(node, dirs, d, leaf, resolved);
    lemma_placed_list(node.children, path);
    lemma_placed_list(r.children, path);
    if d >= dirs.len() {
        assert(r.children == node.children.push(leaf));
        assert(path == dirs);
        lemma_placed_list(leaf.children, path.push(leaf.name));
        assert(path.push(leaf.name).drop_last() == path);
        assert(placed(leaf, path.push(leaf.name)));
        assert forall|j: int| 0 <= j < r.children.len() implies #[trigger] placed(
            r.children[j],
            path.push(r.children[j].name),
        ) by {
            if j < node.children.len() {
                assert(r.children[j] == node.children[j]);
            }
        }
    } else {
        let i = first_named(node.children, dirs[d], 0);
        crate::tree::lemma_first_named_range(node.children, dirs[d], 0);
        lemma_first_named_is(node.children, dirs[d], 0);
        lemma_all_filed(node.children, path, paths);
        assert(path.push(dirs[d]) == dirs.take(d + 1));
        if i < node.children.len() {
            let c = node.children[i];
            assert(placed(c, path.push(c.name)));
            assert(entry_filed(c, path.push(c.name), paths));
            assert(c.key is None) by {
                if c.key is Some {
                    assert(node_placed(c, path.push(c.name)));
                    assert(c.children.len() == 0);
                    assert(paths.contains(dirs.take(d + 1)));
                }
            }
            lemma_insert_placed(c, dirs, d + 1, leaf, resolved, paths);
            let c2 = insert_path(c, dirs, d + 1, leaf, resolved);
            assert(r.children == node.children.update(i, c2));
            assert forall|j: int| 0 <= j < r.children.len() implies #[trigger] placed(
                r.children[j],
                path.push(r.children[j].name),
            ) by {
                if j != i {
                    assert(r.children[j] == node.children[j]);
                } else {
                    assert(r.children[j] == c2);
                }
            }
        } else {
            let g = if resolved {
                GroupV::Dir(dirs.take(d + 1))
            } else {
                GroupV::Unresolved
            };
            let dn = dir_node(dirs[d], g);
            lemma_placed_list(dn.children, dirs.take(d + 1));
            lemma_all_filed(dn.children, dirs.take(d + 1), paths);
            if !resolved {
                assert(dirs.take(d + 1) == dirs);
            }
            assert(placed(dn, dirs.take(d + 1)));
            lemma_insert_placed(dn, dirs, d + 1, leaf, resolved, paths);
            let c2 = insert_path(dn, dirs, d + 1, leaf, resolved);
            assert(r.children == node.children.push(c2));
            assert forall|j: int| 0 <= j < r.children.len() implies #[trigger] placed(
                r.children[j],
                path.push(r.children[j].name),
            ) by {
                if j < node.children.len() {
                    assert(r.children[j] == node.children[j]);
                } else {
                    assert(r.children[j] == c2);
                }
            }
        }
    }
}

/// Every node of the filed tree is placed.
proof fn lemma_insert_all_placed(syms: Seq<SymV>, keys: Seq<KeyV>, n: nat)
    requires
        n <= syms.len(),
        paths_apart(syms),
        keys_match(syms, keys),
        no_unknown_dirs(syms),
    ensures
        placed(insert_all(syms, keys, n), Seq::empty()),
        insert_all(syms, keys, n).key is None,
    decreases n,
{
    if n == 0 {
        lemma_placed_list(root_node().children, Seq::empty());
    } else {
        let s = syms[n - 1];
        let k = keys[n - 1];
        let prev = insert_all(syms, keys, (n - 1) as nat);
        let paths = first_paths(syms, n - 1);
        lemma_insert_all_placed(syms, keys, (n - 1) as nat);
        lemma_insert_all_exact(syms, keys, (n - 1) as nat);
        let dirs = sym_dirs(s);
        lemma_walk_clear(syms, n - 1);
        assert(keys[n - 1].source == s.source && keys[n - 1].name == s.name);
        let leaf = leaf_node(s, k);
        assert(key_dirs(k) == dirs);
        assert(dirs.take(0) == Seq::<Seq<char>>::empty());
        lemma_insert_placed(prev, dirs, 0, leaf, s.source is Some, paths);
    }
}

// ---------------------------------------------------------------------------
// Keys below a node

/// Every key in the tree satisfies `p`.
pub open spec fn every_key(n: NodeV, p: spec_fn(KeyV) -> bool) -> bool
    decreases n, 1int,
{
    (match n.key {
        Some(k) => p(k),
        None => true,
    }) && every_key_list(n.children, p)
}

/// Every key in the trees of the list satisfies `p`.
pub open spec fn every_key_list(s: Seq<NodeV>, p: spec_fn(KeyV) -> bool) -> bool
    decreases s, 0int,
{
    s.len() == 0 || (every_key_list(s.drop_last(), p) && every_key(s.last(), p))
}

proof fn lemma_every_key_list(s: Seq<NodeV>, p: spec_fn(KeyV) -> bool)
    ensures
        every_key_list(s, p) <==> forall|i: int| 0 <= i < s.len() ==> #[trigger] every_key(s[i], p),
    decreases s.len(),
{
    if s.len() > 0 {
        lemma_every_key_list(s.drop_last(), p);
        if forall|i: int| 0 <= i < s.len() ==> #[trigger] every_key(s[i], p) {
            assert forall|i: int| 0 <= i < s.drop_last().len() implies #[trigger] every_key(s.drop_last()[i], p) by {
                assert(every_key(s[i], p));
            }
            assert(every_key(s[s.len() - 1], p));
        }
        if every_key_list(s, p) {
            assert forall|i: int| 0 <= i < s.len() implies #[trigger] every_key(s[i], p) by {
                if i < s.len() - 1 {
                    assert(every_key(s.drop_last()[i], p));
                }
            }
        }
    }
}

proof fn lemma_every_key_weaken(n: NodeV, p: spec_fn(KeyV) -> bool, q: spec_fn(KeyV) -> bool)
    requires
        every_key(n, p),
        forall|k: KeyV| #[trigger] p(k) ==> q(k),
    ensures
        every_key(n, q),
    decreases n, 1int,
{
    lemma_every_key_list_weaken(n.children, p, q);
}

proof fn lemma_every_key_list_weaken(s: Seq<NodeV>, p: spec_fn(KeyV) -> bool, q: spec_fn(KeyV) -> bool)
    requires
        every_key_list(s, p),
        forall|k: KeyV| #[trigger] p(k) ==> q(k),
    ensures
        every_key_list(s, q),
    decreases s, 0int,
{
    if s.len() > 0 {
        lemma_every_key_list_weaken(s.drop_last(), p, q);
        lemma_every_key_weaken(s.last(), p, q);
    }
}

/// Keys that are placed and filed under `q` or deeper.
pub open spec fn under(q: Seq<Seq<char>>) -> spec_fn(KeyV) -> bool {
    |k: KeyV| key_ok(k) && is_prefix(q, key_dirs(k))
}

proof fn lemma_prefix_trans(a: Seq<Seq<char>>, b: Seq<Seq<char>>, c: Seq<Seq<char>>)
    requires
        is_prefix(a, b),
        is_prefix(b, c),
    ensures
        is_prefix(a, c),
{
    assert(c.take(a.len() as int) =~= b.take(a.len() as int));
}

/// Every key in a placed tree is filed at or below the directory of the
/// tree's root.
proof fn lemma_placed_keys(n: NodeV, path: Seq<Seq<char>>, q: Seq<Seq<char>>)
    requires
        placed(n, path),
        path.len() > 0,
        is_prefix(q, path.drop_last()),
    ensures
        every_key(n, under(q)),
    decreases n, 1int,
{
    lemma_placed_list(n.children, path);
    assert(is_prefix(q, path)) by {
        assert(is_prefix(path.drop_last(), path)) by {
            assert(path.take(path.drop_last().len() as int) =~= path.drop_last());
        }
        lemma_prefix_trans(q, path.drop_last(), path);
    }
    assert forall|i: int| 0 <= i < n.children.len() implies #[trigger] every_key(n.children[i], under(q)) by {
        let c = n.children[i];
        assert(placed(c, path.push(c.name)));
        assert(path.push(c.name).drop_last() == path);
        lemma_placed_keys(c, path.push(c.name), q);
    }
    lemma_every_key_list(n.children, under(q));
}

// ---------------------------------------------------------------------------
// Groups

/// A node with a key is a childless leaf without a group; any other node
/// has a group.
pub open spec fn node_shape(n: NodeV) -> bool {
    &&& (n.key is Some ==> n.children.len() == 0 && n.group is None)
    &&& (n.key is None ==> n.group is Some)
}

/// The keys `g` holds.
pub open spec fn in_group(g: GroupV) -> spec_fn(KeyV) -> bool {
    |k: KeyV| group_contains(g, k)
}

/// Every node has the [`node_shape`], and every key below a node with a
/// group belongs to that group.
pub open spec fn groups_hold(n: NodeV) -> bool
    decreases n, 1int,
{
    &&& node_shape(n)
    &&& match n.group {
        Some(g) => every_key(n, in_group(g)),
        None => true,
    }
    &&& groups_hold_list(n.children)
}

/// Every tree of the list satisfies [`groups_hold`].
pub open spec fn groups_hold_list(s: Seq<NodeV>) -> bool
    decreases s, 0int,
{
    s.len() == 0 || (groups_hold_list(s.drop_last()) && groups_hold(s.last()))
}

proof fn lemma_groups_hold_list(s: Seq<NodeV>)
    ensures
        groups_hold_list(s) <==> forall|i: int| 0 <= i < s.len() ==> #[trigger] groups_hold(s[i]),
    decreases s.len(),
{
    if s.len() > 0 {
        lemma_groups_hold_list(s.drop_last());
        if forall|i: int| 0 <= i < s.len() ==> #[trigger] groups_hold(s[i]) {
            assert forall|i: int| 0 <= i < s.drop_last().len() implies #[trigger] groups_hold(s.drop_last()[i]) by {
                assert(groups_hold(s[i]));
            }
            assert(groups_hold(s[s.len() - 1]));
        }
        if groups_hold_list(s) {
            assert forall|i: int| 0 <= i < s.len() implies #[trigger] groups_hold(s[i]) by {
                if i < s.len() - 1 {
                    assert(groups_hold(s.drop_last()[i]));
                }
            }
        }
    }
}

/// In a placed tree every group holds the keys below it.
proof fn lemma_placed_groups(n: NodeV, path: Seq<Seq<char>>)
    requires
        placed(n, path),
    ensures
        groups_hold(n),
    decreases n, 1int,
{
    lemma_placed_list(n.children, path);
    assert forall|i: int| 0 <= i < n.children.len() implies #[trigger] groups_hold(n.children[i]) by {
        let c = n.children[i];
        assert(placed(c, path.push(c.name)));
        lemma_placed_groups(c, path.push(c.name));
    }
    lemma_groups_hold_list(n.children);
    match n.group {
        Some(g) => {
            assert forall|i: int| 0 <= i < n.children.len() implies #[trigger] every_key(n.children[i], in_group(g)) by {
                let c = n.children[i];
                assert(placed(c, path.push(c.name)));
                assert(path.push(c.name).drop_last() == path);
                assert(is_prefix(path, path.push(c.name).drop_last())) by {
                    assert(path.push(c.name).drop_last().take(path.len() as int) =~= path);
                }
                assert(is_prefix(Seq::empty(), path.push(c.name).drop_last())) by {
                    assert(path.push(c.name).drop_last().take(0) =~= Seq::<Seq<char>>::empty());
                }
                match g {
                    GroupV::All => {
                        lemma_placed_keys(c, path.push(c.name), Seq::empty());
                        lemma_every_key_weaken(c, under(Seq::empty()), in_group(g));
                    },
                    GroupV::Dir(x) => {
                        lemma_placed_keys(c, path.push(c.name), path);
                        assert forall|k: KeyV| #[trigger] under(path)(k) implies in_group(g)(k) by {
                            match k.source {
                                Some(src) => {},
                                None => {
                                    assert(key_dirs(k).take(x.len() as int) == x);
                                    assert(x[0] == key_dirs(k)[0]);
                                },
                            }
                        }
                        lemma_every_key_weaken(c, under(path), in_group(g));
                    },
                    GroupV::Unresolved => {
                        lemma_placed_keys(c, path.push(c.name), path);
                        assert forall|k: KeyV| #[trigger] under(path)(k) implies in_group(g)(k) by {
                            match k.source {
                                Some(src) => {
                                    assert(key_dirs(k).take(1) == path);
                                    assert(components(src)[0] == path[0]);
                                },
                                None => {},
                            }
                        }
                        lemma_every_key_weaken(c, under(path), in_group(g));
                    },
                    _ => {},
                }
            }
            lemma_every_key_list(n.children, in_group(g));
        },
        None => {},
    }
}

proof fn lemma_every_key_true(n: NodeV, p: spec_fn(KeyV) -> bool)
    requires
        forall|k: KeyV| #[trigger] p(k),
    ensures
        every_key(n, p),
    decreases n, 1int,
{
    lemma_every_key_list_true(n.children, p);
}

proof fn lemma_every_key_list_true(s: Seq<NodeV>, p: spec_fn(KeyV) -> bool)
    requires
        forall|k: KeyV| #[trigger] p(k),
    ensures
        every_key_list(s, p),
    decreases s, 0int,
{
    if s.len() > 0 {
        lemma_every_key_list_true(s.drop_last(), p);
        lemma_every_key_true(s.last(), p);
    }
}

// ---------------------------------------------------------------------------
// Clustering the unplaced symbols

pub(crate) proof fn lemma_with_prefix_elems(cs: Seq<NodeV>, p: Seq<char>)
    ensures
        forall|i: int|
            0 <= i < with_prefix(cs, p).len() ==> exists|j: int|
                0 <= j < cs.len() && #[trigger] with_prefix(cs, p)[i] == cs[j] && name_prefix(cs[j].name) == p,
    decreases cs.len(),
{
    if cs.len() > 0 {
        lemma_with_prefix_elems(cs.drop_last(), p);
        let r = with_prefix(cs.drop_last(), p);
        assert forall|i: int| 0 <= i < with_prefix(cs, p).len() implies exists|j: int|
            0 <= j < cs.len() && #[trigger] with_prefix(cs, p)[i] == cs[j] && name_prefix(cs[j].name) == p by {
            if i < r.len() {
                let j = choose|j: int|
                    0 <= j < cs.drop_last().len() && #[trigger] r[i] == cs.drop_last()[j] && name_prefix(
                        cs.drop_last()[j].name,
                    ) == p;
                assert(with_prefix(cs, p)[i] == cs[j]);
            } else {
                assert(with_prefix(cs, p)[i] == cs[cs.len() - 1]);
            }
        }
    }
}

pub(crate) proof fn lemma_unclustered_elems(cs: Seq<NodeV>, cl: Seq<Seq<char>>)
    ensures
        forall|i: int|
            0 <= i < unclustered(cs, cl).len() ==> exists|j: int|
                0 <= j < cs.len() && #[trigger] unclustered(cs, cl)[i] == cs[j] && !cl.contains(
                    name_prefix(cs[j].name),
                ),
    decreases cs.len(),
{
    if cs.len() > 0 {
        lemma_unclustered_elems(cs.drop_last(), cl);
        let r = unclustered(cs.drop_last(), cl);
        assert forall|i: int| 0 <= i < unclustered(cs, cl).len() implies exists|j: int|
            0 <= j < cs.len() && #[trigger] unclustered(cs, cl)[i] == cs[j] && !cl.contains(name_prefix(cs[j].name)) by {
            if i < r.len() {
                let j = choose|j: int|
                    0 <= j < cs.drop_last().len() && #[trigger] r[i] == cs.drop_last()[j] && !cl.contains(
                        name_prefix(cs.drop_last()[j].name),
                    );
                assert(unclustered(cs, cl)[i] == cs[j]);
            } else {
                assert(unclustered(cs, cl)[i] == cs[cs.len() - 1]);
            }
        }
    }
}

/// Unplaced keys named `name`.
pub open spec fn unplaced_named(name: Seq<char>) -> spec_fn(KeyV) -> bool {
    |k: KeyV| k.source is None && k.name == name
}

/// Below `<unknown>`, a node's only key is its own, an unplaced one.
proof fn lemma_unknown_child_keys(c: NodeV)
    requires
        placed(c, seq![unknown_name(), c.name]),
    ensures
        every_key(c, unplaced_named(c.name)),
{
    let path = seq![unknown_name(), c.name];
    lemma_placed_list(c.children, path);
    match c.key {
        Some(k) => {
            assert(path.drop_last() == seq![unknown_name()]);
            match k.source {
                Some(src) => {
                    assert(components(src)[0] == unknown_name());
                },
                None => {},
            }
        },
        None => {},
    }
    assert forall|i: int| 0 <= i < c.children.len() implies #[trigger] every_key(c.children[i], unplaced_named(c.name)) by {
        let g = c.children[i];
        assert(placed(g, path.push(g.name)));
        assert(path.push(g.name).drop_last() == path);
        assert(is_prefix(path, path.push(g.name).drop_last())) by {
            assert(path.push(g.name).drop_last().take(path.len() as int) =~= path);
        }
        lemma_placed_keys(g, path.push(g.name), path);
        assert forall|k: KeyV| #[trigger] under(path)(k) implies unplaced_named(c.name)(k) by {
            match k.source {
                Some(src) => {
                    assert(key_dirs(k).take(2) == path);
                    assert(components(src)[0] == path[0]);
                },
                None => {
                    assert(key_dirs(k).len() == 1);
                },
            }
        }
        lemma_every_key_weaken(g, under(path), unplaced_named(c.name));
    }
    lemma_every_key_list(c.children, unplaced_named(c.name));
}

/// Keys of a list's filtered sublist.
proof fn lemma_sublist_keys(cs: Seq<NodeV>, sub: Seq<NodeV>, p: spec_fn(KeyV) -> bool)
    requires
        forall|i: int| 0 <= i < sub.len() ==> exists|j: int| 0 <= j < cs.len() && #[trigger] sub[i] == cs[j],
        every_key_list(cs, p),
    ensures
        every_key_list(sub, p),
{
    lemma_every_key_list(cs, p);
    lemma_every_key_list(sub, p);
    assert forall|i: int| 0 <= i < sub.len() implies #[trigger] every_key(sub[i], p) by {
        let j = choose|j: int| 0 <= j < cs.len() && #[trigger] sub[i] == cs[j];
        assert(every_key(cs[j], p));
    }
}

proof fn lemma_sublist_groups(cs: Seq<NodeV>, sub: Seq<NodeV>)
    requires
        forall|i: int| 0 <= i < sub.len() ==> exists|j: int| 0 <= j < cs.len() && #[trigger] sub[i] == cs[j],
        groups_hold_list(cs),
    ensures
        groups_hold_list(sub),
{
    lemma_groups_hold_list(cs);
    lemma_groups_hold_list(sub);
    assert forall|i: int| 0 <= i < sub.len() implies #[trigger] groups_hold(sub[i]) by {
        let j = choose|j: int| 0 <= j < cs.len() && #[trigger] sub[i] == cs[j];
        assert(groups_hold(cs[j]));
    }
}

/// Clustering the children of `<unknown>` keeps every group holding its
/// keys: a cluster holds the unplaced symbols of its prefix, `<other>` those
/// of no named cluster.
proof fn lemma_cluster_groups(t: NodeV, cl: Seq<Seq<char>>)
    requires
        placed(t, Seq::empty()),
    ensures
        groups_hold(cluster_root(t, cl)),
{
    lemma_placed_groups(t, Seq::empty());
    lemma_placed_list(t.children, Seq::empty());
    lemma_groups_hold_list(t.children);
    let i = first_named(t.children, unknown_name(), 0);
    crate::tree::lemma_first_named_range(t.children, unknown_name(), 0);
    lemma_first_named_is(t.children, unknown_name(), 0);
    if i < t.children.len() {
        let u = t.children[i];
        let cs = u.children;
        let upath = Seq::<Seq<char>>::empty().push(u.name);
        assert(upath == seq![unknown_name()]);
        assert(placed(u, upath));
        assert(groups_hold(u));
        lemma_placed_list(cs, upath);
        lemma_groups_hold_list(cs);
        let cc = clustered_children(cs, cl);
        let named = named_prefixes(cs, cl);
        let others = unclustered(cs, cl);
        let u2 = NodeV { children: cc, ..u };
        lemma_unclustered_elems(cs, cl);
        // Every child of `<unknown>` holds only its own unplaced key.
        assert forall|j: int| 0 <= j < cs.len() implies #[trigger] every_key(cs[j], unplaced_named(cs[j].name)) by {
            assert(placed(cs[j], upath.push(cs[j].name)));
            assert(upath.push(cs[j].name) == seq![unknown_name(), cs[j].name]);
            lemma_unknown_child_keys(cs[j]);
        }
        // The new children of `<unknown>`.
        assert forall|j: int| 0 <= j < cc.len() implies #[trigger] groups_hold(cc[j]) by {
            if j < named.len() {
                let p = named[j];
                let cn = cluster_node(p, cs);
                assert(cc[j] == cn);
                let sub = with_prefix(cs, p);
                lemma_with_prefix_elems(cs, p);
                assert forall|a: int| 0 <= a < sub.len() implies exists|b: int| 0 <= b < cs.len() && #[trigger] sub[a] == cs[b] by {
                    let b = choose|b: int| 0 <= b < cs.len() && #[trigger] sub[a] == cs[b] && name_prefix(cs[b].name) == p;
                }
                lemma_sublist_groups(cs, sub);
                let g = GroupV::UnresolvedCluster(p);
                assert forall|a: int| 0 <= a < sub.len() implies #[trigger] every_key(sub[a], in_group(g)) by {
                    let b = choose|b: int| 0 <= b < cs.len() && #[trigger] sub[a] == cs[b] && name_prefix(cs[b].name) == p;
                    assert(every_key(cs[b], unplaced_named(cs[b].name)));
                    assert forall|k: KeyV| #[trigger] unplaced_named(cs[b].name)(k) implies in_group(g)(k) by {}
                    lemma_every_key_weaken(cs[b], unplaced_named(cs[b].name), in_group(g));
                }
                lemma_every_key_list(sub, in_group(g));
            } else {
                let on = other_node(cs, cl);
                assert(others.len() > 0);
                assert(cc[j] == on);
                lemma_sublist_groups(cs, others);
                let g = GroupV::UnresolvedOther(cl);
                assert forall|a: int| 0 <= a < others.len() implies #[trigger] every_key(others[a], in_group(g)) by {
                    let b = choose|b: int| 0 <= b < cs.len() && #[trigger] others[a] == cs[b] && !cl.contains(name_prefix(cs[b].name));
                    assert(every_key(cs[b], unplaced_named(cs[b].name)));
                    assert forall|k: KeyV| #[trigger] unplaced_named(cs[b].name)(k) implies in_group(g)(k) by {}
                    lemma_every_key_weaken(cs[b], unplaced_named(cs[b].name), in_group(g));
                }
                lemma_every_key_list(others, in_group(g));
            }
        }
        lemma_groups_hold_list(cc);
        // `<unknown>` itself.
        if u.key is Some {
            assert(cs.len() == 0);
            assert(named.len() == 0);
            assert(others.len() == 0);
            assert(cc.len() == 0);
        }
        match u.group {
            Some(g) => {
                assert(g == GroupV::Unresolved) by {
                    match g {
                        GroupV::Dir(x) => {
                            assert(x[0] == unknown_name());
                        },
                        _ => {},
                    }
                }
                assert(every_key(u, in_group(g)));
                assert(every_key_list(cs, in_group(g)));
                assert forall|j: int| 0 <= j < cc.len() implies #[trigger] every_key(cc[j], in_group(g)) by {
                    if j < named.len() {
                        let p = named[j];
                        let sub = with_prefix(cs, p);
                        lemma_with_prefix_elems(cs, p);
                        assert forall|a: int| 0 <= a < sub.len() implies exists|b: int| 0 <= b < cs.len() && #[trigger] sub[a] == cs[b] by {
                            let b = choose|b: int| 0 <= b < cs.len() && #[trigger] sub[a] == cs[b] && name_prefix(cs[b].name) == p;
                        }
                        lemma_sublist_keys(cs, sub, in_group(g));
                        assert(cc[j] == cluster_node(p, cs));
                    } else {
                        lemma_sublist_keys(cs, others, in_group(g));
                        assert(cc[j] == other_node(cs, cl));
                    }
                }
                lemma_every_key_list(cc, in_group(g));
            },
            None => {},
        }
        assert(groups_hold(u2));
        let r = cluster_root(t, cl);
        assert(r.children == t.children.update(i, u2));
        assert forall|j: int| 0 <= j < r.children.len() implies #[trigger] groups_hold(r.children[j]) by {
            if j != i {
                assert(r.children[j] == t.children[j]);
            }
        }
        lemma_groups_hold_list(r.children);
        assert(t.group == Some(GroupV::All));
        lemma_every_key_true(r, in_group(GroupV::All));
    }
}

// ---------------------------------------------------------------------------
// Sizing and collapsing

proof fn lemma_sized_keys(n: NodeV, p: spec_fn(KeyV) -> bool)
    requires
        every_key(n, p),
    ensures
        every_key(sized(n), p),
    decreases n, 1int,
{
    if n.children.len() > 0 {
        let cs = sized_children(n);
        lemma_every_key_list(n.children, p);
        assert forall|i: int| 0 <= i < cs.len() implies #[trigger] every_key(cs[i], p) by {
            assert(every_key(n.children[i], p));
            lemma_sized_keys(n.children[i], p);
        }
        lemma_every_key_list(cs, p);
        lemma_sort_nodes(cs);
        lemma_sublist_keys(cs, sort_nodes(cs), p);
    }
}

proof fn lemma_sized_groups(n: NodeV)
    requires
        groups_hold(n),
    ensures
        groups_hold(sized(n)),
    decreases n, 1int,
{
    if n.children.len() > 0 {
        let cs = sized_children(n);
        lemma_groups_hold_list(n.children);
        assert forall|i: int| 0 <= i < cs.len() implies #[trigger] groups_hold(cs[i]) by {
            assert(groups_hold(n.children[i]));
            lemma_sized_groups(n.children[i]);
        }
        lemma_groups_hold_list(cs);
        lemma_sort_nodes(cs);
        lemma_sublist_groups(cs, sort_nodes(cs));
        match n.group {
            Some(g) => {
                lemma_sized_keys(n, in_group(g));
            },
            None => {},
        }
    }
}

proof fn lemma_absorbed_keys(
    name: Seq<char>,
    size: nat,
    key: Option<KeyV>,
    group: Option<GroupV>,
    children: Seq<NodeV>,
    p: spec_fn(KeyV) -> bool,
)
    requires
        node_shape(NodeV { name, size, children, key, group }),
        groups_hold_list(children),
        every_key(NodeV { name, size, children, key, group }, p),
    ensures
        every_key(absorbed(name, size, key, group, children), p),
    decreases children,
{
    if children.len() == 1 && children[0].children.len() > 0 {
        let c = children[0];
        lemma_groups_hold_list(children);
        lemma_every_key_list(children, p);
        assert(groups_hold(c));
        assert(every_key(c, p));
        lemma_absorbed_keys(crate::tree::join_name(name, c.name), size, key, c.group, c.children, p);
    }
}

proof fn lemma_absorbed_groups(
    name: Seq<char>,
    size: nat,
    key: Option<KeyV>,
    group: Option<GroupV>,
    children: Seq<NodeV>,
)
    requires
        groups_hold(NodeV { name, size, children, key, group }),
    ensures
        groups_hold(absorbed(name, size, key, group, children)),
    decreases children,
{
    if children.len() == 1 && children[0].children.len() > 0 {
        let c = children[0];
        lemma_groups_hold_list(children);
        assert(groups_hold(c));
        assert(key is None);
        assert(c.key is None);
        let m = NodeV { name: crate::tree::join_name(name, c.name), size, children: c.children, key, group: c.group };
        assert(groups_hold(m));
        lemma_absorbed_groups(crate::tree::join_name(name, c.name), size, key, c.group, c.children);
    }
}

proof fn lemma_collapsed_keys(n: NodeV, p: spec_fn(KeyV) -> bool)
    requires
        groups_hold(n),
        every_key(n, p),
    ensures
        every_key(collapsed(n), p),
    decreases n, 1int,
{
    let cs = collapsed_children(n);
    lemma_collapsed_children(n);
    lemma_groups_hold_list(n.children);
    lemma_every_key_list(n.children, p);
    assert forall|i: int| 0 <= i < cs.len() implies #[trigger] every_key(cs[i], p) by {
        assert(groups_hold(n.children[i]));
        assert(every_key(n.children[i], p));
        lemma_collapsed_keys(n.children[i], p);
    }
    lemma_every_key_list(cs, p);
    lemma_absorbed_keys(n.name, n.size, n.key, n.group, cs, p);
}

proof fn lemma_collapsed_children(n: NodeV)
    requires
        groups_hold(n),
    ensures
        collapsed_children(n).len() == n.children.len(),
        groups_hold_list(collapsed_children(n)),
    decreases n, 0int,
{
    let cs = collapsed_children(n);
    lemma_groups_hold_list(n.children);
    assert forall|i: int| 0 <= i < cs.len() implies #[trigger] groups_hold(cs[i]) by {
        assert(groups_hold(n.children[i]));
        lemma_collapsed_groups(n.children[i]);
    }
    lemma_groups_hold_list(cs);
}

proof fn lemma_collapsed_groups(n: NodeV)
    requires
        groups_hold(n),
    ensures
        groups_hold(collapsed(n)),
    decreases n, 1int,
{
    let cs = collapsed_children(n);
    lemma_collapsed_children(n);
    let m = NodeV { name: n.name, size: n.size, children: cs, key: n.key, group: n.group };
    match n.group {
        Some(g) => {
            lemma_every_key_list(n.children, in_group(g));
            assert forall|i: int| 0 <= i < cs.len() implies #[trigger] every_key(cs[i], in_group(g)) by {
                lemma_groups_hold_list(n.children);
                assert(groups_hold(n.children[i]));
                assert(every_key(n.children[i], in_group(g)));
                lemma_collapsed_keys(n.children[i], in_group(g));
            }
            lemma_every_key_list(cs, in_group(g));
        },
        None => {},
    }
    assert(groups_hold(m));
    lemma_absorbed_groups(n.name, n.size, n.key, n.group, cs);
}

/// When no symbol's directories and name are a proper prefix of another's
/// ([`paths_apart`]), no source path starts with `<unknown>`, and each key
/// carries its symbol's source and name, then in the built tree every node with a key is a
/// childless leaf, every other node has a group, and every key below a node
/// with a group belongs to that group: aggregating a node's group counts the
/// symbols it shows.
pub proof fn lemma_built_tree_groups(syms: Seq<SymV>, keys: Seq<KeyV>, cl: Seq<Seq<char>>)
    requires
        paths_apart(syms),
        keys_match(syms, keys),
        no_unknown_dirs(syms),
    ensures
        groups_hold(built_tree(syms, keys, cl)),
{
    let ins = insert_all(syms, keys, syms.len());
    lemma_insert_all_placed(syms, keys, syms.len());
    lemma_cluster_groups(ins, cl);
    let c = cluster_root(ins, cl);
    lemma_sized_groups(c);
    let t = sized(c);
    let r = built_tree(syms, keys, cl);
    lemma_groups_hold_list(t.children);
    assert forall|i: int| 0 <= i < r.children.len() implies #[trigger] groups_hold(r.children[i]) by {
        assert(groups_hold(t.children[i]));
        lemma_collapsed_groups(t.children[i]);
    }
    lemma_groups_hold_list(r.children);
    lemma_placed_groups(ins, Seq::empty());
    assert(ins.group == Some(GroupV::All));
    lemma_every_key_true(r, in_group(GroupV::All));
}

} // verus!
