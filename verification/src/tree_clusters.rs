//! What name clusters and unplaced-symbol groups mean: which symbols a
//! cluster prefix counts, where a name is cut, which keys the unplaced
//! groups hold, and that the `<other>` group of a tree built for a set of
//! clusters is that whole set.
use vstd::prelude::*;

use crate::parse::SymV;
use crate::tree::{
    absorbed, built_tree, cluster_node, cluster_root, clustered_children, collapsed,
    collapsed_children, dir_node, first_named, group_contains, hungarian_rest, insert_all,
    insert_path, leaf_node, name_prefix, named_prefixes, other_node, prefix_count, root_node,
    sep_index, sized, sized_children, sort_nodes, GroupV, KeyV, NodeV,
};
use crate::tree_groups::{lemma_unclustered_elems, lemma_with_prefix_elems};
use crate::tree_sizes::lemma_sort_nodes;

verus! {

// ---------------------------------------------------------------------------
// Which symbols a cluster prefix counts

/// A symbol with a source path never counts toward a cluster prefix: putting
/// one anywhere among the symbols leaves every prefix's count as it was.
pub proof fn lemma_placed_symbol_never_counts(syms: Seq<SymV>, k: int, s: SymV, p: Seq<char>)
    requires
        0 <= k <= syms.len(),
        s.source is Some,
    ensures
        prefix_count(syms.insert(k, s), p) == prefix_count(syms, p),
    decreases syms.len(),
{
    let t = syms.insert(k, s);
    if k == syms.len() {
        assert(t.drop_last() =~= syms);
    } else {
        assert(t.drop_last() =~= syms.drop_last().insert(k, s));
        assert(t.last() == syms.last());
        lemma_placed_symbol_never_counts(syms.drop_last(), k, s, p);
    }
}

/// A prefix counts at least twice exactly when two different symbols
/// without a source path have it.
pub proof fn lemma_count_two_iff_two_unplaced(syms: Seq<SymV>, p: Seq<char>)
    ensures
        prefix_count(syms, p) >= 2 <==> exists|i: int, j: int|
            0 <= i < j < syms.len() && #[trigger] syms[i].source is None && #[trigger] syms[j].source is None
                && name_prefix(syms[i].name) == p && name_prefix(syms[j].name) == p,
    decreases syms.len(),
{
    lemma_count_one_iff_one_unplaced(syms, p);
    if syms.len() > 0 {
        let d = syms.drop_last();
        lemma_count_two_iff_two_unplaced(d, p);
        lemma_count_one_iff_one_unplaced(d, p);
        let n = syms.len() - 1;
        let hit = syms[n].source is None && name_prefix(syms[n].name) == p;
        if prefix_count(syms, p) >= 2 {
            if prefix_count(d, p) >= 2 {
                let (i, j) = choose|i: int, j: int|
                    0 <= i < j < d.len() && #[trigger] d[i].source is None && #[trigger] d[j].source is None
                        && name_prefix(d[i].name) == p && name_prefix(d[j].name) == p;
                assert(syms[i] == d[i] && syms[j] == d[j]);
            } else {
                assert(hit);
                assert(prefix_count(d, p) >= 1);
                let i = choose|i: int| 0 <= i < d.len() && #[trigger] d[i].source is None && name_prefix(d[i].name) == p;
                assert(syms[i] == d[i]);
                assert(syms[i].source is None && syms[n].source is None);
            }
        }
        if exists|i: int, j: int|
            0 <= i < j < syms.len() && #[trigger] syms[i].source is None && #[trigger] syms[j].source is None
                && name_prefix(syms[i].name) == p && name_prefix(syms[j].name) == p {
            let (i, j) = choose|i: int, j: int|
                0 <= i < j < syms.len() && #[trigger] syms[i].source is None && #[trigger] syms[j].source is None
                    && name_prefix(syms[i].name) == p && name_prefix(syms[j].name) == p;
            if j < n {
                assert(d[i] == syms[i] && d[j] == syms[j]);
                assert(d[i].source is None && d[j].source is None);
            } else {
                assert(d[i] == syms[i]);
                assert(d[i].source is None);
                assert(prefix_count(d, p) >= 1);
            }
        }
    }
}

proof fn lemma_count_one_iff_one_unplaced(syms: Seq<SymV>, p: Seq<char>)
    ensures
        prefix_count(syms, p) >= 1 <==> exists|i: int|
            0 <= i < syms.len() && #[trigger] syms[i].source is None && name_prefix(syms[i].name) == p,
    decreases syms.len(),
{
    if syms.len() > 0 {
        let d = syms.drop_last();
        lemma_count_one_iff_one_unplaced(d, p);
        if prefix_count(d, p) >= 1 {
            let i = choose|i: int| 0 <= i < d.len() && #[trigger] d[i].source is None && name_prefix(d[i].name) == p;
            assert(syms[i] == d[i]);
        }
        if exists|i: int| 0 <= i < syms.len() && #[trigger] syms[i].source is None && name_prefix(syms[i].name) == p {
            let i = choose|i: int| 0 <= i < syms.len() && #[trigger] syms[i].source is None && name_prefix(syms[i].name) == p;
            if i < syms.len() - 1 {
                assert(d[i] == syms[i]);
                assert(d[i].source is None);
            }
        }
    }
}

// ---------------------------------------------------------------------------
// Where a name is cut

/// When a name (not starting with `_`) is, after its Hungarian scope prefix,
/// `x` followed by `_` and anything, with no `_` or `.` in `x`, its cluster
/// prefix is `x`, whatever case boundaries `x` contains.
pub proof fn lemma_prefix_is_text_before_first_underscore(n: Seq<char>, x: Seq<char>, y: Seq<char>)
    requires
        n.len() == 0 || n[0] != '_',
        hungarian_rest(n) == x + seq!['_'] + y,
        forall|i: int| 0 <= i < x.len() ==> x[i] != '_' && x[i] != '.',
    ensures
        name_prefix(n) == x,
{
    let r = hungarian_rest(n);
    lemma_sep_index_skips(r, x.len() as int, 0);
    assert(r[x.len() as int] == '_');
    assert(sep_index(r, x.len() as int) == x.len());
    assert(r.take(x.len() as int) =~= x);
}

/// A name (not starting with `_`) that, after its Hungarian scope prefix,
/// has no `_` or `.` and changes from a lowercase to an uppercase letter
/// first between `x` and `y` has cluster prefix `x`.
pub proof fn lemma_prefix_cuts_at_first_case_change(n: Seq<char>, x: Seq<char>, y: Seq<char>)
    requires
        n.len() == 0 || n[0] != '_',
        hungarian_rest(n) == x + y,
        x.len() >= 1,
        y.len() >= 1,
        forall|i: int| 0 <= i < (x + y).len() ==> (x + y)[i] != '_' && (x + y)[i] != '.',
        crate::text::lowercase_char(x[x.len() - 1]),
        crate::text::uppercase_char(y[0]),
        forall|i: int| 1 <= i < x.len() ==> !(crate::text::uppercase_char(x[i]) && crate::text::lowercase_char(x[i - 1])),
    ensures
        name_prefix(n) == x,
{
    let r = hungarian_rest(n);
    lemma_sep_index_skips(r, r.len() as int, 0);
    lemma_camel_index_skips(r, x.len() as int, 1);
    assert(r.take(x.len() as int) =~= x);
}

/// A name (not starting with `_`) that, after its Hungarian scope prefix,
/// has no `_` or `.` and never changes from a lowercase to an uppercase
/// letter is its own cluster prefix, Hungarian prefix dropped.
pub proof fn lemma_prefix_of_plain_name_is_whole(n: Seq<char>)
    requires
        n.len() == 0 || n[0] != '_',
        forall|i: int| 0 <= i < hungarian_rest(n).len() ==> hungarian_rest(n)[i] != '_' && hungarian_rest(n)[i] != '.',
        forall|i: int|
            1 <= i < hungarian_rest(n).len() ==> !(crate::text::uppercase_char(hungarian_rest(n)[i])
                && crate::text::lowercase_char(hungarian_rest(n)[i - 1])),
    ensures
        name_prefix(n) == hungarian_rest(n),
{
    let r = hungarian_rest(n);
    lemma_sep_index_skips(r, r.len() as int, 0);
    if r.len() >= 1 {
        lemma_camel_index_skips(r, r.len() as int, 1);
    }
    assert(r.take(r.len() as int) =~= r);
}

proof fn lemma_camel_index_skips(r: Seq<char>, k: int, i: int)
    requires
        1 <= i <= k <= r.len(),
        forall|j: int| i <= j < k ==> !(crate::text::uppercase_char(r[j]) && crate::text::lowercase_char(r[j - 1])),
    ensures
        crate::tree::camel_index(r, i) == crate::tree::camel_index(r, k),
    decreases k - i,
{
    if i < k {
        lemma_camel_index_skips(r, k, i + 1);
    }
}

/// The Hungarian scope prefixes that are dropped before a name is cut: `gp_`;
/// one lowercase letter and `_`; one lowercase letter before an uppercase
/// one. A name starting otherwise keeps all its characters.
pub proof fn lemma_hungarian_scopes(c: char, rest: Seq<char>)
    ensures
        hungarian_rest(seq!['g', 'p', '_'] + rest) == rest,
        crate::text::lowercase_char(c) && c != 'g' ==> hungarian_rest(seq![c, '_'] + rest) == rest,
        crate::text::lowercase_char(c) && c != 'g' && rest.len() >= 1 && rest[0] != '_' && crate::text::uppercase_char(
            rest[0],
        ) ==> hungarian_rest(seq![c] + rest) == rest,
        !crate::text::lowercase_char(c) && c != 'g' ==> hungarian_rest(seq![c] + rest) == seq![c] + rest,
{
    assert((seq!['g', 'p', '_'] + rest).skip(3) =~= rest);
    assert((seq![c, '_'] + rest).skip(2) =~= rest);
    assert((seq![c] + rest).skip(1) =~= rest);
}

proof fn lemma_sep_index_skips(r: Seq<char>, k: int, i: int)
    requires
        0 <= i <= k <= r.len(),
        forall|j: int| i <= j < k ==> r[j] != '_' && r[j] != '.',
    ensures
        sep_index(r, i) == sep_index(r, k),
    decreases k - i,
{
    if i < k {
        lemma_sep_index_skips(r, k, i + 1);
    }
}

/// A name's cluster prefix (for a name not starting with `_`) is a leading
/// part of what follows its Hungarian scope prefix.
pub proof fn lemma_prefix_leads_the_name(n: Seq<char>)
    requires
        n.len() == 0 || n[0] != '_',
    ensures
        hungarian_rest(n).take(name_prefix(n).len() as int) == name_prefix(n),
        name_prefix(n).len() <= hungarian_rest(n).len(),
{
    let r = hungarian_rest(n);
    lemma_sep_index_range(r, 0);
    lemma_camel_index_range(r, 1);
    let s = sep_index(r, 0);
    if s < r.len() {
        assert(r.take(s).len() == s);
        assert(r.take(s).take(s) =~= r.take(s));
    } else {
        let c = crate::tree::camel_index(r, 1);
        assert(r.take(c).len() == c);
        assert(r.take(c) =~= r.take(c).take(c));
    }
}

proof fn lemma_sep_index_range(r: Seq<char>, i: int)
    requires
        0 <= i,
    ensures
        i <= r.len() ==> i <= sep_index(r, i) <= r.len(),
        i > r.len() ==> sep_index(r, i) == r.len(),
    decreases r.len() - i,
{
    if i < r.len() {
        lemma_sep_index_range(r, i + 1);
    }
}

proof fn lemma_camel_index_range(r: Seq<char>, i: int)
    requires
        1 <= i,
    ensures
        0 <= crate::tree::camel_index(r, i) <= r.len(),
    decreases r.len() - i,
{
    if i < r.len() {
        lemma_camel_index_range(r, i + 1);
    }
}

// ---------------------------------------------------------------------------
// Which keys the unplaced groups hold

/// The groups of unplaced symbols (`<unknown>`, a named cluster, `<other>`)
/// hold no key with a source path.
pub proof fn lemma_unplaced_groups_hold_only_unplaced(g: GroupV, k: KeyV)
    requires
        g is Unresolved || g is UnresolvedCluster || g is UnresolvedOther,
        k.source is Some,
    ensures
        !group_contains(g, k),
{
}

// ---------------------------------------------------------------------------
// The `<other>` group is the whole cluster set

/// Every group in the tree passes `ok`.
pub open spec fn all_groups(n: NodeV, ok: spec_fn(Option<GroupV>) -> bool) -> bool
    decreases n, 1int,
{
    ok(n.group) && all_groups_list(n.children, ok)
}

/// Every group in the trees of the list passes `ok`.
pub open spec fn all_groups_list(s: Seq<NodeV>, ok: spec_fn(Option<GroupV>) -> bool) -> bool
    decreases s, 0int,
{
    s.len() == 0 || (all_groups_list(s.drop_last(), ok) && all_groups(s.last(), ok))
}

/// An `<other>` group, if `g` is one, stands for exactly the clusters `cl`;
/// a named-cluster group is for one of the prefixes of `cl`.
pub open spec fn other_is(cl: Seq<Seq<char>>) -> spec_fn(Option<GroupV>) -> bool {
    |g: Option<GroupV>|
        match g {
            Some(GroupV::UnresolvedOther(x)) => x == cl,
            Some(GroupV::UnresolvedCluster(p)) => cl.contains(p),
            _ => true,
        }
}

proof fn lemma_all_groups_list(s: Seq<NodeV>, ok: spec_fn(Option<GroupV>) -> bool)
    ensures
        all_groups_list(s, ok) <==> forall|i: int| 0 <= i < s.len() ==> #[trigger] all_groups(s[i], ok),
    decreases s.len(),
{
    if s.len() > 0 {
        lemma_all_groups_list(s.drop_last(), ok);
        if forall|i: int| 0 <= i < s.len() ==> #[trigger] all_groups(s[i], ok) {
            assert forall|i: int| 0 <= i < s.drop_last().len() implies #[trigger] all_groups(s.drop_last()[i], ok) by {
                assert(all_groups(s[i], ok));
            }
            assert(all_groups(s[s.len() - 1], ok));
        }
        if all_groups_list(s, ok) {
            assert forall|i: int| 0 <= i < s.len() implies #[trigger] all_groups(s[i], ok) by {
                if i < s.len() - 1 {
                    assert(all_groups(s.drop_last()[i], ok));
                }
            }
        }
    }
}

proof fn lemma_insert_groups(
    node: NodeV,
    dirs: Seq<Seq<char>>,
    d: int,
    leaf: NodeV,
    resolved: bool,
    cl: Seq<Seq<char>>,
)
    requires
        0 <= d,
        all_groups(node, other_is(cl)),
        all_groups(leaf, other_is(cl)),
    ensures
        all_groups(insert_path(node, dirs, d, leaf, resolved), other_is(cl)),
    decreases dirs.len() - d,
{
    let ok = other_is(cl);
    let r = insert_path(node, dirs, d, leaf, resolved);
    lemma_all_groups_list(node.children, ok);
    if d >= dirs.len() {
        assert(r.children == node.children.push(leaf));
        assert forall|j: int| 0 <= j < r.children.len() implies #[trigger] all_groups(r.children[j], ok) by {
            if j < node.children.len() {
                assert(r.children[j] == node.children[j]);
            }
        }
    } else {
        let i = first_named(node.children, dirs[d], 0);
        crate::tree::lemma_first_named_range(node.children, dirs[d], 0);
        if i < node.children.len() {
            let c = node.children[i];
            assert(all_groups(c, ok));
            lemma_insert_groups(c, dirs, d + 1, leaf, resolved, cl);
            let c2 = insert_path(c, dirs, d + 1, leaf, resolved);
            assert(r.children == node.children.update(i, c2));
            assert forall|j: int| 0 <= j < r.children.len() implies #[trigger] all_groups(r.children[j], ok) by {
                if j != i {
                    assert(r.children[j] == node.children[j]);
                }
            }
        } else {
            let g = if resolved {
                GroupV::Dir(dirs.take(d + 1))
            } else {
                GroupV::Unresolved
            };
            let dn = dir_node(dirs[d], g);
            lemma_all_groups_list(dn.children, ok);
            lemma_insert_groups(dn, dirs, d + 1, leaf, resolved, cl);
            let c2 = insert_path(dn, dirs, d + 1, leaf, resolved);
            assert(r.children == node.children.push(c2));
            assert forall|j: int| 0 <= j < r.children.len() implies #[trigger] all_groups(r.children[j], ok) by {
                if j < node.children.len() {
                    assert(r.children[j] == node.children[j]);
                }
            }
        }
    }
    lemma_all_groups_list(r.children, ok);
}

proof fn lemma_insert_all_groups(syms: Seq<SymV>, keys: Seq<KeyV>, n: nat, cl: Seq<Seq<char>>)
    requires
        n <= syms.len(),
    ensures
        all_groups(insert_all(syms, keys, n), other_is(cl)),
    decreases n,
{
    let ok = other_is(cl);
    if n == 0 {
        lemma_all_groups_list(root_node().children, ok);
    } else {
        let s = syms[n - 1];
        lemma_insert_all_groups(syms, keys, (n - 1) as nat, cl);
        let leaf = leaf_node(s, keys[n - 1]);
        lemma_all_groups_list(leaf.children, ok);
        lemma_insert_groups(
            insert_all(syms, keys, (n - 1) as nat),
            crate::tree::sym_dirs(s),
            0,
            leaf,
            s.source is Some,
            cl,
        );
    }
}

proof fn lemma_cluster_groups_ok(t: NodeV, cl: Seq<Seq<char>>)
    requires
        all_groups(t, other_is(cl)),
    ensures
        all_groups(cluster_root(t, cl), other_is(cl)),
{
    let ok = other_is(cl);
    let i = first_named(t.children, "<unknown>"@, 0);
    crate::tree::lemma_first_named_range(t.children, "<unknown>"@, 0);
    lemma_all_groups_list(t.children, ok);
    if i < t.children.len() {
        let u = t.children[i];
        let cs = u.children;
        assert(all_groups(u, ok));
        lemma_all_groups_list(cs, ok);
        let named = named_prefixes(cs, cl);
        let kids = clustered_children(cs, cl);
        assert forall|k: int| 0 <= k < kids.len() implies #[trigger] all_groups(kids[k], ok) by {
            if k < named.len() {
                let c = cluster_node(named[k], cs);
                assert(kids[k] == c);
                crate::tree::lemma_named_in_cl(cs, cl, k);
                lemma_with_prefix_elems(cs, named[k]);
                assert forall|j: int| 0 <= j < c.children.len() implies #[trigger] all_groups(c.children[j], ok) by {
                    let m = choose|m: int| 0 <= m < cs.len() && #[trigger] c.children[j] == cs[m]
                        && name_prefix(cs[m].name) == named[k];
                    assert(all_groups(cs[m], ok));
                }
                lemma_all_groups_list(c.children, ok);
            } else {
                let c = other_node(cs, cl);
                assert(kids[k] == c);
                lemma_unclustered_elems(cs, cl);
                assert forall|j: int| 0 <= j < c.children.len() implies #[trigger] all_groups(c.children[j], ok) by {
                    let m = choose|m: int| 0 <= m < cs.len() && #[trigger] c.children[j] == cs[m]
                        && !cl.contains(name_prefix(cs[m].name));
                    assert(all_groups(cs[m], ok));
                }
                lemma_all_groups_list(c.children, ok);
            }
        }
        lemma_all_groups_list(kids, ok);
        let u2 = NodeV { children: kids, ..u };
        assert(all_groups(u2, ok));
        let r = cluster_root(t, cl);
        assert(r.children == t.children.update(i, u2));
        assert forall|j: int| 0 <= j < r.children.len() implies #[trigger] all_groups(r.children[j], ok) by {
            if j != i {
                assert(r.children[j] == t.children[j]);
            }
        }
        lemma_all_groups_list(r.children, ok);
    }
}

proof fn lemma_sized_groups_ok(n: NodeV, ok: spec_fn(Option<GroupV>) -> bool)
    requires
        all_groups(n, ok),
    ensures
        all_groups(sized(n), ok),
    decreases n, 1int,
{
    if n.children.len() > 0 {
        let cs = sized_children(n);
        lemma_all_groups_list(n.children, ok);
        assert forall|i: int| 0 <= i < cs.len() implies #[trigger] all_groups(cs[i], ok) by {
            assert(all_groups(n.children[i], ok));
            lemma_sized_groups_ok(n.children[i], ok);
        }
        lemma_sort_nodes(cs);
        let s = sort_nodes(cs);
        assert forall|i: int| 0 <= i < s.len() implies #[trigger] all_groups(s[i], ok) by {
            let j = choose|j: int| 0 <= j < cs.len() && #[trigger] s[i] == cs[j];
            assert(all_groups(cs[j], ok));
        }
        lemma_all_groups_list(s, ok);
    }
}

proof fn lemma_absorbed_groups_ok(
    name: Seq<char>,
    size: nat,
    key: Option<KeyV>,
    group: Option<GroupV>,
    children: Seq<NodeV>,
    ok: spec_fn(Option<GroupV>) -> bool,
)
    requires
        all_groups(NodeV { name, size, children, key, group }, ok),
    ensures
        all_groups(absorbed(name, size, key, group, children), ok),
    decreases children,
{
    if children.len() == 1 && children[0].children.len() > 0 {
        let c = children[0];
        lemma_all_groups_list(children, ok);
        assert(all_groups(c, ok));
        lemma_absorbed_groups_ok(crate::tree::join_name(name, c.name), size, key, c.group, c.children, ok);
    }
}

proof fn lemma_collapsed_groups_ok(n: NodeV, ok: spec_fn(Option<GroupV>) -> bool)
    requires
        all_groups(n, ok),
    ensures
        all_groups(collapsed(n), ok),
    decreases n, 1int,
{
    lemma_collapsed_list_groups_ok(n, ok);
    lemma_absorbed_groups_ok(n.name, n.size, n.key, n.group, collapsed_children(n), ok);
}

proof fn lemma_collapsed_list_groups_ok(n: NodeV, ok: spec_fn(Option<GroupV>) -> bool)
    requires
        all_groups(n, ok),
    ensures
        all_groups(NodeV { children: collapsed_children(n), ..n }, ok),
    decreases n, 0int,
{
    let cs = collapsed_children(n);
    lemma_all_groups_list(n.children, ok);
    assert forall|i: int| 0 <= i < cs.len() implies #[trigger] all_groups(cs[i], ok) by {
        assert(all_groups(n.children[i], ok));
        lemma_collapsed_groups_ok(n.children[i], ok);
    }
    lemma_all_groups_list(cs, ok);
}

/// In a tree built for the cluster set `cl`, every `<other>` group stands
/// for the whole of `cl`, whichever of its prefixes this tree's symbols
/// have, and every named cluster is one of `cl`. So two trees built for one cluster set, as a comparison builds
/// them, give their `<other>` nodes one and the same group.
pub proof fn lemma_other_group_is_whole_cluster_set(syms: Seq<SymV>, keys: Seq<KeyV>, cl: Seq<Seq<char>>)
    ensures
        all_groups(built_tree(syms, keys, cl), other_is(cl)),
{
    let ok = other_is(cl);
    let ins = insert_all(syms, keys, syms.len());
    lemma_insert_all_groups(syms, keys, syms.len(), cl);
    lemma_cluster_groups_ok(ins, cl);
    let c = cluster_root(ins, cl);
    lemma_sized_groups_ok(c, ok);
    let t = sized(c);
    lemma_collapsed_list_groups_ok(t, ok);
    assert(built_tree(syms, keys, cl).children =~= collapsed_children(t));
}

} // verus!
