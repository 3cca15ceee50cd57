//! The size tree: symbols grouped by source directory and file, unresolved
//! symbols clustered by name prefix, sizes summed bottom-up, children ordered
//! by size and single-child directory chains collapsed.
use vstd::prelude::*;
use vstd::string::*;

use crate::parse::{ResolvedSymbol, SymV};
use crate::table::{Ident, KeyedTable, table_map};
use crate::text::{
    chars_lt, chars_of, components, components_of, seq_lt, copy_opt_string, copy_string, copy_strings,
    is_lowercase, is_uppercase, lowercase_char, opt_string_eq, push_char, string_from_chars,
    strings_contain, uppercase_char,
};

verus! {

/// Stable identity for a symbol (leaf), independent of the display tree's
/// clustering/collapsing.
///
/// `source` is `None` when DWARF could not place the symbol. `tu` is the
/// translation unit of a local symbol (from the ELF's `STT_FILE` provenance),
/// `None` for globals and when the ELF carries no provenance.
#[derive(Debug, Clone, PartialEq, Eq, Hash)]
pub struct SymbolKey {
    pub source: Option<String>,
    pub name: String,
    pub tu: Option<String>,
}

/// What a symbol key stands for.
pub struct KeyV {
    pub source: Option<Seq<char>>,
    pub name: Seq<char>,
    pub tu: Option<Seq<char>>,
}

impl View for SymbolKey {
    type V = KeyV;

    open spec fn view(&self) -> KeyV {
        KeyV { source: self.source.deep_view(), name: self.name@, tu: self.tu.deep_view() }
    }
}

impl Ident for SymbolKey {
    /// Whether two keys are the same identity.
    fn same(&self, other: &SymbolKey) -> (r: bool) {
        opt_string_eq(&self.source, &other.source) && self.name == other.name && opt_string_eq(
            &self.tu,
            &other.tu,
        )
    }

    /// A copy of this key.
    fn duplicate(&self) -> (r: SymbolKey) {
        SymbolKey {
            source: copy_opt_string(&self.source),
            name: copy_string(&self.name),
            tu: copy_opt_string(&self.tu),
        }
    }
}

/// The default identity used by single-file mode: `(source, name)`.
pub fn symbol_key(sym: &ResolvedSymbol) -> (k: SymbolKey)
    ensures
        k@ == (KeyV { source: sym@.source, name: sym@.name, tu: None }),
{
    SymbolKey { source: copy_opt_string(&sym.source_path), name: copy_string(&sym.name), tu: None }
}

// ---------------------------------------------------------------------------
// Name-cluster prefixes

/// Rest of a name after a Hungarian-notation scope prefix (`gp_`, a single
/// lowercase letter followed by `_` or by an uppercase letter).
pub open spec fn hungarian_rest(n: Seq<char>) -> Seq<char> {
    if n.len() >= 3 && n[0] == 'g' && n[1] == 'p' && n[2] == '_' {
        n.skip(3)
    } else if n.len() >= 2 && lowercase_char(n[0]) {
        if n[1] == '_' {
            n.skip(2)
        } else if uppercase_char(n[1]) {
            n.skip(1)
        } else {
            n
        }
    } else {
        n
    }
}

/// Index of the first `_` or `.` at or after `i`, or the length.
pub open spec fn sep_index(r: Seq<char>, i: int) -> int
    decreases r.len() - i,
{
    if i >= r.len() {
        r.len() as int
    } else if r[i] == '_' || r[i] == '.' {
        i
    } else {
        sep_index(r, i + 1)
    }
}

/// First index at or after `i` where a lowercase character is followed by an
/// uppercase one (the index of the uppercase one), or the length.
pub open spec fn camel_index(r: Seq<char>, i: int) -> int
    decreases r.len() - i,
{
    if i >= r.len() {
        r.len() as int
    } else if uppercase_char(r[i]) && lowercase_char(r[i - 1]) {
        i
    } else {
        camel_index(r, i + 1)
    }
}

/// The cluster prefix of a symbol name:
/// 1. `__*` gives `__`;
/// 2. `_*` gives `_`;
/// 3. otherwise a Hungarian scope prefix is dropped (`gp_`, or one lowercase
///    letter followed by `_` or an uppercase letter), and the rest is cut at its
///    first `_` or `.`, or failing that at its first lowercase-to-uppercase
///    boundary, or kept whole.
pub open spec fn name_prefix(n: Seq<char>) -> Seq<char> {
    if n.len() >= 2 && n[0] == '_' && n[1] == '_' {
        seq!['_', '_']
    } else if n.len() >= 1 && n[0] == '_' {
        seq!['_']
    } else {
        let r = hungarian_rest(n);
        let s = sep_index(r, 0);
        if s < r.len() {
            r.take(s)
        } else {
            r.take(camel_index(r, 1))
        }
    }
}

/// Extract a cluster prefix from a symbol name (see `name_prefix` for the rules).
pub fn extract_prefix(name: &str) -> (p: String)
    ensures
        p@ == name_prefix(name@),
{
    let cs = chars_of(name);
    let n = cs.len();
    if n >= 2 && cs[0] == '_' && cs[1] == '_' {
        let mut p = String::new();
        push_char(&mut p, '_');
        push_char(&mut p, '_');
        return p;
    }
    if n >= 1 && cs[0] == '_' {
        let mut p = String::new();
        push_char(&mut p, '_');
        return p;
    }
    let start: usize = if n >= 3 && cs[0] == 'g' && cs[1] == 'p' && cs[2] == '_' {
        3
    } else if n >= 2 && is_lowercase(cs[0]) {
        if cs[1] == '_' {
            2
        } else if is_uppercase(cs[1]) {
            1
        } else {
            0
        }
    } else {
        0
    };
    let ghost r = cs@.skip(start as int);
    assert(r == hungarian_rest(name@));
    assert(!(name@.len() >= 2 && name@[0] == '_' && name@[1] == '_'));
    assert(!(name@.len() >= 1 && name@[0] == '_'));
    // First `_` or `.`.
    let mut i = start;
    while i < n
        invariant
            start <= i <= n == cs@.len(),
            r == cs@.skip(start as int),
            cs@ == name@,
            r == hungarian_rest(name@),
            !(name@.len() >= 2 && name@[0] == '_' && name@[1] == '_'),
            !(name@.len() >= 1 && name@[0] == '_'),
            sep_index(r, 0) == sep_index(r, i - start),
        decreases n - i,
    {
        if cs[i] == '_' || cs[i] == '.' {
            assert(sep_index(r, i - start) == i - start);
            assert(r.take(i - start) == cs@.subrange(start as int, i as int));
            assert(name_prefix(name@) == r.take(i - start));
            return string_from_chars(&cs, start, i);
        }
        i += 1;
    }
    // First lowercase-to-uppercase boundary.
    let mut j = start + 1;
    if j > n {
        j = n;
    }
    assert(sep_index(r, 0) == r.len());
    while j < n
        invariant
            start < j <= n == cs@.len() || (j == n && start == n),
            r == cs@.skip(start as int),
            cs@ == name@,
            r == hungarian_rest(name@),
            !(name@.len() >= 2 && name@[0] == '_' && name@[1] == '_'),
            !(name@.len() >= 1 && name@[0] == '_'),
            sep_index(r, 0) == r.len(),
            r.len() == n - start,
            start < n ==> camel_index(r, 1) == camel_index(r, j - start),
        decreases n - j,
    {
        if is_uppercase(cs[j]) && is_lowercase(cs[j - 1]) {
            assert(camel_index(r, j - start) == j - start);
            assert(r.take(j - start) == cs@.subrange(start as int, j as int));
            assert(sep_index(r, 0) == r.len());
            assert(name_prefix(name@) == r.take(j - start));
            return string_from_chars(&cs, start, j);
        }
        j += 1;
    }
    assert(r.take(camel_index(r, 1)) == cs@.subrange(start as int, n as int));
    string_from_chars(&cs, start, n)
}

// ---------------------------------------------------------------------------
// Groups

/// A logical group of symbols that a directory-like tree node stands for,
/// defined as a predicate over `SymbolKey` rather than as the leaves one tree
/// happens to contain, so that it means the same thing in both trees of a
/// comparison.
#[derive(Debug, Clone, PartialEq, Eq)]
pub enum Group {
    /// The whole tree.
    All,
    /// Symbols whose source path lies under this directory (path components).
    Dir(Vec<String>),
    /// Every symbol DWARF could not place.
    Unresolved,
    /// Unresolved symbols sharing this name-cluster prefix (see `extract_prefix`).
    UnresolvedCluster(String),
    /// Unresolved symbols whose prefix is *not* one of these named clusters —
    /// the `<other>` catch-all.
    UnresolvedOther(Vec<String>),
}

/// What a group stands for.
pub enum GroupV {
    All,
    Dir(Seq<Seq<char>>),
    Unresolved,
    UnresolvedCluster(Seq<char>),
    UnresolvedOther(Seq<Seq<char>>),
}

impl View for Group {
    type V = GroupV;

    open spec fn view(&self) -> GroupV {
        match self {
            Group::All => GroupV::All,
            Group::Dir(d) => GroupV::Dir(d.deep_view()),
            Group::Unresolved => GroupV::Unresolved,
            Group::UnresolvedCluster(p) => GroupV::UnresolvedCluster(p@),
            Group::UnresolvedOther(c) => GroupV::UnresolvedOther(c.deep_view()),
        }
    }
}

/// `dir` is a leading run of the components of `path`.
pub open spec fn dir_prefix_of(dir: Seq<Seq<char>>, path: Seq<char>) -> bool {
    let c = components(path);
    dir.len() <= c.len() && c.take(dir.len() as int) == dir
}

/// Whether a symbol identity belongs to a group.
pub open spec fn group_contains(g: GroupV, k: KeyV) -> bool {
    match g {
        GroupV::All => true,
        GroupV::Dir(dir) => match k.source {
            Some(s) => dir_prefix_of(dir, s),
            None => false,
        },
        GroupV::Unresolved => k.source is None,
        GroupV::UnresolvedCluster(p) => k.source is None && name_prefix(k.name) == p,
        GroupV::UnresolvedOther(cl) => k.source is None && !cl.contains(name_prefix(k.name)),
    }
}

impl Group {
    pub fn contains(&self, key: &SymbolKey) -> (r: bool)
        ensures
            r == group_contains(self@, key@),
    {
        match self {
            Group::All => true,
            Group::Dir(dir) => match &key.source {
                None => false,
                Some(s) => {
                    let comps = components_of(s.as_str());
                    if dir.len() > comps.len() {
                        return false;
                    }
                    let mut i: usize = 0;
                    while i < dir.len()
                        invariant
                            i <= dir.len() <= comps.len(),
                            comps.deep_view() == components(s@),
                            self@ == GroupV::Dir(dir.deep_view()),
                            key@.source == Some(s@),
                            forall|j: int| 0 <= j < i ==> comps.deep_view()[j] == dir.deep_view()[j],
                        decreases dir.len() - i,
                    {
                        if !(comps[i] == dir[i]) {
                            assert(comps.deep_view()[i as int] != dir.deep_view()[i as int]);
                            assert(comps.deep_view().take(dir.len() as int)[i as int]
                                != dir.deep_view()[i as int]);
                            assert(comps.deep_view().take(dir.len() as int) != dir.deep_view());
                            return false;
                        }
                        i += 1;
                    }
                    assert(comps.deep_view().take(dir.len() as int) =~= dir.deep_view());
                    true
                },
            },
            Group::Unresolved => key.source.is_none(),
            Group::UnresolvedCluster(prefix) => {
                if key.source.is_some() {
                    return false;
                }
                let p = extract_prefix(key.name.as_str());
                p == *prefix
            },
            Group::UnresolvedOther(clustered) => {
                if key.source.is_some() {
                    return false;
                }
                let p = extract_prefix(key.name.as_str());
                !strings_contain(clustered, &p)
            },
        }
    }

    /// A copy of this group.
    pub fn duplicate(&self) -> (r: Group)
        ensures
            r@ == self@,
    {
        match self {
            Group::All => Group::All,
            Group::Dir(d) => Group::Dir(copy_strings(d)),
            Group::Unresolved => Group::Unresolved,
            Group::UnresolvedCluster(p) => Group::UnresolvedCluster(copy_string(p)),
            Group::UnresolvedOther(c) => Group::UnresolvedOther(copy_strings(c)),
        }
    }
}

} // verus!

verus! {

// ---------------------------------------------------------------------------
// The size tree

/// A node in the size tree.
#[derive(Debug)]
pub struct SizeNode {
    /// Name of this node (directory name, filename, or symbol name).
    pub name: String,
    /// Total size of this node and all descendants (bytes).
    pub size: u64,
    /// Child nodes. Empty for leaf (symbol) nodes.
    pub children: Vec<SizeNode>,
    /// Stable identity, set only for leaf (symbol) nodes.
    pub key: Option<SymbolKey>,
    /// Logical membership of a directory-like node; `None` for leaves.
    pub group: Option<Group>,
}

/// What a size-tree node stands for.
pub struct NodeV {
    pub name: Seq<char>,
    pub size: nat,
    pub children: Seq<NodeV>,
    pub key: Option<KeyV>,
    pub group: Option<GroupV>,
}

pub open spec fn opt_key_view(k: Option<SymbolKey>) -> Option<KeyV> {
    match k {
        Some(k) => Some(k@),
        None => None,
    }
}

pub open spec fn opt_group_view(g: Option<Group>) -> Option<GroupV> {
    match g {
        Some(g) => Some(g@),
        None => None,
    }
}

impl SizeNode {
    pub open spec fn node_view(&self) -> NodeV
        decreases self,
    {
        NodeV {
            name: self.name@,
            size: self.size as nat,
            children: Seq::new(
                self.children@.len(),
                |i: int|
                    if 0 <= i < self.children@.len() {
                        self.children@[i].node_view()
                    } else {
                        empty_node()
                    },
            ),
            key: opt_key_view(self.key),
            group: opt_group_view(self.group),
        }
    }
}

impl View for SizeNode {
    type V = NodeV;

    open spec fn view(&self) -> NodeV {
        self.node_view()
    }
}

/// Views of a list of nodes.
pub open spec fn views(s: Seq<SizeNode>) -> Seq<NodeV> {
    Seq::new(s.len(), |i: int| s[i]@)
}

pub open spec fn empty_node() -> NodeV {
    NodeV { name: Seq::empty(), size: 0, children: Seq::empty(), key: None, group: None }
}

pub proof fn lemma_children_views(n: SizeNode)
    ensures
        n@.children == views(n.children@),
        n@.name == n.name@,
        n@.size == n.size,
        n@.key == opt_key_view(n.key),
        n@.group == opt_group_view(n.group),
{
    assert(n@.children =~= views(n.children@));
}

/// A directory-like node with no children yet.
pub open spec fn dir_node(name: Seq<char>, group: GroupV) -> NodeV {
    NodeV { name, size: 0, children: Seq::empty(), key: None, group: Some(group) }
}

/// The leaf for a symbol.
pub open spec fn leaf_node(s: SymV, k: KeyV) -> NodeV {
    NodeV { name: s.name, size: s.size as nat, children: Seq::empty(), key: Some(k), group: None }
}

/// The empty root.
pub open spec fn root_node() -> NodeV {
    NodeV { name: Seq::empty(), size: 0, children: Seq::empty(), key: None, group: Some(GroupV::All) }
}

/// Index of the first node at or after `i` named `name`, or the length.
pub open spec fn first_named(cs: Seq<NodeV>, name: Seq<char>, i: int) -> int
    decreases cs.len() - i,
{
    if i >= cs.len() {
        cs.len() as int
    } else if cs[i].name == name {
        i
    } else {
        first_named(cs, name, i + 1)
    }
}

/// The directory components a symbol is filed under: its source path's, or
/// `<unknown>` when DWARF could not place it.
pub open spec fn sym_dirs(s: SymV) -> Seq<Seq<char>> {
    match s.source {
        Some(p) => components(p),
        None => seq!["<unknown>"@],
    }
}

/// `node` with `leaf` filed under `dirs[d..]`: each component is looked up
/// among the children by name (the first match), created when missing, and
/// the leaf is appended at the end of the walk.
pub open spec fn insert_path(
    node: NodeV,
    dirs: Seq<Seq<char>>,
    d: int,
    leaf: NodeV,
    resolved: bool,
) -> NodeV
    decreases dirs.len() - d,
{
    if d >= dirs.len() || d < 0 {
        NodeV { children: node.children.push(leaf), ..node }
    } else {
        let i = first_named(node.children, dirs[d], 0);
        if i < node.children.len() {
            NodeV {
                children: node.children.update(
                    i,
                    insert_path(node.children[i], dirs, d + 1, leaf, resolved),
                ),
                ..node
            }
        } else {
            let g = if resolved {
                GroupV::Dir(dirs.take(d + 1))
            } else {
                GroupV::Unresolved
            };
            NodeV {
                children: node.children.push(
                    insert_path(dir_node(dirs[d], g), dirs, d + 1, leaf, resolved),
                ),
                ..node
            }
        }
    }
}

/// The tree after filing the first `n` symbols.
pub open spec fn insert_all(syms: Seq<SymV>, keys: Seq<KeyV>, n: nat) -> NodeV
    decreases n,
{
    if n == 0 {
        root_node()
    } else {
        let s = syms[n - 1];
        insert_path(
            insert_all(syms, keys, (n - 1) as nat),
            sym_dirs(s),
            0,
            leaf_node(s, keys[n - 1]),
            s.source is Some,
        )
    }
}

/// The node reached from `n` by following `path`: at each step the first
/// child with the next name, stopping where there is none.
pub open spec fn node_at(n: NodeV, path: Seq<Seq<char>>) -> NodeV
    decreases path.len(),
{
    if path.len() == 0 {
        n
    } else {
        let i = first_named(n.children, path[0], 0);
        if 0 <= i < n.children.len() {
            node_at(n.children[i], path.drop_first())
        } else {
            n
        }
    }
}

impl SizeNode {
    /// The group of the node reached by following the names of `path` from
    /// this node (see [`node_at`]).
    pub fn group_at(&self, path: &[String]) -> (r: Option<Group>)
        ensures
            opt_group_view(r) == node_at(self@, path@.map_values(|s: String| s@)).group,
    {
        let ghost ps = path@.map_values(|s: String| s@);
        let mut node = self;
        let mut k: usize = 0;
        let mut stuck = false;
        assert(ps.skip(0) =~= ps);
        while k < path.len() && !stuck
            invariant
                k <= path.len(),
                ps == path@.map_values(|s: String| s@),
                stuck ==> node_at(self@, ps) == node@,
                !stuck ==> node_at(self@, ps) == node_at(node@, ps.skip(k as int)),
            decreases path.len() - k,
        {
            proof {
                lemma_children_views(*node);
                assert(ps.skip(k as int)[0] == path@[k as int]@);
                assert(ps.skip(k as int).drop_first() =~= ps.skip(k + 1));
            }
            let i = find_child(&node.children, &path[k]);
            if i < node.children.len() {
                node = &node.children[i];
            } else {
                stuck = true;
            }
            k += 1;
        }
        proof {
            if !stuck {
                assert(ps.skip(k as int).len() == 0);
            }
        }
        match &node.group {
            Some(g) => Some(g.duplicate()),
            None => None,
        }
    }
}

/// Index of the first child named `name`, or the number of children.
fn find_child(children: &Vec<SizeNode>, name: &String) -> (r: usize)
    ensures
        r == first_named(views(children@), name@, 0),
{
    let ghost cs = views(children@);
    let mut i: usize = 0;
    while i < children.len()
        invariant
            i <= children.len(),
            cs == views(children@),
            first_named(cs, name@, 0) == first_named(cs, name@, i as int),
        decreases children.len() - i,
    {
        proof {
            lemma_children_views(children@[i as int]);
        }
        if children[i].name == *name {
            return i;
        }
        i += 1;
    }
    i
}

/// Files `leaf` under `dirs[d..]` below `node`.
fn insert_leaf(node: &mut SizeNode, dirs: &Vec<String>, d: usize, leaf: SizeNode, resolved: bool)
    requires
        d <= dirs.len(),
    ensures
        final(node)@ == insert_path(old(node)@, dirs.deep_view(), d as int, leaf@, resolved),
    decreases dirs.len() - d,
{
    proof {
        lemma_children_views(*old(node));
    }
    if d >= dirs.len() {
        node.children.push(leaf);
        proof {
            lemma_children_views(*node);
            assert(views(node.children@) =~= views(old(node).children@).push(leaf@));
        }
        return;
    }
    let i = find_child(&node.children, &dirs[d]);
    if i < node.children.len() {
        let ghost old_child = node.children@[i as int];
        insert_leaf(&mut node.children[i], dirs, d + 1, leaf, resolved);
        proof {
            lemma_children_views(*node);
            assert(views(node.children@) =~= views(old(node).children@).update(
                i as int,
                insert_path(old_child@, dirs.deep_view(), d + 1, leaf@, resolved),
            ));
        }
    } else {
        let group = if resolved {
            let mut parts: Vec<String> = Vec::new();
            let mut j: usize = 0;
            while j <= d
                invariant
                    j <= d + 1,
                    d < dirs.len(),
                    parts@.len() == j,
                    forall|k: int| 0 <= k < j ==> #[trigger] parts@[k]@ == dirs@[k]@,
                decreases d + 1 - j,
            {
                parts.push(copy_string(&dirs[j]));
                j += 1;
            }
            assert(parts.deep_view() =~= dirs.deep_view().take(d + 1));
            Group::Dir(parts)
        } else {
            Group::Unresolved
        };
        let mut fresh = SizeNode {
            name: copy_string(&dirs[d]),
            size: 0,
            children: Vec::new(),
            key: None,
            group: Some(group),
        };
        proof {
            lemma_children_views(fresh);
            assert(fresh@.children =~= Seq::<NodeV>::empty());
        }
        insert_leaf(&mut fresh, dirs, d + 1, leaf, resolved);
        node.children.push(fresh);
        proof {
            lemma_children_views(*node);
            assert(views(node.children@) =~= views(old(node).children@).push(fresh@));
        }
    }
}

} // verus!

verus! {

/// The name-cluster prefixes that are in `cl`, in order of first appearance
/// among the names of `cs`.
pub open spec fn named_prefixes(cs: Seq<NodeV>, cl: Seq<Seq<char>>) -> Seq<Seq<char>>
    decreases cs.len(),
{
    if cs.len() == 0 {
        Seq::empty()
    } else {
        let ps = named_prefixes(cs.drop_last(), cl);
        let p = name_prefix(cs.last().name);
        if cl.contains(p) && !ps.contains(p) {
            ps.push(p)
        } else {
            ps
        }
    }
}

/// The nodes of `cs` whose name has prefix `p`, in order.
pub open spec fn with_prefix(cs: Seq<NodeV>, p: Seq<char>) -> Seq<NodeV>
    decreases cs.len(),
{
    if cs.len() == 0 {
        Seq::empty()
    } else {
        let r = with_prefix(cs.drop_last(), p);
        if name_prefix(cs.last().name) == p {
            r.push(cs.last())
        } else {
            r
        }
    }
}

/// The nodes of `cs` whose name prefix is not in `cl`, in order.
pub open spec fn unclustered(cs: Seq<NodeV>, cl: Seq<Seq<char>>) -> Seq<NodeV>
    decreases cs.len(),
{
    if cs.len() == 0 {
        Seq::empty()
    } else {
        let r = unclustered(cs.drop_last(), cl);
        if !cl.contains(name_prefix(cs.last().name)) {
            r.push(cs.last())
        } else {
            r
        }
    }
}

/// The cluster node for prefix `p`.
pub open spec fn cluster_node(p: Seq<char>, cs: Seq<NodeV>) -> NodeV {
    NodeV {
        name: p,
        size: 0,
        children: with_prefix(cs, p),
        key: None,
        group: Some(GroupV::UnresolvedCluster(p)),
    }
}

/// The `<other>` catch-all node.
pub open spec fn other_node(cs: Seq<NodeV>, cl: Seq<Seq<char>>) -> NodeV {
    NodeV {
        name: "<other>"@,
        size: 0,
        children: unclustered(cs, cl),
        key: None,
        group: Some(GroupV::UnresolvedOther(cl)),
    }
}

/// Children regrouped into one node per named cluster prefix, then an
/// `<other>` node for the rest when there is any.
pub open spec fn clustered_children(cs: Seq<NodeV>, cl: Seq<Seq<char>>) -> Seq<NodeV> {
    let named = named_prefixes(cs, cl);
    let others = unclustered(cs, cl);
    Seq::new(named.len(), |k: int| cluster_node(named[k], cs)) + (if others.len() > 0 {
        seq![other_node(cs, cl)]
    } else {
        Seq::<NodeV>::empty()
    })
}

/// The tree with the children of its first `<unknown>` child clustered.
pub open spec fn cluster_root(root: NodeV, cl: Seq<Seq<char>>) -> NodeV {
    let i = first_named(root.children, "<unknown>"@, 0);
    if i < root.children.len() {
        let u = root.children[i];
        NodeV {
            children: root.children.update(
                i,
                NodeV { children: clustered_children(u.children, cl), ..u },
            ),
            ..root
        }
    } else {
        root
    }
}

/// Index of `s` in `v`, or the length of `v`.
fn index_of_string(v: &Vec<String>, s: &String) -> (r: usize)
    ensures
        r <= v.len(),
        r < v.len() ==> v.deep_view()[r as int] == s@,
        r == v.len() ==> !v.deep_view().contains(s@),
{
    for i in 0..v.len()
        invariant
            forall|j: int| 0 <= j < i ==> v.deep_view()[j] != s@,
    {
        if v[i] == *s {
            return i;
        }
    }
    v.len()
}

/// Regroups the children of `node` by name-cluster prefix.
fn cluster_unknown_children(node: &mut SizeNode, clustered: &Vec<String>)
    ensures
        final(node)@ == (NodeV {
            children: clustered_children(old(node)@.children, clustered.deep_view()),
            ..old(node)@
        }),
{
    proof {
        lemma_children_views(*node);
    }
    let ghost cl = clustered.deep_view();
    let mut kids: Vec<SizeNode> = Vec::new();
    std::mem::swap(&mut kids, &mut node.children);
    let ghost ks = kids@;
    let ghost cs = views(ks);
    let mut named: Vec<String> = Vec::new();
    let mut buckets: Vec<Vec<SizeNode>> = Vec::new();
    let mut others: Vec<SizeNode> = Vec::new();
    for kid in it: kids.into_iter()
        invariant
            it.seq() == ks,
            forall|a: int, b: int| 0 <= a < b < named@.len() ==> named.deep_view()[a] != named.deep_view()[b],
            cs == views(ks),
            cl == clustered.deep_view(),
            named.deep_view() == named_prefixes(cs.take(it.index() as int), cl),
            buckets@.len() == named@.len(),
            forall|k: int|
                0 <= k < buckets@.len() ==> views(#[trigger] buckets@[k]@) == with_prefix(
                    cs.take(it.index() as int),
                    named.deep_view()[k],
                ),
            views(others@) == unclustered(cs.take(it.index() as int), cl),
    {
        let ghost pre = cs.take(it.index() as int);
        let ghost post = cs.take(it.index() + 1);
        assert(post.drop_last() == pre);
        assert(post.last() == kid@);
        proof {
            lemma_children_views(kid);
        }
        let p = extract_prefix(kid.name.as_str());
        if strings_contain(clustered, &p) {
            let j = index_of_string(&named, &p);
            if j < named.len() {
                let ghost old_buckets = buckets@;
                assert(named.deep_view()[j as int] == p@);
                assert(name_prefix(kid@.name) == p@);
                assert(named_prefixes(post, cl) == named_prefixes(pre, cl));
                buckets[j].push(kid);
                assert forall|k: int| 0 <= k < buckets@.len() implies views(
                    #[trigger] buckets@[k]@,
                ) == with_prefix(post, named.deep_view()[k]) by {
                    if k == j {
                        assert(views(buckets@[k]@) =~= views(old_buckets[k]@).push(kid@));
                    } else {
                        assert(buckets@[k] == old_buckets[k]);
                        assert(named.deep_view()[k] != p@);
                    }
                }
            } else {
                let ghost old_buckets = buckets@;
                let ghost old_named = named.deep_view();
                assert(name_prefix(kid@.name) == p@);
                named.push(p);
                let mut b: Vec<SizeNode> = Vec::new();
                b.push(kid);
                buckets.push(b);
                assert(named.deep_view() =~= old_named.push(p@));
                assert forall|k: int| 0 <= k < buckets@.len() implies views(
                    #[trigger] buckets@[k]@,
                ) == with_prefix(post, named.deep_view()[k]) by {
                    if k == j {
                        assert(!old_named.contains(p@));
                        assert(with_prefix(pre, p@) =~= Seq::<NodeV>::empty()) by {
                            lemma_with_prefix_absent(pre, p@, cl);
                        }
                        assert(views(buckets@[k]@) =~= seq![kid@]);
                    } else {
                        assert(buckets@[k] == old_buckets[k]);
                        assert(old_named[k] != p@);
                    }
                }
            }
        } else {
            let ghost old_others = others@;
            assert(name_prefix(kid@.name) == p@);
            others.push(kid);
            assert(views(others@) =~= views(old_others).push(kid@));
            assert forall|k: int| 0 <= k < buckets@.len() implies views(
                #[trigger] buckets@[k]@,
            ) == with_prefix(post, named.deep_view()[k]) by {
                assert(named.deep_view()[k] != p@) by {
                    lemma_named_in_cl(pre, cl, k);
                }
            }
        }
    }
    assert(cs.take(ks.len() as int) == cs);
    // Build the new children: the cluster nodes, then `<other>`.
    let ghost named_v = named.deep_view();
    let ghost bs = buckets@;
    let mut new_children: Vec<SizeNode> = Vec::new();
    let mut k: usize = 0;
    for b in it2: buckets.into_iter()
        invariant
            it2.seq() == bs,
            k == it2.index(),
            k <= bs.len(),
            bs.len() == named@.len(),
            named.deep_view() == named_v,
            named_v == named_prefixes(cs, cl),
            forall|i: int| 0 <= i < bs.len() ==> views(#[trigger] bs[i]@) == with_prefix(cs, named_v[i]),
            views(new_children@) == Seq::new(it2.index() as nat, |i: int| cluster_node(named_v[i], cs)),
    {
        let name = copy_string(&named[k]);
        let label = copy_string(&named[k]);
        let ghost old_new = new_children@;
        let c = SizeNode {
            name,
            size: 0,
            children: b,
            key: None,
            group: Some(Group::UnresolvedCluster(label)),
        };
        proof {
            lemma_children_views(c);
            assert(b == bs[k as int]);
            assert(c@ == cluster_node(named_v[k as int], cs));
        }
        new_children.push(c);
        assert(views(new_children@) =~= views(old_new).push(cluster_node(named_v[k as int], cs)));
        assert(views(new_children@) =~= Seq::new((k + 1) as nat, |i: int| cluster_node(named_v[i], cs)));
        assert(k < named.len());
        k += 1;
    }
    if others.len() > 0 {
        let c = SizeNode {
            name: "<other>".to_owned(),
            size: 0,
            children: others,
            key: None,
            group: Some(Group::UnresolvedOther(copy_strings(clustered))),
        };
        proof {
            lemma_children_views(c);
        }
        let ghost old_new = new_children@;
        new_children.push(c);
        assert(views(new_children@) =~= views(old_new).push(other_node(cs, cl)));
    }
    node.children = new_children;
    proof {
        lemma_children_views(*node);
        assert(views(node.children@) =~= clustered_children(cs, cl));
    }
}

proof fn lemma_with_prefix_absent(cs: Seq<NodeV>, p: Seq<char>, cl: Seq<Seq<char>>)
    requires
        cl.contains(p),
        !named_prefixes(cs, cl).contains(p),
    ensures
        with_prefix(cs, p) == Seq::<NodeV>::empty(),
    decreases cs.len(),
{
    if cs.len() > 0 {
        let ps = named_prefixes(cs.drop_last(), cl);
        let all = named_prefixes(cs, cl);
        if ps.contains(p) {
            let i = choose|i: int| 0 <= i < ps.len() && ps[i] == p;
            assert(all[i] == p);
        }
        if name_prefix(cs.last().name) == p {
            assert(all[all.len() - 1] == p);
        }
        lemma_with_prefix_absent(cs.drop_last(), p, cl);
    }
}

pub(crate) proof fn lemma_named_in_cl(cs: Seq<NodeV>, cl: Seq<Seq<char>>, k: int)
    requires
        0 <= k < named_prefixes(cs, cl).len(),
    ensures
        cl.contains(named_prefixes(cs, cl)[k]),
    decreases cs.len(),
{
    if cs.len() > 0 {
        let ps = named_prefixes(cs.drop_last(), cl);
        if k < ps.len() {
            lemma_named_in_cl(cs.drop_last(), cl, k);
        }
    }
}

} // verus!

verus! {

// ---------------------------------------------------------------------------
// Sizes and ordering

/// Sum of the sizes of a list of nodes.
pub open spec fn sum_sizes(s: Seq<NodeV>) -> nat
    decreases s.len(),
{
    if s.len() == 0 {
        0
    } else {
        sum_sizes(s.drop_last()) + s.last().size
    }
}

/// Total size of the leaves (childless nodes) of a tree.
pub open spec fn leaf_total(n: NodeV) -> nat
    decreases n,
{
    if n.children.len() == 0 {
        n.size
    } else {
        leaf_list_total(n.children)
    }
}

/// Total size of the leaves of a list of trees.
pub open spec fn leaf_list_total(s: Seq<NodeV>) -> nat
    decreases s,
{
    if s.len() == 0 {
        0
    } else {
        leaf_list_total(s.drop_last()) + leaf_total(s.last())
    }
}

/// Display order of siblings: larger first, then by name.
pub open spec fn node_before(a: NodeV, b: NodeV) -> bool {
    a.size > b.size || (a.size == b.size && seq_lt(a.name, b.name))
}

/// Where a stable insertion puts `x` in `s`: before the first element that
/// `x` strictly precedes.
pub open spec fn insert_pos(s: Seq<NodeV>, x: NodeV, i: int) -> int
    decreases s.len() - i,
{
    if i >= s.len() {
        s.len() as int
    } else if node_before(x, s[i]) {
        i
    } else {
        insert_pos(s, x, i + 1)
    }
}

/// `s` in display order, equal elements keeping their relative order.
pub open spec fn sort_nodes(s: Seq<NodeV>) -> Seq<NodeV>
    decreases s.len(),
{
    if s.len() == 0 {
        s
    } else {
        let r = sort_nodes(s.drop_last());
        r.insert(insert_pos(r, s.last(), 0), s.last())
    }
}

/// The tree with every inner node's size set to the sum of its children's
/// and children put in display order.
pub open spec fn sized(n: NodeV) -> NodeV
    decreases n, 1int,
{
    if n.children.len() == 0 {
        n
    } else {
        let cs = sized_children(n);
        NodeV { size: sum_sizes(cs), children: sort_nodes(cs), ..n }
    }
}

/// The children of `n`, each `sized`, in their original order.
pub open spec fn sized_children(n: NodeV) -> Seq<NodeV>
    decreases n, 0int,
{
    Seq::new(
        n.children.len(),
        |i: int|
            if 0 <= i < n.children.len() {
                sized(n.children[i])
            } else {
                empty_node()
            },
    )
}

proof fn lemma_leaf_list_total_take(s: Seq<NodeV>, i: int)
    requires
        0 <= i <= s.len(),
    ensures
        leaf_list_total(s.take(i)) <= leaf_list_total(s),
        i < s.len() ==> leaf_total(s[i]) <= leaf_list_total(s),
    decreases s.len(),
{
    if s.len() > 0 {
        if i < s.len() {
            if i == s.len() - 1 {
                assert(s.take(i) == s.drop_last());
            } else {
                assert(s.drop_last().take(i) == s.take(i));
                lemma_leaf_list_total_take(s.drop_last(), i);
                assert(s.drop_last()[i] == s[i]);
            }
        } else {
            assert(s.take(i) == s);
        }
    }
}

proof fn lemma_sum_sizes_take(s: Seq<NodeV>, i: int)
    requires
        0 <= i <= s.len(),
    ensures
        sum_sizes(s.take(i)) <= sum_sizes(s),
    decreases s.len(),
{
    if i == s.len() {
        assert(s.take(i) == s);
    } else {
        assert(s.drop_last().take(i) == s.take(i));
        lemma_sum_sizes_take(s.drop_last(), i);
    }
}

/// `sized` turns every subtree's size into its leaf total.
pub(crate) proof fn lemma_sized_size(n: NodeV)
    ensures
        sized(n).size == leaf_total(n),
    decreases n, 1int,
{
    if n.children.len() > 0 {
        let cs = sized_children(n);
        lemma_sized_list(n, n.children.len() as int);
        assert(cs.take(n.children.len() as int) == cs);
        assert(n.children.take(n.children.len() as int) == n.children);
    }
}

proof fn lemma_sized_list(n: NodeV, k: int)
    requires
        0 <= k <= n.children.len(),
    ensures
        sum_sizes(sized_children(n).take(k)) == leaf_list_total(n.children.take(k)),
    decreases n, 0int, k,
{
    let cs = sized_children(n);
    if k > 0 {
        lemma_sized_list(n, k - 1);
        assert(cs.take(k).drop_last() == cs.take(k - 1));
        assert(n.children.take(k).drop_last() == n.children.take(k - 1));
        lemma_sized_size(n.children[k - 1]);
    }
}

/// Whether `a` goes before `b` in display order.
fn before(a: &SizeNode, b: &SizeNode) -> (r: bool)
    ensures
        r == node_before(a@, b@),
{
    proof {
        lemma_children_views(*a);
        lemma_children_views(*b);
    }
    if a.size > b.size {
        return true;
    }
    if a.size < b.size {
        return false;
    }
    let an = chars_of(a.name.as_str());
    let bn = chars_of(b.name.as_str());
    chars_lt(&an, &bn)
}

/// Sorts nodes into display order (stable).
fn sort_children(v: Vec<SizeNode>) -> (r: Vec<SizeNode>)
    ensures
        views(r@) == sort_nodes(views(v@)),
{
    let ghost vs = views(v@);
    let mut r: Vec<SizeNode> = Vec::new();
    for x in it: v.into_iter()
        invariant
            views(it.seq()) == vs,
            views(r@) == sort_nodes(vs.take(it.index() as int)),
    {
        let ghost pre = vs.take(it.index() as int);
        let ghost post = vs.take(it.index() + 1);
        assert(post.drop_last() == pre);
        assert(post.last() == x@) by {
            assert(vs[it.index() as int] == it.seq()[it.index() as int]@);
        }
        let ghost rs = views(r@);
        let mut j: usize = 0;
        let mut found = false;
        while j < r.len() && !found
            invariant
                j <= r.len(),
                rs == views(r@),
                found ==> j < r.len() && insert_pos(rs, x@, j as int) == j,
                insert_pos(rs, x@, 0) == insert_pos(rs, x@, j as int),
            decreases r.len() - j, if found { 0int } else { 1int },
        {
            if before(&x, &r[j]) {
                found = true;
            } else {
                j += 1;
            }
        }
        assert(j == insert_pos(rs, x@, 0));
        r.insert(j, x);
        assert(views(r@) =~= rs.insert(j as int, x@));
    }
    assert(vs.take(vs.len() as int) == vs);
    r
}

/// Sets sizes bottom-up and orders children.
fn compute_sizes(node: &mut SizeNode)
    requires
        leaf_total(old(node)@) <= u64::MAX,
    ensures
        final(node)@ == sized(old(node)@),
    decreases *old(node),
{
    proof {
        lemma_children_views(*old(node));
    }
    let ghost orig = old(node)@;
    if node.children.len() == 0 {
        return;
    }
    let n = node.children.len();
    let ghost cs = sized_children(orig);
    let ghost olds = old(node).children@;
    for i in 0..n
        invariant
            n == node.children@.len() == olds.len() == orig.children.len(),
            orig == old(node)@,
            olds == old(node).children@,
            orig.children == views(olds),
            leaf_total(orig) <= u64::MAX,
            cs == sized_children(orig),
            node.name == old(node).name,
            node.key == old(node).key,
            node.group == old(node).group,
            cs.len() == n,
            forall|j: int| 0 <= j < i ==> #[trigger] node.children@[j]@ == cs[j],
            forall|j: int| i <= j < n ==> #[trigger] node.children@[j] == olds[j],
    {
        proof {
            lemma_leaf_list_total_take(orig.children, i as int);
            assert(orig.children[i as int] == olds[i as int]@);
        }
        let ghost before_call = node.children@;
        compute_sizes(&mut node.children[i]);
        proof {
            assert forall|j: int| 0 <= j < n && j != i implies #[trigger] node.children@[j] == before_call[j] by {}
            assert(before_call[i as int] == olds[i as int]);
            assert(node.children@[i as int]@ == sized(before_call[i as int]@));
            assert(cs[i as int] == sized(orig.children[i as int]));
            assert(node.children@[i as int]@ == cs[i as int]);
        }
    }
    assert(views(node.children@) =~= cs);
    proof {
        lemma_sized_size(orig);
    }
    let mut total: u64 = 0;
    for i in 0..n
        invariant
            n == node.children@.len(),
            views(node.children@) == cs,
            cs == sized_children(orig),
            orig == old(node)@,
            node.name == old(node).name,
            node.key == old(node).key,
            node.group == old(node).group,
            cs.len() == n,
            sum_sizes(cs) <= u64::MAX,
            total == sum_sizes(cs.take(i as int)),
    {
        proof {
            assert(cs.take(i + 1).drop_last() == cs.take(i as int));
            lemma_sum_sizes_take(cs, i + 1);
            lemma_children_views(node.children@[i as int]);
        }
        total = total + node.children[i].size;
    }
    proof {
        assert(cs.take(n as int) == cs);
        lemma_sized_size(orig);
    }
    node.size = total;
    let mut kids: Vec<SizeNode> = Vec::new();
    std::mem::swap(&mut kids, &mut node.children);
    node.children = sort_children(kids);
    proof {
        lemma_children_views(*node);
        assert(orig.children.len() > 0);
        assert(sized(orig) == NodeV { size: sum_sizes(cs), children: sort_nodes(cs), ..orig });
    }
}

} // verus!

verus! {

// ---------------------------------------------------------------------------
// Collapsing single-child directory chains

/// `a/b`, or `b` when `a` is empty.
pub open spec fn join_name(a: Seq<char>, b: Seq<char>) -> Seq<char> {
    if a.len() == 0 {
        b
    } else {
        a + seq!['/'] + b
    }
}

/// A node built from these parts, with every chain of exactly one child that
/// is itself a directory merged into it: the names are joined by `/`, the
/// grandchildren become the children and the deepest group is kept.
pub open spec fn absorbed(
    name: Seq<char>,
    size: nat,
    key: Option<KeyV>,
    group: Option<GroupV>,
    children: Seq<NodeV>,
) -> NodeV
    decreases children,
{
    if children.len() == 1 && children[0].children.len() > 0 {
        absorbed(join_name(name, children[0].name), size, key, children[0].group, children[0].children)
    } else {
        NodeV { name, size, children, key, group }
    }
}

/// `n` with single-child directory chains collapsed, innermost first.
pub open spec fn collapsed(n: NodeV) -> NodeV
    decreases n, 1int,
{
    absorbed(n.name, n.size, n.key, n.group, collapsed_children(n))
}

/// The children of `n`, each collapsed.
pub open spec fn collapsed_children(n: NodeV) -> Seq<NodeV>
    decreases n, 0int,
{
    Seq::new(
        n.children.len(),
        |i: int|
            if 0 <= i < n.children.len() {
                collapsed(n.children[i])
            } else {
                empty_node()
            },
    )
}

/// Collapses single-child directory chains below and at `node`.
fn collapse_single_children(node: &mut SizeNode)
    ensures
        final(node)@ == collapsed(old(node)@),
    decreases *old(node),
{
    proof {
        lemma_children_views(*old(node));
    }
    let ghost orig = old(node)@;
    let ghost cs = collapsed_children(orig);
    let ghost olds = old(node).children@;
    let n = node.children.len();
    for i in 0..n
        invariant
            n == node.children@.len() == olds.len() == orig.children.len(),
            orig == old(node)@,
            olds == old(node).children@,
            orig.children == views(olds),
            cs == collapsed_children(orig),
            node.name == old(node).name,
            node.size == old(node).size,
            node.key == old(node).key,
            node.group == old(node).group,
            forall|j: int| 0 <= j < i ==> #[trigger] node.children@[j]@ == cs[j],
            forall|j: int| i <= j < n ==> #[trigger] node.children@[j] == olds[j],
    {
        proof {
            assert(orig.children[i as int] == olds[i as int]@);
        }
        let ghost before_call = node.children@;
        collapse_single_children(&mut node.children[i]);
        proof {
            assert forall|j: int| 0 <= j < n && j != i implies #[trigger] node.children@[j]
                == before_call[j] by {}
            assert(before_call[i as int] == olds[i as int]);
            assert(node.children@[i as int]@ == cs[i as int]);
        }
    }
    assert(views(node.children@) =~= cs);
    let ghost target = collapsed(orig);
    while node.children.len() == 1 && node.children[0].children.len() > 0
        invariant
            target == absorbed(
                node.name@,
                node.size as nat,
                opt_key_view(node.key),
                opt_group_view(node.group),
                views(node.children@),
            ),
        decreases node.children@,
    {
        proof {
            lemma_children_views(node.children@[0]);
        }
        let ghost old_name = node.name@;
        let ghost old_kids = views(node.children@);
        let only = node.children.remove(0);
        let ghost oc = only;
        proof {
            lemma_children_views(oc);
            assert(old_kids[0] == oc@);
        }
        if node.name.as_str().is_empty() {
            node.name = only.name;
        } else {
            let mut joined = copy_string(&node.name);
            push_char(&mut joined, '/');
            joined.append(only.name.as_str());
            node.name = joined;
        }
        node.children = only.children;
        node.group = only.group;
        proof {
            assert(node.name@ == join_name(old_name, oc@.name));
            assert(views(node.children@) == oc@.children);
        }
    }
    proof {
        lemma_children_views(*node);
    }
}

} // verus!

verus! {

// ---------------------------------------------------------------------------
// Leaf totals through filing and clustering (bounds the sums taken by
// `compute_sizes`)

pub(crate) proof fn lemma_llt_push(s: Seq<NodeV>, x: NodeV)
    ensures
        leaf_list_total(s.push(x)) == leaf_list_total(s) + leaf_total(x),
{
    assert(s.push(x).drop_last() == s);
}

pub(crate) proof fn lemma_llt_update(s: Seq<NodeV>, i: int, x: NodeV)
    requires
        0 <= i < s.len(),
    ensures
        leaf_list_total(s.update(i, x)) + leaf_total(s[i]) == leaf_list_total(s) + leaf_total(x),
    decreases s.len(),
{
    if i == s.len() - 1 {
        assert(s.update(i, x).drop_last() == s.drop_last());
    } else {
        assert(s.update(i, x).drop_last() == s.drop_last().update(i, x));
        lemma_llt_update(s.drop_last(), i, x);
    }
}

proof fn lemma_llt_concat(a: Seq<NodeV>, b: Seq<NodeV>)
    ensures
        leaf_list_total(a + b) == leaf_list_total(a) + leaf_list_total(b),
    decreases b.len(),
{
    if b.len() == 0 {
        assert(a + b == a);
    } else {
        assert((a + b).drop_last() == a + b.drop_last());
        lemma_llt_concat(a, b.drop_last());
    }
}

/// Filing a leaf adds at most its size to the leaf total.
proof fn lemma_insert_path_total(
    node: NodeV,
    dirs: Seq<Seq<char>>,
    d: int,
    leaf: NodeV,
    resolved: bool,
)
    requires
        leaf.children.len() == 0,
    ensures
        leaf_total(insert_path(node, dirs, d, leaf, resolved)) <= leaf_total(node) + leaf.size,
    decreases dirs.len() - d,
{
    let r = insert_path(node, dirs, d, leaf, resolved);
    if d >= dirs.len() || d < 0 {
        lemma_llt_push(node.children, leaf);
        if node.children.len() == 0 {
            assert(node.children.push(leaf).drop_last() == node.children);
        }
    } else {
        let i = first_named(node.children, dirs[d], 0);
        lemma_first_named_range(node.children, dirs[d], 0);
        if i < node.children.len() {
            let c = insert_path(node.children[i], dirs, d + 1, leaf, resolved);
            lemma_insert_path_total(node.children[i], dirs, d + 1, leaf, resolved);
            lemma_llt_update(node.children, i, c);
        } else {
            let g = if resolved {
                GroupV::Dir(dirs.take(d + 1))
            } else {
                GroupV::Unresolved
            };
            let c = insert_path(dir_node(dirs[d], g), dirs, d + 1, leaf, resolved);
            lemma_insert_path_total(dir_node(dirs[d], g), dirs, d + 1, leaf, resolved);
            lemma_llt_push(node.children, c);
        }
    }
}

pub(crate) proof fn lemma_first_named_range(cs: Seq<NodeV>, name: Seq<char>, i: int)
    requires
        0 <= i,
    ensures
        first_named(cs, name, i) <= cs.len(),
        first_named(cs, name, i) >= i || first_named(cs, name, i) == cs.len(),
    decreases cs.len() - i,
{
    if i < cs.len() && cs[i].name != name {
        lemma_first_named_range(cs, name, i + 1);
    }
}

/// Sum of the symbol sizes.
pub open spec fn total_size(syms: Seq<SymV>) -> nat
    decreases syms.len(),
{
    if syms.len() == 0 {
        0
    } else {
        total_size(syms.drop_last()) + syms.last().size as nat
    }
}

proof fn lemma_insert_all_total(syms: Seq<SymV>, keys: Seq<KeyV>, n: nat)
    requires
        n <= syms.len(),
    ensures
        leaf_total(insert_all(syms, keys, n)) <= total_size(syms.take(n as int)),
    decreases n,
{
    if n > 0 {
        let s = syms[n - 1];
        lemma_insert_all_total(syms, keys, (n - 1) as nat);
        lemma_insert_path_total(
            insert_all(syms, keys, (n - 1) as nat),
            sym_dirs(s),
            0,
            leaf_node(s, keys[n - 1]),
            s.source is Some,
        );
        assert(syms.take(n as int).drop_last() == syms.take(n - 1));
    }
}

/// Sum of the leaf totals of the buckets for prefixes `ps`.
pub open spec fn bucket_sum(cs: Seq<NodeV>, ps: Seq<Seq<char>>) -> nat
    decreases ps.len(),
{
    if ps.len() == 0 {
        0
    } else {
        bucket_sum(cs, ps.drop_last()) + leaf_list_total(with_prefix(cs, ps.last()))
    }
}

proof fn lemma_bucket_sum_push_node(cs: Seq<NodeV>, x: NodeV, ps: Seq<Seq<char>>)
    requires
        forall|a: int, b: int| 0 <= a < b < ps.len() ==> ps[a] != ps[b],
    ensures
        bucket_sum(cs.push(x), ps) == bucket_sum(cs, ps) + (if ps.contains(name_prefix(x.name)) {
            leaf_total(x)
        } else {
            0
        }),
    decreases ps.len(),
{
    assert(cs.push(x).drop_last() == cs);
    if ps.len() > 0 {
        let q = ps.last();
        lemma_bucket_sum_push_node(cs, x, ps.drop_last());
        lemma_llt_push(with_prefix(cs, q), x);
        let p = name_prefix(x.name);
        if ps.drop_last().contains(p) {
            let a = choose|a: int| 0 <= a < ps.drop_last().len() && ps.drop_last()[a] == p;
            assert(ps[a] == p);
            assert(q != p);
            assert(ps.contains(p));
        } else if q == p {
            assert(ps[ps.len() - 1] == p);
        } else {
            if ps.contains(p) {
                let a = choose|a: int| 0 <= a < ps.len() && ps[a] == p;
                assert(a != ps.len() - 1);
                assert(ps.drop_last()[a] == p);
            }
        }
    }
}

proof fn lemma_bucket_sum_push_prefix(cs: Seq<NodeV>, ps: Seq<Seq<char>>, p: Seq<char>)
    ensures
        bucket_sum(cs, ps.push(p)) == bucket_sum(cs, ps) + leaf_list_total(with_prefix(cs, p)),
{
    assert(ps.push(p).drop_last() == ps);
}

proof fn lemma_named_distinct(cs: Seq<NodeV>, cl: Seq<Seq<char>>)
    ensures
        forall|a: int, b: int|
            0 <= a < b < named_prefixes(cs, cl).len() ==> named_prefixes(cs, cl)[a]
                != named_prefixes(cs, cl)[b],
    decreases cs.len(),
{
    if cs.len() > 0 {
        lemma_named_distinct(cs.drop_last(), cl);
        let ps = named_prefixes(cs.drop_last(), cl);
        let p = name_prefix(cs.last().name);
        if cl.contains(p) && !ps.contains(p) {
            let all = ps.push(p);
            assert forall|a: int, b: int| 0 <= a < b < all.len() implies all[a] != all[b] by {
                if b == all.len() - 1 {
                    assert(ps[a] != p);
                }
            }
        }
    }
}

/// Regrouping children into clusters and `<other>` keeps their leaf total.
proof fn lemma_partition(cs: Seq<NodeV>, cl: Seq<Seq<char>>)
    ensures
        bucket_sum(cs, named_prefixes(cs, cl)) + leaf_list_total(unclustered(cs, cl))
            == leaf_list_total(cs),
    decreases cs.len(),
{
    if cs.len() > 0 {
        let pre = cs.drop_last();
        let x = cs.last();
        assert(pre.push(x) == cs);
        lemma_partition(pre, cl);
        let ps = named_prefixes(pre, cl);
        let p = name_prefix(x.name);
        lemma_named_distinct(pre, cl);
        lemma_named_distinct(cs, cl);
        lemma_llt_push(pre, x);
        if cl.contains(p) {
            if ps.contains(p) {
                lemma_bucket_sum_push_node(pre, x, ps);
            } else {
                lemma_bucket_sum_push_node(pre, x, ps);
                lemma_bucket_sum_push_prefix(cs, ps, p);
                lemma_with_prefix_absent(pre, p, cl);
                assert(with_prefix(cs, p) == seq![x]);
                assert(seq![x] == Seq::<NodeV>::empty().push(x));
                lemma_llt_push(Seq::<NodeV>::empty(), x);
            }
        } else {
            lemma_bucket_sum_push_node(pre, x, ps);
            if ps.contains(p) {
                let a = choose|a: int| 0 <= a < ps.len() && ps[a] == p;
                lemma_named_in_cl(pre, cl, a);
            }
            lemma_llt_push(unclustered(pre, cl), x);
        }
    }
}

proof fn lemma_cluster_list_total(cs: Seq<NodeV>, ps: Seq<Seq<char>>)
    ensures
        leaf_list_total(Seq::new(ps.len(), |k: int| cluster_node(ps[k], cs))) == bucket_sum(cs, ps),
    decreases ps.len(),
{
    let s = Seq::new(ps.len(), |k: int| cluster_node(ps[k], cs));
    if ps.len() > 0 {
        lemma_cluster_list_total(cs, ps.drop_last());
        assert(s.drop_last() == Seq::new(ps.drop_last().len(), |k: int| cluster_node(ps.drop_last()[k], cs)));
        let c = cluster_node(ps.last(), cs);
        assert(s.last() == c);
        if c.children.len() == 0 {
            assert(leaf_list_total(c.children) == 0);
        }
        assert(leaf_total(c) == leaf_list_total(with_prefix(cs, ps.last())));
    }
}

pub(crate) proof fn lemma_cluster_root_total(t: NodeV, cl: Seq<Seq<char>>)
    ensures
        leaf_total(cluster_root(t, cl)) == leaf_total(t),
{
    let i = first_named(t.children, "<unknown>"@, 0);
    lemma_first_named_range(t.children, "<unknown>"@, 0);
    if i < t.children.len() {
        let u = t.children[i];
        let cs = u.children;
        let u2 = NodeV { children: clustered_children(cs, cl), ..u };
        let named = named_prefixes(cs, cl);
        let others = unclustered(cs, cl);
        let front = Seq::new(named.len(), |k: int| cluster_node(named[k], cs));
        lemma_partition(cs, cl);
        lemma_cluster_list_total(cs, named);
        if others.len() > 0 {
            lemma_llt_concat(front, seq![other_node(cs, cl)]);
            assert(seq![other_node(cs, cl)] == Seq::<NodeV>::empty().push(other_node(cs, cl)));
            lemma_llt_push(Seq::<NodeV>::empty(), other_node(cs, cl));
        } else {
            assert(front + Seq::<NodeV>::empty() == front);
            assert(leaf_list_total(others) == 0);
        }
        if cs.len() == 0 {
            assert(named.len() == 0);
            assert(clustered_children(cs, cl).len() == 0);
        } else {
            assert(leaf_total(u2) == leaf_total(u)) by {
                if clustered_children(cs, cl).len() == 0 {
                    assert(leaf_list_total(cs) == 0);
                }
            }
        }
        lemma_llt_update(t.children, i, u2);
    }
}

} // verus!

verus! {

// ---------------------------------------------------------------------------
// Building the tree

/// Views of a list of symbols.
pub open spec fn sym_views(s: Seq<ResolvedSymbol>) -> Seq<SymV> {
    Seq::new(s.len(), |i: int| s[i]@)
}

/// Views of a list of keys.
pub open spec fn key_views(s: Seq<SymbolKey>) -> Seq<KeyV> {
    Seq::new(s.len(), |i: int| s[i]@)
}

/// The size tree of `syms` with leaf identities `keys` and named clusters
/// `cl`: every symbol filed under its source path's directories (or
/// `<unknown>`), the `<unknown>` node's symbols grouped into clusters by name
/// prefix, sizes summed bottom-up with children in display order, and
/// single-child directory chains below the root collapsed.
pub open spec fn built_tree(syms: Seq<SymV>, keys: Seq<KeyV>, cl: Seq<Seq<char>>) -> NodeV {
    let t = sized(cluster_root(insert_all(syms, keys, syms.len()), cl));
    NodeV {
        children: Seq::new(t.children.len(), |i: int| collapsed(t.children[i])),
        ..t
    }
}

/// Like [`build_tree_with_keys`], with the set of unresolved-symbol prefixes
/// that get a named cluster given explicitly. Comparison mode decides that set
/// once for both trees so `<other>` means the same thing in each.
pub fn build_tree_clustered(
    symbols: &[ResolvedSymbol],
    keys: &[SymbolKey],
    clustered: &Vec<String>,
) -> (tree: SizeNode)
    requires
        symbols.len() == keys.len(),
        total_size(sym_views(symbols@)) <= u64::MAX,
    ensures
        tree@ == built_tree(sym_views(symbols@), key_views(keys@), clustered.deep_view()),
{
    let ghost sv = sym_views(symbols@);
    let ghost kv = key_views(keys@);
    let mut root = SizeNode {
        name: String::new(),
        size: 0,
        children: Vec::new(),
        key: None,
        group: Some(Group::All),
    };
    proof {
        lemma_children_views(root);
        assert(root@.children =~= Seq::<NodeV>::empty());
    }
    for i in 0..symbols.len()
        invariant
            symbols.len() == keys.len(),
            sv == sym_views(symbols@),
            kv == key_views(keys@),
            root@ == insert_all(sv, kv, i as nat),
    {
        let sym = &symbols[i];
        let dirs = match &sym.source_path {
            Some(p) => components_of(p.as_str()),
            None => {
                let mut v: Vec<String> = Vec::new();
                v.push("<unknown>".to_owned());
                proof {
                    assert(v.deep_view() =~= seq!["<unknown>"@]);
                }
                v
            },
        };
        let leaf = SizeNode {
            name: copy_string(&sym.name),
            size: sym.size,
            children: Vec::new(),
            key: Some(keys[i].duplicate()),
            group: None,
        };
        proof {
            lemma_children_views(leaf);
            assert(leaf@.children =~= Seq::<NodeV>::empty());
            assert(sv[i as int] == sym@);
            assert(leaf@ == leaf_node(sv[i as int], kv[i as int]));
            assert(dirs.deep_view() == sym_dirs(sv[i as int]));
        }
        insert_leaf(&mut root, &dirs, 0, leaf, sym.source_path.is_some());
    }
    let ghost inserted = root@;
    proof {
        lemma_insert_all_total(sv, kv, sv.len());
        assert(sv.take(sv.len() as int) == sv);
        lemma_cluster_root_total(inserted, clustered.deep_view());
        lemma_children_views(root);
    }
    let unknown = "<unknown>".to_owned();
    let idx = find_child(&root.children, &unknown);
    if idx < root.children.len() {
        let ghost before = root.children@;
        cluster_unknown_children(&mut root.children[idx], clustered);
        proof {
            lemma_children_views(root);
            assert(views(root.children@) =~= views(before).update(
                idx as int,
                NodeV {
                    children: clustered_children(views(before)[idx as int].children, clustered.deep_view()),
                    ..views(before)[idx as int]
                },
            ));
        }
    }
    assert(root@ == cluster_root(inserted, clustered.deep_view()));
    compute_sizes(&mut root);
    let ghost t = root@;
    proof {
        lemma_children_views(root);
    }
    let n = root.children.len();
    for i in 0..n
        invariant
            n == root.children@.len() == t.children.len(),
            t == sized(cluster_root(inserted, clustered.deep_view())),
            root.name@ == t.name,
            root.size == t.size,
            opt_key_view(root.key) == t.key,
            opt_group_view(root.group) == t.group,
            forall|j: int| 0 <= j < i ==> #[trigger] root.children@[j]@ == collapsed(t.children[j]),
            forall|j: int| i <= j < n ==> #[trigger] root.children@[j]@ == t.children[j],
    {
        let ghost before = root.children@;
        collapse_single_children(&mut root.children[i]);
        proof {
            assert forall|j: int| 0 <= j < n && j != i implies #[trigger] root.children@[j]
                == before[j] by {}
        }
    }
    proof {
        lemma_children_views(root);
        assert(views(root.children@) =~= Seq::new(t.children.len(), |i: int| collapsed(t.children[i])));
    }
    root
}

/// Like [`build_tree`], but each leaf carries the caller-supplied identity in
/// `keys` (parallel to `symbols`).
pub fn build_tree_with_keys(symbols: &[ResolvedSymbol], keys: &[SymbolKey]) -> (tree: SizeNode)
    requires
        symbols.len() == keys.len(),
        total_size(sym_views(symbols@)) <= u64::MAX,
    ensures
        exists|cl: Seq<Seq<char>>|
            (forall|p: Seq<char>| #[trigger] cl.contains(p) <==> prefix_count(sym_views(symbols@), p) >= 2)
                && tree@ == built_tree(sym_views(symbols@), key_views(keys@), cl),
{
    let clustered = unresolved_cluster_prefixes(symbols);
    build_tree_clustered(symbols, keys, &clustered)
}

/// Build a size tree from resolved symbols, each leaf keyed by `(source, name)`.
/// Paths are split on '/' to create the directory hierarchy; symbols without
/// a source path go under "<unknown>".
pub fn build_tree(symbols: &[ResolvedSymbol]) -> (tree: SizeNode)
    requires
        total_size(sym_views(symbols@)) <= u64::MAX,
    ensures
        exists|cl: Seq<Seq<char>>|
            (forall|p: Seq<char>| #[trigger] cl.contains(p) <==> prefix_count(sym_views(symbols@), p) >= 2)
                && tree@ == built_tree(sym_views(symbols@), default_keys(sym_views(symbols@)), cl),
{
    let mut keys: Vec<SymbolKey> = Vec::new();
    for i in 0..symbols.len()
        invariant
            key_views(keys@) == default_keys(sym_views(symbols@)).take(i as int),
    {
        let k = symbol_key(&symbols[i]);
        let ghost before = keys@;
        keys.push(k);
        proof {
            assert(sym_views(symbols@)[i as int] == symbols@[i as int]@);
            assert(key_views(keys@) =~= key_views(before).push(k@));
            assert(key_views(keys@) =~= default_keys(sym_views(symbols@)).take(i + 1));
        }
    }
    proof {
        assert(default_keys(sym_views(symbols@)).take(symbols.len() as int) =~= default_keys(
            sym_views(symbols@),
        ));
    }
    build_tree_with_keys(symbols, keys.as_slice())
}

/// The `(source, name)` identities of symbols.
pub open spec fn default_keys(syms: Seq<SymV>) -> Seq<KeyV> {
    Seq::new(syms.len(), |i: int| KeyV { source: syms[i].source, name: syms[i].name, tu: None })
}

/// Number of unresolved symbols whose name has prefix `p`.
pub open spec fn prefix_count(syms: Seq<SymV>, p: Seq<char>) -> nat
    decreases syms.len(),
{
    if syms.len() == 0 {
        0
    } else {
        prefix_count(syms.drop_last(), p) + if syms.last().source is None && name_prefix(
            syms.last().name,
        ) == p {
            1nat
        } else {
            0nat
        }
    }
}

/// The prefixes of `ps` that at least two unresolved symbols of `syms` have,
/// in order.
pub open spec fn frequent(ps: Seq<Seq<char>>, syms: Seq<SymV>) -> Seq<Seq<char>>
    decreases ps.len(),
{
    if ps.len() == 0 {
        Seq::empty()
    } else {
        let r = frequent(ps.drop_last(), syms);
        if prefix_count(syms, ps.last()) >= 2 {
            r.push(ps.last())
        } else {
            r
        }
    }
}

proof fn lemma_frequent(ps: Seq<Seq<char>>, syms: Seq<SymV>)
    requires
        forall|a: int, b: int| 0 <= a < b < ps.len() ==> ps[a] != ps[b],
    ensures
        forall|p: Seq<char>| #[trigger]
            frequent(ps, syms).contains(p) <==> ps.contains(p) && prefix_count(syms, p) >= 2,
        forall|a: int, b: int|
            0 <= a < b < frequent(ps, syms).len() ==> frequent(ps, syms)[a] != frequent(ps, syms)[b],
    decreases ps.len(),
{
    if ps.len() > 0 {
        let pre = ps.drop_last();
        lemma_frequent(pre, syms);
        let r = frequent(pre, syms);
        let x = ps.last();
        assert forall|p: Seq<char>| #[trigger]
            frequent(ps, syms).contains(p) <==> ps.contains(p) && prefix_count(syms, p) >= 2 by {
            if ps.contains(p) && prefix_count(syms, p) >= 2 {
                let a = choose|a: int| 0 <= a < ps.len() && ps[a] == p;
                if a < ps.len() - 1 {
                    assert(pre[a] == p);
                    assert(pre.contains(p));
                    assert(r.contains(p));
                    let b = choose|b: int| 0 <= b < r.len() && r[b] == p;
                    assert(frequent(ps, syms)[b] == p);
                } else {
                    assert(frequent(ps, syms)[frequent(ps, syms).len() - 1] == p);
                }
            }
            if frequent(ps, syms).contains(p) && p != x {
                let b = choose|b: int| 0 <= b < frequent(ps, syms).len() && frequent(ps, syms)[b] == p;
                assert(r[b] == p);
                assert(r.contains(p));
                assert(pre.contains(p));
                let a = choose|a: int| 0 <= a < pre.len() && pre[a] == p;
                assert(ps[a] == p);
            }
        }
        if prefix_count(syms, x) >= 2 {
            assert(!r.contains(x)) by {
                if pre.contains(x) {
                    let a = choose|a: int| 0 <= a < pre.len() && pre[a] == x;
                    assert(ps[a] == ps[ps.len() - 1]);
                }
            }
            let f = r.push(x);
            assert forall|a: int, b: int| 0 <= a < b < f.len() implies f[a] != f[b] by {
                if b == f.len() - 1 {
                    assert(r.contains(f[a]));
                }
            }
        }
    }
}

/// Name-cluster prefixes that have at least two unresolved symbols in
/// `symbols`, each once — the prefixes `build_tree` gives a cluster node of
/// their own (everything else goes to `<other>`).
pub fn unresolved_cluster_prefixes(symbols: &[ResolvedSymbol]) -> (r: Vec<String>)
    ensures
        forall|p: Seq<char>| #[trigger]
            r.deep_view().contains(p) <==> prefix_count(sym_views(symbols@), p) >= 2,
        forall|a: int, b: int| 0 <= a < b < r.len() ==> r.deep_view()[a] != r.deep_view()[b],
{
    let ghost sv = sym_views(symbols@);
    let mut seen: Vec<String> = Vec::new();
    let mut counts: Vec<usize> = Vec::new();
    let mut i: usize = 0;
    while i < symbols.len()
        invariant
            i <= symbols.len(),
            sv == sym_views(symbols@),
            seen@.len() == counts@.len(),
            forall|a: int, b: int| 0 <= a < b < seen@.len() ==> seen.deep_view()[a] != seen.deep_view()[b],
            forall|j: int| 0 <= j < seen@.len() ==> #[trigger] counts@[j] == prefix_count(sv.take(i as int), seen.deep_view()[j]),
            forall|j: int| 0 <= j < seen@.len() ==> #[trigger] counts@[j] <= i,
            forall|p: Seq<char>| #[trigger] prefix_count(sv.take(i as int), p) > 0 ==> seen.deep_view().contains(p),
        decreases symbols.len() - i,
    {
        let ghost pre = sv.take(i as int);
        let ghost post = sv.take(i + 1);
        assert(post.drop_last() == pre);
        assert(post.last() == symbols@[i as int]@);
        if symbols[i].source_path.is_none() {
            let p = extract_prefix(symbols[i].name.as_str());
            let j = index_of_string(&seen, &p);
            if j < seen.len() {
                let c = counts[j];
                counts.set(j, c + 1);
                assert forall|k: int| 0 <= k < seen@.len() implies #[trigger] counts@[k] == prefix_count(post, seen.deep_view()[k]) by {
                    if k != j {
                        assert(seen.deep_view()[k] != p@);
                    }
                }
                assert forall|q: Seq<char>| #[trigger] prefix_count(post, q) > 0 implies seen.deep_view().contains(q) by {
                    if q == p@ {
                        assert(seen.deep_view()[j as int] == q);
                        assert(seen.deep_view().contains(q));
                    } else {
                        assert(prefix_count(pre, q) > 0);
                        assert(prefix_count(sv.take(i as int), q) > 0);
                        assert(seen.deep_view().contains(q));
                    }
                }
            } else {
                assert(prefix_count(pre, p@) == 0);
                let ghost old_seen = seen.deep_view();
                seen.push(p);
                counts.push(1);
                assert(seen.deep_view() =~= old_seen.push(p@));
                assert forall|k: int| 0 <= k < seen@.len() implies #[trigger] counts@[k] == prefix_count(post, seen.deep_view()[k]) by {
                    if k != j {
                        assert(old_seen[k] != p@);
                    }
                }
                assert forall|q: Seq<char>| #[trigger] prefix_count(post, q) > 0 implies seen.deep_view().contains(q) by {
                    if q == p@ {
                        assert(seen.deep_view()[j as int] == q);
                    } else {
                        assert(prefix_count(pre, q) > 0);
                        assert(prefix_count(sv.take(i as int), q) > 0);
                        assert(old_seen.contains(q));
                        let w = choose|w: int| 0 <= w < old_seen.len() && old_seen[w] == q;
                        assert(seen.deep_view()[w] == q);
                    }
                }
            }
        } else {
            assert forall|k: int| 0 <= k < seen@.len() implies #[trigger] counts@[k] == prefix_count(post, seen.deep_view()[k]) by {}
            assert forall|q: Seq<char>| #[trigger] prefix_count(post, q) > 0 implies seen.deep_view().contains(q) by {
                assert(prefix_count(pre, q) > 0);
                assert(prefix_count(sv.take(i as int), q) > 0);
            }
        }
        i += 1;
    }
    assert(sv.take(symbols.len() as int) == sv);
    let ghost ps = seen.deep_view();
    let mut r: Vec<String> = Vec::new();
    for j in 0..seen.len()
        invariant
            seen@.len() == counts@.len(),
            ps == seen.deep_view(),
            forall|k: int| 0 <= k < seen@.len() ==> #[trigger] counts@[k] == prefix_count(sv, ps[k]),
            r.deep_view() == frequent(ps.take(j as int), sv),
    {
        assert(ps.take(j + 1).drop_last() == ps.take(j as int));
        if counts[j] >= 2 {
            let ghost old_r = r.deep_view();
            r.push(copy_string(&seen[j]));
            assert(r.deep_view() =~= old_r.push(ps[j as int]));
        }
    }
    proof {
        assert(ps.take(ps.len() as int) == ps);
        lemma_frequent(ps, sv);
        assert forall|p: Seq<char>| #[trigger] r.deep_view().contains(p) <==> prefix_count(sv, p) >= 2 by {
            if prefix_count(sv, p) >= 2 {
                assert(prefix_count(sv.take(symbols.len() as int), p) > 0);
                assert(seen.deep_view().contains(p));
                assert(ps.contains(p));
            }
            assert(frequent(ps.take(ps.len() as int), sv) == frequent(ps, sv));
        }
    }
    r
}

} // verus!

verus! {

// ---------------------------------------------------------------------------
// Flattening

/// `(path, size)` for every named leaf below `n`, depth first, where a path
/// is `prefix` joined by `/` with the names along the way (nameless nodes add
/// nothing).
pub open spec fn leaf_entries(n: NodeV, prefix: Seq<char>) -> Seq<(Seq<char>, u64)>
    decreases n, 1int, 0int,
{
    if n.children.len() == 0 {
        if n.name.len() > 0 {
            seq![(join_name(prefix, n.name), n.size as u64)]
        } else {
            Seq::empty()
        }
    } else {
        let p = if n.name.len() > 0 {
            join_name(prefix, n.name)
        } else {
            prefix
        };
        child_entries(n, p, n.children.len() as int)
    }
}

/// `leaf_entries` of the first `k` children of `n`, in order.
pub open spec fn child_entries(n: NodeV, prefix: Seq<char>, k: int) -> Seq<(Seq<char>, u64)>
    decreases n, 0int, k,
{
    if k <= 0 || k > n.children.len() {
        Seq::empty()
    } else {
        child_entries(n, prefix, k - 1) + leaf_entries(n.children[k - 1], prefix)
    }
}

/// Inserts every named leaf below `node` into `map`.
fn flatten_into(node: &SizeNode, prefix: &String, map: &mut KeyedTable<String, u64>)
    ensures
        final(map).map() == entries_fold(old(map).map(), leaf_entries(node@, prefix@)),
    decreases node,
{
    proof {
        lemma_children_views(*node);
    }
    if node.children.len() == 0 {
        if !node.name.as_str().is_empty() {
            let key = if prefix.as_str().is_empty() {
                copy_string(&node.name)
            } else {
                let mut k = copy_string(prefix);
                push_char(&mut k, '/');
                k.append(node.name.as_str());
                k
            };
            let ghost kv = key@;
            assert(kv == join_name(prefix@, node.name@));
            map.insert(key, node.size);
            proof {
                let es = leaf_entries(node@, prefix@);
                assert(es == seq![(kv, node.size)]);
                assert(es.len() == 1);
                assert(es.drop_last() =~= Seq::<(Seq<char>, u64)>::empty());
                assert(es.last() == (kv, node.size));
                assert(entries_fold(old(map).map(), es.drop_last()) == old(map).map());
                assert(entries_fold(old(map).map(), es) == old(map).map().insert(kv, node.size));
            }
        }
        proof {
            if node.name@.len() == 0 {
                assert(leaf_entries(node@, prefix@) =~= Seq::<(Seq<char>, u64)>::empty());
            }
        }
        return;
    }
    let p = if node.name.as_str().is_empty() {
        copy_string(prefix)
    } else if prefix.as_str().is_empty() {
        copy_string(&node.name)
    } else {
        let mut k = copy_string(prefix);
        push_char(&mut k, '/');
        k.append(node.name.as_str());
        k
    };
    let ghost m0 = old(map).map();
    let mut i: usize = 0;
    while i < node.children.len()
        invariant
            i <= node.children.len(),
            node@.children == views(node.children@),
            node@.children.len() > 0,
            p@ == (if node@.name.len() > 0 { join_name(prefix@, node@.name) } else { prefix@ }),
            map.map() == entries_fold(m0, child_entries(node@, p@, i as int)),
        decreases node.children.len() - i,
    {
        let ghost before = map.map();
        flatten_into(&node.children[i], &p, map);
        proof {
            lemma_entries_fold_concat(m0, child_entries(node@, p@, i as int), leaf_entries(node@.children[i as int], p@));
        }
        i += 1;
    }
}

/// The map reached by inserting `es` in order into `m`.
pub open spec fn entries_fold(m: Map<Seq<char>, u64>, es: Seq<(Seq<char>, u64)>) -> Map<Seq<char>, u64>
    decreases es.len(),
{
    if es.len() == 0 {
        m
    } else {
        entries_fold(m, es.drop_last()).insert(es.last().0, es.last().1)
    }
}

proof fn lemma_entries_fold_concat(m: Map<Seq<char>, u64>, a: Seq<(Seq<char>, u64)>, b: Seq<(Seq<char>, u64)>)
    ensures
        entries_fold(m, a + b) == entries_fold(entries_fold(m, a), b),
    decreases b.len(),
{
    if b.len() == 0 {
        assert(a + b == a);
    } else {
        assert((a + b).drop_last() == a + b.drop_last());
        lemma_entries_fold_concat(m, a, b.drop_last());
    }
}

/// Flatten a SizeNode tree into a map of full path -> leaf size.
/// Only named leaf nodes (symbols) are included; when two leaves share a
/// path, the later one in depth-first order is kept.
pub fn flatten_paths(tree: &SizeNode) -> (r: KeyedTable<String, u64>)
    ensures
        r.map() == entries_fold(Map::empty(), leaf_entries(tree@, Seq::empty())),
{
    let mut map: KeyedTable<String, u64> = KeyedTable::new();
    let prefix = String::new();
    flatten_into(tree, &prefix, &mut map);
    map
}

} // verus!
