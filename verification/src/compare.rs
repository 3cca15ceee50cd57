//! Comparison of two parsed ELFs: symbol identity, diffing, and the two display
//! trees, as one pure pipeline.
//!
//! The steps are order-dependent and each one exists to keep two independently
//! parsed files comparable:
//!
//! 1. **Pair-level path normalization.** Identity is derived from the raw DWARF
//!    paths, normalized against each other: first the two build roots are
//!    aligned (they may differ, e.g. two checkouts), then one shared prefix is
//!    trimmed from both.
//! 2. **Identity includes translation unit for locals.** `(source, name,
//!    translation unit)` is the identity; the translation unit comes from the
//!    ELF's `STT_FILE` provenance, reduced to its basename.
//! 3. **Explicit ambiguity.** If an identity still collides, those keys are
//!    reported in [`Comparison::ambiguous`] (with combined sizes).
//! 4. **Joint clustering.** Which unresolved-symbol name prefixes form named
//!    clusters is decided once for the pair, so a group means the same thing
//!    in both trees.
use vstd::prelude::*;

use crate::diff::{compute_diff, diff_map, Delta};
use crate::parse::{
    common_dir_char_len, common_dir_len, detail_views, is_common_dir_prefix, DetailV,
    ResolvedSymbol, SymV, SymbolDetail,
};
use crate::table::{Ident, KeyedTable};
use crate::text::{
    chars_of, components, components_of, copy_string, join_from, join_slash, string_from_chars,
    strings_contain,
};
use crate::tree::{
    build_tree_clustered, built_tree, key_views, prefix_count, sym_views, total_size,
    unresolved_cluster_prefixes, KeyV, SizeNode, SymbolKey,
};

verus! {

// ---------------------------------------------------------------------------
// Aligning build roots

/// The distinct raw source paths of `syms`, in order of first appearance.
pub open spec fn files_of(syms: Seq<DetailV>) -> Seq<Seq<char>>
    decreases syms.len(),
{
    if syms.len() == 0 {
        Seq::empty()
    } else {
        let r = files_of(syms.drop_last());
        match syms.last().raw {
            Some(p) => if r.contains(p) {
                r
            } else {
                r.push(p)
            },
            None => r,
        }
    }
}

/// Number of leading path components shared by every file — the deepest
/// directory all of them live under.
pub open spec fn shared_depth(files: Seq<Seq<char>>) -> int {
    if files.len() == 0 {
        0
    } else {
        components(files[0].take(common_dir_len(files))).len() as int
    }
}

/// The distinct paths of `files` with more than `n` components, each with
/// its first `n` components dropped, in order of first appearance.
pub open spec fn stripped_list(files: Seq<Seq<char>>, n: int) -> Seq<Seq<char>>
    decreases files.len(),
{
    if files.len() == 0 {
        Seq::empty()
    } else {
        let r = stripped_list(files.drop_last(), n);
        let c = components(files.last());
        if c.len() > n {
            let s = join_slash(c.skip(n));
            if r.contains(s) {
                r
            } else {
                r.push(s)
            }
        } else {
            r
        }
    }
}

/// How many elements of `x` occur in `y`.
pub open spec fn common_count(x: Seq<Seq<char>>, y: Seq<Seq<char>>) -> nat
    decreases x.len(),
{
    if x.len() == 0 {
        0
    } else {
        common_count(x.drop_last(), y) + if y.contains(x.last()) {
            1nat
        } else {
            0nat
        }
    }
}

/// How many source files coincide when `ca` leading components are dropped
/// from the paths of `a` and `cb` from those of `b`.
pub open spec fn align_score(a: Seq<Seq<char>>, b: Seq<Seq<char>>, ca: int, cb: int) -> nat {
    common_count(stripped_list(a, ca), stripped_list(b, cb))
}

/// Tie-break between equally good strip counts: strip less in total, then
/// less from the first side.
pub open spec fn strips_less(x: (int, int), y: (int, int)) -> bool {
    x.0 + x.1 < y.0 + y.1 || (x.0 + x.1 == y.0 + y.1 && x.0 < y.0)
}

/// `r` is the best pair of strip counts: within each side's shared depth, it
/// makes the most files coincide, ties going to the pair that strips less;
/// `(0, 0)` when no pair makes any file coincide.
pub open spec fn is_best_alignment(a: Seq<Seq<char>>, b: Seq<Seq<char>>, r: (int, int)) -> bool {
    let da = shared_depth(a);
    let db = shared_depth(b);
    &&& 0 <= r.0 <= da
    &&& 0 <= r.1 <= db
    &&& forall|x: int, y: int|
        0 <= x <= da && 0 <= y <= db ==> #[trigger] align_score(a, b, x, y) <= align_score(a, b, r.0, r.1)
    &&& align_score(a, b, r.0, r.1) > 0 ==> forall|x: int, y: int|
        0 <= x <= da && 0 <= y <= db && #[trigger] align_score(a, b, x, y) == align_score(a, b, r.0, r.1)
            && (x, y) != r ==> strips_less(r, (x, y))
    &&& align_score(a, b, r.0, r.1) == 0 ==> r == (0int, 0int)
}

/// The best pair of strip counts (see `is_best_alignment`).
pub open spec fn best_alignment(a: Seq<Seq<char>>, b: Seq<Seq<char>>) -> (int, int) {
    choose|r: (int, int)| is_best_alignment(a, b, r)
}

pub(crate) proof fn lemma_best_alignment_unique(a: Seq<Seq<char>>, b: Seq<Seq<char>>, r: (int, int))
    requires
        is_best_alignment(a, b, r),
    ensures
        best_alignment(a, b) == r,
{
    let s = best_alignment(a, b);
    assert(is_best_alignment(a, b, s));
    let sr = align_score(a, b, r.0, r.1);
    let ss = align_score(a, b, s.0, s.1);
    assert(ss <= sr);
    assert(sr <= ss);
    if sr > 0 && s != r {
        assert(strips_less(r, s));
        assert(strips_less(s, r));
    }
}

/// The shared depth of a list of distinct files.
fn shared_depth_of(files: &Vec<String>) -> (d: usize)
    ensures
        d == shared_depth(files.deep_view()),
{
    let len = common_dir_char_len(files);
    if files.len() == 0 {
        return 0;
    }
    let cs = chars_of(files[0].as_str());
    proof {
        assert(is_common_dir_prefix(files.deep_view(), len as int));
    }
    let head = string_from_chars(&cs, 0, len);
    assert(head@ == files.deep_view()[0].take(len as int));
    let comps = components_of(head.as_str());
    comps.len()
}

/// The stripped paths of `files` for `n` (see `stripped_list`).
fn stripped_of(files: &Vec<String>, n: usize) -> (r: Vec<String>)
    ensures
        r.deep_view() == stripped_list(files.deep_view(), n as int),
{
    let ghost fs = files.deep_view();
    let mut r: Vec<String> = Vec::new();
    let mut i: usize = 0;
    while i < files.len()
        invariant
            i <= files.len(),
            fs == files.deep_view(),
            r.deep_view() == stripped_list(fs.take(i as int), n as int),
        decreases files.len() - i,
    {
        assert(fs.take(i + 1).drop_last() == fs.take(i as int));
        let comps = components_of(files[i].as_str());
        if comps.len() > n {
            let s = join_from(&comps, n);
            if !strings_contain(&r, &s) {
                let ghost old_r = r.deep_view();
                r.push(s);
                assert(r.deep_view() =~= old_r.push(s@));
            }
        }
        i += 1;
    }
    assert(fs.take(files.len() as int) == fs);
    r
}

/// How many strings of `x` occur in `y`.
fn count_common(x: &Vec<String>, y: &Vec<String>) -> (n: usize)
    ensures
        n == common_count(x.deep_view(), y.deep_view()),
{
    let ghost xs = x.deep_view();
    let mut n: usize = 0;
    let mut i: usize = 0;
    while i < x.len()
        invariant
            i <= x.len(),
            xs == x.deep_view(),
            n == common_count(xs.take(i as int), y.deep_view()),
            n <= i,
        decreases x.len() - i,
    {
        assert(xs.take(i + 1).drop_last() == xs.take(i as int));
        if strings_contain(y, &x[i]) {
            n += 1;
        }
        i += 1;
    }
    assert(xs.take(x.len() as int) == xs);
    n
}

/// How many leading path components to drop from each side so that the same
/// source file gets the same path in both ELFs: the pair that makes the most
/// source files coincide, ties preferring to strip less, never more than a
/// side's shared leading directories.
fn align_roots(a: &Vec<String>, b: &Vec<String>) -> (r: (usize, usize))
    ensures
        (r.0 as int, r.1 as int) == best_alignment(a.deep_view(), b.deep_view()),
{
    let ghost av = a.deep_view();
    let ghost bv = b.deep_view();
    let da = shared_depth_of(a);
    let db = shared_depth_of(b);
    let mut best: (usize, usize) = (0, 0);
    let mut best_score: usize = 0;
    let mut ca: usize = 0;
    loop
        invariant_except_break
            ca <= da,
            da == shared_depth(av),
            db == shared_depth(bv),
            av == a.deep_view(),
            bv == b.deep_view(),
            best.0 <= da,
            best.1 <= db,
            best_score > 0 ==> best_score == align_score(av, bv, best.0 as int, best.1 as int),
            best_score == 0 ==> best == (0usize, 0usize),
            forall|x: int, y: int|
                0 <= x < ca && 0 <= y <= db ==> #[trigger] align_score(av, bv, x, y) <= best_score,
            best_score > 0 ==> forall|x: int, y: int|
                0 <= x < ca && 0 <= y <= db && #[trigger] align_score(av, bv, x, y) == best_score
                    && (x, y) != (best.0 as int, best.1 as int) ==> strips_less(
                    (best.0 as int, best.1 as int),
                    (x, y),
                ),
        ensures
            best.0 <= da,
            best.1 <= db,
            best_score > 0 ==> best_score == align_score(av, bv, best.0 as int, best.1 as int),
            best_score == 0 ==> best == (0usize, 0usize),
            forall|x: int, y: int|
                0 <= x <= da && 0 <= y <= db ==> #[trigger] align_score(av, bv, x, y) <= best_score,
            best_score > 0 ==> forall|x: int, y: int|
                0 <= x <= da && 0 <= y <= db && #[trigger] align_score(av, bv, x, y) == best_score
                    && (x, y) != (best.0 as int, best.1 as int) ==> strips_less(
                    (best.0 as int, best.1 as int),
                    (x, y),
                ),
        decreases da - ca,
    {
        let sa = stripped_of(a, ca);
        let mut cb: usize = 0;
        loop
            invariant_except_break
                ca <= da,
                cb <= db,
                da == shared_depth(av),
                db == shared_depth(bv),
                av == a.deep_view(),
                bv == b.deep_view(),
                sa.deep_view() == stripped_list(av, ca as int),
                best.0 <= da,
                best.1 <= db,
                best_score > 0 ==> best_score == align_score(av, bv, best.0 as int, best.1 as int),
                best_score == 0 ==> best == (0usize, 0usize),
                forall|x: int, y: int|
                    (0 <= x < ca && 0 <= y <= db) || (x == ca && 0 <= y < cb) ==> #[trigger] align_score(av, bv, x, y) <= best_score,
                best_score > 0 ==> forall|x: int, y: int|
                    ((0 <= x < ca && 0 <= y <= db) || (x == ca && 0 <= y < cb)) && #[trigger] align_score(av, bv, x, y) == best_score
                        && (x, y) != (best.0 as int, best.1 as int) ==> strips_less(
                        (best.0 as int, best.1 as int),
                        (x, y),
                    ),
            ensures
                best.0 <= da,
                best.1 <= db,
                best_score > 0 ==> best_score == align_score(av, bv, best.0 as int, best.1 as int),
                best_score == 0 ==> best == (0usize, 0usize),
                forall|x: int, y: int|
                    0 <= x <= ca && 0 <= y <= db ==> #[trigger] align_score(av, bv, x, y) <= best_score,
                best_score > 0 ==> forall|x: int, y: int|
                    0 <= x <= ca && 0 <= y <= db && #[trigger] align_score(av, bv, x, y) == best_score
                        && (x, y) != (best.0 as int, best.1 as int) ==> strips_less(
                        (best.0 as int, best.1 as int),
                        (x, y),
                    ),
            decreases db - cb,
        {
            let sb = stripped_of(b, cb);
            let score = count_common(&sa, &sb);
            let ghost old_best = best;
            let ghost old_score = best_score;
            let sum: u128 = ca as u128 + cb as u128;
            let best_sum: u128 = best.0 as u128 + best.1 as u128;
            let better = score > best_score || (score == best_score && score > 0 && (sum < best_sum
                || (sum == best_sum && ca < best.0)));
            if better {
                best = (ca, cb);
                best_score = score;
            }
            proof {
                assert(score == align_score(av, bv, ca as int, cb as int));
                assert forall|x: int, y: int|
                    (0 <= x < ca && 0 <= y <= db) || (x == ca && 0 <= y < cb + 1) implies #[trigger] align_score(av, bv, x, y) <= best_score by {
                    if x == ca && y == cb {
                    } else {
                        assert(align_score(av, bv, x, y) <= old_score);
                    }
                }
                if best_score > 0 {
                    assert forall|x: int, y: int|
                        ((0 <= x < ca && 0 <= y <= db) || (x == ca && 0 <= y < cb + 1)) && #[trigger] align_score(av, bv, x, y) == best_score
                            && (x, y) != (best.0 as int, best.1 as int) implies strips_less(
                            (best.0 as int, best.1 as int),
                            (x, y),
                        ) by {
                        if x == ca && y == cb {
                        } else if better {
                            assert(align_score(av, bv, x, y) <= old_score);
                            if old_score == best_score && (x, y) != (old_best.0 as int, old_best.1 as int) {
                                assert(strips_less((old_best.0 as int, old_best.1 as int), (x, y)));
                            }
                        }
                    }
                }
            }
            if cb == db {
                break;
            }
            cb += 1;
        }
        if ca == da {
            break;
        }
        ca += 1;
    }
    proof {
        if best_score == 0 {
            assert(align_score(av, bv, 0, 0) <= 0);
        }
        lemma_best_alignment_unique(av, bv, (best.0 as int, best.1 as int));
    }
    best
}

} // verus!

verus! {

// ---------------------------------------------------------------------------
// Normalizing source paths over the pair

/// `p` with `strip` leading components dropped (keeping at least its last
/// component), joined by `/`.
pub open spec fn aligned_path(p: Seq<char>, strip: int) -> Seq<char> {
    let c = components(p);
    let k = if c.len() == 0 {
        0
    } else if strip < c.len() - 1 {
        strip
    } else {
        c.len() - 1
    };
    join_slash(c.skip(k))
}

/// Each symbol's raw path, aligned.
pub open spec fn aligned_sources(syms: Seq<DetailV>, strip: int) -> Seq<Option<Seq<char>>> {
    Seq::new(
        syms.len(),
        |i: int|
            match syms[i].raw {
                Some(p) => Some(aligned_path(p, strip)),
                None => None,
            },
    )
}

/// The paths that are present, in order.
pub open spec fn present(xs: Seq<Option<Seq<char>>>) -> Seq<Seq<char>>
    decreases xs.len(),
{
    if xs.len() == 0 {
        Seq::empty()
    } else {
        let r = present(xs.drop_last());
        match xs.last() {
            Some(p) => r.push(p),
            None => r,
        }
    }
}

/// Each present path with its first `n` characters dropped.
pub open spec fn drop_prefix(xs: Seq<Option<Seq<char>>>, n: int) -> Seq<Option<Seq<char>>> {
    Seq::new(
        xs.len(),
        |i: int|
            match xs[i] {
                Some(p) => Some(p.skip(n)),
                None => None,
            },
    )
}

/// Source path of each symbol of both sides, aligned across the pair and
/// with their shared leading directories trimmed.
pub open spec fn normalized_sources(a: Seq<DetailV>, b: Seq<DetailV>) -> (
    Seq<Option<Seq<char>>>,
    Seq<Option<Seq<char>>>,
) {
    let (ca, cb) = best_alignment(files_of(a), files_of(b));
    let na = aligned_sources(a, ca);
    let nb = aligned_sources(b, cb);
    let n = common_dir_len(present(na) + present(nb));
    (drop_prefix(na, n), drop_prefix(nb, n))
}

/// The distinct raw paths of `syms`.
fn files_list(syms: &[SymbolDetail]) -> (r: Vec<String>)
    ensures
        r.deep_view() == files_of(detail_views(syms@)),
{
    let ghost dv = detail_views(syms@);
    let mut r: Vec<String> = Vec::new();
    let mut i: usize = 0;
    while i < syms.len()
        invariant
            i <= syms.len(),
            dv == detail_views(syms@),
            r.deep_view() == files_of(dv.take(i as int)),
        decreases syms.len() - i,
    {
        assert(dv.take(i + 1).drop_last() == dv.take(i as int));
        assert(dv.take(i + 1).last() == syms@[i as int]@);
        match &syms[i].raw_path {
            Some(p) => {
                if !strings_contain(&r, p) {
                    let ghost old_r = r.deep_view();
                    r.push(copy_string(p));
                    assert(r.deep_view() =~= old_r.push(p@));
                }
            },
            None => {},
        }
        i += 1;
    }
    assert(dv.take(syms.len() as int) == dv);
    r
}

/// `p` aligned by `strip` components.
fn align_path(p: &String, strip: usize) -> (r: String)
    ensures
        r@ == aligned_path(p@, strip as int),
{
    let comps = components_of(p.as_str());
    let k: usize = if comps.len() == 0 {
        0
    } else if strip < comps.len() - 1 {
        strip
    } else {
        comps.len() - 1
    };
    join_from(&comps, k)
}

/// Each symbol's raw path aligned by `strip` components.
fn align_all(syms: &[SymbolDetail], strip: usize) -> (r: Vec<Option<String>>)
    ensures
        r.deep_view() == aligned_sources(detail_views(syms@), strip as int),
{
    let mut r: Vec<Option<String>> = Vec::new();
    let mut i: usize = 0;
    while i < syms.len()
        invariant
            i <= syms.len(),
            r@.len() == i,
            forall|j: int| 0 <= j < i ==> #[trigger] r@[j].deep_view() == aligned_sources(detail_views(syms@), strip as int)[j],
        decreases syms.len() - i,
    {
        let v = match &syms[i].raw_path {
            Some(p) => Some(align_path(p, strip)),
            None => None,
        };
        r.push(v);
        i += 1;
    }
    assert(r.deep_view() =~= aligned_sources(detail_views(syms@), strip as int));
    r
}

/// The present paths of `xs`, appended to `out`.
fn push_present(xs: &Vec<Option<String>>, out: &mut Vec<String>)
    ensures
        final(out).deep_view() == old(out).deep_view() + present(xs.deep_view()),
{
    let ghost xv = xs.deep_view();
    let ghost start = out.deep_view();
    let mut i: usize = 0;
    while i < xs.len()
        invariant
            i <= xs.len(),
            xv == xs.deep_view(),
            out.deep_view() == start + present(xv.take(i as int)),
        decreases xs.len() - i,
    {
        assert(xv.take(i + 1).drop_last() == xv.take(i as int));
        match &xs[i] {
            Some(p) => {
                let ghost old_out = out.deep_view();
                out.push(copy_string(p));
                assert(out.deep_view() =~= old_out.push(p@));
                assert(xv.take(i + 1).last() == Some(p@));
                assert(start + present(xv.take(i + 1)) =~= (start + present(xv.take(i as int))).push(p@));
            },
            None => {
                assert(xv.take(i + 1).last() == None::<Seq<char>>);
            },
        }
        i += 1;
    }
    assert(xv.take(xs.len() as int) == xv);
}

/// Every present path of `xs` without its first `n` characters.
fn drop_all(xs: Vec<Option<String>>, n: usize) -> (r: Vec<Option<String>>)
    requires
        forall|i: int| 0 <= i < xs@.len() ==> (#[trigger] xs@[i].deep_view() matches Some(p) ==> n <= p.len()),
    ensures
        r.deep_view() == drop_prefix(xs.deep_view(), n as int),
{
    let mut r: Vec<Option<String>> = Vec::new();
    let mut i: usize = 0;
    while i < xs.len()
        invariant
            i <= xs.len(),
            forall|j: int| 0 <= j < xs@.len() ==> (#[trigger] xs@[j].deep_view() matches Some(p) ==> n <= p.len()),
            r@.len() == i,
            forall|j: int| 0 <= j < i ==> #[trigger] r@[j].deep_view() == drop_prefix(xs.deep_view(), n as int)[j],
        decreases xs.len() - i,
    {
        let v = match &xs[i] {
            Some(p) => {
                let cs = chars_of(p.as_str());
                assert(xs@[i as int].deep_view() == Some(p@));
                let s = string_from_chars(&cs, n, cs.len());
                assert(s@ =~= p@.skip(n as int));
                Some(s)
            },
            None => None,
        };
        r.push(v);
        i += 1;
    }
    assert(r.deep_view() =~= drop_prefix(xs.deep_view(), n as int));
    r
}

proof fn lemma_present_long(xs: Seq<Option<Seq<char>>>, all: Seq<Seq<char>>, off: int, n: int)
    requires
        present(xs).len() + off <= all.len(),
        0 <= off,
        forall|j: int| 0 <= j < present(xs).len() ==> all[off + j] == #[trigger] present(xs)[j],
        forall|j: int| 0 <= j < all.len() ==> n <= #[trigger] all[j].len(),
    ensures
        forall|i: int| 0 <= i < xs.len() ==> (#[trigger] xs[i] matches Some(p) ==> n <= p.len()),
    decreases xs.len(),
{
    if xs.len() > 0 {
        let pre = xs.drop_last();
        assert forall|j: int| 0 <= j < present(pre).len() implies all[off + j] == #[trigger] present(pre)[j] by {
            assert(present(xs)[j] == present(pre)[j]);
        }
        lemma_present_long(pre, all, off, n);
        assert forall|i: int| 0 <= i < xs.len() implies (#[trigger] xs[i] matches Some(p) ==> n <= p.len()) by {
            if i < xs.len() - 1 {
                assert(pre[i] == xs[i]);
            } else if let Some(p) = xs[i] {
                assert(present(xs).last() == p);
                assert(all[off + present(xs).len() - 1] == p);
            }
        }
    }
}

/// Source path of each symbol, aligned across the pair and with their
/// shared leading directories trimmed for readability.
fn normalize_sources(a: &[SymbolDetail], b: &[SymbolDetail]) -> (r: (Vec<Option<String>>, Vec<Option<String>>))
    ensures
        (r.0.deep_view(), r.1.deep_view()) == normalized_sources(detail_views(a@), detail_views(b@)),
{
    let fa = files_list(a);
    let fb = files_list(b);
    let (ca, cb) = align_roots(&fa, &fb);
    let na = align_all(a, ca);
    let nb = align_all(b, cb);
    let mut all: Vec<String> = Vec::new();
    push_present(&na, &mut all);
    push_present(&nb, &mut all);
    assert(all.deep_view() =~= present(na.deep_view()) + present(nb.deep_view()));
    let prefix = common_dir_char_len(&all);
    proof {
        let av = all.deep_view();
        let pa = present(na.deep_view());
        let pb = present(nb.deep_view());
        if av.len() > 0 {
            assert(is_common_dir_prefix(av, prefix as int));
            assert forall|j: int| 0 <= j < av.len() implies prefix <= #[trigger] av[j].len() by {}
            assert forall|j: int| 0 <= j < pa.len() implies av[0 + j] == #[trigger] pa[j] by {}
            assert forall|j: int| 0 <= j < pb.len() implies av[pa.len() + j] == #[trigger] pb[j] by {}
            lemma_present_long(na.deep_view(), av, 0, prefix as int);
            lemma_present_long(nb.deep_view(), av, pa.len() as int, prefix as int);
        } else {
            assert(pa.len() == 0 && pb.len() == 0);
            lemma_present_empty(na.deep_view());
            lemma_present_empty(nb.deep_view());
        }
        assert forall|i: int| 0 <= i < na@.len() implies (#[trigger] na@[i].deep_view() matches Some(p) ==> prefix <= p.len()) by {
            assert(na.deep_view()[i] == na@[i].deep_view());
        }
        assert forall|i: int| 0 <= i < nb@.len() implies (#[trigger] nb@[i].deep_view() matches Some(p) ==> prefix <= p.len()) by {
            assert(nb.deep_view()[i] == nb@[i].deep_view());
        }
    }
    let ra = drop_all(na, prefix);
    let rb = drop_all(nb, prefix);
    (ra, rb)
}

proof fn lemma_present_empty(xs: Seq<Option<Seq<char>>>)
    requires
        present(xs).len() == 0,
    ensures
        forall|i: int| 0 <= i < xs.len() ==> #[trigger] xs[i] is None,
    decreases xs.len(),
{
    if xs.len() > 0 {
        lemma_present_empty(xs.drop_last());
        assert forall|i: int| 0 <= i < xs.len() implies #[trigger] xs[i] is None by {
            if i < xs.len() - 1 {
                assert(xs.drop_last()[i] == xs[i]);
            }
        }
    }
}

} // verus!

verus! {

// ---------------------------------------------------------------------------
// Identities and the comparison

/// The part of `t` after its last `/` (all of it when there is none).
pub open spec fn basename(t: Seq<char>) -> Seq<char> {
    t.skip(slash_end(t, t.len() as int))
}

/// Index just after the last `/` in `t[..n]`, or 0.
pub open spec fn slash_end(t: Seq<char>, n: int) -> int
    decreases n,
{
    if n <= 0 {
        0
    } else if t[n - 1] == '/' {
        n
    } else {
        slash_end(t, n - 1)
    }
}

/// Translation-unit part of a local symbol's identity: the `STT_FILE` name's
/// basename, so `sub/a.c` and `./a.c` agree.
pub open spec fn tu_of(tu: Option<Seq<char>>) -> Option<Seq<char>> {
    match tu {
        Some(t) => Some(basename(t)),
        None => None,
    }
}

proof fn lemma_slash_end_after(t: Seq<char>, k: int, n: int)
    requires
        0 < k <= n <= t.len(),
        t[k - 1] == '/',
        forall|j: int| k <= j < n ==> t[j] != '/',
    ensures
        slash_end(t, n) == k,
    decreases n,
{
    if n > k {
        lemma_slash_end_after(t, k, n - 1);
    }
}

proof fn lemma_slash_end_none(t: Seq<char>, n: int)
    requires
        0 <= n <= t.len(),
        forall|j: int| 0 <= j < n ==> t[j] != '/',
    ensures
        slash_end(t, n) == 0,
    decreases n,
{
    if n > 0 {
        lemma_slash_end_none(t, n - 1);
    }
}

/// A translation unit's identity ignores the directories in front of its
/// file name: `dir/name` and `name` agree, whatever `dir` is.
pub proof fn lemma_tu_ignores_directories(dir: Seq<char>, name: Seq<char>)
    requires
        !name.contains('/'),
    ensures
        tu_of(Some(dir + seq!['/'] + name)) == Some(name),
        tu_of(Some(name)) == Some(name),
{
    let t = dir + seq!['/'] + name;
    let k: int = dir.len() as int + 1;
    assert(t[k - 1] == '/');
    assert forall|j: int| k <= j < t.len() implies t[j] != '/' by {
        assert(t[j] == name[j - k]);
    }
    lemma_slash_end_after(t, k, t.len() as int);
    assert(t.skip(k) =~= name);
    lemma_slash_end_none(name, name.len() as int);
    assert(name.skip(0) =~= name);
}

/// Translation-unit part of a local symbol's identity (see `tu_of`).
pub fn tu_identity(tu: Option<&str>) -> (r: Option<String>)
    ensures
        r.deep_view() == tu_of(match tu { Some(t) => Some(t@), None => None }),
{
    match tu {
        None => None,
        Some(t) => {
            let cs = chars_of(t);
            let mut n = cs.len();
            while n > 0 && cs[n - 1] != '/'
                invariant
                    n <= cs.len(),
                    slash_end(cs@, cs@.len() as int) == slash_end(cs@, n as int),
                decreases n,
            {
                n -= 1;
            }
            let s = string_from_chars(&cs, n, cs.len());
            assert(s@ =~= basename(t@));
            Some(s)
        },
    }
}

/// The identity of each symbol: its normalized source, its name and its
/// translation unit.
pub open spec fn side_keys(d: Seq<DetailV>, src: Seq<Option<Seq<char>>>) -> Seq<KeyV> {
    Seq::new(d.len(), |i: int| KeyV { source: src[i], name: d[i].name, tu: tu_of(d[i].tu) })
}

/// Each symbol with its normalized source.
pub open spec fn side_syms(d: Seq<DetailV>, src: Seq<Option<Seq<char>>>) -> Seq<SymV> {
    Seq::new(d.len(), |i: int| SymV { name: d[i].name, size: d[i].size, source: src[i] })
}

/// Combined size per identity.
pub open spec fn key_sums(ks: Seq<KeyV>, ss: Seq<SymV>) -> Map<KeyV, u64>
    decreases ks.len(),
{
    if ks.len() == 0 {
        Map::empty()
    } else {
        let m = key_sums(ks.drop_last(), ss);
        let k = ks.last();
        let s = ss[ks.len() - 1].size;
        if m.contains_key(k) {
            m.insert(k, (m[k] + s) as u64)
        } else {
            m.insert(k, s)
        }
    }
}

/// How many symbols have identity `k`.
pub open spec fn key_count(ks: Seq<KeyV>, k: KeyV) -> nat
    decreases ks.len(),
{
    if ks.len() == 0 {
        0
    } else {
        key_count(ks.drop_last(), k) + if ks.last() == k {
            1nat
        } else {
            0nat
        }
    }
}

/// Sum of the detailed symbols' sizes.
pub open spec fn detail_total(d: Seq<DetailV>) -> nat
    decreases d.len(),
{
    if d.len() == 0 {
        0
    } else {
        detail_total(d.drop_last()) + d.last().size as nat
    }
}

proof fn lemma_key_sums_bound(ks: Seq<KeyV>, ss: Seq<SymV>, n: int)
    requires
        0 <= n <= ks.len(),
        ks.len() == ss.len(),
        total_size(ss.take(n)) <= u64::MAX,
    ensures
        forall|k: KeyV| #[trigger] key_sums(ks.take(n), ss).contains_key(k) ==> key_sums(ks.take(n), ss)[k] <= total_size(ss.take(n)),
    decreases n,
{
    if n > 0 {
        assert(ks.take(n).drop_last() == ks.take(n - 1));
        assert(ss.take(n).drop_last() == ss.take(n - 1));
        lemma_key_sums_bound(ks, ss, n - 1);
        assert(ss.take(n).last() == ss[n - 1]);
        assert(ks.take(n).last() == ks[n - 1]);
        let m = key_sums(ks.take(n - 1), ss);
        let m2 = key_sums(ks.take(n), ss);
        let t0 = total_size(ss.take(n - 1));
        let t1 = total_size(ss.take(n));
        assert(t1 == t0 + ss[n - 1].size);
        assert forall|k: KeyV| #[trigger] m2.contains_key(k) implies m2[k] <= t1 by {
            if k == ks[n - 1] {
                if m.contains_key(k) {
                    assert(m[k] + ss[n - 1].size <= t1);
                    assert(m2[k] == (m[k] + ss[n - 1].size) as u64);
                }
            } else {
                assert(m.contains_key(k));
                assert(m2[k] == m[k]);
            }
        }
    }
}

proof fn lemma_side_total(d: Seq<DetailV>, src: Seq<Option<Seq<char>>>)
    requires
        src.len() == d.len(),
    ensures
        total_size(side_syms(d, src)) == detail_total(d),
    decreases d.len(),
{
    if d.len() > 0 {
        lemma_side_total(d.drop_last(), src.drop_last());
        assert(side_syms(d, src).drop_last() =~= side_syms(d.drop_last(), src.drop_last()));
    }
}

/// One side of a comparison.
struct Side {
    symbols: Vec<ResolvedSymbol>,
    keys: Vec<SymbolKey>,
    sizes: KeyedTable<SymbolKey, u64>,
    counts: KeyedTable<SymbolKey, usize>,
}

fn build_side(details: &[SymbolDetail], sources: &Vec<Option<String>>) -> (side: Side)
    requires
        sources@.len() == details@.len(),
        detail_total(detail_views(details@)) <= u64::MAX,
    ensures
        sym_views(side.symbols@) == side_syms(detail_views(details@), sources.deep_view()),
        key_views(side.keys@) == side_keys(detail_views(details@), sources.deep_view()),
        side.sizes.map() == key_sums(
            side_keys(detail_views(details@), sources.deep_view()),
            side_syms(detail_views(details@), sources.deep_view()),
        ),
        forall|k: KeyV| #[trigger] side.counts.map().contains_key(k) ==> side.counts.map()[k] == key_count(
            side_keys(detail_views(details@), sources.deep_view()),
            k,
        ),
        forall|k: KeyV| key_count(side_keys(detail_views(details@), sources.deep_view()), k) > 0 ==> #[trigger] side.counts.map().contains_key(k),
{
    let ghost dv = detail_views(details@);
    let ghost sv = sources.deep_view();
    let ghost ks = side_keys(dv, sv);
    let ghost ss = side_syms(dv, sv);
    proof {
        lemma_side_total(dv, sv);
    }
    let mut side = Side {
        symbols: Vec::new(),
        keys: Vec::new(),
        sizes: KeyedTable::new(),
        counts: KeyedTable::new(),
    };
    let mut i: usize = 0;
    while i < details.len()
        invariant
            i <= details.len() == sources@.len(),
            dv == detail_views(details@),
            sv == sources.deep_view(),
            ks == side_keys(dv, sv),
            ss == side_syms(dv, sv),
            total_size(ss) <= u64::MAX,
            sym_views(side.symbols@) == ss.take(i as int),
            key_views(side.keys@) == ks.take(i as int),
            side.sizes.map() == key_sums(ks.take(i as int), ss),
            forall|k: KeyV| #[trigger] side.counts.map().contains_key(k) ==> side.counts.map()[k] == key_count(ks.take(i as int), k),
            forall|k: KeyV| key_count(ks.take(i as int), k) > 0 ==> #[trigger] side.counts.map().contains_key(k),
            forall|k: KeyV| #[trigger] side.counts.map().contains_key(k) ==> side.counts.map()[k] <= i,
        decreases details.len() - i,
    {
        let d = &details[i];
        let src = &sources[i];
        let key = SymbolKey {
            source: crate::text::copy_opt_string(src),
            name: copy_string(&d.name),
            tu: tu_identity(match &d.tu {
                Some(t) => Some(t.as_str()),
                None => None,
            }),
        };
        proof {
            assert(dv[i as int] == d@);
            assert(sv[i as int] == src.deep_view());
            assert(key@ == ks[i as int]);
            assert(ks.take(i + 1).drop_last() == ks.take(i as int));
            assert(ks.take(i + 1).last() == ks[i as int]);
            lemma_total_take(ss, i + 1);
            assert(ss.take(i + 1).drop_last() == ss.take(i as int));
            assert(ss.take(i + 1).last() == ss[i as int]);
            lemma_key_sums_bound(ks, ss, i as int);
            assert(ss[i as int].size == d.size);
        }
        let size = d.size;
        let prev = side.sizes.get(&key);
        let new_size = match prev {
            Some(v) => {
                proof {
                    assert(v <= total_size(ss.take(i as int)));
                }
                v + size
            },
            None => size,
        };
        side.sizes.insert(key.duplicate(), new_size);
        let prev_count = side.counts.get(&key);
        let new_count: usize = match prev_count {
            Some(c) => c + 1,
            None => 1,
        };
        side.counts.insert(key.duplicate(), new_count);
        let ghost old_syms = side.symbols@;
        let ghost old_keys = side.keys@;
        side.symbols.push(ResolvedSymbol {
            name: copy_string(&d.name),
            size: d.size,
            source_path: crate::text::copy_opt_string(src),
        });
        side.keys.push(key);
        proof {
            assert(side.symbols@.last()@ == ss[i as int]);
            assert(sym_views(side.symbols@) =~= sym_views(old_syms).push(ss[i as int]));
            assert(sym_views(side.symbols@) =~= ss.take(i + 1));
            assert(key_views(side.keys@) =~= key_views(old_keys).push(ks[i as int]));
            assert(key_views(side.keys@) =~= ks.take(i + 1));
            assert forall|k: KeyV| #[trigger] side.counts.map().contains_key(k) implies side.counts.map()[k] == key_count(ks.take(i + 1), k) by {}
            assert forall|k: KeyV| key_count(ks.take(i + 1), k) > 0 implies #[trigger] side.counts.map().contains_key(k) by {
                if k != ks[i as int] {
                    assert(key_count(ks.take(i as int), k) > 0);
                }
            }
        }
        i += 1;
    }
    proof {
        assert(ks.take(details.len() as int) == ks);
        assert(ss.take(details.len() as int) == ss);
    }
    side
}

proof fn lemma_total_take(ss: Seq<SymV>, n: int)
    requires
        0 <= n <= ss.len(),
    ensures
        total_size(ss.take(n)) <= total_size(ss),
    decreases ss.len(),
{
    if n == ss.len() {
        assert(ss.take(n) == ss);
    } else {
        assert(ss.drop_last().take(n) == ss.take(n));
        lemma_total_take(ss.drop_last(), n);
    }
}

} // verus!

verus! {

/// The result of comparing two ELFs.
pub struct Comparison {
    pub tree_a: SizeNode,
    pub tree_b: SizeNode,
    pub deltas: KeyedTable<SymbolKey, Delta>,
    /// Keys shared by more than one symbol in at least one file. Their deltas
    /// are combined totals and must not be presented as a per-symbol change.
    /// Each key here maps to `true`; only membership matters.
    pub ambiguous: KeyedTable<SymbolKey, bool>,
}

/// Adds the keys counted more than once to `out`.
fn add_repeated(counts: &KeyedTable<SymbolKey, usize>, out: &mut KeyedTable<SymbolKey, bool>)
    requires
        forall|k: KeyV| #[trigger] old(out).map().contains_key(k) ==> old(out).map()[k],
    ensures
        forall|k: KeyV| #[trigger] final(out).map().contains_key(k) ==> final(out).map()[k],
        forall|k: KeyV| #[trigger] final(out).map().contains_key(k) <==> (old(out).map().contains_key(k) || (
            counts.map().contains_key(k) && counts.map()[k] > 1)),
{
    let es = counts.entries();
    let ghost ps = counts.pairs();
    proof {
        crate::table::lemma_table_map(ps);
    }
    let ghost start = out.map();
    let mut i: usize = 0;
    while i < es.len()
        invariant
            i <= es.len(),
            ps == crate::table::pairs_view(es@),
            crate::table::distinct_keys(ps),
            counts.map() == crate::table::table_map(ps),
            forall|k: KeyV| #[trigger] counts.map().contains_key(k) <==> exists|j: int| 0 <= j < ps.len() && ps[j].0 == k,
            forall|j: int| 0 <= j < ps.len() ==> #[trigger] counts.map()[ps[j].0] == ps[j].1,
            forall|k: KeyV| #[trigger] out.map().contains_key(k) <==> (start.contains_key(k) || exists|j: int| 0 <= j < i && ps[j].0 == k && ps[j].1 > 1),
            forall|k: KeyV| #[trigger] out.map().contains_key(k) ==> out.map()[k],
        decreases es.len() - i,
    {
        let ghost kv = ps[i as int].0;
        if es[i].1 > 1 {
            out.insert(es[i].0.duplicate(), true);
        }
        proof {
            assert forall|k: KeyV| #[trigger] out.map().contains_key(k) <==> (start.contains_key(k) || exists|j: int| 0 <= j < i + 1 && ps[j].0 == k && ps[j].1 > 1) by {
                if k == kv && ps[i as int].1 > 1 {
                    assert(ps[i as int].0 == k);
                }
            }
        }
        i += 1;
    }
    proof {
        assert forall|k: KeyV| #[trigger] out.map().contains_key(k) <==> (start.contains_key(k) || (counts.map().contains_key(k) && counts.map()[k] > 1)) by {
            if counts.map().contains_key(k) && counts.map()[k] > 1 {
                let j = choose|j: int| 0 <= j < ps.len() && ps[j].0 == k;
                assert(ps[j].1 > 1);
            }
        }
    }
}

/// The union of two lists of prefixes.
fn union_strings(a: &Vec<String>, b: &Vec<String>) -> (r: Vec<String>)
    ensures
        forall|p: Seq<char>| #[trigger] r.deep_view().contains(p) <==> (a.deep_view().contains(p) || b.deep_view().contains(p)),
{
    let mut r = crate::text::copy_strings(a);
    let ghost bv = b.deep_view();
    let mut i: usize = 0;
    while i < b.len()
        invariant
            i <= b.len(),
            bv == b.deep_view(),
            forall|p: Seq<char>| #[trigger] r.deep_view().contains(p) <==> (a.deep_view().contains(p) || bv.take(i as int).contains(p)),
        decreases b.len() - i,
    {
        let ghost old_r = r.deep_view();
        let ghost x = bv[i as int];
        if !strings_contain(&r, &b[i]) {
            r.push(copy_string(&b[i]));
            assert(r.deep_view() =~= old_r.push(x));
        }
        proof {
            assert(bv.take(i + 1) =~= bv.take(i as int).push(x));
            assert forall|p: Seq<char>| #[trigger] r.deep_view().contains(p) <==> (old_r.contains(p) || p == x) by {
                if old_r.contains(p) {
                    let w = choose|w: int| 0 <= w < old_r.len() && old_r[w] == p;
                    assert(r.deep_view()[w] == p);
                }
                if p == x && !old_r.contains(p) {
                    assert(r.deep_view()[old_r.len() as int] == p);
                }
                if r.deep_view().contains(p) && p != x {
                    let w = choose|w: int| 0 <= w < r.deep_view().len() && r.deep_view()[w] == p;
                    assert(old_r[w] == p);
                }
            }
            assert forall|p: Seq<char>| #[trigger] bv.take(i + 1).contains(p) <==> (bv.take(i as int).contains(p) || p == x) by {
                let t = bv.take(i as int);
                if t.contains(p) {
                    let w = choose|w: int| 0 <= w < t.len() && t[w] == p;
                    assert(bv.take(i + 1)[w] == p);
                }
                if p == x {
                    assert(bv.take(i + 1)[i as int] == p);
                }
                let t1 = bv.take(i + 1);
                if t1.contains(p) && p != x {
                    let w = choose|w: int| 0 <= w < t1.len() && t1[w] == p;
                    assert(t[w] == p);
                }
            }
        }
        i += 1;
    }
    proof {
        assert(bv.take(b.len() as int) =~= bv);
    }
    r
}

/// Compare two parsed ELFs: normalize their source paths against each other,
/// key every symbol by `(source, name, translation unit)`, diff the combined
/// sizes per key, report keys that several symbols share, and build both
/// display trees with one joint set of named clusters.
pub fn compare(a: &[SymbolDetail], b: &[SymbolDetail]) -> (r: Comparison)
    requires
        detail_total(detail_views(a@)) <= u64::MAX,
        detail_total(detail_views(b@)) <= u64::MAX,
    ensures
        ({
            let av = detail_views(a@);
            let bv = detail_views(b@);
            let (na, nb) = normalized_sources(av, bv);
            let ka = side_keys(av, na);
            let kb = side_keys(bv, nb);
            let sa = side_syms(av, na);
            let sb = side_syms(bv, nb);
            &&& r.deltas.map() == diff_map(key_sums(ka, sa), key_sums(kb, sb))
            &&& forall|k: KeyV| #[trigger] r.ambiguous.map().contains_key(k) <==> (key_count(ka, k) > 1 || key_count(kb, k) > 1)
            &&& forall|k: KeyV| #[trigger] r.ambiguous.map().contains_key(k) ==> r.ambiguous.map()[k]
            &&& exists|cl: Seq<Seq<char>>|
                (forall|p: Seq<char>| #[trigger] cl.contains(p) <==> (prefix_count(sa, p) >= 2 || prefix_count(sb, p) >= 2))
                    && r.tree_a@ == built_tree(sa, ka, cl) && r.tree_b@ == built_tree(sb, kb, cl)
        }),
{
    let ghost av = detail_views(a@);
    let ghost bv = detail_views(b@);
    let (sources_a, sources_b) = normalize_sources(a, b);
    proof {
        assert(sources_a.deep_view().len() == av.len());
        assert(sources_b.deep_view().len() == bv.len());
    }
    let side_a = build_side(a, &sources_a);
    let side_b = build_side(b, &sources_b);
    let mut ambiguous: KeyedTable<SymbolKey, bool> = KeyedTable::new();
    add_repeated(&side_a.counts, &mut ambiguous);
    add_repeated(&side_b.counts, &mut ambiguous);
    let cl_a = unresolved_cluster_prefixes(side_a.symbols.as_slice());
    let cl_b = unresolved_cluster_prefixes(side_b.symbols.as_slice());
    let clustered = union_strings(&cl_a, &cl_b);
    let deltas = compute_diff(&side_a.sizes, &side_b.sizes);
    proof {
        lemma_side_total(av, sources_a.deep_view());
        lemma_side_total(bv, sources_b.deep_view());
    }
    let tree_a = build_tree_clustered(side_a.symbols.as_slice(), side_a.keys.as_slice(), &clustered);
    let tree_b = build_tree_clustered(side_b.symbols.as_slice(), side_b.keys.as_slice(), &clustered);
    let r = Comparison { tree_a, tree_b, deltas, ambiguous };
    proof {
        let (na, nb) = normalized_sources(av, bv);
        assert(sources_a.deep_view() == na);
        assert(sources_b.deep_view() == nb);
        let ka = side_keys(av, sources_a.deep_view());
        let kb = side_keys(bv, sources_b.deep_view());
        let sa = side_syms(av, na);
        let sb = side_syms(bv, nb);
        let cl = clustered.deep_view();
        assert forall|p: Seq<char>| #[trigger] cl.contains(p) <==> (prefix_count(sa, p) >= 2 || prefix_count(sb, p) >= 2) by {
            assert(cl_a.deep_view().contains(p) <==> prefix_count(sa, p) >= 2);
            assert(cl_b.deep_view().contains(p) <==> prefix_count(sb, p) >= 2);
        }
        assert(r.tree_a@ == built_tree(sa, ka, cl));
        assert(r.tree_b@ == built_tree(sb, kb, cl));
        assert forall|k: KeyV| #[trigger] r.ambiguous.map().contains_key(k) <==> (key_count(ka, k) > 1 || key_count(kb, k) > 1) by {
            if key_count(ka, k) > 1 {
                assert(side_a.counts.map().contains_key(k));
            }
            if key_count(kb, k) > 1 {
                assert(side_b.counts.map().contains_key(k));
            }
        }
    }
    r
}

} // verus!
