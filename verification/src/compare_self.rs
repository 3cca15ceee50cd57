//! Comparing an image with itself: the root alignment strips nothing, so both
//! sides see the same sources and no size changes.
use vstd::prelude::*;

use crate::compare::{
    align_score, best_alignment, common_count, files_of, is_best_alignment, key_sums,
    lemma_best_alignment_unique, normalized_sources, shared_depth, side_keys, side_syms,
    stripped_list,
};
use crate::diff::diff_map;
use crate::parse::DetailV;
use crate::text::{comp_scan, components, join_slash};
use crate::tree::KeyV;

verus! {

// ---------------------------------------------------------------------------
// Components and joining undo each other

/// `p` holds no `/`.
pub open spec fn slash_free(p: Seq<char>) -> bool {
    forall|i: int| 0 <= i < p.len() ==> p[i] != '/'
}

/// Every part is non-empty and holds no `/`: what a path splits into.
pub open spec fn proper_parts(c: Seq<Seq<char>>) -> bool {
    forall|i: int| #![trigger c[i]] 0 <= i < c.len() ==> c[i].len() > 0 && slash_free(c[i])
}

proof fn lemma_scan_parts(s: Seq<char>)
    ensures
        proper_parts(comp_scan(s).0),
        slash_free(comp_scan(s).1),
    decreases s.len(),
{
    if s.len() > 0 {
        lemma_scan_parts(s.drop_last());
        let st = comp_scan(s.drop_last());
        let c = s.last();
        if c == '/' {
            if st.1.len() > 0 {
                let p = st.0.push(st.1);
                assert forall|i: int| #![trigger p[i]] 0 <= i < p.len() implies p[i].len() > 0 && slash_free(p[i]) by {
                    if i < st.0.len() {
                        assert(p[i] == st.0[i]);
                    }
                }
            }
        } else {
            let q = st.1.push(c);
            assert forall|i: int| 0 <= i < q.len() implies q[i] != '/' by {
                if i < st.1.len() {
                    assert(q[i] == st.1[i]);
                }
            }
        }
    }
}

proof fn lemma_components_parts(s: Seq<char>)
    ensures
        proper_parts(components(s)),
{
    lemma_scan_parts(s);
    let st = comp_scan(s);
    if st.1.len() > 0 {
        let p = st.0.push(st.1);
        assert forall|i: int| #![trigger p[i]] 0 <= i < p.len() implies p[i].len() > 0 && slash_free(p[i]) by {
            if i < st.0.len() {
                assert(p[i] == st.0[i]);
            }
        }
    }
}

/// Reading characters without `/` only extends the component being read.
proof fn lemma_scan_append_free(s: Seq<char>, t: Seq<char>)
    requires
        slash_free(t),
    ensures
        comp_scan(s + t) == (comp_scan(s).0, comp_scan(s).1 + t),
    decreases t.len(),
{
    if t.len() == 0 {
        assert(s + t =~= s);
        assert(comp_scan(s).1 + t =~= comp_scan(s).1);
    } else {
        let u = t.drop_last();
        assert forall|i: int| 0 <= i < u.len() implies u[i] != '/' by {
            assert(u[i] == t[i]);
        }
        lemma_scan_append_free(s, u);
        assert((s + t).drop_last() =~= s + u);
        assert((s + t).last() == t[t.len() - 1]);
        assert((comp_scan(s).1 + u).push(t.last()) =~= comp_scan(s).1 + t);
    }
}

proof fn lemma_scan_after_slash(s: Seq<char>)
    ensures
        comp_scan(s.push('/')) == (components(s), Seq::<char>::empty()),
{
    assert(s.push('/').drop_last() =~= s);
    assert(s.push('/').last() == '/');
}

/// Splitting a join of proper parts gives the parts back.
proof fn lemma_join_roundtrip(c: Seq<Seq<char>>)
    requires
        proper_parts(c),
    ensures
        components(join_slash(c)) == c,
    decreases c.len(),
{
    if c.len() == 0 {
        assert(comp_scan(Seq::<char>::empty()) == (Seq::<Seq<char>>::empty(), Seq::<char>::empty()));
    } else if c.len() == 1 {
        assert(c[0].len() > 0 && slash_free(c[0]));
        lemma_scan_append_free(Seq::<char>::empty(), c[0]);
        assert(Seq::<char>::empty() + c[0] =~= c[0]);
        assert(comp_scan(Seq::<char>::empty()) == (Seq::<Seq<char>>::empty(), Seq::<char>::empty()));
        assert(Seq::<Seq<char>>::empty().push(c[0]) =~= c);
    } else {
        let d = c.drop_last();
        assert forall|i: int| #![trigger d[i]] 0 <= i < d.len() implies d[i].len() > 0 && slash_free(d[i]) by {
            assert(d[i] == c[i]);
        }
        lemma_join_roundtrip(d);
        let j = join_slash(d);
        let last = c[c.len() - 1];
        assert(last.len() > 0 && slash_free(last));
        assert(join_slash(c) == j + seq!['/'] + last);
        assert(j + seq!['/'] =~= j.push('/'));
        lemma_scan_after_slash(j);
        lemma_scan_append_free(j.push('/'), last);
        assert(Seq::<char>::empty() + last =~= last);
        assert(components(j).push(last) =~= c);
    }
}

// ---------------------------------------------------------------------------
// Stripping more components never yields more distinct paths

/// The path of `f` with its first `n` components dropped.
pub open spec fn stripped_path(f: Seq<char>, n: int) -> Seq<char> {
    join_slash(components(f).skip(n))
}

proof fn lemma_stripped_has(files: Seq<Seq<char>>, n: int, k: int)
    requires
        0 <= k < files.len(),
        components(files[k]).len() > n,
    ensures
        stripped_list(files, n).contains(stripped_path(files[k], n)),
    decreases files.len(),
{
    let r = stripped_list(files.drop_last(), n);
    let s = stripped_path(files[k], n);
    if k == files.len() - 1 {
        if !r.contains(s) {
            assert(r.push(s)[r.len() as int] == s);
        }
    } else {
        assert(files.drop_last()[k] == files[k]);
        lemma_stripped_has(files.drop_last(), n, k);
        let w = choose|w: int| 0 <= w < r.len() && r[w] == s;
        let c = components(files.last());
        if c.len() > n && !r.contains(join_slash(c.skip(n))) {
            assert(r.push(join_slash(c.skip(n)))[w] == s);
        }
    }
}

proof fn lemma_stripped_from(files: Seq<Seq<char>>, n: int, t: Seq<char>)
    requires
        stripped_list(files, n).contains(t),
    ensures
        exists|k: int| 0 <= k < files.len() && components(files[k]).len() > n && t == #[trigger] stripped_path(files[k], n),
    decreases files.len(),
{
    let d = files.drop_last();
    let r = stripped_list(d, n);
    if r.contains(t) {
        lemma_stripped_from(d, n, t);
        let k = choose|k: int| 0 <= k < d.len() && components(d[k]).len() > n && t == #[trigger] stripped_path(d[k], n);
        assert(d[k] == files[k]);
        assert(stripped_path(files[k], n) == t);
    } else {
        let k = files.len() - 1;
        let c = components(files[k]);
        let out = stripped_list(files, n);
        assert(c.len() > n);
        let w = choose|w: int| 0 <= w < out.len() && out[w] == t;
        assert(out == r.push(join_slash(c.skip(n))));
        assert(w == r.len());
        assert(stripped_path(files[k], n) == t);
    }
}

proof fn lemma_stripped_len(files: Seq<Seq<char>>, n: int)
    requires
        n >= 0,
    ensures
        stripped_list(files, n).len() <= stripped_list(files, 0).len(),
    decreases files.len(),
{
    if files.len() > 0 {
        let d = files.drop_last();
        lemma_stripped_len(d, n);
        let f = files.last();
        let c = components(f);
        let rn = stripped_list(d, n);
        let r0 = stripped_list(d, 0);
        if c.len() > n {
            let sn = join_slash(c.skip(n));
            let s0 = join_slash(c.skip(0));
            if !rn.contains(sn) && r0.contains(s0) {
                lemma_stripped_from(d, 0, s0);
                let k = choose|k: int| 0 <= k < d.len() && components(d[k]).len() > 0 && s0 == #[trigger] stripped_path(d[k], 0);
                let g = components(d[k]);
                assert(g.skip(0) =~= g);
                assert(c.skip(0) =~= c);
                lemma_components_parts(d[k]);
                lemma_components_parts(f);
                lemma_join_roundtrip(g);
                lemma_join_roundtrip(c);
                assert(g == c);
                lemma_stripped_has(d, n, k);
                assert(false);
            }
        }
    }
}

// ---------------------------------------------------------------------------
// Counting common paths

proof fn lemma_common_at_most(x: Seq<Seq<char>>, y: Seq<Seq<char>>)
    ensures
        common_count(x, y) <= x.len(),
    decreases x.len(),
{
    if x.len() > 0 {
        lemma_common_at_most(x.drop_last(), y);
    }
}

proof fn lemma_common_all(x: Seq<Seq<char>>, y: Seq<Seq<char>>)
    requires
        forall|i: int| 0 <= i < x.len() ==> y.contains(#[trigger] x[i]),
    ensures
        common_count(x, y) == x.len(),
    decreases x.len(),
{
    if x.len() > 0 {
        let d = x.drop_last();
        assert forall|i: int| 0 <= i < d.len() implies y.contains(#[trigger] d[i]) by {
            assert(d[i] == x[i]);
        }
        lemma_common_all(d, y);
        assert(y.contains(x[x.len() - 1]));
    }
}

/// A list of files aligned with itself strips nothing.
proof fn lemma_self_alignment(f: Seq<Seq<char>>)
    ensures
        best_alignment(f, f) == (0int, 0int),
{
    let s0 = stripped_list(f, 0);
    assert forall|i: int| 0 <= i < s0.len() implies s0.contains(#[trigger] s0[i]) by {}
    lemma_common_all(s0, s0);
    let da = shared_depth(f);
    assert forall|x: int, y: int| 0 <= x <= da && 0 <= y <= da implies #[trigger] align_score(f, f, x, y) <= align_score(
        f,
        f,
        0,
        0,
    ) by {
        lemma_common_at_most(stripped_list(f, x), stripped_list(f, y));
        lemma_stripped_len(f, x);
    }
    assert(is_best_alignment(f, f, (0int, 0int)));
    lemma_best_alignment_unique(f, f, (0int, 0int));
}

/// Comparing an image with itself shows no change: both sides get the same
/// normalized sources, hence the same keys and symbols, and every key has the
/// same size before and after.
pub proof fn lemma_self_comparison_unchanged(a: Seq<DetailV>)
    ensures
        normalized_sources(a, a).0 == normalized_sources(a, a).1,
        ({
            let src = normalized_sources(a, a).0;
            let m = key_sums(side_keys(a, src), side_syms(a, src));
            forall|k: KeyV| #[trigger] diff_map(m, m).contains_key(k) ==> diff_map(m, m)[k].before is Some
                && diff_map(m, m)[k].before == diff_map(m, m)[k].after
        }),
{
    lemma_self_alignment(files_of(a));
}

} // verus!
