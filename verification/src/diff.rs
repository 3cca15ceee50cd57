//! Size changes between two sets of symbols.
use vstd::prelude::*;

use crate::table::{distinct_keys, lemma_table_map, pairs_view, table_map, Ident, KeyedTable};
use crate::tree::{group_contains, Group, KeyV, SymbolKey};

verus! {

/// Delta info for a single key.
#[derive(Debug, Clone, Copy, PartialEq, Eq)]
pub struct Delta {
    pub before: Option<u64>,
    pub after: Option<u64>,
}

/// `o`'s value, or 0.
pub open spec fn or_zero(o: Option<u64>) -> u64 {
    match o {
        Some(v) => v,
        None => 0,
    }
}

impl Delta {
    /// Bytes gained (negative when shrunk): `after - before`, each taken as
    /// `i64`, a missing side counting as 0.
    pub fn diff_bytes(&self) -> (r: i64)
        requires
            i64::MIN <= (or_zero(self.after) as i64) - (or_zero(self.before) as i64) <= i64::MAX,
        ensures
            r == (or_zero(self.after) as i64) - (or_zero(self.before) as i64),
    {
        let a: u64 = match self.after {
            Some(v) => v,
            None => 0,
        };
        let b: u64 = match self.before {
            Some(v) => v,
            None => 0,
        };
        (a as i64) - (b as i64)
    }
}

/// The delta for key `k` between the size maps `b` (before) and `a` (after).
pub open spec fn delta_of<KV>(b: Map<KV, u64>, a: Map<KV, u64>, k: KV) -> Delta {
    Delta {
        before: if b.contains_key(k) {
            Some(b[k])
        } else {
            None
        },
        after: if a.contains_key(k) {
            Some(a[k])
        } else {
            None
        },
    }
}

/// One delta for every key of either map.
pub open spec fn diff_map<KV>(b: Map<KV, u64>, a: Map<KV, u64>) -> Map<KV, Delta> {
    Map::new(|k: KV| b.contains_key(k) || a.contains_key(k), |k: KV| delta_of(b, a, k))
}

/// The delta of every key that appears before, after, or both.
pub fn compute_diff<K: Ident>(before: &KeyedTable<K, u64>, after: &KeyedTable<K, u64>) -> (r: KeyedTable<K, Delta>)
    ensures
        r.map() == diff_map(before.map(), after.map()),
{
    let ghost bm = before.map();
    let ghost am = after.map();
    let be = before.entries();
    let ae = after.entries();
    let ghost bp = pairs_view(be@);
    let ghost ap = pairs_view(ae@);
    proof {
        lemma_table_map(bp);
        lemma_table_map(ap);
    }
    let mut result: KeyedTable<K, Delta> = KeyedTable::new();
    let mut i: usize = 0;
    while i < be.len()
        invariant
            i <= be.len(),
            bp == pairs_view(be@),
            bm == table_map(bp),
            am == after.map(),
            distinct_keys(bp),
            forall|k: K::V| #[trigger] bm.contains_key(k) <==> exists|j: int| 0 <= j < bp.len() && bp[j].0 == k,
            forall|j: int| 0 <= j < bp.len() ==> #[trigger] bm[bp[j].0] == bp[j].1,
            forall|k: K::V| #[trigger] result.map().contains_key(k) <==> exists|j: int| 0 <= j < i && bp[j].0 == k,
            forall|k: K::V| #[trigger] result.map().contains_key(k) ==> result.map()[k] == delta_of(bm, am, k),
        decreases be.len() - i,
    {
        let key = be[i].0.duplicate();
        let size = be[i].1;
        let got = after.get(&be[i].0);
        let ghost kv = key@;
        assert(bp[i as int].0 == kv);
        assert(bm.contains_key(kv));
        let ghost old_map = result.map();
        result.insert(key, Delta { before: Some(size), after: got });
        proof {
            assert forall|k: K::V| #[trigger] result.map().contains_key(k) <==> exists|j: int| 0 <= j < i + 1 && bp[j].0 == k by {
                if k == kv {
                    assert(bp[i as int].0 == k);
                } else if result.map().contains_key(k) {
                    assert(old_map.contains_key(k));
                }
            }
        }
        i += 1;
    }
    let mut i: usize = 0;
    while i < ae.len()
        invariant
            i <= ae.len(),
            ap == pairs_view(ae@),
            am == table_map(ap),
            bm == before.map(),
            forall|k: K::V| #[trigger] am.contains_key(k) <==> exists|j: int| 0 <= j < ap.len() && ap[j].0 == k,
            forall|j: int| 0 <= j < ap.len() ==> #[trigger] am[ap[j].0] == ap[j].1,
            forall|k: K::V| #[trigger] result.map().contains_key(k) <==> (bm.contains_key(k) || exists|j: int| 0 <= j < i && ap[j].0 == k),
            forall|k: K::V| #[trigger] result.map().contains_key(k) ==> result.map()[k] == delta_of(bm, am, k),
        decreases ae.len() - i,
    {
        let ghost kv = ae@[i as int].0@;
        assert(ap[i as int].0 == kv);
        let ghost old_map = result.map();
        if !result.contains_key(&ae[i].0) {
            let key = ae[i].0.duplicate();
            let size = ae[i].1;
            result.insert(key, Delta { before: None, after: Some(size) });
        }
        proof {
            assert forall|k: K::V| #[trigger] result.map().contains_key(k) <==> (bm.contains_key(k) || exists|j: int| 0 <= j < i + 1 && ap[j].0 == k) by {
                if k == kv {
                    assert(ap[i as int].0 == k);
                } else if exists|j: int| 0 <= j < i + 1 && ap[j].0 == k {
                    let j = choose|j: int| 0 <= j < i + 1 && ap[j].0 == k;
                    assert(j < i);
                }
            }
        }
        i += 1;
    }
    proof {
        assert(result.map() =~= diff_map(bm, am));
    }
    result
}

/// Before/after totals of the entries of `ps` whose key is in `g`.
pub open spec fn group_totals(ps: Seq<(KeyV, Delta)>, g: crate::tree::GroupV) -> (nat, nat)
    decreases ps.len(),
{
    if ps.len() == 0 {
        (0, 0)
    } else {
        let t = group_totals(ps.drop_last(), g);
        let (k, d) = ps.last();
        if group_contains(g, k) {
            (t.0 + or_zero(d.before) as nat, t.1 + or_zero(d.after) as nat)
        } else {
            t
        }
    }
}

proof fn lemma_group_totals_take(ps: Seq<(KeyV, Delta)>, g: crate::tree::GroupV, i: int)
    requires
        0 <= i <= ps.len(),
    ensures
        group_totals(ps.take(i), g).0 <= group_totals(ps, g).0,
        group_totals(ps.take(i), g).1 <= group_totals(ps, g).1,
    decreases ps.len(),
{
    if i == ps.len() {
        assert(ps.take(i) == ps);
    } else {
        assert(ps.drop_last().take(i) == ps.take(i));
        lemma_group_totals_take(ps.drop_last(), g, i);
    }
}

/// Sum before/after totals across every entry of `deltas` (each key once)
/// that belongs to `group` — every symbol logically part of a hovered
/// directory or cluster, in either file.
pub fn aggregate_group(deltas: &KeyedTable<SymbolKey, Delta>, group: &Group) -> (r: (u64, u64))
    requires
        group_totals(deltas.pairs(), group@).0 <= u64::MAX,
        group_totals(deltas.pairs(), group@).1 <= u64::MAX,
    ensures
        r.0 == group_totals(deltas.pairs(), group@).0,
        r.1 == group_totals(deltas.pairs(), group@).1,
{
    let es = deltas.entries();
    let ghost ps = deltas.pairs();
    let mut total_before: u64 = 0;
    let mut total_after: u64 = 0;
    let mut i: usize = 0;
    while i < es.len()
        invariant
            i <= es.len(),
            ps == pairs_view(es@),
            group_totals(ps, group@).0 <= u64::MAX,
            group_totals(ps, group@).1 <= u64::MAX,
            (total_before as nat, total_after as nat) == group_totals(ps.take(i as int), group@),
        decreases es.len() - i,
    {
        proof {
            assert(ps.take(i + 1).drop_last() == ps.take(i as int));
            lemma_group_totals_take(ps, group@, i + 1);
        }
        if group.contains(&es[i].0) {
            let d = es[i].1;
            let b: u64 = match d.before {
                Some(v) => v,
                None => 0,
            };
            let a: u64 = match d.after {
                Some(v) => v,
                None => 0,
            };
            total_before = total_before + b;
            total_after = total_after + a;
        }
        i += 1;
    }
    proof {
        assert(ps.take(es.len() as int) == ps);
    }
    (total_before, total_after)
}

} // verus!
