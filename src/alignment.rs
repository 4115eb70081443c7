//! Alignment-length bookkeeping: for each marker and target, the summed
//! length of the target's aligned stretches.
use multimap::MultiMap;
use vstd::prelude::*;

use crate::decimal::{decimal_of, parse_decimal, Decimal};
use crate::hits::{
    groups_get, groups_keys, key_views, marker_groups, views, Hit, HitView, HitsError, ALI_FROM,
    ALI_TO, N_COLUMNS,
};

verus! {

/// A non-negative whole number written without fraction or exponent.
pub open spec fn whole_of(d: Option<Decimal>) -> Option<int> {
    match d {
        Some(x) => if !x.negative && x.exponent == 0 {
            Some(x.mantissa as int)
        } else {
            None
        },
        None => None,
    }
}

/// The length of the aligned stretch of a hit, `ali_to - ali_from + 1`,
/// where both are whole numbers and `ali_from ≤ ali_to`.
pub open spec fn aligned_length(h: HitView) -> Option<int> {
    if h.inner.len() >= N_COLUMNS {
        match (whole_of(decimal_of(h.inner[ALI_FROM as int])), whole_of(decimal_of(h.inner[ALI_TO as int]))) {
            (Some(from), Some(to)) => if from <= to {
                Some(to - from + 1)
            } else {
                None
            },
            _ => None,
        }
    } else {
        None
    }
}

/// The summed aligned length of the hits of `s` on target `t`.
pub open spec fn target_total(s: Seq<HitView>, t: Seq<char>) -> int
    decreases s.len(),
{
    if s.len() == 0 {
        0
    } else {
        target_total(s.drop_last(), t) + if s.last().target == t {
            aligned_length(s.last())->0
        } else {
            0
        }
    }
}

/// Every hit of `s` has an aligned length.
pub open spec fn lengths_readable(s: Seq<HitView>) -> bool {
    forall|i: int| 0 <= i < s.len() ==> (#[trigger] aligned_length(s[i])) is Some
}

/// The summed aligned length of one target of one marker.
#[derive(Clone, Debug)]
pub struct AlnLength {
    pub marker: String,
    pub target: String,
    pub length: u128,
}

proof fn lemma_total_bound(s: Seq<HitView>, t: Seq<char>)
    requires
        forall|i: int| 0 <= i < s.len() ==> 0 < (#[trigger] aligned_length(s[i]))->0 <= u64::MAX + 1,
    ensures
        0 <= target_total(s, t) <= s.len() * (u64::MAX + 1),
    decreases s.len(),
{
    if s.len() > 0 {
        let u = s.drop_last();
        assert forall|i: int| 0 <= i < u.len() implies 0 < (#[trigger] aligned_length(u[i]))->0 <= u64::MAX + 1 by {
            assert(u[i] == s[i]);
        }
        lemma_total_bound(u, t);
        assert(0 < aligned_length(s[s.len() - 1])->0 <= u64::MAX + 1);
    }
}

fn whole_exec(s: &String) -> (r: Option<u64>)
    ensures
        match whole_of(decimal_of(s@)) {
            Some(v) => r == Some(v as u64),
            None => r is None,
        },
{
    match parse_decimal(s.as_str()) {
        Some(d) => if !d.negative && d.exponent == 0 {
            Some(d.mantissa)
        } else {
            None
        },
        None => None,
    }
}

fn aligned_length_exec(h: &Hit) -> (r: Option<u128>)
    ensures
        match aligned_length(h@) {
            Some(v) => r == Some(v as u128) && 0 < v <= u64::MAX + 1,
            None => r is None,
        },
{
    if h.inner.len() < N_COLUMNS {
        return None;
    }
    proof {
        assert(h@.inner[ALI_FROM as int] == h.inner@[ALI_FROM as int]@);
        assert(h@.inner[ALI_TO as int] == h.inner@[ALI_TO as int]@);
    }
    match (whole_exec(&h.inner[ALI_FROM]), whole_exec(&h.inner[ALI_TO])) {
        (Some(from), Some(to)) => if from <= to {
            Some(to as u128 - from as u128 + 1)
        } else {
            None
        },
        _ => None,
    }
}

pub open spec fn row_targets(rows: Seq<AlnLength>) -> Seq<Seq<char>> {
    rows.map_values(|r: AlnLength| r.target@)
}

pub open spec fn hit_targets(s: Seq<HitView>) -> Seq<Seq<char>> {
    s.map_values(|h: HitView| h.target)
}

proof fn lemma_total_absent(s: Seq<HitView>, t: Seq<char>)
    requires
        !hit_targets(s).contains(t),
    ensures
        target_total(s, t) == 0,
    decreases s.len(),
{
    if s.len() > 0 {
        let u = s.drop_last();
        assert(hit_targets(s)[s.len() - 1] == s.last().target);
        if hit_targets(u).contains(t) {
            let j = choose|j: int| 0 <= j < u.len() && hit_targets(u)[j] == t;
            assert(hit_targets(s)[j] == t);
        }
        lemma_total_absent(u, t);
    }
}

/// Adds `len` to the row of target `t`, or adds a row for it.
fn add_length(rows: &mut Vec<AlnLength>, marker: &String, t: &String, len: u128)
    requires
        row_targets(old(rows)@).no_duplicates(),
        forall|a: int| 0 <= a < old(rows).len() && (#[trigger] old(rows)@[a]).target@ == t@ ==> old(rows)@[a].length + len <= u128::MAX,
    ensures
        row_targets(final(rows)@).no_duplicates(),
        row_targets(final(rows)@).to_set() == row_targets(old(rows)@).to_set().insert(t@),
        forall|a: int| 0 <= a < final(rows).len() ==> (#[trigger] final(rows)@[a]).length == (if a < old(rows).len() {
            old(rows)@[a].length + if old(rows)@[a].target@ == t@ { len as int } else { 0 }
        } else {
            len as int
        }),
        forall|a: int| 0 <= a < final(rows).len() ==> (#[trigger] final(rows)@[a]).target@ == (if a < old(rows).len() {
            old(rows)@[a].target@
        } else {
            t@
        }),
        forall|a: int| 0 <= a < final(rows).len() ==> (#[trigger] final(rows)@[a]).marker@ == (if a < old(rows).len() {
            old(rows)@[a].marker@
        } else {
            marker@
        }),
        final(rows).len() == old(rows).len() || (final(rows).len() == old(rows).len() + 1 && !row_targets(old(rows)@).contains(t@)),
{
    let ghost rt = row_targets(rows@);
    let ghost old_rows = rows@;
    assert forall|a: int| 0 <= a < old_rows.len() implies #[trigger] rt[a] == old_rows[a].target@ by {}
    let mut p: usize = 0;
    while p < rows.len() && rows[p].target != *t
        invariant
            p <= rows.len(),
            rt == row_targets(rows@),
            forall|a: int| 0 <= a < p ==> rt[a] != t@,
        decreases rows.len() - p,
    {
        p = p + 1;
    }
    if p < rows.len() {
        let row = AlnLength {
            marker: rows[p].marker.clone(),
            target: rows[p].target.clone(),
            length: rows[p].length + len,
        };
        rows.set(p, row);
        proof {
            assert(rt[p as int] == t@);
            assert forall|a: int| 0 <= a < rows.len() && a != p implies old_rows[a].target@ != t@ by {
                assert(rt[a] != rt[p as int]);
            }
            assert(row_targets(rows@) =~= rt);
            assert(rt.to_set().contains(t@));
            assert(rt.to_set().insert(t@) =~= rt.to_set());
        }
    } else {
        proof {
            assert(!rt.contains(t@)) by {
                if rt.contains(t@) {
                    let j = choose|j: int| 0 <= j < rt.len() && rt[j] == t@;
                }
            }
            assert forall|a: int| 0 <= a < old_rows.len() implies old_rows[a].target@ != t@ by {
                assert(rt[a] != t@);
            }
            crate::hits::lemma_push_to_set(rt, t@);
        }
        rows.push(AlnLength { marker: marker.clone(), target: t.clone(), length: len });
        proof {
            assert(row_targets(rows@) =~= rt.push(t@));
        }
    }
}

/// One row per target of the hits `v` of `marker`: each target once, with
/// the summed aligned length of its hits. `None` where some hit has no
/// readable aligned length.
fn group_lengths(marker: &String, v: &Vec<Hit>) -> (r: Option<Vec<AlnLength>>)
    ensures
        match r {
            None => !lengths_readable(views(v@)),
            Some(rows) => {
                &&& lengths_readable(views(v@))
                &&& row_targets(rows@).no_duplicates()
                &&& row_targets(rows@).to_set() == hit_targets(views(v@)).to_set()
                &&& forall|i: int| 0 <= i < rows.len() ==> (#[trigger] rows@[i]).marker@ == marker@
                &&& forall|i: int|
                    0 <= i < rows.len() ==> (#[trigger] rows@[i]).length == target_total(
                        views(v@),
                        rows@[i].target@,
                    )
            },
        },
{
    let ghost s = views(v@);
    let mut rows: Vec<AlnLength> = Vec::new();
    let mut i: usize = 0;
    proof {
        assert(row_targets(rows@) =~= Seq::<Seq<char>>::empty());
        assert(hit_targets(s.take(0)) =~= Seq::<Seq<char>>::empty());
    }
    while i < v.len()
        invariant
            s == views(v@),
            i <= v.len(),
            forall|j: int| 0 <= j < i ==> 0 < (#[trigger] aligned_length(s[j]))->0 <= u64::MAX + 1,
            forall|j: int| 0 <= j < i ==> (#[trigger] aligned_length(s[j])) is Some,
            row_targets(rows@).no_duplicates(),
            row_targets(rows@).to_set() == hit_targets(s.take(i as int)).to_set(),
            forall|a: int| 0 <= a < rows.len() ==> (#[trigger] rows@[a]).marker@ == marker@,
            forall|a: int|
                0 <= a < rows.len() ==> (#[trigger] rows@[a]).length == target_total(
                    s.take(i as int),
                    rows@[a].target@,
                ),
        decreases v.len() - i,
    {
        let h = &v[i];
        let ghost t = h@.target;
        assert(s[i as int] == h@);
        let len = match aligned_length_exec(h) {
            Some(l) => l,
            None => {
                return None;
            },
        };
        let ghost pre = s.take(i as int);
        let ghost post = s.take(i + 1);
        let ghost old_rows = rows@;
        proof {
            assert(post.drop_last() =~= pre);
            assert(hit_targets(post) =~= hit_targets(pre).push(t));
            crate::hits::lemma_push_to_set(hit_targets(pre), t);
            assert forall|j: int| 0 <= j < pre.len() implies 0 < (#[trigger] aligned_length(pre[j]))->0 <= u64::MAX + 1 by {
                assert(pre[j] == s[j]);
            }
            lemma_total_bound(pre, t);
            assert(i * (u64::MAX + 1) + (u64::MAX + 1) <= u128::MAX) by (nonlinear_arith)
                requires
                    i < usize::MAX,
            ;
            if !row_targets(old_rows).contains(t) {
                assert(!hit_targets(pre).to_set().contains(t));
                lemma_total_absent(pre, t);
            }
        }
        add_length(&mut rows, marker, &h.target, len);
        proof {
            assert forall|a: int| 0 <= a < rows.len() implies (#[trigger] rows@[a]).length == target_total(
                post,
                rows@[a].target@,
            ) by {
                if a >= old_rows.len() {
                    assert(!row_targets(old_rows).contains(t));
                }
            }
        }
        i = i + 1;
    }
    assert(s.take(i as int) =~= s);
    Some(rows)
}

pub open spec fn row_pairs(rows: Seq<AlnLength>) -> Seq<(Seq<char>, Seq<char>)> {
    rows.map_values(|r: AlnLength| (r.marker@, r.target@))
}

/// Every hit of every marker of `g` has a readable aligned length.
pub open spec fn all_lengths_readable(g: Map<Seq<char>, Seq<HitView>>) -> bool {
    forall|k: Seq<char>| #[trigger] g.contains_key(k) ==> lengths_readable(g[k])
}

/// The rows for the markers `done` of `g`: one per marker and target, with
/// the target's summed aligned length under that marker.
pub open spec fn rows_cover(rows: Seq<AlnLength>, g: Map<Seq<char>, Seq<HitView>>, done: Set<Seq<char>>) -> bool {
    &&& row_pairs(rows).no_duplicates()
    &&& forall|a: int| 0 <= a < rows.len() ==> {
        let r = #[trigger] rows[a];
        &&& done.contains(r.marker@)
        &&& g.contains_key(r.marker@)
        &&& hit_targets(g[r.marker@]).contains(r.target@)
        &&& r.length == target_total(g[r.marker@], r.target@)
    }
    &&& forall|k: Seq<char>, t: Seq<char>| done.contains(k) && g.contains_key(k) && #[trigger] hit_targets(g[k]).contains(t)
        ==> #[trigger] row_pairs(rows).contains((k, t))
}

/// For each marker and target of `markerhits`, the summed aligned length of
/// the target's hits under the marker, one row each, in no fixed order.
/// Fails with `MalformedRecord` where a hit has no readable aligned length.
pub fn calculate_aln_length(markerhits: &MultiMap<String, Hit>) -> (r: Result<Vec<AlnLength>, HitsError>)
    ensures
        r is Ok <==> all_lengths_readable(marker_groups(*markerhits)),
        r matches Err(e) ==> e is MalformedRecord,
        r matches Ok(rows) ==> rows_cover(rows@, marker_groups(*markerhits), marker_groups(*markerhits).dom()),
{
    let ghost g = marker_groups(*markerhits);
    let keys = groups_keys(markerhits);
    let ghost ks = key_views(keys@);
    let mut rows: Vec<AlnLength> = Vec::new();
    let mut i: usize = 0;
    proof {
        assert(row_pairs(rows@) =~= Seq::<(Seq<char>, Seq<char>)>::empty());
    }
    while i < keys.len()
        invariant
            ks == key_views(keys@),
            ks.to_set() == g.dom(),
            ks.no_duplicates(),
            g == marker_groups(*markerhits),
            i <= keys.len(),
            forall|k: Seq<char>| #[trigger] ks.take(i as int).contains(k) ==> lengths_readable(g[k]),
            rows_cover(rows@, g, ks.take(i as int).to_set()),
        decreases keys.len() - i,
    {
        let k = &keys[i];
        let ghost kv = k@;
        let ghost done = ks.take(i as int).to_set();
        proof {
            assert(ks[i as int] == kv);
            assert(ks.to_set().contains(kv));
            assert(!ks.take(i as int).contains(kv)) by {
                if ks.take(i as int).contains(kv) {
                    let j = choose|j: int| 0 <= j < i && ks.take(i as int)[j] == kv;
                    assert(ks[j] == ks[i as int]);
                }
            }
            assert(ks.take(i + 1) =~= ks.take(i as int).push(kv));
            crate::hits::lemma_push_to_set(ks.take(i as int), kv);
            assert forall|x: Seq<char>| #[trigger] ks.take(i + 1).contains(x) <==> (ks.take(
                i as int,
            ).contains(x) || x == kv) by {
                crate::hits::lemma_push_contains(ks.take(i as int), kv, x);
            }
        }
        let v = match groups_get(markerhits, k.as_str()) {
            Some(v) => v,
            None => {
                proof {
                    assert(false);
                }
                return Err(HitsError::MalformedRecord);
            },
        };
        let mut group = match group_lengths(k, v) {
            Some(x) => x,
            None => {
                return Err(HitsError::MalformedRecord);
            },
        };
        let ghost base = rows@;
        let ghost gr = group@;
        rows.append(&mut group);
        proof {
            let group = gr;
            assert(rows@ == base + group);
            let nd = ks.take(i + 1).to_set();
            assert(nd =~= done.insert(kv));
            assert(row_pairs(rows@) =~= row_pairs(base) + row_pairs(group));
            assert forall|a: int, b: int| 0 <= a < b < rows@.len() implies row_pairs(rows@)[a] != row_pairs(rows@)[b] by {
                if b >= base.len() && a < base.len() {
                    assert(done.contains(rows@[a].marker@));
                } else if a >= base.len() {
                    assert(row_targets(group)[a - base.len()] != row_targets(group)[b - base.len()]);
                }
            }
            assert forall|kk: Seq<char>, t: Seq<char>| nd.contains(kk) && g.contains_key(kk) && #[trigger] hit_targets(g[kk]).contains(t)
                implies #[trigger] row_pairs(rows@).contains((kk, t)) by {
                if kk == kv {
                    assert(hit_targets(g[kv]).to_set().contains(t));
                    assert(row_targets(group).to_set().contains(t));
                    let q = choose|q: int| 0 <= q < group.len() && row_targets(group)[q] == t;
                    assert(row_pairs(rows@)[base.len() + q] == (kk, t));
                } else {
                    assert(row_pairs(base).contains((kk, t)));
                    let q = choose|q: int| 0 <= q < base.len() && row_pairs(base)[q] == (kk, t);
                    assert(row_pairs(rows@)[q] == (kk, t));
                }
            }
            assert forall|a: int| 0 <= a < rows@.len() implies {
                let r = #[trigger] rows@[a];
                &&& nd.contains(r.marker@)
                &&& g.contains_key(r.marker@)
                &&& hit_targets(g[r.marker@]).contains(r.target@)
                &&& r.length == target_total(g[r.marker@], r.target@)
            } by {
                if a < base.len() {
                    assert(rows@[a] == base[a]);
                } else {
                    let q = a - base.len();
                    assert(rows@[a] == group[q]);
                    assert(group[q].marker@ == kv);
                    assert(row_targets(group)[q] == group[q].target@);
                    assert(row_targets(group).to_set().contains(group[q].target@));
                    assert(hit_targets(g[kv]).to_set().contains(group[q].target@));
                }
            }
        }
        i = i + 1;
    }
    proof {
        assert(ks.take(i as int) =~= ks);
        assert forall|k: Seq<char>| #[trigger] g.contains_key(k) implies lengths_readable(g[k]) by {
            assert(ks.to_set().contains(k));
        }
    }
    Ok(rows)
}

} // verus!
