//! Operations on the list of hits of one marker: ordering by target,
//! removal of repeated records, and choice of the best-scoring hit.
use vstd::prelude::*;

use crate::decimal::{compare, dec_eq, Decimal};
use crate::hits::{views, Hit, HitView};
use crate::text::chars_of;

verus! {

/// `a ≤ b` in lexicographic order of characters.
pub open spec fn text_le(a: Seq<char>, b: Seq<char>) -> bool
    decreases a.len(),
{
    if a.len() == 0 {
        true
    } else if b.len() == 0 {
        false
    } else if a[0] != b[0] {
        a[0] < b[0]
    } else {
        text_le(a.drop_first(), b.drop_first())
    }
}

pub proof fn lemma_text_le_total(a: Seq<char>, b: Seq<char>)
    ensures
        text_le(a, b) || text_le(b, a),
    decreases a.len(),
{
    if a.len() > 0 && b.len() > 0 && a[0] == b[0] {
        lemma_text_le_total(a.drop_first(), b.drop_first());
    }
}

pub proof fn lemma_text_le_transitive(a: Seq<char>, b: Seq<char>, c: Seq<char>)
    requires
        text_le(a, b),
        text_le(b, c),
    ensures
        text_le(a, c),
    decreases a.len(),
{
    if a.len() > 0 && b.len() > 0 && c.len() > 0 && a[0] == b[0] && b[0] == c[0] {
        lemma_text_le_transitive(a.drop_first(), b.drop_first(), c.drop_first());
    }
}

/// Whether `a ≤ b` in lexicographic order of characters.
pub fn text_le_exec(a: &String, b: &String) -> (r: bool)
    ensures
        r == text_le(a@, b@),
{
    let x = chars_of(a.as_str());
    let y = chars_of(b.as_str());
    let mut i: usize = 0;
    assert(a@.skip(0) =~= a@ && b@.skip(0) =~= b@);
    while i < x.len() && i < y.len() && x[i] == y[i]
        invariant
            x@ == a@,
            y@ == b@,
            i <= x.len(),
            i <= y.len(),
            text_le(a@, b@) == text_le(a@.skip(i as int), b@.skip(i as int)),
        decreases x.len() - i,
    {
        proof {
            assert(a@.skip(i as int).drop_first() =~= a@.skip(i + 1));
            assert(b@.skip(i as int).drop_first() =~= b@.skip(i + 1));
        }
        i = i + 1;
    }
    if i == x.len() {
        true
    } else if i == y.len() {
        false
    } else {
        x[i] < y[i]
    }
}

/// `s` put in order of target by a stable insertion: a hit goes after every
/// hit already placed whose target is not greater.
pub open spec fn insert_by_target(s: Seq<HitView>, x: HitView) -> Seq<HitView>
    decreases s.len(),
{
    if s.len() == 0 || text_le(s.last().target, x.target) {
        s.push(x)
    } else {
        insert_by_target(s.drop_last(), x).push(s.last())
    }
}

/// The hits of `s` ordered by target; hits with equal targets keep their
/// order.
pub open spec fn sort_by_target(s: Seq<HitView>) -> Seq<HitView>
    decreases s.len(),
{
    if s.len() == 0 {
        s
    } else {
        insert_by_target(sort_by_target(s.drop_last()), s.last())
    }
}

pub open spec fn sorted_by_target(s: Seq<HitView>) -> bool {
    forall|i: int, j: int| 0 <= i < j < s.len() ==> text_le(s[i].target, s[j].target)
}

/// Two hits are the same record: equal target, query, e-value and score.
pub open spec fn same_record(a: HitView, b: HitView) -> bool {
    a.target == b.target && a.query == b.query && dec_eq(a.fs_evalue, b.fs_evalue) && dec_eq(
        a.fs_score,
        b.fs_score,
    )
}

/// `s` with every hit dropped that is the same record as the hit kept
/// just before it.
pub open spec fn dedup_run(s: Seq<HitView>) -> Seq<HitView>
    decreases s.len(),
{
    if s.len() <= 1 {
        s
    } else {
        let d = dedup_run(s.drop_last());
        if same_record(d.last(), s.last()) {
            d
        } else {
            d.push(s.last())
        }
    }
}

/// The list of hits after deduplication: ordered by target, repeated
/// records collapsed.
pub open spec fn dedup_group(s: Seq<HitView>) -> Seq<HitView> {
    dedup_run(sort_by_target(s))
}

/// The index of the first hit of `s` whose score no other hit exceeds.
pub open spec fn best_index(s: Seq<HitView>) -> int
    decreases s.len(),
{
    if s.len() <= 1 {
        0
    } else {
        let i = best_index(s.drop_last());
        if s[i].fs_score.scaled() < s.last().fs_score.scaled() {
            s.len() - 1
        } else {
            i
        }
    }
}

pub proof fn lemma_best_index(s: Seq<HitView>)
    requires
        s.len() > 0,
    ensures
        0 <= best_index(s) < s.len(),
        forall|j: int| 0 <= j < s.len() ==> (#[trigger] s[j]).fs_score.scaled() <= s[best_index(s)].fs_score.scaled(),
        forall|j: int| 0 <= j < best_index(s) ==> (#[trigger] s[j]).fs_score.scaled() < s[best_index(s)].fs_score.scaled(),
    decreases s.len(),
{
    if s.len() > 1 {
        let t = s.drop_last();
        lemma_best_index(t);
        let i = best_index(t);
        let b = best_index(s);
        assert(b == if s[i].fs_score.scaled() < s.last().fs_score.scaled() {
            s.len() - 1
        } else {
            i
        });
        assert forall|j: int| 0 <= j < s.len() implies (#[trigger] s[j]).fs_score.scaled()
            <= s[b].fs_score.scaled() by {
            if j < t.len() {
                assert(t[j] == s[j]);
            }
        }
        assert forall|j: int| 0 <= j < b implies (#[trigger] s[j]).fs_score.scaled()
            < s[b].fs_score.scaled() by {
            if j < t.len() {
                assert(t[j] == s[j]);
            }
        }
    }
}

proof fn lemma_insert_at(o: Seq<HitView>, x: HitView, p: int)
    requires
        0 <= p <= o.len(),
        p == 0 || text_le(o[p - 1].target, x.target),
        forall|j: int| p <= j < o.len() ==> !text_le(#[trigger] o[j].target, x.target),
    ensures
        insert_by_target(o, x) == o.take(p).push(x) + o.skip(p),
    decreases o.len(),
{
    if p == o.len() {
        assert(o.take(p) =~= o);
        assert(o.take(p).push(x) + o.skip(p) =~= o.push(x));
    } else {
        let o2 = o.drop_last();
        lemma_insert_at(o2, x, p);
        assert((o2.take(p).push(x) + o2.skip(p)).push(o.last()) =~= o.take(p).push(x) + o.skip(p));
    }
}

fn insert_hit(out: &mut Vec<Hit>, x: Hit)
    ensures
        views(final(out)@) == insert_by_target(views(old(out)@), x@),
{
    let ghost o = views(out@);
    let mut p: usize = out.len();
    while p > 0 && !text_le_exec(&out[p - 1].target, &x.target)
        invariant
            p <= out.len(),
            views(out@) == o,
            forall|j: int| p <= j < o.len() ==> !text_le(#[trigger] o[j].target, x@.target),
        decreases p,
    {
        p = p - 1;
    }
    proof {
        lemma_insert_at(o, x@, p as int);
    }
    out.insert(p, x);
    proof {
        assert(views(out@) =~= o.take(p as int).push(x@) + o.skip(p as int));
    }
}

/// The hits of `v` ordered by target, stably.
pub fn sort_hits_by_target(v: &Vec<Hit>) -> (r: Vec<Hit>)
    ensures
        views(r@) == sort_by_target(views(v@)),
{
    let mut out: Vec<Hit> = Vec::new();
    let mut i: usize = 0;
    while i < v.len()
        invariant
            i <= v.len(),
            views(out@) == sort_by_target(views(v@).take(i as int)),
        decreases v.len() - i,
    {
        proof {
            assert(views(v@).take(i + 1).drop_last() =~= views(v@).take(i as int));
        }
        insert_hit(&mut out, v[i].copy());
        i = i + 1;
    }
    assert(views(v@).take(i as int) =~= views(v@));
    out
}

fn same_record_exec(a: &Hit, b: &Hit) -> (r: bool)
    ensures
        r == same_record(a@, b@),
{
    a.target == b.target && a.query == b.query && matches!(
        compare(&a.fs_evalue, &b.fs_evalue),
        core::cmp::Ordering::Equal
    ) && matches!(compare(&a.fs_score, &b.fs_score), core::cmp::Ordering::Equal)
}

/// `v` with repeated records collapsed, where each hit is compared with the
/// last one kept.
pub fn dedup_consecutive(v: &Vec<Hit>) -> (r: Vec<Hit>)
    ensures
        views(r@) == dedup_run(views(v@)),
{
    let mut out: Vec<Hit> = Vec::new();
    let mut i: usize = 0;
    while i < v.len()
        invariant
            i <= v.len(),
            views(out@) == dedup_run(views(v@).take(i as int)),
            i > 0 ==> out.len() > 0,
        decreases v.len() - i,
    {
        let ghost s = views(v@).take(i + 1);
        proof {
            assert(s.drop_last() =~= views(v@).take(i as int));
        }
        if out.len() == 0 {
            out.push(v[i].copy());
            proof {
                assert(views(out@) =~= s);
            }
        } else if !same_record_exec(&out[out.len() - 1], &v[i]) {
            out.push(v[i].copy());
            proof {
                assert(views(out@) =~= dedup_run(views(v@).take(i as int)).push(v@[i as int]@));
            }
        }
        i = i + 1;
    }
    assert(views(v@).take(i as int) =~= views(v@));
    out
}

/// The first hit of `v` with the greatest score.
pub fn best_hit(v: &Vec<Hit>) -> (r: Hit)
    requires
        v.len() > 0,
    ensures
        r@ == views(v@)[best_index(views(v@))],
{
    let mut b: usize = 0;
    let mut i: usize = 1;
    while i < v.len()
        invariant
            1 <= i <= v.len(),
            b == best_index(views(v@).take(i as int)),
        decreases v.len() - i,
    {
        proof {
            assert(views(v@).take(i + 1).drop_last() =~= views(v@).take(i as int));
            lemma_best_index(views(v@).take(i as int));
        }
        if matches!(compare(&v[b].fs_score, &v[i].fs_score), core::cmp::Ordering::Less) {
            b = i;
        }
        i = i + 1;
    }
    assert(views(v@).take(i as int) =~= views(v@));
    proof {
        lemma_best_index(views(v@));
    }
    v[b].copy()
}

proof fn lemma_insert_bounded(o: Seq<HitView>, x: HitView, u: Seq<char>)
    requires
        forall|i: int| 0 <= i < o.len() ==> text_le(#[trigger] o[i].target, u),
        text_le(x.target, u),
    ensures
        insert_by_target(o, x).len() == o.len() + 1,
        forall|i: int|
            0 <= i < insert_by_target(o, x).len() ==> text_le(
                #[trigger] insert_by_target(o, x)[i].target,
                u,
            ),
    decreases o.len(),
{
    if !(o.len() == 0 || text_le(o.last().target, x.target)) {
        lemma_insert_bounded(o.drop_last(), x, u);
    }
}

proof fn lemma_insert_sorted(o: Seq<HitView>, x: HitView)
    requires
        sorted_by_target(o),
    ensures
        sorted_by_target(insert_by_target(o, x)),
        insert_by_target(o, x).len() == o.len() + 1,
    decreases o.len(),
{
    if o.len() == 0 || text_le(o.last().target, x.target) {
        assert forall|i: int, j: int| 0 <= i < j < o.len() + 1 implies text_le(
            (#[trigger] o.push(x)[i]).target,
            (#[trigger] o.push(x)[j]).target,
        ) by {
            if j == o.len() && i < o.len() - 1 {
                lemma_text_le_transitive(o[i].target, o.last().target, x.target);
            }
        }
    } else {
        let o2 = o.drop_last();
        lemma_insert_sorted(o2, x);
        lemma_text_le_total(o.last().target, x.target);
        lemma_insert_bounded(o2, x, o.last().target);
    }
}

proof fn lemma_sort_sorted(s: Seq<HitView>)
    ensures
        sorted_by_target(sort_by_target(s)),
        sort_by_target(s).len() == s.len(),
    decreases s.len(),
{
    if s.len() > 0 {
        lemma_sort_sorted(s.drop_last());
        lemma_insert_sorted(sort_by_target(s.drop_last()), s.last());
    }
}

proof fn lemma_sort_of_sorted(s: Seq<HitView>)
    requires
        sorted_by_target(s),
    ensures
        sort_by_target(s) == s,
    decreases s.len(),
{
    if s.len() > 0 {
        let t = s.drop_last();
        lemma_sort_of_sorted(t);
        assert(t.push(s.last()) =~= s);
    }
}

proof fn lemma_dedup_bounded(s: Seq<HitView>, u: Seq<char>)
    requires
        forall|i: int| 0 <= i < s.len() ==> text_le(#[trigger] s[i].target, u),
    ensures
        forall|i: int| 0 <= i < dedup_run(s).len() ==> text_le(#[trigger] dedup_run(s)[i].target, u),
    decreases s.len(),
{
    if s.len() > 1 {
        lemma_dedup_bounded(s.drop_last(), u);
        lemma_dedup_len(s.drop_last());
    }
}

proof fn lemma_dedup_len(s: Seq<HitView>)
    ensures
        dedup_run(s).len() <= s.len(),
        s.len() > 0 ==> dedup_run(s).len() > 0,
    decreases s.len(),
{
    if s.len() > 1 {
        lemma_dedup_len(s.drop_last());
    }
}

proof fn lemma_dedup_sorted(s: Seq<HitView>)
    requires
        sorted_by_target(s),
    ensures
        sorted_by_target(dedup_run(s)),
        forall|i: int| 0 <= i < dedup_run(s).len() - 1 ==> !same_record(
            #[trigger] dedup_run(s)[i],
            dedup_run(s)[i + 1],
        ),
    decreases s.len(),
{
    if s.len() > 1 {
        let t = s.drop_last();
        lemma_dedup_sorted(t);
        lemma_dedup_len(t);
        lemma_dedup_bounded(t, s.last().target);
    }
}

proof fn lemma_dedup_of_distinct(s: Seq<HitView>)
    requires
        forall|i: int| 0 <= i < s.len() - 1 ==> !same_record(#[trigger] s[i], s[i + 1]),
    ensures
        dedup_run(s) == s,
    decreases s.len(),
{
    if s.len() > 1 {
        let t = s.drop_last();
        assert forall|i: int| 0 <= i < t.len() - 1 implies !same_record(#[trigger] t[i], t[i + 1]) by {
            assert(!same_record(s[i], s[i + 1]));
        }
        lemma_dedup_of_distinct(t);
        assert(!same_record(s[s.len() - 2], s[s.len() - 1]));
        assert(t.push(s.last()) =~= s);
    }
}

/// Deduplicating a list of hits a second time changes nothing.
pub proof fn lemma_dedup_idempotent(s: Seq<HitView>)
    ensures
        dedup_group(dedup_group(s)) == dedup_group(s),
{
    let d = dedup_group(s);
    lemma_sort_sorted(s);
    lemma_dedup_sorted(sort_by_target(s));
    lemma_sort_of_sorted(d);
    lemma_dedup_of_distinct(d);
}

proof fn lemma_insert_contains(o: Seq<HitView>, x: HitView)
    ensures
        insert_by_target(o, x).contains(x),
        forall|j: int| 0 <= j < o.len() ==> insert_by_target(o, x).contains(#[trigger] o[j]),
    decreases o.len(),
{
    let r = insert_by_target(o, x);
    if o.len() == 0 || text_le(o.last().target, x.target) {
        assert(r[o.len() as int] == x);
        assert forall|j: int| 0 <= j < o.len() implies r.contains(#[trigger] o[j]) by {
            assert(r[j] == o[j]);
        }
    } else {
        let o2 = o.drop_last();
        lemma_insert_contains(o2, x);
        let r2 = insert_by_target(o2, x);
        assert(r == r2.push(o.last()));
        assert(r[r2.len() as int] == o.last());
        assert(r2.contains(x));
        let k = choose|k: int| 0 <= k < r2.len() && r2[k] == x;
        assert(r[k] == x);
        assert forall|j: int| 0 <= j < o.len() implies r.contains(#[trigger] o[j]) by {
            if j < o2.len() {
                assert(o2[j] == o[j]);
                assert(r2.contains(o2[j]));
                let m = choose|m: int| 0 <= m < r2.len() && r2[m] == o2[j];
                assert(r[m] == o[j]);
            } else {
                assert(r[r2.len() as int] == o[j]);
            }
        }
    }
}

proof fn lemma_sort_contains(s: Seq<HitView>)
    ensures
        forall|j: int| 0 <= j < s.len() ==> sort_by_target(s).contains(#[trigger] s[j]),
    decreases s.len(),
{
    if s.len() > 0 {
        let t = s.drop_last();
        lemma_sort_contains(t);
        lemma_insert_contains(sort_by_target(t), s.last());
        assert forall|j: int| 0 <= j < s.len() implies sort_by_target(s).contains(#[trigger] s[j]) by {
            if j < t.len() {
                assert(t[j] == s[j]);
                let m = choose|m: int| 0 <= m < sort_by_target(t).len() && sort_by_target(t)[m] == t[j];
                assert(sort_by_target(t).contains(sort_by_target(t)[m]));
            }
        }
    }
}

/// Some hit of `r` is the same record as `h`.
pub open spec fn has_record(r: Seq<HitView>, h: HitView) -> bool {
    exists|k: int| 0 <= k < r.len() && same_record(#[trigger] r[k], h)
}

/// Every hit of `s` has a record of its own in `dedup_run(s)`.
proof fn lemma_dedup_keeps_records(s: Seq<HitView>)
    ensures
        forall|j: int| 0 <= j < s.len() ==> has_record(dedup_run(s), #[trigger] s[j]),
    decreases s.len(),
{
    if s.len() == 1 {
        assert(same_record(dedup_run(s)[0], s[0]));
    } else if s.len() > 1 {
        let t = s.drop_last();
        lemma_dedup_keeps_records(t);
        lemma_dedup_len(t);
        let d = dedup_run(t);
        let r = dedup_run(s);
        assert forall|j: int| 0 <= j < s.len() implies has_record(r, #[trigger] s[j]) by {
            if j < t.len() {
                assert(t[j] == s[j]);
                assert(has_record(d, t[j]));
                let k = choose|k: int| 0 <= k < d.len() && same_record(#[trigger] d[k], t[j]);
                assert(r[k] == d[k]);
            } else if same_record(d.last(), s.last()) {
                assert(r[d.len() - 1] == d.last());
                assert(same_record(r[d.len() - 1], s[j]));
            } else {
                assert(r[d.len() as int] == s.last());
                assert(same_record(r[d.len() as int], s[j]));
            }
        }
    }
}

/// Deduplication never makes a list longer, and every hit it drops has a
/// hit with the same target, query, e-value and score that stays.
pub proof fn lemma_dedup_only_drops_repeats(s: Seq<HitView>)
    ensures
        dedup_group(s).len() <= s.len(),
        forall|j: int| 0 <= j < s.len() ==> has_record(dedup_group(s), #[trigger] s[j]),
{
    let t = sort_by_target(s);
    lemma_sort_sorted(s);
    lemma_dedup_len(t);
    lemma_sort_contains(s);
    lemma_dedup_keeps_records(t);
    assert forall|j: int| 0 <= j < s.len() implies has_record(dedup_group(s), #[trigger] s[j]) by {
        assert(t.contains(s[j]));
        let m = choose|m: int| 0 <= m < t.len() && t[m] == s[j];
        assert(has_record(dedup_run(t), t[m]));
        let k = choose|k: int| 0 <= k < dedup_run(t).len() && same_record(#[trigger] dedup_run(t)[k], t[m]);
        assert(same_record(dedup_group(s)[k], s[j]));
    }
}

/// Every hit of `s` has query `k`.
pub open spec fn all_of_query(s: Seq<HitView>, k: Seq<char>) -> bool {
    forall|i: int| 0 <= i < s.len() ==> (#[trigger] s[i]).query == k
}

proof fn lemma_insert_query(o: Seq<HitView>, x: HitView, k: Seq<char>)
    requires
        all_of_query(o, k),
        x.query == k,
    ensures
        all_of_query(insert_by_target(o, x), k),
    decreases o.len(),
{
    if !(o.len() == 0 || text_le(o.last().target, x.target)) {
        lemma_insert_query(o.drop_last(), x, k);
    }
}

proof fn lemma_sort_query(s: Seq<HitView>, k: Seq<char>)
    requires
        all_of_query(s, k),
    ensures
        all_of_query(sort_by_target(s), k),
    decreases s.len(),
{
    if s.len() > 0 {
        lemma_sort_query(s.drop_last(), k);
        lemma_insert_query(sort_by_target(s.drop_last()), s.last(), k);
    }
}

proof fn lemma_dedup_query(s: Seq<HitView>, k: Seq<char>)
    requires
        all_of_query(s, k),
    ensures
        all_of_query(dedup_run(s), k),
    decreases s.len(),
{
    if s.len() > 1 {
        lemma_dedup_query(s.drop_last(), k);
        lemma_dedup_len(s.drop_last());
    }
}

/// Deduplication keeps a non-empty list of hits of one query non-empty and
/// of that query.
pub proof fn lemma_dedup_group_query(s: Seq<HitView>, k: Seq<char>)
    requires
        all_of_query(s, k),
        s.len() > 0,
    ensures
        all_of_query(dedup_group(s), k),
        dedup_group(s).len() > 0,
{
    lemma_sort_query(s, k);
    lemma_sort_sorted(s);
    lemma_dedup_query(sort_by_target(s), k);
    lemma_dedup_len(sort_by_target(s));
}

} // verus!
