//! Aggregation of protein-domain search hits: each table of hits is grouped
//! by marker, filtered against per-marker score cutoffs, deduplicated, and
//! optionally reduced to each marker's best hit; markers are then gated by
//! how many tables found them.
pub mod alignment;
pub mod cutoffs;
pub mod decimal;
pub mod groups;
pub mod hits;
pub mod text;

use multimap::MultiMap;
use vstd::prelude::*;

use crate::alignment::{all_lengths_readable, calculate_aln_length, rows_cover, AlnLength};
use crate::cutoffs::{cutoff_in, CutoffTable};
use crate::text::{extension, extension_of, split_words, string_views, words};
use crate::decimal::{compare_fraction, count_scaled, dec_le, threshold_scaled, Decimal};
use crate::groups::{all_of_query, dedup_group, lemma_dedup_group_query};
use crate::hits::{
    groups_get, groups_insert, groups_insert_many, groups_keys, groups_new, hit_of_fields,
    well_grouped, key_views, lemma_push_contains,
    marker_groups, rewrite_groups, views, GroupRewrite, Hit, HitView, Hits, HitsError,
};

verus! {

/// Replaces each marker's hits by their deduplication: ordered by target,
/// with repeated records collapsed.
pub fn dedup_hits(hits: &mut MultiMap<String, Hit>)
    ensures
        marker_groups(*final(hits)) == marker_groups(*old(hits)).map_values(
            |s: Seq<HitView>| dedup_group(s),
        ),
{
    rewrite_groups(hits, GroupRewrite::Dedup);
}

/// The hits of `s` whose score reaches `c`, in their order.
pub open spec fn kept(s: Seq<HitView>, c: Decimal) -> Seq<HitView> {
    s.filter(|h: HitView| dec_le(c, h.fs_score))
}

/// Every marker of `g` has a cutoff in `es`.
pub open spec fn all_markers_known(
    g: Map<Seq<char>, Seq<HitView>>,
    es: Seq<(Seq<char>, Decimal)>,
) -> bool {
    forall|k: Seq<char>| #[trigger] g.contains_key(k) ==> cutoff_in(es, k) is Some
}

/// The hits of `g` that reach their marker's cutoff; markers left with no
/// hit are dropped.
pub open spec fn filtered(
    g: Map<Seq<char>, Seq<HitView>>,
    es: Seq<(Seq<char>, Decimal)>,
) -> Map<Seq<char>, Seq<HitView>> {
    Map::new(
        |k: Seq<char>| g.contains_key(k) && kept(g[k], cutoff_in(es, k)->0).len() > 0,
        |k: Seq<char>| kept(g[k], cutoff_in(es, k)->0),
    )
}

fn keep_reaching(v: &Vec<Hit>, c: &Decimal) -> (r: Vec<Hit>)
    ensures
        views(r@) == kept(views(v@), *c),
{
    let mut out: Vec<Hit> = Vec::new();
    let mut i: usize = 0;
    proof {
        reveal(Seq::filter);
        assert(views(v@).take(0) =~= Seq::<HitView>::empty());
        assert(views(out@) =~= Seq::<HitView>::empty());
    }
    while i < v.len()
        invariant
            i <= v.len(),
            views(out@) == kept(views(v@).take(i as int), *c),
        decreases v.len() - i,
    {
        proof {
            reveal(Seq::filter);
            assert(views(v@).take(i + 1).drop_last() =~= views(v@).take(i as int));
        }
        if !matches!(crate::decimal::compare(&v[i].fs_score, c), core::cmp::Ordering::Less) {
            let ghost before = views(out@);
            out.push(v[i].copy());
            proof {
                assert(views(out@) =~= before.push(v@[i as int]@));
            }
        }
        i = i + 1;
    }
    assert(views(v@).take(i as int) =~= views(v@));
    out
}

/// Keeps the hits whose score reaches their marker's cutoff.
/// Fails with `UnknownMarker` where a marker of `hits` has no cutoff.
pub fn filter_by_score(cutoffs: &CutoffTable, hits: MultiMap<String, Hit>) -> (r: Result<
    MultiMap<String, Hit>,
    HitsError,
>)
    ensures
        r is Ok <==> all_markers_known(marker_groups(hits), cutoffs.view_entries()),
        r matches Ok(m) ==> marker_groups(m) == filtered(
            marker_groups(hits),
            cutoffs.view_entries(),
        ),
        r matches Err(e) ==> (e matches HitsError::UnknownMarker(k) && marker_groups(
            hits,
        ).contains_key(k@) && cutoff_in(cutoffs.view_entries(), k@) is None),
{
    let ghost g = marker_groups(hits);
    let ghost es = cutoffs.view_entries();
    let keys = groups_keys(&hits);
    let ghost ks = key_views(keys@);
    let mut out = groups_new();
    let mut i: usize = 0;
    while i < keys.len()
        invariant
            ks == key_views(keys@),
            ks.to_set() == g.dom(),
            ks.no_duplicates(),
            g == marker_groups(hits),
            es == cutoffs.view_entries(),
            i <= keys.len(),
            forall|k: Seq<char>| #[trigger] ks.take(i as int).contains(k) ==> cutoff_in(es, k) is Some,
            forall|k: Seq<char>| #[trigger]
                marker_groups(out).contains_key(k) <==> (ks.take(i as int).contains(k)
                    && kept(g[k], cutoff_in(es, k)->0).len() > 0),
            forall|k: Seq<char>| #[trigger]
                marker_groups(out).contains_key(k) ==> marker_groups(out)[k] == kept(
                    g[k],
                    cutoff_in(es, k)->0,
                ),
        decreases keys.len() - i,
    {
        let k = &keys[i];
        let ghost kv = k@;
        proof {
            assert(ks[i as int] == kv);
            assert(ks.to_set().contains(kv));
            assert(!ks.take(i as int).contains(kv)) by {
                if ks.take(i as int).contains(kv) {
                    let j = choose|j: int| 0 <= j < i && ks.take(i as int)[j] == kv;
                    assert(ks[j] == ks[i as int]);
                }
            }
            assert(ks.take(i + 1) =~= ks.take(i as int).push(kv));
            assert forall|x: Seq<char>| #[trigger] ks.take(i + 1).contains(x) <==> (ks.take(
                i as int,
            ).contains(x) || x == kv) by {
                lemma_push_contains(ks.take(i as int), kv, x);
            }
        }
        let c = match cutoffs.get(k) {
            Some(c) => c,
            None => {
                return Err(HitsError::UnknownMarker(k.clone()));
            },
        };
        let v = match groups_get(&hits, k.as_str()) {
            Some(v) => v,
            None => {
                proof {
                    assert(false);
                }
                return Err(HitsError::UnknownMarker(k.clone()));
            },
        };
        let w = keep_reaching(v, &c);
        if w.len() > 0 {
            proof {
                assert(views(w@).len() == w@.len());
            }
            groups_insert_many(&mut out, k.clone(), w);
        } else {
            proof {
                assert(views(w@).len() == w@.len());
            }
        }
        i = i + 1;
    }
    proof {
        assert(ks.take(i as int) =~= ks);
        assert forall|k: Seq<char>| #[trigger] g.contains_key(k) implies ks.contains(k) by {
            assert(ks.to_set().contains(k));
        }
        assert forall|k: Seq<char>| #[trigger] ks.contains(k) implies g.contains_key(k) by {
            assert(ks.to_set().contains(k));
        }
        assert(marker_groups(out) =~= filtered(g, es));
    }
    Ok(out)
}

/// The number of indices among `all` that hold marker `k`.
pub open spec fn occupied_count(all: Seq<Hits>, k: Seq<char>) -> nat
    decreases all.len(),
{
    if all.len() == 0 {
        0
    } else {
        occupied_count(all.drop_last(), k) + if all.last().groups().contains_key(k) {
            1nat
        } else {
            0nat
        }
    }
}

/// Whether a fraction exactly at the threshold counts as enough.
#[derive(Clone, Copy, Debug)]
pub enum OccupancyBoundary {
    /// `count / total ≥ threshold` is enough.
    Inclusive,
    /// Only `count / total > threshold` is enough.
    Exclusive,
}

/// `count` out of `total` meets the threshold `p` under `boundary`
/// (compared without division, as `count` against `p × total`).
pub open spec fn occupancy_met(count: int, total: int, p: Decimal, boundary: OccupancyBoundary) -> bool {
    match boundary {
        OccupancyBoundary::Inclusive => threshold_scaled(total, p) <= count_scaled(count),
        OccupancyBoundary::Exclusive => threshold_scaled(total, p) < count_scaled(count),
    }
}

/// Whether `marker` is found in enough of the `n_taxa` tables: in a fraction
/// of them that meets `proportion` under `boundary`.
pub fn has_occupancy(
    marker: &str,
    all_hits: &Vec<Hits>,
    proportion: &Decimal,
    n_taxa: usize,
    boundary: OccupancyBoundary,
) -> (r: bool)
    ensures
        r == occupancy_met(occupied_count(all_hits@, marker@) as int, n_taxa as int, *proportion, boundary),
{
    let mut count: usize = 0;
    let mut i: usize = 0;
    while i < all_hits.len()
        invariant
            i <= all_hits.len(),
            count <= i,
            count == occupied_count(all_hits@.take(i as int), marker@),
        decreases all_hits.len() - i,
    {
        proof {
            assert(all_hits@.take(i + 1).drop_last() =~= all_hits@.take(i as int));
        }
        if all_hits[i].hits_for(marker).is_some() {
            count = count + 1;
        }
        i = i + 1;
    }
    assert(all_hits@.take(i as int) =~= all_hits@);
    let o = compare_fraction(count as u64, n_taxa as u64, proportion);
    match boundary {
        OccupancyBoundary::Inclusive => !matches!(o, core::cmp::Ordering::Less),
        OccupancyBoundary::Exclusive => matches!(o, core::cmp::Ordering::Greater),
    }
}

/// Whether `marker` is found in at least the fraction `proportion` of the
/// `n_taxa` tables; a fraction exactly at `proportion` is enough.
pub fn has_enough_occupants(
    marker: &str,
    all_hits: &Vec<Hits>,
    proportion: &Decimal,
    n_taxa: usize,
) -> (r: bool)
    ensures
        r == occupancy_met(
            occupied_count(all_hits@, marker@) as int,
            n_taxa as int,
            *proportion,
            OccupancyBoundary::Inclusive,
        ),
{
    has_occupancy(marker, all_hits, proportion, n_taxa, OccupancyBoundary::Inclusive)
}

/// Filtering keeps a hit exactly when its score reaches the cutoff.
pub proof fn lemma_kept_exactly(s: Seq<HitView>, c: Decimal)
    ensures
        forall|i: int| 0 <= i < kept(s, c).len() ==> dec_le(c, (#[trigger] kept(s, c)[i]).fs_score),
        forall|i: int| 0 <= i < s.len() && dec_le(c, s[i].fs_score) ==> kept(s, c).contains(#[trigger] s[i]),
{
    let p = |h: HitView| dec_le(c, h.fs_score);
    assert forall|i: int| 0 <= i < kept(s, c).len() implies dec_le(c, (#[trigger] kept(s, c)[i]).fs_score) by {
        s.lemma_filter_pred(p, i);
    }
    assert forall|i: int| 0 <= i < s.len() && dec_le(c, s[i].fs_score) implies kept(s, c).contains(#[trigger] s[i]) by {
        s.lemma_filter_contains(p, i);
    }
}

proof fn lemma_filter_query(s: Seq<HitView>, p: spec_fn(HitView) -> bool, k: Seq<char>)
    requires
        all_of_query(s, k),
    ensures
        all_of_query(s.filter(p), k),
    decreases s.len(),
{
    reveal(Seq::filter);
    if s.len() > 0 {
        lemma_filter_query(s.drop_last(), p, k);
    }
}

proof fn lemma_filtered_well_grouped(g: Map<Seq<char>, Seq<HitView>>, es: Seq<(Seq<char>, Decimal)>)
    requires
        well_grouped(g),
    ensures
        well_grouped(filtered(g, es)),
{
    let f = filtered(g, es);
    vstd::set_lib::lemma_len_subset(f.dom(), g.dom());
    assert forall|k: Seq<char>| #[trigger] f.contains_key(k) implies f[k].len() > 0 && forall|i: int|
        0 <= i < f[k].len() ==> (#[trigger] f[k][i]).query == k by {
        assert(all_of_query(g[k], k));
        lemma_filter_query(g[k], |h: HitView| dec_le(cutoff_in(es, k)->0, h.fs_score), k);
        assert(all_of_query(f[k], k));
    }
}

proof fn lemma_deduped_well_grouped(g: Map<Seq<char>, Seq<HitView>>)
    requires
        well_grouped(g),
    ensures
        well_grouped(g.map_values(|s: Seq<HitView>| dedup_group(s))),
{
    let d = g.map_values(|s: Seq<HitView>| dedup_group(s));
    assert(d.dom() =~= g.dom());
    assert forall|k: Seq<char>| #[trigger] d.contains_key(k) implies d[k].len() > 0 && forall|i: int|
        0 <= i < d[k].len() ==> (#[trigger] d[k][i]).query == k by {
        assert(all_of_query(g[k], k));
        lemma_dedup_group_query(g[k], k);
    }
}

/// `g` with hit `h` appended to the list of its query.
pub open spec fn add_hit(g: Map<Seq<char>, Seq<HitView>>, h: HitView) -> Map<Seq<char>, Seq<HitView>> {
    if g.contains_key(h.query) {
        g.insert(h.query, g[h.query].push(h))
    } else {
        g.insert(h.query, seq![h])
    }
}

/// A line whose first non-blank character is `#`.
pub open spec fn is_comment(w: Seq<Seq<char>>) -> bool {
    w.len() > 0 && w[0].len() > 0 && w[0][0] == '#'
}

/// The hits of the lines `ls`, grouped by marker in the order of the lines;
/// comment lines are skipped, and any other line that is not a valid row
/// makes the whole table invalid.
pub open spec fn index_lines(ls: Seq<Seq<char>>) -> Option<Map<Seq<char>, Seq<HitView>>>
    decreases ls.len(),
{
    if ls.len() == 0 {
        Some(Map::empty())
    } else {
        match index_lines(ls.drop_last()) {
            None => None,
            Some(g) => {
                let w = words(ls.last());
                if is_comment(w) {
                    Some(g)
                } else {
                    match hit_of_fields(w) {
                        Some(h) => Some(add_hit(g, h)),
                        None => None,
                    }
                }
            },
        }
    }
}

proof fn lemma_index_fail(ls: Seq<Seq<char>>, i: int)
    requires
        0 <= i <= ls.len(),
        index_lines(ls.take(i)) is None,
    ensures
        index_lines(ls) is None,
    decreases ls.len(),
{
    if i == ls.len() {
        assert(ls.take(i) =~= ls);
    } else {
        assert(ls.drop_last().take(i) =~= ls.take(i));
        lemma_index_fail(ls.drop_last(), i);
    }
}

proof fn lemma_add_hit_well_grouped(g: Map<Seq<char>, Seq<HitView>>, h: HitView)
    requires
        well_grouped(g),
    ensures
        well_grouped(add_hit(g, h)),
{
    let a = add_hit(g, h);
    assert forall|k: Seq<char>| #[trigger] a.contains_key(k) implies a[k].len() > 0 && forall|i: int|
        0 <= i < a[k].len() ==> (#[trigger] a[k][i]).query == k by {
        if k == h.query && g.contains_key(k) {
            assert forall|i: int| 0 <= i < a[k].len() implies (#[trigger] a[k][i]).query == k by {
                if i < g[k].len() {
                    assert(a[k][i] == g[k][i]);
                }
            }
        }
    }
}

fn starts_with_hash(w: &String) -> (r: bool)
    ensures
        r == (w@.len() > 0 && w@[0] == '#'),
{
    let cs = crate::text::chars_of(w.as_str());
    cs.len() > 0 && cs[0] == '#'
}

/// Reads one table of hits from its lines: groups the rows by marker,
/// keeps (when `busco_filter` is set) the hits that reach their marker's
/// cutoff, sums the aligned lengths per marker and target, and then
/// deduplicates each marker's hits.
pub fn parse_and_filter(
    file_path: String,
    lines: &Vec<String>,
    busco_filter: bool,
    cutoffs: &CutoffTable,
) -> (r: Result<(Hits, Vec<AlnLength>), HitsError>)
    ensures
        match index_lines(string_views(lines@)) {
            None => r matches Err(HitsError::MalformedRecord),
            Some(g) => if busco_filter && !all_markers_known(g, cutoffs.view_entries()) {
                r matches Err(HitsError::UnknownMarker(k)) && g.contains_key(k@) && cutoff_in(
                    cutoffs.view_entries(),
                    k@,
                ) is None
            } else {
                let f = if busco_filter {
                    filtered(g, cutoffs.view_entries())
                } else {
                    g
                };
                if !all_lengths_readable(f) {
                    r matches Err(HitsError::MalformedRecord)
                } else {
                    r matches Ok((h, rows)) && h.wf() && h.file_path == file_path && h.groups()
                        == f.map_values(|s: Seq<HitView>| dedup_group(s)) && rows_cover(
                        rows@,
                        f,
                        f.dom(),
                    )
                }
            },
        },
{
    let ghost ls = string_views(lines@);
    let mut m = groups_new();
    let mut i: usize = 0;
    proof {
        assert(ls.take(0) =~= Seq::<Seq<char>>::empty());
        assert(marker_groups(m) =~= Map::<Seq<char>, Seq<HitView>>::empty());
    }
    while i < lines.len()
        invariant
            ls == string_views(lines@),
            i <= lines.len(),
            index_lines(ls.take(i as int)) == Some(marker_groups(m)),
            well_grouped(marker_groups(m)),
        decreases lines.len() - i,
    {
        proof {
            assert(ls.take(i + 1).drop_last() =~= ls.take(i as int));
            assert(ls.take(i + 1).last() == lines@[i as int]@);
        }
        let w = split_words(lines[i].as_str());
        let ghost wv = string_views(w@);
        let comment = w.len() > 0 && starts_with_hash(&w[0]);
        proof {
            assert(wv.len() == w@.len());
            if w.len() > 0 {
                assert(wv[0] == w@[0]@);
            }
        }
        if !comment {
            proof {
                assert(w.deep_view() =~= wv);
            }
            let h = match Hit::new(w) {
                Ok(h) => h,
                Err(e) => {
                    proof {
                        lemma_index_fail(ls, i + 1);
                    }
                    return Err(e);
                },
            };
            proof {
                lemma_add_hit_well_grouped(marker_groups(m), h@);
            }
            groups_insert(&mut m, h.query.clone(), h);
        }
        i = i + 1;
    }
    proof {
        assert(ls.take(i as int) =~= ls);
    }
    let ghost g = marker_groups(m);
    if busco_filter {
        m = match filter_by_score(cutoffs, m) {
            Ok(f) => f,
            Err(e) => {
                return Err(e);
            },
        };
        proof {
            lemma_filtered_well_grouped(g, cutoffs.view_entries());
        }
    }
    let ghost g2 = marker_groups(m);
    let rows = match calculate_aln_length(&m) {
        Ok(rows) => rows,
        Err(e) => {
            return Err(e);
        },
    };
    dedup_hits(&mut m);
    proof {
        lemma_deduped_well_grouped(g2);
    }
    Ok((Hits::new(file_path, m), rows))
}

/// The entries of a directory listing that are files with extension `ext`.
pub open spec fn listed_files(entries: Seq<(Seq<char>, bool)>, ext: Seq<char>) -> Seq<Seq<char>>
    decreases entries.len(),
{
    if entries.len() == 0 {
        Seq::empty()
    } else {
        let rest = listed_files(entries.drop_last(), ext);
        let (p, is_dir) = entries.last();
        if !is_dir && extension_of(p) == Some(ext) {
            rest.push(p)
        } else {
            rest
        }
    }
}

pub open spec fn entry_views(v: Seq<(String, bool)>) -> Seq<(Seq<char>, bool)> {
    v.map_values(|e: (String, bool)| (e.0@, e.1))
}

/// Picks, from the entries of a directory (each a path and whether it is a
/// directory), the paths of the files whose extension is `ext`, in order.
pub fn file_list(entries: &Vec<(String, bool)>, ext: &str) -> (r: Vec<String>)
    ensures
        string_views(r@) == listed_files(entry_views(entries@), ext@),
{
    let want = ext.to_owned();
    let ghost es = entry_views(entries@);
    let mut out: Vec<String> = Vec::new();
    let mut i: usize = 0;
    assert(es.take(0) =~= Seq::<(Seq<char>, bool)>::empty());
    assert(string_views(out@) =~= Seq::<Seq<char>>::empty());
    while i < entries.len()
        invariant
            es == entry_views(entries@),
            want@ == ext@,
            i <= entries.len(),
            string_views(out@) == listed_files(es.take(i as int), ext@),
        decreases entries.len() - i,
    {
        proof {
            assert(es.take(i + 1).drop_last() =~= es.take(i as int));
        }
        let (path, is_dir) = (&entries[i].0, entries[i].1);
        if !is_dir {
            match extension(path.as_str()) {
                Some(e) => {
                    if e == want {
                        let ghost before = string_views(out@);
                        out.push(path.clone());
                        proof {
                            assert(string_views(out@) =~= before.push(path@));
                        }
                    }
                },
                None => {},
            }
        }
        i = i + 1;
    }
    assert(es.take(i as int) =~= es);
    out
}

} // verus!
