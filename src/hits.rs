//! Hits of one domain-search table, grouped by the marker they matched.
use multimap::MultiMap;
use vstd::prelude::*;

use crate::decimal::{decimal_of, parse_decimal, Decimal};
use crate::groups::{best_hit, best_index, dedup_consecutive, dedup_group, sort_hits_by_target};

verus! {

/// Column of the target (protein) name in a domain table row.
pub const TARGET_NAME: usize = 0;

/// Column of the query (marker) name.
pub const QUERY_NAME: usize = 3;

/// Column of the full-sequence e-value.
pub const FS_EVALUE: usize = 6;

/// Column of the full-sequence score.
pub const FS_SCORE: usize = 7;

/// Column of the first aligned residue of the target.
pub const ALI_FROM: usize = 17;

/// Column of the last aligned residue of the target.
pub const ALI_TO: usize = 18;

/// The number of columns every row of a domain table has.
pub const N_COLUMNS: usize = 23;

/// One row of a domain table: the fields the pipeline reads, and the row as
/// it was split into fields.
#[derive(Clone, Debug)]
pub struct Hit {
    pub target: String,
    pub query: String,
    pub fs_evalue: Decimal,
    pub fs_score: Decimal,
    pub inner: Vec<String>,
}

pub struct HitView {
    pub target: Seq<char>,
    pub query: Seq<char>,
    pub fs_evalue: Decimal,
    pub fs_score: Decimal,
    pub inner: Seq<Seq<char>>,
}

impl View for Hit {
    type V = HitView;

    open spec fn view(&self) -> HitView {
        HitView {
            target: self.target@,
            query: self.query@,
            fs_evalue: self.fs_evalue,
            fs_score: self.fs_score,
            inner: self.inner.deep_view(),
        }
    }
}

/// Why a table could not be turned into hits.
#[derive(Clone, Debug)]
pub enum HitsError {
    /// A row has too few columns, or a score, e-value or aligned position
    /// that cannot be read.
    MalformedRecord,
    /// A marker of the data has no entry in the cutoff table.
    UnknownMarker(String),
}

/// The hit that the fields `f` of a row stand for, if they are a valid row.
pub open spec fn hit_of_fields(f: Seq<Seq<char>>) -> Option<HitView> {
    if f.len() >= N_COLUMNS {
        match (decimal_of(f[FS_EVALUE as int]), decimal_of(f[FS_SCORE as int])) {
            (Some(e), Some(s)) => Some(
                HitView {
                    target: f[TARGET_NAME as int],
                    query: f[QUERY_NAME as int],
                    fs_evalue: e,
                    fs_score: s,
                    inner: f,
                },
            ),
            _ => None,
        }
    } else {
        None
    }
}

impl Hit {
    /// Reads a hit from the fields of one row.
    pub fn new(spl: Vec<String>) -> (r: Result<Hit, HitsError>)
        ensures
            match hit_of_fields(spl.deep_view()) {
                Some(h) => r matches Ok(hit) && hit@ == h,
                None => r matches Err(HitsError::MalformedRecord),
            },
    {
        if spl.len() < N_COLUMNS {
            return Err(HitsError::MalformedRecord);
        }
        let e = parse_decimal(spl[FS_EVALUE].as_str());
        let s = parse_decimal(spl[FS_SCORE].as_str());
        match (e, s) {
            (Some(fs_evalue), Some(fs_score)) => {
                let target = spl[TARGET_NAME].clone();
                let query = spl[QUERY_NAME].clone();
                Ok(Hit { target, query, fs_evalue, fs_score, inner: spl })
            },
            _ => Err(HitsError::MalformedRecord),
        }
    }

    /// A copy of the hit.
    pub fn copy(&self) -> (r: Hit)
        ensures
            r@ == self@,
    {
        let inner = self.inner.clone();
        proof {
            assert(inner.deep_view() =~= self.inner.deep_view());
        }
        Hit {
            target: self.target.clone(),
            query: self.query.clone(),
            fs_evalue: self.fs_evalue,
            fs_score: self.fs_score,
            inner,
        }
    }
}

#[verifier::external_type_specification]
#[verifier::external_body]
#[verifier::reject_recursive_types(K)]
#[verifier::reject_recursive_types(V)]
#[verifier::reject_recursive_types(S)]
pub struct ExMultiMap<K, V, S>(MultiMap<K, V, S>);

/// What a multimap of hits holds: for each marker, its hits in the order
/// they went in.
pub uninterp spec fn marker_groups(m: MultiMap<String, Hit>) -> Map<Seq<char>, Seq<HitView>>;

pub open spec fn views(v: Seq<Hit>) -> Seq<HitView> {
    v.map_values(|h: Hit| h@)
}

pub open spec fn key_views(v: Seq<String>) -> Seq<Seq<char>> {
    v.map_values(|s: String| s@)
}

/// Relies on `MultiMap::new`: the map starts empty.
#[verifier::external_body]
pub(crate) fn groups_new() -> (r: MultiMap<String, Hit>)
    ensures
        marker_groups(r).dom() == Set::<Seq<char>>::empty(),
{
    MultiMap::new()
}

/// Relies on `MultiMap::insert`: the value is pushed onto its key's vector,
/// which is created where the key was absent. Keys are told apart by the
/// characters of the string, as `String`'s `Eq` and `Hash` do.
#[verifier::external_body]
pub(crate) fn groups_insert(m: &mut MultiMap<String, Hit>, k: String, v: Hit)
    ensures
        marker_groups(*final(m)) == (if marker_groups(*old(m)).contains_key(k@) {
            marker_groups(*old(m)).insert(k@, marker_groups(*old(m))[k@].push(v@))
        } else {
            marker_groups(*old(m)).insert(k@, seq![v@])
        }),
{
    m.insert(k, v)
}

/// Relies on `MultiMap::insert_many`: the values are appended to the key's
/// vector, which is created (even empty) where the key was absent.
#[verifier::external_body]
pub(crate) fn groups_insert_many(m: &mut MultiMap<String, Hit>, k: String, v: Vec<Hit>)
    ensures
        marker_groups(*final(m)) == (if marker_groups(*old(m)).contains_key(k@) {
            marker_groups(*old(m)).insert(k@, marker_groups(*old(m))[k@] + views(v@))
        } else {
            marker_groups(*old(m)).insert(k@, views(v@))
        }),
{
    m.insert_many(k, v)
}

/// Relies on `MultiMap::remove`: the key leaves the map, and its vector is
/// handed back.
#[verifier::external_body]
pub(crate) fn groups_remove(m: &mut MultiMap<String, Hit>, k: &str) -> (r: Option<Vec<Hit>>)
    ensures
        marker_groups(*final(m)) == marker_groups(*old(m)).remove(k@),
        match r {
            Some(v) => marker_groups(*old(m)).contains_key(k@) && views(v@) == marker_groups(
                *old(m),
            )[k@],
            None => !marker_groups(*old(m)).contains_key(k@),
        },
{
    m.remove(k)
}

/// Relies on `MultiMap::get_vec`: the vector of the key, where it is present.
#[verifier::external_body]
pub(crate) fn groups_get<'a>(m: &'a MultiMap<String, Hit>, k: &str) -> (r: Option<&'a Vec<Hit>>)
    ensures
        match r {
            Some(v) => marker_groups(*m).contains_key(k@) && views(v@) == marker_groups(*m)[k@],
            None => !marker_groups(*m).contains_key(k@),
        },
{
    m.get_vec(k)
}

/// Relies on `MultiMap::keys`: each key of the map once, in an order that
/// the map does not fix.
#[verifier::external_body]
pub(crate) fn groups_keys(m: &MultiMap<String, Hit>) -> (r: Vec<String>)
    ensures
        key_views(r@).to_set() == marker_groups(*m).dom(),
        key_views(r@).no_duplicates(),
{
    m.keys().cloned().collect()
}

/// Every marker has at least one hit, and every hit sits under its own
/// query.
pub open spec fn well_grouped(g: Map<Seq<char>, Seq<HitView>>) -> bool {
    &&& g.dom().finite()
    &&& forall|k: Seq<char>| #[trigger]
        g.contains_key(k) ==> g[k].len() > 0 && forall|i: int|
            0 <= i < g[k].len() ==> (#[trigger] g[k][i]).query == k
}

/// The list that best-hit reduction leaves of `s`: its first hit of
/// greatest score.
pub open spec fn best_group(s: Seq<HitView>) -> Seq<HitView> {
    seq![s[best_index(s)]]
}

/// The markers whose list holds more than one hit.
pub open spec fn duplicated_markers(g: Map<Seq<char>, Seq<HitView>>) -> Set<Seq<char>> {
    g.dom().filter(|k: Seq<char>| g[k].len() > 1)
}

/// How many markers of an index have more than one hit, out of how many.
#[derive(Clone, Copy, Debug)]
pub struct DuplicationRate {
    pub duplicated: usize,
    pub markers: usize,
}

/// The hits of one domain table, grouped by marker.
pub struct Hits {
    pub file_path: String,
    /// The number of hits over all markers.
    pub n_hits: usize,
    pub inner: MultiMap<String, Hit>,
}

pub proof fn lemma_push_contains<A>(s: Seq<A>, a: A, x: A)
    ensures
        s.push(a).contains(x) <==> (s.contains(x) || x == a),
{
    if s.push(a).contains(x) {
        let j = choose|j: int| 0 <= j < s.len() + 1 && s.push(a)[j] == x;
        if j < s.len() {
            assert(s[j] == x);
        }
    }
    if s.contains(x) {
        let j = choose|j: int| 0 <= j < s.len() && s[j] == x;
        assert(s.push(a)[j] == x);
    }
    if x == a {
        assert(s.push(a)[s.len() as int] == x);
    }
}

pub proof fn lemma_push_to_set<A>(s: Seq<A>, a: A)
    ensures
        s.push(a).to_set() == s.to_set().insert(a),
{
    assert forall|x: A| #[trigger] s.push(a).to_set().contains(x) <==> s.to_set().insert(a).contains(x) by {
        lemma_push_contains(s, a, x);
    }
    assert(s.push(a).to_set() =~= s.to_set().insert(a));
}

pub(crate) enum GroupRewrite {
    Dedup,
    Best,
}

pub(crate) open spec fn rewritten(op: GroupRewrite, s: Seq<HitView>) -> Seq<HitView> {
    match op {
        GroupRewrite::Dedup => dedup_group(s),
        GroupRewrite::Best => best_group(s),
    }
}

/// Rewrites the list of every marker of `m`.
pub(crate) fn rewrite_groups(m: &mut MultiMap<String, Hit>, op: GroupRewrite)
    requires
        op is Best ==> forall|k: Seq<char>| #[trigger]
            marker_groups(*old(m)).contains_key(k) ==> marker_groups(*old(m))[k].len() > 0,
    ensures
        marker_groups(*final(m)) == marker_groups(*old(m)).map_values(
            |s: Seq<HitView>| rewritten(op, s),
        ),
{
    let ghost g0 = marker_groups(*m);
    let keys = groups_keys(m);
    let ghost ks = key_views(keys@);
    let mut i: usize = 0;
    while i < keys.len()
        invariant
            ks == key_views(keys@),
            ks.to_set() == g0.dom(),
            ks.no_duplicates(),
            i <= keys.len(),
            op is Best ==> forall|k: Seq<char>| #[trigger] g0.contains_key(k) ==> g0[k].len() > 0,
            marker_groups(*m).dom() == g0.dom(),
            forall|k: Seq<char>| #[trigger]
                g0.contains_key(k) ==> marker_groups(*m)[k] == (if ks.take(i as int).contains(k) {
                    rewritten(op, g0[k])
                } else {
                    g0[k]
                }),
        decreases keys.len() - i,
    {
        let k = &keys[i];
        let ghost kv = k@;
        proof {
            assert(ks[i as int] == kv);
            assert(ks.to_set().contains(kv));
            assert(!ks.take(i as int).contains(kv)) by {
                if ks.take(i as int).contains(kv) {
                    let j = choose|j: int| 0 <= j < i && ks.take(i as int)[j] == kv;
                    assert(ks[j] == ks[i as int]);
                }
            }
            assert(ks.take(i + 1) =~= ks.take(i as int).push(kv));
            assert forall|x: Seq<char>| #[trigger] ks.take(i + 1).contains(x) <==> (ks.take(
                i as int,
            ).contains(x) || x == kv) by {
                lemma_push_contains(ks.take(i as int), kv, x);
            }
        }
        let v = match groups_remove(m, k.as_str()) {
            Some(v) => v,
            None => {
                proof {
                    assert(false);
                }
                Vec::new()
            },
        };
        let w = match op {
            GroupRewrite::Dedup => dedup_consecutive(&sort_hits_by_target(&v)),
            GroupRewrite::Best => {
                let b = best_hit(&v);
                let mut w: Vec<Hit> = Vec::new();
                w.push(b);
                proof {
                    assert(views(w@) =~= best_group(views(v@)));
                }
                w
            },
        };
        groups_insert_many(m, k.clone(), w);
        proof {
            assert(marker_groups(*m).dom() =~= g0.dom());
        }
        i = i + 1;
    }
    proof {
        assert(ks.take(i as int) =~= ks);
        assert forall|k: Seq<char>| #[trigger] g0.contains_key(k) implies ks.contains(k) by {
            assert(ks.to_set().contains(k));
        }
        assert(marker_groups(*m) =~= g0.map_values(|s: Seq<HitView>| rewritten(op, s)));
    }
}

/// Adds the number of hits of marker `k` of `g` to `acc`.
pub open spec fn add_group_len(g: Map<Seq<char>, Seq<HitView>>) -> spec_fn(int, Seq<char>) -> int {
    |acc: int, k: Seq<char>| acc + g[k].len()
}

/// The number of hits over all markers of `g`.
pub open spec fn total_hits(g: Map<Seq<char>, Seq<HitView>>) -> int {
    g.dom().fold(0, add_group_len(g))
}

/// `total_hits(g)`, or `usize::MAX` where it is larger.
pub open spec fn capped_total(g: Map<Seq<char>, Seq<HitView>>) -> int {
    if total_hits(g) <= usize::MAX {
        total_hits(g)
    } else {
        usize::MAX as int
    }
}

/// The number of hits over all markers of `m`, or `usize::MAX` where it is
/// larger.
fn count_hits(m: &MultiMap<String, Hit>) -> (r: usize)
    ensures
        r == capped_total(marker_groups(*m)),
{
    let ghost g = marker_groups(*m);
    let ghost f = add_group_len(g);
    let keys = groups_keys(m);
    let ghost ks = key_views(keys@);
    proof {
        lemma_keys_count(ks, g.dom());
        assert(vstd::set::fold::is_fun_commutative(f)) by {
            assert forall|a1: Seq<char>, a2: Seq<char>, b: int| #[trigger] f(f(b, a2), a1) == f(f(b, a1), a2) by {}
        }
        assert(ks.take(0).to_set() =~= Set::<Seq<char>>::empty());
        vstd::set::fold::lemma_fold_empty(0int, f);
    }
    let mut sum: usize = 0;
    let mut capped = false;
    let mut i: usize = 0;
    while i < keys.len()
        invariant
            ks == key_views(keys@),
            ks.to_set() == g.dom(),
            ks.no_duplicates(),
            g == marker_groups(*m),
            f == add_group_len(g),
            vstd::set::fold::is_fun_commutative(f),
            i <= keys.len(),
            ks.take(i as int).to_set().fold(0, f) >= 0,
            !capped ==> sum == ks.take(i as int).to_set().fold(0, f),
            capped ==> sum == usize::MAX && ks.take(i as int).to_set().fold(0, f) > usize::MAX,
        decreases keys.len() - i,
    {
        let ghost kv = ks[i as int];
        let ghost pre = ks.take(i as int).to_set();
        proof {
            assert(ks.take(i + 1) =~= ks.take(i as int).push(kv));
            lemma_push_to_set(ks.take(i as int), kv);
            assert(!ks.take(i as int).contains(kv)) by {
                if ks.take(i as int).contains(kv) {
                    let j = choose|j: int| 0 <= j < i && ks.take(i as int)[j] == kv;
                    assert(ks[j] == ks[i as int]);
                }
            }
            assert(!pre.contains(kv));
            vstd::set_lib::lemma_len_subset(pre, g.dom());
            assert(pre.subset_of(g.dom())) by {
                assert forall|x: Seq<char>| pre.contains(x) implies g.dom().contains(x) by {
                    let j = choose|j: int| 0 <= j < i && ks.take(i as int)[j] == x;
                    assert(ks[j] == x);
                    assert(ks.to_set().contains(x));
                }
            }
            vstd::set_lib::lemma_len_subset(pre, g.dom());
            vstd::set::fold::lemma_fold_insert(pre, 0int, f, kv);
            assert(ks.to_set().contains(kv));
        }
        let len = match groups_get(m, keys[i].as_str()) {
            Some(v) => v.len(),
            None => {
                proof {
                    assert(false);
                }
                0
            },
        };
        if !capped {
            if sum > usize::MAX - len {
                sum = usize::MAX;
                capped = true;
            } else {
                sum = sum + len;
            }
        }
        i = i + 1;
    }
    proof {
        assert(ks.take(i as int) =~= ks);
    }
    sum
}

proof fn lemma_keys_count(ks: Seq<Seq<char>>, d: Set<Seq<char>>)
    requires
        ks.to_set() == d,
        ks.no_duplicates(),
    ensures
        d.finite(),
        d.len() == ks.len(),
{
    ks.unique_seq_to_set();
}

impl Hits {
    /// The hits of the index, by marker.
    pub open spec fn groups(&self) -> Map<Seq<char>, Seq<HitView>> {
        marker_groups(self.inner)
    }

    pub open spec fn wf(&self) -> bool {
        &&& well_grouped(self.groups())
        &&& self.n_hits == capped_total(self.groups())
    }

    /// An index over the grouped hits `inner` of the table `file_path`.
    pub fn new(file_path: String, inner: MultiMap<String, Hit>) -> (r: Hits)
        requires
            well_grouped(marker_groups(inner)),
        ensures
            r.wf(),
            r.file_path == file_path,
            r.groups() == marker_groups(inner),
    {
        let n_hits = count_hits(&inner);
        Hits { file_path, n_hits, inner }
    }

    /// The hits of marker `key`, where it has any.
    pub fn hits_for(&self, key: &str) -> (r: Option<&Vec<Hit>>)
        ensures
            match r {
                Some(v) => self.groups().contains_key(key@) && views(v@) == self.groups()[key@],
                None => !self.groups().contains_key(key@),
            },
    {
        groups_get(&self.inner, key)
    }

    /// The markers of the index, each once, in no fixed order.
    pub fn markers(&self) -> (r: Vec<String>)
        ensures
            key_views(r@).to_set() == self.groups().dom(),
            key_views(r@).no_duplicates(),
    {
        groups_keys(&self.inner)
    }

    /// How many markers have more than one hit, out of all markers.
    pub fn perc_duplicated(&self) -> (r: DuplicationRate)
        requires
            self.wf(),
        ensures
            r.markers == self.groups().dom().len(),
            r.duplicated == duplicated_markers(self.groups()).len(),
    {
        let ghost g = self.groups();
        let keys = groups_keys(&self.inner);
        let ghost ks = key_views(keys@);
        proof {
            lemma_keys_count(ks, g.dom());
        }
        let mut count: usize = 0;
        let ghost mut seen: Set<Seq<char>> = Set::empty();
        let mut i: usize = 0;
        while i < keys.len()
            invariant
                ks == key_views(keys@),
                ks.to_set() == g.dom(),
                ks.no_duplicates(),
                g == self.groups(),
                i <= keys.len(),
                seen.finite(),
                count == seen.len(),
                count <= i,
                seen.subset_of(g.dom()),
                forall|x: Seq<char>| #[trigger]
                    seen.contains(x) <==> (ks.take(i as int).contains(x) && g[x].len() > 1),
            decreases keys.len() - i,
        {
            let ghost kv = ks[i as int];
            proof {
                assert(ks.to_set().contains(kv));
                assert(ks.take(i + 1) =~= ks.take(i as int).push(kv));
                assert(!ks.take(i as int).contains(kv)) by {
                    if ks.take(i as int).contains(kv) {
                        let j = choose|j: int| 0 <= j < i && ks.take(i as int)[j] == kv;
                        assert(ks[j] == ks[i as int]);
                    }
                }
                assert forall|x: Seq<char>| #[trigger] ks.take(i + 1).contains(x) <==> (ks.take(
                    i as int,
                ).contains(x) || x == kv) by {
                    lemma_push_contains(ks.take(i as int), kv, x);
                }
                vstd::set_lib::lemma_len_subset(seen, g.dom());
            }
            let v = match groups_get(&self.inner, keys[i].as_str()) {
                Some(v) => v,
                None => {
                    proof {
                        assert(false);
                    }
                    return DuplicationRate { duplicated: 0, markers: 0 };
                },
            };
            if v.len() > 1 {
                proof {
                    assert(views(v@).len() == v@.len());
                    seen = seen.insert(kv);
                }
                count = count + 1;
            } else {
                proof {
                    assert(views(v@).len() == v@.len());
                }
            }
            i = i + 1;
        }
        proof {
            assert(ks.take(i as int) =~= ks);
            assert forall|x: Seq<char>| #[trigger] g.contains_key(x) implies ks.contains(x) by {
                assert(ks.to_set().contains(x));
            }
            assert(seen =~= duplicated_markers(g));
        }
        DuplicationRate { duplicated: count, markers: keys.len() }
    }

    /// Keeps, for each marker, only its first hit of greatest score.
    pub fn best_filter(&mut self)
        requires
            old(self).wf(),
        ensures
            final(self).wf(),
            final(self).file_path == old(self).file_path,
            final(self).groups() == old(self).groups().map_values(|s: Seq<HitView>| best_group(s)),
    {
        let ghost g0 = self.groups();
        rewrite_groups(&mut self.inner, GroupRewrite::Best);
        self.n_hits = count_hits(&self.inner);
        proof {
            let g = self.groups();
            assert(g.dom() =~= g0.dom());
            assert forall|k: Seq<char>| #[trigger] g.contains_key(k) implies g[k].len() > 0
                && forall|i: int| 0 <= i < g[k].len() ==> (#[trigger] g[k][i]).query == k by {
                crate::groups::lemma_best_index(g0[k]);
                assert(g[k] == best_group(g0[k]));
                assert(g[k][0] == g0[k][best_index(g0[k])]);
            }
        }
    }
}

/// The duplication rate is zero exactly when no marker has more than one
/// hit; otherwise both counts are positive.
pub proof fn lemma_duplication_zero_iff_single(g: Map<Seq<char>, Seq<HitView>>)
    requires
        well_grouped(g),
    ensures
        duplicated_markers(g).len() == 0 <==> forall|k: Seq<char>| #[trigger]
            g.contains_key(k) ==> g[k].len() == 1,
        duplicated_markers(g).len() > 0 ==> g.dom().len() > 0,
{
    let d = duplicated_markers(g);
    vstd::set_lib::lemma_len_subset(d, g.dom());
    if d.len() == 0 {
        assert forall|k: Seq<char>| #[trigger] g.contains_key(k) implies g[k].len() == 1 by {
            if g[k].len() != 1 {
                assert(d.contains(k));
            }
        }
    } else {
        let k = d.choose();
        assert(d.contains(k));
    }
    if forall|k: Seq<char>| #[trigger] g.contains_key(k) ==> g[k].len() == 1 {
        assert(d =~= Set::empty());
    }
}

/// Best-hit reduction leaves exactly one hit of a non-empty list: one of
/// its hits, whose score no hit of the list exceeds.
pub proof fn lemma_best_group_is_maximum(s: Seq<HitView>)
    requires
        s.len() > 0,
    ensures
        best_group(s).len() == 1,
        s.contains(best_group(s)[0]),
        forall|j: int| 0 <= j < s.len() ==> (#[trigger] s[j]).fs_score.scaled() <= best_group(s)[0].fs_score.scaled(),
{
    crate::groups::lemma_best_index(s);
    assert(best_group(s)[0] == s[best_index(s)]);
}

/// Deduplicating every marker of an index twice gives what deduplicating
/// once gives.
pub proof fn lemma_dedup_index_idempotent(g: Map<Seq<char>, Seq<HitView>>)
    ensures
        g.map_values(|s: Seq<HitView>| dedup_group(s)).map_values(|s: Seq<HitView>| dedup_group(s))
            == g.map_values(|s: Seq<HitView>| dedup_group(s)),
{
    let once = g.map_values(|s: Seq<HitView>| dedup_group(s));
    let twice = once.map_values(|s: Seq<HitView>| dedup_group(s));
    assert forall|k: Seq<char>| #[trigger] twice.contains_key(k) implies twice[k] == once[k] by {
        crate::groups::lemma_dedup_idempotent(g[k]);
    }
    assert(twice =~= once);
}

} // verus!
