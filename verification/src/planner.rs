//! How a filtered search is carried out.
//!
//! Few matches are scanned; whether they are few is never decided from an
//! estimate but from an exact count. For many matches the graphs are searched
//! without the filter, for more results than asked, and the filter is applied
//! to those. Where nothing is known of the number of matches, the filter is
//! applied during the search.

use vstd::prelude::*;
use crate::catalog::{
    due, lemma_number_index_at, listed, names_apart, number_index, numbers_ok, posted, posts_view,
    valued, Catalog, Post, Records,
};
use crate::meta::{
    equalities, exact, field, passes, passes_id, Condition, Fields, Filter, Key, MetaKey,
    Predicate,
};
use crate::number::{self, number_at, spec_ordered_bits};
use crate::numeric::{
    enumeration_is_exact, estimate_brackets_truth, gathered, lemma_gathered_distinct, occurs,
    orderly, ordered, within, Numeric,
};
use crate::numerics::{self, functional, model, Model, Numerics};
use crate::posting::{ascending, copied, lemma_ascending_distinct, lemma_ascending_unique};
use crate::types::VectorId;

verus! {

/// The thresholds of the planner.
#[derive(Debug, Clone, Copy, PartialEq, Eq, Structural)]
pub struct PlannerConfig {
    /// Up to this many matches per result asked for are scanned.
    pub scan_factor: usize,
    /// Up to this share of all records is scanned: the bits of an `f64`.
    pub scan_fraction: u64,
    /// How many matches to expect per result asked for when fetching more than
    /// asked: the bits of an `f64`.
    pub overfetch_beta: u64,
    /// The search width stays below this multiple of the usual one.
    pub overfetch_cap_factor: usize,
}

/// The thresholds in use: 16, 0.05, 5.0 and 8.
pub open spec fn usual() -> PlannerConfig {
    PlannerConfig {
        scan_factor: 16,
        scan_fraction: 0x3fa9_9999_9999_999a,
        overfetch_beta: 0x4014_0000_0000_0000,
        overfetch_cap_factor: 8,
    }
}

impl Default for PlannerConfig {
    fn default() -> (c: Self)
        ensures
            c == usual(),
    {
        PlannerConfig {
            scan_factor: 16,
            scan_fraction: 0x3fa9_9999_9999_999a,
            overfetch_beta: 0x4014_0000_0000_0000,
            overfetch_cap_factor: 8,
        }
    }
}

/// The list holds the ids that are posted under the key of the field.
pub open spec fn lists(
    s: Seq<VectorId>,
    meta: Map<u64, Fields>,
    f: Seq<char>,
    key: Key,
) -> bool {
    ascending(s) && forall|id: VectorId| #[trigger] s.contains(id) <==> posted(meta, f, key, id)
}

/// The ids that are posted under the key of the field, ascending.
pub open spec fn matches_of(meta: Map<u64, Fields>, f: Seq<char>, key: Key) -> Seq<VectorId> {
    choose|s: Seq<VectorId>| lists(s, meta, f, key)
}

pub proof fn lemma_matches_of(s: Seq<VectorId>, meta: Map<u64, Fields>, f: Seq<char>, key: Key)
    requires
        lists(s, meta, f, key),
    ensures
        matches_of(meta, f, key) == s,
{
    let t = matches_of(meta, f, key);
    assert(lists(t, meta, f, key));
    assert forall|id: VectorId| #[trigger] s.contains(id) <==> t.contains(id) by {
        assert(t.contains(id) <==> posted(meta, f, key, id));
    }
    lemma_ascending_unique(s, t);
}

/// The shortest list among those of the equality conditions; the first one of
/// several.
pub open spec fn narrowest(meta: Map<u64, Fields>, eqs: Seq<(Seq<char>, Key)>) -> Option<
    Seq<VectorId>,
>
    decreases eqs.len(),
{
    if eqs.len() == 0 {
        None
    } else {
        let list = matches_of(meta, eqs.last().0, eqs.last().1);
        match narrowest(meta, eqs.drop_last()) {
            None => Some(list),
            Some(best) => if list.len() < best.len() {
                Some(list)
            } else {
                Some(best)
            },
        }
    }
}

/// How a filtered search is carried out.
pub enum Arm {
    /// A condition holds of no record.
    Empty,
    /// Scan these ids.
    Scan(Vec<VectorId>),
    /// Search without the filter; at most `upper` records match. Where too few
    /// results are left, scan the source.
    Post { upper: usize, fallback: FallbackSource },
    /// Filter during the search.
    Legacy,
}

/// Where every match can be found.
pub enum FallbackSource {
    Ids(Vec<VectorId>),
    Range { key: String, lo: u64, hi: u64 },
}

/// An [`Arm`] as a value.
pub ghost enum Plan {
    Empty,
    Scan(Seq<VectorId>),
    Post { upper: nat, fallback: Source },
    Legacy,
}

/// A [`FallbackSource`] as a value.
pub ghost enum Source {
    Ids(Seq<VectorId>),
    Range { key: Seq<char>, lo: u64, hi: u64 },
}

impl View for FallbackSource {
    type V = Source;

    open spec fn view(&self) -> Source {
        match self {
            FallbackSource::Ids(ids) => Source::Ids(ids@),
            FallbackSource::Range { key, lo, hi } => Source::Range { key: key@, lo: *lo, hi: *hi },
        }
    }
}

impl View for Arm {
    type V = Plan;

    open spec fn view(&self) -> Plan {
        match self {
            Arm::Empty => Plan::Empty,
            Arm::Scan(ids) => Plan::Scan(ids@),
            Arm::Post { upper, fallback } => Plan::Post {
                upper: *upper as nat,
                fallback: fallback@,
            },
            Arm::Legacy => Plan::Legacy,
        }
    }
}

impl Plan {
    pub open spec fn label(self) -> Seq<char> {
        match self {
            Plan::Empty => "empty"@,
            Plan::Scan(_) => "scan"@,
            Plan::Post { .. } => "post"@,
            Plan::Legacy => "legacy"@,
        }
    }
}

impl Arm {
    pub fn label(&self) -> (s: &'static str)
        ensures
            s@ == self@.label(),
    {
        match self {
            Arm::Empty => "empty",
            Arm::Scan(_) => "scan",
            Arm::Post { .. } => "post",
            Arm::Legacy => "legacy",
        }
    }
}

/// What is known after looking at some conditions: the smallest upper bound,
/// a small list of candidates, and the range with the smallest upper bound.
pub ghost struct Weighing {
    pub upper: Option<nat>,
    pub small: Option<Seq<VectorId>>,
    pub range: Option<(Seq<char>, u64, u64, nat)>,
}

/// A range condition on a field with a numeric index; nothing where it holds of
/// no record.
pub open spec fn weigh(
    w: Weighing,
    g: Model,
    n: Numeric,
    key: Seq<char>,
    min: u64,
    max: u64,
    limit: nat,
) -> Option<Weighing> {
    let (lower, upper) = n.estimated(g, min, max);
    let ids = gathered(n.entries, min, max);
    if upper == 0 {
        None
    } else {
        Some(
            Weighing {
                upper: if w.upper is None || upper < w.upper->0 {
                    Some(upper)
                } else {
                    w.upper
                },
                small: if w.small is None && lower <= limit && ids.len() <= limit {
                    Some(ids)
                } else {
                    w.small
                },
                range: if w.range is None || upper < (w.range->0).3 {
                    Some((key, min, max, upper))
                } else {
                    w.range
                },
            },
        )
    }
}

/// The first `i` conditions.
pub open spec fn weighed(
    r: Records,
    g: Model,
    f: Seq<Condition>,
    limit: nat,
    start: Weighing,
    i: int,
) -> Option<Weighing>
    decreases i,
{
    if i <= 0 {
        Some(start)
    } else {
        match weighed(r, g, f, limit, start, i - 1) {
            None => None,
            Some(w) => match f[i - 1] {
                Condition::Eq { .. } => Some(w),
                Condition::Range { key, min, max } => match number_index(r.numbers, key) {
                    None => Some(w),
                    Some(n) => weigh(w, g, n, key, min, max, limit),
                },
            },
        }
    }
}

/// Up to how many matches are scanned.
pub open spec fn scan_limit(g: Model, c: PlannerConfig, k: nat, n: usize) -> nat {
    let by_count = (c.scan_factor * k) as nat;
    let by_share = (g.share)(c.scan_fraction, n) as nat;
    if by_count >= by_share {
        by_count
    } else {
        by_share
    }
}

/// What the equality conditions give.
pub open spec fn opening(eq: Option<Seq<VectorId>>, limit: nat) -> Weighing {
    match eq {
        None => Weighing { upper: None, small: None, range: None },
        Some(ids) => Weighing {
            upper: Some(ids.len()),
            small: if ids.len() <= limit {
                Some(ids)
            } else {
                None
            },
            range: None,
        },
    }
}

pub open spec fn decided(eq: Option<Seq<VectorId>>, w: Weighing) -> Plan {
    match w.small {
        Some(ids) => Plan::Scan(ids),
        None => match w.upper {
            None => Plan::Legacy,
            Some(upper) => Plan::Post {
                upper,
                fallback: match eq {
                    Some(ids) => Source::Ids(ids),
                    None => {
                        let (key, lo, hi, _) = w.range->0;
                        Source::Range { key, lo, hi }
                    },
                },
            },
        },
    }
}

/// The plan for `k` results out of `n` records.
pub open spec fn planned(
    r: Records,
    g: Model,
    f: Seq<Condition>,
    c: PlannerConfig,
    k: nat,
    n: usize,
) -> Plan {
    let limit = scan_limit(g, c, k, n);
    let eq = narrowest(r.meta, equalities(f));
    if eq matches Some(ids) && ids.len() == 0 {
        Plan::Empty
    } else {
        match weighed(r, g, f, limit, opening(eq, limit), f.len() as int) {
            None => Plan::Empty,
            Some(w) => decided(eq, w),
        }
    }
}

impl Catalog {
    /// The list of a field and key; it is empty where there is none.
    fn list_of(&self, f: &str, key: &MetaKey, Ghost(g): Ghost<Model>) -> (r: Option<usize>)
        requires
            self.wf(g),
        ensures
            match r {
                Some(p) => p < self.postings@.len() && self.postings@[p as int].ids@ == matches_of(
                    self@.meta,
                    f@,
                    key@,
                ),
                None => matches_of(self@.meta, f@, key@) == Seq::<VectorId>::empty(),
            },
    {
        let ghost ps = posts_view(self.postings@);
        match self.find_posting(f, key) {
            Some(p) => {
                proof {
                    let s = ps[p as int].2;
                    assert(ascending(s));
                    assert forall|id: VectorId| #[trigger] s.contains(id) <==> posted(
                        self@.meta,
                        f@,
                        key@,
                        id,
                    ) by {
                        assert(ps[p as int].2.contains(id) <==> posted(
                            self@.meta,
                            ps[p as int].0,
                            ps[p as int].1,
                            id,
                        ));
                    }
                    lemma_matches_of(s, self@.meta, f@, key@);
                }
                Some(p)
            },
            None => {
                proof {
                    let s = Seq::<VectorId>::empty();
                    assert forall|id: VectorId| #[trigger] s.contains(id) <==> posted(
                        self@.meta,
                        f@,
                        key@,
                        id,
                    ) by {
                        if posted(self@.meta, f@, key@, id) {
                            assert(listed(ps, f@, key@));
                        }
                    }
                    lemma_matches_of(s, self@.meta, f@, key@);
                }
                None
            },
        }
    }

    /// An upper bound on the matches, from the equality conditions: the shortest
    /// of their lists. Nothing where there is no such condition.
    pub fn estimate<N: Numerics>(&self, num: &N, filter: &Filter) -> (r: Option<Vec<VectorId>>)
        requires
            functional(num),
            self.wf(model(num)),
        ensures
            match r {
                Some(ids) => narrowest(self@.meta, equalities(filter@)) == Some(ids@),
                None => narrowest(self@.meta, equalities(filter@)) is None,
            },
    {
        let keys: Vec<(&str, MetaKey)> = filter.eq_keys();
        let ghost eqs = equalities(filter@);
        let ghost view = crate::meta::keys_view(keys@);
        let mut best: Option<usize> = None;
        let mut i: usize = 0;
        while i < keys.len()
            invariant
                functional(num),
                self.wf(model(num)),
                i <= keys@.len(),
                view == crate::meta::keys_view(keys@),
                view == eqs,
                eqs == equalities(filter@),
                i == 0 <==> best is None,
                match best {
                    Some(p) => p < self.postings@.len() && narrowest(
                        self@.meta,
                        eqs.take(i as int),
                    ) == Some(self.postings@[p as int].ids@),
                    None => i == 0,
                },
            decreases keys@.len() - i,
        {
            proof {
                assert(eqs.take(i + 1).drop_last() =~= eqs.take(i as int));
                assert(eqs.take(i + 1).last() == eqs[i as int]);
                assert(view[i as int] == (keys@[i as int].0@, keys@[i as int].1@));
                if i == 0 {
                    assert(eqs.take(0).len() == 0);
                }
            }
            match self.list_of(keys[i].0, &keys[i].1, Ghost(model(num))) {
                None => {
                    proof {
                        lemma_narrowest_empty(self@.meta, eqs, i as int);
                    }
                    let nothing: Vec<VectorId> = Vec::new();
                    assert(nothing@ =~= Seq::empty());
                    return Some(nothing);
                },
                Some(p) => {
                    best = match best {
                        None => Some(p),
                        Some(q) => if self.postings[p].ids.len() < self.postings[q].ids.len() {
                            Some(p)
                        } else {
                            Some(q)
                        },
                    };
                },
            }
            i = i + 1;
        }
        assert(eqs.take(i as int) =~= eqs);
        match best {
            Some(p) => Some(copied(&self.postings[p].ids)),
            None => None,
        }
    }
}

/// A condition that nothing matches leaves nothing.
proof fn lemma_narrowest_empty(meta: Map<u64, Fields>, eqs: Seq<(Seq<char>, Key)>, i: int)
    requires
        0 <= i < eqs.len(),
        matches_of(meta, eqs[i].0, eqs[i].1).len() == 0,
    ensures
        narrowest(meta, eqs) == Some(Seq::<VectorId>::empty()),
    decreases eqs.len(),
{
    let t = eqs.drop_last();
    let list = matches_of(meta, eqs.last().0, eqs.last().1);
    if i == eqs.len() - 1 {
        assert(list =~= Seq::empty());
        match narrowest(meta, t) {
            Some(best) => {
                if best.len() == 0 {
                    assert(best =~= Seq::empty());
                }
            },
            None => {},
        }
    } else {
        assert(t[i] == eqs[i]);
        lemma_narrowest_empty(meta, t, i);
    }
}

impl Catalog {
    /// Decides how to carry out a filtered search for `k` results out of `n`
    /// records.
    pub fn plan<N: Numerics>(
        &self,
        num: &N,
        filter: &Filter,
        config: &PlannerConfig,
        k: usize,
        n: usize,
    ) -> (arm: Arm)
        requires
            functional(num),
            self.wf(model(num)),
            config.scan_factor * k <= usize::MAX,
        ensures
            arm@ == planned(self@, model(num), filter@, *config, k as nat, n),
    {
        let ghost g = model(num);
        let by_count: usize = config.scan_factor * k;
        let by_share: usize = numerics::share(num, config.scan_fraction, n);
        let limit: usize = if by_count >= by_share { by_count } else { by_share };
        let eq: Option<Vec<VectorId>> = self.estimate(num, filter);
        let ghost eqs = narrowest(self@.meta, equalities(filter@));
        let ghost start = opening(eqs, limit as nat);
        let mut upper: Option<usize> = None;
        let mut small: Option<Vec<VectorId>> = None;
        let mut range: Option<(usize, usize)> = None;
        if let Some(ids) = &eq {
            if ids.len() == 0 {
                return Arm::Empty;
            }
            upper = Some(ids.len());
            if ids.len() <= limit {
                small = Some(copied(ids));
            }
        }
        let mut i: usize = 0;
        while i < filter.must.len()
            invariant
                functional(num),
                g == model(num),
                self.wf(g),
                limit == scan_limit(g, *config, k as nat, n),
                i <= filter.must@.len(),
                weighed(self@, g, filter@, limit as nat, start, i as int) == Some(
                    weighing_view(upper, small, range, filter@),
                ),
                range matches Some((j, _)) ==> j < i && filter@[j as int] is Range,
                eqs == narrowest(self@.meta, equalities(filter@)),
                start == opening(eqs, limit as nat),
                !(eqs matches Some(ids) && ids.len() == 0),
                upper is Some && eqs is None ==> range is Some,
            decreases filter.must@.len() - i,
        {
            let ghost w = weighing_view(upper, small, range, filter@);
            if let Predicate::Range { key, min, max } = &filter.must[i] {
                assert(filter@[i as int] == (Condition::Range { key: key@, min: *min, max: *max }));
                if let Some(p) = self.find_number(key.as_str()) {
                    let fi = &self.numeric[p].1;
                    proof {
                        assert(self@.numbers[p as int].0 == key@);
                        assert(names_apart(self@.numbers));
                        lemma_number_index_at(self@.numbers, p as int);
                        assert(self.numeric@[p as int].1.wf(g));
                    }
                    let (lo, up) = fi.estimate(num, *min, *max);
                    if up == 0 {
                        proof {
                            lemma_weighed_none(
                                self@,
                                g,
                                filter@,
                                limit as nat,
                                start,
                                i + 1,
                                filter@.len() as int,
                            );
                        }
                        return Arm::Empty;
                    }
                    let better: bool = match upper {
                        None => true,
                        Some(u) => up < u,
                    };
                    if better {
                        upper = Some(up);
                    }
                    let closer: bool = match range {
                        None => true,
                        Some((_, u)) => up < u,
                    };
                    if closer {
                        range = Some((i, up));
                    }
                    if small.is_none() && lo <= limit {
                        small = fi.enumerate_up_to(*min, *max, limit);
                    }
                    assert(weighing_view(upper, small, range, filter@) == weigh(
                        w,
                        g,
                        fi@,
                        key@,
                        *min,
                        *max,
                        limit as nat,
                    )->0);
                } else {
                    assert(number_index(self@.numbers, key@) is None);
                }
            }
            i = i + 1;
        }
        if let Some(ids) = small {
            return Arm::Scan(ids);
        }
        match upper {
            None => Arm::Legacy,
            Some(upper) => {
                let fallback = match eq {
                    Some(ids) => FallbackSource::Ids(ids),
                    None => match range {
                        Some((j, _)) => match &filter.must[j] {
                            Predicate::Range { key, min, max } => FallbackSource::Range {
                                key: key.clone(),
                                lo: *min,
                                hi: *max,
                            },
                            Predicate::Eq { .. } => {
                                assert(filter@[j as int] is Range);
                                FallbackSource::Ids(Vec::new())
                            },
                        },
                        None => FallbackSource::Ids(Vec::new()),
                    },
                };
                Arm::Post { upper, fallback }
            },
        }
    }
}

/// What the loop over the conditions has gathered. The range is named by its
/// place.
spec fn weighing_view(
    upper: Option<usize>,
    small: Option<Vec<VectorId>>,
    range: Option<(usize, usize)>,
    f: Seq<Condition>,
) -> Weighing {
    Weighing {
        upper: match upper {
            Some(u) => Some(u as nat),
            None => None,
        },
        small: match small {
            Some(ids) => Some(ids@),
            None => None,
        },
        range: match range {
            Some((j, u)) => match f[j as int] {
                Condition::Range { key, min, max } => Some((key, min, max, u as nat)),
                Condition::Eq { .. } => None,
            },
            None => None,
        },
    }
}

proof fn lemma_weighed_none(
    r: Records,
    g: Model,
    f: Seq<Condition>,
    limit: nat,
    start: Weighing,
    i: int,
    j: int,
)
    requires
        0 < i <= j,
        weighed(r, g, f, limit, start, i) is None,
    ensures
        weighed(r, g, f, limit, start, j) is None,
    decreases j - i,
{
    if i < j {
        lemma_weighed_none(r, g, f, limit, start, i + 1, j);
    }
}

/// Every numeric index is in order and its bounds cover what it holds.
pub open spec fn sound_numbers(r: Records) -> bool {
    forall|p: int|
        0 <= p < r.numbers.len() ==> ordered((#[trigger] r.numbers[p]).1.entries)
            && r.numbers[p].1.covered()
}

/// The condition compares values that doubles hold exactly.
pub open spec fn exact_for(c: Condition, m: Fields) -> bool {
    match c {
        Condition::Eq { key, value } => exact(value) && (field(m, key) matches Some(x)
            ==> exact(x)),
        Condition::Range { .. } => true,
    }
}

/// Every id that could match is in the source.
pub open spec fn offers(r: Records, s: Source, id: VectorId) -> bool {
    match s {
        Source::Ids(ids) => ids.contains(id),
        Source::Range { key, lo, hi } => number_index(r.numbers, key) matches Some(n) && gathered(
            n.entries,
            lo,
            hi,
        ).contains(id),
    }
}

pub proof fn lemma_lists_exist(meta: Map<u64, Fields>, f: Seq<char>, key: Key)
    requires
        meta.dom().finite(),
    ensures
        lists(matches_of(meta, f, key), meta, f, key),
{
    let ids = meta.dom().filter(|x: u64| posted(meta, f, key, VectorId(x)));
    let s = crate::posting::lemma_list_of_set(ids);
    assert forall|id: VectorId| #[trigger] s.contains(id) <==> posted(meta, f, key, id) by {
        assert(s.contains(id) <==> ids.contains(id.0));
        assert(VectorId(id.0) == id);
    }
    assert(lists(s, meta, f, key));
}

proof fn lemma_equality_source(f: Seq<Condition>, j: int) -> (i: int)
    requires
        0 <= j < equalities(f).len(),
    ensures
        0 <= i < f.len(),
        f[i] matches Condition::Eq { key, value } && key == equalities(f)[j].0 && value.key()
            == equalities(f)[j].1,
    decreases f.len(),
{
    let t = f.drop_last();
    if j < equalities(t).len() {
        let i = lemma_equality_source(t, j);
        assert(f[i] == t[i]);
        i
    } else {
        f.len() - 1
    }
}

proof fn lemma_narrowest_offers(
    meta: Map<u64, Fields>,
    eqs: Seq<(Seq<char>, Key)>,
    id: VectorId,
)
    requires
        meta.dom().finite(),
        forall|j: int|
            0 <= j < eqs.len() ==> posted(meta, (#[trigger] eqs[j]).0, eqs[j].1, id),
    ensures
        narrowest(meta, eqs) matches Some(ids) ==> ids.contains(id),
    decreases eqs.len(),
{
    if eqs.len() > 0 {
        let t = eqs.drop_last();
        assert forall|j: int| 0 <= j < t.len() implies posted(
            meta,
            (#[trigger] t[j]).0,
            t[j].1,
            id,
        ) by {
            assert(t[j] == eqs[j]);
        }
        lemma_narrowest_offers(meta, t, id);
        let e = eqs.last();
        assert(e == eqs[eqs.len() - 1]);
        lemma_lists_exist(meta, e.0, e.1);
        assert(matches_of(meta, e.0, e.1).contains(id));
    }
}

/// What the conditions have left can be found where the weighing says.
spec fn weighing_offers(r: Records, w: Weighing, id: VectorId) -> bool {
    &&& w.small matches Some(ids) ==> ids.contains(id)
    &&& w.range matches Some((key, lo, hi, _)) ==> offers(r, Source::Range { key, lo, hi }, id)
}

proof fn lemma_weighed_offers(
    r: Records,
    g: Model,
    f: Seq<Condition>,
    limit: nat,
    start: Weighing,
    i: int,
    id: VectorId,
)
    requires
        orderly(g),
        numbers_ok(r.numbers, r.meta),
        sound_numbers(r),
        r.meta.contains_key(id.0),
        passes(f, r.meta[id.0]),
        0 <= i <= f.len(),
        weighing_offers(r, start, id),
    ensures
        weighed(r, g, f, limit, start, i) matches Some(w) && weighing_offers(r, w, id),
    decreases i,
{
    if i > 0 {
        lemma_weighed_offers(r, g, f, limit, start, i - 1, id);
        assert(f[i - 1].holds(r.meta[id.0]));
        match f[i - 1] {
            Condition::Eq { .. } => {},
            Condition::Range { key, min, max } => {
                match number_index(r.numbers, key) {
                    None => {},
                    Some(n) => {
                        let p = choose|p: int|
                            0 <= p < r.numbers.len() && (#[trigger] r.numbers[p]).0 == key;
                        assert(n == r.numbers[p].1);
                        let v = valued(r.meta, key, id)->0;
                        let k = spec_ordered_bits(v);
                        number::ordered_bits_are_monotone_and_invertible(v, v);
                        assert(occurs(r.numbers[p].1.entries, k, id) == 1);
                        assert(within(number_at(k), min, max));
                        enumeration_is_exact(n.entries, min, max, id);
                        assert(gathered(n.entries, min, max).contains(id));
                        estimate_brackets_truth(g, n, min, max);
                    },
                }
            },
        }
    }
}

/// No plan misses a match: a filter is taken to match nothing only where it
/// does, and the candidates of a scan, as well as those of the fallback,
/// include every record that passes.
///
/// Left out are comparisons of integers that doubles do not hold exactly.
pub proof fn plan_misses_no_match(
    r: Records,
    g: Model,
    f: Seq<Condition>,
    c: PlannerConfig,
    k: nat,
    n: usize,
    id: VectorId,
)
    requires
        orderly(g),
        r.meta.dom().finite(),
        numbers_ok(r.numbers, r.meta),
        sound_numbers(r),
        f.len() > 0,
        passes_id(f, r.meta, id),
        forall|i: int| 0 <= i < f.len() ==> exact_for(#[trigger] f[i], r.meta[id.0]),
    ensures
        match planned(r, g, f, c, k, n) {
            Plan::Empty => false,
            Plan::Scan(ids) => ids.contains(id),
            Plan::Post { fallback, .. } => offers(r, fallback, id),
            Plan::Legacy => true,
        },
{
    let m = r.meta[id.0];
    let eqs = equalities(f);
    assert forall|j: int| 0 <= j < eqs.len() implies posted(
        r.meta,
        (#[trigger] eqs[j]).0,
        eqs[j].1,
        id,
    ) by {
        let i = lemma_equality_source(f, j);
        assert(f[i].holds(m));
        assert(exact_for(f[i], m));
        match f[i] {
            Condition::Eq { key, value } => {
                let x = field(m, key)->0;
                crate::meta::equal_values_share_a_key(x, value);
            },
            Condition::Range { .. } => {},
        }
    }
    lemma_narrowest_offers(r.meta, eqs, id);
    let eq = narrowest(r.meta, eqs);
    let limit = scan_limit(g, c, k, n);
    lemma_weighed_offers(r, g, f, limit, opening(eq, limit), f.len() as int, id);
    lemma_range_named(r, g, f, limit, opening(eq, limit), f.len() as int);
}

/// An upper bound that does not come from equality conditions comes from a
/// range.
proof fn lemma_range_named(
    r: Records,
    g: Model,
    f: Seq<Condition>,
    limit: nat,
    start: Weighing,
    i: int,
)
    ensures
        weighed(r, g, f, limit, start, i) matches Some(w) ==> (start.upper is None && w.upper is Some
            && start.range is None ==> w.range is Some),
    decreases i,
{
    if i > 0 {
        lemma_range_named(r, g, f, limit, start, i - 1);
    }
}

/// A range on a field with a numeric index that holds of at most `limit`
/// records.
pub open spec fn small_range(r: Records, c: Condition, limit: nat) -> bool {
    c matches Condition::Range { key, min, max } && (number_index(r.numbers, key) matches Some(n)
        && gathered(n.entries, min, max).len() <= limit)
}

proof fn lemma_small(
    r: Records,
    g: Model,
    f: Seq<Condition>,
    limit: nat,
    start: Weighing,
    i: int,
)
    requires
        orderly(g),
        numbers_ok(r.numbers, r.meta),
        sound_numbers(r),
        0 <= i <= f.len(),
        start.small matches Some(ids) ==> ids.len() <= limit,
    ensures
        weighed(r, g, f, limit, start, i) matches Some(w) ==> {
            &&& w.small is Some <==> start.small is Some || exists|j: int|
                0 <= j < i && small_range(r, #[trigger] f[j], limit)
            &&& w.small matches Some(ids) ==> ids.len() <= limit
        },
    decreases i,
{
    if i > 0 {
        lemma_small(r, g, f, limit, start, i - 1);
        if let Condition::Range { key, min, max } = f[i - 1] {
            if let Some(n) = number_index(r.numbers, key) {
                let p = choose|p: int|
                    0 <= p < r.numbers.len() && (#[trigger] r.numbers[p]).0 == key;
                assert(n == r.numbers[p].1);
                estimate_brackets_truth(g, n, min, max);
            }
        }
        assert(exists|j: int| 0 <= j < i && small_range(r, #[trigger] f[j], limit) <==> (exists|
            j: int,
        |
            0 <= j < i - 1 && small_range(r, #[trigger] f[j], limit)) || small_range(
            r,
            f[i - 1],
            limit,
        ));
    }
}

/// Whether to scan is decided by exact counts, whatever the histograms estimate:
/// a scan is chosen where some condition holds of no more records than the
/// limit, and only there.
pub proof fn scan_is_chosen_by_exact_counts(
    r: Records,
    g: Model,
    f: Seq<Condition>,
    c: PlannerConfig,
    k: nat,
    n: usize,
)
    requires
        orderly(g),
        numbers_ok(r.numbers, r.meta),
        sound_numbers(r),
    ensures
        ({
            let limit = scan_limit(g, c, k, n);
            let plan = planned(r, g, f, c, k, n);
            &&& plan !is Empty ==> (plan is Scan <==> (narrowest(r.meta, equalities(f)) matches Some(
                ids,
            ) && ids.len() <= limit) || exists|i: int|
                0 <= i < f.len() && small_range(r, #[trigger] f[i], limit))
            &&& plan matches Plan::Scan(ids) ==> ids.len() <= limit
        }),
{
    let limit = scan_limit(g, c, k, n);
    let eq = narrowest(r.meta, equalities(f));
    lemma_small(r, g, f, limit, opening(eq, limit), f.len() as int);
}

/// The list that the equality conditions give names each id once.
proof fn lemma_narrowest_distinct(meta: Map<u64, Fields>, eqs: Seq<(Seq<char>, Key)>)
    requires
        meta.dom().finite(),
    ensures
        narrowest(meta, eqs) matches Some(ids) ==> ids.no_duplicates(),
    decreases eqs.len(),
{
    if eqs.len() > 0 {
        lemma_narrowest_distinct(meta, eqs.drop_last());
        let e = eqs.last();
        lemma_lists_exist(meta, e.0, e.1);
        lemma_ascending_distinct(matches_of(meta, e.0, e.1));
    }
}

/// What a numeric index enumerates names each id once.
pub proof fn lemma_range_distinct(r: Records, f: Seq<char>, lo: u64, hi: u64)
    requires
        numbers_ok(r.numbers, r.meta),
        sound_numbers(r),
    ensures
        number_index(r.numbers, f) matches Some(n) ==> gathered(n.entries, lo, hi).no_duplicates(),
{
    if let Some(n) = number_index(r.numbers, f) {
        let p = choose|p: int| 0 <= p < r.numbers.len() && (#[trigger] r.numbers[p]).0 == f;
        assert(r.numbers[p].1 == n);
        assert forall|key: u64, id: VectorId| #[trigger] occurs(n.entries, key, id) <= 1 by {
            assert(occurs(r.numbers[p].1.entries, key, id) == due(r.meta, f, key, id));
        }
        assert forall|a: u64, b: u64, id: VectorId| #[trigger]
            occurs(n.entries, a, id) > 0 && #[trigger] occurs(n.entries, b, id) > 0 implies a
            == b by {
            assert(occurs(r.numbers[p].1.entries, a, id) == due(r.meta, f, a, id));
            assert(occurs(r.numbers[p].1.entries, b, id) == due(r.meta, f, b, id));
        }
        lemma_gathered_distinct(n.entries, lo, hi);
    }
}

proof fn lemma_weighed_distinct(
    r: Records,
    g: Model,
    f: Seq<Condition>,
    limit: nat,
    start: Weighing,
    i: int,
)
    requires
        numbers_ok(r.numbers, r.meta),
        sound_numbers(r),
        i <= f.len(),
        start.small matches Some(ids) ==> ids.no_duplicates(),
    ensures
        weighed(r, g, f, limit, start, i) matches Some(w) ==> (w.small matches Some(ids)
            ==> ids.no_duplicates()),
    decreases i,
{
    if i > 0 {
        lemma_weighed_distinct(r, g, f, limit, start, i - 1);
        if let Condition::Range { key, min, max } = f[i - 1] {
            lemma_range_distinct(r, key, min, max);
        }
    }
}

/// The candidates of a plan name each id once.
pub proof fn lemma_plan_distinct(
    r: Records,
    g: Model,
    f: Seq<Condition>,
    c: PlannerConfig,
    k: nat,
    n: usize,
)
    requires
        r.meta.dom().finite(),
        numbers_ok(r.numbers, r.meta),
        sound_numbers(r),
    ensures
        match planned(r, g, f, c, k, n) {
            Plan::Scan(ids) => ids.no_duplicates(),
            Plan::Post { fallback: Source::Ids(ids), .. } => ids.no_duplicates(),
            _ => true,
        },
{
    let limit = scan_limit(g, c, k, n);
    let eq = narrowest(r.meta, equalities(f));
    lemma_narrowest_distinct(r.meta, equalities(f));
    lemma_weighed_distinct(r, g, f, limit, opening(eq, limit), f.len() as int);
}

} // verus!
