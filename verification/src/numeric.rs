//! The index of one numeric field: how many records a range can match, and
//! which ones.
//!
//! A histogram of 64 buckets of equal width answers with an interval: the
//! buckets that lie inside the range give the lower bound, those at its ends
//! are added for the upper one. Nothing is assumed of how values spread within
//! a bucket. A value-ordered list gives exact counts and the ids themselves.

use vstd::prelude::*;
use vstd::layout::size_of;
use crate::number::{
    self, is_nan, number_at, number_eq, number_le, signed_rank, spec_ordered_bits,
};
use crate::numerics::{self, functional, model, Model, Numerics};
use crate::types::VectorId;

verus! {

pub const BUCKETS: usize = 64;

/// The ids of each value, by ascending sort key of the value (see
/// [`number::ordered_bits`]).
pub type Entries = Seq<(u64, Seq<VectorId>)>;

/// Keys ascend, and no list is empty.
pub open spec fn ordered(e: Entries) -> bool {
    &&& forall|i: int, j: int| 0 <= i < j < e.len() ==> (#[trigger] e[i]).0 < (#[trigger] e[j]).0
    &&& forall|i: int| 0 <= i < e.len() ==> (#[trigger] e[i]).1.len() > 0
}

/// How many ids there are.
pub open spec fn total(e: Entries) -> nat
    decreases e.len(),
{
    if e.len() == 0 {
        0
    } else {
        e[0].1.len() + total(e.drop_first())
    }
}

/// How many times the id stands under the key.
pub open spec fn occurs(e: Entries, key: u64, id: VectorId) -> nat
    decreases e.len(),
{
    if e.len() == 0 {
        0
    } else if e[0].0 == key {
        e[0].1.to_multiset().count(id)
    } else {
        occurs(e.drop_first(), key, id)
    }
}

/// One more id under a key.
pub open spec fn with_entry(e: Entries, key: u64, id: VectorId) -> Entries
    decreases e.len(),
{
    if e.len() == 0 {
        seq![(key, seq![id])]
    } else if e[0].0 == key {
        seq![(key, e[0].1.push(id))] + e.drop_first()
    } else if e[0].0 < key {
        seq![e[0]] + with_entry(e.drop_first(), key, id)
    } else {
        seq![(key, seq![id])] + e
    }
}

/// The list without its first `id`, whose place the last element takes.
pub open spec fn cut(list: Seq<VectorId>, id: VectorId) -> Seq<VectorId> {
    match list.index_of_first(id) {
        Some(q) => list.update(q, list.last()).drop_last(),
        None => list,
    }
}

/// One id less under a key; a list that becomes empty goes.
pub open spec fn without_entry(e: Entries, key: u64, id: VectorId) -> Entries
    decreases e.len(),
{
    if e.len() == 0 {
        e
    } else if e[0].0 == key {
        let list = cut(e[0].1, id);
        if list.len() == 0 {
            e.drop_first()
        } else {
            seq![(key, list)] + e.drop_first()
        }
    } else {
        seq![e[0]] + without_entry(e.drop_first(), key, id)
    }
}

/// Is the number in the closed range?
pub open spec fn within(v: u64, qlo: u64, qhi: u64) -> bool {
    number_le(qlo, v) && number_le(v, qhi)
}

/// The ids of the values in a range, by ascending value.
pub open spec fn gathered(e: Entries, qlo: u64, qhi: u64) -> Seq<VectorId>
    decreases e.len(),
{
    if e.len() == 0 {
        Seq::empty()
    } else if within(number_at(e[0].0), qlo, qhi) {
        e[0].1 + gathered(e.drop_first(), qlo, qhi)
    } else {
        gathered(e.drop_first(), qlo, qhi)
    }
}

/// A numeric index as a value.
pub ghost struct Numeric {
    pub entries: Entries,
    pub lo: u64,
    pub hi: u64,
}

/// The larger of two numbers; the other one where one is not a number.
pub open spec fn larger(a: u64, b: u64) -> u64 {
    if is_nan(a) || (!is_nan(b) && signed_rank(a) < signed_rank(b)) {
        b
    } else {
        a
    }
}

/// The smaller of two numbers; the other one where one is not a number.
pub open spec fn smaller(a: u64, b: u64) -> u64 {
    if is_nan(a) || (!is_nan(b) && signed_rank(b) < signed_rank(a)) {
        b
    } else {
        a
    }
}

pub open spec fn number_lt(a: u64, b: u64) -> bool {
    number_le(a, b) && !number_eq(a, b)
}

/// How many ids fall into the buckets from `i` up to but not including `j`.
pub open spec fn span(g: Model, lo: u64, hi: u64, e: Entries, i: int, j: int) -> nat
    decreases e.len(),
{
    if e.len() == 0 {
        0
    } else {
        let rest = span(g, lo, hi, e.drop_first(), i, j);
        if i <= (g.bucket)(lo, hi, number_at(e[0].0)) < j {
            e[0].1.len() + rest
        } else {
            rest
        }
    }
}

impl Numeric {
    pub open spec fn empty() -> Numeric {
        Numeric {
            entries: Seq::empty(),
            lo: number::INFINITY_BITS,
            hi: (number::SIGN_BIT + number::INFINITY_BITS) as u64,
        }
    }

    pub open spec fn span(self, g: Model, i: int, j: int) -> nat {
        span(g, self.lo, self.hi, self.entries, i, j)
    }

    /// A value outside of the bounds widens them.
    pub open spec fn inserted(self, g: Model, v: u64, id: VectorId) -> Numeric {
        let entries = with_entry(self.entries, spec_ordered_bits(v), id);
        if number_lt(v, self.lo) || number_lt(self.hi, v) {
            let w = (g.widened)(self.lo, self.hi, v);
            Numeric { entries, lo: w.0, hi: w.1 }
        } else {
            Numeric { entries, ..self }
        }
    }

    pub open spec fn removed(self, v: u64, id: VectorId) -> Numeric {
        Numeric { entries: without_entry(self.entries, spec_ordered_bits(v), id), ..self }
    }

    /// The interval of how many ids a range can match.
    pub open spec fn estimated(self, g: Model, qlo: u64, qhi: u64) -> (nat, nat) {
        if total(self.entries) == 0 || !number_le(qlo, qhi) || number_lt(qhi, self.lo)
            || number_lt(self.hi, qlo) {
            (0, 0)
        } else {
            let first = (g.bucket)(self.lo, self.hi, larger(qlo, self.lo)) as int;
            let last = (g.bucket)(self.lo, self.hi, smaller(qhi, self.hi)) as int;
            if last <= first {
                (0, self.span(g, first, first + 1))
            } else {
                (self.span(g, first + 1, last), self.span(g, first, last + 1))
            }
        }
    }
}

proof fn lemma_span_split(g: Model, lo: u64, hi: u64, e: Entries, i: int, j: int, k: int)
    requires
        i <= j <= k,
    ensures
        span(g, lo, hi, e, i, j) + span(g, lo, hi, e, j, k) == span(g, lo, hi, e, i, k),
        span(g, lo, hi, e, i, k) <= total(e),
    decreases e.len(),
{
    if e.len() > 0 {
        lemma_span_split(g, lo, hi, e.drop_first(), i, j, k);
    }
}

proof fn lemma_with_entry_span(
    g: Model,
    lo: u64,
    hi: u64,
    e: Entries,
    key: u64,
    id: VectorId,
    i: int,
    j: int,
)
    ensures
        span(g, lo, hi, with_entry(e, key, id), i, j) == span(g, lo, hi, e, i, j) + (if i <= (
        g.bucket)(lo, hi, number_at(key)) < j {
            1int
        } else {
            0
        }),
        total(with_entry(e, key, id)) == total(e) + 1,
    decreases e.len(),
{
    let w = with_entry(e, key, id);
    if e.len() == 0 {
        assert(w.drop_first() =~= Seq::empty());
        assert(span(g, lo, hi, w.drop_first(), i, j) == 0);
        assert(total(w.drop_first()) == 0);
    } else if e[0].0 == key {
        assert(w.drop_first() =~= e.drop_first());
    } else if e[0].0 < key {
        assert(w.drop_first() =~= with_entry(e.drop_first(), key, id));
        lemma_with_entry_span(g, lo, hi, e.drop_first(), key, id, i, j);
    } else {
        assert(w.drop_first() =~= e);
    }
}

proof fn lemma_cut(list: Seq<VectorId>, id: VectorId)
    requires
        list.contains(id),
    ensures
        cut(list, id).len() == list.len() - 1,
        cut(list, id).to_multiset() =~= list.to_multiset().remove(id),
{
    broadcast use vstd::seq_lib::group_to_multiset_ensures;

    list.index_of_first_ensures(id);
    let q = list.index_of_first(id)->0;
    let n = list.len() - 1;
    let rest = list.drop_last();
    assert(list =~= rest.push(list.last()));
    if q == n {
        assert(cut(list, id) =~= list.remove(q));
    } else {
        assert(rest[q] == id);
        assert(cut(list, id) =~= rest.remove(q).insert(q, list.last()));
        vstd::seq_lib::to_multiset_insert(rest.remove(q), q, list.last());
        assert(rest.to_multiset().contains(id));
        assert(rest.to_multiset().remove(id).insert(list.last()) =~= rest.to_multiset().insert(
            list.last(),
        ).remove(id));
    }
}

proof fn lemma_without_entry_span(
    g: Model,
    lo: u64,
    hi: u64,
    e: Entries,
    key: u64,
    id: VectorId,
    i: int,
    j: int,
)
    requires
        occurs(e, key, id) > 0,
    ensures
        span(g, lo, hi, without_entry(e, key, id), i, j) == span(g, lo, hi, e, i, j) - (if i <= (
        g.bucket)(lo, hi, number_at(key)) < j {
            1int
        } else {
            0
        }),
        total(without_entry(e, key, id)) == total(e) - 1,
    decreases e.len(),
{
    broadcast use vstd::seq_lib::group_to_multiset_ensures;

    let w = without_entry(e, key, id);
    if e.len() > 0 {
        if e[0].0 == key {
            lemma_cut(e[0].1, id);
            if cut(e[0].1, id).len() > 0 {
                assert(w.drop_first() =~= e.drop_first());
            }
        } else {
            assert(w.drop_first() =~= without_entry(e.drop_first(), key, id));
            lemma_without_entry_span(g, lo, hi, e.drop_first(), key, id, i, j);
        }
    }
}

proof fn lemma_tail_ordered(e: Entries)
    requires
        ordered(e),
        e.len() > 0,
    ensures
        ordered(e.drop_first()),
        forall|j: int| 0 <= j < e.drop_first().len() ==> e[0].0 < (#[trigger] e.drop_first()[j]).0,
{
    let t = e.drop_first();
    assert forall|i: int, j: int| 0 <= i < j < t.len() implies (#[trigger] t[i]).0 < (
    #[trigger] t[j]).0 by {
        assert(t[i] == e[i + 1] && t[j] == e[j + 1]);
    }
    assert forall|i: int| 0 <= i < t.len() implies (#[trigger] t[i]).1.len() > 0 && e[0].0
        < t[i].0 by {
        assert(t[i] == e[i + 1]);
    }
}

/// Where the key belongs: behind every smaller key.
pub open spec fn place_of(e: Entries, key: u64, p: int) -> bool {
    &&& 0 <= p <= e.len()
    &&& forall|i: int| 0 <= i < p ==> (#[trigger] e[i]).0 < key
    &&& forall|i: int| p <= i < e.len() ==> (#[trigger] e[i]).0 >= key
}

proof fn lemma_place(e: Entries, key: u64, id: VectorId, p: int)
    requires
        ordered(e),
        place_of(e, key, p),
    ensures
        with_entry(e, key, id) == (if p < e.len() && e[p].0 == key {
            e.update(p, (key, e[p].1.push(id)))
        } else {
            e.insert(p, (key, seq![id]))
        }),
        without_entry(e, key, id) == (if p < e.len() && e[p].0 == key {
            let list = cut(e[p].1, id);
            if list.len() == 0 {
                e.remove(p)
            } else {
                e.update(p, (key, list))
            }
        } else {
            e
        }),
        occurs(e, key, id) == (if p < e.len() && e[p].0 == key {
            e[p].1.to_multiset().count(id)
        } else {
            0
        }),
    decreases e.len(),
{
    if e.len() == 0 {
        assert(e.insert(p, (key, seq![id])) =~= seq![(key, seq![id])]);
    } else {
        let t = e.drop_first();
        lemma_tail_ordered(e);
        if p == 0 {
            if e[0].0 == key {
                assert(e.update(0, (key, e[0].1.push(id))) =~= seq![(key, e[0].1.push(id))] + t);
                assert(e.remove(0) =~= t);
                assert(e.update(0, (key, cut(e[0].1, id))) =~= seq![(key, cut(e[0].1, id))] + t);
            } else {
                assert(e.insert(0, (key, seq![id])) =~= seq![(key, seq![id])] + e);
                assert(place_of(t, key, 0)) by {
                    assert forall|i: int| 0 <= i < t.len() implies (#[trigger] t[i]).0 >= key by {
                        assert(t[i] == e[i + 1]);
                    }
                }
                lemma_place(t, key, id, 0);
                if t.len() > 0 {
                    assert(t[0] == e[1]);
                    assert(e[0].0 < e[1].0);
                }
                assert(seq![e[0]] + t =~= e);
            }
        } else {
            assert(e[0].0 < key);
            assert(place_of(t, key, p - 1)) by {
                assert forall|i: int| 0 <= i < p - 1 implies (#[trigger] t[i]).0 < key by {
                    assert(t[i] == e[i + 1]);
                }
                assert forall|i: int| p - 1 <= i < t.len() implies (#[trigger] t[i]).0 >= key by {
                    assert(t[i] == e[i + 1]);
                }
            }
            lemma_place(t, key, id, p - 1);
            if p < e.len() {
                assert(t[p - 1] == e[p]);
                assert(seq![e[0]] + t.update(p - 1, (key, e[p].1.push(id))) =~= e.update(
                    p,
                    (key, e[p].1.push(id)),
                ));
                assert(seq![e[0]] + t.update(p - 1, (key, cut(e[p].1, id))) =~= e.update(
                    p,
                    (key, cut(e[p].1, id)),
                ));
                assert(seq![e[0]] + t.remove(p - 1) =~= e.remove(p));
            }
            assert(seq![e[0]] + t.insert(p - 1, (key, seq![id])) =~= e.insert(
                p,
                (key, seq![id]),
            ));
            assert(seq![e[0]] + t =~= e);
        }
    }
}

/// The index of one numeric field.
#[derive(Debug)]
pub struct NumericFieldIndex {
    /// Sort key of a value, and the ids with that value.
    pub sorted: Vec<(u64, Vec<VectorId>)>,
    pub total: usize,
    /// The bounds of the histogram, as bits of an `f64`. They only ever widen.
    pub lo: u64,
    pub hi: u64,
    pub hist: Vec<usize>,
}

pub open spec fn sorted_view(sorted: Seq<(u64, Vec<VectorId>)>) -> Entries {
    Seq::new(sorted.len(), |i: int| (sorted[i].0, sorted[i].1@))
}

impl View for NumericFieldIndex {
    type V = Numeric;

    open spec fn view(&self) -> Numeric {
        Numeric { entries: sorted_view(self.sorted@), lo: self.lo, hi: self.hi }
    }
}

fn max_number(a: u64, b: u64) -> (r: u64)
    ensures
        r == larger(a, b),
{
    if number::nan(a) || number::lt(a, b) {
        b
    } else {
        a
    }
}

fn min_number(a: u64, b: u64) -> (r: u64)
    ensures
        r == smaller(a, b),
{
    if number::nan(a) || number::lt(b, a) {
        b
    } else {
        a
    }
}

/// What one value costs beside its ids: its share of a node, and the key.
pub const ENTRY_OVERHEAD: usize = 48;

/// What an index with so many values and ids costs, in bytes.
pub open spec fn cost(values: nat, ids: nat, buckets: nat) -> nat {
    values * ENTRY_OVERHEAD as nat + values * size_of::<Vec<VectorId>>() + ids * size_of::<
        VectorId,
    >() + buckets * 8
}

impl NumericFieldIndex {
    /// The order of the list, and a histogram that counts what the list holds.
    pub open spec fn wf(&self, g: Model) -> bool {
        &&& ordered(self@.entries)
        &&& self.total == total(self@.entries)
        &&& self.hist@.len() == BUCKETS
        &&& forall|b: int|
            0 <= b < BUCKETS ==> #[trigger] self.hist@[b] == self@.span(g, b, b + 1)
    }

    pub fn new<N: Numerics>(num: &N) -> (r: Self)
        requires
            functional(num),
        ensures
            r.wf(model(num)),
            r@ == Numeric::empty(),
    {
        let mut hist: Vec<usize> = Vec::with_capacity(BUCKETS);
        while hist.len() < BUCKETS
            invariant
                hist@.len() <= BUCKETS,
                forall|b: int| 0 <= b < hist@.len() ==> #[trigger] hist@[b] == 0,
            decreases BUCKETS - hist@.len(),
        {
            hist.push(0);
        }
        let r = NumericFieldIndex {
            sorted: Vec::new(),
            total: 0,
            lo: number::INFINITY_BITS,
            hi: number::SIGN_BIT + number::INFINITY_BITS,
            hist,
        };
        assert(r@.entries =~= Numeric::empty().entries);
        r
    }

    /// How many keys are smaller.
    fn place(&self, key: u64) -> (p: usize)
        requires
            ordered(self@.entries),
        ensures
            place_of(self@.entries, key, p as int),
    {
        let ghost e = self@.entries;
        let mut lo: usize = 0;
        let mut hi: usize = self.sorted.len();
        while lo < hi
            invariant
                e == self@.entries,
                ordered(e),
                lo <= hi <= self.sorted@.len(),
                forall|i: int| 0 <= i < lo ==> (#[trigger] e[i]).0 < key,
                forall|i: int| hi <= i < e.len() ==> (#[trigger] e[i]).0 >= key,
            decreases hi - lo,
        {
            let mid: usize = lo + (hi - lo) / 2;
            assert(e[mid as int].0 == self.sorted@[mid as int].0);
            if self.sorted[mid].0 < key {
                assert forall|i: int| 0 <= i < mid + 1 implies (#[trigger] e[i]).0 < key by {
                    if i < mid {
                        assert(e[i].0 < e[mid as int].0);
                    }
                }
                lo = mid + 1;
            } else {
                assert forall|i: int| mid <= i < e.len() implies (#[trigger] e[i]).0 >= key by {
                    if mid < i {
                        assert(e[mid as int].0 < e[i].0);
                    }
                }
                hi = mid;
            }
        }
        lo
    }

    /// Enters an id under a value.
    pub fn insert<N: Numerics>(&mut self, num: &N, v: u64, id: VectorId)
        requires
            functional(num),
            old(self).wf(model(num)),
            old(self).total < usize::MAX,
        ensures
            final(self).wf(model(num)),
            final(self)@ == old(self)@.inserted(model(num), v, id),
    {
        let ghost g = model(num);
        let ghost before = self@;
        let ghost e = self@.entries;
        let key: u64 = number::ordered_bits(v);
        let p: usize = self.place(key);
        proof {
            lemma_place(e, key, id, p as int);
            number::ordered_bits_are_monotone_and_invertible(v, v);
            assert forall|b: int| 0 <= b < BUCKETS implies #[trigger] span(
                g,
                self.lo,
                self.hi,
                with_entry(e, key, id),
                b,
                b + 1,
            ) == self.hist@[b] + (if (g.bucket)(self.lo, self.hi, v) == b {
                1int
            } else {
                0
            }) by {
                lemma_with_entry_span(g, self.lo, self.hi, e, key, id, b, b + 1);
            }
            lemma_with_entry_span(g, self.lo, self.hi, e, key, id, 0, 1);
            lemma_with_entry_ordered(e, key, id, p as int);
        }
        if p < self.sorted.len() && self.sorted[p].0 == key {
            self.sorted[p].1.push(id);
            assert(self@.entries =~= e.update(p as int, (key, e[p as int].1.push(id))));
        } else {
            let mut list: Vec<VectorId> = Vec::new();
            list.push(id);
            self.sorted.insert(p, (key, list));
            assert(list@ =~= seq![id]);
            assert(self@.entries =~= e.insert(p as int, (key, seq![id])));
        }
        self.total = self.total + 1;
        if number::lt(v, self.lo) || number::lt(self.hi, v) {
            let w: (u64, u64) = numerics::widened(num, self.lo, self.hi, v);
            self.lo = w.0;
            self.hi = w.1;
            self.rebuild_hist(num);
        } else {
            let b: usize = numerics::bucket(num, self.lo, self.hi, v);
            proof {
                let grown = self@.entries;
                lemma_span_split(g, self.lo, self.hi, grown, b as int, b + 1, b + 1);
            }
            self.hist[b] = self.hist[b] + 1;
        }
    }

    /// Counts the histogram anew from the list.
    fn rebuild_hist<N: Numerics>(&mut self, num: &N)
        requires
            functional(num),
            ordered(old(self)@.entries),
            old(self).total == total(old(self)@.entries),
            old(self).hist@.len() == BUCKETS,
        ensures
            final(self).wf(model(num)),
            final(self)@ == old(self)@,
    {
        let ghost g = model(num);
        let ghost e = self@.entries;
        let ghost n = e.len() as int;
        let mut b: usize = 0;
        while b < BUCKETS
            invariant
                b <= BUCKETS == self.hist@.len(),
                self@ == old(self)@,
                self.total == old(self).total,
                self.sorted@ == old(self).sorted@,
                forall|c: int| 0 <= c < b ==> #[trigger] self.hist@[c] == 0,
            decreases BUCKETS - b,
        {
            self.hist[b] = 0;
            b = b + 1;
        }
        let mut i: usize = self.sorted.len();
        assert(e.skip(n) =~= Seq::empty());
        while i > 0
            invariant
                functional(num),
                g == model(num),
                i <= self.sorted@.len(),
                self.hist@.len() == BUCKETS,
                self@ == old(self)@,
                e == self@.entries,
                self.total == old(self).total,
                self.total == total(e),
                self.sorted@ == old(self).sorted@,
                forall|c: int|
                    0 <= c < BUCKETS ==> #[trigger] self.hist@[c] == span(
                        g,
                        self.lo,
                        self.hi,
                        e.skip(i as int),
                        c,
                        c + 1,
                    ),
            decreases i,
        {
            let ghost rest = e.skip(i as int);
            i = i - 1;
            let v: u64 = number::from_ordered_bits(self.sorted[i].0);
            let c: usize = numerics::bucket(num, self.lo, self.hi, v);
            let m: usize = self.sorted[i].1.len();
            proof {
                assert(e.skip(i as int).drop_first() =~= rest);
                assert(e.skip(i as int)[0] == e[i as int]);
                assert(e[i as int] == (self.sorted@[i as int].0, self.sorted@[i as int].1@));
                lemma_span_split(g, self.lo, self.hi, e.skip(i as int), c as int, c + 1, c + 1);
                lemma_total_skip(e, i as int);
            }
            self.hist[c] = self.hist[c] + m;
        }
        assert(e.skip(0) =~= e);
    }

    /// Takes an id away from under a value, where it stands there.
    pub fn remove<N: Numerics>(&mut self, num: &N, v: u64, id: VectorId)
        requires
            functional(num),
            old(self).wf(model(num)),
        ensures
            final(self).wf(model(num)),
            final(self)@ == old(self)@.removed(v, id),
    {
        let ghost g = model(num);
        let ghost e = self@.entries;
        let key: u64 = number::ordered_bits(v);
        let p: usize = self.place(key);
        proof {
            lemma_place(e, key, id, p as int);
            number::ordered_bits_are_monotone_and_invertible(v, v);
        }
        if !(p < self.sorted.len() && self.sorted[p].0 == key) {
            return;
        }
        let ghost list = e[p as int].1;
        proof {
            broadcast use vstd::seq_lib::group_to_multiset_ensures;

            list.index_of_first_ensures(id);
        }
        let mut q: usize = 0;
        while q < self.sorted[p].1.len() && self.sorted[p].1[q].0 != id.0
            invariant
                *self == *old(self),
                p < self.sorted@.len(),
                list == self.sorted@[p as int].1@,
                q <= list.len(),
                forall|j: int| 0 <= j < q ==> (#[trigger] list[j]) != id,
            decreases list.len() - q,
        {
            q = q + 1;
        }
        if q == self.sorted[p].1.len() {
            assert(!list.contains(id));
            assert(e.update(p as int, (key, list)) =~= e);
            return;
        }
        proof {
            assert(list[q as int] == id);
            assert(list.index_of_first(id) == Some(q as int)) by {
                let first = list.index_of_first(id)->0;
                if first < q {
                    assert(list[first] != id);
                }
            }
            lemma_cut(list, id);
            assert forall|b: int| 0 <= b < BUCKETS implies #[trigger] span(
                g,
                self.lo,
                self.hi,
                without_entry(e, key, id),
                b,
                b + 1,
            ) == self.hist@[b] - (if (g.bucket)(self.lo, self.hi, v) == b {
                1int
            } else {
                0
            }) by {
                lemma_without_entry_span(g, self.lo, self.hi, e, key, id, b, b + 1);
            }
            lemma_without_entry_span(g, self.lo, self.hi, e, key, id, 0, 1);
            lemma_without_entry_ordered(e, key, id, p as int);
        }
        self.sorted[p].1.swap_remove(q);
        if self.sorted[p].1.len() == 0 {
            self.sorted.remove(p);
            assert(self@.entries =~= e.remove(p as int));
        } else {
            assert(self@.entries =~= e.update(p as int, (key, cut(list, id))));
        }
        self.total = self.total - 1;
        let b: usize = numerics::bucket(num, self.lo, self.hi, v);
        assert(span(g, self.lo, self.hi, without_entry(e, key, id), b as int, b + 1)
            == self.hist@[b as int] - 1);
        self.hist[b] = self.hist[b].saturating_sub(1);
    }

    /// How many ids a closed range can match: a lower and an upper bound.
    pub fn estimate<N: Numerics>(&self, num: &N, qlo: u64, qhi: u64) -> (r: (usize, usize))
        requires
            functional(num),
            self.wf(model(num)),
        ensures
            (r.0 as nat, r.1 as nat) == self@.estimated(model(num), qlo, qhi),
    {
        if self.total == 0 || !number::le(qlo, qhi) || number::lt(qhi, self.lo) || number::lt(
            self.hi,
            qlo,
        ) {
            return (0, 0);
        }
        let ghost g = model(num);
        let ghost e = self@.entries;
        let first: usize = numerics::bucket(num, self.lo, self.hi, max_number(qlo, self.lo));
        let last: usize = numerics::bucket(num, self.lo, self.hi, min_number(qhi, self.hi));
        if last <= first {
            return (0, self.hist[first]);
        }
        let mut lower: usize = 0;
        let mut b: usize = first + 1;
        proof {
            lemma_span_split(g, self.lo, self.hi, e, b as int, b as int, b as int);
        }
        while b < last
            invariant
                self.wf(g),
                e == self@.entries,
                first < b <= last < BUCKETS,
                lower == span(g, self.lo, self.hi, e, first + 1, b as int),
            decreases last - b,
        {
            proof {
                lemma_span_split(g, self.lo, self.hi, e, first + 1, b as int, b + 1);
            }
            lower = lower + self.hist[b];
            b = b + 1;
        }
        proof {
            lemma_span_split(g, self.lo, self.hi, e, first as int, first + 1, last as int);
            lemma_span_split(g, self.lo, self.hi, e, first as int, last as int, last + 1);
        }
        (lower, lower + self.hist[first] + self.hist[last])
    }

    /// The ids in a closed range, or nothing where there are more than `limit`.
    /// The count is exact.
    pub fn enumerate_up_to(&self, qlo: u64, qhi: u64, limit: usize) -> (r: Option<Vec<VectorId>>)
        requires
            ordered(self@.entries),
        ensures
            match r {
                Some(ids) => ids@ == gathered(self@.entries, qlo, qhi) && ids@.len() <= limit,
                None => gathered(self@.entries, qlo, qhi).len() > limit,
            },
    {
        let ghost e = self@.entries;
        let ghost all = gathered(e, qlo, qhi);
        let mut out: Vec<VectorId> = Vec::new();
        if !number::le(qlo, qhi) {
            proof {
                lemma_gathered_nothing(e, qlo, qhi);
            }
            return Some(out);
        }
        let (from, to) = range_keys(qlo, qhi);
        let mut i: usize = self.place(from);
        proof {
            lemma_gathered_skip(e, qlo, qhi, from, to, i as int);
        }
        while i < self.sorted.len() && self.sorted[i].0 <= to
            invariant
                e == self@.entries,
                ordered(e),
                i <= self.sorted@.len(),
                all == gathered(e, qlo, qhi),
                all == out@ + gathered(e.skip(i as int), qlo, qhi),
                out@.len() <= limit,
                forall|j: int| i <= j < e.len() ==> (#[trigger] e[j]).0 >= from,
                forall|x: u64| from <= x <= to <==> #[trigger] within(number_at(x), qlo, qhi),
            decreases self.sorted@.len() - i,
        {
            proof {
                assert(e.skip(i as int)[0] == e[i as int]);
                assert(e[i as int] == (self.sorted@[i as int].0, self.sorted@[i as int].1@));
                assert(e.skip(i as int).drop_first() =~= e.skip(i + 1));
                assert(within(number_at(e[i as int].0), qlo, qhi));
            }
            append(&mut out, &self.sorted[i].1);
            i = i + 1;
            assert(all =~= out@ + gathered(e.skip(i as int), qlo, qhi));
            if out.len() > limit {
                return None;
            }
        }
        proof {
            lemma_gathered_beyond(e, qlo, qhi, from, to, i as int);
            assert(all =~= out@);
        }
        Some(out)
    }

    /// The ids in a closed range.
    pub fn enumerate_all(&self, qlo: u64, qhi: u64) -> (ids: Vec<VectorId>)
        requires
            ordered(self@.entries),
        ensures
            ids@ == gathered(self@.entries, qlo, qhi),
    {
        let ghost e = self@.entries;
        let ghost all = gathered(e, qlo, qhi);
        let mut out: Vec<VectorId> = Vec::new();
        if !number::le(qlo, qhi) {
            proof {
                lemma_gathered_nothing(e, qlo, qhi);
            }
            return out;
        }
        let (from, to) = range_keys(qlo, qhi);
        let mut i: usize = self.place(from);
        proof {
            lemma_gathered_skip(e, qlo, qhi, from, to, i as int);
        }
        while i < self.sorted.len() && self.sorted[i].0 <= to
            invariant
                e == self@.entries,
                ordered(e),
                i <= self.sorted@.len(),
                all == gathered(e, qlo, qhi),
                all == out@ + gathered(e.skip(i as int), qlo, qhi),
                forall|j: int| i <= j < e.len() ==> (#[trigger] e[j]).0 >= from,
                forall|x: u64| from <= x <= to <==> #[trigger] within(number_at(x), qlo, qhi),
            decreases self.sorted@.len() - i,
        {
            proof {
                assert(e.skip(i as int)[0] == e[i as int]);
                assert(e[i as int] == (self.sorted@[i as int].0, self.sorted@[i as int].1@));
                assert(e.skip(i as int).drop_first() =~= e.skip(i + 1));
                assert(within(number_at(e[i as int].0), qlo, qhi));
            }
            append(&mut out, &self.sorted[i].1);
            i = i + 1;
            assert(all =~= out@ + gathered(e.skip(i as int), qlo, qhi));
        }
        proof {
            lemma_gathered_beyond(e, qlo, qhi, from, to, i as int);
            assert(all =~= out@);
        }
        out
    }

    /// What the index costs, in bytes. Not exact, but consistent: shares are
    /// compared with it.
    pub fn memory_bytes(&self) -> (n: usize)
        requires
            cost(self.sorted@.len(), self.total as nat, self.hist@.len()) <= usize::MAX,
        ensures
            n == cost(self.sorted@.len(), self.total as nat, self.hist@.len()),
    {
        let values: usize = self.sorted.len();
        let header: usize = core::mem::size_of::<Vec<VectorId>>();
        let id: usize = core::mem::size_of::<VectorId>();
        proof {
            assert(values * header >= 0) by (nonlinear_arith);
            assert(self.total * id >= 0) by (nonlinear_arith);
        }
        let nodes: usize = values * ENTRY_OVERHEAD;
        let headers: usize = values * header;
        let ids: usize = self.total * id;
        nodes + headers + ids + self.hist.len() * 8
    }

    pub fn len(&self) -> (n: usize)
        requires
            self.total == total(self@.entries),
        ensures
            n == total(self@.entries),
    {
        self.total
    }

    pub fn is_empty(&self) -> (b: bool)
        requires
            self.total == total(self@.entries),
        ensures
            b == (total(self@.entries) == 0),
    {
        self.total == 0
    }
}

/// The sort keys between which exactly the numbers of a range lie. A zero at an
/// end takes in both zeros.
fn range_keys(qlo: u64, qhi: u64) -> (r: (u64, u64))
    requires
        number_le(qlo, qhi),
    ensures
        forall|x: u64| r.0 <= x <= r.1 <==> #[trigger] within(number_at(x), qlo, qhi),
{
    let from: u64 = if qlo == 0 {
        number::ordered_bits(number::SIGN_BIT)
    } else {
        number::ordered_bits(qlo)
    };
    let to: u64 = if qhi == number::SIGN_BIT {
        number::ordered_bits(0)
    } else {
        number::ordered_bits(qhi)
    };
    (from, to)
}

fn append(out: &mut Vec<VectorId>, ids: &Vec<VectorId>)
    ensures
        final(out)@ == old(out)@ + ids@,
{
    let ghost before = out@;
    let mut i: usize = 0;
    assert(before =~= before + ids@.take(0));
    while i < ids.len()
        invariant
            i <= ids@.len(),
            out@ == before + ids@.take(i as int),
        decreases ids@.len() - i,
    {
        out.push(ids[i]);
        i = i + 1;
        assert(out@ =~= before + ids@.take(i as int));
    }
    assert(ids@.take(i as int) =~= ids@);
}

proof fn lemma_total_skip(e: Entries, i: int)
    requires
        0 <= i <= e.len(),
    ensures
        total(e.skip(i)) <= total(e),
    decreases i,
{
    if i == 0 {
        assert(e.skip(0) =~= e);
    } else {
        lemma_total_skip(e, i - 1);
        assert(e.skip(i - 1).drop_first() =~= e.skip(i));
    }
}

proof fn lemma_with_entry_ordered(e: Entries, key: u64, id: VectorId, p: int)
    requires
        ordered(e),
        place_of(e, key, p),
    ensures
        ordered(with_entry(e, key, id)),
{
    lemma_place(e, key, id, p);
    let w = with_entry(e, key, id);
    if p < e.len() && e[p].0 == key {
        assert forall|i: int, j: int| 0 <= i < j < w.len() implies (#[trigger] w[i]).0 < (
        #[trigger] w[j]).0 by {
            assert(w[i].0 == e[i].0 && w[j].0 == e[j].0);
        }
    } else {
        assert forall|i: int, j: int| 0 <= i < j < w.len() implies (#[trigger] w[i]).0 < (
        #[trigger] w[j]).0 by {
            let a = if i < p { i } else { i - 1 };
            let b = if j < p { j } else { j - 1 };
            if i != p {
                assert(w[i] == e[a]);
            }
            if j != p {
                assert(w[j] == e[b]);
            }
            if i == p {
                assert(e[b].0 >= key);
                if e[b].0 == key {
                    if b > p {
                        assert(e[p].0 < e[b].0);
                    }
                }
            }
        }
        assert forall|i: int| 0 <= i < w.len() implies (#[trigger] w[i]).1.len() > 0 by {
            if i != p {
                assert(w[i] == e[if i < p { i } else { i - 1 }]);
            }
        }
    }
}

proof fn lemma_without_entry_ordered(e: Entries, key: u64, id: VectorId, p: int)
    requires
        ordered(e),
        place_of(e, key, p),
    ensures
        ordered(without_entry(e, key, id)),
{
    lemma_place(e, key, id, p);
    let w = without_entry(e, key, id);
    if p < e.len() && e[p].0 == key {
        if cut(e[p].1, id).len() == 0 {
            assert forall|i: int, j: int| 0 <= i < j < w.len() implies (#[trigger] w[i]).0 < (
            #[trigger] w[j]).0 by {
                let a = if i < p { i } else { i + 1 };
                let b = if j < p { j } else { j + 1 };
                assert(w[i] == e[a] && w[j] == e[b]);
            }
            assert forall|i: int| 0 <= i < w.len() implies (#[trigger] w[i]).1.len() > 0 by {
                assert(w[i] == e[if i < p { i } else { i + 1 }]);
            }
        } else {
            assert forall|i: int, j: int| 0 <= i < j < w.len() implies (#[trigger] w[i]).0 < (
            #[trigger] w[j]).0 by {
                assert(w[i].0 == e[i].0 && w[j].0 == e[j].0);
            }
        }
    }
}

proof fn lemma_gathered_nothing(e: Entries, qlo: u64, qhi: u64)
    requires
        !number_le(qlo, qhi),
    ensures
        gathered(e, qlo, qhi).len() == 0,
        gathered(e, qlo, qhi) =~= Seq::<VectorId>::empty(),
    decreases e.len(),
{
    if e.len() > 0 {
        lemma_gathered_nothing(e.drop_first(), qlo, qhi);
    }
}

/// Entries below the range contribute nothing.
proof fn lemma_gathered_skip(e: Entries, qlo: u64, qhi: u64, from: u64, to: u64, p: int)
    requires
        place_of(e, from, p),
        forall|x: u64| from <= x <= to <==> #[trigger] within(number_at(x), qlo, qhi),
    ensures
        gathered(e, qlo, qhi) == gathered(e.skip(p), qlo, qhi),
        gathered(e, qlo, qhi) == Seq::<VectorId>::empty() + gathered(e.skip(p), qlo, qhi),
    decreases p,
{
    if p == 0 {
        assert(e.skip(0) =~= e);
    } else {
        let t = e.drop_first();
        assert forall|i: int| 0 <= i < p - 1 implies (#[trigger] t[i]).0 < from by {
            assert(t[i] == e[i + 1]);
        }
        assert forall|i: int| p - 1 <= i < t.len() implies (#[trigger] t[i]).0 >= from by {
            assert(t[i] == e[i + 1]);
        }
        lemma_gathered_skip(t, qlo, qhi, from, to, p - 1);
        assert(t.skip(p - 1) =~= e.skip(p));
        assert(e[0].0 < from);
        assert(!within(number_at(e[0].0), qlo, qhi));
    }
    assert(gathered(e, qlo, qhi) =~= Seq::<VectorId>::empty() + gathered(e, qlo, qhi));
}

/// Entries above the range contribute nothing.
proof fn lemma_gathered_beyond(e: Entries, qlo: u64, qhi: u64, from: u64, to: u64, i: int)
    requires
        ordered(e),
        0 <= i <= e.len(),
        i < e.len() ==> e[i].0 > to,
        forall|x: u64| from <= x <= to <==> #[trigger] within(number_at(x), qlo, qhi),
    ensures
        gathered(e.skip(i), qlo, qhi) =~= Seq::<VectorId>::empty(),
    decreases e.len() - i,
{
    if i < e.len() {
        if i + 1 < e.len() {
            assert(e[i].0 < e[i + 1].0);
        }
        lemma_gathered_beyond(e, qlo, qhi, from, to, i + 1);
        assert(e.skip(i).drop_first() =~= e.skip(i + 1));
        assert(e.skip(i)[0] == e[i]);
        assert(!within(number_at(e[i].0), qlo, qhi));
    }
}

/// What equal-width buckets and widening bounds bring along: a larger number is
/// in no earlier bucket, what is not a number is in the first one, and widened
/// bounds reach as far as before and take in the new value.
pub open spec fn orderly(g: Model) -> bool {
    &&& forall|lo: u64, hi: u64, a: u64, b: u64|
        number_le(a, b) ==> #[trigger] (g.bucket)(lo, hi, a) <= #[trigger] (g.bucket)(lo, hi, b)
    &&& forall|lo: u64, hi: u64, v: u64| is_nan(v) ==> #[trigger] (g.bucket)(lo, hi, v) == 0
    &&& forall|lo: u64, hi: u64, v: u64|
        !is_nan(lo) && !is_nan(hi) && !is_nan(v) ==> {
            let w = #[trigger] (g.widened)(lo, hi, v);
            number_le(w.0, lo) && number_le(hi, w.1) && within(v, w.0, w.1)
        }
}

impl Numeric {
    /// The bounds are numbers, and every number that is kept lies between them.
    pub open spec fn covered(self) -> bool {
        &&& !is_nan(self.lo)
        &&& !is_nan(self.hi)
        &&& forall|i: int|
            0 <= i < self.entries.len() && !is_nan(number_at((#[trigger] self.entries[i]).0))
                ==> within(number_at(self.entries[i].0), self.lo, self.hi)
    }
}

/// The bounds take in every value that was ever entered.
pub proof fn bounds_cover_every_value(g: Model, n: Numeric, v: u64, id: VectorId)
    requires
        orderly(g),
        ordered(n.entries),
        n.covered(),
    ensures
        Numeric::empty().covered(),
        n.inserted(g, v, id).covered(),
        n.removed(v, id).covered(),
{
    let key = spec_ordered_bits(v);
    number::ordered_bits_are_monotone_and_invertible(v, v);
    let p = lemma_place_exists(n.entries, key);
    lemma_place(n.entries, key, id, p);
    let m = n.inserted(g, v, id);
    assert forall|i: int|
        0 <= i < m.entries.len() && !is_nan(number_at((#[trigger] m.entries[i]).0)) implies within(
        number_at(m.entries[i].0),
        m.lo,
        m.hi,
    ) by {
        if m.entries[i].0 != key {
            let a = if p < n.entries.len() && n.entries[p].0 == key || i < p {
                i
            } else {
                i - 1
            };
            assert(m.entries[i] == n.entries[a]);
        }
    }
    let r = n.removed(v, id);
    assert forall|i: int|
        0 <= i < r.entries.len() && !is_nan(number_at((#[trigger] r.entries[i]).0)) implies within(
        number_at(r.entries[i].0),
        r.lo,
        r.hi,
    ) by {
        let a = if p < n.entries.len() && n.entries[p].0 == key && cut(n.entries[p].1, id).len()
            == 0 && i >= p {
            i + 1
        } else {
            i
        };
        assert(r.entries[i].0 == n.entries[a].0);
    }
}

proof fn lemma_place_exists(e: Entries, key: u64) -> (p: int)
    requires
        ordered(e),
    ensures
        place_of(e, key, p),
    decreases e.len(),
{
    if e.len() == 0 {
        0
    } else {
        lemma_tail_ordered(e);
        let t = e.drop_first();
        let p = lemma_place_exists(t, key);
        assert(forall|i: int| 0 < i < e.len() ==> #[trigger] e[i] == t[i - 1]);
        if e[0].0 >= key {
            assert forall|i: int| 0 <= i < e.len() implies (#[trigger] e[i]).0 >= key by {
                if i > 0 {
                    assert(e[0].0 < e[i].0);
                }
            }
            0
        } else {
            p + 1
        }
    }
}

proof fn lemma_bracket(
    g: Model,
    lo: u64,
    hi: u64,
    e: Entries,
    qlo: u64,
    qhi: u64,
    first: int,
    last: int,
)
    requires
        orderly(g),
        !is_nan(lo),
        !is_nan(hi),
        number_le(qlo, qhi),
        forall|i: int|
            0 <= i < e.len() && !is_nan(number_at((#[trigger] e[i]).0)) ==> within(
                number_at(e[i].0),
                lo,
                hi,
            ),
        first == (g.bucket)(lo, hi, larger(qlo, lo)),
        last == (g.bucket)(lo, hi, smaller(qhi, hi)),
    ensures
        span(g, lo, hi, e, first + 1, last) <= gathered(e, qlo, qhi).len(),
        gathered(e, qlo, qhi).len() <= span(g, lo, hi, e, first, last + 1),
        gathered(e, qlo, qhi).len() <= total(e),
    decreases e.len(),
{
    if e.len() > 0 {
        let t = e.drop_first();
        assert forall|i: int|
            0 <= i < t.len() && !is_nan(number_at((#[trigger] t[i]).0)) implies within(
            number_at(t[i].0),
            lo,
            hi,
        ) by {
            assert(t[i] == e[i + 1]);
        }
        lemma_bracket(g, lo, hi, t, qlo, qhi, first, last);
        let v = number_at(e[0].0);
        let b = (g.bucket)(lo, hi, v) as int;
        let x = larger(qlo, lo);
        let y = smaller(qhi, hi);
        if within(v, qlo, qhi) {
            assert(number_le(x, v) && number_le(v, y));
            assert((g.bucket)(lo, hi, x) <= (g.bucket)(lo, hi, v));
            assert((g.bucket)(lo, hi, v) <= (g.bucket)(lo, hi, y));
        } else if first < b < last {
            assert(!is_nan(v));
            assert(within(v, lo, hi));
            if number_le(v, x) {
                assert((g.bucket)(lo, hi, v) <= (g.bucket)(lo, hi, x));
            }
            if number_le(y, v) {
                assert((g.bucket)(lo, hi, y) <= (g.bucket)(lo, hi, v));
            }
        }
    }
}

/// Every value is a number.
pub open spec fn all_numbers(e: Entries) -> bool {
    forall|i: int| 0 <= i < e.len() ==> !is_nan(number_at((#[trigger] e[i]).0))
}

proof fn lemma_span_full(g: Model, lo: u64, hi: u64, e: Entries, x: u64, y: u64)
    requires
        orderly(g),
        all_numbers(e),
        forall|i: int| 0 <= i < e.len() ==> within(number_at((#[trigger] e[i]).0), lo, hi),
        number_le(x, lo),
        number_le(hi, y),
    ensures
        span(g, lo, hi, e, (g.bucket)(lo, hi, x) as int, (g.bucket)(lo, hi, y) + 1) == total(e),
    decreases e.len(),
{
    if e.len() > 0 {
        let t = e.drop_first();
        assert forall|i: int| 0 <= i < t.len() implies within(
            number_at((#[trigger] t[i]).0),
            lo,
            hi,
        ) && !is_nan(number_at(t[i].0)) by {
            assert(t[i] == e[i + 1]);
        }
        lemma_span_full(g, lo, hi, t, x, y);
        let v = number_at(e[0].0);
        assert(within(v, lo, hi));
        assert(number_le(x, v) && number_le(v, y));
        assert((g.bucket)(lo, hi, x) <= (g.bucket)(lo, hi, v));
        assert((g.bucket)(lo, hi, v) <= (g.bucket)(lo, hi, y));
    }
}

/// The estimate of a range never exceeds the number of ids, and over the whole
/// range it is that number.
///
/// Left out of the second part is what is not a number: it lies in no range.
pub proof fn estimate_is_at_most_everything(g: Model, n: Numeric, qlo: u64, qhi: u64)
    requires
        orderly(g),
        n.covered(),
    ensures
        n.estimated(g, qlo, qhi).0 <= n.estimated(g, qlo, qhi).1 <= total(n.entries),
        all_numbers(n.entries) && number_le(qlo, n.lo) && number_le(n.hi, qhi) && number_le(
            qlo,
            qhi,
        ) ==> n.estimated(g, qlo, qhi).1 == total(n.entries),
{
    let e = n.entries;
    if n.estimated(g, qlo, qhi) != (0nat, 0nat) {
        let x = larger(qlo, n.lo);
        let y = smaller(qhi, n.hi);
        let first = (g.bucket)(n.lo, n.hi, x) as int;
        let last = (g.bucket)(n.lo, n.hi, y) as int;
        lemma_span_split(g, n.lo, n.hi, e, first, first, first + 1);
        if first < last {
            lemma_span_split(g, n.lo, n.hi, e, first, first + 1, last);
            lemma_span_split(g, n.lo, n.hi, e, first, last, last + 1);
        }
    }
    if all_numbers(e) && number_le(qlo, n.lo) && number_le(n.hi, qhi) && number_le(qlo, qhi)
        && total(e) > 0 {
        let x = larger(qlo, n.lo);
        let y = smaller(qhi, n.hi);
        let v = number_at(e[0].0);
        assert(within(v, n.lo, n.hi));
        lemma_span_full(g, n.lo, n.hi, e, x, y);
        assert(number_le(x, v) && number_le(v, y));
        assert((g.bucket)(n.lo, n.hi, x) <= (g.bucket)(n.lo, n.hi, v));
        assert((g.bucket)(n.lo, n.hi, v) <= (g.bucket)(n.lo, n.hi, y));
    }
}

/// The estimate of a range brackets the number of ids that it matches.
pub proof fn estimate_brackets_truth(g: Model, n: Numeric, qlo: u64, qhi: u64)
    requires
        orderly(g),
        n.covered(),
    ensures
        n.estimated(g, qlo, qhi).0 <= gathered(n.entries, qlo, qhi).len(),
        gathered(n.entries, qlo, qhi).len() <= n.estimated(g, qlo, qhi).1,
{
    let e = n.entries;
    if !number_le(qlo, qhi) {
        lemma_gathered_nothing(e, qlo, qhi);
    } else {
        let first = (g.bucket)(n.lo, n.hi, larger(qlo, n.lo)) as int;
        let last = (g.bucket)(n.lo, n.hi, smaller(qhi, n.hi)) as int;
        lemma_bracket(g, n.lo, n.hi, e, qlo, qhi, first, last);
        if number_lt(qhi, n.lo) || number_lt(n.hi, qlo) {
            lemma_disjoint(n.lo, n.hi, e, qlo, qhi);
        }
        if last < first {
            lemma_span_wider(g, n.lo, n.hi, e, first, last + 1, first + 1);
        }
    }
}

/// An estimate is off by no more than what the buckets of the two ends of the range
/// hold, and a range that lies outside of the bounds, or is none, is estimated as
/// empty.
pub proof fn estimate_is_off_by_two_buckets_at_most(g: Model, n: Numeric, qlo: u64, qhi: u64)
    ensures
        ({
            let (lower, upper) = n.estimated(g, qlo, qhi);
            let first = (g.bucket)(n.lo, n.hi, larger(qlo, n.lo)) as int;
            let last = (g.bucket)(n.lo, n.hi, smaller(qhi, n.hi)) as int;
            &&& upper - lower <= n.span(g, first, first + 1) + n.span(g, last, last + 1)
            &&& !number_le(qlo, qhi) || number_lt(qhi, n.lo) || number_lt(n.hi, qlo) ==> (
            lower == 0 && upper == 0)
        }),
{
    let e = n.entries;
    let first = (g.bucket)(n.lo, n.hi, larger(qlo, n.lo)) as int;
    let last = (g.bucket)(n.lo, n.hi, smaller(qhi, n.hi)) as int;
    if first < last {
        lemma_span_split(g, n.lo, n.hi, e, first, first + 1, last + 1);
        lemma_span_split(g, n.lo, n.hi, e, first + 1, last, last + 1);
    }
}

proof fn lemma_span_wider(g: Model, lo: u64, hi: u64, e: Entries, i: int, j: int, k: int)
    requires
        j <= k,
    ensures
        span(g, lo, hi, e, i, j) <= span(g, lo, hi, e, i, k),
    decreases e.len(),
{
    if e.len() > 0 {
        lemma_span_wider(g, lo, hi, e.drop_first(), i, j, k);
    }
}

proof fn lemma_disjoint(lo: u64, hi: u64, e: Entries, qlo: u64, qhi: u64)
    requires
        forall|i: int|
            0 <= i < e.len() && !is_nan(number_at((#[trigger] e[i]).0)) ==> within(
                number_at(e[i].0),
                lo,
                hi,
            ),
        number_lt(qhi, lo) || number_lt(hi, qlo),
    ensures
        gathered(e, qlo, qhi).len() == 0,
    decreases e.len(),
{
    if e.len() > 0 {
        let t = e.drop_first();
        assert forall|i: int|
            0 <= i < t.len() && !is_nan(number_at((#[trigger] t[i]).0)) implies within(
            number_at(t[i].0),
            lo,
            hi,
        ) by {
            assert(t[i] == e[i + 1]);
        }
        lemma_disjoint(lo, hi, t, qlo, qhi);
        assert(!within(number_at(e[0].0), qlo, qhi));
    }
}

/// The buckets together hold every id.
pub proof fn histogram_counts_every_id(g: Model, n: Numeric)
    requires
        g.sane(),
    ensures
        n.span(g, 0, BUCKETS as int) == total(n.entries),
{
    lemma_span_all(g, n.lo, n.hi, n.entries);
}

proof fn lemma_span_all(g: Model, lo: u64, hi: u64, e: Entries)
    requires
        g.sane(),
    ensures
        span(g, lo, hi, e, 0, BUCKETS as int) == total(e),
    decreases e.len(),
{
    if e.len() > 0 {
        lemma_span_all(g, lo, hi, e.drop_first());
    }
}

/// Entering an id under a value adds one occurrence there and nowhere else;
/// removing it takes one away.
pub proof fn one_occurrence_comes_or_goes(e: Entries, key: u64, id: VectorId)
    requires
        ordered(e),
    ensures
        forall|k: u64, i: VectorId| #[trigger]
            occurs(with_entry(e, key, id), k, i) == occurs(e, k, i) + (if k == key && i == id {
                1int
            } else {
                0
            }),
        occurs(e, key, id) > 0 ==> forall|k: u64, i: VectorId| #[trigger]
            occurs(without_entry(e, key, id), k, i) == occurs(e, k, i) - (if k == key && i == id {
                1int
            } else {
                0
            }),
        occurs(e, key, id) == 0 ==> without_entry(e, key, id) == e,
{
    assert forall|k: u64, i: VectorId| #[trigger]
        occurs(with_entry(e, key, id), k, i) == occurs(e, k, i) + (if k == key && i == id {
            1int
        } else {
            0
        }) by {
        lemma_occurs_change(e, key, id, k, i);
    }
    assert forall|k: u64, i: VectorId|
        occurs(e, key, id) > 0 implies #[trigger] occurs(without_entry(e, key, id), k, i)
        == occurs(e, k, i) - (if k == key && i == id {
        1int
    } else {
        0
    }) by {
        lemma_occurs_change(e, key, id, k, i);
    }
    lemma_occurs_change(e, key, id, key, id);
}

proof fn lemma_occurs_change(e: Entries, key: u64, id: VectorId, k: u64, i: VectorId)
    requires
        ordered(e),
    ensures
        occurs(with_entry(e, key, id), k, i) == occurs(e, k, i) + (if k == key && i == id {
            1int
        } else {
            0
        }),
        occurs(e, key, id) > 0 ==> occurs(without_entry(e, key, id), k, i) == occurs(e, k, i) - (
        if k == key && i == id {
            1int
        } else {
            0
        }),
        occurs(e, key, id) == 0 ==> without_entry(e, key, id) == e,
    decreases e.len(),
{
    broadcast use vstd::seq_lib::group_to_multiset_ensures;
    broadcast use vstd::multiset::group_multiset_axioms;

    let w = with_entry(e, key, id);
    let r = without_entry(e, key, id);
    let nothing = Seq::<VectorId>::empty();
    assert(nothing.to_multiset() =~= vstd::multiset::Multiset::empty());
    assert(seq![id] =~= nothing.push(id));
    if e.len() == 0 {
        assert(w.drop_first() =~= Seq::empty());
        assert(occurs(w.drop_first(), k, i) == 0);
    } else {
        let t = e.drop_first();
        lemma_tail_ordered(e);
        lemma_occurs_change(t, key, id, k, i);
        assert(seq![e[0]] + t =~= e);
        if e[0].0 == key {
            lemma_absent(t, key);
            assert(w.drop_first() =~= t);
            if e[0].1.contains(id) {
                lemma_cut(e[0].1, id);
                if cut(e[0].1, id).len() == 0 {
                    let j = choose|j: int| 0 <= j < e[0].1.len() && e[0].1[j] == id;
                    assert(e[0].1 =~= nothing.push(id));
                    assert(r =~= t);
                } else {
                    assert(r.drop_first() =~= t);
                }
            } else {
                e[0].1.index_of_first_ensures(id);
                assert(cut(e[0].1, id) == e[0].1);
                assert(r =~= e);
            }
        } else if e[0].0 < key {
            assert(w.drop_first() =~= with_entry(t, key, id));
            assert(r.drop_first() =~= without_entry(t, key, id));
        } else {
            assert(w.drop_first() =~= e);
            assert forall|j: int| 0 <= j < e.len() implies (#[trigger] e[j]).0 != key by {
                if j > 0 {
                    assert(e[0].0 < e[j].0);
                }
            }
            lemma_absent(e, key);
            lemma_absent(t, key);
            assert(occurs(w, key, i) == seq![id].to_multiset().count(i));
        }
    }
}

pub proof fn lemma_absent(e: Entries, key: u64)
    requires
        forall|i: int| 0 <= i < e.len() ==> (#[trigger] e[i]).0 != key,
    ensures
        forall|id: VectorId| #[trigger] occurs(e, key, id) == 0,
    decreases e.len(),
{
    if e.len() > 0 {
        let t = e.drop_first();
        assert forall|i: int| 0 <= i < t.len() implies (#[trigger] t[i]).0 != key by {
            assert(t[i] == e[i + 1]);
        }
        lemma_absent(t, key);
        assert(e[0].0 != key);
        assert forall|id: VectorId| #[trigger] occurs(e, key, id) == 0 by {
            assert(occurs(t, key, id) == 0);
        }
    }
}

/// An id is enumerated for a range exactly where it stands under a value in it.
pub proof fn enumeration_is_exact(e: Entries, qlo: u64, qhi: u64, id: VectorId)
    requires
        ordered(e),
    ensures
        gathered(e, qlo, qhi).contains(id) <==> exists|key: u64|
            within(number_at(key), qlo, qhi) && #[trigger] occurs(e, key, id) > 0,
    decreases e.len(),
{
    broadcast use vstd::seq_lib::group_to_multiset_ensures;

    if e.len() > 0 {
        let t = e.drop_first();
        lemma_tail_ordered(e);
        enumeration_is_exact(t, qlo, qhi, id);
        lemma_absent(t, e[0].0);
        let rest = gathered(t, qlo, qhi);
        let all = gathered(e, qlo, qhi);
        assert(occurs(e, e[0].0, id) == e[0].1.to_multiset().count(id));
        if rest.contains(id) {
            let key = choose|key: u64|
                within(number_at(key), qlo, qhi) && #[trigger] occurs(t, key, id) > 0;
            assert(key != e[0].0);
            assert(occurs(e, key, id) > 0);
            let i = choose|i: int| 0 <= i < rest.len() && rest[i] == id;
            assert(all[all.len() - rest.len() + i] == id);
        }
        if within(number_at(e[0].0), qlo, qhi) && e[0].1.contains(id) {
            let i = choose|i: int| 0 <= i < e[0].1.len() && e[0].1[i] == id;
            assert(all[i] == id);
        }
        if exists|key: u64|
            within(number_at(key), qlo, qhi) && #[trigger] occurs(e, key, id) > 0 {
            let key = choose|key: u64|
                within(number_at(key), qlo, qhi) && #[trigger] occurs(e, key, id) > 0;
            if key != e[0].0 {
                assert(occurs(t, key, id) > 0);
            }
        }
        if all.contains(id) && !rest.contains(id) {
            let i = choose|i: int| 0 <= i < all.len() && all[i] == id;
            if within(number_at(e[0].0), qlo, qhi) {
                if i >= e[0].1.len() {
                    assert(rest[i - e[0].1.len()] == id);
                }
                assert(e[0].1.contains(id));
            }
        }
    }
}

/// All ids, by ascending value.
spec fn flat(e: Entries) -> Seq<VectorId>
    decreases e.len(),
{
    if e.len() == 0 {
        Seq::empty()
    } else {
        e[0].1 + flat(e.drop_first())
    }
}

/// No id stands twice, be it under one value or under two.
pub open spec fn single(e: Entries) -> bool {
    &&& forall|key: u64, id: VectorId| #[trigger] occurs(e, key, id) <= 1
    &&& forall|a: u64, b: u64, id: VectorId| #[trigger]
        occurs(e, a, id) > 0 && #[trigger] occurs(e, b, id) > 0 ==> a == b
}

proof fn lemma_flat_contains(e: Entries, id: VectorId) -> (key: u64)
    requires
        ordered(e),
        flat(e).contains(id),
    ensures
        occurs(e, key, id) > 0,
        exists|i: int| 0 <= i < e.len() && (#[trigger] e[i]).0 == key,
    decreases e.len(),
{
    broadcast use vstd::seq_lib::group_to_multiset_ensures;

    let t = e.drop_first();
    let all = flat(e);
    let i = choose|i: int| 0 <= i < all.len() && all[i] == id;
    lemma_tail_ordered(e);
    if i < e[0].1.len() {
        assert(e[0].1[i] == id);
        assert(e[0].1.contains(id));
        e[0].0
    } else {
        assert(flat(t)[i - e[0].1.len()] == id);
        let key = lemma_flat_contains(t, id);
        let j = choose|j: int| 0 <= j < t.len() && (#[trigger] t[j]).0 == key;
        assert(e[j + 1].0 == key);
        key
    }
}

proof fn lemma_flat_distinct(e: Entries)
    requires
        ordered(e),
        single(e),
    ensures
        flat(e).no_duplicates(),
        flat(e).len() == total(e),
    decreases e.len(),
{
    broadcast use vstd::seq_lib::group_to_multiset_ensures;

    if e.len() > 0 {
        let t = e.drop_first();
        lemma_tail_ordered(e);
        lemma_absent(t, e[0].0);
        assert forall|key: u64, id: VectorId| #[trigger] occurs(t, key, id) <= 1 by {
            assert(occurs(e, key, id) <= 1);
        }
        assert forall|a: u64, b: u64, id: VectorId| #[trigger]
            occurs(t, a, id) > 0 && #[trigger] occurs(t, b, id) > 0 implies a == b by {
            assert(occurs(e, a, id) > 0 && occurs(e, b, id) > 0);
        }
        lemma_flat_distinct(t);
        let head = e[0].1;
        assert forall|id: VectorId| head.to_multiset().contains(id) implies
            head.to_multiset().count(id) == 1 by {
            assert(occurs(e, e[0].0, id) <= 1);
        }
        head.lemma_multiset_has_no_duplicates_conv();
        assert forall|i: int, j: int|
            0 <= i < flat(e).len() && 0 <= j < flat(e).len() && i != j implies flat(e)[i]
            != flat(e)[j] by {
            let n = head.len();
            if i >= n && j >= n {
                assert(flat(t)[i - n] != flat(t)[j - n]);
            } else if i < n && j >= n {
                if flat(e)[i] == flat(e)[j] {
                    let id = flat(e)[i];
                    assert(flat(t)[j - n] == id);
                    assert(head[i] == id);
                    let key = lemma_flat_contains(t, id);
                    assert(head.contains(id));
                    assert(occurs(e, e[0].0, id) > 0);
                    assert(key != e[0].0);
                    assert(occurs(e, key, id) > 0);
                }
            } else if i >= n && j < n {
                if flat(e)[i] == flat(e)[j] {
                    let id = flat(e)[j];
                    assert(flat(t)[i - n] == id);
                    assert(head[j] == id);
                    let key = lemma_flat_contains(t, id);
                    assert(head.contains(id));
                    assert(occurs(e, e[0].0, id) > 0);
                    assert(key != e[0].0);
                    assert(occurs(e, key, id) > 0);
                }
            }
        }
    }
}

/// An index of ids out of a set holds no more than the set.
pub proof fn lemma_total_bound(e: Entries, ids: Set<u64>)
    requires
        ordered(e),
        single(e),
        ids.finite(),
        forall|key: u64, id: VectorId| #[trigger] occurs(e, key, id) > 0 ==> ids.contains(id.0),
    ensures
        total(e) <= ids.len(),
{
    lemma_flat_distinct(e);
    let all = flat(e);
    let raw = Seq::new(all.len(), |i: int| all[i].0);
    assert(raw.no_duplicates());
    raw.unique_seq_to_set();
    assert(raw.to_set().subset_of(ids)) by {
        assert forall|x: u64| raw.to_set().contains(x) implies ids.contains(x) by {
            let i = choose|i: int| 0 <= i < raw.len() && raw[i] == x;
            assert(all.contains(all[i]));
            let key = lemma_flat_contains(e, all[i]);
        }
    }
    vstd::set_lib::lemma_len_subset(raw.to_set(), ids);
}

/// What a range enumerates names each id once.
pub proof fn lemma_gathered_distinct(e: Entries, qlo: u64, qhi: u64)
    requires
        ordered(e),
        single(e),
    ensures
        gathered(e, qlo, qhi).no_duplicates(),
    decreases e.len(),
{
    broadcast use vstd::seq_lib::group_to_multiset_ensures;

    if e.len() > 0 {
        let t = e.drop_first();
        lemma_tail_ordered(e);
        lemma_absent(t, e[0].0);
        assert forall|key: u64, id: VectorId| #[trigger] occurs(t, key, id) <= 1 by {
            assert(occurs(e, key, id) <= 1);
        }
        assert forall|a: u64, b: u64, id: VectorId| #[trigger]
            occurs(t, a, id) > 0 && #[trigger] occurs(t, b, id) > 0 implies a == b by {
            assert(occurs(e, a, id) > 0 && occurs(e, b, id) > 0);
        }
        lemma_gathered_distinct(t, qlo, qhi);
        let head = e[0].1;
        let rest = gathered(t, qlo, qhi);
        let all = gathered(e, qlo, qhi);
        assert forall|id: VectorId| head.to_multiset().contains(id) implies
            head.to_multiset().count(id) == 1 by {
            assert(occurs(e, e[0].0, id) <= 1);
        }
        head.lemma_multiset_has_no_duplicates_conv();
        assert forall|id: VectorId| head.contains(id) implies !rest.contains(id) by {
            if rest.contains(id) {
                enumeration_is_exact(t, qlo, qhi, id);
                let key = choose|key: u64|
                    within(number_at(key), qlo, qhi) && #[trigger] occurs(t, key, id) > 0;
                assert(occurs(e, e[0].0, id) > 0);
                assert(key != e[0].0);
                assert(occurs(e, key, id) > 0);
            }
        }
        if within(number_at(e[0].0), qlo, qhi) {
            assert(all =~= head + rest);
            assert forall|i: int, j: int|
                0 <= i < all.len() && 0 <= j < all.len() && i != j implies all[i] != all[j] by {
                let n = head.len();
                if i < n && j >= n {
                    assert(head.contains(head[i]));
                    assert(rest[j - n] == all[j]);
                    assert(rest.contains(rest[j - n]));
                } else if i >= n && j < n {
                    assert(head.contains(head[j]));
                    assert(rest[i - n] == all[i]);
                    assert(rest.contains(rest[i - n]));
                } else if i >= n && j >= n {
                    assert(rest[i - n] != rest[j - n]);
                }
            }
        } else {
            assert(all =~= rest);
        }
    }
}

/// Entering and removing keep the order of the values.
pub proof fn lemma_entries_ordered(e: Entries, key: u64, id: VectorId)
    requires
        ordered(e),
    ensures
        ordered(with_entry(e, key, id)),
        ordered(without_entry(e, key, id)),
{
    let p = lemma_place_exists(e, key);
    lemma_with_entry_ordered(e, key, id, p);
    lemma_without_entry_ordered(e, key, id, p);
}

/// Entering and removing change how many ids there are, and how many a range
/// matches, by the one id.
pub proof fn lemma_counts_change(e: Entries, key: u64, id: VectorId, qlo: u64, qhi: u64)
    ensures
        ({
            let one = if within(number_at(key), qlo, qhi) {
                1int
            } else {
                0
            };
            let w = with_entry(e, key, id);
            let r = without_entry(e, key, id);
            &&& total(w) == total(e) + 1
            &&& gathered(w, qlo, qhi).len() == gathered(e, qlo, qhi).len() + one
            &&& occurs(e, key, id) > 0 ==> total(r) == total(e) - 1 && gathered(r, qlo, qhi).len()
                == gathered(e, qlo, qhi).len() - one
        }),
    decreases e.len(),
{
    broadcast use vstd::seq_lib::group_to_multiset_ensures;

    let w = with_entry(e, key, id);
    let r = without_entry(e, key, id);
    if e.len() == 0 {
        assert(w.drop_first() =~= Seq::empty());
        assert(total(w.drop_first()) == 0);
        assert(gathered(w.drop_first(), qlo, qhi).len() == 0);
    } else {
        let t = e.drop_first();
        if e[0].0 == key {
            assert(w.drop_first() =~= t);
            if occurs(e, key, id) > 0 {
                lemma_cut(e[0].1, id);
                if cut(e[0].1, id).len() > 0 {
                    assert(r.drop_first() =~= t);
                }
            }
        } else {
            lemma_counts_change(t, key, id, qlo, qhi);
            assert(r.drop_first() =~= without_entry(t, key, id));
            if e[0].0 < key {
                assert(w.drop_first() =~= with_entry(t, key, id));
            } else {
                assert(w.drop_first() =~= e);
            }
        }
    }
}

/// Entering a number keeps the values numbers; removing brings none.
pub proof fn lemma_stays_numbers(e: Entries, key: u64, id: VectorId)
    requires
        ordered(e),
        all_numbers(e),
    ensures
        !is_nan(number_at(key)) ==> all_numbers(with_entry(e, key, id)),
        all_numbers(without_entry(e, key, id)),
{
    let p = lemma_place_exists(e, key);
    lemma_place(e, key, id, p);
    let w = with_entry(e, key, id);
    let r = without_entry(e, key, id);
    assert forall|i: int| 0 <= i < w.len() && !is_nan(number_at(key)) implies !is_nan(
        number_at((#[trigger] w[i]).0),
    ) by {
        if w[i].0 != key {
            let j = if i < p || (p < e.len() && e[p].0 == key) {
                i
            } else {
                i - 1
            };
            assert(e[j] == w[i]);
        }
    }
    assert forall|i: int| 0 <= i < r.len() implies !is_nan(number_at((#[trigger] r[i]).0)) by {
        if r.len() == e.len() {
            assert(r[i].0 == e[i].0);
        } else {
            let j = if i < p {
                i
            } else {
                i + 1
            };
            assert(e[j] == r[i]);
        }
    }
}

} // verus!
