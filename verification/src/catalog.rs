//! The metadata of the records, with what is derived from it: posting lists for
//! equality conditions and numeric indexes for ranges.
//!
//! The metadata is the only source. The derived structures hold exactly what
//! follows from it, and are never written to disk.

use vstd::prelude::*;
use vstd::string::StringExecFns;
use crate::meta::{
    ascending as fields_ascend, field, has_field, lemma_field_at, Fields, Key, MetaKey, MetaStore,
    Metadata, Value,
};
use crate::number::{self, spec_ordered_bits};
use crate::numeric::{occurs, one_occurrence_comes_or_goes, Entries, Numeric, NumericFieldIndex};
use crate::numerics::{functional, model, Model, Numerics};
use crate::posting::{ascending, posting_insert, posting_remove};
use crate::types::VectorId;

verus! {

/// The record of the id has a value under the key in the field.
pub open spec fn posted(meta: Map<u64, Fields>, f: Seq<char>, key: Key, id: VectorId) -> bool {
    meta.contains_key(id.0) && (field(meta[id.0], f) matches Some(v) && v.key() == key)
}

/// The number that the record of the id has in the field.
pub open spec fn valued(meta: Map<u64, Fields>, f: Seq<char>, id: VectorId) -> Option<u64> {
    if meta.contains_key(id.0) {
        match field(meta[id.0], f) {
            Some(v) => v.number(),
            None => None,
        }
    } else {
        None
    }
}

/// The ids whose record has a value under the key in the field.
pub struct Posting {
    pub field: String,
    pub key: MetaKey,
    pub ids: Vec<VectorId>,
}

/// A [`Posting`] as a value.
pub type Post = (Seq<char>, Key, Seq<VectorId>);

pub open spec fn posts_view(postings: Seq<Posting>) -> Seq<Post> {
    Seq::new(postings.len(), |p: int| (postings[p].field@, postings[p].key@, postings[p].ids@))
}

/// The posting lists say what the metadata says.
pub open spec fn posts_ok(ps: Seq<Post>, meta: Map<u64, Fields>) -> bool {
    &&& forall|p: int| 0 <= p < ps.len() ==> ascending((#[trigger] ps[p]).2)
    &&& forall|p: int, q: int|
        0 <= p < q < ps.len() ==> !((#[trigger] ps[p]).0 == (#[trigger] ps[q]).0 && ps[p].1
            == ps[q].1)
    &&& forall|p: int, id: VectorId|
        0 <= p < ps.len() ==> (#[trigger] ps[p].2.contains(id) <==> posted(
            meta,
            ps[p].0,
            ps[p].1,
            id,
        ))
    &&& forall|f: Seq<char>, key: Key, id: VectorId| #[trigger]
        posted(meta, f, key, id) ==> listed(ps, f, key)
}

/// There is a posting list of the field and key.
pub open spec fn listed(ps: Seq<Post>, f: Seq<char>, key: Key) -> bool {
    exists|p: int| 0 <= p < ps.len() && (#[trigger] ps[p]).0 == f && ps[p].1 == key
}

/// One posting more.
pub open spec fn adds(
    before: Map<u64, Fields>,
    after: Map<u64, Fields>,
    f: Seq<char>,
    key: Key,
    id: VectorId,
) -> bool {
    forall|g: Seq<char>, k: Key, i: VectorId| #[trigger]
        posted(after, g, k, i) <==> posted(before, g, k, i) || (g == f && k == key && i == id)
}

/// One posting less.
pub open spec fn drops(
    before: Map<u64, Fields>,
    after: Map<u64, Fields>,
    f: Seq<char>,
    key: Key,
    id: VectorId,
) -> bool {
    forall|g: Seq<char>, k: Key, i: VectorId| #[trigger]
        posted(after, g, k, i) <==> posted(before, g, k, i) && !(g == f && k == key && i == id)
}

/// The numeric index of each field, as values.
pub type Numbers = Seq<(Seq<char>, Numeric)>;

pub open spec fn numbers_view(numeric: Seq<(String, NumericFieldIndex)>) -> Numbers {
    Seq::new(numeric.len(), |p: int| (numeric[p].0@, numeric[p].1@))
}

/// How often the id should stand under the sort key in the field's index.
pub open spec fn due(meta: Map<u64, Fields>, f: Seq<char>, key: u64, id: VectorId) -> nat {
    if valued(meta, f, id) matches Some(v) && spec_ordered_bits(v) == key {
        1
    } else {
        0
    }
}

/// The numeric indexes say what the metadata says.
pub open spec fn numbers_ok(ns: Numbers, meta: Map<u64, Fields>) -> bool {
    &&& forall|p: int, q: int|
        0 <= p < q < ns.len() ==> (#[trigger] ns[p]).0 != (#[trigger] ns[q]).0
    &&& forall|p: int, key: u64, id: VectorId|
        0 <= p < ns.len() ==> #[trigger] occurs(ns[p].1.entries, key, id) == due(
            meta,
            ns[p].0,
            key,
            id,
        )
    &&& forall|f: Seq<char>, id: VectorId| #[trigger]
        valued(meta, f, id) is Some ==> numbered(ns, f)
}

/// There is a numeric index of the field.
pub open spec fn numbered(ns: Numbers, f: Seq<char>) -> bool {
    exists|p: int| 0 <= p < ns.len() && (#[trigger] ns[p]).0 == f
}

/// The field's numeric index.
pub open spec fn number_index(ns: Numbers, f: Seq<char>) -> Option<Numeric> {
    if numbered(ns, f) {
        Some(ns[choose|p: int| 0 <= p < ns.len() && (#[trigger] ns[p]).0 == f].1)
    } else {
        None
    }
}

/// The numeric values of one record set one index right, nothing else changes.
pub open spec fn revalues(
    before: Map<u64, Fields>,
    after: Map<u64, Fields>,
    f: Seq<char>,
    id: VectorId,
) -> bool {
    forall|g: Seq<char>, i: VectorId|
        !(g == f && i == id) ==> #[trigger] valued(after, g, i) == valued(before, g, i)
}

/// The metadata and what is derived from it.
pub struct Catalog {
    pub metadata: MetaStore,
    pub postings: Vec<Posting>,
    pub numeric: Vec<(String, NumericFieldIndex)>,
}

/// A [`Catalog`] as a value. The posting lists are a function of the metadata.
pub ghost struct Records {
    pub meta: Map<u64, Fields>,
    pub numbers: Numbers,
}

impl View for Catalog {
    type V = Records;

    open spec fn view(&self) -> Records {
        Records { meta: self.metadata@, numbers: numbers_view(self.numeric@) }
    }
}

proof fn lemma_take_field(m: Fields, i: int)
    requires
        fields_ascend(m),
        0 <= i < m.len(),
    ensures
        fields_ascend(m.take(i)),
        fields_ascend(m.take(i + 1)),
        field(m.take(i), m[i].0) is None,
        field(m.take(i + 1), m[i].0) == Some(m[i].1),
        forall|f: Seq<char>| f != m[i].0 ==> #[trigger] field(m.take(i + 1), f) == field(
            m.take(i),
            f,
        ),
{
    let a = m.take(i);
    let b = m.take(i + 1);
    assert forall|x: int, y: int| 0 <= x < y < a.len() implies crate::meta::text_lt(
        (#[trigger] a[x]).0,
        (#[trigger] a[y]).0,
    ) by {
        assert(a[x] == m[x] && a[y] == m[y]);
    }
    assert forall|x: int, y: int| 0 <= x < y < b.len() implies crate::meta::text_lt(
        (#[trigger] b[x]).0,
        (#[trigger] b[y]).0,
    ) by {
        assert(b[x] == m[x] && b[y] == m[y]);
    }
    if has_field(a, m[i].0) {
        let x = choose|x: int| 0 <= x < a.len() && (#[trigger] a[x]).0 == m[i].0;
        assert(a[x] == m[x]);
        crate::meta::lemma_text_lt_irreflexive(m[i].0);
    }
    assert(b[i] == m[i]);
    lemma_field_at(b, i);
    assert forall|f: Seq<char>| f != m[i].0 implies #[trigger] field(b, f) == field(a, f) by {
        if has_field(a, f) {
            let x = choose|x: int| 0 <= x < a.len() && (#[trigger] a[x]).0 == f;
            assert(b[x] == a[x]);
            lemma_field_at(a, x);
            lemma_field_at(b, x);
        }
        if has_field(b, f) {
            let x = choose|x: int| 0 <= x < b.len() && (#[trigger] b[x]).0 == f;
            assert(a[x] == b[x]);
        }
    }
}

proof fn lemma_no_field(f: Seq<char>)
    ensures
        field(Seq::<(Seq<char>, Value)>::empty(), f) is None,
{
}

/// One list, changed to hold what the metadata now says.
proof fn lemma_posts_add(
    ps: Seq<Post>,
    qs: Seq<Post>,
    before: Map<u64, Fields>,
    after: Map<u64, Fields>,
    p: int,
    f: Seq<char>,
    key: Key,
    id: VectorId,
)
    requires
        posts_ok(ps, before),
        adds(before, after, f, key, id),
        0 <= p < qs.len(),
        qs[p].0 == f,
        qs[p].1 == key,
        ascending(qs[p].2),
        p < ps.len() ==> qs.len() == ps.len() && ps[p].0 == f && ps[p].1 == key,
        p == ps.len() ==> qs.len() == ps.len() + 1 && !listed(ps, f, key),
        p <= ps.len(),
        forall|q: int| 0 <= q < ps.len() && q != p ==> (#[trigger] qs[q]) == ps[q],
        forall|x: VectorId| #[trigger]
            qs[p].2.contains(x) <==> (p < ps.len() && ps[p].2.contains(x)) || x == id,
    ensures
        posts_ok(qs, after),
{
    assert forall|q: int| 0 <= q < qs.len() implies ascending((#[trigger] qs[q]).2) by {
        if q != p {
            assert(qs[q] == ps[q]);
        }
    }
    assert forall|x: int, y: int| 0 <= x < y < qs.len() implies !((#[trigger] qs[x]).0 == (
    #[trigger] qs[y]).0 && qs[x].1 == qs[y].1) by {
        if p == ps.len() {
            assert(qs[x] == ps[x]);
            if y == p {
                if qs[x].0 == f && qs[x].1 == key {
                    assert(listed(ps, f, key));
                }
            } else {
                assert(qs[y] == ps[y]);
            }
        } else {
            assert(qs[x].0 == ps[x].0 && qs[x].1 == ps[x].1);
            assert(qs[y].0 == ps[y].0 && qs[y].1 == ps[y].1);
        }
    }
    assert forall|q: int, x: VectorId| 0 <= q < qs.len() implies (#[trigger] qs[q].2.contains(
        x,
    ) <==> posted(after, qs[q].0, qs[q].1, x)) by {
        assert(posted(after, qs[q].0, qs[q].1, x) <==> posted(before, qs[q].0, qs[q].1, x) || (
        qs[q].0 == f && qs[q].1 == key && x == id));
        if q == p {
            if p < ps.len() {
                assert(ps[p].2.contains(x) <==> posted(before, f, key, x));
            } else {
                if posted(before, f, key, x) {
                    assert(listed(ps, f, key));
                }
            }
        } else {
            assert(qs[q] == ps[q]);
            assert(ps[q].2.contains(x) <==> posted(before, ps[q].0, ps[q].1, x));
            if qs[q].0 == f && qs[q].1 == key {
                if p < ps.len() {
                    if q < p {
                        assert(!(ps[q].0 == ps[p].0 && ps[q].1 == ps[p].1));
                    } else {
                        assert(!(ps[p].0 == ps[q].0 && ps[p].1 == ps[q].1));
                    }
                } else {
                    assert(listed(ps, f, key));
                }
            }
        }
    }
    assert forall|g: Seq<char>, k: Key, x: VectorId| #[trigger]
        posted(after, g, k, x) implies listed(qs, g, k) by {
        if posted(before, g, k, x) {
            let q = choose|q: int| 0 <= q < ps.len() && (#[trigger] ps[q]).0 == g && ps[q].1 == k;
            assert(qs[q].0 == g && qs[q].1 == k);
        } else {
            assert(qs[p].0 == g && qs[p].1 == k);
        }
    }
}

proof fn lemma_posts_drop(
    ps: Seq<Post>,
    qs: Seq<Post>,
    before: Map<u64, Fields>,
    after: Map<u64, Fields>,
    p: int,
    f: Seq<char>,
    key: Key,
    id: VectorId,
)
    requires
        posts_ok(ps, before),
        drops(before, after, f, key, id),
        0 <= p < ps.len(),
        qs.len() == ps.len(),
        ps[p].0 == f,
        ps[p].1 == key,
        qs[p].0 == f,
        qs[p].1 == key,
        ascending(qs[p].2),
        forall|q: int| 0 <= q < ps.len() && q != p ==> (#[trigger] qs[q]) == ps[q],
        forall|x: VectorId| #[trigger] qs[p].2.contains(x) <==> ps[p].2.contains(x) && x != id,
    ensures
        posts_ok(qs, after),
{
    assert forall|q: int| 0 <= q < qs.len() implies ascending((#[trigger] qs[q]).2) by {
        if q != p {
            assert(qs[q] == ps[q]);
        }
    }
    assert forall|x: int, y: int| 0 <= x < y < qs.len() implies !((#[trigger] qs[x]).0 == (
    #[trigger] qs[y]).0 && qs[x].1 == qs[y].1) by {
        assert(qs[x].0 == ps[x].0 && qs[x].1 == ps[x].1);
        assert(qs[y].0 == ps[y].0 && qs[y].1 == ps[y].1);
    }
    assert forall|q: int, x: VectorId| 0 <= q < qs.len() implies (#[trigger] qs[q].2.contains(
        x,
    ) <==> posted(after, qs[q].0, qs[q].1, x)) by {
        assert(posted(after, qs[q].0, qs[q].1, x) <==> posted(before, qs[q].0, qs[q].1, x) && !(
        qs[q].0 == f && qs[q].1 == key && x == id));
        assert(ps[q].2.contains(x) <==> posted(before, ps[q].0, ps[q].1, x));
        if q != p {
            assert(qs[q] == ps[q]);
            if q < p {
                assert(!(ps[q].0 == ps[p].0 && ps[q].1 == ps[p].1));
            } else {
                assert(!(ps[p].0 == ps[q].0 && ps[p].1 == ps[q].1));
            }
        }
    }
    assert forall|g: Seq<char>, k: Key, x: VectorId| #[trigger]
        posted(after, g, k, x) implies listed(qs, g, k) by {
        assert(posted(before, g, k, x));
        let q = choose|q: int| 0 <= q < ps.len() && (#[trigger] ps[q]).0 == g && ps[q].1 == k;
        assert(qs[q].0 == g && qs[q].1 == k);
    }
}

proof fn lemma_numbers_change(
    ns: Numbers,
    qs: Numbers,
    before: Map<u64, Fields>,
    after: Map<u64, Fields>,
    p: int,
    f: Seq<char>,
    id: VectorId,
)
    requires
        numbers_ok(ns, before),
        revalues(before, after, f, id),
        0 <= p < qs.len(),
        qs[p].0 == f,
        p < ns.len() ==> qs.len() == ns.len() && ns[p].0 == f,
        p == ns.len() ==> qs.len() == ns.len() + 1 && !numbered(ns, f),
        p <= ns.len(),
        forall|q: int| 0 <= q < ns.len() && q != p ==> (#[trigger] qs[q]) == ns[q],
        forall|key: u64, x: VectorId| #[trigger]
            occurs(qs[p].1.entries, key, x) == due(after, f, key, x),
    ensures
        numbers_ok(qs, after),
{
    assert forall|x: int, y: int| 0 <= x < y < qs.len() implies (#[trigger] qs[x]).0 != (
    #[trigger] qs[y]).0 by {
        if p == ns.len() {
            assert(qs[x] == ns[x]);
            if y == p {
                if qs[x].0 == f {
                    assert(numbered(ns, f));
                }
            } else {
                assert(qs[y] == ns[y]);
            }
        } else {
            assert(qs[x].0 == ns[x].0);
            assert(qs[y].0 == ns[y].0);
        }
    }
    assert forall|q: int, key: u64, x: VectorId| 0 <= q < qs.len() implies #[trigger] occurs(
        qs[q].1.entries,
        key,
        x,
    ) == due(after, qs[q].0, key, x) by {
        if q != p {
            assert(qs[q] == ns[q]);
            assert(occurs(ns[q].1.entries, key, x) == due(before, ns[q].0, key, x));
            if qs[q].0 == f {
                if p < ns.len() {
                    if q < p {
                        assert(ns[q].0 != ns[p].0);
                    } else {
                        assert(ns[p].0 != ns[q].0);
                    }
                } else {
                    assert(numbered(ns, f));
                }
            }
            assert(valued(after, qs[q].0, x) == valued(before, qs[q].0, x));
        }
    }
    assert forall|g: Seq<char>, x: VectorId| #[trigger]
        valued(after, g, x) is Some implies numbered(qs, g) by {
        if g == f {
            assert(qs[p].0 == g);
        } else {
            assert(valued(before, g, x) is Some);
            let q = choose|q: int| 0 <= q < ns.len() && (#[trigger] ns[q]).0 == g;
            assert(qs[q].0 == g);
        }
    }
}

/// What the metadata says puts no id twice into an index.
proof fn lemma_due_single(e: Entries, meta: Map<u64, Fields>, f: Seq<char>)
    requires
        forall|key: u64, id: VectorId| #[trigger] occurs(e, key, id) == due(meta, f, key, id),
    ensures
        crate::numeric::single(e),
{
}

impl Catalog {
    /// The derived structures agree with the metadata.
    pub open spec fn wf(&self, g: Model) -> bool {
        &&& self.metadata.wf()
        &&& posts_ok(posts_view(self.postings@), self@.meta)
        &&& self.numbers_wf(g)
        &&& numbers_ok(self@.numbers, self@.meta)
    }

    pub open spec fn numbers_wf(&self, g: Model) -> bool {
        forall|p: int| 0 <= p < self.numeric@.len() ==> (#[trigger] self.numeric@[p]).1.wf(g)
    }

    pub fn new() -> (r: Self)
        ensures
            forall|g: Model| #[trigger] r.wf(g),
            r@.meta == Map::<u64, Fields>::empty(),
            r@.numbers == Numbers::empty(),
            posts_view(r.postings@) == Seq::<Post>::empty(),
    {
        let r = Catalog { metadata: MetaStore::new(), postings: Vec::new(), numeric: Vec::new() };
        assert(r@.numbers =~= Numbers::empty());
        r
    }

    /// Where the posting list of a field and key stands.
    pub fn find_posting(&self, f: &str, key: &MetaKey) -> (r: Option<usize>)
        ensures
            match r {
                Some(p) => p < self.postings@.len() && self.postings@[p as int].field@ == f@
                    && self.postings@[p as int].key@ == key@,
                None => !listed(posts_view(self.postings@), f@, key@),
            },
    {
        let wanted: String = String::from_str(f);
        let ghost ps = posts_view(self.postings@);
        let mut p: usize = 0;
        while p < self.postings.len()
            invariant
                p <= self.postings@.len(),
                wanted@ == f@,
                ps == posts_view(self.postings@),
                forall|q: int|
                    0 <= q < p ==> !((#[trigger] ps[q]).0 == f@ && ps[q].1 == key@),
            decreases self.postings@.len() - p,
        {
            if self.postings[p].key.same(key) && self.postings[p].field == wanted {
                return Some(p);
            }
            p = p + 1;
        }
        None
    }

    /// Where the numeric index of a field stands.
    pub fn find_number(&self, f: &str) -> (r: Option<usize>)
        ensures
            match r {
                Some(p) => p < self.numeric@.len() && self.numeric@[p as int].0@ == f@,
                None => !numbered(self@.numbers, f@),
            },
    {
        let wanted: String = String::from_str(f);
        let ghost ns = self@.numbers;
        let mut p: usize = 0;
        while p < self.numeric.len()
            invariant
                p <= self.numeric@.len(),
                wanted@ == f@,
                ns == self@.numbers,
                forall|q: int| 0 <= q < p ==> (#[trigger] ns[q]).0 != f@,
            decreases self.numeric@.len() - p,
        {
            if self.numeric[p].0 == wanted {
                return Some(p);
            }
            p = p + 1;
        }
        None
    }

    fn post(
        &mut self,
        f: &String,
        key: MetaKey,
        id: VectorId,
        Ghost(before): Ghost<Map<u64, Fields>>,
        Ghost(after): Ghost<Map<u64, Fields>>,
    )
        requires
            posts_ok(posts_view(old(self).postings@), before),
            adds(before, after, f@, key@, id),
        ensures
            posts_ok(posts_view(final(self).postings@), after),
            final(self).metadata == old(self).metadata,
            final(self).numeric == old(self).numeric,
    {
        let ghost ps = posts_view(self.postings@);
        let ghost k = key@;
        let p: usize = match self.find_posting(f.as_str(), &key) {
            Some(p) => {
                assert(ps[p as int].0 == f@ && ps[p as int].1 == k);
                p
            },
            None => {
                self.postings.push(Posting { field: f.clone(), key, ids: Vec::new() });
                self.postings.len() - 1
            },
        };
        let ghost grown = self.postings@;
        let ghost list = self.postings@[p as int].ids@;
        assert(ascending(list)) by {
            if p < ps.len() {
                assert(ascending(ps[p as int].2));
            }
        }
        posting_insert(&mut self.postings[p].ids, id);
        proof {
            let qs = posts_view(self.postings@);
            assert forall|q: int| 0 <= q < ps.len() && q != p implies (#[trigger] qs[q])
                == ps[q] by {
                assert(self.postings@[q] == grown[q]);
            }
            lemma_posts_add(ps, qs, before, after, p as int, f@, k, id);
        }
    }

    fn unpost(
        &mut self,
        f: &String,
        key: &MetaKey,
        id: VectorId,
        Ghost(before): Ghost<Map<u64, Fields>>,
        Ghost(after): Ghost<Map<u64, Fields>>,
    )
        requires
            posts_ok(posts_view(old(self).postings@), before),
            posted(before, f@, key@, id),
            drops(before, after, f@, key@, id),
        ensures
            posts_ok(posts_view(final(self).postings@), after),
            final(self).metadata == old(self).metadata,
            final(self).numeric == old(self).numeric,
    {
        let ghost ps = posts_view(self.postings@);
        if let Some(p) = self.find_posting(f.as_str(), key) {
            assert(ps[p as int].0 == f@ && ps[p as int].1 == key@);
            assert(ascending(ps[p as int].2));
            let ghost grown = self.postings@;
            posting_remove(&mut self.postings[p].ids, id);
            proof {
                let qs = posts_view(self.postings@);
                assert forall|q: int| 0 <= q < ps.len() && q != p implies (#[trigger] qs[q])
                    == ps[q] by {
                    assert(self.postings@[q] == grown[q]);
                }
                lemma_posts_drop(ps, qs, before, after, p as int, f@, key@, id);
            }
        }
    }
}

/// The number in a field.
pub open spec fn field_number(m: Fields, f: Seq<char>) -> Option<u64> {
    match field(m, f) {
        Some(v) => v.number(),
        None => None,
    }
}

/// A numeric index with the number of one record entered.
pub open spec fn entered(n: Option<Numeric>, g: Model, v: Option<u64>, id: VectorId) -> Option<
    Numeric,
> {
    match v {
        Some(x) => Some(
            (match n {
                Some(i) => i,
                None => Numeric::empty(),
            }).inserted(g, x, id),
        ),
        None => n,
    }
}

/// A numeric index with the number of one record taken out.
pub open spec fn left(n: Option<Numeric>, v: Option<u64>, id: VectorId) -> Option<Numeric> {
    match (n, v) {
        (Some(i), Some(x)) => Some(i.removed(x, id)),
        _ => n,
    }
}

pub open spec fn names_apart(ns: Numbers) -> bool {
    forall|p: int, q: int| 0 <= p < q < ns.len() ==> (#[trigger] ns[p]).0 != (#[trigger] ns[q]).0
}

pub proof fn lemma_number_index_at(ns: Numbers, p: int)
    requires
        names_apart(ns),
        0 <= p < ns.len(),
    ensures
        number_index(ns, ns[p].0) == Some(ns[p].1),
{
    let q = choose|q: int| 0 <= q < ns.len() && (#[trigger] ns[q]).0 == ns[p].0;
    if q < p {
        assert(ns[q].0 != ns[p].0);
    }
    if p < q {
        assert(ns[p].0 != ns[q].0);
    }
}

/// One index changed, or one index more.
proof fn lemma_number_index_changed(ns: Numbers, qs: Numbers, p: int, f: Seq<char>)
    requires
        names_apart(ns),
        names_apart(qs),
        0 <= p < qs.len(),
        qs[p].0 == f,
        p < ns.len() ==> qs.len() == ns.len() && ns[p].0 == f,
        p == ns.len() ==> qs.len() == ns.len() + 1 && !numbered(ns, f),
        p <= ns.len(),
        forall|q: int| 0 <= q < ns.len() && q != p ==> (#[trigger] qs[q]) == ns[q],
    ensures
        number_index(qs, f) == Some(qs[p].1),
        p < ns.len() ==> number_index(ns, f) == Some(ns[p].1),
        p == ns.len() ==> number_index(ns, f) is None,
        forall|g: Seq<char>| g != f ==> #[trigger] number_index(qs, g) == number_index(ns, g),
{
    lemma_number_index_at(qs, p);
    if p < ns.len() {
        lemma_number_index_at(ns, p);
    }
    assert forall|g: Seq<char>| g != f implies #[trigger] number_index(qs, g) == number_index(
        ns,
        g,
    ) by {
        if numbered(ns, g) {
            let q = choose|q: int| 0 <= q < ns.len() && (#[trigger] ns[q]).0 == g;
            lemma_number_index_at(ns, q);
            assert(qs[q] == ns[q]);
            lemma_number_index_at(qs, q);
        }
        if numbered(qs, g) {
            let q = choose|q: int| 0 <= q < qs.len() && (#[trigger] qs[q]).0 == g;
            assert(q != p);
            assert(qs[q] == ns[q]);
        }
    }
}

impl Catalog {
    /// Enters a number into the index of its field.
    fn enter<N: Numerics>(
        &mut self,
        num: &N,
        f: &String,
        v: u64,
        id: VectorId,
        Ghost(before): Ghost<Map<u64, Fields>>,
        Ghost(after): Ghost<Map<u64, Fields>>,
    )
        requires
            functional(num),
            old(self).numbers_wf(model(num)),
            numbers_ok(old(self)@.numbers, before),
            revalues(before, after, f@, id),
            valued(before, f@, id) is None,
            valued(after, f@, id) == Some(v),
            before.dom().finite(),
            before.contains_key(id.0),
            before.dom().len() <= usize::MAX,
        ensures
            final(self).numbers_wf(model(num)),
            numbers_ok(final(self)@.numbers, after),
            final(self).metadata == old(self).metadata,
            final(self).postings == old(self).postings,
            number_index(final(self)@.numbers, f@) == entered(
                number_index(old(self)@.numbers, f@),
                model(num),
                Some(v),
                id,
            ),
            forall|h: Seq<char>|
                h != f@ ==> #[trigger] number_index(final(self)@.numbers, h) == number_index(
                    old(self)@.numbers,
                    h,
                ),
    {
        let ghost g = model(num);
        let ghost ns = self@.numbers;
        let p: usize = match self.find_number(f.as_str()) {
            Some(p) => {
                assert(ns[p as int].0 == f@);
                p
            },
            None => {
                self.numeric.push((f.clone(), NumericFieldIndex::new(num)));
                self.numeric.len() - 1
            },
        };
        let ghost grown = self.numeric@;
        let ghost n = self.numeric@[p as int].1@;
        proof {
            assert(grown[p as int].1.wf(g)) by {
                if p < ns.len() {
                    assert(self.numeric@[p as int].1.wf(g));
                }
            }
            assert forall|key: u64, x: VectorId| #[trigger]
                occurs(n.entries, key, x) == due(before, f@, key, x) by {
                if p < ns.len() {
                    assert(occurs(ns[p as int].1.entries, key, x) == due(
                        before,
                        ns[p as int].0,
                        key,
                        x,
                    ));
                } else if valued(before, f@, x) is Some {
                    assert(numbered(ns, f@));
                }
            }
            lemma_due_single(n.entries, before, f@);
            let others = before.dom().remove(id.0);
            assert forall|key: u64, x: VectorId| #[trigger]
                occurs(n.entries, key, x) > 0 implies others.contains(x.0) by {
                assert(due(before, f@, key, x) > 0);
                assert(x != id);
                assert(x.0 != id.0);
            }
            crate::numeric::lemma_total_bound(n.entries, others);
            one_occurrence_comes_or_goes(n.entries, spec_ordered_bits(v), id);
        }
        self.numeric[p].1.insert(num, v, id);
        proof {
            let qs = self@.numbers;
            assert forall|q: int| 0 <= q < ns.len() && q != p implies (#[trigger] qs[q])
                == ns[q] by {
                assert(self.numeric@[q] == grown[q]);
            }
            assert forall|key: u64, x: VectorId| #[trigger]
                occurs(qs[p as int].1.entries, key, x) == due(after, f@, key, x) by {
                assert(occurs(n.entries, key, x) == due(before, f@, key, x));
                assert(x != id ==> valued(after, f@, x) == valued(before, f@, x));
            }
            lemma_numbers_change(ns, qs, before, after, p as int, f@, id);
            lemma_number_index_changed(ns, qs, p as int, f@);
            assert forall|q: int| 0 <= q < self.numeric@.len() implies (
            #[trigger] self.numeric@[q]).1.wf(g) by {
                if q != p {
                    assert(self.numeric@[q] == grown[q]);
                    assert(old(self).numeric@[q].1.wf(g));
                }
            }
        }
    }

    /// Takes a number out of the index of its field.
    fn leave<N: Numerics>(
        &mut self,
        num: &N,
        f: &String,
        v: u64,
        id: VectorId,
        Ghost(before): Ghost<Map<u64, Fields>>,
        Ghost(after): Ghost<Map<u64, Fields>>,
    )
        requires
            functional(num),
            old(self).numbers_wf(model(num)),
            numbers_ok(old(self)@.numbers, before),
            revalues(before, after, f@, id),
            valued(before, f@, id) == Some(v),
            valued(after, f@, id) is None,
        ensures
            final(self).numbers_wf(model(num)),
            numbers_ok(final(self)@.numbers, after),
            final(self).metadata == old(self).metadata,
            final(self).postings == old(self).postings,
            number_index(final(self)@.numbers, f@) == left(
                number_index(old(self)@.numbers, f@),
                Some(v),
                id,
            ),
            forall|h: Seq<char>|
                h != f@ ==> #[trigger] number_index(final(self)@.numbers, h) == number_index(
                    old(self)@.numbers,
                    h,
                ),
    {
        let ghost g = model(num);
        let ghost ns = self@.numbers;
        if let Some(p) = self.find_number(f.as_str()) {
            let ghost grown = self.numeric@;
            let ghost n = self.numeric@[p as int].1@;
            proof {
                assert(ns[p as int].0 == f@);
                assert(grown[p as int].1.wf(g));
                assert(occurs(ns[p as int].1.entries, spec_ordered_bits(v), id) == 1);
                one_occurrence_comes_or_goes(n.entries, spec_ordered_bits(v), id);
            }
            self.numeric[p].1.remove(num, v, id);
            proof {
                let qs = self@.numbers;
                assert forall|q: int| 0 <= q < ns.len() && q != p implies (#[trigger] qs[q])
                    == ns[q] by {
                    assert(self.numeric@[q] == grown[q]);
                }
                assert forall|key: u64, x: VectorId| #[trigger]
                    occurs(qs[p as int].1.entries, key, x) == due(after, f@, key, x) by {
                    assert(occurs(ns[p as int].1.entries, key, x) == due(
                        before,
                        ns[p as int].0,
                        key,
                        x,
                    ));
                    assert(x != id ==> valued(after, f@, x) == valued(before, f@, x));
                }
                lemma_numbers_change(ns, qs, before, after, p as int, f@, id);
                lemma_number_index_changed(ns, qs, p as int, f@);
                assert forall|q: int| 0 <= q < self.numeric@.len() implies (
                #[trigger] self.numeric@[q]).1.wf(g) by {
                    if q != p {
                        assert(self.numeric@[q] == grown[q]);
                    }
                }
            }
        }
    }
}

/// The record of an id is gone, from the metadata and from every numeric index.
pub open spec fn forgets(before: Records, after: Records, id: VectorId) -> bool {
    &&& after.meta == before.meta.remove(id.0)
    &&& forall|f: Seq<char>| #[trigger]
        number_index(after.numbers, f) == left(
            number_index(before.numbers, f),
            valued(before.meta, f, id),
            id,
        )
}

/// The record of an id is what is given, in place of one that was there.
pub open spec fn keeps(before: Records, after: Records, g: Model, id: VectorId, m: Fields) -> bool {
    &&& after.meta == before.meta.insert(id.0, m)
    &&& forall|f: Seq<char>| #[trigger]
        number_index(after.numbers, f) == entered(
            left(number_index(before.numbers, f), valued(before.meta, f, id), id),
            g,
            field_number(m, f),
            id,
        )
}

/// One more field of one record.
proof fn lemma_next_field(base: Map<u64, Fields>, id: VectorId, m: Fields, i: int)
    requires
        fields_ascend(m),
        0 <= i < m.len(),
    ensures
        adds(
            base.insert(id.0, m.take(i)),
            base.insert(id.0, m.take(i + 1)),
            m[i].0,
            m[i].1.key(),
            id,
        ),
        drops(
            base.insert(id.0, m.take(i + 1)),
            base.insert(id.0, m.take(i)),
            m[i].0,
            m[i].1.key(),
            id,
        ),
        posted(base.insert(id.0, m.take(i + 1)), m[i].0, m[i].1.key(), id),
        revalues(base.insert(id.0, m.take(i)), base.insert(id.0, m.take(i + 1)), m[i].0, id),
        revalues(base.insert(id.0, m.take(i + 1)), base.insert(id.0, m.take(i)), m[i].0, id),
        valued(base.insert(id.0, m.take(i)), m[i].0, id) is None,
        valued(base.insert(id.0, m.take(i + 1)), m[i].0, id) == m[i].1.number(),
        forall|f: Seq<char>| #[trigger]
            field_number(m.take(i + 1), f) == (if f == m[i].0 {
                m[i].1.number()
            } else {
                field_number(m.take(i), f)
            }),
        field_number(m.take(i), m[i].0) is None,
{
    lemma_take_field(m, i);
    let a = base.insert(id.0, m.take(i));
    let b = base.insert(id.0, m.take(i + 1));
    let f = m[i].0;
    let key = m[i].1.key();
    assert forall|g: Seq<char>, k: Key, x: VectorId| #[trigger]
        posted(b, g, k, x) <==> posted(a, g, k, x) || (g == f && k == key && x == id) by {
        if x.0 == id.0 {
            assert(x == id);
            if g != f {
                assert(field(m.take(i + 1), g) == field(m.take(i), g));
            }
        }
    }
    assert forall|g: Seq<char>, k: Key, x: VectorId| #[trigger]
        posted(a, g, k, x) <==> posted(b, g, k, x) && !(g == f && k == key && x == id) by {
        assert(posted(b, g, k, x) <==> posted(a, g, k, x) || (g == f && k == key && x == id));
    }
    assert forall|g: Seq<char>, x: VectorId|
        !(g == f && x == id) implies #[trigger] valued(b, g, x) == valued(a, g, x) by {
        if x.0 == id.0 {
            assert(x == id);
            assert(field(m.take(i + 1), g) == field(m.take(i), g));
        }
    }
}

/// A record without fields says nothing.
proof fn lemma_blank(base: Map<u64, Fields>, id: VectorId)
    requires
        !base.contains_key(id.0),
    ensures
        forall|f: Seq<char>, k: Key, x: VectorId| #[trigger]
            posted(base.insert(id.0, Seq::empty()), f, k, x) <==> posted(base, f, k, x),
        forall|f: Seq<char>, x: VectorId| #[trigger]
            valued(base.insert(id.0, Seq::empty()), f, x) == valued(base, f, x),
{
    let b = base.insert(id.0, Seq::empty());
    assert forall|f: Seq<char>, k: Key, x: VectorId| #[trigger]
        posted(b, f, k, x) <==> posted(base, f, k, x) by {
        lemma_no_field(f);
    }
    assert forall|f: Seq<char>, x: VectorId| #[trigger] valued(b, f, x) == valued(base, f, x) by {
        lemma_no_field(f);
    }
}

proof fn lemma_posts_same(ps: Seq<Post>, a: Map<u64, Fields>, b: Map<u64, Fields>)
    requires
        posts_ok(ps, a),
        forall|f: Seq<char>, k: Key, x: VectorId| #[trigger]
            posted(b, f, k, x) <==> posted(a, f, k, x),
    ensures
        posts_ok(ps, b),
{
    assert forall|p: int, id: VectorId| 0 <= p < ps.len() implies (#[trigger] ps[p].2.contains(
        id,
    ) <==> posted(b, ps[p].0, ps[p].1, id)) by {
        assert(posted(b, ps[p].0, ps[p].1, id) <==> posted(a, ps[p].0, ps[p].1, id));
    }
    assert forall|f: Seq<char>, key: Key, id: VectorId| #[trigger]
        posted(b, f, key, id) implies listed(ps, f, key) by {
        assert(posted(a, f, key, id));
    }
}

proof fn lemma_numbers_same(ns: Numbers, a: Map<u64, Fields>, b: Map<u64, Fields>)
    requires
        numbers_ok(ns, a),
        forall|f: Seq<char>, x: VectorId| #[trigger] valued(b, f, x) == valued(a, f, x),
    ensures
        numbers_ok(ns, b),
{
    assert forall|p: int, key: u64, id: VectorId| 0 <= p < ns.len() implies #[trigger] occurs(
        ns[p].1.entries,
        key,
        id,
    ) == due(b, ns[p].0, key, id) by {
        assert(valued(b, ns[p].0, id) == valued(a, ns[p].0, id));
        assert(occurs(ns[p].1.entries, key, id) == due(a, ns[p].0, key, id));
    }
    assert forall|f: Seq<char>, id: VectorId| #[trigger]
        valued(b, f, id) is Some implies numbered(ns, f) by {
        assert(valued(a, f, id) is Some);
    }
}

impl Catalog {
    /// Drops the record of an id, and what was derived from it.
    pub fn forget<N: Numerics>(&mut self, num: &N, id: VectorId)
        requires
            functional(num),
            old(self).wf(model(num)),
        ensures
            final(self).wf(model(num)),
            forgets(old(self)@, final(self)@, id),
    {
        let ghost was = self@;
        let meta: Metadata = match self.metadata.remove(id) {
            Some(m) => m,
            None => {
                assert(self@.meta =~= was.meta);
                return;
            },
        };
        let ghost g = model(num);
        let ghost m = meta@;
        let ghost base = was.meta.remove(id.0);
        let n: usize = meta.fields.len();
        assert(m.take(n as int) =~= m);
        assert(base.insert(id.0, m) =~= was.meta);
        let mut i: usize = n;
        while i > 0
            invariant
                i <= n == meta.fields@.len(),
                m == meta@,
                fields_ascend(m),
                self.metadata.wf(),
                self@.meta == base,
                posts_ok(posts_view(self.postings@), base.insert(id.0, m.take(i as int))),
                self.numeric == old(self).numeric,
            decreases i,
        {
            i = i - 1;
            let key: MetaKey = meta.fields[i].1.key();
            proof {
                lemma_next_field(base, id, m, i as int);
                assert(m[i as int] == (meta.fields@[i as int].0@, meta.fields@[i as int].1@));
            }
            self.unpost(
                &meta.fields[i].0,
                &key,
                id,
                Ghost(base.insert(id.0, m.take(i + 1))),
                Ghost(base.insert(id.0, m.take(i as int))),
            );
        }
        let mut i: usize = n;
        while i > 0
            invariant
                functional(num),
                g == model(num),
                i <= n == meta.fields@.len(),
                m == meta@,
                fields_ascend(m),
                self.metadata.wf(),
                self@.meta == base,
                posts_ok(posts_view(self.postings@), base.insert(id.0, m.take(0))),
                self.numbers_wf(g),
                numbers_ok(self@.numbers, base.insert(id.0, m.take(i as int))),
                forall|f: Seq<char>| #[trigger]
                    number_index(self@.numbers, f) == (if field_number(m.take(i as int), f) is None {
                        left(number_index(was.numbers, f), field_number(m, f), id)
                    } else {
                        number_index(was.numbers, f)
                    }),
                forall|f: Seq<char>|
                    field_number(m.take(i as int), f) is Some ==> #[trigger] field_number(
                        m.take(i as int),
                        f,
                    ) == field_number(m, f),
            decreases i,
        {
            i = i - 1;
            proof {
                lemma_next_field(base, id, m, i as int);
                assert(m[i as int] == (meta.fields@[i as int].0@, meta.fields@[i as int].1@));
                lemma_take_number(m, i as int);
            }
            let ghost cur = self@.numbers;
            match meta.fields[i].1.as_number() {
                Some(v) => {
                    self.leave(
                        num,
                        &meta.fields[i].0,
                        v,
                        id,
                        Ghost(base.insert(id.0, m.take(i + 1))),
                        Ghost(base.insert(id.0, m.take(i as int))),
                    );
                    assert forall|f: Seq<char>| #[trigger]
                        number_index(self@.numbers, f) == (if field_number(m.take(i as int), f) is None {
                            left(number_index(was.numbers, f), field_number(m, f), id)
                        } else {
                            number_index(was.numbers, f)
                        }) by {
                        assert(field_number(m.take(i + 1), f) == field_number(m.take(i + 1), f));
                        if f != m[i as int].0 {
                            assert(number_index(self@.numbers, f) == number_index(cur, f));
                        } else {
                            assert(number_index(cur, f) == number_index(was.numbers, f));
                        }
                    }
                },
                None => {
                    proof {
                        assert forall|f: Seq<char>, x: VectorId| #[trigger]
                            valued(base.insert(id.0, m.take(i as int)), f, x) == valued(
                                base.insert(id.0, m.take(i + 1)),
                                f,
                                x,
                            ) by {}
                        lemma_numbers_same(
                            cur,
                            base.insert(id.0, m.take(i + 1)),
                            base.insert(id.0, m.take(i as int)),
                        );
                    }
                    assert forall|f: Seq<char>| #[trigger]
                        number_index(self@.numbers, f) == (if field_number(m.take(i as int), f) is None {
                            left(number_index(was.numbers, f), field_number(m, f), id)
                        } else {
                            number_index(was.numbers, f)
                        }) by {
                        assert(field_number(m.take(i + 1), f) == field_number(m.take(i as int), f));
                    }
                },
            }
        }
        proof {
            assert(m.take(0) =~= Seq::empty());
            lemma_blank(base, id);
            lemma_posts_same(
                posts_view(self.postings@),
                base.insert(id.0, Seq::empty()),
                base,
            );
            lemma_numbers_same(self@.numbers, base.insert(id.0, Seq::empty()), base);
            assert forall|f: Seq<char>| #[trigger]
                number_index(self@.numbers, f) == left(
                    number_index(was.numbers, f),
                    valued(was.meta, f, id),
                    id,
                ) by {
                lemma_no_field(f);
                assert(field_number(m.take(0), f) is None);
                assert(valued(was.meta, f, id) == field_number(m, f));
            }
        }
    }

    /// Keeps the record of an id, and derives what follows from it.
    pub fn index_metadata<N: Numerics>(&mut self, num: &N, id: VectorId, meta: Metadata)
        requires
            functional(num),
            old(self).wf(model(num)),
            meta.wf(),
        ensures
            final(self).wf(model(num)),
            keeps(old(self)@, final(self)@, model(num), id, meta@),
    {
        broadcast use vstd::std_specs::hash::group_hash_axioms;

        let ghost was = self@;
        self.forget(num, id);
        let ghost mid = self@;
        let ghost g = model(num);
        let ghost m = meta@;
        let ghost base = self@.meta;
        let n: usize = meta.fields.len();
        self.metadata.insert(id, meta.clone());
        let count: usize = self.metadata.len();
        assert(base.dom().finite() && base.insert(id.0, m).dom().len() <= usize::MAX) by {
            assert(self@.meta.dom() =~= self.metadata.records@.dom());
            assert(self@.meta.dom() =~= base.dom().insert(id.0));
            assert(base.dom() =~= self@.meta.dom().remove(id.0));
        }
        proof {
            assert(m.take(0) =~= Seq::empty());
            lemma_blank(base, id);
            lemma_posts_same(posts_view(self.postings@), base, base.insert(id.0, m.take(0)));
            lemma_numbers_same(self@.numbers, base, base.insert(id.0, m.take(0)));
        }
        let mut i: usize = 0;
        while i < n
            invariant
                i <= n == meta.fields@.len(),
                m == meta@,
                fields_ascend(m),
                self.metadata.wf(),
                self@.meta == base.insert(id.0, m),
                posts_ok(posts_view(self.postings@), base.insert(id.0, m.take(i as int))),
                self.numbers_wf(g),
                numbers_ok(self@.numbers, base.insert(id.0, m.take(0))),
                self@.numbers == mid.numbers,
            decreases n - i,
        {
            let key: MetaKey = meta.fields[i].1.key();
            proof {
                lemma_next_field(base, id, m, i as int);
                assert(m[i as int] == (meta.fields@[i as int].0@, meta.fields@[i as int].1@));
            }
            self.post(
                &meta.fields[i].0,
                key,
                id,
                Ghost(base.insert(id.0, m.take(i as int))),
                Ghost(base.insert(id.0, m.take(i + 1))),
            );
            i = i + 1;
        }
        assert forall|f: Seq<char>| #[trigger]
            number_index(self@.numbers, f) == entered(
                number_index(mid.numbers, f),
                g,
                field_number(m.take(0), f),
                id,
            ) by {
            lemma_no_field(f);
        }
        let mut i: usize = 0;
        while i < n
            invariant
                functional(num),
                g == model(num),
                i <= n == meta.fields@.len(),
                m == meta@,
                fields_ascend(m),
                self.metadata.wf(),
                self@.meta == base.insert(id.0, m),
                base.dom().finite(),
                base.insert(id.0, m).dom().len() <= usize::MAX,
                posts_ok(posts_view(self.postings@), base.insert(id.0, m.take(n as int))),
                self.numbers_wf(g),
                numbers_ok(self@.numbers, base.insert(id.0, m.take(i as int))),
                forall|f: Seq<char>| #[trigger]
                    number_index(self@.numbers, f) == entered(
                        number_index(mid.numbers, f),
                        g,
                        field_number(m.take(i as int), f),
                        id,
                    ),
            decreases n - i,
        {
            proof {
                lemma_next_field(base, id, m, i as int);
                assert(m[i as int] == (meta.fields@[i as int].0@, meta.fields@[i as int].1@));
                assert(base.insert(id.0, m.take(i as int)).dom() =~= base.insert(id.0, m).dom());
            }
            let ghost cur = self@.numbers;
            match meta.fields[i].1.as_number() {
                Some(v) => {
                    self.enter(
                        num,
                        &meta.fields[i].0,
                        v,
                        id,
                        Ghost(base.insert(id.0, m.take(i as int))),
                        Ghost(base.insert(id.0, m.take(i + 1))),
                    );
                    assert forall|f: Seq<char>| #[trigger]
                        number_index(self@.numbers, f) == entered(
                            number_index(mid.numbers, f),
                            g,
                            field_number(m.take(i + 1), f),
                            id,
                        ) by {
                        assert(field_number(m.take(i + 1), f) == field_number(m.take(i + 1), f));
                        assert(number_index(cur, f) == entered(
                            number_index(mid.numbers, f),
                            g,
                            field_number(m.take(i as int), f),
                            id,
                        ));
                    }
                },
                None => {
                    proof {
                        assert forall|f: Seq<char>, x: VectorId| #[trigger]
                            valued(base.insert(id.0, m.take(i + 1)), f, x) == valued(
                                base.insert(id.0, m.take(i as int)),
                                f,
                                x,
                            ) by {}
                        lemma_numbers_same(
                            cur,
                            base.insert(id.0, m.take(i as int)),
                            base.insert(id.0, m.take(i + 1)),
                        );
                    }
                    assert forall|f: Seq<char>| #[trigger]
                        number_index(self@.numbers, f) == entered(
                            number_index(mid.numbers, f),
                            g,
                            field_number(m.take(i + 1), f),
                            id,
                        ) by {
                        assert(field_number(m.take(i + 1), f) == field_number(m.take(i as int), f));
                    }
                },
            }
            i = i + 1;
        }
        proof {
            assert(m.take(n as int) =~= m);
            assert(base.insert(id.0, m) =~= was.meta.insert(id.0, m));
        }
    }
}

/// A number among the first fields is the number of the field.
proof fn lemma_take_number(m: Fields, i: int)
    requires
        fields_ascend(m),
        0 <= i <= m.len(),
    ensures
        forall|f: Seq<char>|
            field_number(m.take(i), f) is Some ==> #[trigger] field_number(m.take(i), f)
                == field_number(m, f),
        i < m.len() ==> field_number(m, m[i].0) == m[i].1.number(),
{
    let a = m.take(i);
    assert forall|x: int, y: int| 0 <= x < y < a.len() implies crate::meta::text_lt(
        (#[trigger] a[x]).0,
        (#[trigger] a[y]).0,
    ) by {
        assert(a[x] == m[x] && a[y] == m[y]);
    }
    assert forall|f: Seq<char>|
        field_number(a, f) is Some implies #[trigger] field_number(a, f) == field_number(m, f) by {
        let x = choose|x: int| 0 <= x < a.len() && (#[trigger] a[x]).0 == f;
        assert(a[x] == m[x]);
        lemma_field_at(a, x);
        lemma_field_at(m, x);
    }
    if i < m.len() {
        lemma_field_at(m, i);
    }
}

} // verus!
