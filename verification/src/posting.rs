//! Lists of ids in strictly ascending order: posting lists and tombstones.

use vstd::prelude::*;
use crate::types::VectorId;

verus! {

/// Every id precedes the next.
pub open spec fn ascending(s: Seq<VectorId>) -> bool {
    forall|i: int, j: int| 0 <= i < j < s.len() ==> (#[trigger] s[i]).0 < (#[trigger] s[j]).0
}

/// An ascending list is determined by what it contains.
pub proof fn lemma_ascending_unique(s: Seq<VectorId>, t: Seq<VectorId>)
    requires
        ascending(s),
        ascending(t),
        forall|id: VectorId| #[trigger] s.contains(id) <==> t.contains(id),
    ensures
        s == t,
    decreases s.len(),
{
    if s.len() == 0 {
        if t.len() > 0 {
            assert(t.contains(t[0]));
            assert(s.contains(t[0]));
        }
        assert(s =~= t);
    } else {
        assert(s.contains(s.last()));
        let i = choose|i: int| 0 <= i < t.len() && t[i] == s.last();
        assert(t.contains(t.last()));
        assert(s.contains(t.last()));
        let j = choose|j: int| 0 <= j < s.len() && s[j] == t.last();
        if i < t.len() - 1 {
            assert(t[i].0 < t[t.len() - 1].0);
            if j < s.len() - 1 {
                assert(s[j].0 < s[s.len() - 1].0);
            }
        }
        let s1 = s.drop_last();
        let t1 = t.drop_last();
        assert forall|id: VectorId| #[trigger] s1.contains(id) <==> t1.contains(id) by {
            lemma_drop_last_contains(s, id);
            lemma_drop_last_contains(t, id);
            assert(s.contains(id) <==> t.contains(id));
        }
        lemma_ascending_unique(s1, t1);
        assert(s =~= s1.push(s.last()));
        assert(t =~= t1.push(t.last()));
    }
}

proof fn lemma_drop_last_contains(s: Seq<VectorId>, id: VectorId)
    requires
        ascending(s),
        s.len() > 0,
    ensures
        s.drop_last().contains(id) <==> s.contains(id) && id != s.last(),
{
    if s.drop_last().contains(id) {
        let i = choose|i: int| 0 <= i < s.drop_last().len() && s.drop_last()[i] == id;
        assert(s[i] == id);
        assert(s[i].0 < s[s.len() - 1].0);
    }
    if s.contains(id) && id != s.last() {
        let i = choose|i: int| 0 <= i < s.len() && s[i] == id;
        assert(s.drop_last()[i] == id);
    }
}

/// An ascending list repeats nothing.
pub proof fn lemma_ascending_distinct(s: Seq<VectorId>)
    requires
        ascending(s),
    ensures
        s.no_duplicates(),
{
    assert forall|i: int, j: int| 0 <= i < s.len() && 0 <= j < s.len() && i != j implies s[i]
        != s[j] by {
        if i < j {
            assert(s[i].0 < s[j].0);
        } else {
            assert(s[j].0 < s[i].0);
        }
    }
}

/// The list with an id in its place.
pub open spec fn with_id(s: Seq<VectorId>, id: VectorId) -> Seq<VectorId>
    decreases s.len(),
{
    if s.len() == 0 || s.last().0 < id.0 {
        s.push(id)
    } else if s.last() == id {
        s
    } else {
        with_id(s.drop_last(), id).push(s.last())
    }
}

pub proof fn lemma_with_id(s: Seq<VectorId>, id: VectorId)
    requires
        ascending(s),
    ensures
        ascending(with_id(s, id)),
        forall|x: VectorId| #[trigger] with_id(s, id).contains(x) <==> s.contains(x) || x == id,
    decreases s.len(),
{
    let w = with_id(s, id);
    if s.len() == 0 || s.last().0 < id.0 {
        assert forall|i: int, j: int| 0 <= i < j < w.len() implies (#[trigger] w[i]).0 < (
        #[trigger] w[j]).0 by {
            assert(w[i] == s[i]);
            if j == s.len() && i < s.len() - 1 {
                assert(s[i].0 < s[s.len() - 1].0);
            }
        }
        assert forall|x: VectorId| #[trigger] w.contains(x) <==> s.contains(x) || x == id by {
            if s.contains(x) {
                let i = choose|i: int| 0 <= i < s.len() && s[i] == x;
                assert(w[i] == x);
            }
            assert(w[s.len() as int] == id);
        }
    } else if s.last() == id {
        assert(s[s.len() - 1] == id);
    } else {
        let t = s.drop_last();
        let u = with_id(t, id);
        assert forall|i: int, j: int| 0 <= i < j < t.len() implies (#[trigger] t[i]).0 < (
        #[trigger] t[j]).0 by {
            assert(t[i] == s[i] && t[j] == s[j]);
        }
        lemma_with_id(t, id);
        assert forall|x: VectorId| u.contains(x) implies x.0 < s.last().0 by {
            if x != id {
                assert(t.contains(x));
                let i = choose|i: int| 0 <= i < t.len() && t[i] == x;
                assert(s[i].0 < s[s.len() - 1].0);
            }
        }
        assert forall|i: int, j: int| 0 <= i < j < w.len() implies (#[trigger] w[i]).0 < (
        #[trigger] w[j]).0 by {
            assert(w[i] == u[i]);
            if j == u.len() {
                assert(u.contains(u[i]));
            } else {
                assert(w[j] == u[j]);
            }
        }
        assert forall|x: VectorId| #[trigger] w.contains(x) <==> s.contains(x) || x == id by {
            lemma_drop_last_contains(s, x);
            assert(u.contains(x) <==> t.contains(x) || x == id);
            if u.contains(x) {
                let i = choose|i: int| 0 <= i < u.len() && u[i] == x;
                assert(w[i] == x);
            }
            assert(w[u.len() as int] == s.last());
            if w.contains(x) {
                let i = choose|i: int| 0 <= i < w.len() && w[i] == x;
                if i < u.len() {
                    assert(u[i] == x);
                }
            }
            assert(s.contains(s.last()));
        }
    }
}

/// A finite set of ids has an ascending list.
pub proof fn lemma_list_of_set(ids: Set<u64>) -> (s: Seq<VectorId>)
    requires
        ids.finite(),
    ensures
        ascending(s),
        forall|x: VectorId| #[trigger] s.contains(x) <==> ids.contains(x.0),
    decreases ids.len(),
{
    if ids.len() == 0 {
        assert(ids =~= Set::empty());
        Seq::empty()
    } else {
        let id = ids.choose();
        let t = lemma_list_of_set(ids.remove(id));
        lemma_with_id(t, VectorId(id));
        let s = with_id(t, VectorId(id));
        assert forall|x: VectorId| #[trigger] s.contains(x) <==> ids.contains(x.0) by {
            assert(s.contains(x) <==> t.contains(x) || x == VectorId(id));
            assert(t.contains(x) <==> ids.remove(id).contains(x.0));
        }
        s
    }
}

/// How many ids of the list precede `id`.
fn place(list: &Vec<VectorId>, id: VectorId) -> (p: usize)
    requires
        ascending(list@),
    ensures
        p <= list@.len(),
        forall|i: int| 0 <= i < p ==> (#[trigger] list@[i]).0 < id.0,
        forall|i: int| p <= i < list@.len() ==> (#[trigger] list@[i]).0 >= id.0,
{
    let mut lo: usize = 0;
    let mut hi: usize = list.len();
    while lo < hi
        invariant
            ascending(list@),
            lo <= hi <= list@.len(),
            forall|i: int| 0 <= i < lo ==> (#[trigger] list@[i]).0 < id.0,
            forall|i: int| hi <= i < list@.len() ==> (#[trigger] list@[i]).0 >= id.0,
        decreases hi - lo,
    {
        let mid: usize = lo + (hi - lo) / 2;
        if list[mid].0 < id.0 {
            assert forall|i: int| 0 <= i < mid + 1 implies (#[trigger] list@[i]).0 < id.0 by {
                if i < mid {
                    assert(list@[i].0 < list@[mid as int].0);
                }
            }
            lo = mid + 1;
        } else {
            assert forall|i: int| mid <= i < list@.len() implies (#[trigger] list@[i]).0
                >= id.0 by {
                if mid < i {
                    assert(list@[mid as int].0 < list@[i].0);
                }
            }
            hi = mid;
        }
    }
    lo
}

/// Is the id in the list?
pub fn posting_contains(list: &Vec<VectorId>, id: VectorId) -> (b: bool)
    requires
        ascending(list@),
    ensures
        b == list@.contains(id),
{
    let p: usize = place(list, id);
    if p < list.len() && list[p].0 == id.0 {
        assert(list@[p as int] == id);
        true
    } else {
        false
    }
}

/// Inserts an id; nothing happens where it is there already. Returns whether
/// it was new.
pub fn posting_insert(list: &mut Vec<VectorId>, id: VectorId) -> (fresh: bool)
    requires
        ascending(old(list)@),
    ensures
        ascending(final(list)@),
        forall|x: VectorId| #[trigger]
            final(list)@.contains(x) <==> old(list)@.contains(x) || x == id,
        fresh == !old(list)@.contains(id),
        final(list)@.len() == old(list)@.len() + (if fresh {
            1int
        } else {
            0
        }),
        !fresh ==> final(list)@ == old(list)@,
        final(list)@ == with_id(old(list)@, id),
{
    let ghost before = list@;
    let p: usize = place(list, id);
    proof {
        lemma_with_id(before, id);
    }
    if p < list.len() && list[p].0 == id.0 {
        assert(list@[p as int] == id);
        proof {
            lemma_ascending_unique(before, with_id(before, id));
        }
        return false;
    }
    assert(!before.contains(id));
    list.insert(p, id);
    assert forall|i: int, j: int| 0 <= i < j < list@.len() implies (#[trigger] list@[i]).0 < (
    #[trigger] list@[j]).0 by {
        let a = if i < p { i } else { i - 1 };
        let b = if j < p { j } else { j - 1 };
        if i != p && j != p {
            assert(list@[i] == before[a] && list@[j] == before[b]);
        } else if i == p {
            assert(list@[j] == before[b]);
        } else {
            assert(list@[i] == before[a]);
        }
    }
    assert forall|x: VectorId| #[trigger] list@.contains(x) <==> before.contains(x) || x == id by {
        if list@.contains(x) && x != id {
            let i = choose|i: int| 0 <= i < list@.len() && list@[i] == x;
            assert(before[if i < p { i } else { i - 1 }] == x);
        }
        if before.contains(x) {
            let i = choose|i: int| 0 <= i < before.len() && before[i] == x;
            assert(list@[if i < p { i } else { i + 1 }] == x);
        }
        assert(list@[p as int] == id);
    }
    proof {
        lemma_ascending_unique(list@, with_id(before, id));
    }
    true
}

/// Removes an id; nothing happens where it is absent.
pub fn posting_remove(list: &mut Vec<VectorId>, id: VectorId)
    requires
        ascending(old(list)@),
    ensures
        ascending(final(list)@),
        forall|x: VectorId| #[trigger]
            final(list)@.contains(x) <==> old(list)@.contains(x) && x != id,
{
    let ghost before = list@;
    let p: usize = place(list, id);
    if p < list.len() && list[p].0 == id.0 {
        list.remove(p);
        assert forall|x: VectorId| #[trigger] list@.contains(x) <==> before.contains(x) && x
            != id by {
            if list@.contains(x) {
                let i = choose|i: int| 0 <= i < list@.len() && list@[i] == x;
                let a = if i < p { i } else { i + 1 };
                assert(before[a] == x);
                if a < p {
                    assert(before[a].0 < before[p as int].0);
                } else {
                    assert(before[p as int].0 < before[a].0);
                }
            }
            if before.contains(x) && x != id {
                let i = choose|i: int| 0 <= i < before.len() && before[i] == x;
                assert(i != p);
                assert(list@[if i < p { i } else { i - 1 }] == x);
            }
        }
    }
}

/// A copy of a list.
pub fn copied(list: &Vec<VectorId>) -> (r: Vec<VectorId>)
    ensures
        r@ == list@,
{
    let mut out: Vec<VectorId> = Vec::with_capacity(list.len());
    let mut i: usize = 0;
    while i < list.len()
        invariant
            i <= list@.len(),
            out@ == list@.take(i as int),
        decreases list@.len() - i,
    {
        out.push(list[i]);
        i = i + 1;
        assert(list@.take(i as int) =~= list@.take(i - 1).push(list@[i - 1]));
    }
    assert(list@.take(i as int) =~= list@);
    out
}

} // verus!
