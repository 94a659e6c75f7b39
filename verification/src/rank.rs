//! Sequences ordered by an integer key: insertion, sorting and bounded
//! selection of the smallest elements.

use vstd::prelude::*;

verus! {

/// A type whose values are totally ordered by an integer key.
pub trait Ranked: Copy {
    spec fn key(self) -> int;

    proof fn key_injective(self, other: Self)
        requires
            self.key() == other.key(),
        ensures
            self == other,
    ;

    fn rank_key(&self) -> (k: u128)
        ensures
            k == self.key(),
    ;
}

/// Keys ascend (equal neighbours allowed).
pub open spec fn sorted<T: Ranked>(s: Seq<T>) -> bool {
    forall|i: int, j: int| 0 <= i <= j < s.len() ==> (#[trigger] s[i]).key() <= (#[trigger] s[j]).key()
}

/// How many leading elements have a key below `k`.
pub open spec fn position<T: Ranked>(s: Seq<T>, k: int) -> int
    decreases s.len(),
{
    if s.len() > 0 && s[0].key() < k {
        1 + position(s.drop_first(), k)
    } else {
        0
    }
}

/// `x` put in front of the first element that does not precede it.
pub open spec fn inserted<T: Ranked>(s: Seq<T>, x: T) -> Seq<T> {
    s.insert(position(s, x.key()), x)
}

/// The elements of `s` in ascending order of their keys.
pub open spec fn ranked<T: Ranked>(s: Seq<T>) -> Seq<T>
    decreases s.len(),
{
    if s.len() == 0 {
        s
    } else {
        inserted(ranked(s.drop_last()), s.last())
    }
}

/// The `k` smallest elements of `s` in ascending order, or all of them where
/// there are fewer.
pub open spec fn smallest<T: Ranked>(s: Seq<T>, k: nat) -> Seq<T> {
    first_k(ranked(s), k)
}

/// The first `k` elements, or all of them where there are fewer.
pub open spec fn first_k<T>(s: Seq<T>, k: nat) -> Seq<T> {
    if s.len() <= k {
        s
    } else {
        s.take(k as int)
    }
}

/// What a list that keeps the `k` smallest becomes when `x` arrives.
pub open spec fn kept<T: Ranked>(s: Seq<T>, x: T, k: nat) -> Seq<T> {
    if s.len() < k {
        inserted(s, x)
    } else if s.len() > 0 && x.key() < s.last().key() {
        inserted(s.drop_last(), x)
    } else {
        s
    }
}

pub proof fn lemma_position_bounds<T: Ranked>(s: Seq<T>, k: int)
    ensures
        0 <= position(s, k) <= s.len(),
        forall|i: int| 0 <= i < position(s, k) ==> (#[trigger] s[i]).key() < k,
        position(s, k) < s.len() ==> s[position(s, k)].key() >= k,
    decreases s.len(),
{
    if s.len() > 0 && s[0].key() < k {
        let t = s.drop_first();
        lemma_position_bounds(t, k);
        assert forall|i: int| 0 <= i < position(s, k) implies (#[trigger] s[i]).key() < k by {
            if i > 0 {
                assert(s[i] == t[i - 1]);
            }
        }
        if position(s, k) < s.len() {
            assert(s[position(s, k)] == t[position(t, k)]);
        }
    }
}

/// The position is the one place that separates smaller keys from the rest.
pub proof fn lemma_position_unique<T: Ranked>(s: Seq<T>, k: int, p: int)
    requires
        0 <= p <= s.len(),
        forall|i: int| 0 <= i < p ==> (#[trigger] s[i]).key() < k,
        p < s.len() ==> s[p].key() >= k,
    ensures
        position(s, k) == p,
{
    lemma_position_bounds(s, k);
    let q = position(s, k);
    if q < p {
        assert(s[q].key() < k);
    }
    if p < q {
        assert(s[p].key() < k);
    }
}

pub proof fn lemma_inserted<T: Ranked>(s: Seq<T>, x: T)
    requires
        sorted(s),
    ensures
        sorted(inserted(s, x)),
        inserted(s, x).len() == s.len() + 1,
        inserted(s, x).to_multiset() == s.to_multiset().insert(x),
        forall|y: T| inserted(s, x).contains(y) <==> (s.contains(y) || y == x),
        0 <= position(s, x.key()) <= s.len(),
        inserted(s, x)[position(s, x.key())] == x,
{
    let p = position(s, x.key());
    lemma_position_bounds(s, x.key());
    let t = inserted(s, x);
    assert forall|i: int, j: int| 0 <= i <= j < t.len() implies (#[trigger] t[i]).key() <= (
    #[trigger] t[j]).key() by {
        if i < p && j > p {
            assert(t[j] == s[j - 1]);
        } else if i == p && j > p {
            assert(t[j] == s[j - 1]);
            assert(s[p].key() <= s[j - 1].key());
        } else if i > p {
            assert(t[i] == s[i - 1]);
            assert(t[j] == s[j - 1]);
        }
    }
    vstd::seq_lib::to_multiset_insert(s, p, x);
    assert forall|y: T| t.contains(y) <==> (s.contains(y) || y == x) by {
        if s.contains(y) {
            let i = choose|i: int| 0 <= i < s.len() && s[i] == y;
            if i < p {
                assert(t[i] == y);
            } else {
                assert(t[i + 1] == y);
            }
        }
        if y == x {
            assert(t[p] == x);
        }
        if t.contains(y) {
            let i = choose|i: int| 0 <= i < t.len() && t[i] == y;
            if i < p {
                assert(s[i] == y);
            } else if i > p {
                assert(s[i - 1] == y);
            }
        }
    }
}

/// Sorting keeps the elements and orders them.
pub proof fn lemma_ranked<T: Ranked>(s: Seq<T>)
    ensures
        sorted(ranked(s)),
        ranked(s).len() == s.len(),
        ranked(s).to_multiset() == s.to_multiset(),
        forall|y: T| ranked(s).contains(y) <==> s.contains(y),
    decreases s.len(),
{
    if s.len() > 0 {
        let t = s.drop_last();
        lemma_ranked(t);
        lemma_inserted(ranked(t), s.last());
        assert(s == t.push(s.last()));
        vstd::seq_lib::to_multiset_build(t, s.last());
        assert forall|y: T| ranked(s).contains(y) <==> s.contains(y) by {
            if t.contains(y) {
                let i = choose|i: int| 0 <= i < t.len() && t[i] == y;
                assert(s[i] == y);
            }
            if s.contains(y) && y != s.last() {
                let i = choose|i: int| 0 <= i < s.len() && s[i] == y;
                assert(t[i] == y);
            }
        }
    }
}

/// Two ascending arrangements of the same elements are the same sequence.
pub proof fn lemma_sorted_unique<T: Ranked>(a: Seq<T>, b: Seq<T>)
    requires
        sorted(a),
        sorted(b),
        a.to_multiset() == b.to_multiset(),
    ensures
        a == b,
    decreases a.len(),
{
    broadcast use vstd::seq_lib::group_to_multiset_ensures;

    a.to_multiset_ensures();
    b.to_multiset_ensures();
    assert(a.len() == a.to_multiset().len());
    assert(b.len() == b.to_multiset().len());
    if a.len() > 0 {
        let x = a.last();
        let y = b.last();
        assert(a.to_multiset().count(x) > 0);
        assert(b.contains(x));
        assert(b.to_multiset().count(y) > 0);
        assert(a.contains(y));
        let i = choose|i: int| 0 <= i < b.len() && b[i] == x;
        let j = choose|j: int| 0 <= j < a.len() && a[j] == y;
        assert(b[i].key() <= b[b.len() - 1].key());
        assert(a[j].key() <= a[a.len() - 1].key());
        x.key_injective(y);
        assert(a.drop_last() == a.remove(a.len() - 1));
        assert(b.drop_last() == b.remove(b.len() - 1));
        lemma_sorted_unique(a.drop_last(), b.drop_last());
        assert(a == a.drop_last().push(x));
        assert(b == b.drop_last().push(y));
    }
}

/// Keeping the `k` smallest element by element gives the `k` smallest of the
/// whole.
pub proof fn lemma_kept<T: Ranked>(s: Seq<T>, x: T, k: nat)
    ensures
        kept(smallest(s, k), x, k) == smallest(s.push(x), k),
        sorted(smallest(s, k)),
{
    let r = ranked(s);
    lemma_ranked(s);
    assert(s.push(x).drop_last() == s);
    assert(ranked(s.push(x)) == inserted(r, x));
    lemma_inserted(r, x);
    lemma_position_bounds(r, x.key());
    let p = position(r, x.key());
    let t = smallest(s, k);
    let u = smallest(s.push(x), k);
    if k > 0 && r.len() >= k {
        assert(t == r.take(k as int));
        assert(u == inserted(r, x).take(k as int));
        if x.key() < t.last().key() {
            let d = t.drop_last();
            assert(p < k) by {
                if p >= k {
                    assert(r[k - 1].key() < x.key());
                }
            }
            lemma_position_unique(d, x.key(), p);
            assert(u =~= inserted(d, x));
        } else {
            assert forall|i: int| 0 <= i < k implies u[i] == t[i] by {
                if i == p {
                    assert(r[i].key() <= r[k - 1].key());
                    r[i].key_injective(x);
                } else if i > p {
                    assert(u[i] == r[i - 1]);
                    assert(r[p].key() <= r[i - 1].key() <= r[i].key() <= r[k - 1].key());
                    r[i].key_injective(r[i - 1]);
                }
            }
            assert(u =~= t);
        }
    } else if k == 0 {
        assert(t =~= Seq::empty());
        assert(u =~= Seq::empty());
    }
}

/// The smallest elements do not depend on the order of the sequence.
pub proof fn lemma_smallest_unordered<T: Ranked>(a: Seq<T>, b: Seq<T>, k: nat)
    requires
        a.to_multiset() == b.to_multiset(),
    ensures
        ranked(a) == ranked(b),
        smallest(a, k) == smallest(b, k),
{
    lemma_ranked(a);
    lemma_ranked(b);
    lemma_sorted_unique(ranked(a), ranked(b));
}

/// More elements never push the worst of a full selection up.
proof fn lemma_full_selection<T: Ranked>(t: Seq<T>, a: Seq<T>, k: nat)
    requires
        k > 0,
        smallest(t, k).len() == k,
    ensures
        smallest(t + a, k).len() == k,
        smallest(t + a, k).last().key() <= smallest(t, k).last().key(),
    decreases a.len(),
{
    if a.len() == 0 {
        assert(t + a =~= t);
    } else {
        let b = a.drop_last();
        let x = a.last();
        lemma_full_selection(t, b, k);
        assert(t + a =~= (t + b).push(x));
        lemma_kept(t + b, x, k);
        let s = smallest(t + b, k);
        if x.key() < s.last().key() {
            lemma_position_bounds(s.drop_last(), x.key());
            let d = inserted(s.drop_last(), x);
            if position(s.drop_last(), x.key()) < d.len() - 1 {
                assert(d.last() == s[k - 2]);
            } else {
                assert(d.last() == x);
            }
        }
    }
}

/// Elements that do not precede a full selection change nothing.
proof fn lemma_selection_ignores<T: Ranked>(s: Seq<T>, u: Seq<T>, k: nat)
    requires
        k > 0,
        smallest(s, k).len() == k,
        forall|i: int| 0 <= i < u.len() ==> smallest(s, k).last().key() <= (#[trigger] u[i]).key(),
    ensures
        smallest(s + u, k) == smallest(s, k),
    decreases u.len(),
{
    if u.len() == 0 {
        assert(s + u =~= s);
    } else {
        let v = u.drop_last();
        assert forall|i: int| 0 <= i < v.len() implies smallest(s, k).last().key() <= (
        #[trigger] v[i]).key() by {
            assert(v[i] == u[i]);
        }
        lemma_selection_ignores(s, v, k);
        assert(s + u =~= (s + v).push(u.last()));
        assert(u.last() == u[u.len() - 1]);
        lemma_kept(s + v, u.last(), k);
    }
}

/// Selecting from a part first loses nothing: the `k` smallest of a whole are
/// the `k` smallest of one part and the selection from the other.
pub proof fn selection_from_parts_is_exact<T: Ranked>(a: Seq<T>, b: Seq<T>, k: nat)
    ensures
        smallest(a + smallest(b, k), k) == smallest(a + b, k),
{
    broadcast use vstd::seq_lib::group_to_multiset_ensures;

    lemma_ranked(b);
    let r = ranked(b);
    if r.len() <= k {
        vstd::seq_lib::lemma_multiset_commutative(a, r);
        vstd::seq_lib::lemma_multiset_commutative(a, b);
        lemma_smallest_unordered(a + r, a + b, k);
    } else if k == 0 {
        lemma_ranked(a + smallest(b, k));
        lemma_ranked(a + b);
        assert(smallest(a + smallest(b, k), k) =~= Seq::empty());
        assert(smallest(a + b, k) =~= Seq::empty());
    } else {
        let t = r.take(k as int);
        let u = r.skip(k as int);
        assert(r =~= t + u);
        lemma_sorted_is_ranked(t);
        assert(smallest(t, k) == t);
        lemma_full_selection(t, a, k);
        assert forall|i: int| 0 <= i < u.len() implies smallest(t + a, k).last().key() <= (
        #[trigger] u[i]).key() by {
            assert(u[i] == r[k + i]);
            assert(t.last() == r[k - 1]);
        }
        lemma_selection_ignores(t + a, u, k);
        vstd::seq_lib::lemma_multiset_commutative(a, t);
        vstd::seq_lib::lemma_multiset_commutative(t, a);
        assert((a + t).to_multiset() =~= (t + a).to_multiset());
        lemma_smallest_unordered(a + t, t + a, k);
        vstd::seq_lib::lemma_multiset_commutative(t + a, u);
        vstd::seq_lib::lemma_multiset_commutative(a, b);
        vstd::seq_lib::lemma_multiset_commutative(t, u);
        assert((t + a + u).to_multiset() =~= (a + b).to_multiset());
        lemma_smallest_unordered(t + a + u, a + b, k);
    }
}

/// A selection is as long as it can be, ascending, and leaves out nothing that
/// precedes its last element.
pub proof fn lemma_smallest<T: Ranked>(s: Seq<T>, k: nat)
    ensures
        smallest(s, k).len() == (if s.len() < k {
            s.len()
        } else {
            k
        }),
        sorted(smallest(s, k)),
        forall|x: T| #[trigger] smallest(s, k).contains(x) ==> s.contains(x),
        forall|x: T| #[trigger]
            s.contains(x) ==> smallest(s, k).contains(x) || (smallest(s, k).len() == k && (k > 0
                ==> smallest(s, k).last().key() <= x.key())),
{
    let r = ranked(s);
    let t = smallest(s, k);
    lemma_ranked(s);
    assert forall|x: T| #[trigger] t.contains(x) implies s.contains(x) by {
        let i = choose|i: int| 0 <= i < t.len() && t[i] == x;
        assert(r[i] == x);
        assert(r.contains(x));
    }
    assert forall|x: T| #[trigger] s.contains(x) implies t.contains(x) || (t.len() == k && (k > 0
        ==> t.last().key() <= x.key())) by {
        assert(r.contains(x));
        let i = choose|i: int| 0 <= i < r.len() && r[i] == x;
        if i < t.len() {
            assert(t[i] == x);
        }
    }
}

/// Sorting leaves an ascending sequence as it is.
pub proof fn lemma_sorted_is_ranked<T: Ranked>(s: Seq<T>)
    requires
        sorted(s),
    ensures
        ranked(s) == s,
{
    lemma_ranked(s);
    lemma_sorted_unique(ranked(s), s);
}

/// Where `x` belongs in an ascending vector.
fn find_position<T: Ranked>(v: &Vec<T>, k: u128) -> (p: usize)
    requires
        sorted(v@),
    ensures
        p == position(v@, k as int),
        p <= v.len(),
{
    let mut lo: usize = 0;
    let mut hi: usize = v.len();
    while lo < hi
        invariant
            sorted(v@),
            lo <= hi <= v.len(),
            forall|i: int| 0 <= i < lo ==> (#[trigger] v[i]).key() < k,
            hi < v.len() ==> v[hi as int].key() >= k,
        decreases hi - lo,
    {
        let mid: usize = lo + (hi - lo) / 2;
        if v[mid].rank_key() < k {
            lo = mid + 1;
        } else {
            hi = mid;
        }
    }
    proof {
        lemma_position_unique(v@, k as int, lo as int);
    }
    lo
}

/// Inserts `x` into an ascending vector.
pub fn insert_sorted<T: Ranked>(v: &mut Vec<T>, x: T)
    requires
        sorted(old(v)@),
    ensures
        final(v)@ == inserted(old(v)@, x),
        sorted(final(v)@),
{
    let p: usize = find_position(v, x.rank_key());
    proof {
        lemma_inserted(v@, x);
    }
    v.insert(p, x);
}

/// Offers `x` to an ascending vector that keeps at most `k` elements.
pub fn keep_smallest<T: Ranked>(v: &mut Vec<T>, x: T, k: usize)
    requires
        sorted(old(v)@),
    ensures
        final(v)@ == kept(old(v)@, x, k as nat),
        sorted(final(v)@),
{
    let n: usize = v.len();
    if n < k {
        insert_sorted(v, x);
    } else if n > 0 && x.rank_key() < v[n - 1].rank_key() {
        v.pop();
        insert_sorted(v, x);
    }
}

/// Sorts a vector in ascending order of its keys.
pub fn sort<T: Ranked>(v: &Vec<T>) -> (out: Vec<T>)
    ensures
        out@ == ranked(v@),
        sorted(out@),
        out@.to_multiset() == v@.to_multiset(),
{
    let mut out: Vec<T> = Vec::with_capacity(v.len());
    let mut i: usize = 0;
    while i < v.len()
        invariant
            i <= v.len(),
            out@ == ranked(v@.take(i as int)),
            sorted(out@),
        decreases v.len() - i,
    {
        proof {
            assert(v@.take(i + 1).drop_last() == v@.take(i as int));
        }
        insert_sorted(&mut out, v[i]);
        i = i + 1;
    }
    proof {
        assert(v@.take(i as int) == v@);
        lemma_ranked(v@);
    }
    out
}

/// Merges two selections of the `k` smallest.
pub fn merge_smallest<T: Ranked>(a: Vec<T>, b: &Vec<T>, k: usize) -> (out: Vec<T>)
    requires
        sorted(a@),
        a@.len() <= k,
    ensures
        out@ == smallest(a@ + b@, k as nat),
        sorted(out@),
{
    let ghost first = a@;
    let mut out: Vec<T> = a;
    proof {
        lemma_sorted_is_ranked(first);
        assert(first + b@.take(0) =~= first);
    }
    let mut i: usize = 0;
    while i < b.len()
        invariant
            i <= b@.len(),
            sorted(out@),
            out@ == smallest(first + b@.take(i as int), k as nat),
        decreases b@.len() - i,
    {
        proof {
            lemma_kept(first + b@.take(i as int), b@[i as int], k as nat);
            assert((first + b@.take(i as int)).push(b@[i as int]) =~= first + b@.take(i + 1));
        }
        keep_smallest(&mut out, b[i], k);
        i = i + 1;
    }
    assert(b@.take(i as int) =~= b@);
    out
}

} // verus!
