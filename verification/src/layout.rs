//! How composite values are laid out in bytes, and that no bytes can be read in
//! two ways.

use vstd::prelude::*;
use vstd::utf8::encode_utf8;
use crate::codec::{at, le4, le8, lemma_le4, lemma_le8};
use crate::record::{flag_bytes, lemma_at_split, lemma_take_text, text_bytes};

verus! {

/// The bytes of several items, one after the other.
pub open spec fn items<T>(s: Seq<T>, f: spec_fn(T) -> Seq<u8>) -> Seq<u8>
    decreases s.len(),
{
    if s.len() == 0 {
        Seq::empty()
    } else {
        items(s.drop_last(), f) + f(s.last())
    }
}

/// The bytes of a list: the count in eight bytes, and the items.
pub open spec fn list_bytes<T>(s: Seq<T>, f: spec_fn(T) -> Seq<u8>) -> Seq<u8> {
    le8(s.len() as u64) + items(s, f)
}

/// The bytes of what may be absent: a byte that says whether it is there, and
/// what is there.
pub open spec fn option_bytes<T>(o: Option<T>, f: spec_fn(T) -> Seq<u8>) -> Seq<u8> {
    match o {
        None => seq![0u8],
        Some(x) => seq![1u8] + f(x),
    }
}

/// How numbers are laid out.
pub open spec fn eight() -> spec_fn(u64) -> Seq<u8> {
    |x: u64| le8(x)
}

/// How flags are laid out.
pub open spec fn flag() -> spec_fn(bool) -> Seq<u8> {
    |x: bool| flag_bytes(x)
}

/// How texts are laid out.
pub open spec fn text() -> spec_fn(Seq<char>) -> Seq<u8> {
    |s: Seq<char>| text_bytes(s)
}

/// How lists of numbers are laid out.
pub open spec fn numbers() -> spec_fn(Seq<u64>) -> Seq<u8> {
    |s: Seq<u64>| list_bytes(s, eight())
}

/// How lists of lists of numbers are laid out.
pub open spec fn lists() -> spec_fn(Seq<Seq<u64>>) -> Seq<u8> {
    |s: Seq<Seq<u64>>| list_bytes(s, numbers())
}

/// At no place do the bytes of two values stand, and no value has none.
pub open spec fn unambiguous<T>(f: spec_fn(T) -> Seq<u8>) -> bool {
    &&& forall|x: T| (#[trigger] f(x)).len() > 0
    &&& forall|b: Seq<u8>, off: int, x: T, y: T|
        b.len() <= u64::MAX && #[trigger] at(b, off, f(x)) && #[trigger] at(b, off, f(y)) ==> x == y
}

pub proof fn lemma_same4(b: Seq<u8>, off: int, x: u32, y: u32)
    requires
        at(b, off, le4(x)),
        at(b, off, le4(y)),
    ensures
        x == y,
{
    lemma_le4(x);
    lemma_le4(y);
}

pub proof fn lemma_same8(b: Seq<u8>, off: int, x: u64, y: u64)
    requires
        at(b, off, le8(x)),
        at(b, off, le8(y)),
    ensures
        x == y,
{
    lemma_le8(x);
    lemma_le8(y);
}

pub proof fn lemma_eight()
    ensures
        unambiguous(eight()),
{
    let f = eight();
    assert forall|x: u64| (#[trigger] f(x)).len() > 0 by {
        lemma_le8(x);
    }
    assert forall|b: Seq<u8>, off: int, x: u64, y: u64|
        b.len() <= u64::MAX && #[trigger] at(b, off, f(x)) && #[trigger] at(
            b,
            off,
            f(y),
        ) implies x == y by {
        lemma_same8(b, off, x, y);
    }
}

pub proof fn lemma_flag()
    ensures
        unambiguous(flag()),
{
    let f = flag();
    assert forall|b: Seq<u8>, off: int, x: bool, y: bool|
        b.len() <= u64::MAX && #[trigger] at(b, off, f(x)) && #[trigger] at(
            b,
            off,
            f(y),
        ) implies x == y by {
        assert(b.subrange(off, off + 1)[0] == flag_bytes(x)[0]);
        assert(b.subrange(off, off + 1)[0] == flag_bytes(y)[0]);
    }
}

pub proof fn lemma_same_text(b: Seq<u8>, off: int, x: Seq<char>, y: Seq<char>)
    requires
        b.len() <= u64::MAX,
        at(b, off, text_bytes(x)),
        at(b, off, text_bytes(y)),
    ensures
        x == y,
{
    lemma_le8(encode_utf8(x).len() as u64);
    lemma_le8(encode_utf8(y).len() as u64);
    lemma_take_text(b, off, x);
    lemma_take_text(b, off, y);
}

pub proof fn lemma_text()
    ensures
        unambiguous(text()),
{
    let f = text();
    assert forall|x: Seq<char>| (#[trigger] f(x)).len() > 0 by {
        lemma_le8(encode_utf8(x).len() as u64);
    }
    assert forall|b: Seq<u8>, off: int, x: Seq<char>, y: Seq<char>|
        b.len() <= u64::MAX && #[trigger] at(b, off, f(x)) && #[trigger] at(
            b,
            off,
            f(y),
        ) implies x == y by {
        lemma_same_text(b, off, x, y);
    }
}

proof fn lemma_items_len<T>(s: Seq<T>, f: spec_fn(T) -> Seq<u8>)
    requires
        unambiguous(f),
    ensures
        items(s, f).len() >= s.len(),
    decreases s.len(),
{
    if s.len() > 0 {
        lemma_items_len(s.drop_last(), f);
        assert(f(s.last()).len() > 0);
    }
}

proof fn lemma_same_items<T>(
    b: Seq<u8>,
    off: int,
    s: Seq<T>,
    t: Seq<T>,
    f: spec_fn(T) -> Seq<u8>,
)
    requires
        unambiguous(f),
        b.len() <= u64::MAX,
        s.len() == t.len(),
        at(b, off, items(s, f)),
        at(b, off, items(t, f)),
    ensures
        s == t,
    decreases s.len(),
{
    if s.len() > 0 {
        let u = s.drop_last();
        let v = t.drop_last();
        lemma_at_split(b, off, items(u, f), f(s.last()));
        lemma_at_split(b, off, items(v, f), f(t.last()));
        lemma_same_items(b, off, u, v, f);
        assert(s.last() == t.last());
        assert(s =~= u.push(s.last()));
        assert(t =~= v.push(t.last()));
    } else {
        assert(s =~= t);
    }
}

pub proof fn lemma_same_list<T>(
    b: Seq<u8>,
    off: int,
    s: Seq<T>,
    t: Seq<T>,
    f: spec_fn(T) -> Seq<u8>,
)
    requires
        unambiguous(f),
        b.len() <= u64::MAX,
        at(b, off, list_bytes(s, f)),
        at(b, off, list_bytes(t, f)),
    ensures
        s == t,
{
    let m = s.len() as u64;
    let n = t.len() as u64;
    lemma_le8(m);
    lemma_le8(n);
    lemma_items_len(s, f);
    lemma_items_len(t, f);
    lemma_at_split(b, off, le8(m), items(s, f));
    lemma_at_split(b, off, le8(n), items(t, f));
    lemma_same8(b, off, m, n);
    lemma_same_items(b, off + 8, s, t, f);
}

proof fn lemma_list_len<T>(s: Seq<T>, f: spec_fn(T) -> Seq<u8>)
    ensures
        list_bytes(s, f).len() > 0,
{
    lemma_le8(s.len() as u64);
}

pub proof fn lemma_numbers()
    ensures
        unambiguous(numbers()),
{
    let f = numbers();
    lemma_eight();
    assert forall|x: Seq<u64>| (#[trigger] f(x)).len() > 0 by {
        lemma_list_len(x, eight());
    }
    assert forall|b: Seq<u8>, off: int, x: Seq<u64>, y: Seq<u64>|
        b.len() <= u64::MAX && #[trigger] at(b, off, f(x)) && #[trigger] at(
            b,
            off,
            f(y),
        ) implies x == y by {
        lemma_same_list(b, off, x, y, eight());
    }
}

pub proof fn lemma_lists()
    ensures
        unambiguous(lists()),
{
    let f = lists();
    lemma_numbers();
    assert forall|x: Seq<Seq<u64>>| (#[trigger] f(x)).len() > 0 by {
        lemma_list_len(x, numbers());
    }
    assert forall|b: Seq<u8>, off: int, x: Seq<Seq<u64>>, y: Seq<Seq<u64>>|
        b.len() <= u64::MAX && #[trigger] at(b, off, f(x)) && #[trigger] at(
            b,
            off,
            f(y),
        ) implies x == y by {
        lemma_same_list(b, off, x, y, numbers());
    }
}

pub proof fn lemma_same_option<T>(
    b: Seq<u8>,
    off: int,
    o: Option<T>,
    p: Option<T>,
    f: spec_fn(T) -> Seq<u8>,
)
    requires
        unambiguous(f),
        b.len() <= u64::MAX,
        at(b, off, option_bytes(o, f)),
        at(b, off, option_bytes(p, f)),
    ensures
        o == p,
{
    let x = option_bytes(o, f);
    let y = option_bytes(p, f);
    assert(b.subrange(off, off + x.len())[0] == x[0]);
    assert(b.subrange(off, off + y.len())[0] == y[0]);
    if let (Some(u), Some(v)) = (o, p) {
        lemma_at_split(b, off, seq![1u8], f(u));
        lemma_at_split(b, off, seq![1u8], f(v));
    }
}

} // verus!
