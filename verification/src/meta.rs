//! Metadata and the filter model.
//!
//! A record carries named values. A filter is a conjunction of conditions on
//! them. Numbers are compared as doubles, so that the integer 3 and the double
//! 3.0 are the same to a filter.

use std::collections::HashMap;
use vstd::prelude::*;
use vstd::string::{StrSliceExecFns, StringExecFns};
use crate::number::{self, integer_of, number_eq, number_le, spec_of_integer};
use crate::posting::{ascending as ascending_ids, posting_insert};
use crate::types::VectorId;

verus! {

/// One metadata value.
#[derive(Debug, PartialEq, Eq)]
pub enum MetaValue {
    Bool(bool),
    Int(i64),
    /// The bits of an `f64`.
    Float(u64),
    Str(String),
}

/// A [`MetaValue`] as a value.
pub ghost enum Value {
    Bool(bool),
    Int(i64),
    Float(u64),
    Str(Seq<char>),
}

impl View for MetaValue {
    type V = Value;

    open spec fn view(&self) -> Value {
        match self {
            MetaValue::Bool(b) => Value::Bool(*b),
            MetaValue::Int(i) => Value::Int(*i),
            MetaValue::Float(f) => Value::Float(*f),
            MetaValue::Str(s) => Value::Str(s@),
        }
    }
}

impl Clone for MetaValue {
    fn clone(&self) -> (r: Self)
        ensures
            r@ == self@,
    {
        match self {
            MetaValue::Bool(b) => MetaValue::Bool(*b),
            MetaValue::Int(i) => MetaValue::Int(*i),
            MetaValue::Float(f) => MetaValue::Float(*f),
            MetaValue::Str(s) => MetaValue::Str(s.clone()),
        }
    }
}

/// The value that posting lists are kept under.
#[derive(Debug, PartialEq, Eq)]
pub enum MetaKey {
    Bool(bool),
    Int(i64),
    FloatBits(u64),
    Str(String),
}

/// A [`MetaKey`] as a value.
pub ghost enum Key {
    Bool(bool),
    Int(i64),
    FloatBits(u64),
    Str(Seq<char>),
}

impl View for MetaKey {
    type V = Key;

    open spec fn view(&self) -> Key {
        match self {
            MetaKey::Bool(b) => Key::Bool(*b),
            MetaKey::Int(i) => Key::Int(*i),
            MetaKey::FloatBits(f) => Key::FloatBits(*f),
            MetaKey::Str(s) => Key::Str(s@),
        }
    }
}

impl Clone for MetaKey {
    fn clone(&self) -> (r: Self)
        ensures
            r@ == self@,
    {
        match self {
            MetaKey::Bool(b) => MetaKey::Bool(*b),
            MetaKey::Int(i) => MetaKey::Int(*i),
            MetaKey::FloatBits(f) => MetaKey::FloatBits(*f),
            MetaKey::Str(s) => MetaKey::Str(s.clone()),
        }
    }
}

impl MetaKey {
    /// Are the keys equal?
    pub fn same(&self, other: &MetaKey) -> (b: bool)
        ensures
            b == (self@ == other@),
    {
        match (self, other) {
            (MetaKey::Bool(x), MetaKey::Bool(y)) => *x == *y,
            (MetaKey::Int(x), MetaKey::Int(y)) => *x == *y,
            (MetaKey::FloatBits(x), MetaKey::FloatBits(y)) => *x == *y,
            (MetaKey::Str(x), MetaKey::Str(y)) => *x == *y,
            _ => false,
        }
    }
}

impl Value {
    /// The value as a double, where it is a number.
    pub open spec fn number(self) -> Option<u64> {
        match self {
            Value::Int(i) => Some(spec_of_integer(i as int) as u64),
            Value::Float(f) => Some(f),
            _ => None,
        }
    }

    /// Numbers are equal as doubles; other values where they are the same.
    pub open spec fn equals(self, other: Value) -> bool {
        match (self.number(), other.number()) {
            (Some(a), Some(b)) => number_eq(a, b),
            _ => self == other,
        }
    }

    /// A double that is an integer is kept under that integer, any other double
    /// under its bits.
    pub open spec fn key(self) -> Key {
        match self {
            Value::Bool(b) => Key::Bool(b),
            Value::Int(i) => Key::Int(i),
            Value::Float(f) => match integer_of(f) {
                Some(i) => Key::Int(i as i64),
                None => Key::FloatBits(f),
            },
            Value::Str(s) => Key::Str(s),
        }
    }
}

impl MetaValue {
    /// The value as a double, where it is a number.
    pub fn as_number(&self) -> (r: Option<u64>)
        ensures
            r == self@.number(),
    {
        match self {
            MetaValue::Int(i) => Some(number::of_integer(*i)),
            MetaValue::Float(f) => Some(*f),
            _ => None,
        }
    }

    /// Equality as a filter sees it.
    pub fn equals(&self, other: &MetaValue) -> (b: bool)
        ensures
            b == self@.equals(other@),
    {
        match (self.as_number(), other.as_number()) {
            (Some(a), Some(b)) => number::eq(a, b),
            _ => match (self, other) {
                (MetaValue::Bool(x), MetaValue::Bool(y)) => *x == *y,
                (MetaValue::Str(x), MetaValue::Str(y)) => *x == *y,
                _ => false,
            },
        }
    }

    /// The key that posting lists keep the value under.
    pub fn key(&self) -> (k: MetaKey)
        ensures
            k@ == self@.key(),
    {
        match self {
            MetaValue::Bool(b) => MetaKey::Bool(*b),
            MetaValue::Int(i) => MetaKey::Int(*i),
            MetaValue::Float(f) => match number::to_integer(*f) {
                Some(i) => MetaKey::Int(i),
                None => MetaKey::FloatBits(*f),
            },
            MetaValue::Str(s) => MetaKey::Str(s.clone()),
        }
    }
}

/// An integer that a double holds exactly.
pub open spec fn exact(v: Value) -> bool {
    match v {
        Value::Int(i) => -0x20_0000_0000_0000 <= i <= 0x20_0000_0000_0000,
        Value::Float(f) => !number::is_nan(f),
        _ => true,
    }
}

/// Two values that a filter takes for equal share a posting list, and no others
/// do. Left out: integers of more than 53 bits, which several doubles away
/// round alike, and values that are not numbers, which equal nothing.
pub proof fn equal_values_share_a_key(a: Value, b: Value)
    requires
        exact(a),
        exact(b),
    ensures
        a.equals(b) <==> a.key() == b.key(),
{
    match (a, b) {
        (Value::Int(i), Value::Int(j)) => {
            lemma_integer_number(i as int);
            lemma_integer_number(j as int);
            if number_eq(a.number()->0, b.number()->0) {
                number::lemma_equal_numbers_integer(a.number()->0, b.number()->0);
            }
        },
        (Value::Int(i), Value::Float(f)) => {
            lemma_integer_number(i as int);
            number::lemma_integer_equality(a.number()->0, f);
        },
        (Value::Float(f), Value::Int(j)) => {
            lemma_integer_number(j as int);
            number::lemma_integer_equality(b.number()->0, f);
        },
        (Value::Float(f), Value::Float(e)) => {
            number::lemma_float_equality(f, e);
        },
        _ => {},
    }
}

/// Two values that share a posting list are equal for a filter, unless they are
/// not numbers.
pub proof fn values_that_share_a_key_are_equal(a: Value, b: Value)
    requires
        a.key() == b.key(),
        b.equals(b),
    ensures
        a.equals(b),
{
    match (a, b) {
        (Value::Int(i), Value::Int(_)) => {
            number::lemma_of_integer_range(i as int);
        },
        (Value::Int(_), Value::Float(f)) => {
            number::lemma_integer_double(f);
        },
        (Value::Float(f), Value::Int(_)) => {
            number::lemma_integer_double(f);
        },
        (Value::Float(f), Value::Float(e)) => {
            if integer_of(f) is Some {
                number::lemma_integer_double(f);
                number::lemma_integer_double(e);
            }
        },
        _ => {},
    }
}

proof fn lemma_integer_number(i: int)
    requires
        -0x20_0000_0000_0000 <= i <= 0x20_0000_0000_0000,
    ensures
        spec_of_integer(i) as u64 == spec_of_integer(i),
        !number::is_nan(spec_of_integer(i) as u64),
        integer_of(spec_of_integer(i) as u64) == Some(i),
{
    number::lemma_of_integer_range(i);
    number::small_integers_are_exact(i, spec_of_integer(i) as u64);
}

/// Texts in the order of their characters; a prefix comes first. (The order of
/// their UTF-8 bytes is the same.)
pub open spec fn text_lt(a: Seq<char>, b: Seq<char>) -> bool
    decreases a.len(),
{
    if b.len() == 0 {
        false
    } else if a.len() == 0 {
        true
    } else if a[0] != b[0] {
        (a[0] as int) < (b[0] as int)
    } else {
        text_lt(a.drop_first(), b.drop_first())
    }
}

pub proof fn lemma_text_lt_irreflexive(a: Seq<char>)
    ensures
        !text_lt(a, a),
    decreases a.len(),
{
    if a.len() > 0 {
        lemma_text_lt_irreflexive(a.drop_first());
    }
}

pub proof fn lemma_text_lt_transitive(a: Seq<char>, b: Seq<char>, c: Seq<char>)
    requires
        text_lt(a, b),
        text_lt(b, c),
    ensures
        text_lt(a, c),
    decreases a.len(),
{
    if a.len() > 0 && b.len() > 0 && c.len() > 0 && a[0] == b[0] && b[0] == c[0] {
        lemma_text_lt_transitive(a.drop_first(), b.drop_first(), c.drop_first());
    }
}

pub proof fn lemma_text_lt_total(a: Seq<char>, b: Seq<char>)
    ensures
        text_lt(a, b) || text_lt(b, a) || a == b,
    decreases a.len(),
{
    if a.len() > 0 && b.len() > 0 && a[0] == b[0] {
        lemma_text_lt_total(a.drop_first(), b.drop_first());
        if a.drop_first() == b.drop_first() {
            assert(a =~= seq![a[0]] + a.drop_first());
            assert(b =~= seq![b[0]] + b.drop_first());
        }
    } else if a.len() == 0 && b.len() == 0 {
        assert(a =~= b);
    }
}

/// Does the first text precede the second?
pub fn text_before(a: &str, b: &str) -> (r: bool)
    ensures
        r == text_lt(a@, b@),
{
    let n: usize = a.unicode_len();
    let m: usize = b.unicode_len();
    let mut i: usize = 0;
    assert(a@.skip(0) =~= a@);
    assert(b@.skip(0) =~= b@);
    while i < n && i < m
        invariant
            i <= n == a@.len(),
            i <= m == b@.len(),
            text_lt(a@, b@) == text_lt(a@.skip(i as int), b@.skip(i as int)),
        decreases n - i,
    {
        let x: char = a.get_char(i);
        let y: char = b.get_char(i);
        proof {
            assert(a@.skip(i as int)[0] == x);
            assert(b@.skip(i as int)[0] == y);
            assert(a@.skip(i as int).drop_first() =~= a@.skip(i + 1));
            assert(b@.skip(i as int).drop_first() =~= b@.skip(i + 1));
        }
        if x != y {
            return (x as u32) < (y as u32);
        }
        i = i + 1;
    }
    i < m
}

/// Named values in ascending order of their names, each name once.
pub type Fields = Seq<(Seq<char>, Value)>;

pub open spec fn ascending(m: Fields) -> bool {
    forall|i: int, j: int| 0 <= i < j < m.len() ==> text_lt((#[trigger] m[i]).0, (#[trigger] m[j]).0)
}

pub open spec fn has_field(m: Fields, key: Seq<char>) -> bool {
    exists|i: int| 0 <= i < m.len() && (#[trigger] m[i]).0 == key
}

/// The value of a name.
pub open spec fn field(m: Fields, key: Seq<char>) -> Option<Value> {
    if has_field(m, key) {
        let i = choose|i: int| 0 <= i < m.len() && (#[trigger] m[i]).0 == key;
        Some(m[i].1)
    } else {
        None
    }
}

/// A name that stands at a place has the value that stands there.
pub proof fn lemma_field_at(m: Fields, i: int)
    requires
        ascending(m),
        0 <= i < m.len(),
    ensures
        field(m, m[i].0) == Some(m[i].1),
{
    let j = choose|j: int| 0 <= j < m.len() && (#[trigger] m[j]).0 == m[i].0;
    lemma_text_lt_irreflexive(m[i].0);
    if i < j {
        assert(text_lt(m[i].0, m[j].0));
    }
    if j < i {
        assert(text_lt(m[j].0, m[i].0));
    }
}

/// Named values, as callers give them.
#[derive(Debug, PartialEq, Eq)]
pub struct Metadata {
    pub fields: Vec<(String, MetaValue)>,
}

pub open spec fn fields_view(fields: Seq<(String, MetaValue)>) -> Fields {
    Seq::new(fields.len(), |i: int| (fields[i].0@, fields[i].1@))
}

impl View for Metadata {
    type V = Fields;

    open spec fn view(&self) -> Fields {
        fields_view(self.fields@)
    }
}

/// The fields with one name set to a value.
pub open spec fn with_field(m: Fields, key: Seq<char>, value: Value) -> Fields
    decreases m.len(),
{
    if m.len() == 0 {
        seq![(key, value)]
    } else if m[0].0 == key {
        m.update(0, (key, value))
    } else if text_lt(m[0].0, key) {
        seq![m[0]] + with_field(m.drop_first(), key, value)
    } else {
        seq![(key, value)] + m
    }
}

proof fn lemma_with_field_place(m: Fields, key: Seq<char>, value: Value, p: int)
    requires
        ascending(m),
        0 <= p <= m.len(),
        forall|i: int| 0 <= i < p ==> text_lt((#[trigger] m[i]).0, key),
        p < m.len() ==> !text_lt(m[p].0, key),
    ensures
        with_field(m, key, value) == (if p < m.len() && m[p].0 == key {
            m.update(p, (key, value))
        } else {
            m.insert(p, (key, value))
        }),
    decreases m.len(),
{
    if m.len() > 0 {
        lemma_text_lt_irreflexive(key);
        if p > 0 {
            let t = m.drop_first();
            assert(text_lt(m[0].0, key));
            assert forall|i: int, j: int| 0 <= i < j < t.len() implies text_lt(
                (#[trigger] t[i]).0,
                (#[trigger] t[j]).0,
            ) by {
                assert(t[i] == m[i + 1] && t[j] == m[j + 1]);
            }
            assert forall|i: int| 0 <= i < p - 1 implies text_lt((#[trigger] t[i]).0, key) by {
                assert(t[i] == m[i + 1]);
            }
            lemma_with_field_place(t, key, value, p - 1);
            if p < m.len() {
                assert(t[p - 1] == m[p]);
            }
            if p < m.len() && m[p].0 == key {
                assert(seq![m[0]] + t.update(p - 1, (key, value)) =~= m.update(p, (key, value)));
            } else {
                assert(seq![m[0]] + t.insert(p - 1, (key, value)) =~= m.insert(p, (key, value)));
            }
        } else if m[0].0 != key {
            assert(seq![(key, value)] + m =~= m.insert(0, (key, value)));
        }
    } else {
        assert(m.insert(0, (key, value)) =~= seq![(key, value)]);
    }
}

/// Setting a name changes that name alone, and keeps the order.
pub proof fn lemma_with_field(m: Fields, key: Seq<char>, value: Value)
    requires
        ascending(m),
    ensures
        ascending(with_field(m, key, value)),
        has_field(with_field(m, key, value), key),
        forall|k: Seq<char>| #[trigger]
            field(with_field(m, key, value), k) == (if k == key {
                Some(value)
            } else {
                field(m, k)
            }),
{
    let p = lemma_place(m, key);
    lemma_with_field_place(m, key, value, p);
    let t = with_field(m, key, value);
    let replaced = p < m.len() && m[p].0 == key;
    assert(t[p] == (key, value));
    assert forall|i: int, j: int| 0 <= i < j < t.len() implies text_lt(
        (#[trigger] t[i]).0,
        (#[trigger] t[j]).0,
    ) by {
        if replaced {
            assert(t[i].0 == m[i].0 && t[j].0 == m[j].0);
        } else {
            if i < p && j > p {
                assert(t[j] == m[j - 1]);
                assert(t[i] == m[i]);
            } else if i == p {
                assert(t[j] == m[j - 1]);
                lemma_text_lt_total(m[p].0, key);
                if j - 1 > p {
                    assert(text_lt(m[p].0, m[j - 1].0));
                    lemma_text_lt_transitive(key, m[p].0, m[j - 1].0);
                }
            } else if i > p {
                assert(t[i] == m[i - 1] && t[j] == m[j - 1]);
            }
        }
    }
    assert forall|k: Seq<char>| #[trigger] field(t, k) == (if k == key {
        Some(value)
    } else {
        field(m, k)
    }) by {
        if k == key {
            lemma_field_at(t, p);
        } else {
            if has_field(m, k) {
                let i = choose|i: int| 0 <= i < m.len() && (#[trigger] m[i]).0 == k;
                let j = if replaced || i < p { i } else { i + 1 };
                assert(t[j] == m[i]);
                lemma_field_at(t, j);
                lemma_field_at(m, i);
            }
            if has_field(t, k) {
                let j = choose|j: int| 0 <= j < t.len() && (#[trigger] t[j]).0 == k;
                assert(j != p);
                let i = if replaced || j < p { j } else { j - 1 };
                assert(m[i] == t[j]);
                assert(has_field(m, k));
            }
        }
    }
}

/// The place of a name: everything before it precedes it.
proof fn lemma_place(m: Fields, key: Seq<char>) -> (p: int)
    requires
        ascending(m),
    ensures
        0 <= p <= m.len(),
        forall|i: int| 0 <= i < p ==> text_lt((#[trigger] m[i]).0, key),
        p < m.len() ==> !text_lt(m[p].0, key),
    decreases m.len(),
{
    if m.len() == 0 {
        0
    } else {
        let t = m.drop_last();
        assert forall|i: int, j: int| 0 <= i < j < t.len() implies text_lt(
            (#[trigger] t[i]).0,
            (#[trigger] t[j]).0,
        ) by {
            assert(t[i] == m[i] && t[j] == m[j]);
        }
        let p = lemma_place(t, key);
        assert forall|i: int| 0 <= i < p implies text_lt((#[trigger] m[i]).0, key) by {
            assert(t[i] == m[i]);
        }
        if p < t.len() {
            assert(t[p] == m[p]);
            p
        } else if text_lt(m[m.len() - 1].0, key) {
            m.len() as int
        } else {
            m.len() - 1
        }
    }
}

impl Metadata {
    pub open spec fn wf(&self) -> bool {
        ascending(self@)
    }

    pub fn new() -> (r: Self)
        ensures
            r.wf(),
            r@ == Fields::empty(),
    {
        let r = Metadata { fields: Vec::new() };
        assert(r@ =~= Fields::empty());
        r
    }

    /// Sets a name to a value.
    pub fn insert(&mut self, key: String, value: MetaValue)
        requires
            old(self).wf(),
        ensures
            final(self).wf(),
            final(self)@ == with_field(old(self)@, key@, value@),
    {
        let ghost m = self@;
        let n: usize = self.fields.len();
        let mut p: usize = 0;
        while p < n && text_before(self.fields[p].0.as_str(), key.as_str())
            invariant
                p <= n == self.fields@.len(),
                m == self@,
                forall|i: int| 0 <= i < p ==> text_lt((#[trigger] m[i]).0, key@),
            ensures
                p <= n,
                forall|i: int| 0 <= i < p ==> text_lt((#[trigger] m[i]).0, key@),
                p < n ==> !text_lt(m[p as int].0, key@),
            decreases n - p,
        {
            assert(m[p as int].0 == self.fields@[p as int].0@);
            p = p + 1;
        }
        proof {
            lemma_with_field_place(m, key@, value@, p as int);
            lemma_with_field(m, key@, value@);
        }
        if p < n && self.fields[p].0 == key {
            self.fields[p] = (key, value);
            assert(self@ =~= m.update(p as int, (key@, value@)));
        } else {
            self.fields.insert(p, (key, value));
            assert(self@ =~= m.insert(p as int, (key@, value@)));
        }
    }

    /// The value of a name.
    pub fn get(&self, key: &str) -> (r: Option<&MetaValue>)
        requires
            self.wf(),
        ensures
            match r {
                Some(v) => field(self@, key@) == Some(v@),
                None => field(self@, key@) is None,
            },
    {
        let wanted: String = String::from_str(key);
        let mut i: usize = 0;
        while i < self.fields.len()
            invariant
                self.wf(),
                wanted@ == key@,
                i <= self.fields@.len(),
                forall|j: int| 0 <= j < i ==> (#[trigger] self@[j]).0 != key@,
            decreases self.fields@.len() - i,
        {
            if self.fields[i].0 == wanted {
                proof {
                    lemma_field_at(self@, i as int);
                }
                return Some(&self.fields[i].1);
            }
            i = i + 1;
        }
        None
    }

    pub fn is_empty(&self) -> (b: bool)
        ensures
            b == (self@.len() == 0),
    {
        self.fields.len() == 0
    }

    pub fn len(&self) -> (n: usize)
        ensures
            n == self@.len(),
    {
        self.fields.len()
    }
}

/// The fields that a list of named values sets, one after the other: of a name
/// that occurs twice, the later value stays.
pub open spec fn collected(fs: Seq<(Seq<char>, Value)>) -> Fields
    decreases fs.len(),
{
    if fs.len() == 0 {
        Seq::empty()
    } else {
        with_field(collected(fs.drop_last()), fs.last().0, fs.last().1)
    }
}

pub proof fn lemma_collected_ascending(fs: Seq<(Seq<char>, Value)>)
    ensures
        ascending(collected(fs)),
    decreases fs.len(),
{
    if fs.len() > 0 {
        lemma_collected_ascending(fs.drop_last());
        lemma_with_field(collected(fs.drop_last()), fs.last().0, fs.last().1);
    }
}

/// Fields that ascend are collected as they are.
pub proof fn lemma_collected_same(m: Fields)
    requires
        ascending(m),
    ensures
        collected(m) == m,
    decreases m.len(),
{
    if m.len() > 0 {
        let t = m.drop_last();
        assert forall|i: int, j: int| 0 <= i < j < t.len() implies text_lt(
            (#[trigger] t[i]).0,
            (#[trigger] t[j]).0,
        ) by {
            assert(t[i] == m[i] && t[j] == m[j]);
        }
        lemma_collected_same(t);
        assert forall|i: int| 0 <= i < t.len() implies text_lt((#[trigger] t[i]).0, m.last().0) by {
            assert(t[i] == m[i] && m.last() == m[m.len() - 1]);
        }
        lemma_with_field_place(t, m.last().0, m.last().1, t.len() as int);
        assert(t.insert(t.len() as int, m.last()) =~= m);
    } else {
        assert(m =~= Seq::empty());
    }
}

impl Metadata {
    /// Collects named values.
    pub fn collect(fields: Vec<(String, MetaValue)>) -> (m: Metadata)
        ensures
            m.wf(),
            m@ == collected(fields_view(fields@)),
    {
        let ghost fs = fields_view(fields@);
        let mut m: Metadata = Metadata::new();
        let mut i: usize = 0;
        assert(fs.take(0) =~= Seq::empty());
        while i < fields.len()
            invariant
                i <= fields@.len(),
                fs == fields_view(fields@),
                m.wf(),
                m@ == collected(fs.take(i as int)),
            decreases fields@.len() - i,
        {
            proof {
                assert(fs.take(i + 1).drop_last() =~= fs.take(i as int));
                assert(fs.take(i + 1).last() == fs[i as int]);
            }
            m.insert(fields[i].0.clone(), fields[i].1.clone());
            i = i + 1;
        }
        assert(fs.take(i as int) =~= fs);
        m
    }

    /// The named values in ascending order of their names.
    pub fn to_fields(&self) -> (r: Vec<(String, MetaValue)>)
        ensures
            fields_view(r@) == self@,
    {
        self.clone().fields
    }
}

impl Clone for Metadata {
    fn clone(&self) -> (r: Self)
        ensures
            r@ == self@,
    {
        let mut fields: Vec<(String, MetaValue)> = Vec::new();
        let mut i: usize = 0;
        while i < self.fields.len()
            invariant
                i <= self.fields@.len(),
                fields_view(fields@) =~= fields_view(self.fields@).take(i as int),
            decreases self.fields@.len() - i,
        {
            let ghost before = fields@;
            fields.push((self.fields[i].0.clone(), self.fields[i].1.clone()));
            assert(fields_view(fields@) =~= fields_view(before).push(
                fields_view(self.fields@)[i as int],
            ));
            i = i + 1;
        }
        assert(fields_view(self.fields@).take(i as int) =~= self@);
        Metadata { fields }
    }
}

/// One condition on a record. The ends of a range belong to it; an infinity
/// leaves an end open.
#[derive(Debug, PartialEq, Eq)]
pub enum Predicate {
    Eq { key: String, value: MetaValue },
    /// `min` and `max` are the bits of an `f64`.
    Range { key: String, min: u64, max: u64 },
}

/// A [`Predicate`] as a value.
pub ghost enum Condition {
    Eq { key: Seq<char>, value: Value },
    Range { key: Seq<char>, min: u64, max: u64 },
}

impl View for Predicate {
    type V = Condition;

    open spec fn view(&self) -> Condition {
        match self {
            Predicate::Eq { key, value } => Condition::Eq { key: key@, value: value@ },
            Predicate::Range { key, min, max } => Condition::Range {
                key: key@,
                min: *min,
                max: *max,
            },
        }
    }
}

impl Condition {
    pub open spec fn field(self) -> Seq<char> {
        match self {
            Condition::Eq { key, .. } => key,
            Condition::Range { key, .. } => key,
        }
    }

    /// Does the condition hold of the value of its field?
    pub open spec fn holds_of(self, v: Option<Value>) -> bool {
        match (self, v) {
            (_, None) => false,
            (Condition::Eq { value, .. }, Some(x)) => x.equals(value),
            (Condition::Range { min, max, .. }, Some(x)) => match x.number() {
                Some(n) => number_le(min, n) && number_le(n, max),
                None => false,
            },
        }
    }

    pub open spec fn holds(self, m: Fields) -> bool {
        self.holds_of(field(m, self.field()))
    }

    /// Does the condition ask for a value that equals itself? A double that is
    /// not a number does not.
    pub open spec fn asks_for_a_value(self) -> bool {
        self matches Condition::Eq { value, .. } && value.equals(value)
    }
}

impl Clone for Predicate {
    fn clone(&self) -> (r: Self)
        ensures
            r@ == self@,
    {
        match self {
            Predicate::Eq { key, value } => Predicate::Eq { key: key.clone(), value: value.clone() },
            Predicate::Range { key, min, max } => Predicate::Range {
                key: key.clone(),
                min: *min,
                max: *max,
            },
        }
    }
}

impl Predicate {
    fn key(&self) -> (k: &str)
        ensures
            k@ == self@.field(),
    {
        match self {
            Predicate::Eq { key, .. } => key.as_str(),
            Predicate::Range { key, .. } => key.as_str(),
        }
    }

    /// Does the condition hold of the value of its field?
    fn holds_of(&self, v: Option<&MetaValue>) -> (b: bool)
        ensures
            b == self@.holds_of(
                match v {
                    Some(x) => Some(x@),
                    None => None,
                },
            ),
    {
        match v {
            None => false,
            Some(x) => match self {
                Predicate::Eq { value, .. } => x.equals(value),
                Predicate::Range { min, max, .. } => match x.as_number() {
                    Some(n) => number::le(*min, n) && number::le(n, *max),
                    None => false,
                },
            },
        }
    }

    /// Does the condition ask for a value that equals itself?
    pub fn asks_for_a_value(&self) -> (b: bool)
        ensures
            b == self@.asks_for_a_value(),
    {
        match self {
            Predicate::Eq { value, .. } => value.equals(value),
            Predicate::Range { .. } => false,
        }
    }

    pub fn matches(&self, meta: &Metadata) -> (b: bool)
        requires
            meta.wf(),
        ensures
            b == self@.holds(meta@),
    {
        self.holds_of(meta.get(self.key()))
    }
}

/// The conjunction of conditions; with none, every record passes.
#[derive(Debug, PartialEq, Eq)]
pub struct Filter {
    pub must: Vec<Predicate>,
}

pub open spec fn conditions_view(must: Seq<Predicate>) -> Seq<Condition> {
    Seq::new(must.len(), |i: int| must[i]@)
}

impl View for Filter {
    type V = Seq<Condition>;

    open spec fn view(&self) -> Seq<Condition> {
        conditions_view(self.must@)
    }
}

/// Every condition holds.
pub open spec fn passes(f: Seq<Condition>, m: Fields) -> bool {
    forall|i: int| 0 <= i < f.len() ==> (#[trigger] f[i]).holds(m)
}

/// The record of an id passes. Without a record only the empty filter is
/// passed.
pub open spec fn passes_id(f: Seq<Condition>, store: Map<u64, Fields>, id: VectorId) -> bool {
    f.len() == 0 || (store.contains_key(id.0) && passes(f, store[id.0]))
}

/// The fields and keys of the equality conditions, in order.
pub open spec fn equalities(f: Seq<Condition>) -> Seq<(Seq<char>, Key)>
    decreases f.len(),
{
    if f.len() == 0 {
        Seq::empty()
    } else {
        let before = equalities(f.drop_last());
        match f.last() {
            Condition::Eq { key, value } => before.push((key, value.key())),
            Condition::Range { .. } => before,
        }
    }
}

impl Default for Filter {
    fn default() -> (f: Self)
        ensures
            f@.len() == 0,
    {
        Filter { must: Vec::new() }
    }
}

pub open spec fn keys_view(s: Seq<(&str, MetaKey)>) -> Seq<(Seq<char>, Key)> {
    Seq::new(s.len(), |i: int| (s[i].0@, s[i].1@))
}

impl Filter {
    pub fn matches(&self, meta: &Metadata) -> (b: bool)
        requires
            meta.wf(),
        ensures
            b == passes(self@, meta@),
    {
        let mut i: usize = 0;
        while i < self.must.len()
            invariant
                meta.wf(),
                i <= self.must@.len(),
                forall|j: int| 0 <= j < i ==> (#[trigger] self@[j]).holds(meta@),
            decreases self.must@.len() - i,
        {
            if !self.must[i].matches(meta) {
                assert(!self@[i as int].holds(meta@));
                return false;
            }
            i = i + 1;
        }
        true
    }

    /// Does the record that the store holds under the id pass?
    pub fn matches_id(&self, store: &MetaStore, id: VectorId) -> (b: bool)
        requires
            store.wf(),
        ensures
            b == passes_id(self@, store@, id),
    {
        if self.must.len() == 0 {
            return true;
        }
        match store.get(id) {
            None => false,
            Some(rec) => {
                let mut i: usize = 0;
                while i < self.must.len()
                    invariant
                        rec.wf(),
                        i <= self.must@.len(),
                        store@.contains_key(id.0),
                        store@[id.0] == rec@,
                        self.must@.len() > 0,
                        forall|j: int| 0 <= j < i ==> (#[trigger] self@[j]).holds(rec@),
                    decreases self.must@.len() - i,
                {
                    if !self.must[i].holds_of(rec.get(self.must[i].key())) {
                        assert(!self@[i as int].holds(rec@));
                        return false;
                    }
                    i = i + 1;
                }
                true
            },
        }
    }

    /// The posting-list keys of the equality conditions.
    pub fn eq_keys(&self) -> (keys: Vec<(&str, MetaKey)>)
        ensures
            keys_view(keys@) == equalities(self@),
    {
        let mut keys: Vec<(&str, MetaKey)> = Vec::new();
        let mut i: usize = 0;
        assert(keys_view(keys@) =~= equalities(self@.take(0)));
        while i < self.must.len()
            invariant
                i <= self.must@.len(),
                keys_view(keys@) =~= equalities(self@.take(i as int)),
            decreases self.must@.len() - i,
        {
            let ghost before = keys@;
            assert(self@.take(i + 1).drop_last() =~= self@.take(i as int));
            match &self.must[i] {
                Predicate::Eq { key, value } => {
                    keys.push((key.as_str(), value.key()));
                    assert(keys_view(keys@) =~= keys_view(before).push((key@, value@.key())));
                },
                Predicate::Range { .. } => {},
            }
            i = i + 1;
        }
        assert(self@.take(i as int) =~= self@);
        keys
    }
}

/// The records' metadata by id.
///
/// Field names are kept once; a record refers to them by number. A record has
/// a handful of fields, so a lookup walks them.
pub struct MetaStore {
    pub fields: Vec<String>,
    pub records: HashMap<u64, Vec<(usize, MetaValue)>>,
}

/// A record, read with the names that its field numbers stand for.
pub open spec fn record_view(names: Seq<String>, rec: Seq<(usize, MetaValue)>) -> Fields {
    Seq::new(rec.len(), |i: int| (names[rec[i].0 as int]@, rec[i].1@))
}

/// Every field number stands for a name, and the names ascend.
pub open spec fn record_wf(names: Seq<String>, rec: Seq<(usize, MetaValue)>) -> bool {
    &&& forall|i: int| 0 <= i < rec.len() ==> (#[trigger] rec[i]).0 < names.len()
    &&& ascending(record_view(names, rec))
}

pub open spec fn names_distinct(names: Seq<String>) -> bool {
    forall|i: int, j: int|
        0 <= i < j < names.len() ==> (#[trigger] names[i])@ != (#[trigger] names[j])@
}

impl View for MetaStore {
    type V = Map<u64, Fields>;

    open spec fn view(&self) -> Map<u64, Fields> {
        Map::new(
            |id: u64| self.records@.contains_key(id),
            |id: u64| record_view(self.fields@, self.records@[id]@),
        )
    }
}

/// One record of a store, for reading.
pub struct MetaRef<'a> {
    pub store: &'a MetaStore,
    pub rec: &'a Vec<(usize, MetaValue)>,
}

impl View for MetaRef<'_> {
    type V = Fields;

    open spec fn view(&self) -> Fields {
        record_view(self.store.fields@, self.rec@)
    }
}

/// Reads a record out into metadata of its own.
fn read_record(names: &Vec<String>, rec: &Vec<(usize, MetaValue)>) -> (m: Metadata)
    requires
        record_wf(names@, rec@),
    ensures
        m.wf(),
        m@ == record_view(names@, rec@),
{
    let mut fields: Vec<(String, MetaValue)> = Vec::new();
    let mut i: usize = 0;
    while i < rec.len()
        invariant
            i <= rec@.len(),
            record_wf(names@, rec@),
            fields_view(fields@) =~= record_view(names@, rec@).take(i as int),
        decreases rec@.len() - i,
    {
        let ghost before = fields@;
        let f: usize = rec[i].0;
        fields.push((names[f].clone(), rec[i].1.clone()));
        assert(fields_view(fields@) =~= fields_view(before).push(
            record_view(names@, rec@)[i as int],
        ));
        i = i + 1;
    }
    assert(record_view(names@, rec@).take(i as int) =~= record_view(names@, rec@));
    Metadata { fields }
}

impl<'a> MetaRef<'a> {
    pub open spec fn wf(&self) -> bool {
        record_wf(self.store.fields@, self.rec@)
    }

    /// The value of a field.
    pub fn get(&self, key: &str) -> (r: Option<&'a MetaValue>)
        requires
            self.wf(),
        ensures
            match r {
                Some(v) => field(self@, key@) == Some(v@),
                None => field(self@, key@) is None,
            },
    {
        let wanted: String = String::from_str(key);
        let mut i: usize = 0;
        while i < self.rec.len()
            invariant
                self.wf(),
                wanted@ == key@,
                i <= self.rec@.len(),
                forall|j: int| 0 <= j < i ==> (#[trigger] self@[j]).0 != key@,
            decreases self.rec@.len() - i,
        {
            let f: usize = self.rec[i].0;
            if self.store.fields[f] == wanted {
                proof {
                    lemma_field_at(self@, i as int);
                }
                return Some(&self.rec[i].1);
            }
            i = i + 1;
        }
        None
    }

    /// A copy of the record.
    pub fn to_metadata(&self) -> (m: Metadata)
        requires
            self.wf(),
        ensures
            m.wf(),
            m@ == self@,
    {
        read_record(&self.store.fields, self.rec)
    }
}

impl MetaStore {
    pub open spec fn wf(&self) -> bool {
        &&& names_distinct(self.fields@)
        &&& forall|id: u64| #[trigger]
            self.records@.contains_key(id) ==> record_wf(self.fields@, self.records@[id]@)
    }

    pub fn new() -> (s: Self)
        ensures
            s.wf(),
            s@ == Map::<u64, Fields>::empty(),
    {
        broadcast use vstd::std_specs::hash::group_hash_axioms;

        let s = MetaStore { fields: Vec::new(), records: HashMap::new() };
        assert(s@ =~= Map::<u64, Fields>::empty());
        s
    }

    /// The number of a field name; a new name gets the next number.
    fn field_id(&mut self, name: String) -> (f: usize)
        requires
            old(self).wf(),
        ensures
            final(self).wf(),
            final(self)@ == old(self)@,
            final(self).records@ == old(self).records@,
            old(self).fields@.len() <= final(self).fields@.len(),
            final(self).fields@.take(old(self).fields@.len() as int) == old(self).fields@,
            f < final(self).fields@.len(),
            final(self).fields@[f as int]@ == name@,
    {
        let mut i: usize = 0;
        while i < self.fields.len()
            invariant
                *self == *old(self),
                self.wf(),
                i <= self.fields@.len(),
                forall|j: int| 0 <= j < i ==> (#[trigger] self.fields@[j])@ != name@,
            decreases self.fields@.len() - i,
        {
            if self.fields[i] == name {
                assert(self.fields@.take(self.fields@.len() as int) =~= self.fields@);
                return i;
            }
            i = i + 1;
        }
        let ghost names = self.fields@;
        self.fields.push(name);
        assert(self.fields@.take(names.len() as int) =~= names);
        assert forall|id: u64| #[trigger] self.records@.contains_key(id) implies record_wf(
            self.fields@,
            self.records@[id]@,
        ) && record_view(self.fields@, self.records@[id]@) == record_view(
            names,
            self.records@[id]@,
        ) by {
            lemma_more_names(names, self.fields@, self.records@[id]@);
        }
        assert(self@ =~= old(self)@);
        i
    }

    /// Keeps a record's metadata, in place of what the id had before.
    pub fn insert(&mut self, id: VectorId, meta: Metadata)
        requires
            old(self).wf(),
            meta.wf(),
        ensures
            final(self).wf(),
            final(self)@ == old(self)@.insert(id.0, meta@),
    {
        broadcast use vstd::std_specs::hash::group_hash_axioms;

        let mut rec: Vec<(usize, MetaValue)> = Vec::new();
        let mut i: usize = 0;
        while i < meta.fields.len()
            invariant
                self.wf(),
                self@ == old(self)@,
                i <= meta.fields@.len(),
                forall|j: int| 0 <= j < rec@.len() ==> (#[trigger] rec@[j]).0 < self.fields@.len(),
                record_view(self.fields@, rec@) =~= meta@.take(i as int),
            decreases meta.fields@.len() - i,
        {
            let ghost names = self.fields@;
            let ghost before = rec@;
            let f: usize = self.field_id(meta.fields[i].0.clone());
            assert forall|j: int| 0 <= j < before.len() implies record_view(
                self.fields@,
                before,
            )[j] == record_view(names, before)[j] by {
                assert(self.fields@.take(names.len() as int)[before[j].0 as int]
                    == names[before[j].0 as int]);
            }
            rec.push((f, meta.fields[i].1.clone()));
            assert(record_view(self.fields@, rec@) =~= record_view(names, before).push(
                meta@[i as int],
            ));
            i = i + 1;
        }
        assert(meta@.take(i as int) =~= meta@);
        let ghost held = self.records@;
        self.records.insert(id.0, rec);
        assert(self@ =~= old(self)@.insert(id.0, meta@)) by {
            assert forall|x: u64| #[trigger] self@.contains_key(x) implies self@[x] == old(
                self,
            )@.insert(id.0, meta@)[x] by {
                if x != id.0 {
                    assert(held.contains_key(x));
                }
            }
        }
    }

    /// The record of an id.
    pub fn get(&self, id: VectorId) -> (r: Option<MetaRef<'_>>)
        requires
            self.wf(),
        ensures
            match r {
                Some(rec) => rec.wf() && self@.contains_key(id.0) && self@[id.0] == rec@,
                None => !self@.contains_key(id.0),
            },
    {
        broadcast use vstd::std_specs::hash::group_hash_axioms;

        match self.records.get(&id.0) {
            Some(rec) => Some(MetaRef { store: self, rec }),
            None => None,
        }
    }

    /// Drops the record of an id and returns it.
    pub fn remove(&mut self, id: VectorId) -> (r: Option<Metadata>)
        requires
            old(self).wf(),
        ensures
            final(self).wf(),
            final(self)@ == old(self)@.remove(id.0),
            match r {
                Some(m) => m.wf() && old(self)@.contains_key(id.0) && m@ == old(self)@[id.0],
                None => !old(self)@.contains_key(id.0),
            },
    {
        broadcast use vstd::std_specs::hash::group_hash_axioms;

        match self.records.remove(&id.0) {
            Some(rec) => {
                assert(self@ =~= old(self)@.remove(id.0));
                Some(read_record(&self.fields, &rec))
            },
            None => {
                assert(self@ =~= old(self)@.remove(id.0));
                None
            },
        }
    }

    /// Every record, by ascending id.
    pub fn iter(&self) -> (out: Vec<(VectorId, MetaRef<'_>)>)
        requires
            self.wf(),
        ensures
            lists_all(records_view(out@), self@),
            forall|i: int| 0 <= i < out@.len() ==> (#[trigger] out@[i]).1.wf(),
    {
        let ids: Vec<VectorId> = self.ids();
        let mut out: Vec<(VectorId, MetaRef<'_>)> = Vec::new();
        let mut i: usize = 0;
        while i < ids.len()
            invariant
                self.wf(),
                i <= ids@.len(),
                out@.len() == i,
                forall|id: VectorId| #[trigger] ids@.contains(id) <==> self@.contains_key(id.0),
                forall|j: int| 0 <= j < i ==> (#[trigger] out@[j]).0 == ids@[j],
                forall|j: int| 0 <= j < i ==> (#[trigger] out@[j]).1.wf() && out@[j].1@
                    == self@[ids@[j].0],
            decreases ids@.len() - i,
        {
            assert(ids@.contains(ids@[i as int]));
            if let Some(rec) = self.get(ids[i]) {
                out.push((ids[i], rec));
            }
            i = i + 1;
        }
        proof {
            let s = records_view(out@);
            assert forall|j: int| 0 <= j < s.len() implies self@.contains_key((#[trigger] s[j]).0)
                && self@[s[j].0] == s[j].1 by {
                assert(out@[j].0 == ids@[j]);
                assert(ids@.contains(ids@[j]));
            }
            assert forall|a: int, b: int| 0 <= a < b < s.len() implies (#[trigger] s[a]).0 < (
            #[trigger] s[b]).0 by {
                assert(out@[a].0 == ids@[a] && out@[b].0 == ids@[b]);
            }
            assert forall|id: u64| #[trigger] self@.contains_key(id) implies exists|j: int|
                0 <= j < s.len() && (#[trigger] s[j]).0 == id by {
                assert(ids@.contains(VectorId(id)));
                let j = choose|j: int| 0 <= j < ids@.len() && ids@[j] == VectorId(id);
                assert(out@[j].0 == ids@[j]);
                assert(s[j].0 == id);
            }
        }
        out
    }

    /// The ids of the records, ascending.
    fn ids(&self) -> (ids: Vec<VectorId>)
        ensures
            ascending_ids(ids@),
            forall|id: VectorId| #[trigger] ids@.contains(id) <==> self@.contains_key(id.0),
    {
        broadcast use vstd::std_specs::hash::group_hash_axioms;

        let mut ids: Vec<VectorId> = Vec::new();
        let ghost mut seen: Seq<u64> = Seq::empty();
        for k in it: self.records.keys()
            invariant
                ascending_ids(ids@),
                it.seq().unref().to_set() == self.records@.dom(),
                seen =~= it.seq().unref().take(it.index()),
                it.index() == it.seq().len() ==> seen.to_set() =~= self.records@.dom(),
                forall|id: VectorId| #[trigger] ids@.contains(id) <==> seen.contains(id.0),
        {
            let ghost before = ids@;
            let ghost old_seen = seen;
            posting_insert(&mut ids, VectorId(*k));
            proof {
                seen = seen.push(*k);
                assert forall|id: VectorId| #[trigger] ids@.contains(id) <==> seen.contains(
                    id.0,
                ) by {
                    assert(ids@.contains(id) <==> before.contains(id) || id == VectorId(*k));
                    assert(before.contains(id) <==> old_seen.contains(id.0));
                    if old_seen.contains(id.0) {
                        let j = choose|j: int| 0 <= j < old_seen.len() && old_seen[j] == id.0;
                        assert(seen[j] == id.0);
                    }
                    assert(seen[old_seen.len() as int] == *k);
                    if seen.contains(id.0) && id.0 != *k {
                        let j = choose|j: int| 0 <= j < seen.len() && seen[j] == id.0;
                        assert(old_seen[j] == id.0);
                    }
                }
                assert(seen =~= it.seq().unref().take(it.index() + 1));
                assert(it.index() + 1 == it.seq().len() ==> seen =~= it.seq().unref());
            }
        }
        assert forall|id: VectorId| #[trigger] ids@.contains(id) <==> self@.contains_key(id.0) by {
            assert(seen.to_set().contains(id.0) <==> seen.contains(id.0));
        }
        ids
    }

    pub fn len(&self) -> (n: usize)
        ensures
            n == self@.dom().len(),
    {
        broadcast use vstd::std_specs::hash::group_hash_axioms;

        assert(self@.dom() =~= self.records@.dom());
        self.records.len()
    }

    pub fn is_empty(&self) -> (b: bool)
        ensures
            b == (self@.dom().len() == 0),
    {
        self.len() == 0
    }
}

/// Every record once, by ascending id.
pub open spec fn lists_all(s: Seq<(u64, Fields)>, meta: Map<u64, Fields>) -> bool {
    &&& forall|i: int, j: int| 0 <= i < j < s.len() ==> (#[trigger] s[i]).0 < (#[trigger] s[j]).0
    &&& forall|i: int|
        0 <= i < s.len() ==> meta.contains_key((#[trigger] s[i]).0) && meta[s[i].0] == s[i].1
    &&& forall|id: u64| #[trigger]
        meta.contains_key(id) ==> exists|i: int| 0 <= i < s.len() && (#[trigger] s[i]).0 == id
}

pub open spec fn records_view(s: Seq<(VectorId, MetaRef<'_>)>) -> Seq<(u64, Fields)> {
    Seq::new(s.len(), |i: int| (s[i].0.0, s[i].1@))
}

/// A record reads the same after names have been added.
proof fn lemma_more_names(names: Seq<String>, more: Seq<String>, rec: Seq<(usize, MetaValue)>)
    requires
        record_wf(names, rec),
        names.len() <= more.len(),
        more.take(names.len() as int) == names,
    ensures
        record_wf(more, rec),
        record_view(more, rec) == record_view(names, rec),
{
    assert forall|i: int| 0 <= i < rec.len() implies more[(#[trigger] rec[i]).0 as int]
        == names[rec[i].0 as int] by {
        assert(more.take(names.len() as int)[rec[i].0 as int] == more[rec[i].0 as int]);
    }
    assert(record_view(more, rec) =~= record_view(names, rec));
}

/// A filter is passed by the records of which every condition holds, and the empty
/// one by all: each further condition keeps out exactly those of which it does not
/// hold.
pub proof fn filter_asks_for_every_condition(
    f: Seq<Condition>,
    c: Condition,
    store: Map<u64, Fields>,
    id: VectorId,
)
    ensures
        passes_id(Seq::empty(), store, id),
        passes_id(f.push(c), store, id) <==> passes_id(f, store, id) && store.contains_key(id.0)
            && c.holds(store[id.0]),
{
    let more = f.push(c);
    if passes_id(more, store, id) {
        assert(more[f.len() as int] == c);
        assert forall|i: int| 0 <= i < f.len() implies (#[trigger] f[i]).holds(store[id.0]) by {
            assert(more[i] == f[i]);
        }
    }
    if passes_id(f, store, id) && store.contains_key(id.0) && c.holds(store[id.0]) {
        assert forall|i: int| 0 <= i < more.len() implies (#[trigger] more[i]).holds(
            store[id.0],
        ) by {
            if i < f.len() {
                assert(more[i] == f[i]);
            }
        }
    }
}

/// A range takes in both its ends: one that begins where it ends is passed by what
/// equals that number, and a range is passed by what passes one of the two halves
/// into which a number in it divides it. A record without the field, or with
/// something else than a number there, passes no range.
pub proof fn range_takes_in_its_ends(key: Seq<char>, min: u64, mid: u64, max: u64, m: Fields)
    requires
        number_le(min, mid),
        number_le(mid, max),
    ensures
        (Condition::Range { key, min: mid, max: mid }).holds(m) <==> (Condition::Eq {
            key,
            value: Value::Float(mid),
        }).holds(m),
        (Condition::Range { key, min, max }).holds(m) <==> (Condition::Range {
            key,
            min,
            max: mid,
        }).holds(m) || (Condition::Range { key, min: mid, max }).holds(m),
        field(m, key) is None ==> !(Condition::Range { key, min, max }).holds(m),
        (field(m, key) matches Some(v) && (v is Str || v is Bool)) ==> !(Condition::Range {
            key,
            min,
            max,
        }).holds(m),
{
}

/// Of several values for one field the last one counts, and every field that is
/// named is there.
pub proof fn last_value_of_a_field_counts(
    fs: Seq<(Seq<char>, Value)>,
    key: Seq<char>,
    value: Value,
    other: Seq<char>,
)
    ensures
        field(collected(Seq::empty()), other) is None,
        field(collected(fs.push((key, value))), other) == (if other == key {
            Some(value)
        } else {
            field(collected(fs), other)
        }),
{
    let more = fs.push((key, value));
    assert(more.drop_last() =~= fs);
    lemma_collected_ascending(fs);
    lemma_with_field(collected(fs), key, value);
    assert(!has_field(collected(Seq::empty()), other));
}

} // verus!
