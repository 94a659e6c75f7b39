use gvector::meta::{Filter, MetaKey, MetaStore, MetaValue, Metadata, Predicate};
use gvector::number::{from_ordered_bits, of_integer, ordered_bits, to_integer};
use gvector::types::VectorId;

fn meta(pairs: &[(&str, MetaValue)]) -> Metadata {
    Metadata::collect(
        pairs
            .iter()
            .map(|(k, v)| (k.to_string(), v.clone()))
            .collect(),
    )
}

fn text(s: &str) -> MetaValue {
    MetaValue::Str(s.to_string())
}

fn float(x: f64) -> MetaValue {
    MetaValue::Float(x.to_bits())
}

fn eq(key: &str, value: MetaValue) -> Predicate {
    Predicate::Eq {
        key: key.to_string(),
        value,
    }
}

fn range(key: &str, min: f64, max: f64) -> Predicate {
    Predicate::Range {
        key: key.to_string(),
        min: min.to_bits(),
        max: max.to_bits(),
    }
}

#[test]
fn eq_and_range() {
    let m = meta(&[("renk", text("mavi")), ("yil", MetaValue::Int(2020))]);
    let f = Filter {
        must: vec![eq("renk", text("mavi")), range("yil", 2019.0, 2021.0)],
    };
    assert!(f.matches(&m));
    let f2 = Filter {
        must: vec![range("yil", 2021.0, f64::INFINITY)],
    };
    assert!(!f2.matches(&m));
}

#[test]
fn int_float_cross_type_equality() {
    let m = meta(&[("x", MetaValue::Int(3))]);
    let f = Filter {
        must: vec![eq("x", float(3.0))],
    };
    assert!(f.matches(&m));
}

#[test]
fn missing_key_fails_nonempty_filter() {
    let m = meta(&[]);
    let f = Filter {
        must: vec![eq("yok", MetaValue::Bool(true))],
    };
    assert!(!f.matches(&m));
    assert!(Filter::default().matches(&m));
}

#[test]
fn kinds_of_values_are_told_apart() {
    let m = meta(&[("x", MetaValue::Bool(true)), ("y", text("1"))]);
    let passes = |p: Predicate| Filter { must: vec![p] }.matches(&m);
    assert!(passes(eq("x", MetaValue::Bool(true))));
    assert!(!passes(eq("x", MetaValue::Int(1))));
    assert!(!passes(eq("y", MetaValue::Int(1))));
    assert!(!passes(range("y", 0.0, 2.0)));
    assert!(!passes(range("x", 0.0, 2.0)));
}

#[test]
fn range_ends_belong_to_it() {
    let m = meta(&[("x", float(2.5))]);
    let passes = |lo: f64, hi: f64| {
        Filter {
            must: vec![range("x", lo, hi)],
        }
        .matches(&m)
    };
    assert!(passes(2.5, 2.5));
    assert!(passes(f64::NEG_INFINITY, 2.5));
    assert!(!passes(2.6, f64::INFINITY));
    assert!(!passes(f64::NAN, 3.0));
    let zero = meta(&[("x", float(-0.0))]);
    assert!(Filter {
        must: vec![range("x", 0.0, 0.0), eq("x", MetaValue::Int(0))]
    }
    .matches(&zero));
}

#[test]
fn equal_numbers_share_a_key() {
    assert_eq!(MetaValue::Int(3).key(), float(3.0).key());
    assert_eq!(float(3.0).key(), MetaKey::Int(3));
    assert_ne!(float(3.5).key(), MetaValue::Int(3).key());
    assert_eq!(float(-0.0).key(), MetaKey::Int(0));
    assert_eq!(MetaValue::Bool(true).key(), MetaKey::Bool(true));
    assert_ne!(text("3").key(), MetaValue::Int(3).key());
}

#[test]
fn store_keeps_records_apart() {
    let mut s = MetaStore::new();
    assert!(s.is_empty());
    let a = meta(&[("k", text("a")), ("n", MetaValue::Int(1))]);
    let b = meta(&[("n", MetaValue::Int(2)), ("z", MetaValue::Bool(false))]);
    s.insert(VectorId(7), a.clone());
    s.insert(VectorId(2), b.clone());
    assert_eq!(s.len(), 2);
    let ids: Vec<VectorId> = s.iter().iter().map(|e| e.0).collect();
    assert_eq!(ids, vec![VectorId(2), VectorId(7)]);
    assert_eq!(s.get(VectorId(7)).unwrap().to_metadata(), a);
    assert_eq!(
        s.get(VectorId(2)).unwrap().get("n"),
        Some(&MetaValue::Int(2))
    );
    assert!(s.get(VectorId(2)).unwrap().get("k").is_none());
    assert!(s.get(VectorId(3)).is_none());
    let f = Filter {
        must: vec![eq("n", MetaValue::Int(2))],
    };
    assert!(f.matches_id(&s, VectorId(2)));
    assert!(!f.matches_id(&s, VectorId(7)));
    assert!(!f.matches_id(&s, VectorId(100)));
    assert!(Filter::default().matches_id(&s, VectorId(100)));
    assert_eq!(s.remove(VectorId(2)), Some(b));
    assert_eq!(s.remove(VectorId(2)), None);
    assert_eq!(s.len(), 1);
}

#[test]
fn equality_conditions_are_listed() {
    let f = Filter {
        must: vec![
            eq("a", MetaValue::Int(1)),
            range("b", 0.0, 1.0),
            eq("c", float(2.0)),
        ],
    };
    assert_eq!(
        f.eq_keys(),
        vec![("a", MetaKey::Int(1)), ("c", MetaKey::Int(2))]
    );
}

#[test]
fn ordered_bits_monotonic() {
    let vals = [-1e9, -3.5, -0.0, 0.0, 1e-9, 2.0, 7.5, 1e12];
    for w in vals.windows(2) {
        assert!(
            ordered_bits(f64::to_bits(w[0])) <= ordered_bits(f64::to_bits(w[1])),
            "{} {}",
            w[0],
            w[1]
        );
    }
    for v in vals {
        assert_eq!(from_ordered_bits(ordered_bits(v.to_bits())), v.to_bits());
    }
}

#[test]
fn integers_become_doubles_as_the_machine_does_it() {
    let mut x: i64 = 1;
    for i in 0..4000i64 {
        for v in [x, -x, x.wrapping_sub(1), i, -i] {
            assert_eq!(of_integer(v), (v as f64).to_bits(), "{v}");
        }
        x = x.wrapping_mul(6364136223846793005).wrapping_add(1442695040888963407);
    }
    for v in [
        i64::MIN,
        i64::MAX,
        1 << 53,
        (1 << 53) + 1,
        (1 << 53) + 3,
        (1 << 62) + 512,
    ] {
        assert_eq!(of_integer(v), (v as f64).to_bits(), "{v}");
    }
}

#[test]
fn doubles_that_are_integers_are_recognised() {
    assert_eq!(to_integer(3.0f64.to_bits()), Some(3));
    assert_eq!(to_integer((-7.0f64).to_bits()), Some(-7));
    assert_eq!(to_integer((-0.0f64).to_bits()), Some(0));
    assert_eq!(to_integer(2.5f64.to_bits()), None);
    assert_eq!(to_integer(f64::NAN.to_bits()), None);
    assert_eq!(to_integer(f64::INFINITY.to_bits()), None);
    assert_eq!(to_integer(1e300f64.to_bits()), None);
    assert_eq!(to_integer(1e-300f64.to_bits()), None);
}
