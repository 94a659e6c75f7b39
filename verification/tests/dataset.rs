use gvector::dataset::{
    parse_fvecs, parse_ivecs, parse_vecs, read_fvecs_subset, vector_bytes, DatasetError,
};

fn encode_fvecs(vecs: &[Vec<f32>]) -> Vec<u8> {
    let mut out = Vec::new();
    for v in vecs {
        out.extend((v.len() as u32).to_le_bytes());
        for x in v {
            out.extend(x.to_le_bytes());
        }
    }
    out
}

fn floats(vs: &[Vec<u32>]) -> Vec<Vec<f32>> {
    vs.iter()
        .map(|v| v.iter().map(|x| f32::from_bits(*x)).collect())
        .collect()
}

fn why<T>(r: Result<T, DatasetError>) -> String {
    match r {
        Ok(_) => panic!("expected an error"),
        Err(DatasetError::Malformed(s)) => s,
    }
}

#[test]
fn fvecs_roundtrip() {
    let vecs = vec![vec![1.0f32, -2.5, 3.25], vec![0.0, 7.0, -0.5]];
    let parsed = parse_fvecs(&encode_fvecs(&vecs)).unwrap();
    assert_eq!(floats(&parsed), vecs);
}

#[test]
fn fvecs_empty_input_ok() {
    assert!(parse_fvecs(&[]).unwrap().is_empty());
}

#[test]
fn fvecs_truncated_is_error_not_panic() {
    let mut bytes = encode_fvecs(&[vec![1.0f32, 2.0]]);
    bytes.truncate(bytes.len() - 3);
    assert!(matches!(
        parse_fvecs(&bytes),
        Err(DatasetError::Malformed(_))
    ));
}

#[test]
fn fvecs_inconsistent_dim_is_error() {
    let bytes = encode_fvecs(&[vec![1.0f32, 2.0], vec![1.0f32, 2.0, 3.0]]);
    assert!(matches!(
        parse_fvecs(&bytes),
        Err(DatasetError::Malformed(_))
    ));
}

#[test]
fn subset_reads_first_n() {
    let vecs: Vec<Vec<f32>> = (0..10).map(|i| vec![i as f32; 4]).collect();
    let bytes = encode_fvecs(&vecs);
    let subset = read_fvecs_subset(&bytes[..], 3).unwrap();
    assert_eq!(floats(&subset), vecs[..3]);
    // if the requested n exceeds what is available, all are returned, not an error
    let all = read_fvecs_subset(&bytes[..], 100).unwrap();
    assert_eq!(all.len(), 10);
}

#[test]
fn flaws_are_described() {
    assert_eq!(
        why(parse_vecs(&[1, 0, 0], u32::from_le_bytes)),
        "no 4 bytes left for the dimension field (truncated file)"
    );
    assert_eq!(
        why(parse_vecs(&[0, 0, 0, 0], u32::from_le_bytes)),
        "implausible dimension field: 0"
    );
    assert_eq!(
        why(parse_vecs(&[1, 0, 16, 0], u32::from_le_bytes)),
        "implausible dimension field: 1048577"
    );
    let mixed = encode_fvecs(&[vec![1.0, 2.0], vec![1.0, 2.0, 3.0]]);
    assert_eq!(
        why(parse_vecs(&mixed, u32::from_le_bytes)),
        "inconsistent dimension: expected 2, saw 3"
    );
    let cut = encode_fvecs(&[vec![1.0, 2.0]]);
    assert_eq!(
        why(parse_vecs(&cut[..9], u32::from_le_bytes)),
        "vector data truncated: 12 bytes needed, 9 left"
    );
    let e = parse_vecs(&cut[..9], u32::from_le_bytes).unwrap_err();
    assert_eq!(
        e.message(),
        "malformed file: vector data truncated: 12 bytes needed, 9 left"
    );
}

#[test]
fn subset_flaws_are_described() {
    let bytes = encode_fvecs(&[vec![1.0, 2.0], vec![3.0, 4.0]]);
    // a file that ends inside a dimension field just ends
    assert_eq!(read_fvecs_subset(&bytes[..14], 5).unwrap().len(), 1);
    assert_eq!(
        why(read_fvecs_subset(&bytes[..20], 2)),
        "vector data truncated (subset read)"
    );
    // what follows the subset is not looked at
    assert_eq!(read_fvecs_subset(&bytes[..20], 1).unwrap().len(), 1);
    assert!(read_fvecs_subset(&bytes, 0).unwrap().is_empty());
    assert_eq!(
        why(read_fvecs_subset(&[0, 0, 0, 0], 1)),
        "implausible dimension field: 0"
    );
}

#[test]
fn subset_may_mix_dimensions() {
    let bytes = encode_fvecs(&[vec![1.0, 2.0], vec![1.0, 2.0, 3.0]]);
    let vs = read_fvecs_subset(&bytes, 2).unwrap();
    assert_eq!((vs[0].len(), vs[1].len()), (2, 3));
}

#[test]
fn ivecs_are_signed() {
    let mut bytes = Vec::new();
    for row in [[1i32, -1, i32::MIN], [i32::MAX, 0, -7]] {
        bytes.extend(3u32.to_le_bytes());
        for x in row {
            bytes.extend(x.to_le_bytes());
        }
    }
    assert_eq!(
        parse_ivecs(&bytes).unwrap(),
        vec![vec![1, -1, i32::MIN], vec![i32::MAX, 0, -7]]
    );
    assert!(parse_ivecs(&bytes[..5]).is_err());
}

#[test]
fn length_of_a_vector_follows_its_field() {
    assert_eq!(vector_bytes(128).unwrap(), 512);
    assert_eq!(vector_bytes(1 << 20).unwrap(), 4 << 20);
    assert!(vector_bytes(0).is_err());
    assert!(vector_bytes((1 << 20) + 1).is_err());
}

#[test]
fn elements_are_converted_in_order_and_nothing_else_is() {
    let bytes = encode_fvecs(&[vec![1.0, 2.0], vec![3.0, 4.0]]);
    let seen = std::cell::RefCell::new(Vec::new());
    let got = parse_vecs(&bytes, |c| {
        seen.borrow_mut().push(c);
        f32::from_le_bytes(c) * 10.0
    })
    .unwrap();
    assert_eq!(got, vec![vec![10.0, 20.0], vec![30.0, 40.0]]);
    let want: Vec<[u8; 4]> = [1.0f32, 2.0, 3.0, 4.0]
        .iter()
        .map(|x| x.to_le_bytes())
        .collect();
    assert_eq!(*seen.borrow(), want);
}

#[test]
fn a_second_subset_continues_the_first() {
    let vecs: Vec<Vec<f32>> = (0..10).map(|i| vec![i as f32; 4]).collect();
    let bytes = encode_fvecs(&vecs);
    let first = read_fvecs_subset(&bytes, 3).unwrap();
    let used: usize = first.iter().map(|v| 4 + 4 * v.len()).sum();
    let second = read_fvecs_subset(&bytes[used..], 4).unwrap();
    assert_eq!(floats(&first), vecs[..3]);
    assert_eq!(floats(&second), vecs[3..7]);
}
