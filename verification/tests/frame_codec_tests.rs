use polaroid::codec::{decode, encode};
use polaroid::frame::{concat_frames, ColumnData, Field, Frame, LogicalType};
use polaroid::ServiceError;

fn int_field(name: &str) -> Field {
    Field { name: name.to_string(), dtype: LogicalType::Int64, nullable: false }
}

fn float_field(name: &str) -> Field {
    Field { name: name.to_string(), dtype: LogicalType::Float64, nullable: false }
}

fn two_column_frame() -> Frame {
    Frame::new(
        vec![int_field("a"), float_field("b")],
        vec![
            ColumnData::Int64(vec![1, 2, 3]),
            ColumnData::Float64Bits(vec![1.5f64.to_bits(), 3.0f64.to_bits(), 4.5f64.to_bits()]),
        ],
    )
    .unwrap()
}

#[test]
fn test_frame_invariants() {
    let f = two_column_frame();
    assert_eq!(f.height(), 3);
    assert_eq!(f.width(), 2);
    assert_eq!(f.schema().len(), 2);
    assert!(f.estimated_bytes() > 0);

    // A column count that does not match the schema is rejected.
    let bad = Frame::new(vec![int_field("a")], vec![]);
    assert!(matches!(bad, Err(ServiceError::Compute)));
    // A column of the wrong type is rejected.
    let bad = Frame::new(vec![int_field("a")], vec![ColumnData::Boolean(vec![true])]);
    assert!(matches!(bad, Err(ServiceError::Compute)));
}

#[test]
fn test_column_lookup() {
    let f = two_column_frame();
    assert!(f.column(&"a".to_string()).is_some());
    assert!(f.column(&"b".to_string()).is_some());
    assert!(f.column(&"c".to_string()).is_none());
    match f.column(&"a".to_string()).unwrap() {
        ColumnData::Int64(v) => assert_eq!(v, &vec![1, 2, 3]),
        _ => panic!("wrong column type"),
    }
}

#[test]
fn test_slice_clamps() {
    let f = two_column_frame();
    let s = f.slice(1, 5);
    assert_eq!(s.height(), 2);
    match s.column(&"a".to_string()).unwrap() {
        ColumnData::Int64(v) => assert_eq!(v, &vec![2, 3]),
        _ => panic!("wrong column type"),
    }
    let empty = f.slice(10, 2);
    assert_eq!(empty.height(), 0);
}

#[test]
fn test_vstack_and_concat() {
    let f = two_column_frame();
    let g = two_column_frame();
    let stacked = f.vstack(&g).unwrap();
    assert_eq!(stacked.height(), 6);

    let other = Frame::new(vec![int_field("z")], vec![ColumnData::Int64(vec![9])]).unwrap();
    assert!(matches!(f.vstack(&other), Err(ServiceError::SchemaMismatch)));

    let all = concat_frames(&vec![two_column_frame(), two_column_frame(), two_column_frame()])
        .unwrap();
    assert_eq!(all.height(), 9);

    let none: Vec<Frame> = vec![];
    assert!(matches!(concat_frames(&none), Err(ServiceError::NoData)));
}

#[test]
fn test_filter_mask() {
    let f = two_column_frame();
    let kept = f.filter_mask(&vec![true, false, true]).unwrap();
    assert_eq!(kept.height(), 2);
    match kept.column(&"a".to_string()).unwrap() {
        ColumnData::Int64(v) => assert_eq!(v, &vec![1, 3]),
        _ => panic!("wrong column type"),
    }
    assert!(matches!(f.filter_mask(&vec![true]), Err(ServiceError::Compute)));
}

#[test]
fn test_codec_round_trip() {
    let f = two_column_frame();
    let bytes = encode(&f);
    let back = decode(&bytes).unwrap();
    assert!(back.frames_equal(&f));
    match back.column(&"b".to_string()).unwrap() {
        ColumnData::Float64Bits(v) => {
            assert_eq!(f64::from_bits(v[0]), 1.5);
            assert_eq!(f64::from_bits(v[1]), 3.0);
            assert_eq!(f64::from_bits(v[2]), 4.5);
        },
        _ => panic!("wrong column type"),
    }
}

#[test]
fn test_codec_round_trip_all_types() {
    let f = Frame::new(
        vec![
            int_field("i"),
            float_field("f"),
            Field { name: "s".to_string(), dtype: LogicalType::Utf8, nullable: true },
            Field { name: "b".to_string(), dtype: LogicalType::Boolean, nullable: false },
        ],
        vec![
            ColumnData::Int64(vec![-1, i64::MAX]),
            ColumnData::Float64Bits(vec![0.0f64.to_bits(), (-2.5f64).to_bits()]),
            ColumnData::Utf8(vec!["hello".to_string(), "wörld".to_string()]),
            ColumnData::Boolean(vec![true, false]),
        ],
    )
    .unwrap();
    let bytes = encode(&f);
    let back = decode(&bytes).unwrap();
    assert!(back.frames_equal(&f));
}

#[test]
fn test_codec_round_trip_empty() {
    let f = Frame::new_empty();
    let back = decode(&encode(&f)).unwrap();
    assert!(back.frames_equal(&f));
}

#[test]
fn test_decode_rejects_malformed_bytes() {
    assert!(matches!(decode(&vec![]), Err(ServiceError::Compute)));
    assert!(matches!(decode(&vec![1, 2, 3]), Err(ServiceError::Compute)));
    let f = two_column_frame();
    let mut bytes = encode(&f);
    bytes.pop();
    assert!(matches!(decode(&bytes), Err(ServiceError::Compute)));
    let mut extra = encode(&f);
    extra.push(0);
    assert!(matches!(decode(&extra), Err(ServiceError::Compute)));
}
