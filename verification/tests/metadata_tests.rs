use pcd::{Dtype, Encoding, FieldSchema, Metadata, Viewpoint};

#[test]
fn test_dtype_get_size() {
    assert_eq!(Dtype::U8.get_size(), 1);
    assert_eq!(Dtype::U16.get_size(), 2);
    assert_eq!(Dtype::U32.get_size(), 4);
    assert_eq!(Dtype::U64.get_size(), 8);
    assert_eq!(Dtype::I8.get_size(), 1);
    assert_eq!(Dtype::I16.get_size(), 2);
    assert_eq!(Dtype::I32.get_size(), 4);
    assert_eq!(Dtype::I64.get_size(), 8);
    assert_eq!(Dtype::F32.get_size(), 4);
    assert_eq!(Dtype::F64.get_size(), 8);
}

#[test]
fn test_dtype_get_type() {
    assert_eq!(Dtype::U8.get_type(), "U");
    assert_eq!(Dtype::U16.get_type(), "U");
    assert_eq!(Dtype::U32.get_type(), "U");
    assert_eq!(Dtype::U64.get_type(), "U");
    assert_eq!(Dtype::I8.get_type(), "I");
    assert_eq!(Dtype::I16.get_type(), "I");
    assert_eq!(Dtype::I32.get_type(), "I");
    assert_eq!(Dtype::I64.get_type(), "I");
    assert_eq!(Dtype::F32.get_type(), "F");
    assert_eq!(Dtype::F64.get_type(), "F");
}

#[test]
fn test_encoding_as_str() {
    assert_eq!(Encoding::Ascii.as_str(), "ascii");
    assert_eq!(Encoding::Binary.as_str(), "binary");
    assert_eq!(Encoding::BinaryCompressed.as_str(), "binary_compressed");
}

#[test]
fn test_encoding_from_str() {
    assert_eq!(Encoding::from_str("ascii"), Some(Encoding::Ascii));
    assert_eq!(Encoding::from_str("binary"), Some(Encoding::Binary));
    assert_eq!(
        Encoding::from_str("binary_compressed"),
        Some(Encoding::BinaryCompressed)
    );
    assert_eq!(Encoding::from_str("foobar"), None);
}

#[test]
fn test_metadata_default() {
    let meta = Metadata::default();
    assert_eq!(meta.fields, FieldSchema::new());
    assert_eq!(meta.width, 0);
    assert_eq!(meta.height, 1);
    assert_eq!(meta.viewpoint, Viewpoint::default());
    assert_eq!(meta.npoints, 0);
    assert_eq!(meta.encoding, Encoding::default());
}

#[test]
fn test_dtype_roundtrips() {
    let all = [
        Dtype::U8,
        Dtype::U16,
        Dtype::U32,
        Dtype::U64,
        Dtype::I8,
        Dtype::I16,
        Dtype::I32,
        Dtype::I64,
        Dtype::F32,
        Dtype::F64,
    ];
    for d in all {
        assert_eq!(Dtype::from_type_size(d.get_type(), &d.get_size()), Ok(d));
        assert_eq!(Dtype::from_numpy_dtype(d.as_numpy_dtype()), Some(d));
    }
    assert_eq!(
        Dtype::from_type_size("U", &3),
        Err(pcd::PcdError::UnsupportedDtype)
    );
    assert_eq!(
        Dtype::from_type_size("F", &1),
        Err(pcd::PcdError::UnsupportedDtype)
    );
    assert_eq!(
        Dtype::from_type_size("X", &4),
        Err(pcd::PcdError::UnsupportedDtype)
    );
    assert_eq!(Dtype::from_numpy_dtype("float16"), None);
}

#[test]
fn test_metadata_new_and_trim() {
    let md = Metadata::new(
        vec!["x".to_owned(), "y".to_owned()],
        vec!["F".to_owned(), "U".to_owned()],
        vec![4, 1],
        None,
        2,
        1,
        2,
        None,
        Some("ascii"),
        None,
    )
    .unwrap();
    assert_eq!(md.fields.len(), 2);
    assert_eq!(md.fields.get(0).dtype, Dtype::F32);
    assert_eq!(md.fields.get(1).dtype, Dtype::U8);
    assert_eq!(md.fields.get(0).count, 1);
    assert_eq!(md.encoding, Encoding::Ascii);
    assert_eq!(md.version, "0.7");

    let mut md2 = md.clone();
    md2.trim(6);
    assert_eq!(md2.npoints, 6);
    assert_eq!(md2.width, 6);
    assert_eq!(md2.height, 1);

    let mut md3 = md.clone();
    md3.height = 2;
    md3.trim(5);
    assert_eq!(md3.npoints, 5);
    assert_eq!(md3.width, 3);
    assert_eq!(md3.height, 2);
}

#[test]
fn test_viewpoint_vec_roundtrip() {
    let vp = Viewpoint::from(vec![
        1.0f32.to_bits(),
        2.0f32.to_bits(),
        3.0f32.to_bits(),
        1.0f32.to_bits(),
        0,
        0,
        0,
    ]);
    let v = vp.to_vec();
    assert_eq!(v.len(), 7);
    assert_eq!(f32::from_bits(v[0]), 1.0);
    assert_eq!(f32::from_bits(v[3]), 1.0);
    assert_eq!(Viewpoint::default().qw, 1.0f32.to_bits());
}
