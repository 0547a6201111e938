use pcd::{Dtype, Field, FieldData, InvariantKind, Metadata, PcdError, PointCloud};

fn u8_cloud(npoints: usize) -> PointCloud {
    let md = Metadata::new(
        vec!["v".to_owned()],
        vec!["U".to_owned()],
        vec![1],
        None,
        npoints,
        1,
        npoints,
        None,
        Some("binary"),
        None,
    )
    .unwrap();
    let mut pc = PointCloud::new(md);
    let bytes: Vec<u8> = (0..npoints as u8).collect();
    pc.set_field("v", Dtype::U8, 1, &bytes).unwrap();
    pc
}

#[test]
fn test_check_pointcloud_shape_mismatch() {
    let mut pc = u8_cloud(4);
    pc.metadata.width = 3;
    assert_eq!(
        pc.check_pointcloud(),
        Err(PcdError::InvariantViolation(InvariantKind::ShapeMismatch))
    );
}

#[test]
fn test_check_pointcloud_dtype_mismatch() {
    let mut pc = u8_cloud(4);
    pc.fields[0] = Field {
        name: "v".to_owned(),
        data: FieldData::new(Dtype::F32, 4, 1),
    };
    assert_eq!(
        pc.check_pointcloud(),
        Err(PcdError::InvariantViolation(InvariantKind::FieldDtypeMismatch))
    );
}

#[test]
fn test_check_pointcloud_missing_and_extra_field() {
    let md = u8_cloud(4).metadata;
    let empty = PointCloud::empty(md.clone());
    assert_eq!(
        empty.check_pointcloud(),
        Err(PcdError::InvariantViolation(InvariantKind::FieldCountMismatch))
    );
    let mut pc = u8_cloud(4);
    pc.fields[0] = Field {
        name: "other".to_owned(),
        data: FieldData::new(Dtype::U8, 4, 1),
    };
    assert_eq!(
        pc.check_pointcloud(),
        Err(PcdError::InvariantViolation(InvariantKind::UnknownField))
    );
}

#[test]
fn test_check_pointcloud_length_mismatch() {
    let mut pc = u8_cloud(4);
    pc.fields[0] = Field {
        name: "v".to_owned(),
        data: FieldData::new(Dtype::U8, 3, 1),
    };
    // the field no longer matches npoints; its schema entry still does
    assert_eq!(
        pc.check_pointcloud(),
        Err(PcdError::InvariantViolation(InvariantKind::FieldLengthMismatch))
    );
}

#[test]
fn test_cloud_slice() {
    let pc = u8_cloud(6);
    let s = pc.slice(1, 6, 2);
    assert_eq!(s.metadata.npoints, 3);
    assert_eq!(s.metadata.width, 3);
    assert_eq!(s.metadata.height, 1);
    assert_eq!(s.get_field("v").unwrap().get_data(), vec![1u8, 3, 5]);
    assert!(s.check_pointcloud().is_ok());
    // a whole-range slice reproduces the data
    let whole = pc.slice(0, 6, 1);
    assert_eq!(
        whole.get_field("v").unwrap().get_data(),
        pc.get_field("v").unwrap().get_data()
    );
}

#[test]
fn test_cloud_update_slice() {
    let mut pc = u8_cloud(6);
    let donor = u8_cloud(2);
    // donor rows 0 and 1 land on rows 2 and 4
    pc.update_slice(&donor, 2, 6, 2).unwrap();
    assert_eq!(
        pc.get_field("v").unwrap().get_data(),
        vec![0u8, 1, 0, 3, 1, 5]
    );
    // a donor of the wrong length fails and changes nothing
    let donor3 = u8_cloud(3);
    let r = pc.update_slice(&donor3, 2, 6, 2);
    assert_eq!(r, Err(PcdError::LengthMismatch));
    assert_eq!(
        pc.get_field("v").unwrap().get_data(),
        vec![0u8, 1, 0, 3, 1, 5]
    );
}

#[test]
fn test_set_field_validation() {
    let mut pc = u8_cloud(4);
    // replacing with a mismatched dtype is a schema mismatch
    let r = pc.set_field("v", Dtype::F32, 1, &[0; 16]);
    assert_eq!(r, Err(PcdError::SchemaMismatch));
    // a buffer of the wrong size is a payload length mismatch
    let r = pc.set_field("v", Dtype::U8, 1, &[0; 3]);
    assert_eq!(r, Err(PcdError::PayloadLengthMismatch));
    // an empty name is malformed
    let r = pc.set_field("", Dtype::U8, 1, &[0; 4]);
    assert_eq!(r, Err(PcdError::MalformedValue));
    // a fresh field extends the schema and stores the bytes
    pc.set_field("w", Dtype::I16, 1, &[1, 0, 2, 0, 3, 0, 4, 0]).unwrap();
    assert_eq!(pc.metadata.fields.len(), 2);
    assert_eq!(
        pc.get_field("w").unwrap().get_data(),
        vec![1u8, 0, 2, 0, 3, 0, 4, 0]
    );
    assert!(pc.check_pointcloud().is_ok());
}

#[test]
fn test_len_and_empty() {
    let pc = u8_cloud(5);
    assert_eq!(pc.len(), 5);
    let empty = PointCloud::empty(pc.metadata.clone());
    assert_eq!(empty.len(), 5);
    assert_eq!(empty.fields.len(), 0);
}
