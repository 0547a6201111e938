use pcd::{Dtype, FieldData, PcdError};

#[test]
fn test_simple() {
    let mut field = FieldData::new(Dtype::U8, 5, 1);
    for (i, v) in [1u8, 2, 3, 4, 5].iter().enumerate() {
        field.assign_row_from_buffer(i, &[*v]);
    }
    assert_eq!(field.npoints(), 5);
    assert_eq!(field.dtype().get_size(), 1);
    assert_eq!(field.dtype().get_type(), "U");
}

#[test]
fn test_slicing() {
    let mut field = FieldData::new(Dtype::U8, 5, 1);
    for (i, v) in [1u8, 2, 3, 4, 5].iter().enumerate() {
        field.assign_row_from_buffer(i, &[*v]);
    }
    let sliced = field.slice(1, 4, 1);
    assert_eq!(sliced.npoints(), 3);
    assert_eq!(sliced.dtype().get_size(), 1);
    assert_eq!(sliced.dtype().get_type(), "U");

    let sliced = field.slice(0, 5, 2);
    assert_eq!(sliced.npoints(), 3);
    assert_eq!(sliced.dtype().get_size(), 1);
    assert_eq!(sliced.dtype().get_type(), "U");
}

#[test]
fn test_construction() {
    let mut field = FieldData::new(Dtype::U8, 10, 3);
    assert_eq!(field.npoints(), 10);

    let data = [1u8, 2, 3];
    field.assign_row_from_buffer(0, &data);
    assert_eq!(field.npoints(), 10);
    assert_eq!(field.get_row(0), vec![1u8, 2, 3]);
}

#[test]
fn test_slice_identity_and_step() {
    let mut field = FieldData::new(Dtype::U16, 5, 1);
    for (i, v) in [10u16, 20, 30, 40, 50].iter().enumerate() {
        field.assign_row_from_buffer(i, &v.to_le_bytes());
    }
    // a whole-range slice with step one reproduces the field
    let same = field.slice(0, 5, 1);
    assert_eq!(same.get_data(), field.get_data());
    // a strided slice selects ceil((stop - start) / step) rows
    let odd = field.slice(1, 5, 2);
    assert_eq!(odd.npoints(), 2);
    assert_eq!(odd.get_row(0), 20u16.to_le_bytes().to_vec());
    assert_eq!(odd.get_row(1), 40u16.to_le_bytes().to_vec());
}

#[test]
fn test_update_slice_strided() {
    let mut field = FieldData::new(Dtype::U8, 6, 1);
    for i in 0..6 {
        field.assign_row_from_buffer(i, &[i as u8]);
    }
    let mut donor = FieldData::new(Dtype::U8, 2, 1);
    donor.assign_row_from_buffer(0, &[100]);
    donor.assign_row_from_buffer(1, &[101]);
    // equal-length contiguous ranges: exact overwrite of rows 2 and 3
    field
        .update_slice_strided(&donor, 2, 4, 1, 0, 2, 1)
        .unwrap();
    assert_eq!(field.get_row(1), vec![1u8]);
    assert_eq!(field.get_row(2), vec![100u8]);
    assert_eq!(field.get_row(3), vec![101u8]);
    assert_eq!(field.get_row(4), vec![4u8]);
    // mismatched selection lengths fail
    let r = field.update_slice_strided(&donor, 0, 3, 1, 0, 2, 1);
    assert_eq!(r, Err(PcdError::LengthMismatch));
    // different dtypes fail
    let donor16 = FieldData::new(Dtype::U16, 2, 1);
    let r = field.update_slice_strided(&donor16, 2, 4, 1, 0, 2, 1);
    assert_eq!(r, Err(PcdError::DtypeMismatch));
}

#[test]
fn test_bulk_assign() {
    let mut field = FieldData::new(Dtype::I16, 2, 2);
    let bytes: Vec<u8> = [1i16, -2, 3, -4]
        .iter()
        .flat_map(|v| v.to_le_bytes())
        .collect();
    field.assign_from_buffer(&bytes);
    assert_eq!(field.get_data(), bytes);
    assert_eq!(field.len(), 4);
    assert_eq!(field.count(), 2);
}
