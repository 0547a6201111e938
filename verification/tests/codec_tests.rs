use pcd::{Dtype, Encoding, Metadata, PointCloud};

fn xyz_metadata(encoding: &str) -> Metadata {
    Metadata::new(
        vec!["x".to_owned(), "y".to_owned(), "z".to_owned()],
        vec!["F".to_owned(), "F".to_owned(), "F".to_owned()],
        vec![4, 4, 4],
        Some(vec![1, 1, 1]),
        2,
        1,
        2,
        None,
        Some(encoding),
        None,
    )
    .unwrap()
}

fn f32_column(values: &[f32]) -> Vec<u8> {
    values.iter().flat_map(|v| v.to_le_bytes()).collect()
}

#[test]
fn test_parse_ascii_scenario() {
    let mut file = Vec::new();
    file.extend_from_slice(
        b"VERSION 0.7\nFIELDS x y z\nSIZE 4 4 4\nTYPE F F F\nCOUNT 1 1 1\n\
          WIDTH 2\nHEIGHT 1\nPOINTS 2\nDATA ascii\n",
    );
    file.extend_from_slice(b"1.0 2.0 3.0\n4.0 5.0 6.0\n");
    let pc = PointCloud::from_pcd_bytes(&file).unwrap();
    assert_eq!(pc.len(), 2);
    assert_eq!(pc.get_field("x").unwrap().get_data(), f32_column(&[1.0, 4.0]));
    assert_eq!(pc.get_field("y").unwrap().get_data(), f32_column(&[2.0, 5.0]));
    assert_eq!(pc.get_field("z").unwrap().get_data(), f32_column(&[3.0, 6.0]));
    assert!(pc.check_pointcloud().is_ok());
}

#[test]
fn test_parse_binary_scenario() {
    let mut file = Vec::new();
    file.extend_from_slice(
        b"VERSION 0.7\nFIELDS x y z\nSIZE 4 4 4\nTYPE F F F\nCOUNT 1 1 1\n\
          WIDTH 2\nHEIGHT 1\nPOINTS 2\nDATA binary\n",
    );
    // two points of little-endian float triples
    file.extend_from_slice(&f32_column(&[1.0, 2.0, 3.0]));
    file.extend_from_slice(&f32_column(&[4.0, 5.0, 6.0]));
    let pc = PointCloud::from_pcd_bytes(&file).unwrap();
    assert_eq!(pc.get_field("x").unwrap().get_data(), f32_column(&[1.0, 4.0]));
    assert_eq!(pc.get_field("y").unwrap().get_data(), f32_column(&[2.0, 5.0]));
    assert_eq!(pc.get_field("z").unwrap().get_data(), f32_column(&[3.0, 6.0]));
}

#[test]
fn test_parse_compressed_scenario() {
    // the decompressed buffer is the column-major concatenation of the
    // x, y and z columns
    let mut buffer = Vec::new();
    buffer.extend_from_slice(&f32_column(&[1.0, 4.0]));
    buffer.extend_from_slice(&f32_column(&[2.0, 5.0]));
    buffer.extend_from_slice(&f32_column(&[3.0, 6.0]));
    // a literal-run LZF block: a control byte for a 24-byte literal run,
    // then the bytes themselves
    let mut compressed = vec![(buffer.len() - 1) as u8];
    compressed.extend_from_slice(&buffer);
    assert_eq!(lzf::decompress(&compressed, buffer.len()).unwrap(), buffer);
    let mut file = Vec::new();
    file.extend_from_slice(
        b"VERSION 0.7\nFIELDS x y z\nSIZE 4 4 4\nTYPE F F F\nCOUNT 1 1 1\n\
          WIDTH 2\nHEIGHT 1\nPOINTS 2\nDATA binary_compressed\n",
    );
    file.extend_from_slice(&(compressed.len() as u32).to_le_bytes());
    file.extend_from_slice(&(buffer.len() as u32).to_le_bytes());
    file.extend_from_slice(&compressed);
    let pc = PointCloud::from_pcd_bytes(&file).unwrap();
    assert_eq!(pc.get_field("x").unwrap().get_data(), f32_column(&[1.0, 4.0]));
    assert_eq!(pc.get_field("y").unwrap().get_data(), f32_column(&[2.0, 5.0]));
    assert_eq!(pc.get_field("z").unwrap().get_data(), f32_column(&[3.0, 6.0]));
}

fn mixed_cloud(encoding: &str) -> PointCloud {
    let md = Metadata::new(
        vec!["pos".to_owned(), "tag".to_owned(), "delta".to_owned()],
        vec!["F".to_owned(), "U".to_owned(), "I".to_owned()],
        vec![4, 1, 2],
        Some(vec![3, 1, 1]),
        4,
        1,
        4,
        None,
        Some(encoding),
        None,
    )
    .unwrap();
    let mut pc = PointCloud::new(md);
    let pos: Vec<u8> = (0..12)
        .map(|i| ((i % 3) as f32) * 0.25 - 1.5)
        .flat_map(|v: f32| v.to_le_bytes())
        .collect();
    pc.set_field("pos", Dtype::F32, 3, &pos).unwrap();
    pc.set_field("tag", Dtype::U8, 1, &[0, 1, 128, 255]).unwrap();
    let deltas: Vec<u8> = [-32768i16, -1, 0, 32767]
        .iter()
        .flat_map(|v| v.to_le_bytes())
        .collect();
    pc.set_field("delta", Dtype::I16, 1, &deltas).unwrap();
    pc
}

fn assert_same_data(a: &PointCloud, b: &PointCloud) {
    for name in ["pos", "tag", "delta"] {
        assert_eq!(
            a.get_field(name).unwrap().get_data(),
            b.get_field(name).unwrap().get_data(),
            "field {} differs",
            name
        );
    }
}

#[test]
fn test_roundtrip_ascii() {
    let pc = mixed_cloud("ascii");
    let bytes = pc.to_pcd_bytes().unwrap();
    let back = PointCloud::from_pcd_bytes(&bytes).unwrap();
    assert_eq!(back.metadata.npoints, 4);
    assert_eq!(back.metadata.encoding, Encoding::Ascii);
    assert_same_data(&pc, &back);
}

#[test]
fn test_roundtrip_ascii_large_floats() {
    // the fixed-six-digit rendering of a large float spans well over
    // nineteen digits and must still read back to the same bits
    let md = xyz_metadata("ascii");
    let mut pc = PointCloud::new(md);
    pc.set_field("x", Dtype::F32, 1, &f32_column(&[18446744073709551616.0, f32::MAX])).unwrap();
    pc.set_field("y", Dtype::F32, 1, &f32_column(&[-3.0e30, 1.0e38])).unwrap();
    pc.set_field("z", Dtype::F32, 1, &f32_column(&[0.25, -0.5])).unwrap();
    let bytes = pc.to_pcd_bytes().unwrap();
    let back = PointCloud::from_pcd_bytes(&bytes).unwrap();
    for name in ["x", "y", "z"] {
        assert_eq!(
            pc.get_field(name).unwrap().get_data(),
            back.get_field(name).unwrap().get_data(),
            "field {} differs",
            name
        );
    }
}

#[test]
fn test_roundtrip_binary() {
    let pc = mixed_cloud("binary");
    let bytes = pc.to_pcd_bytes().unwrap();
    let back = PointCloud::from_pcd_bytes(&bytes).unwrap();
    assert_eq!(back.metadata.encoding, Encoding::Binary);
    assert_same_data(&pc, &back);
}

#[test]
fn test_roundtrip_compressed() {
    let pc = mixed_cloud("binary_compressed");
    let bytes = pc.to_pcd_bytes().unwrap();
    let back = PointCloud::from_pcd_bytes(&bytes).unwrap();
    assert_eq!(back.metadata.encoding, Encoding::BinaryCompressed);
    assert_same_data(&pc, &back);
}

#[test]
fn test_header_written_text() {
    let md = xyz_metadata("ascii");
    let pc = PointCloud::new(md);
    let bytes = pc.to_pcd_bytes().unwrap();
    let text = String::from_utf8(bytes).unwrap();
    let expected = "VERSION 0.7\nFIELDS x y z\nSIZE 4 4 4\nTYPE F F F\nCOUNT 1 1 1\n\
                    WIDTH 2\nHEIGHT 1\n\
                    VIEWPOINT 0.000000 0.000000 0.000000 1.000000 0.000000 0.000000 0.000000\n\
                    POINTS 2\nDATA ascii\n\
                    0.000000 0.000000 0.000000\n0.000000 0.000000 0.000000\n";
    assert_eq!(text, expected);
}

#[test]
fn test_header_errors() {
    // DATA never arrives
    let r = PointCloud::from_pcd_bytes(b"VERSION 0.7\nFIELDS x\n");
    assert_eq!(r.unwrap_err(), pcd::PcdError::UnexpectedEof);
    // missing WIDTH
    let r = PointCloud::from_pcd_bytes(
        b"VERSION 0.7\nFIELDS x\nSIZE 4\nTYPE F\nCOUNT 1\nHEIGHT 1\nPOINTS 1\nDATA ascii\n1.5\n",
    );
    assert_eq!(
        r.unwrap_err(),
        pcd::PcdError::MissingHeaderField(pcd::HeaderKey::Width)
    );
    // unsupported category and size pair
    let r = PointCloud::from_pcd_bytes(
        b"VERSION 0.7\nFIELDS x\nSIZE 3\nTYPE F\nCOUNT 1\nWIDTH 1\nHEIGHT 1\nPOINTS 1\nDATA ascii\n1.5\n",
    );
    assert_eq!(r.unwrap_err(), pcd::PcdError::UnsupportedDtype);
    // a malformed numeric value in the payload
    let r = PointCloud::from_pcd_bytes(
        b"VERSION 0.7\nFIELDS x\nSIZE 4\nTYPE F\nCOUNT 1\nWIDTH 1\nHEIGHT 1\nPOINTS 1\nDATA ascii\nabc\n",
    );
    assert_eq!(r.unwrap_err(), pcd::PcdError::MalformedValue);
    // a line with too few values
    let r = PointCloud::from_pcd_bytes(
        b"VERSION 0.7\nFIELDS x y\nSIZE 4 4\nTYPE F F\nCOUNT 1 1\nWIDTH 1\nHEIGHT 1\nPOINTS 1\nDATA ascii\n1.5\n",
    );
    assert_eq!(r.unwrap_err(), pcd::PcdError::PayloadLengthMismatch);
    // a truncated binary payload
    let r = PointCloud::from_pcd_bytes(
        b"VERSION 0.7\nFIELDS x\nSIZE 4\nTYPE F\nCOUNT 1\nWIDTH 1\nHEIGHT 1\nPOINTS 1\nDATA binary\nab",
    );
    assert_eq!(r.unwrap_err(), pcd::PcdError::UnexpectedEof);
}

#[test]
fn test_comments_and_blank_lines() {
    let mut file = Vec::new();
    file.extend_from_slice(
        b"# a point cloud\n\nVERSION 0.7\nFIELDS v\nSIZE 2\nTYPE U\nCOUNT 1 # one per point\n\
          WIDTH 2\nHEIGHT 1\nPOINTS 2\nDATA ascii\n\n# payload\n7 \n 65535\n",
    );
    let pc = PointCloud::from_pcd_bytes(&file).unwrap();
    let expect: Vec<u8> = [7u16, 65535].iter().flat_map(|v| v.to_le_bytes()).collect();
    assert_eq!(pc.get_field("v").unwrap().get_data(), expect);
}

#[test]
fn test_viewpoint_header_roundtrip() {
    let md = Metadata::new(
        vec!["x".to_owned()],
        vec!["F".to_owned()],
        vec![4],
        None,
        1,
        1,
        1,
        Some(vec![
            1.5f32.to_bits(),
            (-2.25f32).to_bits(),
            0.0f32.to_bits(),
            1.0f32.to_bits(),
            0,
            0,
            0,
        ]),
        Some("binary"),
        Some("0.7"),
    )
    .unwrap();
    let pc = PointCloud::new(md);
    let bytes = pc.to_pcd_bytes().unwrap();
    let back = PointCloud::from_pcd_bytes(&bytes).unwrap();
    assert_eq!(f32::from_bits(back.metadata.viewpoint.tx), 1.5);
    assert_eq!(f32::from_bits(back.metadata.viewpoint.ty), -2.25);
    assert_eq!(f32::from_bits(back.metadata.viewpoint.qw), 1.0);
}
