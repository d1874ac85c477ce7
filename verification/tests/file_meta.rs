use dicom_rs::dataelem::{DataElementValue, DicomAttribute, DicomVr};
use dicom_rs::dictionary::Dictionary;
use dicom_rs::modules::io::{parse_file_meta, Endianness, VrMode};

fn entry(tag: &'static str, keyword: &'static str, vr: DicomVr) -> DicomAttribute {
    DicomAttribute { tag, name: keyword, keyword, vr: Some(vr), vm: "1", attr_type: "" }
}

fn dictionary() -> Dictionary {
    Dictionary::new(vec![
        entry("(0002,0000)", "FileMetaInformationGroupLength", DicomVr::Ul),
        entry("(0002,0001)", "FileMetaInformationVersion", DicomVr::Ob),
        entry("(0002,0002)", "MediaStorageSOPClassUID", DicomVr::Ui),
        entry("(0002,0010)", "TransferSyntaxUID", DicomVr::Ui),
        entry("(0008,0060)", "Modality", DicomVr::Cs),
    ])
    .unwrap()
}

fn short(group: u16, element: u16, vr: &[u8; 2], value: &[u8]) -> Vec<u8> {
    let mut b = Vec::new();
    b.extend_from_slice(&group.to_le_bytes());
    b.extend_from_slice(&element.to_le_bytes());
    b.extend_from_slice(vr);
    b.extend_from_slice(&(value.len() as u16).to_le_bytes());
    b.extend_from_slice(value);
    b
}

fn long(group: u16, element: u16, vr: &[u8; 2], value: &[u8]) -> Vec<u8> {
    let mut b = Vec::new();
    b.extend_from_slice(&group.to_le_bytes());
    b.extend_from_slice(&element.to_le_bytes());
    b.extend_from_slice(vr);
    b.extend_from_slice(&[0, 0]);
    b.extend_from_slice(&(value.len() as u32).to_le_bytes());
    b.extend_from_slice(value);
    b
}

fn text(v: &Option<DataElementValue>) -> &str {
    match v {
        Some(DataElementValue::String(s)) => s,
        other => panic!("not text: {:?}", other),
    }
}

#[test]
fn the_group_ends_at_the_first_other_tag() {
    let mut buf = vec![0xEE; 4];
    buf.extend(short(0x0002, 0x0000, b"UL", &[30, 0, 0, 0]));
    buf.extend(long(0x0002, 0x0001, b"OB", &[0, 1]));
    buf.extend(short(0x0002, 0x0010, b"UI", b"1.2.840.10008.1.2.1\0"));
    let end = buf.len();
    buf.extend(short(0x0008, 0x0060, b"CS", b"MR"));
    let (ts, off, elements) = parse_file_meta(&dictionary(), &buf, 4).unwrap();
    assert_eq!((ts.endian, ts.vr_mode), (Endianness::Little, VrMode::Explicit));
    assert_eq!(off, end);
    assert_eq!(elements.len(), 3);
    assert_eq!(elements[0].attribute.keyword, "FileMetaInformationGroupLength");
    assert!(matches!(elements[0].value, Some(DataElementValue::UInt32(30))));
    assert_eq!(elements[1].attribute.keyword, "FileMetaInformationVersion");
    match &elements[1].value {
        Some(DataElementValue::Data(b)) => assert_eq!(b, &[0, 1]),
        other => panic!("{:?}", other),
    }
    assert_eq!(elements[2].attribute.tag, "(0002,0010)");
    assert_eq!(text(&elements[2].value), "1.2.840.10008.1.2.1");
}

#[test]
fn each_transfer_syntax_is_resolved() {
    let cases = [
        ("1.2.840.10008.1.2\0", Endianness::Little, VrMode::Implicit),
        ("1.2.840.10008.1.2.1\0", Endianness::Little, VrMode::Explicit),
        ("1.2.840.10008.1.2.2\0", Endianness::Big, VrMode::Explicit),
        ("1.2.840.10008.1.2.4.50", Endianness::Little, VrMode::Explicit),
        ("1.2.840.10008.1.2 ", Endianness::Little, VrMode::Implicit),
        ("1.2.840.10008.1.2.2   ", Endianness::Big, VrMode::Explicit),
        ("", Endianness::Little, VrMode::Implicit),
        ("\0\0", Endianness::Little, VrMode::Implicit),
    ];
    for (uid, endian, vr_mode) in cases {
        let mut buf = short(0x0002, 0x0010, b"UI", uid.as_bytes());
        buf.extend(short(0x0008, 0x0060, b"CS", b"MR"));
        let (ts, off, elements) = parse_file_meta(&dictionary(), &buf, 0).unwrap();
        assert_eq!((ts.endian, ts.vr_mode), (endian, vr_mode));
        assert_eq!(off, 8 + uid.len());
        assert_eq!(elements.len(), 1);
    }
}

#[test]
fn a_transfer_syntax_that_is_no_text_counts_as_none() {
    let mut buf = short(0x0002, 0x0010, b"UI", &[0xFF, 0xFE]);
    buf.extend(short(0x0008, 0x0060, b"CS", b"MR"));
    let (ts, _, elements) = parse_file_meta(&dictionary(), &buf, 0).unwrap();
    assert_eq!((ts.endian, ts.vr_mode), (Endianness::Little, VrMode::Implicit));
    assert_eq!(text(&elements[0].value), "");
}

#[test]
fn without_a_transfer_syntax_the_default_holds() {
    let mut buf = short(0x0002, 0x0002, b"UI", b"1.2.840.10008.5.1.4.1.1.2\0");
    buf.extend(short(0x0008, 0x0060, b"CS", b"MR"));
    let (ts, off, elements) = parse_file_meta(&dictionary(), &buf, 0).unwrap();
    assert_eq!((ts.endian, ts.vr_mode), (Endianness::Little, VrMode::Implicit));
    assert_eq!(off, 34);
    assert_eq!(elements.len(), 1);
    assert_eq!(text(&elements[0].value), "1.2.840.10008.5.1.4.1.1.2");
}

#[test]
fn the_last_transfer_syntax_is_the_one_that_counts() {
    let mut buf = short(0x0002, 0x0010, b"UI", b"1.2.840.10008.1.2.2\0");
    buf.extend(short(0x0002, 0x0010, b"UI", b"1.2.840.10008.1.2.1\0"));
    buf.extend(short(0x0008, 0x0060, b"CS", b"MR"));
    let (ts, _, elements) = parse_file_meta(&dictionary(), &buf, 0).unwrap();
    assert_eq!((ts.endian, ts.vr_mode), (Endianness::Little, VrMode::Explicit));
    assert_eq!(elements.len(), 2);
    let mut buf = short(0x0002, 0x0010, b"UI", b"1.2.840.10008.1.2.2\0");
    buf.extend(short(0x0002, 0x0010, b"UI", b""));
    let (ts, _, _) = parse_file_meta(&dictionary(), &buf, 0).unwrap();
    assert_eq!((ts.endian, ts.vr_mode), (Endianness::Little, VrMode::Implicit));
}

#[test]
fn the_transfer_syntax_counts_though_the_dictionary_lacks_it() {
    let dict = Dictionary::new(Vec::new()).unwrap();
    let buf = short(0x0002, 0x0010, b"UI", b"1.2.840.10008.1.2.2\0");
    let (ts, off, elements) = parse_file_meta(&dict, &buf, 0).unwrap();
    assert_eq!((ts.endian, ts.vr_mode), (Endianness::Big, VrMode::Explicit));
    assert_eq!(off, 28);
    assert!(elements.is_empty());
}

#[test]
fn elements_that_the_dictionary_lacks_are_skipped() {
    let mut buf = short(0x0002, 0x0012, b"UI", b"1.2.3\0");
    buf.extend(short(0x0002, 0x0002, b"UI", b"1.2\0"));
    buf.extend(short(0x0002, 0x0013, b"SH", b"NAME"));
    let (_, off, elements) = parse_file_meta(&dictionary(), &buf, 0).unwrap();
    assert_eq!(off, buf.len());
    assert_eq!(elements.len(), 1);
    assert_eq!(elements[0].attribute.keyword, "MediaStorageSOPClassUID");
}

#[test]
fn the_end_of_the_buffer_ends_the_group() {
    let buf = short(0x0002, 0x0010, b"UI", b"1.2.840.10008.1.2.1\0");
    let (ts, off, elements) = parse_file_meta(&dictionary(), &buf, 0).unwrap();
    assert_eq!((ts.endian, ts.vr_mode), (Endianness::Little, VrMode::Explicit));
    assert_eq!(off, buf.len());
    assert_eq!(elements.len(), 1);
    let (ts, off, elements) = parse_file_meta(&dictionary(), &buf, buf.len()).unwrap();
    assert_eq!((ts.endian, ts.vr_mode), (Endianness::Little, VrMode::Implicit));
    assert_eq!(off, buf.len());
    assert!(elements.is_empty());
    let (_, off, _) = parse_file_meta(&dictionary(), &[], 0).unwrap();
    assert_eq!(off, 0);
}

#[test]
fn a_start_behind_the_buffer_gives_nothing() {
    let buf = short(0x0002, 0x0010, b"UI", b"1.2.840.10008.1.2.1\0");
    assert!(parse_file_meta(&dictionary(), &buf, buf.len() + 1).is_none());
    assert!(parse_file_meta(&dictionary(), &buf, 1000).is_none());
    assert!(parse_file_meta(&dictionary(), &buf, usize::MAX).is_none());
    assert!(parse_file_meta(&dictionary(), &[], 1).is_none());
}

#[test]
fn the_end_of_the_group_lies_in_the_buffer() {
    let mut buf = short(0x0002, 0x0002, b"UI", b"1.2\0");
    buf.extend(short(0x0002, 0x0010, b"UI", b"1.2.840.10008.1.2.1\0"));
    buf.extend(short(0x0008, 0x0060, b"CS", b"MR"));
    for start in 0..=buf.len() {
        if let Some((_, end, _)) = parse_file_meta(&dictionary(), &buf, start) {
            assert!(start <= end && end <= buf.len());
        }
    }
    let (_, end, _) = parse_file_meta(&dictionary(), &buf, 12).unwrap();
    assert_eq!(end, 40);
}

#[test]
fn a_value_that_overruns_the_buffer_fails_the_group() {
    let mut buf = short(0x0002, 0x0010, b"UI", b"1.2.840.10008.1.2.1\0");
    buf.truncate(buf.len() - 1);
    assert!(parse_file_meta(&dictionary(), &buf, 0).is_none());
    let mut buf = short(0x0002, 0x0002, b"UI", b"1.2\0");
    buf.extend(long(0x0002, 0x0001, b"OB", &[0, 1]));
    buf.truncate(buf.len() - 2);
    assert!(parse_file_meta(&dictionary(), &buf, 0).is_none());
    let undefined = [0x02, 0x00, 0x01, 0x00, b'O', b'B', 0, 0, 0xFF, 0xFF, 0xFF, 0xFF, 1, 2];
    assert!(parse_file_meta(&dictionary(), &undefined, 0).is_none());
}

#[test]
fn a_header_cut_short_fails_the_group() {
    let whole = short(0x0002, 0x0002, b"UI", b"1.2\0");
    for n in 1..8 {
        let mut buf = whole.clone();
        buf.extend_from_slice(&[0x02, 0x00, 0x10, 0x00, b'U', b'I', 0x00, 0x00][..n]);
        assert!(parse_file_meta(&dictionary(), &buf, 0).is_none());
    }
    for n in 1..8 {
        let mut buf = whole.clone();
        buf.extend_from_slice(&[0x08, 0x00, 0x60, 0x00, b'C', b'S', 0x00, 0x00][..n]);
        assert!(parse_file_meta(&dictionary(), &buf, 0).is_none());
    }
    let mut buf = whole.clone();
    buf.extend_from_slice(&[0x08, 0x00, 0x60, 0x00, b'O', b'B', 0x00, 0x00, 0x00, 0x00]);
    assert!(parse_file_meta(&dictionary(), &buf, 0).is_none());
}

#[test]
fn the_group_is_read_in_little_endian_whatever_it_announces() {
    let mut buf = short(0x0002, 0x0010, b"UI", b"1.2.840.10008.1.2.2\0");
    buf.extend(short(0x0002, 0x0000, b"UL", &[0x10, 0x00, 0x00, 0x00]));
    let (ts, _, elements) = parse_file_meta(&dictionary(), &buf, 0).unwrap();
    assert_eq!(ts.endian, Endianness::Big);
    assert!(matches!(elements[1].value, Some(DataElementValue::UInt32(16))));
}
