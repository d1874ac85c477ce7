use dicom_rs::dataelem::{attribute_by_keyword, attribute_by_tag, DicomAttribute, DicomVr};
use dicom_rs::dictionary::{Dictionary, DictionaryError};

fn entry(tag: &'static str, keyword: &'static str, vr: Option<DicomVr>) -> DicomAttribute {
    DicomAttribute { tag, name: keyword, keyword, vr, vm: "1", attr_type: "" }
}

fn entries() -> Vec<DicomAttribute> {
    vec![
        entry("(7FE0,0010)", "PixelData", Some(DicomVr::ObOrOw)),
        entry("(0010,0010)", "PatientName", Some(DicomVr::Pn)),
        entry("(0002,0010)", "TransferSyntaxUID", Some(DicomVr::Ui)),
        entry("(0008,0060)", "Modality", Some(DicomVr::Cs)),
        entry("(0028,0010)", "Rows", Some(DicomVr::Us)),
        entry("(0028,0011)", "Columns", Some(DicomVr::Us)),
        entry("(0010,0020)", "PatientID", Some(DicomVr::Lo)),
        entry("(FACE,BEAD)", "FaceBead", None),
        entry("(0008,0018)", "SOPInstanceUID", Some(DicomVr::Ui)),
    ]
}

#[test]
fn a_dictionary_keeps_its_entries_in_their_order() {
    let dict = Dictionary::new(entries()).unwrap();
    assert_eq!(dict.len(), 9);
    let kept = dict.attributes();
    let given = entries();
    assert_eq!(kept.len(), given.len());
    for i in 0..given.len() {
        assert_eq!(kept[i].tag, given[i].tag);
        assert_eq!(kept[i].keyword, given[i].keyword);
        assert_eq!(kept[i].vr, given[i].vr);
    }
}

#[test]
fn the_empty_dictionary_finds_nothing() {
    let dict = Dictionary::new(Vec::new()).unwrap();
    assert_eq!(dict.len(), 0);
    assert!(attribute_by_tag(&dict, "(0010,0010)").is_none());
    assert!(attribute_by_keyword(&dict, "PatientName").is_none());
    assert!(attribute_by_keyword(&dict, "").is_none());
    assert!(attribute_by_tag(&dict, "").is_none());
}

#[test]
fn every_entry_is_found_by_its_tag() {
    let dict = Dictionary::new(entries()).unwrap();
    for e in entries() {
        let found = attribute_by_tag(&dict, e.tag).unwrap();
        assert_eq!(found.tag, e.tag);
        assert_eq!(found.keyword, e.keyword);
        assert_eq!(found.vr, e.vr);
    }
}

#[test]
fn every_entry_is_found_by_its_keyword() {
    let dict = Dictionary::new(entries()).unwrap();
    for e in entries() {
        let found = attribute_by_keyword(&dict, e.keyword).unwrap();
        assert_eq!(found.tag, e.tag);
        assert_eq!(found.keyword, e.keyword);
    }
}

#[test]
fn exactly_one_entry_has_each_tag_and_each_keyword() {
    let dict = Dictionary::new(entries()).unwrap();
    let all = dict.attributes();
    for e in all {
        assert_eq!(all.iter().filter(|o| o.tag == e.tag).count(), 1);
        assert_eq!(all.iter().filter(|o| o.keyword == e.keyword).count(), 1);
    }
}

#[test]
fn a_tag_is_found_in_its_loose_forms() {
    let dict = Dictionary::new(entries()).unwrap();
    for form in ["0010,0010", "0010-0010", "00100010", " (0010,0010) ", "0010 0010"] {
        assert_eq!(attribute_by_tag(&dict, form).unwrap().keyword, "PatientName");
    }
    assert_eq!(attribute_by_tag(&dict, "7fe00010").unwrap().keyword, "PixelData");
    assert_eq!(attribute_by_tag(&dict, "FaceBead").unwrap().tag, "(FACE,BEAD)");
}

#[test]
fn a_tag_in_brackets_is_looked_up_as_written() {
    let dict = Dictionary::new(entries()).unwrap();
    assert!(attribute_by_tag(&dict, "(7fe0,0010)").is_none());
    assert!(attribute_by_tag(&dict, "(7FE0,0010)").is_some());
}

#[test]
fn what_the_dictionary_lacks_is_not_found() {
    let dict = Dictionary::new(entries()).unwrap();
    assert!(attribute_by_tag(&dict, "(0010,0030)").is_none());
    assert!(attribute_by_tag(&dict, "00100030").is_none());
    assert!(attribute_by_tag(&dict, "PatientName").is_none());
    assert!(attribute_by_tag(&dict, "").is_none());
    assert!(attribute_by_keyword(&dict, "PatientBirthDate").is_none());
    assert!(attribute_by_keyword(&dict, "patientname").is_none());
    assert!(attribute_by_keyword(&dict, "PatientName ").is_none());
    assert!(attribute_by_keyword(&dict, "(0010,0010)").is_none());
    assert!(attribute_by_keyword(&dict, "").is_none());
    assert!(attribute_by_keyword(&dict, "Patient").is_none());
    assert!(attribute_by_keyword(&dict, "PatientNames").is_none());
}

#[test]
fn a_tag_of_another_form_is_refused() {
    let mut list = entries();
    list.insert(3, entry("(60xx,3000)", "OverlayData", Some(DicomVr::ObOrOw)));
    assert_eq!(Dictionary::new(list).err(), Some(DictionaryError::InvalidTag(3)));
    let lower = vec![entry("(7fe0,0010)", "PixelData", None)];
    assert_eq!(Dictionary::new(lower).err(), Some(DictionaryError::InvalidTag(0)));
    let bare = vec![entry("(0008,0060)", "Modality", None), entry("00080061", "Other", None)];
    assert_eq!(Dictionary::new(bare).err(), Some(DictionaryError::InvalidTag(1)));
}

#[test]
fn a_second_entry_with_a_tag_is_refused() {
    let mut list = entries();
    list.push(entry("(0010,0010)", "PatientsName", Some(DicomVr::Pn)));
    assert_eq!(Dictionary::new(list).err(), Some(DictionaryError::DuplicateTag(9)));
}

#[test]
fn a_second_entry_with_a_keyword_is_refused() {
    let mut list = entries();
    list.insert(5, entry("(0028,0012)", "Rows", Some(DicomVr::Us)));
    assert_eq!(Dictionary::new(list).err(), Some(DictionaryError::DuplicateKeyword(5)));
}

#[test]
fn the_first_fault_is_the_one_reported() {
    let list = vec![
        entry("(0008,0060)", "Modality", None),
        entry("(0008,0061)", "Modality", None),
        entry("(0008,0060)", "Again", None),
        entry("bad", "Bad", None),
    ];
    assert_eq!(Dictionary::new(list).err(), Some(DictionaryError::DuplicateKeyword(1)));
    let list = vec![
        entry("(0008,0060)", "Modality", None),
        entry("(0008,0060)", "Modality", None),
    ];
    assert_eq!(Dictionary::new(list).err(), Some(DictionaryError::DuplicateTag(1)));
}

#[test]
fn many_entries_are_all_found() {
    let tags: Vec<String> = (0..300u32)
        .map(|i| dicom_rs::dataelem::format_tag(((i * 7919) % 65536) as u16, ((i * 104729) % 65536) as u16))
        .collect();
    let keywords: Vec<String> = (0..300u32).map(|i| format!("Keyword{}", (i * 37) % 1000)).collect();
    let mut list = Vec::new();
    for i in 0..300 {
        let tag: &'static str = Box::leak(tags[i].clone().into_boxed_str());
        let keyword: &'static str = Box::leak(keywords[i].clone().into_boxed_str());
        list.push(entry(tag, keyword, None));
    }
    let dict = Dictionary::new(list).unwrap();
    for i in 0..300 {
        assert_eq!(attribute_by_tag(&dict, &tags[i]).unwrap().keyword, keywords[i]);
        assert_eq!(attribute_by_keyword(&dict, &keywords[i]).unwrap().tag, tags[i]);
    }
    assert!(attribute_by_keyword(&dict, "Keyword1000").is_none());
}

#[test]
fn a_dictionary_of_the_size_of_the_standard_one() {
    let mut list = Vec::new();
    let mut tags = Vec::new();
    for i in 0..4500u32 {
        let n = i.wrapping_mul(2654435761);
        let tag = dicom_rs::dataelem::format_tag((n >> 16) as u16, n as u16);
        let tag: &'static str = Box::leak(tag.into_boxed_str());
        let keyword: &'static str = Box::leak(format!("Attribute{}", i ^ 0x5A5).into_boxed_str());
        tags.push((tag, keyword));
        list.push(entry(tag, keyword, Some(DicomVr::Lo)));
    }
    let dict = Dictionary::new(list).unwrap();
    assert_eq!(dict.len(), 4500);
    for (tag, keyword) in tags {
        assert_eq!(attribute_by_tag(&dict, tag).unwrap().keyword, keyword);
        assert_eq!(attribute_by_keyword(&dict, keyword).unwrap().tag, tag);
    }
}
