use dicom_rs::dataelem::{format_tag, normalize_tag, tag_is_canonical};

#[test]
fn loose_forms_of_one_tag_agree() {
    assert_eq!(normalize_tag("0010,0010"), "(0010,0010)");
    assert_eq!(normalize_tag("0010-0010"), "(0010,0010)");
    assert_eq!(normalize_tag("00100010"), "(0010,0010)");
    assert_eq!(normalize_tag("0010,0010"), normalize_tag("0010-0010"));
    assert_eq!(normalize_tag("0010-0010"), normalize_tag("00100010"));
}

#[test]
fn a_tag_in_brackets_stays_as_it_is() {
    assert_eq!(normalize_tag("(0010,0010)"), "(0010,0010)");
    assert_eq!(normalize_tag("(7fe0,0010)"), "(7fe0,0010)");
    assert_eq!(normalize_tag("(60xx,3000)"), "(60xx,3000)");
    assert_eq!(normalize_tag("(,)"), "(,)");
}

#[test]
fn white_space_around_the_input_is_dropped() {
    assert_eq!(normalize_tag("  (0008,0060)\t\n"), "(0008,0060)");
    assert_eq!(normalize_tag(" 0008 0060 "), "(0008,0060)");
    assert_eq!(normalize_tag("\u{3000}Modality\u{a0}"), "Modality");
    assert_eq!(normalize_tag("   "), "");
    assert_eq!(normalize_tag(""), "");
}

#[test]
fn hexadecimal_letters_come_out_in_upper_case() {
    assert_eq!(normalize_tag("7fe00010"), "(7FE0,0010)");
    assert_eq!(normalize_tag("7Fe0:0010"), "(7FE0,0010)");
    assert_eq!(normalize_tag("fffe e00d"), "(FFFE,E00D)");
}

#[test]
fn other_characters_between_the_digits_are_dropped() {
    assert_eq!(normalize_tag("0010,0010)"), "(0010,0010)");
    assert_eq!(normalize_tag("(0010 0010)"), "(0010,0010)");
    assert_eq!(normalize_tag("x0008y0060z"), "(0008,0060)");
    assert_eq!(normalize_tag("\u{e9}0008\u{4e2d}0060"), "(0008,0060)");
}

#[test]
fn without_eight_digits_the_input_stays() {
    assert_eq!(normalize_tag("PatientName"), "PatientName");
    assert_eq!(normalize_tag("0010001"), "0010001");
    assert_eq!(normalize_tag("001000100"), "001000100");
    assert_eq!(normalize_tag("Modality"), "Modality");
    assert_eq!(normalize_tag(" Rows "), "Rows");
    assert_eq!(normalize_tag("(0010,0010"), "(0010,0010)");
    assert_eq!(normalize_tag("(00100010)"), "(0010,0010)");
}

#[test]
fn a_keyword_with_eight_hexadecimal_letters_becomes_a_tag() {
    assert_eq!(normalize_tag("FaceBead"), "(FACE,BEAD)");
    assert_eq!(normalize_tag("FeedbackFace"), "FeedbackFace");
}

#[test]
fn normalizing_twice_changes_nothing() {
    let inputs = [
        "0010,0010",
        " (0008,0060) ",
        "7fe00010",
        "PatientName",
        "  x  ",
        "",
        "(a,b)",
        "FaceBead",
        "00100010 ",
        "(0010 0010)",
    ];
    for input in inputs {
        let once = normalize_tag(input);
        assert_eq!(normalize_tag(&once), once);
    }
}

#[test]
fn format_tag_pads_with_zeros_in_upper_case() {
    assert_eq!(format_tag(0x0010, 0x0010), "(0010,0010)");
    assert_eq!(format_tag(0x7FE0, 0x0010), "(7FE0,0010)");
    assert_eq!(format_tag(0xFFFE, 0xE0DD), "(FFFE,E0DD)");
    assert_eq!(format_tag(0, 0), "(0000,0000)");
    assert_eq!(format_tag(0xABCD, 0x9F01), "(ABCD,9F01)");
    assert_eq!(format_tag(0xFFFF, 0xFFFF), "(FFFF,FFFF)");
}

#[test]
fn canonical_tags_are_told_from_others() {
    assert!(tag_is_canonical("(0010,0010)"));
    assert!(tag_is_canonical("(7FE0,0010)"));
    assert!(!tag_is_canonical("(7fe0,0010)"));
    assert!(!tag_is_canonical("(60xx,3000)"));
    assert!(!tag_is_canonical("0010,0010"));
    assert!(!tag_is_canonical("(0010,0010) "));
    assert!(!tag_is_canonical("(0010;0010)"));
    assert!(!tag_is_canonical("(00100,010)"));
    assert!(!tag_is_canonical("[0010,0010]"));
    assert!(!tag_is_canonical(""));
    assert!(!tag_is_canonical("(001G,0010)"));
    assert!(!tag_is_canonical("(0010,001/)"));
    assert!(!tag_is_canonical("(0010,001:)"));
    assert!(!tag_is_canonical("(0010,001@)"));
}

#[test]
fn a_formatted_tag_is_canonical_and_normal() {
    for (group, element) in [(0u16, 0u16), (0x0008, 0x0060), (0x7FE0, 0x0010), (0xFFFF, 0xFFFF)] {
        let tag = format_tag(group, element);
        assert!(tag_is_canonical(&tag));
        assert_eq!(normalize_tag(&tag), tag);
    }
}
