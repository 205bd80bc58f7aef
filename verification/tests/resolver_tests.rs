use zonemap_tiles::resolver::parse_root_adt_filename;

#[test]
fn accepts_plain_root_name() {
    let r = parse_root_adt_filename("Kalimdor_1_2.adt");
    assert_eq!(r, Some(("Kalimdor".to_string(), 1, 2)));
}

#[test]
fn accepts_uppercase_extension() {
    let r = parse_root_adt_filename("Azeroth_30_30.ADT");
    assert_eq!(r, Some(("Azeroth".to_string(), 30, 30)));
}

#[test]
fn accepts_mixed_case_extension() {
    let r = parse_root_adt_filename("Azeroth_63_0.AdT");
    assert_eq!(r, Some(("Azeroth".to_string(), 63, 0)));
}

#[test]
fn accepts_leading_zeros() {
    let r = parse_root_adt_filename("map_01_002.adt");
    assert_eq!(r, Some(("map".to_string(), 1, 2)));
}

#[test]
fn accepts_token_with_dot() {
    let r = parse_root_adt_filename("a.b_1_2.adt");
    assert_eq!(r, Some(("a.b".to_string(), 1, 2)));
}

#[test]
fn rejects_object_variant() {
    assert_eq!(parse_root_adt_filename("Kalimdor_1_2_obj0.adt"), None);
}

#[test]
fn rejects_texture_variant() {
    assert_eq!(parse_root_adt_filename("Kalimdor_1_2_tex0.adt"), None);
}

#[test]
fn rejects_lod_variant() {
    assert_eq!(parse_root_adt_filename("Kalimdor_1_2_lod.adt"), None);
}

#[test]
fn rejects_wrong_extension() {
    assert_eq!(parse_root_adt_filename("notanadt.txt"), None);
    assert_eq!(parse_root_adt_filename("Kalimdor_1_2.txt"), None);
}

#[test]
fn rejects_missing_segments() {
    assert_eq!(parse_root_adt_filename("Kalimdor_1.adt"), None);
    assert_eq!(parse_root_adt_filename("Kalimdor.adt"), None);
}

#[test]
fn rejects_non_numeric_coordinates() {
    assert_eq!(parse_root_adt_filename("Kalimdor_a_2.adt"), None);
    assert_eq!(parse_root_adt_filename("Kalimdor_1_b.adt"), None);
    assert_eq!(parse_root_adt_filename("Kalimdor_1_2x.adt"), None);
}

#[test]
fn rejects_signed_coordinates() {
    assert_eq!(parse_root_adt_filename("Kalimdor_+1_2.adt"), None);
    assert_eq!(parse_root_adt_filename("Kalimdor_-1_2.adt"), None);
}

#[test]
fn rejects_empty_token_or_coordinates() {
    assert_eq!(parse_root_adt_filename("_1_2.adt"), None);
    assert_eq!(parse_root_adt_filename("map__2.adt"), None);
    assert_eq!(parse_root_adt_filename("map_1_.adt"), None);
}

#[test]
fn rejects_out_of_range_coordinates() {
    assert_eq!(parse_root_adt_filename("map_4294967296_2.adt"), None);
    assert_eq!(parse_root_adt_filename("map_1_99999999999999999999.adt"), None);
}

#[test]
fn accepts_max_u32_coordinate() {
    let r = parse_root_adt_filename("map_4294967295_0.adt");
    assert_eq!(r, Some(("map".to_string(), 4294967295, 0)));
}

#[test]
fn rejects_empty_and_bare_dot_names() {
    assert_eq!(parse_root_adt_filename(""), None);
    assert_eq!(parse_root_adt_filename(".adt"), None);
    assert_eq!(parse_root_adt_filename("map_1_2."), None);
}
