use zonemap_tiles::codec::decode_tile_record;
use zonemap_tiles::driver::TileOutcome;
use zonemap_tiles::export::TileGridExport;
use zonemap_tiles::extract::{normalize_area_ids, parse_adt_areaids};
use zonemap_tiles::resolver::parse_root_adt_filename;
use zonemap_tiles::tile_key;

fn mk_chunk(index: u32, area_id: u32) -> wow_adt::McnkChunk {
    wow_adt::McnkChunk {
        header: wow_adt::McnkHeader {
            flags: wow_adt::McnkFlags { value: 0 },
            index_x: index % 16,
            index_y: index / 16,
            n_layers: 0,
            n_doodad_refs: 0,
            multipurpose_field: wow_adt::McnkHeader::multipurpose_from_offsets(0, 0),
            ofs_layer: 0,
            ofs_refs: 0,
            ofs_alpha: 0,
            size_alpha: 0,
            ofs_shadow: 0,
            size_shadow: 0,
            area_id,
            n_map_obj_refs: 0,
            holes_low_res: 0,
            unknown_but_used: 1,
            pred_tex: [0; 8],
            no_effect_doodad: [0; 8],
            unknown_8bytes: [0; 8],
            ofs_snd_emitters: 0,
            n_snd_emitters: 0,
            ofs_liquid: 0,
            size_liquid: 0,
            position: [0.0; 3],
            ofs_mccv: 0,
            ofs_mclv: 0,
            unused: 0,
            _padding: [0; 8],
        },
        heights: None,
        normals: None,
        layers: None,
        materials: None,
        refs: None,
        doodad_refs: None,
        wmo_refs: None,
        alpha: None,
        shadow: None,
        vertex_colors: None,
        vertex_lighting: None,
        sound_emitters: None,
        liquid: None,
        doodad_disable: None,
        blend_batches: None,
    }
}

fn adt_bytes(area_ids: &[u32]) -> Vec<u8> {
    let mut builder = wow_adt::AdtBuilder::new()
        .with_version(wow_adt::AdtVersion::WotLK)
        .add_texture("terrain.blp");
    for (i, &id) in area_ids.iter().enumerate() {
        builder = builder.add_mcnk_chunk(mk_chunk(i as u32, id));
    }
    builder.build().unwrap().to_bytes().unwrap()
}

#[test]
fn normalization_pads_short_records_with_zeros() {
    let ids: Vec<u32> = (1..=10).collect();
    let out = normalize_area_ids(ids).unwrap();
    assert_eq!(out.len(), 256);
    assert_eq!(&out[..10], &(1..=10).collect::<Vec<u32>>()[..]);
    assert!(out[10..].iter().all(|&v| v == 0));
}

#[test]
fn normalization_skips_empty_records() {
    assert_eq!(normalize_area_ids(Vec::new()), None);
}

#[test]
fn normalization_truncates_overlong_records() {
    let ids = vec![9u32; 300];
    let out = normalize_area_ids(ids).unwrap();
    assert_eq!(out.len(), 256);
    assert!(out.iter().all(|&v| v == 9));
}

#[test]
fn parse_extracts_area_ids_from_real_adt() {
    let bytes = adt_bytes(&[5, 7, 9]);
    let ids = parse_adt_areaids(&bytes).unwrap().unwrap();
    assert_eq!(ids.len(), 256);
    assert_eq!(&ids[..3], &[5, 7, 9]);
    assert!(ids[3..].iter().all(|&v| v == 0));
}

#[test]
fn parse_reports_malformed_input() {
    // Far too short to hold even a version chunk.
    assert!(parse_adt_areaids(b"junk").is_err());
}

#[test]
fn parse_skips_files_without_terrain_chunks() {
    // Long enough to scan, but holding no known chunk: no terrain records.
    let out = parse_adt_areaids(b"this is not a terrain file").unwrap();
    assert_eq!(out, None);
}

#[test]
fn scan_scenario_emits_one_tile_and_ignores_auxiliary_files() {
    let root_bytes = adt_bytes(&[5, 7, 9]);
    let entries: Vec<(&str, Vec<u8>)> = vec![
        ("Kalimdor_1_2.adt", root_bytes.clone()),
        ("Kalimdor_1_2_obj0.adt", root_bytes.clone()),
        ("notanadt.txt", b"irrelevant".to_vec()),
    ];
    let mut export = TileGridExport::new("Kalimdor");
    let mut inserted = 0;
    for (name, data) in &entries {
        if let Some((_, x, y)) = parse_root_adt_filename(name) {
            match export.process_tile(x, y, data) {
                TileOutcome::Inserted => inserted += 1,
                _ => panic!("unexpected outcome"),
            }
        }
    }
    assert_eq!(inserted, 1);
    assert_eq!(export.len(), 1);
    let record = export.lookup(tile_key(1, 2)).unwrap();
    let decoded = decode_tile_record(record).unwrap();
    assert_eq!(&decoded[..3], &[5, 7, 9]);
    assert!(decoded[3..].iter().all(|&v| v == 0));
}

#[test]
fn scan_scenario_reports_malformed_file_and_keeps_good_ones() {
    let mut export = TileGridExport::new("Kalimdor");
    let bad = export.process_tile(3, 4, b"bad");
    match bad {
        TileOutcome::Failed { .. } => {},
        _ => panic!("malformed input must fail"),
    }
    assert_eq!(export.len(), 0);
    let good_bytes = adt_bytes(&[42]);
    match export.process_tile(1, 2, &good_bytes) {
        TileOutcome::Inserted => {},
        _ => panic!("valid input must be inserted"),
    }
    assert_eq!(export.len(), 1);
    assert!(export.lookup(tile_key(1, 2)).is_some());
    assert!(export.lookup(tile_key(3, 4)).is_none());
}

#[test]
fn duplicate_tile_index_keeps_last_processed_file() {
    let first = adt_bytes(&[1, 1, 1]);
    let second = adt_bytes(&[2, 2, 2]);
    let mut export = TileGridExport::new("Kalimdor");
    export.process_tile(1, 2, &first);
    export.process_tile(1, 2, &second);
    assert_eq!(export.len(), 1);
    let decoded = decode_tile_record(export.lookup(129).unwrap()).unwrap();
    assert_eq!(&decoded[..3], &[2, 2, 2]);
}
