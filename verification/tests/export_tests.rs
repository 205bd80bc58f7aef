use zonemap_tiles::export::TileGridExport;

#[test]
fn new_export_is_empty() {
    let e = TileGridExport::new("Kalimdor");
    assert_eq!(e.len(), 0);
    assert!(e.lookup(0).is_none());
}

#[test]
fn insert_and_lookup() {
    let mut e = TileGridExport::new("Kalimdor");
    e.insert(129, "abc".to_string());
    assert_eq!(e.len(), 1);
    assert_eq!(e.lookup(129), Some(&"abc".to_string()));
    assert_eq!(e.lookup(128), None);
}

#[test]
fn duplicate_index_keeps_last_record() {
    let mut e = TileGridExport::new("Kalimdor");
    e.insert(129, "first".to_string());
    e.insert(129, "second".to_string());
    assert_eq!(e.len(), 1);
    assert_eq!(e.lookup(129), Some(&"second".to_string()));
}

#[test]
fn render_lists_entries_in_ascending_index_order() {
    let mut e = TileGridExport::new("Testia");
    e.insert(129, "XYZ".to_string());
    e.insert(5, "ABC".to_string());
    let text = e.render_lua();
    let expected = "-- Auto-generated AreaID grid for Testia\n\
                    -- Each tile is 16x16 chunks (256 u32 AreaIDs), base64 encoded.\n\
                    \n\
                    local _, addon = ...\n\
                    \n\
                    local tiles = {\n\
                    \x20 [5] = [[ABC]],\n\
                    \x20 [129] = [[XYZ]],\n\
                    }\n\
                    \n\
                    addon:RegisterTileGrid(\"Testia\", {\n\
                    \x20 name = \"Testia\",\n\
                    \x20 tileSize = 16,\n\
                    \x20 tilesPerSide = 64,\n\
                    \x20 tiles = tiles,\n\
                    })\n";
    assert_eq!(text, expected);
}

#[test]
fn render_of_empty_export_has_empty_table() {
    let e = TileGridExport::new("Empty");
    let text = e.render_lua();
    assert!(text.contains("local tiles = {\n}\n"));
    assert!(text.starts_with("-- Auto-generated AreaID grid for Empty\n"));
}

#[test]
fn render_is_reproducible() {
    let build = || {
        let mut e = TileGridExport::new("Azeroth");
        e.insert(7, "AAA".to_string());
        e.insert(3, "BBB".to_string());
        e.insert(7, "CCC".to_string());
        e
    };
    let a = build().render_lua();
    let b = build().render_lua();
    assert_eq!(a, b);
}

#[test]
fn render_order_ignores_insertion_order() {
    let mut e1 = TileGridExport::new("Azeroth");
    e1.insert(1, "one".to_string());
    e1.insert(2, "two".to_string());
    let mut e2 = TileGridExport::new("Azeroth");
    e2.insert(2, "two".to_string());
    e2.insert(1, "one".to_string());
    assert_eq!(e1.render_lua(), e2.render_lua());
}
