use std::io::Read;

use mbutiles::{
    export, import, metadata, Container, Entry, ImageFormat, InnerError, MetadataEntry, OutFile,
    Scheme,
};

fn bytes(s: &str) -> Vec<u8> {
    s.as_bytes().to_vec()
}

fn entry(parts: &[&str], data: &[u8]) -> Entry {
    Entry {
        components: parts.iter().map(|p| bytes(p)).collect(),
        data: data.to_vec(),
    }
}

fn inflate(data: &[u8]) -> Vec<u8> {
    let mut decoder = flate2::read::ZlibDecoder::new(data);
    let mut out = Vec::new();
    decoder.read_to_end(&mut out).unwrap();
    out
}

const GRID_FILE: &str = "cb({\"grid\":[],\"keys\":[\"\",\"k1\"],\"data\":{\"k1\":42}});";

#[test]
fn xyz_single_tile() {
    let entries = vec![entry(&["0", "0", "0.png"], &[1, 2, 3])];
    let c = import(&entries, None, Scheme::Xyz, ImageFormat::Png).unwrap();
    assert_eq!(c.tiles.len(), 1);
    assert_eq!(c.tiles[0].zoom, 0);
    assert_eq!(c.tiles[0].column, 0);
    assert_eq!(c.tiles[0].row, 0);
    assert_eq!(c.tiles[0].data, vec![1, 2, 3]);
    assert!(c.grids.is_empty());
    assert!(c.metadata.is_empty());
}

#[test]
fn extension_mismatch_skips_the_file_but_not_the_import() {
    let entries = vec![
        entry(&["5", "1", "5.jpg"], &[9]),
        entry(&["0", "0", "0.png"], &[1]),
    ];
    let c = import(&entries, None, Scheme::Xyz, ImageFormat::Png).unwrap();
    // the jpg file produced no row, the import still completed
    assert_eq!(c.tiles.len(), 1);
    assert_eq!(c.tiles[0].data, vec![1]);
}

#[test]
fn hidden_and_shallow_entries_are_ignored() {
    let entries = vec![
        entry(&["0", "0"], &[7]),
        entry(&[".hidden", "0", "0.png"], &[7]),
        entry(&["0", ".x", "0.png"], &[7]),
        entry(&["0", "0", "0.png", "extra"], &[7]),
    ];
    let c = import(&entries, None, Scheme::Xyz, ImageFormat::Png).unwrap();
    assert!(c.tiles.is_empty());
}

#[test]
fn duplicate_tile_addresses_keep_the_first() {
    let entries = vec![
        entry(&["0", "0", "0.png"], &[1]),
        entry(&["0", "0", "0.png"], &[2]),
    ];
    let c = import(&entries, None, Scheme::Xyz, ImageFormat::Png).unwrap();
    assert_eq!(c.tiles.len(), 1);
    assert_eq!(c.tiles[0].data, vec![1]);
}

#[test]
fn tms_rows_are_not_flipped() {
    let entries = vec![entry(&["1", "0", "1.png"], &[1])];
    let c = import(&entries, None, Scheme::Tms, ImageFormat::Png).unwrap();
    assert_eq!(c.tiles[0].row, 1);
    let c2 = import(&entries, None, Scheme::Xyz, ImageFormat::Png).unwrap();
    assert_eq!(c2.tiles[0].row, 0);
}

#[test]
fn grid_key_filtering() {
    let entries = vec![entry(&["0", "0", "0.grid.json"], GRID_FILE.as_bytes())];
    let c = import(&entries, None, Scheme::Xyz, ImageFormat::Png).unwrap();
    assert_eq!(c.grids.len(), 1);
    assert_eq!(c.grids[0].zoom, 0);
    assert_eq!(c.grids[0].column, 0);
    assert_eq!(c.grids[0].row, 0);
    // the stored payload decompresses to the object without its data field
    let payload = inflate(&c.grids[0].payload);
    assert_eq!(payload, bytes("{\"grid\":[],\"keys\":[\"\",\"k1\"]}"));
    // only the non-empty key produced a row
    assert_eq!(c.grid_data.len(), 1);
    assert_eq!(c.grid_data[0].key_name, bytes("k1"));
    assert_eq!(c.grid_data[0].key_json, bytes("42"));
}

#[test]
fn grid_without_wrapper_is_accepted_verbatim() {
    let raw = "{\"grid\":[],\"keys\":[\"a\"],\"data\":{\"a\":{\"x\":1}}}";
    let entries = vec![entry(&["0", "0", "0.grid.json"], raw.as_bytes())];
    let c = import(&entries, None, Scheme::Xyz, ImageFormat::Png).unwrap();
    assert_eq!(c.grids.len(), 1);
    assert_eq!(c.grid_data.len(), 1);
    assert_eq!(c.grid_data[0].key_json, bytes("{\"x\":1}"));
}

#[test]
fn grid_that_is_not_an_object_is_skipped() {
    let entries = vec![
        entry(&["0", "0", "0.grid.json"], b"[1,2,3]"),
        entry(&["0", "0", "0.png"], &[1]),
    ];
    let c = import(&entries, None, Scheme::Xyz, ImageFormat::Png).unwrap();
    assert!(c.grids.is_empty());
    assert_eq!(c.tiles.len(), 1);
}

#[test]
fn metadata_restored_and_rendered() {
    let meta = bytes("{\"name\":\"a tileset\",\"bounds\":\"-1,-1,1,1\"}");
    let c = import(&Vec::new(), Some(meta), Scheme::Xyz, ImageFormat::Png).unwrap();
    assert_eq!(c.metadata.len(), 2);
    assert_eq!(c.metadata[0].name, bytes("name"));
    assert_eq!(c.metadata[0].value, bytes("a tileset"));
    let text = metadata(&c.metadata);
    assert_eq!(
        text,
        bytes("{\"name\":\"a tileset\",\"bounds\":\"-1,-1,1,1\"}")
    );
}

#[test]
fn metadata_escapes_and_unicode() {
    let meta = bytes("{\"q\":\"a\\\"b\",\"u\":\"\\u0041\\u00e9\",\"nl\":\"x\\ny\"}");
    let c = import(&Vec::new(), Some(meta), Scheme::Xyz, ImageFormat::Png).unwrap();
    assert_eq!(c.metadata[0].value, bytes("a\"b"));
    assert_eq!(c.metadata[1].value, "Aé".as_bytes().to_vec());
    assert_eq!(c.metadata[2].value, bytes("x\ny"));
    // rendering escapes again, and serde_json agrees on the meaning
    let text = metadata(&c.metadata);
    let v: serde_json::Value = serde_json::from_slice(&text).unwrap();
    assert_eq!(v["q"], serde_json::Value::String("a\"b".to_string()));
    assert_eq!(v["u"], serde_json::Value::String("Aé".to_string()));
    assert_eq!(v["nl"], serde_json::Value::String("x\ny".to_string()));
}

#[test]
fn surrogate_pair_decoding() {
    let meta = bytes("{\"s\":\"\\ud83d\\ude00\"}");
    let c = import(&Vec::new(), Some(meta), Scheme::Xyz, ImageFormat::Png).unwrap();
    assert_eq!(c.metadata[0].value, "😀".as_bytes().to_vec());
}

#[test]
fn malformed_metadata_fails_the_import() {
    // valid JSON of the wrong shape: the structural category
    let e = import(
        &Vec::new(),
        Some(bytes("[1,2]")),
        Scheme::Xyz,
        ImageFormat::Png,
    )
    .unwrap_err();
    assert_eq!(e.source, InnerError::BadShape);
    // a non-string value: also structural
    let e = import(
        &Vec::new(),
        Some(bytes("{\"a\":1}")),
        Scheme::Xyz,
        ImageFormat::Png,
    )
    .unwrap_err();
    assert_eq!(e.source, InnerError::BadShape);
    // not JSON at all: the parse category
    let e = import(
        &Vec::new(),
        Some(bytes("nonsense")),
        Scheme::Xyz,
        ImageFormat::Png,
    )
    .unwrap_err();
    assert_eq!(e.source, InnerError::Parse);
    let e = import(
        &Vec::new(),
        Some(bytes("{\"a\":")),
        Scheme::Xyz,
        ImageFormat::Png,
    )
    .unwrap_err();
    assert_eq!(e.source, InnerError::Parse);
}

#[test]
fn grid_error_categories() {
    let mut c = Container {
        tiles: Vec::new(),
        metadata: Vec::new(),
        grids: Vec::new(),
        grid_data: Vec::new(),
    };
    // valid JSON of the wrong shape: structural
    let e = mbutiles::grid::insert_grid_json(&bytes("[1,2,3]"), 0, 0, 0, &mut c).unwrap_err();
    assert_eq!(e.source, InnerError::BadShape);
    // not JSON at all: parse
    let e = mbutiles::grid::insert_grid_json(&bytes("not json"), 0, 0, 0, &mut c).unwrap_err();
    assert_eq!(e.source, InnerError::Parse);
    assert!(c.grids.is_empty() && c.grid_data.is_empty());
}

#[test]
fn callback_wrapping() {
    let entries = vec![entry(&["0", "0", "0.grid.json"], GRID_FILE.as_bytes())];
    let c = import(&entries, None, Scheme::Xyz, ImageFormat::Png).unwrap();
    let raw_files = export(&c, Scheme::Xyz, ImageFormat::Png, &bytes("")).unwrap();
    let wrapped_files = export(&c, Scheme::Xyz, ImageFormat::Png, &bytes("foo")).unwrap();
    let raw = &raw_files[1];
    let wrapped = &wrapped_files[1];
    assert_eq!(raw.path, wrapped.path);
    let expected = "{\"grid\":[],\"keys\":[\"\",\"k1\"],\"data\":{\"k1\":42}}";
    assert_eq!(raw.data, bytes(expected));
    assert_eq!(wrapped.data, bytes(&format!("foo({});", expected)));
    // "false" and "null" also mean no wrapper
    let f = export(&c, Scheme::Xyz, ImageFormat::Png, &bytes("false")).unwrap();
    assert_eq!(f[1].data, bytes(expected));
    let n = export(&c, Scheme::Xyz, ImageFormat::Png, &bytes("null")).unwrap();
    assert_eq!(n[1].data, bytes(expected));
}

#[test]
fn export_writes_metadata_tiles_and_grids() {
    let entries = vec![
        entry(&["0", "0", "0.png"], &[1, 2]),
        entry(&["1", "0", "1.png"], &[3]),
        entry(&["0", "0", "0.grid.json"], GRID_FILE.as_bytes()),
    ];
    let meta = bytes("{\"name\":\"t\"}");
    let c = import(&entries, Some(meta), Scheme::Xyz, ImageFormat::Png).unwrap();
    let files = export(&c, Scheme::Xyz, ImageFormat::Png, &bytes("")).unwrap();
    let paths: Vec<Vec<Vec<u8>>> = files.iter().map(|f| f.path.clone()).collect();
    assert_eq!(
        paths,
        vec![
            vec![bytes("metadata.json")],
            vec![bytes("0"), bytes("0"), bytes("0.png")],
            vec![bytes("1"), bytes("0"), bytes("1.png")],
            vec![bytes("0"), bytes("0"), bytes("0.grid.json")],
        ]
    );
    assert_eq!(files[0].data, bytes("{\"name\":\"t\"}"));
    assert_eq!(files[1].data, vec![1, 2]);
}

#[test]
fn export_fails_on_corrupt_grid_payload() {
    let mut c = Container {
        tiles: Vec::new(),
        metadata: Vec::new(),
        grids: Vec::new(),
        grid_data: Vec::new(),
    };
    c.grids.push(mbutiles::Grid {
        zoom: 0,
        column: 0,
        row: 0,
        payload: vec![1, 2, 3],
    });
    let e = export(&c, Scheme::Xyz, ImageFormat::Png, &bytes("")).unwrap_err();
    assert_eq!(e.source, InnerError::Io);
}

#[test]
fn export_fails_on_row_outside_the_level() {
    let mut c = Container {
        tiles: Vec::new(),
        metadata: Vec::new(),
        grids: Vec::new(),
        grid_data: Vec::new(),
    };
    c.tiles.push(mbutiles::Tile {
        zoom: 0,
        column: 0,
        row: 5,
        data: vec![1],
    });
    let e = export(&c, Scheme::Xyz, ImageFormat::Png, &bytes("")).unwrap_err();
    assert_eq!(e.source, InnerError::PathEncoding);
}

fn files_to_inputs(files: &[OutFile]) -> (Vec<Entry>, Option<Vec<u8>>) {
    let mut entries = Vec::new();
    let mut meta = None;
    for f in files {
        if f.path.len() == 1 && f.path[0] == bytes("metadata.json") {
            meta = Some(f.data.clone());
        } else {
            entries.push(Entry {
                components: f.path.clone(),
                data: f.data.clone(),
            });
        }
    }
    (entries, meta)
}

fn same_files(a: &[OutFile], b: &[OutFile]) -> bool {
    a.len() == b.len()
        && a.iter()
            .zip(b.iter())
            .all(|(x, y)| x.path == y.path && x.data == y.data)
}

#[test]
fn round_trip_through_a_directory_tree() {
    let entries = vec![
        entry(&["0", "0", "0.png"], &[1, 2, 3]),
        entry(&["1", "0", "0.png"], &[4]),
        entry(&["1", "1", "1.png"], &[5, 6]),
        entry(&["0", "0", "0.grid.json"], GRID_FILE.as_bytes()),
    ];
    let meta = bytes("{\"name\":\"t\",\"format\":\"png\"}");
    let c = import(&entries, Some(meta), Scheme::Xyz, ImageFormat::Png).unwrap();
    let exported = export(&c, Scheme::Xyz, ImageFormat::Png, &bytes("")).unwrap();
    let (entries2, meta2) = files_to_inputs(&exported);
    let c2 = import(&entries2, meta2, Scheme::Xyz, ImageFormat::Png).unwrap();
    // the containers agree row for row
    assert_eq!(c.tiles.len(), c2.tiles.len());
    for (t1, t2) in c.tiles.iter().zip(c2.tiles.iter()) {
        assert_eq!(
            (t1.zoom, t1.column, t1.row, &t1.data),
            (t2.zoom, t2.column, t2.row, &t2.data)
        );
    }
    assert_eq!(c.grids.len(), c2.grids.len());
    for (g1, g2) in c.grids.iter().zip(c2.grids.iter()) {
        assert_eq!(
            (g1.zoom, g1.column, g1.row, &g1.payload),
            (g2.zoom, g2.column, g2.row, &g2.payload)
        );
    }
    assert_eq!(c.grid_data.len(), c2.grid_data.len());
    for (d1, d2) in c.grid_data.iter().zip(c2.grid_data.iter()) {
        assert_eq!(&d1.key_name, &d2.key_name);
        assert_eq!(&d1.key_json, &d2.key_json);
    }
    assert_eq!(c.metadata.len(), c2.metadata.len());
    for (m1, m2) in c.metadata.iter().zip(c2.metadata.iter()) {
        assert_eq!((&m1.name, &m1.value), (&m2.name, &m2.value));
    }
    // and a second export reproduces the files byte for byte
    let exported2 = export(&c2, Scheme::Xyz, ImageFormat::Png, &bytes("")).unwrap();
    assert!(same_files(&exported, &exported2));
}

#[test]
fn round_trip_under_wms() {
    // Wms tiles live eight levels deep, so a directory import cannot see
    // them; the path codec itself still inverts, which codec tests cover.
    // Here the container round-trips through Tms instead, whose rows pass
    // through unflipped.
    let entries = vec![
        entry(&["2", "3", "1.png"], &[8, 9]),
        entry(&["0", "0", "0.png"], &[1]),
    ];
    let c = import(&entries, None, Scheme::Tms, ImageFormat::Png).unwrap();
    let exported = export(&c, Scheme::Tms, ImageFormat::Png, &bytes("")).unwrap();
    let (entries2, meta2) = files_to_inputs(&exported);
    let c2 = import(&entries2, meta2, Scheme::Tms, ImageFormat::Png).unwrap();
    let exported2 = export(&c2, Scheme::Tms, ImageFormat::Png, &bytes("")).unwrap();
    assert!(same_files(&exported, &exported2));
}

#[test]
fn ags_import_uses_prefixed_hex_and_flips_the_directory() {
    let entries = vec![entry(&["L5", "R1c", "Cff.png"], &[1])];
    let c = import(&entries, None, Scheme::Ags, ImageFormat::Png).unwrap();
    assert_eq!(c.tiles.len(), 1);
    assert_eq!(c.tiles[0].zoom, 5);
    assert_eq!(c.tiles[0].column, 255);
    assert_eq!(c.tiles[0].row, 3);
}

#[test]
fn duplicate_metadata_names_keep_the_first_value() {
    let meta = bytes(r#"{"a":"1","a":"2"}"#);
    let c = import(&Vec::new(), Some(meta), Scheme::Xyz, ImageFormat::Png).unwrap();
    assert_eq!(c.metadata.len(), 1);
    assert_eq!(c.metadata[0].value, bytes("1"));
}

#[test]
fn metadata_entries_render_exactly() {
    let entries = vec![
        MetadataEntry {
            name: bytes("name"),
            value: bytes("t"),
        },
        MetadataEntry {
            name: bytes("note"),
            value: bytes(r#"a"b"#),
        },
    ];
    let text = metadata(&entries);
    assert_eq!(text, bytes(r#"{"name":"t","note":"a\"b"}"#));
}
