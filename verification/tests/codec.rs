use mbutiles::num::{fmt_u32_dec, fmt_u32_hex, fmt_u32_pad, parse_u32_dec, parse_u32_hex};
use mbutiles::{
    decode_tile_path, encode_tile_path, flip_y, get_extension, parse_comp, parse_filename,
    parse_image_dir, parse_zoom_dir, try_flip_y, FileKind, ImageFormat, InnerError, Scheme,
};

fn bytes(s: &str) -> Vec<u8> {
    s.as_bytes().to_vec()
}

fn path(parts: &[&str]) -> Vec<Vec<u8>> {
    parts.iter().map(|p| bytes(p)).collect()
}

#[test]
fn flip_y_involution_samples() {
    // the involution at a few levels, including every row of a small one
    for z in 0..=10u32 {
        let side = 1u32 << z;
        for y in [0, 1, side / 2, side - 1] {
            assert_eq!(flip_y(z, flip_y(z, y)), y);
        }
    }
    for y in 0..8u32 {
        assert_eq!(flip_y(3, flip_y(3, y)), y);
    }
    assert_eq!(flip_y(0, 0), 0);
    assert_eq!(flip_y(3, 5), 2);
    assert_eq!(flip_y(20, 0), (1 << 20) - 1);
}

#[test]
fn try_flip_rejects_out_of_range() {
    assert_eq!(try_flip_y(3, 8), None);
    assert_eq!(try_flip_y(32, 0), None);
    assert_eq!(try_flip_y(3, 7), Some(0));
}

#[test]
fn extensions() {
    assert_eq!(get_extension(ImageFormat::Png), bytes("png"));
    assert_eq!(get_extension(ImageFormat::Jpg), bytes("jpg"));
    assert_eq!(get_extension(ImageFormat::Webp), bytes("webp"));
    assert_eq!(get_extension(ImageFormat::Pbf), bytes("pbf"));
}

#[test]
fn numeral_parsing() {
    assert_eq!(parse_u32_dec(&bytes("0")), Some(0));
    assert_eq!(parse_u32_dec(&bytes("007")), Some(7));
    assert_eq!(parse_u32_dec(&bytes("4294967295")), Some(u32::MAX));
    assert_eq!(parse_u32_dec(&bytes("4294967296")), None);
    assert_eq!(parse_u32_dec(&bytes("")), None);
    assert_eq!(parse_u32_dec(&bytes("12a")), None);
    assert_eq!(parse_u32_dec(&bytes("-1")), None);
    assert_eq!(parse_u32_hex(&bytes("ff")), Some(255));
    assert_eq!(parse_u32_hex(&bytes("FF")), Some(255));
    assert_eq!(parse_u32_hex(&bytes("1c")), Some(28));
    assert_eq!(parse_u32_hex(&bytes("ffffffff")), Some(u32::MAX));
    assert_eq!(parse_u32_hex(&bytes("100000000")), None);
    assert_eq!(parse_u32_hex(&bytes("g")), None);
}

#[test]
fn numeral_formatting() {
    assert_eq!(fmt_u32_dec(0), bytes("0"));
    assert_eq!(fmt_u32_dec(1234567), bytes("1234567"));
    assert_eq!(fmt_u32_dec(u32::MAX), bytes("4294967295"));
    assert_eq!(fmt_u32_hex(255), bytes("ff"));
    assert_eq!(fmt_u32_hex(28), bytes("1c"));
    assert_eq!(fmt_u32_pad(7, 3), bytes("007"));
    assert_eq!(fmt_u32_pad(999, 2), bytes("999"));
    assert_eq!(fmt_u32_pad(0, 2), bytes("00"));
}

#[test]
fn segment_validation() {
    assert!(parse_comp(&bytes("0")).is_ok());
    let e = parse_comp(&bytes("")).unwrap_err();
    assert_eq!(e.source, InnerError::PathEncoding);
    let e = parse_comp(&bytes(".")).unwrap_err();
    assert_eq!(e.source, InnerError::PathEncoding);
    let e = parse_comp(&bytes("..")).unwrap_err();
    assert_eq!(e.source, InnerError::PathEncoding);
    let e = parse_comp(&bytes("a/b")).unwrap_err();
    assert_eq!(e.source, InnerError::PathEncoding);
}

#[test]
fn zoom_and_dir_decoding() {
    assert_eq!(parse_zoom_dir(&bytes("12"), Scheme::Xyz).unwrap(), 12);
    assert_eq!(parse_zoom_dir(&bytes("L12"), Scheme::Ags).unwrap(), 12);
    // a missing L prefix is not fatal under Ags
    assert_eq!(parse_zoom_dir(&bytes("12"), Scheme::Ags).unwrap(), 12);
    let e = parse_zoom_dir(&bytes("abc"), Scheme::Xyz).unwrap_err();
    assert_eq!(e.source, InnerError::Parse);
    assert_eq!(parse_image_dir(&bytes("34"), Scheme::Tms).unwrap(), 34);
    assert_eq!(parse_image_dir(&bytes("R1c"), Scheme::Ags).unwrap(), 28);
    assert_eq!(parse_image_dir(&bytes("ff"), Scheme::Ags).unwrap(), 255);
    let e = parse_image_dir(&bytes("1c"), Scheme::Tms).unwrap_err();
    assert_eq!(e.source, InnerError::Parse);
}

#[test]
fn filename_decoding() {
    assert_eq!(
        parse_filename(&bytes("5.png"), Scheme::Xyz, ImageFormat::Png).unwrap(),
        (5, FileKind::Tile)
    );
    assert_eq!(
        parse_filename(&bytes("5.grid.json"), Scheme::Xyz, ImageFormat::Png).unwrap(),
        (5, FileKind::Grid)
    );
    assert_eq!(
        parse_filename(&bytes("Cff.png"), Scheme::Ags, ImageFormat::Png).unwrap(),
        (255, FileKind::Tile)
    );
    // extension mismatch names the scheme-mismatch category, and the
    // message names both extensions
    let e = parse_filename(&bytes("5.jpg"), Scheme::Xyz, ImageFormat::Png).unwrap_err();
    assert_eq!(e.source, InnerError::SchemeMismatch);
    let msg = e.message.unwrap();
    assert!(msg.contains("png") && msg.contains("jpg"));
    // a stem that is not a numeral is a parse failure
    let e = parse_filename(&bytes("a.png"), Scheme::Xyz, ImageFormat::Png).unwrap_err();
    assert_eq!(e.source, InnerError::Parse);
    // no extension at all
    let e = parse_filename(&bytes("5"), Scheme::Xyz, ImageFormat::Png).unwrap_err();
    assert_eq!(e.source, InnerError::SchemeMismatch);
}

#[test]
fn xyz_paths_flip_the_row() {
    let p = encode_tile_path(3, 2, 5, Scheme::Xyz, &bytes("png")).unwrap();
    assert_eq!(p, path(&["3", "2", "2.png"]));
    assert_eq!(
        decode_tile_path(&p, Scheme::Xyz, ImageFormat::Png),
        Some((3, 2, 5, FileKind::Tile))
    );
    // out-of-range rows are refused, not wrapped
    let e = encode_tile_path(3, 2, 8, Scheme::Xyz, &bytes("png")).unwrap_err();
    assert_eq!(e.source, InnerError::PathEncoding);
}

#[test]
fn tms_paths_pass_through() {
    let p = encode_tile_path(3, 2, 5, Scheme::Tms, &bytes("png")).unwrap();
    assert_eq!(p, path(&["3", "2", "5.png"]));
    assert_eq!(
        decode_tile_path(&p, Scheme::Tms, ImageFormat::Png),
        Some((3, 2, 5, FileKind::Tile))
    );
}

#[test]
fn ags_paths_use_prefixed_hex() {
    let p = encode_tile_path(5, 255, 3, Scheme::Ags, &bytes("png")).unwrap();
    assert_eq!(p, path(&["L5", "R1c", "Cff.png"]));
    assert_eq!(
        decode_tile_path(&p, Scheme::Ags, ImageFormat::Png),
        Some((5, 255, 3, FileKind::Tile))
    );
}

#[test]
fn wms_path_shape() {
    let p = encode_tile_path(3, 1234567, 7, Scheme::Wms, &bytes("png")).unwrap();
    assert_eq!(
        p,
        path(&["03", "03", "001", "234", "567", "00", "00", "007.png"])
    );
    assert_eq!(
        decode_tile_path(&p, Scheme::Wms, ImageFormat::Png),
        Some((3, 1234567, 7, FileKind::Tile))
    );
}

#[test]
fn wms_decode_rejects_disagreeing_zooms() {
    let p = path(&["03", "04", "001", "234", "567", "00", "00", "007.png"]);
    assert_eq!(decode_tile_path(&p, Scheme::Wms, ImageFormat::Png), None);
}

#[test]
fn grid_paths_round_trip() {
    let p = encode_tile_path(3, 2, 5, Scheme::Xyz, &bytes("grid.json")).unwrap();
    assert_eq!(p, path(&["3", "2", "2.grid.json"]));
    assert_eq!(
        decode_tile_path(&p, Scheme::Xyz, ImageFormat::Png),
        Some((3, 2, 5, FileKind::Grid))
    );
}
