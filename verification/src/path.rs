//! The scheme codec: decoding path segments to canonical tile addresses
//! and encoding tile addresses to relative paths, per addressing scheme.
use vstd::prelude::*;
use crate::error::{InnerError, MBTileError};
use crate::num::{
    all_hex_digits, dec_digits, dec_parseable, dec_value, fmt_u32_dec, fmt_u32_hex,
    fmt_u32_pad, hex_digits, hex_parseable, hex_value, is_hex_digit, lemma_dec_digits_value,
    lemma_hex_digits_value, lemma_zero_pad_value, parse_u32_dec, parse_u32_hex, zero_pad,
};
use crate::scheme::{
    flip_in_range, spec_extension, spec_flip_y, try_flip_y, ImageFormat, Scheme,
};
use vstd::arithmetic::power2::pow2;
use crate::util::{copy_range, vec_u8_eq, push_all};

verus! {

/// A file name recognised during import: either a tile image or an
/// interactivity-grid file.
#[derive(Clone, Copy, Debug, PartialEq, Eq, Structural)]
pub enum FileKind {
    Tile,
    Grid,
}

/// A path segment that names an ordinary directory entry: non-empty, not a
/// current- or parent-directory reference, and free of separators and NUL.
pub open spec fn is_normal_segment(s: Seq<u8>) -> bool {
    &&& s.len() > 0
    &&& s != seq![46u8]
    &&& s != seq![46u8, 46u8]
    &&& forall|i: int| 0 <= i < s.len() ==> #[trigger] s[i] != 47 && s[i] != 0
}

/// Validates a path component, returning its bytes unchanged.
pub fn parse_comp(component: &Vec<u8>) -> (r: Result<Vec<u8>, MBTileError>)
    ensures
        match r {
            Ok(v) => is_normal_segment(component@) && v@ == component@,
            Err(e) => !is_normal_segment(component@) && e.source == InnerError::PathEncoding,
        },
{
    if component.len() == 0 {
        return Err(MBTileError::with_source(InnerError::PathEncoding, "empty path component"));
    }
    if component.len() == 1 && component[0] == 46 {
        proof {
            assert(component@ =~= seq![46u8]);
        }
        return Err(MBTileError::with_source(InnerError::PathEncoding, "path component is ."));
    }
    if component.len() == 2 && component[0] == 46 && component[1] == 46 {
        proof {
            assert(component@ =~= seq![46u8, 46u8]);
        }
        return Err(MBTileError::with_source(InnerError::PathEncoding, "path component is .."));
    }
    let mut j: usize = 0;
    while j < component.len()
        invariant
            0 <= j <= component@.len(),
            forall|i: int| 0 <= i < j ==> #[trigger] component@[i] != 47 && component@[i] != 0,
        decreases component@.len() - j,
    {
        if component[j] == 47 || component[j] == 0 {
            return Err(
                MBTileError::with_source(InnerError::PathEncoding, "separator in path component"),
            );
        }
        j = j + 1;
    }
    proof {
        assert(component@.len() == 1 ==> component@ =~= seq![component@[0]]);
        assert(component@.len() == 2 ==> component@ =~= seq![component@[0], component@[1]]);
    }
    Ok(copy_range(component, 0, component.len()))
}

/// The segment with one leading occurrence of `prefix` removed, if present.
pub open spec fn stripped(s: Seq<u8>, prefix: u8) -> Seq<u8> {
    if s.len() > 0 && s[0] == prefix {
        s.skip(1)
    } else {
        s
    }
}

/// The number a segment denotes in the given base, if any.
pub open spec fn spec_parse_num(t: Seq<u8>, hex: bool) -> Option<u32> {
    if hex {
        if hex_parseable(t) {
            Some(hex_value(t) as u32)
        } else {
            None
        }
    } else {
        if dec_parseable(t) {
            Some(dec_value(t) as u32)
        } else {
            None
        }
    }
}

/// The zoom level a directory segment denotes: base 10, with a leading `L`
/// stripped under the `Ags` scheme.
pub open spec fn spec_parse_zoom(s: Seq<u8>, scheme: Scheme) -> Option<u32> {
    match scheme {
        Scheme::Ags => spec_parse_num(stripped(s, 76), false),
        _ => spec_parse_num(s, false),
    }
}

/// The number the middle directory segment denotes: base 10, or base 16
/// with a leading `R` stripped under the `Ags` scheme.
pub open spec fn spec_parse_dir(s: Seq<u8>, scheme: Scheme) -> Option<u32> {
    match scheme {
        Scheme::Ags => spec_parse_num(stripped(s, 82), true),
        _ => spec_parse_num(s, false),
    }
}

/// The number a file-name stem denotes: base 10, or base 16 with a leading
/// `C` stripped under the `Ags` scheme.
pub open spec fn spec_parse_stem(s: Seq<u8>, scheme: Scheme) -> Option<u32> {
    match scheme {
        Scheme::Ags => spec_parse_num(stripped(s, 67), true),
        _ => spec_parse_num(s, false),
    }
}

fn strip_and_parse(s: &Vec<u8>, prefix: u8, hex: bool) -> (r: Option<u32>)
    ensures
        r == spec_parse_num(stripped(s@, prefix), hex),
{
    let t: Vec<u8>;
    if s.len() > 0 && s[0] == prefix {
        t = copy_range(s, 1, s.len());
        proof {
            assert(t@ =~= stripped(s@, prefix));
        }
    } else {
        t = copy_range(s, 0, s.len());
        proof {
            assert(t@ =~= stripped(s@, prefix));
        }
    }
    if hex {
        parse_u32_hex(&t)
    } else {
        parse_u32_dec(&t)
    }
}

fn parse_plain(s: &Vec<u8>) -> (r: Option<u32>)
    ensures
        r == spec_parse_num(s@, false),
{
    parse_u32_dec(s)
}

/// Decodes the zoom-level directory segment for the given scheme.
pub fn parse_zoom_dir(component: &Vec<u8>, flag_scheme: Scheme) -> (r: Result<u32, MBTileError>)
    ensures
        match r {
            Ok(z) => is_normal_segment(component@) && spec_parse_zoom(component@, flag_scheme)
                == Some(z),
            Err(e) => {
                if !is_normal_segment(component@) {
                    e.source == InnerError::PathEncoding
                } else {
                    spec_parse_zoom(component@, flag_scheme) is None && e.source
                        == InnerError::Parse
                }
            },
        },
{
    let comp = match parse_comp(component) {
        Ok(c) => c,
        Err(e) => {
            return Err(e);
        },
    };
    let parsed = match flag_scheme {
        Scheme::Ags => strip_and_parse(&comp, 76, false),
        _ => parse_plain(&comp),
    };
    match parsed {
        Some(z) => Ok(z),
        None => Err(
            MBTileError::with_source(InnerError::Parse, "can't parse zoom component as an integer"),
        ),
    }
}

/// Decodes the middle directory segment for the given scheme.
pub fn parse_image_dir(component: &Vec<u8>, flag_scheme: Scheme) -> (r: Result<u32, MBTileError>)
    ensures
        match r {
            Ok(x) => is_normal_segment(component@) && spec_parse_dir(component@, flag_scheme)
                == Some(x),
            Err(e) => {
                if !is_normal_segment(component@) {
                    e.source == InnerError::PathEncoding
                } else {
                    spec_parse_dir(component@, flag_scheme) is None && e.source == InnerError::Parse
                }
            },
        },
{
    let comp = match parse_comp(component) {
        Ok(c) => c,
        Err(e) => {
            return Err(e);
        },
    };
    let parsed = match flag_scheme {
        Scheme::Ags => strip_and_parse(&comp, 82, true),
        _ => parse_plain(&comp),
    };
    match parsed {
        Some(x) => Ok(x),
        None => Err(
            MBTileError::with_source(InnerError::Parse, "can't parse dir component as an integer"),
        ),
    }
}

/// A file name split at every dot.
pub open spec fn split_dot(s: Seq<u8>) -> Seq<Seq<u8>>
    decreases s.len(),
{
    if s.len() == 0 {
        seq![Seq::<u8>::empty()]
    } else if s[0] == 46 {
        seq![Seq::<u8>::empty()] + split_dot(s.skip(1))
    } else {
        let rest = split_dot(s.skip(1));
        seq![seq![s[0]] + rest[0]] + rest.skip(1)
    }
}

pub proof fn lemma_split_dot_len(s: Seq<u8>)
    ensures
        split_dot(s).len() >= 1,
    decreases s.len(),
{
    if s.len() != 0 {
        lemma_split_dot_len(s.skip(1));
    }
}

pub open spec fn seq_views(v: Seq<Vec<u8>>) -> Seq<Seq<u8>> {
    v.map_values(|x: Vec<u8>| x@)
}

fn split_dot_exec(s: &Vec<u8>, i: usize) -> (r: Vec<Vec<u8>>)
    requires
        i <= s@.len(),
    ensures
        r@.len() >= 1,
        seq_views(r@) == split_dot(s@.skip(i as int)),
    decreases s@.len() - i,
{
    proof {
        lemma_split_dot_len(s@.skip(i as int));
    }
    if i == s.len() {
        let mut r: Vec<Vec<u8>> = Vec::new();
        r.push(Vec::new());
        proof {
            assert(s@.skip(i as int) =~= Seq::<u8>::empty());
            assert(seq_views(r@) =~~= split_dot(s@.skip(i as int)));
        }
        r
    } else if s[i] == 46 {
        let mut rest = split_dot_exec(s, i + 1);
        rest.insert(0, Vec::new());
        proof {
            assert(s@.skip(i as int).skip(1) =~= s@.skip(i + 1));
            assert(seq_views(rest@) =~~= split_dot(s@.skip(i as int)));
        }
        rest
    } else {
        let mut rest = split_dot_exec(s, i + 1);
        let mut first = rest.remove(0);
        first.insert(0, s[i]);
        rest.insert(0, first);
        proof {
            assert(s@.skip(i as int).skip(1) =~= s@.skip(i + 1));
            assert(s@.skip(i as int)[0] == s@[i as int]);
            assert(seq_views(rest@) =~~= split_dot(s@.skip(i as int)));
        }
        rest
    }
}

pub open spec fn grid_part() -> Seq<u8> {
    seq![('g' as u8), ('r' as u8), ('i' as u8), ('d' as u8)]
}

pub open spec fn json_part() -> Seq<u8> {
    seq![('j' as u8), ('s' as u8), ('o' as u8), ('n' as u8)]
}

/// What a file name denotes under the given scheme and image format: the
/// stem's number and whether it names a tile image or a grid file.
pub open spec fn spec_parse_filename(s: Seq<u8>, scheme: Scheme, fmt: ImageFormat) -> Option<
    (u32, FileKind),
> {
    let parts = split_dot(s);
    match spec_parse_stem(parts[0], scheme) {
        Option::None => Option::None,
        Option::Some(v) => {
            if parts.len() == 2 && parts[1] == spec_extension(fmt) {
                Option::Some((v, FileKind::Tile))
            } else if parts.len() == 3 && parts[1] == grid_part() && parts[2] == json_part() {
                Option::Some((v, FileKind::Grid))
            } else {
                Option::None
            }
        },
    }
}

/// The error category a file name fails with when it denotes nothing:
/// a malformed segment, an unparseable stem, or a shape that matches
/// neither the configured tile extension nor a grid file.
pub open spec fn spec_filename_error(s: Seq<u8>, scheme: Scheme, fmt: ImageFormat) -> InnerError {
    if !is_normal_segment(s) {
        InnerError::PathEncoding
    } else if spec_parse_stem(split_dot(s)[0], scheme) is None {
        InnerError::Parse
    } else {
        InnerError::SchemeMismatch
    }
}


/// Relies on String::from_utf8_lossy: renders raw path bytes for an error
/// message; nothing is claimed of the rendered text.
#[verifier::external_body]
fn lossy_string(b: &Vec<u8>) -> String {
    String::from_utf8_lossy(b).into_owned()
}

spec fn spec_extension_label(image_format: ImageFormat) -> Seq<char> {
    match image_format {
        ImageFormat::Png => seq!['p', 'n', 'g'],
        ImageFormat::Jpg => seq!['j', 'p', 'g'],
        ImageFormat::Webp => seq!['w', 'e', 'b', 'p'],
        ImageFormat::Pbf => seq!['p', 'b', 'f'],
    }
}

fn extension_label(image_format: ImageFormat) -> (r: &'static str)
    ensures
        r@ == spec_extension_label(image_format),
{
    match image_format {
        ImageFormat::Png => {
            proof {
                reveal_strlit("png");
                assert("png"@ =~= spec_extension_label(image_format));
            }
            "png"
        },
        ImageFormat::Jpg => {
            proof {
                reveal_strlit("jpg");
                assert("jpg"@ =~= spec_extension_label(image_format));
            }
            "jpg"
        },
        ImageFormat::Webp => {
            proof {
                reveal_strlit("webp");
                assert("webp"@ =~= spec_extension_label(image_format));
            }
            "webp"
        },
        ImageFormat::Pbf => {
            proof {
                reveal_strlit("pbf");
                assert("pbf"@ =~= spec_extension_label(image_format));
            }
            "pbf"
        },
    }
}

/// Decodes a file-name segment: the stem's number plus whether the name is
/// a tile image (its extension equals the configured format's) or a grid
/// file (`<stem>.grid.json`).
pub fn parse_filename(component: &Vec<u8>, flag_scheme: Scheme, image_format: ImageFormat) -> (r:
    Result<(u32, FileKind), MBTileError>)
    ensures
        match r {
            Ok(v) => is_normal_segment(component@) && spec_parse_filename(
                component@,
                flag_scheme,
                image_format,
            ) == Some(v),
            Err(e) => !(is_normal_segment(component@) && spec_parse_filename(
                component@,
                flag_scheme,
                image_format,
            ) is Some) && e.source == spec_filename_error(component@, flag_scheme, image_format),
        },
{
    let comp = match parse_comp(component) {
        Ok(c) => c,
        Err(e) => {
            return Err(e);
        },
    };
    let parts = split_dot_exec(&comp, 0);
    proof {
        assert(comp@.skip(0) =~= comp@);
        assert(seq_views(parts@)[0] == parts@[0]@);
    }
    let stem = match flag_scheme {
        Scheme::Ags => strip_and_parse(&parts[0], 67, true),
        _ => parse_plain(&parts[0]),
    };
    let v = match stem {
        Some(v) => v,
        None => {
            return Err(
                MBTileError::with_source(
                    InnerError::Parse,
                    "can't parse file-name stem as an integer",
                ),
            );
        },
    };
    if parts.len() == 2 {
        let ext = crate::scheme::get_extension(image_format);
        proof {
            assert(seq_views(parts@)[1] == parts@[1]@);
        }
        if vec_u8_eq(&parts[1], &ext) {
            return Ok((v, FileKind::Tile));
        }
    }
    if parts.len() == 3 {
        let grid_bytes: Vec<u8> = vec![('g' as u8), ('r' as u8), ('i' as u8), ('d' as u8)];
        let json_bytes: Vec<u8> = vec![('j' as u8), ('s' as u8), ('o' as u8), ('n' as u8)];
        proof {
            assert(seq_views(parts@)[1] == parts@[1]@);
            assert(seq_views(parts@)[2] == parts@[2]@);
            assert(grid_bytes@ =~= grid_part());
            assert(json_bytes@ =~= json_part());
        }
        if vec_u8_eq(&parts[1], &grid_bytes) && vec_u8_eq(&parts[2], &json_bytes) {
            return Ok((v, FileKind::Grid));
        }
    }
    let mut msg = String::from_str("the filtered extension ");
    msg.append(extension_label(image_format));
    msg.append(" is different than the path's extension ");
    if parts.len() >= 2 {
        let found = lossy_string(&parts[1]);
        msg.append(found.as_str());
    } else {
        msg.append("(none)");
    }
    Err(MBTileError { message: Some(msg), source: InnerError::SchemeMismatch })
}


/// How the decoded directory-level and file-level numbers map to the
/// canonical column and row: `Xyz` flips the file-name number, `Ags` swaps
/// the roles and flips the directory number, the rest pass through.
pub open spec fn spec_col_row(scheme: Scheme, zoom: u32, dirv: u32, stemv: u32) -> Option<
    (u32, u32),
> {
    match scheme {
        Scheme::Ags => if flip_in_range(zoom, dirv) {
            Some((stemv, spec_flip_y(zoom as nat, dirv as nat) as u32))
        } else {
            None
        },
        Scheme::Xyz => if flip_in_range(zoom, stemv) {
            Some((dirv, spec_flip_y(zoom as nat, stemv as nat) as u32))
        } else {
            None
        },
        _ => Some((dirv, stemv)),
    }
}

proof fn lemma_flip_fits(zoom: u32, y: u32)
    requires
        flip_in_range(zoom, y),
    ensures
        spec_flip_y(zoom as nat, y as nat) < pow2(zoom as nat),
        pow2(zoom as nat) <= 0x1_0000_0000,
        spec_flip_y(zoom as nat, y as nat) as u32 == spec_flip_y(zoom as nat, y as nat),
{
    vstd::arithmetic::power2::lemma2_to64();
    if (zoom as nat) < 32 {
        if (zoom as nat) < 31 {
            vstd::arithmetic::power2::lemma_pow2_strictly_increases(zoom as nat, 31);
        }
    }
}

/// Maps decoded numbers to the canonical column and row for a scheme.
pub fn map_col_row(flag_scheme: Scheme, zoom: u32, dirv: u32, stemv: u32) -> (r: Option<
    (u32, u32),
>)
    ensures
        r == spec_col_row(flag_scheme, zoom, dirv, stemv),
{
    match flag_scheme {
        Scheme::Ags => match try_flip_y(zoom, dirv) {
            Some(f) => {
                proof {
                    lemma_flip_fits(zoom, dirv);
                }
                Some((stemv, f))
            },
            None => None,
        },
        Scheme::Xyz => match try_flip_y(zoom, stemv) {
            Some(f) => {
                proof {
                    lemma_flip_fits(zoom, stemv);
                }
                Some((dirv, f))
            },
            None => None,
        },
        _ => Some((dirv, stemv)),
    }
}

/// What a three-component relative path denotes during import: the
/// canonical tile address and the kind of file, or nothing if any stage of
/// the decode fails.
pub open spec fn spec_decode_entry(comps: Seq<Seq<u8>>, scheme: Scheme, fmt: ImageFormat) -> Option<
    (u32, u32, u32, FileKind),
> {
    if comps.len() != 3 {
        None
    } else if !(is_normal_segment(comps[0]) && spec_parse_zoom(comps[0], scheme) is Some) {
        None
    } else if !(is_normal_segment(comps[1]) && spec_parse_dir(comps[1], scheme) is Some) {
        None
    } else if !(is_normal_segment(comps[2]) && spec_parse_filename(comps[2], scheme, fmt)
        is Some) {
        None
    } else {
        let z = spec_parse_zoom(comps[0], scheme)->Some_0;
        let d = spec_parse_dir(comps[1], scheme)->Some_0;
        let (v, kind) = spec_parse_filename(comps[2], scheme, fmt)->Some_0;
        match spec_col_row(scheme, z, d, v) {
            Some((x, y)) => Some((z, x, y, kind)),
            None => None,
        }
    }
}

/// The error category of a failed three-component decode: the first stage
/// that fails names the category, as the per-segment decoders do.
pub open spec fn spec_entry_error(comps: Seq<Seq<u8>>, scheme: Scheme, fmt: ImageFormat) -> InnerError {
    if comps.len() != 3 {
        InnerError::SchemeMismatch
    } else if !is_normal_segment(comps[0]) {
        InnerError::PathEncoding
    } else if spec_parse_zoom(comps[0], scheme) is None {
        InnerError::Parse
    } else if !is_normal_segment(comps[1]) {
        InnerError::PathEncoding
    } else if spec_parse_dir(comps[1], scheme) is None {
        InnerError::Parse
    } else if !(is_normal_segment(comps[2]) && spec_parse_filename(comps[2], scheme, fmt)
        is Some) {
        spec_filename_error(comps[2], scheme, fmt)
    } else {
        InnerError::Parse
    }
}

/// Decodes a three-component relative path to a canonical tile address and
/// file kind; fails with the category of the first failing stage.
pub fn decode_entry(comps: &Vec<Vec<u8>>, flag_scheme: Scheme, image_format: ImageFormat) -> (r:
    Result<(u32, u32, u32, FileKind), MBTileError>)
    ensures
        match r {
            Ok(t) => spec_decode_entry(seq_views(comps@), flag_scheme, image_format) == Some(t),
            Err(e) => spec_decode_entry(seq_views(comps@), flag_scheme, image_format) is None
                && e.source == spec_entry_error(seq_views(comps@), flag_scheme, image_format),
        },
{
    if comps.len() != 3 {
        return Err(
            MBTileError::with_source(
                InnerError::SchemeMismatch,
                "a tile path has exactly three components",
            ),
        );
    }
    proof {
        assert(seq_views(comps@)[0] == comps@[0]@);
        assert(seq_views(comps@)[1] == comps@[1]@);
        assert(seq_views(comps@)[2] == comps@[2]@);
    }
    let zoom = match parse_zoom_dir(&comps[0], flag_scheme) {
        Ok(z) => z,
        Err(e) => {
            return Err(e);
        },
    };
    let dirv = match parse_image_dir(&comps[1], flag_scheme) {
        Ok(d) => d,
        Err(e) => {
            return Err(e);
        },
    };
    let (stemv, kind) = match parse_filename(&comps[2], flag_scheme, image_format) {
        Ok(p) => p,
        Err(e) => {
            return Err(e);
        },
    };
    match map_col_row(flag_scheme, zoom, dirv, stemv) {
        Some((x, y)) => Ok((zoom, x, y, kind)),
        None => Err(
            MBTileError::with_source(
                InnerError::Parse,
                "the decoded row does not fit the zoom level",
            ),
        ),
    }
}

/// Whether `encode_tile_path` is defined: the schemes that flip the row
/// need the row to lie on the zoom level.
pub open spec fn in_range_for(scheme: Scheme, zoom: u32, row: u32) -> bool {
    match scheme {
        Scheme::Xyz => flip_in_range(zoom, row),
        Scheme::Ags => flip_in_range(zoom, row),
        _ => true,
    }
}

/// The relative path of a tile under a scheme, as path components; the last
/// component carries the file extension.
pub open spec fn spec_encode_tile_path(
    zoom: u32,
    col: u32,
    row: u32,
    scheme: Scheme,
    ext: Seq<u8>,
) -> Seq<Seq<u8>>
    recommends
        in_range_for(scheme, zoom, row),
{
    match scheme {
        Scheme::Xyz => seq![
            dec_digits(zoom as nat),
            dec_digits(col as nat),
            dec_digits(spec_flip_y(zoom as nat, row as nat)) + seq![46u8] + ext,
        ],
        Scheme::Tms => seq![
            dec_digits(zoom as nat),
            dec_digits(col as nat),
            dec_digits(row as nat) + seq![46u8] + ext,
        ],
        Scheme::Wms => seq![
            zero_pad(dec_digits(zoom as nat), 2),
            zero_pad(dec_digits(zoom as nat), 2),
            zero_pad(dec_digits((col / 1000000) as nat), 3),
            zero_pad(dec_digits(((col / 1000) % 1000) as nat), 3),
            zero_pad(dec_digits((col % 1000) as nat), 2),
            zero_pad(dec_digits((row / 1000000) as nat), 2),
            zero_pad(dec_digits(((row / 1000) % 1000) as nat), 2),
            zero_pad(dec_digits((row % 1000) as nat), 3) + seq![46u8] + ext,
        ],
        Scheme::Ags => seq![
            seq![76u8] + dec_digits(zoom as nat),
            seq![82u8] + hex_digits(spec_flip_y(zoom as nat, row as nat)),
            seq![67u8] + hex_digits(col as nat) + seq![46u8] + ext,
        ],
    }
}

fn numeral_with_ext(stem: Vec<u8>, ext: &Vec<u8>) -> (r: Vec<u8>)
    ensures
        r@ == stem@ + seq![46u8] + ext@,
{
    let mut r = stem;
    r.push(46);
    push_all(&mut r, ext);
    r
}

/// Encodes a canonical tile address as a relative path under a scheme;
/// fails when the scheme flips the row and the row does not lie on the
/// zoom level.
pub fn encode_tile_path(
    zoom: u32,
    col: u32,
    row: u32,
    flag_scheme: Scheme,
    ext: &Vec<u8>,
) -> (r: Result<Vec<Vec<u8>>, MBTileError>)
    ensures
        match r {
            Ok(p) => in_range_for(flag_scheme, zoom, row) && seq_views(p@)
                == spec_encode_tile_path(zoom, col, row, flag_scheme, ext@),
            Err(e) => !in_range_for(flag_scheme, zoom, row) && e.source
                == InnerError::PathEncoding,
        },
{
    let mut p: Vec<Vec<u8>> = Vec::new();
    match flag_scheme {
        Scheme::Xyz => {
            let f = match try_flip_y(zoom, row) {
                Some(f) => f,
                None => {
                    return Err(
                        MBTileError::with_source(
                            InnerError::PathEncoding,
                            "the row does not lie on the zoom level",
                        ),
                    );
                },
            };
            p.push(fmt_u32_dec(zoom));
            p.push(fmt_u32_dec(col));
            p.push(numeral_with_ext(fmt_u32_dec(f), ext));
            proof {
                assert(seq_views(p@) =~~= spec_encode_tile_path(
                    zoom,
                    col,
                    row,
                    flag_scheme,
                    ext@,
                ));
            }
            Ok(p)
        },
        Scheme::Tms => {
            p.push(fmt_u32_dec(zoom));
            p.push(fmt_u32_dec(col));
            p.push(numeral_with_ext(fmt_u32_dec(row), ext));
            proof {
                assert(seq_views(p@) =~~= spec_encode_tile_path(
                    zoom,
                    col,
                    row,
                    flag_scheme,
                    ext@,
                ));
            }
            Ok(p)
        },
        Scheme::Wms => {
            p.push(fmt_u32_pad(zoom, 2));
            p.push(fmt_u32_pad(zoom, 2));
            p.push(fmt_u32_pad(col / 1000000, 3));
            p.push(fmt_u32_pad((col / 1000) % 1000, 3));
            p.push(fmt_u32_pad(col % 1000, 2));
            p.push(fmt_u32_pad(row / 1000000, 2));
            p.push(fmt_u32_pad((row / 1000) % 1000, 2));
            p.push(numeral_with_ext(fmt_u32_pad(row % 1000, 3), ext));
            proof {
                assert(seq_views(p@) =~~= spec_encode_tile_path(
                    zoom,
                    col,
                    row,
                    flag_scheme,
                    ext@,
                ));
            }
            Ok(p)
        },
        Scheme::Ags => {
            let f = match try_flip_y(zoom, row) {
                Some(f) => f,
                None => {
                    return Err(
                        MBTileError::with_source(
                            InnerError::PathEncoding,
                            "the row does not lie on the zoom level",
                        ),
                    );
                },
            };
            let mut c0: Vec<u8> = vec![76u8];
            push_all(&mut c0, &fmt_u32_dec(zoom));
            let mut c1: Vec<u8> = vec![82u8];
            push_all(&mut c1, &fmt_u32_hex(f));
            let mut c2: Vec<u8> = vec![67u8];
            push_all(&mut c2, &fmt_u32_hex(col));
            p.push(c0);
            p.push(c1);
            p.push(numeral_with_ext(c2, ext));
            proof {
                assert(seq_views(p@) =~~= spec_encode_tile_path(
                    zoom,
                    col,
                    row,
                    flag_scheme,
                    ext@,
                ));
            }
            Ok(p)
        },
    }
}


/// What an eight-component `Wms` path denotes: the two zoom segments must
/// agree, the three column groups and three row groups reassemble to the
/// column and row, and the file name ends the path.
pub open spec fn spec_decode_wms(comps: Seq<Seq<u8>>, fmt: ImageFormat) -> Option<
    (u32, u32, u32, FileKind),
> {
    if comps.len() != 8 {
        None
    } else if exists|i: int|
        0 <= i < 7 && !(is_normal_segment(#[trigger] comps[i]) && spec_parse_num(comps[i], false)
            is Some) {
        None
    } else if !(is_normal_segment(comps[7]) && spec_parse_filename(comps[7], Scheme::Wms, fmt)
        is Some) {
        None
    } else {
        let z0 = spec_parse_num(comps[0], false)->Some_0;
        let z1 = spec_parse_num(comps[1], false)->Some_0;
        let a = spec_parse_num(comps[2], false)->Some_0;
        let b = spec_parse_num(comps[3], false)->Some_0;
        let c = spec_parse_num(comps[4], false)->Some_0;
        let d = spec_parse_num(comps[5], false)->Some_0;
        let e = spec_parse_num(comps[6], false)->Some_0;
        let (v, kind) = spec_parse_filename(comps[7], Scheme::Wms, fmt)->Some_0;
        if z0 != z1 || b >= 1000 || c >= 1000 || e >= 1000 || v >= 1000 {
            None
        } else {
            let col = a * 1000000 + b * 1000 + c;
            let row = d * 1000000 + e * 1000 + v;
            if col <= u32::MAX && row <= u32::MAX {
                Some((z0, col as u32, row as u32, kind))
            } else {
                None
            }
        }
    }
}

/// What a relative path denotes under a scheme: three components for
/// `Xyz`, `Tms` and `Ags`; eight for `Wms`.
pub open spec fn spec_decode_tile_path(comps: Seq<Seq<u8>>, scheme: Scheme, fmt: ImageFormat) -> Option<
    (u32, u32, u32, FileKind),
> {
    match scheme {
        Scheme::Wms => spec_decode_wms(comps, fmt),
        _ => spec_decode_entry(comps, scheme, fmt),
    }
}

fn parse_wms_group(comp: &Vec<u8>) -> (r: Option<u32>)
    ensures
        match r {
            Some(n) => is_normal_segment(comp@) && spec_parse_num(comp@, false) == Some(n),
            None => !(is_normal_segment(comp@) && spec_parse_num(comp@, false) is Some),
        },
{
    match parse_comp(comp) {
        Ok(_) => parse_u32_dec(comp),
        Err(_) => None,
    }
}

/// Decodes a relative path to the canonical tile address and file kind it
/// denotes under a scheme, if any.
pub fn decode_tile_path(comps: &Vec<Vec<u8>>, flag_scheme: Scheme, image_format: ImageFormat) -> (r:
    Option<(u32, u32, u32, FileKind)>)
    ensures
        r == spec_decode_tile_path(seq_views(comps@), flag_scheme, image_format),
{
    match flag_scheme {
        Scheme::Wms => {
            if comps.len() != 8 {
                return None;
            }
            proof {
                assert(forall|i: int|
                    0 <= i < 8 ==> #[trigger] seq_views(comps@)[i] == comps@[i]@);
            }
            let mut groups: Vec<u32> = Vec::new();
            let mut i: usize = 0;
            while i < 7
                invariant
                    0 <= i <= 7,
                    comps@.len() == 8,
                    groups@.len() == i,
                    forall|k: int|
                        0 <= k < i ==> is_normal_segment(#[trigger] comps@[k]@)
                            && spec_parse_num(comps@[k]@, false) == Some(groups@[k]),
                decreases 7 - i,
            {
                match parse_wms_group(&comps[i]) {
                    Some(n) => {
                        groups.push(n);
                    },
                    None => {
                        proof {
                            assert(!(is_normal_segment(seq_views(comps@)[i as int])
                                && spec_parse_num(seq_views(comps@)[i as int], false) is Some));
                        }
                        return None;
                    },
                }
                i = i + 1;
            }
            let (v, kind) = match parse_filename(&comps[7], Scheme::Wms, image_format) {
                Ok(p) => p,
                Err(_) => {
                    return None;
                },
            };
            proof {
                assert(forall|k: int|
                    0 <= k < 7 ==> spec_parse_num(#[trigger] seq_views(comps@)[k], false)
                        == Some(groups@[k]));
            }
            let z0 = groups[0];
            let z1 = groups[1];
            let a = groups[2];
            let b = groups[3];
            let c = groups[4];
            let d = groups[5];
            let e = groups[6];
            if z0 != z1 || b >= 1000 || c >= 1000 || e >= 1000 || v >= 1000 {
                return None;
            }
            let col64: u64 = a as u64 * 1000000 + b as u64 * 1000 + c as u64;
            let row64: u64 = d as u64 * 1000000 + e as u64 * 1000 + v as u64;
            if col64 <= u32::MAX as u64 && row64 <= u32::MAX as u64 {
                Some((z0, col64 as u32, row64 as u32, kind))
            } else {
                None
            }
        },
        _ => {
            match decode_entry(comps, flag_scheme, image_format) {
                Ok(t) => Some(t),
                Err(_) => None,
            }
        },
    }
}


pub open spec fn seg_ok_bytes(s: Seq<u8>) -> bool {
    forall|i: int| 0 <= i < s.len() ==> #[trigger] s[i] != 47 && s[i] != 0
}

pub open spec fn no_dot(s: Seq<u8>) -> bool {
    forall|i: int| 0 <= i < s.len() ==> #[trigger] s[i] != 46
}

proof fn lemma_normal_if(s: Seq<u8>)
    requires
        s.len() >= 1,
        s[0] != 46,
        seg_ok_bytes(s),
    ensures
        is_normal_segment(s),
{
    assert(s != seq![46u8]) by {
        if s == seq![46u8] {
            assert(s[0] == 46);
        }
    }
    assert(s != seq![46u8, 46u8]) by {
        if s == seq![46u8, 46u8] {
            assert(s[0] == 46);
        }
    }
}

/// A non-empty string of hex digits (so also of decimal digits) is a
/// normal, dot-free path segment.
proof fn lemma_numeral_normal(s: Seq<u8>)
    requires
        s.len() >= 1,
        all_hex_digits(s),
    ensures
        is_normal_segment(s),
        no_dot(s),
        seg_ok_bytes(s),
        s[0] != 46,
{
    assert forall|i: int| 0 <= i < s.len() implies #[trigger] s[i] != 46 && s[i] != 47 && s[i]
        != 0 by {
        assert(is_hex_digit(s[i]));
    }
    lemma_normal_if(s);
}

proof fn lemma_ext_bytes(fmt: ImageFormat)
    ensures
        spec_extension(fmt).len() >= 1,
        seg_ok_bytes(spec_extension(fmt)),
        no_dot(spec_extension(fmt)),
{
}

proof fn lemma_grid_json_bytes()
    ensures
        seg_ok_bytes(grid_part()),
        no_dot(grid_part()),
        seg_ok_bytes(json_part()),
        no_dot(json_part()),
{
}

/// Splitting a dot-free string yields the string alone.
pub proof fn lemma_split_no_dot(s: Seq<u8>)
    requires
        no_dot(s),
    ensures
        split_dot(s) == seq![s],
    decreases s.len(),
{
    if s.len() == 0 {
        assert(split_dot(s) =~~= seq![s]);
    } else {
        assert(s[0] != 46);
        lemma_split_no_dot(s.skip(1));
        assert(seq![s[0]] + s.skip(1) =~= s);
        assert(split_dot(s) =~~= seq![s]);
    }
}

/// Splitting a dot-free prefix, a dot, and a remainder yields the prefix
/// followed by the split of the remainder.
pub proof fn lemma_split_concat(a: Seq<u8>, rest: Seq<u8>)
    requires
        no_dot(a),
    ensures
        split_dot(a + seq![46u8] + rest) == seq![a] + split_dot(rest),
    decreases a.len(),
{
    let s = a + seq![46u8] + rest;
    if a.len() == 0 {
        assert(s[0] == 46);
        assert(s.skip(1) =~= rest);
        assert(a =~= Seq::<u8>::empty());
        assert(split_dot(s) =~~= seq![a] + split_dot(rest));
    } else {
        assert(s[0] == a[0]);
        assert(a[0] != 46);
        assert(s.skip(1) =~= a.skip(1) + seq![46u8] + rest);
        lemma_split_concat(a.skip(1), rest);
        let rest2 = split_dot(s.skip(1));
        assert(rest2 == seq![a.skip(1)] + split_dot(rest));
        assert(rest2[0] == a.skip(1));
        assert(seq![s[0]] + rest2[0] =~= a);
        assert(rest2.skip(1) =~= split_dot(rest));
        assert(split_dot(s) =~~= seq![a] + split_dot(rest));
    }
}

/// The extension a grid file carries after its stem.
pub open spec fn grid_ext() -> Seq<u8> {
    grid_part() + seq![46u8] + json_part()
}

proof fn lemma_filename_roundtrip(
    stem: Seq<u8>,
    scheme: Scheme,
    fmt: ImageFormat,
    v: u32,
    is_grid: bool,
)
    requires
        stem.len() >= 1,
        no_dot(stem),
        seg_ok_bytes(stem),
        stem[0] != 46,
        spec_parse_stem(stem, scheme) == Some(v),
    ensures
        ({
            let ext = if is_grid {
                grid_ext()
            } else {
                spec_extension(fmt)
            };
            let s = stem + seq![46u8] + ext;
            is_normal_segment(s) && spec_parse_filename(s, scheme, fmt) == Some(
                (
                    v,
                    if is_grid {
                        FileKind::Grid
                    } else {
                        FileKind::Tile
                    },
                ),
            )
        }),
{
    let ext = if is_grid {
        grid_ext()
    } else {
        spec_extension(fmt)
    };
    let s = stem + seq![46u8] + ext;
    lemma_ext_bytes(fmt);
    lemma_grid_json_bytes();
    assert(s[0] == stem[0]);
    assert forall|i: int| 0 <= i < s.len() implies #[trigger] s[i] != 47 && s[i] != 0 by {
        if i < stem.len() {
            assert(s[i] == stem[i]);
        } else if i == stem.len() {
            assert(s[i] == 46);
        } else {
            assert(s[i] == ext[i - stem.len() - 1]);
        }
    }
    lemma_normal_if(s);
    if is_grid {
        lemma_split_concat(stem, grid_ext());
        lemma_split_concat(grid_part(), json_part());
        lemma_split_no_dot(json_part());
        assert(split_dot(grid_ext()) =~~= seq![grid_part(), json_part()]);
        assert(split_dot(s) =~~= seq![stem, grid_part(), json_part()]);
    } else {
        lemma_split_concat(stem, ext);
        lemma_split_no_dot(ext);
        assert(split_dot(s) =~~= seq![stem, ext]);
    }
}

proof fn lemma_wms_groups(n: u32)
    ensures
        (n / 1000000) * 1000000 + ((n / 1000) % 1000) * 1000 + (n % 1000) == n,
        (n / 1000) % 1000 < 1000,
        n % 1000 < 1000,
        n / 1000000 <= n,
        n / 1000 <= n,
{
    vstd::arithmetic::div_mod::lemma_fundamental_div_mod(n as int, 1000);
    vstd::arithmetic::div_mod::lemma_fundamental_div_mod((n as int) / 1000, 1000);
    vstd::arithmetic::div_mod::lemma_div_denominator(n as int, 1000, 1000);
    vstd::arithmetic::div_mod::lemma_mod_bound(n as int, 1000);
    vstd::arithmetic::div_mod::lemma_mod_bound((n as int) / 1000, 1000);
}

/// Decoding inverts encoding: a tile path encoded for a scheme decodes to
/// the address it was built from, and likewise for a grid path.
#[verifier::rlimit(80)]
pub proof fn lemma_decode_encode(
    zoom: u32,
    col: u32,
    row: u32,
    scheme: Scheme,
    fmt: ImageFormat,
    is_grid: bool,
)
    requires
        in_range_for(scheme, zoom, row),
    ensures
        ({
            let ext = if is_grid {
                grid_ext()
            } else {
                spec_extension(fmt)
            };
            let kind = if is_grid {
                FileKind::Grid
            } else {
                FileKind::Tile
            };
            spec_decode_tile_path(
                spec_encode_tile_path(zoom, col, row, scheme, ext),
                scheme,
                fmt,
            ) == Some((zoom, col, row, kind))
        }),
{
    let ext = if is_grid {
        grid_ext()
    } else {
        spec_extension(fmt)
    };
    let kind = if is_grid {
        FileKind::Grid
    } else {
        FileKind::Tile
    };
    let comps = spec_encode_tile_path(zoom, col, row, scheme, ext);
    lemma_dec_digits_value(zoom as nat);
    lemma_dec_digits_value(col as nat);
    lemma_dec_digits_value(row as nat);
    match scheme {
        Scheme::Xyz => {
            let f = spec_flip_y(zoom as nat, row as nat);
            lemma_flip_fits(zoom, row);
            lemma_dec_digits_value(f);
            lemma_numeral_normal(dec_digits(zoom as nat));
            lemma_numeral_normal(dec_digits(col as nat));
            lemma_numeral_normal(dec_digits(f));
            assert(spec_parse_stem(dec_digits(f), Scheme::Xyz) == Some(f as u32));
            lemma_filename_roundtrip(dec_digits(f), scheme, fmt, f as u32, is_grid);
            assert(spec_col_row(scheme, zoom, col, f as u32) == Some((col, row)));
            assert(spec_decode_tile_path(comps, scheme, fmt) == Some((zoom, col, row, kind)));
        },
        Scheme::Tms => {
            lemma_numeral_normal(dec_digits(zoom as nat));
            lemma_numeral_normal(dec_digits(col as nat));
            lemma_numeral_normal(dec_digits(row as nat));
            assert(spec_parse_stem(dec_digits(row as nat), Scheme::Tms) == Some(row));
            lemma_filename_roundtrip(dec_digits(row as nat), scheme, fmt, row, is_grid);
            assert(spec_col_row(scheme, zoom, col, row) == Some((col, row)));
            assert(spec_decode_tile_path(comps, scheme, fmt) == Some((zoom, col, row, kind)));
        },
        Scheme::Ags => {
            let f = spec_flip_y(zoom as nat, row as nat);
            lemma_flip_fits(zoom, row);
            lemma_hex_digits_value(f);
            lemma_hex_digits_value(col as nat);
            let c0 = seq![76u8] + dec_digits(zoom as nat);
            let c1 = seq![82u8] + hex_digits(f);
            let stem = seq![67u8] + hex_digits(col as nat);
            lemma_numeral_normal(dec_digits(zoom as nat));
            lemma_numeral_normal(hex_digits(f));
            lemma_numeral_normal(hex_digits(col as nat));
            assert forall|i: int| 0 <= i < c0.len() implies #[trigger] c0[i] != 47 && c0[i]
                != 0 by {
                if i > 0 {
                    assert(c0[i] == dec_digits(zoom as nat)[i - 1]);
                    assert(is_hex_digit(dec_digits(zoom as nat)[i - 1]));
                }
            }
            lemma_normal_if(c0);
            assert forall|i: int| 0 <= i < c1.len() implies #[trigger] c1[i] != 47 && c1[i]
                != 0 by {
                if i > 0 {
                    assert(c1[i] == hex_digits(f)[i - 1]);
                    assert(is_hex_digit(hex_digits(f)[i - 1]));
                }
            }
            lemma_normal_if(c1);
            assert forall|i: int| 0 <= i < stem.len() implies #[trigger] stem[i] != 47 && stem[i]
                != 0 by {
                if i > 0 {
                    assert(stem[i] == hex_digits(col as nat)[i - 1]);
                    assert(is_hex_digit(hex_digits(col as nat)[i - 1]));
                }
            }
            assert forall|i: int| 0 <= i < stem.len() implies #[trigger] stem[i] != 46 by {
                if i > 0 {
                    assert(stem[i] == hex_digits(col as nat)[i - 1]);
                    assert(is_hex_digit(hex_digits(col as nat)[i - 1]));
                }
            }
            assert(stripped(c0, 76) =~= dec_digits(zoom as nat));
            assert(spec_parse_zoom(c0, scheme) == Some(zoom));
            assert(stripped(c1, 82) =~= hex_digits(f));
            assert(f as u32 as nat == f) by {
                lemma_flip_fits(zoom, row);
            }
            assert(spec_parse_dir(c1, scheme) == Some(f as u32));
            assert(stripped(stem, 67) =~= hex_digits(col as nat));
            assert(spec_parse_stem(stem, scheme) == Some(col));
            lemma_filename_roundtrip(stem, scheme, fmt, col, is_grid);
            assert(spec_col_row(scheme, zoom, f as u32, col) == Some((col, row)));
            assert(spec_decode_tile_path(comps, scheme, fmt) == Some((zoom, col, row, kind)));
        },
        Scheme::Wms => {
            lemma_wms_groups(col);
            lemma_wms_groups(row);
            let a = (col / 1000000) as u32;
            let b = ((col / 1000) % 1000) as u32;
            let c = (col % 1000) as u32;
            let d = (row / 1000000) as u32;
            let e = ((row / 1000) % 1000) as u32;
            let v = (row % 1000) as u32;
            lemma_dec_digits_value(a as nat);
            lemma_dec_digits_value(b as nat);
            lemma_dec_digits_value(c as nat);
            lemma_dec_digits_value(d as nat);
            lemma_dec_digits_value(e as nat);
            lemma_dec_digits_value(v as nat);
            lemma_zero_pad_value(dec_digits(zoom as nat), 2);
            lemma_zero_pad_value(dec_digits(a as nat), 3);
            lemma_zero_pad_value(dec_digits(b as nat), 3);
            lemma_zero_pad_value(dec_digits(c as nat), 2);
            lemma_zero_pad_value(dec_digits(d as nat), 2);
            lemma_zero_pad_value(dec_digits(e as nat), 2);
            lemma_zero_pad_value(dec_digits(v as nat), 3);
            lemma_numeral_normal(zero_pad(dec_digits(zoom as nat), 2));
            lemma_numeral_normal(zero_pad(dec_digits(a as nat), 3));
            lemma_numeral_normal(zero_pad(dec_digits(b as nat), 3));
            lemma_numeral_normal(zero_pad(dec_digits(c as nat), 2));
            lemma_numeral_normal(zero_pad(dec_digits(d as nat), 2));
            lemma_numeral_normal(zero_pad(dec_digits(e as nat), 2));
            lemma_numeral_normal(zero_pad(dec_digits(v as nat), 3));
            let stem = zero_pad(dec_digits(v as nat), 3);
            assert(spec_parse_stem(stem, Scheme::Wms) == Some(v));
            lemma_filename_roundtrip(stem, Scheme::Wms, fmt, v, is_grid);
            assert forall|i: int|
                0 <= i < 7 implies (is_normal_segment(#[trigger] comps[i]) && spec_parse_num(
                comps[i],
                false,
            ) is Some) by {
                if i == 0 || i == 1 {
                    assert(comps[i] == zero_pad(dec_digits(zoom as nat), 2));
                } else if i == 2 {
                    assert(comps[i] == zero_pad(dec_digits(a as nat), 3));
                } else if i == 3 {
                    assert(comps[i] == zero_pad(dec_digits(b as nat), 3));
                } else if i == 4 {
                    assert(comps[i] == zero_pad(dec_digits(c as nat), 2));
                } else if i == 5 {
                    assert(comps[i] == zero_pad(dec_digits(d as nat), 2));
                } else {
                    assert(comps[i] == zero_pad(dec_digits(e as nat), 2));
                }
            }
            assert(spec_parse_num(comps[0], false) == Some(zoom));
            assert(spec_parse_num(comps[1], false) == Some(zoom));
            assert(spec_parse_num(comps[2], false) == Some(a));
            assert(spec_parse_num(comps[3], false) == Some(b));
            assert(spec_parse_num(comps[4], false) == Some(c));
            assert(spec_parse_num(comps[5], false) == Some(d));
            assert(spec_parse_num(comps[6], false) == Some(e));
            assert(a * 1000000 + b * 1000 + c == col);
            assert(d * 1000000 + e * 1000 + v == row);
            assert(spec_decode_tile_path(comps, scheme, fmt) == Some((zoom, col, row, kind)));
        },
    }
}


/// A padded numeral starts with a digit.
proof fn lemma_pad_first(n: nat, w: nat)
    ensures
        zero_pad(dec_digits(n), w).len() > 0,
        is_hex_digit(zero_pad(dec_digits(n), w)[0]),
        zero_pad(dec_digits(n), w)[0] != 46,
{
    lemma_dec_digits_value(n);
    if dec_digits(n).len() < w {
        assert(zero_pad(dec_digits(n), w)[0] == 48);
    } else {
        assert(zero_pad(dec_digits(n), w)[0] == dec_digits(n)[0]);
        assert(is_hex_digit(dec_digits(n)[0]));
    }
}

/// No component of an encoded tile path starts with a dot, so the walk
/// never hides an exported file.
#[verifier::rlimit(100)]
pub proof fn lemma_encode_not_hidden(zoom: u32, col: u32, row: u32, scheme: Scheme, ext: Seq<u8>)
    ensures
        forall|k: int|
            0 <= k < spec_encode_tile_path(zoom, col, row, scheme, ext).len() ==> (
            #[trigger] spec_encode_tile_path(zoom, col, row, scheme, ext)[k]).len() > 0
                && spec_encode_tile_path(zoom, col, row, scheme, ext)[k][0] != 46,
{
    let comps = spec_encode_tile_path(zoom, col, row, scheme, ext);
    let f = spec_flip_y(zoom as nat, row as nat);
    lemma_dec_digits_value(zoom as nat);
    lemma_dec_digits_value(col as nat);
    lemma_dec_digits_value(row as nat);
    lemma_dec_digits_value(f);
    lemma_hex_digits_value(f);
    lemma_hex_digits_value(col as nat);
    assert forall|k: int| 0 <= k < comps.len() implies (#[trigger] comps[k]).len() > 0
        && comps[k][0] != 46 by {
        match scheme {
            Scheme::Xyz => {
                if k == 0 {
                    assert(is_hex_digit(comps[k][0]));
                } else if k == 1 {
                    assert(is_hex_digit(comps[k][0]));
                } else {
                    assert(comps[k][0] == dec_digits(f)[0]);
                    assert(is_hex_digit(dec_digits(f)[0]));
                }
            },
            Scheme::Tms => {
                if k == 0 {
                    assert(is_hex_digit(comps[k][0]));
                } else if k == 1 {
                    assert(is_hex_digit(comps[k][0]));
                } else {
                    assert(comps[k][0] == dec_digits(row as nat)[0]);
                    assert(is_hex_digit(dec_digits(row as nat)[0]));
                }
            },
            Scheme::Wms => {
                if k == 0 || k == 1 {
                    lemma_pad_first(zoom as nat, 2);
                } else if k == 2 {
                    lemma_pad_first((col / 1000000) as nat, 3);
                } else if k == 3 {
                    lemma_pad_first(((col / 1000) % 1000) as nat, 3);
                } else if k == 4 {
                    lemma_pad_first((col % 1000) as nat, 2);
                } else if k == 5 {
                    lemma_pad_first((row / 1000000) as nat, 2);
                } else if k == 6 {
                    lemma_pad_first(((row / 1000) % 1000) as nat, 2);
                } else {
                    lemma_pad_first((row % 1000) as nat, 3);
                    assert(comps[k][0] == zero_pad(dec_digits((row % 1000) as nat), 3)[0]);
                }
            },
            Scheme::Ags => {
                if k == 0 {
                    assert(comps[k][0] == 76);
                } else if k == 1 {
                    assert(comps[k][0] == 82);
                } else {
                    assert(comps[k][0] == 67);
                }
            },
        }
    }
}

} // verus!
