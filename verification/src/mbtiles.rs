//! The import and export pipelines over the container model: decoding
//! walked directory entries into rows, and rendering rows back into a
//! directory tree of tile, grid and metadata files.
use vstd::prelude::*;
use crate::container::{
    Container, ContainerM, GridDataEntry, GridM, MetadataEntry, TileM, empty_container, has_meta,
    has_tile, lemma_insert_meta_wf, lemma_insert_tile_wf, meta_unique, spec_insert_meta,
    spec_insert_tile, tile_keyed, tiles_unique, wf,
};
use crate::error::{InnerError, MBTileError};
use crate::grid::{
    export_grid_text, insert_grid_json, spec_apply_grid, spec_export_grid_text, spec_grid_error,
    spec_grid_parse,
};
use crate::json::{
    is_full_value, lemma_object_of_strings_parse, lemma_string_round_trip, pair_views,
    parse_full_string, parse_top_object, ser_object, ser_str, serialize_object, serialize_string,
    sp_full_string, sp_full_value, sp_top_object, str_members,
};
use crate::path::{
    FileKind, encode_tile_path, grid_ext, in_range_for, is_normal_segment, lemma_decode_encode,
    lemma_encode_not_hidden, map_col_row, parse_filename, parse_image_dir, parse_zoom_dir,
    seq_views, spec_col_row, spec_decode_entry, spec_decode_tile_path, spec_encode_tile_path,
    spec_filename_error, spec_parse_filename,
};
use crate::scheme::{ImageFormat, Scheme, get_extension, spec_extension};
use crate::util::copy_range;

verus! {

/// One file found below the import root: its path components relative to
/// the root, and its bytes.
#[derive(Debug)]
pub struct Entry {
    pub components: Vec<Vec<u8>>,
    pub data: Vec<u8>,
}

impl View for Entry {
    type V = (Seq<Seq<u8>>, Seq<u8>);

    open spec fn view(&self) -> (Seq<Seq<u8>>, Seq<u8>) {
        (seq_views(self.components@), self.data@)
    }
}

pub open spec fn entry_views(es: Seq<Entry>) -> Seq<(Seq<Seq<u8>>, Seq<u8>)> {
    es.map_values(|e: Entry| e@)
}

/// A path with a component whose name starts with a dot; such entries are
/// invisible to the walk.
pub open spec fn hidden_entry(comps: Seq<Seq<u8>>) -> bool {
    exists|i: int|
        0 <= i < comps.len() && (#[trigger] comps[i]).len() > 0 && comps[i][0] == 46
}

fn is_hidden(comps: &Vec<Vec<u8>>) -> (r: bool)
    ensures
        r == hidden_entry(seq_views(comps@)),
{
    let mut i: usize = 0;
    while i < comps.len()
        invariant
            0 <= i <= comps@.len(),
            forall|k: int|
                0 <= k < i ==> !((#[trigger] seq_views(comps@)[k]).len() > 0 && seq_views(
                    comps@,
                )[k][0] == 46),
        decreases comps@.len() - i,
    {
        proof {
            assert(seq_views(comps@)[i as int] == comps@[i as int]@);
        }
        if comps[i].len() > 0 && comps[i][0] == 46 {
            return true;
        }
        i = i + 1;
    }
    false
}

/// The effect of one decoded file name on the container, given the zoom
/// level and directory number already decoded: a tile file inserts a
/// tile, a grid file inserts its rows, and any failing stage leaves the
/// container unchanged.
pub open spec fn spec_file_apply(
    m: ContainerM,
    comp: Seq<u8>,
    scheme: Scheme,
    fmt: ImageFormat,
    zoom: u32,
    dirv: u32,
    data: Seq<u8>,
) -> ContainerM {
    if !(is_normal_segment(comp) && spec_parse_filename(comp, scheme, fmt) is Some) {
        m
    } else {
        let (v, kind) = spec_parse_filename(comp, scheme, fmt)->Some_0;
        match spec_col_row(scheme, zoom, dirv, v) {
            None => m,
            Some((x, y)) => match kind {
                FileKind::Tile => spec_insert_tile(m, zoom, x, y, data),
                FileKind::Grid => if spec_grid_parse(data) is Some {
                    spec_apply_grid(m, zoom, x, y, data)
                } else {
                    m
                },
            },
        }
    }
}

/// Whether one decoded file name is accepted whole: the name decodes, the
/// row lies on the zoom level, and a grid file parses as an object.
pub open spec fn spec_file_ok(
    comp: Seq<u8>,
    scheme: Scheme,
    fmt: ImageFormat,
    zoom: u32,
    dirv: u32,
    data: Seq<u8>,
) -> bool {
    &&& is_normal_segment(comp)
    &&& spec_parse_filename(comp, scheme, fmt) is Some
    &&& spec_col_row(scheme, zoom, dirv, spec_parse_filename(comp, scheme, fmt)->Some_0.0)
        is Some
    &&& (spec_parse_filename(comp, scheme, fmt)->Some_0.1 == FileKind::Grid ==> spec_grid_parse(
        data,
    ) is Some)
}

/// The category a rejected file fails with: the file name's own failure,
/// a row that does not fit the zoom level, or a grid file that is not a
/// JSON object.
pub open spec fn spec_file_error(
    comp: Seq<u8>,
    scheme: Scheme,
    fmt: ImageFormat,
    zoom: u32,
    dirv: u32,
    data: Seq<u8>,
) -> InnerError
    recommends
        !spec_file_ok(comp, scheme, fmt, zoom, dirv, data),
{
    if !(is_normal_segment(comp) && spec_parse_filename(comp, scheme, fmt) is Some) {
        spec_filename_error(comp, scheme, fmt)
    } else if spec_col_row(scheme, zoom, dirv, spec_parse_filename(comp, scheme, fmt)->Some_0.0)
        is None {
        InnerError::Parse
    } else {
        spec_grid_error(data)
    }
}

/// Decodes a file-name segment and inserts the file's rows at the address
/// it denotes, flipping the row as the scheme requires.
pub fn parse_filename_and_insert(
    component: &Vec<u8>,
    flag_scheme: Scheme,
    image_format: ImageFormat,
    zoom: u32,
    image_dir: u32,
    data: &Vec<u8>,
    container: &mut Container,
) -> (r: Result<(), MBTileError>)
    ensures
        final(container)@ == spec_file_apply(
            old(container)@,
            component@,
            flag_scheme,
            image_format,
            zoom,
            image_dir,
            data@,
        ),
        r is Ok == spec_file_ok(component@, flag_scheme, image_format, zoom, image_dir, data@),
        r matches Err(e) ==> e.source == spec_file_error(
            component@,
            flag_scheme,
            image_format,
            zoom,
            image_dir,
            data@,
        ),
{
    let (v, kind) = match parse_filename(component, flag_scheme, image_format) {
        Ok(p) => p,
        Err(e) => {
            return Err(e);
        },
    };
    let (x, y) = match map_col_row(flag_scheme, zoom, image_dir, v) {
        Some(p) => p,
        None => {
            return Err(
                MBTileError::with_source(
                    InnerError::Parse,
                    "the decoded row does not fit the zoom level",
                ),
            );
        },
    };
    match kind {
        FileKind::Tile => {
            let d = copy_range(data, 0, data.len());
            proof {
                assert(d@ =~= data@);
            }
            let _inserted = container.insert_tile(zoom, x, y, d);
            Ok(())
        },
        FileKind::Grid => insert_grid_json(data, zoom, x, y, container),
    }
}

/// The effect of one walked entry on the container: only visible paths of
/// exactly three components are considered, and every per-entry failure
/// leaves the container unchanged.
pub open spec fn import_step(
    m: ContainerM,
    e: (Seq<Seq<u8>>, Seq<u8>),
    scheme: Scheme,
    fmt: ImageFormat,
) -> ContainerM {
    if e.0.len() == 3 && !hidden_entry(e.0) {
        match spec_decode_entry(e.0, scheme, fmt) {
            None => m,
            Some((z, x, y, kind)) => match kind {
                FileKind::Tile => spec_insert_tile(m, z, x, y, e.1),
                FileKind::Grid => if spec_grid_parse(e.1) is Some {
                    spec_apply_grid(m, z, x, y, e.1)
                } else {
                    m
                },
            },
        }
    } else {
        m
    }
}

/// The container that a sequence of walked entries builds, in order.
pub open spec fn import_fold(
    m: ContainerM,
    es: Seq<(Seq<Seq<u8>>, Seq<u8>)>,
    scheme: Scheme,
    fmt: ImageFormat,
) -> ContainerM
    decreases es.len(),
{
    if es.len() == 0 {
        m
    } else {
        import_fold(import_step(m, es[0], scheme, fmt), es.skip(1), scheme, fmt)
    }
}

proof fn lemma_import_fold_snoc(
    m: ContainerM,
    es: Seq<(Seq<Seq<u8>>, Seq<u8>)>,
    e: (Seq<Seq<u8>>, Seq<u8>),
    scheme: Scheme,
    fmt: ImageFormat,
)
    ensures
        import_fold(m, es.push(e), scheme, fmt) == import_step(
            import_fold(m, es, scheme, fmt),
            e,
            scheme,
            fmt,
        ),
    decreases es.len(),
{
    if es.len() == 0 {
        assert(es.push(e)[0] == e);
        assert(es.push(e).skip(1) =~~= Seq::<(Seq<Seq<u8>>, Seq<u8>)>::empty());
        assert(import_fold(m, es.push(e), scheme, fmt) == import_fold(
            import_step(m, e, scheme, fmt),
            es.push(e).skip(1),
            scheme,
            fmt,
        ));
        assert(import_fold(
            import_step(m, e, scheme, fmt),
            Seq::<(Seq<Seq<u8>>, Seq<u8>)>::empty(),
            scheme,
            fmt,
        ) == import_step(m, e, scheme, fmt));
        assert(import_fold(m, es, scheme, fmt) == m);
    } else {
        assert(es.push(e)[0] == es[0]);
        assert(es.push(e).skip(1) =~~= es.skip(1).push(e));
        lemma_import_fold_snoc(import_step(m, es[0], scheme, fmt), es.skip(1), e, scheme, fmt);
        assert(import_fold(m, es.push(e), scheme, fmt) == import_fold(
            import_step(m, es[0], scheme, fmt),
            es.skip(1).push(e),
            scheme,
            fmt,
        ));
        assert(import_fold(m, es, scheme, fmt) == import_fold(
            import_step(m, es[0], scheme, fmt),
            es.skip(1),
            scheme,
            fmt,
        ));
    }
}

/// The metadata rows a parsed `metadata.json` object contributes: every
/// member's value must be a JSON string; the first value for a name wins.
pub open spec fn collect_meta(
    ms: Seq<(Seq<u8>, Seq<u8>)>,
    i: int,
    m: ContainerM,
) -> Option<ContainerM>
    decreases ms.len() - i,
{
    if i < 0 || i >= ms.len() {
        Some(m)
    } else {
        match sp_full_string(ms[i].1) {
            None => None,
            Some(v) => collect_meta(ms, i + 1, spec_insert_meta(m, ms[i].0, v)),
        }
    }
}

pub open spec fn opt_bytes_view(o: Option<Vec<u8>>) -> Option<Seq<u8>> {
    match o {
        Some(v) => Some(v@),
        None => None,
    }
}

/// The container an import builds: the metadata file first, if present,
/// then the walked entries in order. An absent metadata file is not an
/// error; a present one that is not JSON at all fails the import with the
/// parse category, and one that is JSON of the wrong shape (not an
/// object, or with a non-string value) fails it with the structural
/// category.
pub open spec fn spec_import(
    es: Seq<(Seq<Seq<u8>>, Seq<u8>)>,
    meta: Option<Seq<u8>>,
    scheme: Scheme,
    fmt: ImageFormat,
) -> Result<ContainerM, InnerError> {
    match meta {
        None => Ok(import_fold(empty_container(), es, scheme, fmt)),
        Some(t) => match sp_top_object(t) {
            None => if sp_full_value(t) {
                Err(InnerError::BadShape)
            } else {
                Err(InnerError::Parse)
            },
            Some(ms) => match collect_meta(ms, 0, empty_container()) {
                None => Err(InnerError::BadShape),
                Some(m0) => Ok(import_fold(m0, es, scheme, fmt)),
            },
        },
    }
}

/// Builds a container from the files of a tile-pyramid directory: the
/// optional `metadata.json` text and the walked file entries. Per-entry
/// decode failures skip the entry; a malformed metadata file fails the
/// whole import.
pub fn import(
    entries: &Vec<Entry>,
    metadata_json: Option<Vec<u8>>,
    flag_scheme: Scheme,
    flag_image_format: ImageFormat,
) -> (r: Result<Container, MBTileError>)
    ensures
        match r {
            Ok(c) => spec_import(
                entry_views(entries@),
                opt_bytes_view(metadata_json),
                flag_scheme,
                flag_image_format,
            ) == Ok::<ContainerM, InnerError>(c@),
            Err(e) => spec_import(
                entry_views(entries@),
                opt_bytes_view(metadata_json),
                flag_scheme,
                flag_image_format,
            ) == Err::<ContainerM, InnerError>(e.source),
        },
{
    let mut container = Container::new();
    let ghost metav = opt_bytes_view(metadata_json);
    match &metadata_json {
        None => {},
        Some(t) => {
            proof {
                assert(metav == Some(t@));
            }
            let ms = match parse_top_object(t) {
                Some(ms) => ms,
                None => {
                    if is_full_value(t) {
                        return Err(
                            MBTileError::with_source(
                                InnerError::BadShape,
                                "metadata.json is not a JSON object",
                            ),
                        );
                    }
                    return Err(
                        MBTileError::with_source(
                            InnerError::Parse,
                            "metadata.json is not valid JSON",
                        ),
                    );
                },
            };
            let ghost msv = pair_views(ms@);
            let mut i: usize = 0;
            while i < ms.len()
                invariant
                    0 <= i <= ms@.len(),
                    msv == pair_views(ms@),
                    metav == opt_bytes_view(metadata_json),
                    metav == Some(t@),
                    sp_top_object(t@) == Some(msv),
                    collect_meta(msv, 0, empty_container()) == collect_meta(
                        msv,
                        i as int,
                        container@,
                    ),
                decreases ms@.len() - i,
            {
                let ghost pre = container@;
                proof {
                    assert(msv[i as int] == (ms@[i as int].0@, ms@[i as int].1@));
                }
                let v = match parse_full_string(&ms[i].1) {
                    Some(v) => v,
                    None => {
                        return Err(
                            MBTileError::with_source(
                                InnerError::BadShape,
                                "a metadata value is not a string",
                            ),
                        );
                    },
                };
                let name = copy_range(&ms[i].0, 0, ms[i].0.len());
                proof {
                    assert(name@ =~= ms@[i as int].0@);
                }
                let _inserted = container.insert_meta(name, v);
                proof {
                    assert(collect_meta(msv, i as int, pre) == collect_meta(
                        msv,
                        i as int + 1,
                        container@,
                    ));
                }
                i = i + 1;
            }
            proof {
                assert(collect_meta(msv, i as int, container@) == Some(container@));
                assert(sp_top_object(metav->Some_0) == Some(msv));
                assert(collect_meta(msv, 0, empty_container()) == Some(container@));
            }
        },
    }
    let ghost m0 = container@;
    let mut i: usize = 0;
    while i < entries.len()
        invariant
            0 <= i <= entries@.len(),
            container@ == import_fold(
                m0,
                entry_views(entries@).take(i as int),
                flag_scheme,
                flag_image_format,
            ),
        decreases entries@.len() - i,
    {
        let ghost pre = container@;
        let ghost ev = entry_views(entries@)[i as int];
        proof {
            assert(entry_views(entries@)[i as int] == entries@[i as int]@);
        }
        let e = &entries[i];
        if e.components.len() == 3 {
            if !is_hidden(&e.components) {
                match parse_zoom_dir(&e.components[0], flag_scheme) {
                    Err(_) => {
                        proof {
                            assert(seq_views(e.components@)[0] == e.components@[0]@);
                            assert(spec_decode_entry(ev.0, flag_scheme, flag_image_format)
                                is None);
                        }
                    },
                    Ok(zoom) => {
                        match parse_image_dir(&e.components[1], flag_scheme) {
                            Err(_) => {
                                proof {
                                    assert(seq_views(e.components@)[1] == e.components@[1]@);
                                    assert(spec_decode_entry(
                                        ev.0,
                                        flag_scheme,
                                        flag_image_format,
                                    ) is None);
                                }
                            },
                            Ok(image_dir) => {
                                proof {
                                    assert(seq_views(e.components@)[0] == e.components@[0]@);
                                    assert(seq_views(e.components@)[1] == e.components@[1]@);
                                    assert(seq_views(e.components@)[2] == e.components@[2]@);
                                }
                                let _r = parse_filename_and_insert(
                                    &e.components[2],
                                    flag_scheme,
                                    flag_image_format,
                                    zoom,
                                    image_dir,
                                    &e.data,
                                    &mut container,
                                );
                                proof {
                                    assert(container@ == import_step(
                                        pre,
                                        ev,
                                        flag_scheme,
                                        flag_image_format,
                                    ));
                                }
                            },
                        }
                    },
                }
            }
        }
        proof {
            lemma_import_fold_snoc(
                m0,
                entry_views(entries@).take(i as int),
                ev,
                flag_scheme,
                flag_image_format,
            );
            assert(entry_views(entries@).take(i as int + 1) =~~= entry_views(entries@).take(
                i as int,
            ).push(ev));
            assert(container@ == import_step(pre, ev, flag_scheme, flag_image_format));
        }
        i = i + 1;
    }
    proof {
        assert(entry_views(entries@).take(entries@.len() as int) =~~= entry_views(entries@));
    }
    Ok(container)
}


/// One file an export produces: its path components below the output
/// root, and its bytes.
#[derive(Debug)]
pub struct OutFile {
    pub path: Vec<Vec<u8>>,
    pub data: Vec<u8>,
}

impl View for OutFile {
    type V = (Seq<Seq<u8>>, Seq<u8>);

    open spec fn view(&self) -> (Seq<Seq<u8>>, Seq<u8>) {
        (seq_views(self.path@), self.data@)
    }
}

pub open spec fn outfile_views(v: Seq<OutFile>) -> Seq<(Seq<Seq<u8>>, Seq<u8>)> {
    v.map_values(|f: OutFile| f@)
}

pub open spec fn metadata_filename() -> Seq<u8> {
    seq![
        109u8,
        101u8,
        116u8,
        97u8,
        100u8,
        97u8,
        116u8,
        97u8,
        46u8,
        106u8,
        115u8,
        111u8,
        110u8,
    ]
}

/// The text of `metadata.json`: one object whose values are the entries'
/// values as JSON strings.
pub open spec fn ser_metadata(pairs: Seq<(Seq<u8>, Seq<u8>)>) -> Seq<u8> {
    ser_object(str_members(pairs))
}

/// Renders the metadata entries as the text of `metadata.json`.
pub fn metadata(entries: &Vec<MetadataEntry>) -> (r: Vec<u8>)
    ensures
        r@ == ser_metadata(entries@.map_values(|m: MetadataEntry| (m.name@, m.value@))),
{
    let ghost mv = entries@.map_values(|m: MetadataEntry| (m.name@, m.value@));
    let mut pairs: Vec<(Vec<u8>, Vec<u8>)> = Vec::new();
    let mut i: usize = 0;
    while i < entries.len()
        invariant
            0 <= i <= entries@.len(),
            mv == entries@.map_values(|m: MetadataEntry| (m.name@, m.value@)),
            pairs@.len() == i,
            forall|k: int|
                0 <= k < i ==> #[trigger] pair_views(pairs@)[k] == (mv[k].0, ser_str(mv[k].1)),
        decreases entries@.len() - i,
    {
        let name = copy_range(&entries[i].name, 0, entries[i].name.len());
        let sv = serialize_string(&entries[i].value);
        proof {
            assert(name@ =~= entries@[i as int].name@);
            assert(mv[i as int] == (entries@[i as int].name@, entries@[i as int].value@));
        }
        let ghost oldp = pairs@;
        pairs.push((name, sv));
        proof {
            assert forall|k: int| 0 <= k < i implies #[trigger] pair_views(pairs@)[k] == (
                mv[k].0,
                ser_str(mv[k].1),
            ) by {
                assert(pairs@[k] == oldp[k]);
                assert(pair_views(oldp)[k] == (mv[k].0, ser_str(mv[k].1)));
            }
            assert(pair_views(pairs@)[i as int] == (mv[i as int].0, ser_str(mv[i as int].1)));
        }
        i = i + 1;
    }
    proof {
        assert(pair_views(pairs@) =~~= str_members(mv));
    }
    serialize_object(&pairs)
}

/// The tile files an export produces, gathered onto `acc` in container
/// order; a row that does not lie on its zoom level under a flipping
/// scheme fails the export.
#[verifier::opaque]
pub open spec fn export_tiles(
    tiles: Seq<TileM>,
    i: int,
    scheme: Scheme,
    ext: Seq<u8>,
    acc: Seq<(Seq<Seq<u8>>, Seq<u8>)>,
) -> Result<Seq<(Seq<Seq<u8>>, Seq<u8>)>, InnerError>
    decreases tiles.len() - i,
{
    if i < 0 || i >= tiles.len() {
        Ok(acc)
    } else {
        let t = tiles[i];
        if !in_range_for(scheme, t.zoom, t.row) {
            Err(InnerError::PathEncoding)
        } else {
            export_tiles(
                tiles,
                i + 1,
                scheme,
                ext,
                acc.push((spec_encode_tile_path(t.zoom, t.column, t.row, scheme, ext), t.data)),
            )
        }
    }
}

proof fn lemma_export_tiles_step(
    tiles: Seq<TileM>,
    i: int,
    scheme: Scheme,
    ext: Seq<u8>,
    acc: Seq<(Seq<Seq<u8>>, Seq<u8>)>,
)
    requires
        0 <= i,
    ensures
        i >= tiles.len() ==> export_tiles(tiles, i, scheme, ext, acc) == Ok::<
            Seq<(Seq<Seq<u8>>, Seq<u8>)>,
            InnerError,
        >(acc),
        i < tiles.len() ==> ({
            let t = tiles[i];
            &&& (!in_range_for(scheme, t.zoom, t.row) ==> export_tiles(tiles, i, scheme, ext, acc)
                == Err::<Seq<(Seq<Seq<u8>>, Seq<u8>)>, InnerError>(InnerError::PathEncoding))
            &&& (in_range_for(scheme, t.zoom, t.row) ==> export_tiles(tiles, i, scheme, ext, acc)
                == export_tiles(
                tiles,
                i + 1,
                scheme,
                ext,
                acc.push((spec_encode_tile_path(t.zoom, t.column, t.row, scheme, ext), t.data)),
            ))
        }),
{
    reveal(export_tiles);
}

/// The grid files an export produces, gathered onto `acc` in container
/// order; any failure on a row fails the export.
#[verifier::opaque]
pub open spec fn export_grids(
    grids: Seq<GridM>,
    all_data: Seq<crate::container::GridDataM>,
    i: int,
    scheme: Scheme,
    cb: Seq<u8>,
    acc: Seq<(Seq<Seq<u8>>, Seq<u8>)>,
) -> Result<Seq<(Seq<Seq<u8>>, Seq<u8>)>, InnerError>
    decreases grids.len() - i,
{
    if i < 0 || i >= grids.len() {
        Ok(acc)
    } else {
        let g = grids[i];
        if !in_range_for(scheme, g.zoom, g.row) {
            Err(InnerError::PathEncoding)
        } else {
            match spec_export_grid_text(g, all_data, cb) {
                Err(k) => Err(k),
                Ok(text) => export_grids(
                    grids,
                    all_data,
                    i + 1,
                    scheme,
                    cb,
                    acc.push(
                        (spec_encode_tile_path(g.zoom, g.column, g.row, scheme, grid_ext()), text),
                    ),
                ),
            }
        }
    }
}

proof fn lemma_export_grids_step(
    grids: Seq<GridM>,
    all_data: Seq<crate::container::GridDataM>,
    i: int,
    scheme: Scheme,
    cb: Seq<u8>,
    acc: Seq<(Seq<Seq<u8>>, Seq<u8>)>,
)
    requires
        0 <= i,
    ensures
        i >= grids.len() ==> export_grids(grids, all_data, i, scheme, cb, acc) == Ok::<
            Seq<(Seq<Seq<u8>>, Seq<u8>)>,
            InnerError,
        >(acc),
        i < grids.len() ==> ({
            let g = grids[i];
            &&& (!in_range_for(scheme, g.zoom, g.row) ==> export_grids(
                grids,
                all_data,
                i,
                scheme,
                cb,
                acc,
            ) == Err::<Seq<(Seq<Seq<u8>>, Seq<u8>)>, InnerError>(InnerError::PathEncoding))
            &&& (in_range_for(scheme, g.zoom, g.row) ==> ({
                match spec_export_grid_text(g, all_data, cb) {
                    Err(k) => export_grids(grids, all_data, i, scheme, cb, acc) == Err::<
                        Seq<(Seq<Seq<u8>>, Seq<u8>)>,
                        InnerError,
                    >(k),
                    Ok(text) => export_grids(grids, all_data, i, scheme, cb, acc) == export_grids(
                        grids,
                        all_data,
                        i + 1,
                        scheme,
                        cb,
                        acc.push(
                            (
                                spec_encode_tile_path(g.zoom, g.column, g.row, scheme, grid_ext()),
                                text,
                            ),
                        ),
                    ),
                }
            }))
        }),
{
    reveal(export_grids);
}

/// What an export produces from a container: `metadata.json` first, then
/// every tile file, then every grid file, in container order; or the
/// category of the first failure. Unlike import, any row failure fails
/// the whole export.
pub open spec fn spec_export(
    m: ContainerM,
    scheme: Scheme,
    fmt: ImageFormat,
    cb: Seq<u8>,
) -> Result<Seq<(Seq<Seq<u8>>, Seq<u8>)>, InnerError> {
    let meta_file = (seq![metadata_filename()], ser_metadata(m.metadata));
    match export_tiles(m.tiles, 0, scheme, spec_extension(fmt), seq![meta_file]) {
        Err(k) => Err(k),
        Ok(acc) => export_grids(m.grids, m.grid_data, 0, scheme, cb, acc),
    }
}

/// Renders a container as the files of a tile-pyramid directory tree.
pub fn export(
    container: &Container,
    flag_scheme: Scheme,
    flag_image_format: ImageFormat,
    flag_grid_callback: &Vec<u8>,
) -> (r: Result<Vec<OutFile>, MBTileError>)
    ensures
        match r {
            Ok(files) => spec_export(
                container@,
                flag_scheme,
                flag_image_format,
                flag_grid_callback@,
            ) == Ok::<Seq<(Seq<Seq<u8>>, Seq<u8>)>, InnerError>(outfile_views(files@)),
            Err(e) => spec_export(container@, flag_scheme, flag_image_format, flag_grid_callback@)
                == Err::<Seq<(Seq<Seq<u8>>, Seq<u8>)>, InnerError>(e.source),
        },
{
    let mut files: Vec<OutFile> = Vec::new();
    let meta_text = metadata(&container.metadata);
    let mname: Vec<u8> = vec![
        109u8,
        101u8,
        116u8,
        97u8,
        100u8,
        97u8,
        116u8,
        97u8,
        46u8,
        106u8,
        115u8,
        111u8,
        110u8,
    ];
    proof {
        assert(mname@ =~= metadata_filename());
    }
    let mut mpath: Vec<Vec<u8>> = Vec::new();
    mpath.push(mname);
    files.push(OutFile { path: mpath, data: meta_text });
    let ghost acc0 = outfile_views(files@);
    proof {
        assert(container@.metadata =~~= container.metadata@.map_values(
            |m: MetadataEntry| (m.name@, m.value@),
        ));
        assert(acc0 =~~= seq![
            (seq![metadata_filename()], ser_metadata(container@.metadata)),
        ]);
    }
    let ext = get_extension(flag_image_format);
    let mut i: usize = 0;
    while i < container.tiles.len()
        invariant
            0 <= i <= container.tiles@.len(),
            container@.tiles.len() == container.tiles@.len(),
            forall|k: int|
                0 <= k < container.tiles@.len() ==> #[trigger] container@.tiles[k]
                    == container.tiles@[k]@,
            ext@ == spec_extension(flag_image_format),
            acc0 == seq![(seq![metadata_filename()], ser_metadata(container@.metadata))],
            export_tiles(container@.tiles, 0, flag_scheme, ext@, acc0) == export_tiles(
                container@.tiles,
                i as int,
                flag_scheme,
                ext@,
                outfile_views(files@),
            ),
        decreases container.tiles@.len() - i,
    {
        let ghost facc = outfile_views(files@);
        proof {
            lemma_export_tiles_step(container@.tiles, i as int, flag_scheme, ext@, facc);
        }
        let t = &container.tiles[i];
        let p = match encode_tile_path(t.zoom, t.column, t.row, flag_scheme, &ext) {
            Ok(p) => p,
            Err(e) => {
                return Err(e);
            },
        };
        let d = copy_range(&t.data, 0, t.data.len());
        proof {
            assert(d@ =~= container@.tiles[i as int].data);
        }
        files.push(OutFile { path: p, data: d });
        proof {
            assert(outfile_views(files@) =~~= facc.push(
                (
                    spec_encode_tile_path(
                        container@.tiles[i as int].zoom,
                        container@.tiles[i as int].column,
                        container@.tiles[i as int].row,
                        flag_scheme,
                        ext@,
                    ),
                    container@.tiles[i as int].data,
                ),
            ));
        }
        i = i + 1;
    }
    proof {
        lemma_export_tiles_step(
            container@.tiles,
            i as int,
            flag_scheme,
            ext@,
            outfile_views(files@),
        );
    }
    let ghost tacc = outfile_views(files@);
    let gext: Vec<u8> = vec![
        103u8,
        114u8,
        105u8,
        100u8,
        46u8,
        106u8,
        115u8,
        111u8,
        110u8,
    ];
    proof {
        assert(gext@ =~= grid_ext());
    }
    let mut j: usize = 0;
    while j < container.grids.len()
        invariant
            0 <= j <= container.grids@.len(),
            container@.grids.len() == container.grids@.len(),
            forall|k: int|
                0 <= k < container.grids@.len() ==> #[trigger] container@.grids[k]
                    == container.grids@[k]@,
            gext@ == grid_ext(),
            acc0 == seq![(seq![metadata_filename()], ser_metadata(container@.metadata))],
            export_tiles(container@.tiles, 0, flag_scheme, spec_extension(flag_image_format), acc0)
                == Ok::<Seq<(Seq<Seq<u8>>, Seq<u8>)>, InnerError>(tacc),
            container@.grid_data == container.grid_data@.map_values(|d: GridDataEntry| d@),
            export_grids(
                container@.grids,
                container@.grid_data,
                0,
                flag_scheme,
                flag_grid_callback@,
                tacc,
            ) == export_grids(
                container@.grids,
                container@.grid_data,
                j as int,
                flag_scheme,
                flag_grid_callback@,
                outfile_views(files@),
            ),
        decreases container.grids@.len() - j,
    {
        let ghost facc = outfile_views(files@);
        proof {
            lemma_export_grids_step(
                container@.grids,
                container@.grid_data,
                j as int,
                flag_scheme,
                flag_grid_callback@,
                facc,
            );
        }
        let g = &container.grids[j];
        let p = match encode_tile_path(g.zoom, g.column, g.row, flag_scheme, &gext) {
            Ok(p) => p,
            Err(e) => {
                return Err(e);
            },
        };
        let text = match export_grid_text(&container.grids[j], &container.grid_data,
            flag_grid_callback) {
            Ok(v) => v,
            Err(e) => {
                return Err(e);
            },
        };
        files.push(OutFile { path: p, data: text });
        proof {
            assert(outfile_views(files@) =~~= facc.push(
                (
                    spec_encode_tile_path(
                        container@.grids[j as int].zoom,
                        container@.grids[j as int].column,
                        container@.grids[j as int].row,
                        flag_scheme,
                        grid_ext(),
                    ),
                    text@,
                ),
            ));
        }
        j = j + 1;
    }
    proof {
        lemma_export_grids_step(
            container@.grids,
            container@.grid_data,
            j as int,
            flag_scheme,
            flag_grid_callback@,
            outfile_views(files@),
        );
    }
    Ok(files)
}


proof fn lemma_import_step_wf(
    m: ContainerM,
    e: (Seq<Seq<u8>>, Seq<u8>),
    scheme: Scheme,
    fmt: ImageFormat,
)
    requires
        wf(m),
    ensures
        wf(import_step(m, e, scheme, fmt)),
{
    if e.0.len() == 3 && !hidden_entry(e.0) {
        match spec_decode_entry(e.0, scheme, fmt) {
            None => {},
            Some((z, x, y, kind)) => match kind {
                FileKind::Tile => {
                    lemma_insert_tile_wf(m, z, x, y, e.1);
                },
                FileKind::Grid => {
                    if spec_grid_parse(e.1) is Some {
                        crate::grid::lemma_apply_grid_wf(m, z, x, y, e.1);
                    }
                },
            },
        }
    }
}

proof fn lemma_import_fold_wf(
    m: ContainerM,
    es: Seq<(Seq<Seq<u8>>, Seq<u8>)>,
    scheme: Scheme,
    fmt: ImageFormat,
)
    requires
        wf(m),
    ensures
        wf(import_fold(m, es, scheme, fmt)),
    decreases es.len(),
{
    if es.len() > 0 {
        lemma_import_step_wf(m, es[0], scheme, fmt);
        lemma_import_fold_wf(import_step(m, es[0], scheme, fmt), es.skip(1), scheme, fmt);
    }
}

proof fn lemma_collect_meta_wf(ms: Seq<(Seq<u8>, Seq<u8>)>, i: int, m: ContainerM)
    requires
        wf(m),
        collect_meta(ms, i, m) is Some,
    ensures
        wf(collect_meta(ms, i, m)->Some_0),
    decreases ms.len() - i,
{
    if 0 <= i < ms.len() {
        match sp_full_string(ms[i].1) {
            None => {},
            Some(v) => {
                lemma_insert_meta_wf(m, ms[i].0, v);
                lemma_collect_meta_wf(ms, i + 1, spec_insert_meta(m, ms[i].0, v));
            },
        }
    }
}

/// Every container an import yields satisfies the container invariants:
/// tile and grid addresses are unique, metadata names are unique, and
/// every grid-data row refers to a grid that exists.
pub proof fn lemma_import_wf(
    es: Seq<(Seq<Seq<u8>>, Seq<u8>)>,
    meta: Option<Seq<u8>>,
    scheme: Scheme,
    fmt: ImageFormat,
)
    ensures
        spec_import(es, meta, scheme, fmt) is Ok ==> wf(spec_import(es, meta, scheme, fmt)->Ok_0),
{
    assert(wf(empty_container()));
    match meta {
        None => {
            lemma_import_fold_wf(empty_container(), es, scheme, fmt);
        },
        Some(t) => match sp_top_object(t) {
            None => {},
            Some(ms) => match collect_meta(ms, 0, empty_container()) {
                None => {},
                Some(m0) => {
                    lemma_collect_meta_wf(ms, 0, empty_container());
                    lemma_import_fold_wf(m0, es, scheme, fmt);
                },
            },
        },
    }
}


proof fn lemma_collect_meta_restores(pairs: Seq<(Seq<u8>, Seq<u8>)>, i: int, m: ContainerM)
    requires
        0 <= i <= pairs.len(),
        forall|a: int, b: int|
            i <= a < b < pairs.len() ==> (#[trigger] pairs[a]).0 != (#[trigger] pairs[b]).0,
        forall|k: int| i <= k < pairs.len() ==> !has_meta(m, (#[trigger] pairs[k]).0),
    ensures
        collect_meta(str_members(pairs), i, m) is Some,
        collect_meta(str_members(pairs), i, m)->Some_0 == (ContainerM {
            metadata: m.metadata + pairs.skip(i),
            ..m
        }),
    decreases pairs.len() - i,
{
    let ms = str_members(pairs);
    assert(ms.len() == pairs.len());
    if i >= pairs.len() {
        assert(pairs.skip(i) =~~= Seq::<(Seq<u8>, Seq<u8>)>::empty());
        assert(m.metadata + pairs.skip(i) =~~= m.metadata);
        assert(collect_meta(ms, i, m)->Some_0 =~~= (ContainerM {
            metadata: m.metadata + pairs.skip(i),
            ..m
        }));
    } else {
        assert(ms[i] == (pairs[i].0, ser_str(pairs[i].1)));
        lemma_string_round_trip(pairs[i].1);
        assert(sp_full_string(ms[i].1) == Some(pairs[i].1));
        assert(!has_meta(m, pairs[i].0));
        let m2 = spec_insert_meta(m, ms[i].0, pairs[i].1);
        assert(m2.metadata == m.metadata.push((pairs[i].0, pairs[i].1)));
        assert forall|k: int| i + 1 <= k < pairs.len() implies !has_meta(
            m2,
            (#[trigger] pairs[k]).0,
        ) by {
            if has_meta(m2, pairs[k].0) {
                let w = choose|w: int|
                    0 <= w < m2.metadata.len() && (#[trigger] m2.metadata[w]).0 == pairs[k].0;
                if w < m.metadata.len() {
                    assert(m2.metadata[w] == m.metadata[w]);
                    assert(has_meta(m, pairs[k].0));
                } else {
                    assert(m2.metadata[w] == (pairs[i].0, pairs[i].1));
                    assert(pairs[i].0 != pairs[k].0);
                }
            }
        }
        lemma_collect_meta_restores(pairs, i + 1, m2);
        assert((pairs[i].0, pairs[i].1) == pairs[i]);
        assert(m2.metadata + pairs.skip(i + 1) =~~= m.metadata + pairs.skip(i));
        assert(collect_meta(ms, i, m) == collect_meta(ms, i + 1, m2));
        assert(collect_meta(ms, i, m)->Some_0 =~~= (ContainerM {
            metadata: m.metadata + pairs.skip(i),
            ..m
        }));
    }
}

/// Round trip of the metadata codec: the rendered `metadata.json` of
/// entries with distinct names parses back as an object of strings, and
/// restoring it rebuilds exactly those entries.
pub proof fn lemma_metadata_round_trip(pairs: Seq<(Seq<u8>, Seq<u8>)>)
    requires
        meta_unique(pairs),
    ensures
        sp_top_object(ser_metadata(pairs)) == Some(str_members(pairs)),
        collect_meta(str_members(pairs), 0, empty_container()) is Some,
        collect_meta(str_members(pairs), 0, empty_container())->Some_0.metadata == pairs,
{
    lemma_object_of_strings_parse(pairs);
    assert(empty_container().metadata.len() == 0);
    lemma_collect_meta_restores(pairs, 0, empty_container());
    assert(pairs.skip(0) =~~= pairs);
    assert(empty_container().metadata + pairs =~~= pairs);
}


/// The file one tile exports to: its encoded path and its bytes.
pub open spec fn tile_file(t: TileM, scheme: Scheme, fmt: ImageFormat) -> (Seq<Seq<u8>>, Seq<u8>) {
    (spec_encode_tile_path(t.zoom, t.column, t.row, scheme, spec_extension(fmt)), t.data)
}

pub open spec fn tile_files(ts: Seq<TileM>, scheme: Scheme, fmt: ImageFormat) -> Seq<
    (Seq<Seq<u8>>, Seq<u8>),
> {
    ts.map_values(|t: TileM| tile_file(t, scheme, fmt))
}

proof fn lemma_export_tiles_ok(
    ts: Seq<TileM>,
    i: int,
    scheme: Scheme,
    fmt: ImageFormat,
    acc: Seq<(Seq<Seq<u8>>, Seq<u8>)>,
)
    requires
        0 <= i <= ts.len(),
        forall|k: int|
            i <= k < ts.len() ==> in_range_for(scheme, (#[trigger] ts[k]).zoom, ts[k].row),
    ensures
        export_tiles(ts, i, scheme, spec_extension(fmt), acc) == Ok::<
            Seq<(Seq<Seq<u8>>, Seq<u8>)>,
            InnerError,
        >(acc + tile_files(ts, scheme, fmt).skip(i)),
    decreases ts.len() - i,
{
    lemma_export_tiles_step(ts, i, scheme, spec_extension(fmt), acc);
    if i >= ts.len() {
        assert(tile_files(ts, scheme, fmt).skip(i) =~~= Seq::<(Seq<Seq<u8>>, Seq<u8>)>::empty());
        assert(acc + tile_files(ts, scheme, fmt).skip(i) =~~= acc);
    } else {
        let acc2 = acc.push(
            (
                spec_encode_tile_path(
                    ts[i].zoom,
                    ts[i].column,
                    ts[i].row,
                    scheme,
                    spec_extension(fmt),
                ),
                ts[i].data,
            ),
        );
        lemma_export_tiles_ok(ts, i + 1, scheme, fmt, acc2);
        assert(tile_files(ts, scheme, fmt)[i] == tile_file(ts[i], scheme, fmt));
        assert(acc2 + tile_files(ts, scheme, fmt).skip(i + 1) =~~= acc + tile_files(
            ts,
            scheme,
            fmt,
        ).skip(i));
    }
}

proof fn lemma_import_tile_files(
    m: ContainerM,
    ts: Seq<TileM>,
    scheme: Scheme,
    fmt: ImageFormat,
    i: int,
)
    requires
        scheme != Scheme::Wms,
        0 <= i <= ts.len(),
        forall|a: int, b: int|
            i <= a < b < ts.len() ==> !tile_keyed(
                #[trigger] ts[a],
                (#[trigger] ts[b]).zoom,
                ts[b].column,
                ts[b].row,
            ),
        forall|k: int|
            i <= k < ts.len() ==> !has_tile(m, (#[trigger] ts[k]).zoom, ts[k].column, ts[k].row),
        forall|k: int|
            i <= k < ts.len() ==> in_range_for(scheme, (#[trigger] ts[k]).zoom, ts[k].row),
    ensures
        import_fold(m, tile_files(ts, scheme, fmt).skip(i), scheme, fmt) == (ContainerM {
            tiles: m.tiles + ts.skip(i),
            ..m
        }),
    decreases ts.len() - i,
{
    let files = tile_files(ts, scheme, fmt);
    if i >= ts.len() {
        assert(files.skip(i) =~~= Seq::<(Seq<Seq<u8>>, Seq<u8>)>::empty());
        assert(m.tiles + ts.skip(i) =~~= m.tiles);
        assert(import_fold(m, files.skip(i), scheme, fmt) =~~= (ContainerM {
            tiles: m.tiles + ts.skip(i),
            ..m
        }));
    } else {
        let t = ts[i];
        let e = tile_file(t, scheme, fmt);
        assert(files[i] == e);
        assert(files.skip(i)[0] == e);
        assert(files.skip(i).skip(1) =~~= files.skip(i + 1));
        // the encoded path is a visible three-component path that decodes back
        lemma_encode_not_hidden(t.zoom, t.column, t.row, scheme, spec_extension(fmt));
        assert(!hidden_entry(e.0)) by {
            if hidden_entry(e.0) {
                let w = choose|w: int|
                    0 <= w < e.0.len() && (#[trigger] e.0[w]).len() > 0 && e.0[w][0] == 46;
            }
        }
        assert(e.0.len() == 3);
        lemma_decode_encode(t.zoom, t.column, t.row, scheme, fmt, false);
        assert(spec_decode_tile_path(e.0, scheme, fmt) == spec_decode_entry(e.0, scheme, fmt));
        assert(spec_decode_entry(e.0, scheme, fmt) == Some(
            (t.zoom, t.column, t.row, FileKind::Tile),
        ));
        assert(!has_tile(m, t.zoom, t.column, t.row));
        let m2 = spec_insert_tile(m, t.zoom, t.column, t.row, e.1);
        assert(m2.tiles == m.tiles.push(
            TileM { zoom: t.zoom, column: t.column, row: t.row, data: t.data },
        ));
        assert(TileM { zoom: t.zoom, column: t.column, row: t.row, data: t.data } =~~= t);
        assert(import_step(m, e, scheme, fmt) == m2);
        assert forall|k: int| i + 1 <= k < ts.len() implies !has_tile(
            m2,
            (#[trigger] ts[k]).zoom,
            ts[k].column,
            ts[k].row,
        ) by {
            if has_tile(m2, ts[k].zoom, ts[k].column, ts[k].row) {
                let w = choose|w: int|
                    0 <= w < m2.tiles.len() && #[trigger] tile_keyed(
                        m2.tiles[w],
                        ts[k].zoom,
                        ts[k].column,
                        ts[k].row,
                    );
                if w < m.tiles.len() {
                    assert(m2.tiles[w] == m.tiles[w]);
                    assert(has_tile(m, ts[k].zoom, ts[k].column, ts[k].row));
                } else {
                    assert(m2.tiles[w] =~~= t);
                    assert(!tile_keyed(ts[i], ts[k].zoom, ts[k].column, ts[k].row));
                }
            }
        }
        lemma_import_tile_files(m2, ts, scheme, fmt, i + 1);
        assert(m2.tiles + ts.skip(i + 1) =~~= m.tiles + ts.skip(i));
        assert(import_fold(m, files.skip(i), scheme, fmt) == import_fold(
            m2,
            files.skip(i).skip(1),
            scheme,
            fmt,
        ));
    }
}

/// Part of the round trip: exporting a container of tiles and importing
/// the produced tile files restores exactly the tiles, byte for byte.
/// `Wms` is excluded: its tiles live eight directory levels deep, below
/// the three levels the import walk considers.
pub proof fn lemma_tile_files_round_trip(
    m: ContainerM,
    scheme: Scheme,
    fmt: ImageFormat,
    cb: Seq<u8>,
)
    requires
        scheme != Scheme::Wms,
        tiles_unique(m.tiles),
        forall|k: int|
            0 <= k < m.tiles.len() ==> in_range_for(scheme, (#[trigger] m.tiles[k]).zoom, m.tiles[k].row),
        m.grids.len() == 0,
    ensures
        spec_export(m, scheme, fmt, cb) is Ok,
        import_fold(
            empty_container(),
            spec_export(m, scheme, fmt, cb)->Ok_0.skip(1),
            scheme,
            fmt,
        ).tiles == m.tiles,
{
    let meta_file = (seq![metadata_filename()], ser_metadata(m.metadata));
    lemma_export_tiles_ok(m.tiles, 0, scheme, fmt, seq![meta_file]);
    let tacc = seq![meta_file] + tile_files(m.tiles, scheme, fmt).skip(0);
    lemma_export_grids_step(m.grids, m.grid_data, 0, scheme, cb, tacc);
    assert(spec_export(m, scheme, fmt, cb) == Ok::<Seq<(Seq<Seq<u8>>, Seq<u8>)>, InnerError>(
        tacc,
    ));
    assert(tacc.skip(1) =~~= tile_files(m.tiles, scheme, fmt).skip(0));
    lemma_import_tile_files(empty_container(), m.tiles, scheme, fmt, 0);
    assert(empty_container().tiles + m.tiles.skip(0) =~~= m.tiles);
}

} // verus!
