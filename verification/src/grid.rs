//! The interactivity-grid codec: JSONP unwrapping, the compressed payload,
//! and the decomposition of a grid object into its stored rows.
use vstd::prelude::*;
use flate2::read::ZlibDecoder;
use flate2::write::ZlibEncoder;
use flate2::Compression;
use std::io::Read;
use std::io::Write;
use crate::container::{
    Container, ContainerM, Grid, GridDataEntry, GridDataM, GridM, grid_keyed, has_grid, wf,
};
use crate::error::{InnerError, MBTileError};
use crate::json::{
    is_full_value, is_ws, lemma_object_raw_parse, lemma_top_object_raws_ok, pair_views,
    parse_full_string, parse_top_array, parse_top_object, raw_span_ok, raw_views, scan_value,
    ser_object, serialize_object, skip_ws, sp_full_string, sp_full_value, sp_scan_value,
    sp_top_array, sp_top_object, sp_ws,
};
use crate::util::{copy_range, vec_u8_eq};

verus! {

/// What a zlib stream decompresses to, if it is well formed. Decompression
/// is a function of the compressed bytes alone.
pub uninterp spec fn inflate_of(data: Seq<u8>) -> Option<Seq<u8>>;

/// What the zlib compressor produces for the given bytes at the default
/// level. The compressor is deterministic: the same input gives the same
/// stream.
pub uninterp spec fn deflate_of(data: Seq<u8>) -> Seq<u8>;

/// Relies on flate2's `ZlibEncoder`: compresses the bytes into a zlib
/// stream whose decompression restores them. Writing into an in-memory
/// `Vec` sink cannot fail, so the writer errors are impossible.
#[verifier::external_body]
pub fn zlib_compress(data: &Vec<u8>) -> (r: Vec<u8>)
    ensures
        r@ == deflate_of(data@),
        inflate_of(r@) == Some(data@),
{
    let mut encoder = ZlibEncoder::new(Vec::new(), Compression::default());
    encoder.write_all(data.as_slice()).expect("writing to a Vec sink cannot fail");
    encoder.finish().expect("writing to a Vec sink cannot fail")
}

/// Relies on flate2's `ZlibDecoder`: decompresses a zlib stream, reporting
/// a corrupt stream as `None`.
#[verifier::external_body]
pub fn zlib_decompress(data: &Vec<u8>) -> (r: Option<Vec<u8>>)
    ensures
        match r {
            Some(o) => inflate_of(data@) == Some(o@),
            None => inflate_of(data@) is None,
        },
{
    let mut decoder = ZlibDecoder::new(data.as_slice());
    let mut out = Vec::new();
    match decoder.read_to_end(&mut out) {
        Ok(_) => Some(out),
        Err(_) => None,
    }
}

/// A byte that may appear in a JSONP callback name.
pub open spec fn is_ident_byte(c: u8) -> bool {
    (48 <= c <= 57) || (65 <= c <= 90) || (97 <= c <= 122) || c == 95 || c == 36 || c == 46
}

/// The index of the first `(` at or after `i`, or the end of the input.
pub open spec fn lparen_from(s: Seq<u8>, i: int) -> int
    decreases s.len() - i,
{
    if 0 <= i && i < s.len() && s[i] != 40 {
        lparen_from(s, i + 1)
    } else {
        i
    }
}

/// The length of `s[..j]` with trailing whitespace removed.
pub open spec fn rtrim_from(s: Seq<u8>, j: int) -> int
    decreases j,
{
    if 0 < j <= s.len() && is_ws(s[j - 1]) {
        rtrim_from(s, j - 1)
    } else {
        j
    }
}

/// The index of the last `}` strictly before `j`, or -1.
pub open spec fn rbrace_from(s: Seq<u8>, j: int) -> int
    decreases j,
{
    if 0 < j <= s.len() {
        if s[j - 1] == 125 {
            j - 1
        } else {
            rbrace_from(s, j - 1)
        }
    } else {
        -1
    }
}

pub open spec fn all_ident_range(s: Seq<u8>, a: int, b: int) -> bool {
    forall|i: int| a <= i < b ==> is_ident_byte(#[trigger] s[i])
}

pub open spec fn all_ws_range(s: Seq<u8>, a: int, b: int) -> bool {
    forall|i: int| a <= i < b ==> is_ws(#[trigger] s[i])
}

/// The text with a JSONP wrapper removed: a callback name, optional
/// whitespace, `(`, an object body running to the last `}`, `)`, an
/// optional `;`, and trailing whitespace. Anything else is kept verbatim.
pub open spec fn spec_unwrap_jsonp(s: Seq<u8>) -> Seq<u8> {
    let p = lparen_from(s, 0);
    if !(0 <= p && p < s.len()) {
        s
    } else {
        let q = rtrim_from(s, p);
        if !(q >= 1 && all_ident_range(s, 0, q)) {
            s
        } else if !(p + 1 < s.len() && s[p + 1] == 123) {
            s
        } else {
            let e = rbrace_from(s, s.len() as int);
            if e < p + 1 {
                s
            } else if e + 1 < s.len() && s[e + 1] == 41 {
                let t: int = if e + 2 < s.len() && s[e + 2] == 59 {
                    e + 3
                } else {
                    e + 2
                };
                if all_ws_range(s, t, s.len() as int) {
                    s.subrange(p + 1, e + 1)
                } else {
                    s
                }
            } else {
                s
            }
        }
    }
}

proof fn lemma_lparen_bounds(s: Seq<u8>, i: int)
    requires
        0 <= i <= s.len(),
    ensures
        i <= lparen_from(s, i) <= s.len(),
        lparen_from(s, i) < s.len() ==> s[lparen_from(s, i)] == 40,
    decreases s.len() - i,
{
    if i < s.len() && s[i] != 40 {
        lemma_lparen_bounds(s, i + 1);
    }
}

proof fn lemma_rtrim_bounds(s: Seq<u8>, j: int)
    requires
        0 <= j <= s.len(),
    ensures
        0 <= rtrim_from(s, j) <= j,
    decreases j,
{
    if 0 < j && is_ws(s[j - 1]) {
        lemma_rtrim_bounds(s, j - 1);
    }
}

proof fn lemma_rbrace_bounds(s: Seq<u8>, j: int)
    requires
        0 <= j <= s.len(),
    ensures
        -1 <= rbrace_from(s, j) < j,
        rbrace_from(s, j) >= 0 ==> s[rbrace_from(s, j)] == 125,
    decreases j,
{
    if 0 < j && s[j - 1] != 125 {
        lemma_rbrace_bounds(s, j - 1);
    }
}

/// Removes a JSONP wrapper if the text carries one, else returns the text
/// unchanged.
pub fn unwrap_jsonp(s: &Vec<u8>) -> (r: Vec<u8>)
    ensures
        r@ == spec_unwrap_jsonp(s@),
{
    let n = s.len();
    proof {
        assert(s@.len() <= usize::MAX);
        lemma_lparen_bounds(s@, 0);
    }
    // first '('
    let mut p: usize = 0;
    while p < n && s[p] != 40
        invariant
            0 <= p <= s@.len(),
            n == s@.len(),
            lparen_from(s@, 0) == lparen_from(s@, p as int),
        decreases s@.len() - p,
    {
        p = p + 1;
    }
    if p >= n {
        return copy_range(s, 0, n);
    }
    // trim trailing whitespace off the prefix
    let mut q: usize = p;
    while q > 0 && (s[q - 1] == 32 || s[q - 1] == 9 || s[q - 1] == 10 || s[q - 1] == 13)
        invariant
            0 <= q <= p <= s@.len(),
            rtrim_from(s@, p as int) == rtrim_from(s@, q as int),
        decreases q,
    {
        q = q - 1;
    }
    if q < 1 {
        return copy_range(s, 0, n);
    }
    // the prefix before the whitespace must be a callback name
    let mut k: usize = 0;
    while k < q
        invariant
            0 <= k <= q <= s@.len(),
            n == s@.len(),
            p as int == lparen_from(s@, 0),
            p < n,
            q as int == rtrim_from(s@, p as int),
            1 <= q,
            forall|i: int| 0 <= i < k ==> is_ident_byte(#[trigger] s@[i]),
        decreases q - k,
    {
        let c = s[k];
        if !((48 <= c && c <= 57) || (65 <= c && c <= 90) || (97 <= c && c <= 122) || c == 95
            || c == 36 || c == 46) {
            proof {
                assert(!is_ident_byte(s@[k as int]));
            }
            return copy_range(s, 0, n);
        }
        k = k + 1;
    }
    if !(p + 1 < n && s[p + 1] == 123) {
        return copy_range(s, 0, n);
    }
    // last '}'
    proof {
        lemma_rbrace_bounds(s@, s@.len() as int);
    }
    let mut j: usize = n;
    let mut e_found: bool = false;
    let mut e: usize = 0;
    while j > 0 && !e_found
        invariant
            0 <= j <= s@.len(),
            n == s@.len(),
            !e_found ==> rbrace_from(s@, n as int) == rbrace_from(s@, j as int),
            e_found ==> j > 0 && rbrace_from(s@, n as int) == e as int && e < n,
        decreases j, (if e_found { 0int } else { 1int }),
    {
        if s[j - 1] == 125 {
            e = j - 1;
            e_found = true;
        } else {
            j = j - 1;
        }
    }
    if !e_found {
        proof {
            assert(rbrace_from(s@, n as int) == rbrace_from(s@, 0));
        }
        return copy_range(s, 0, n);
    }
    if e < p + 1 {
        return copy_range(s, 0, n);
    }
    if !(e + 1 < n && s[e + 1] == 41) {
        return copy_range(s, 0, n);
    }
    let t: usize = if e + 2 < n && s[e + 2] == 59 {
        e + 3
    } else {
        e + 2
    };
    let mut w: usize = t;
    while w < n
        invariant
            t <= w <= n,
            n == s@.len(),
            p as int == lparen_from(s@, 0),
            p < n,
            q as int == rtrim_from(s@, p as int),
            1 <= q,
            all_ident_range(s@, 0, q as int),
            p + 1 < n,
            s@[p as int + 1] == 123,
            e as int == rbrace_from(s@, n as int),
            e >= p + 1,
            e + 1 < n,
            s@[e as int + 1] == 41,
            t as int == (if e as int + 2 < n && s@[e as int + 2] == 59 {
                e as int + 3
            } else {
                e as int + 2
            }),
            forall|i: int| t <= i < w ==> is_ws(#[trigger] s@[i]),
        decreases n - w,
    {
        let c = s[w];
        if !(c == 32 || c == 9 || c == 10 || c == 13) {
            proof {
                assert(!is_ws(s@[w as int]));
            }
            return copy_range(s, 0, n);
        }
        w = w + 1;
    }
    copy_range(s, p + 1, e + 1)
}


pub open spec fn data_lit() -> Seq<u8> {
    seq![100u8, 97u8, 116u8, 97u8]
}

pub open spec fn keys_lit() -> Seq<u8> {
    seq![107u8, 101u8, 121u8, 115u8]
}

/// The index of the first member with this key at or after `i`, or -1.
pub open spec fn find_index(ms: Seq<(Seq<u8>, Seq<u8>)>, key: Seq<u8>, i: int) -> int
    decreases ms.len() - i,
{
    if i < 0 || i >= ms.len() {
        -1
    } else if ms[i].0 == key {
        i
    } else {
        find_index(ms, key, i + 1)
    }
}

/// The raw value of the first member with this key, if any.
pub open spec fn find_first(ms: Seq<(Seq<u8>, Seq<u8>)>, key: Seq<u8>) -> Option<Seq<u8>> {
    let i = find_index(ms, key, 0);
    if i < 0 {
        None
    } else {
        Some(ms[i].1)
    }
}

proof fn lemma_find_index_bounds(ms: Seq<(Seq<u8>, Seq<u8>)>, key: Seq<u8>, i: int)
    requires
        0 <= i <= ms.len(),
    ensures
        -1 <= find_index(ms, key, i) < ms.len(),
        find_index(ms, key, i) >= 0 ==> find_index(ms, key, i) >= i && ms[find_index(
            ms,
            key,
            i,
        )].0 == key,
    decreases ms.len() - i,
{
    if i < ms.len() && ms[i].0 != key {
        lemma_find_index_bounds(ms, key, i + 1);
    }
}

/// The members with the first `data` member removed, if one exists.
pub open spec fn remove_data(ms: Seq<(Seq<u8>, Seq<u8>)>) -> Seq<(Seq<u8>, Seq<u8>)> {
    let i = find_index(ms, data_lit(), 0);
    if i < 0 {
        ms
    } else {
        ms.remove(i)
    }
}

fn find_key_index(ms: &Vec<(Vec<u8>, Vec<u8>)>, key: &Vec<u8>) -> (r: Option<usize>)
    ensures
        match r {
            Some(i) => find_index(pair_views(ms@), key@, 0) == i as int && i < ms@.len(),
            None => find_index(pair_views(ms@), key@, 0) == -1,
        },
{
    let mut i: usize = 0;
    while i < ms.len()
        invariant
            0 <= i <= ms@.len(),
            find_index(pair_views(ms@), key@, 0) == find_index(pair_views(ms@), key@, i as int),
        decreases ms@.len() - i,
    {
        proof {
            assert(pair_views(ms@)[i as int] == (ms@[i as int].0@, ms@[i as int].1@));
        }
        if vec_u8_eq(&ms[i].0, key) {
            return Some(i);
        }
        i = i + 1;
    }
    None
}

/// The grid-data rows a grid contributes: for each string entry of the
/// `keys` array that is non-empty and present in the `data` object, one
/// row holding the key and its raw JSON value.
pub open spec fn grid_rows_from(
    items: Seq<Seq<u8>>,
    data_members: Seq<(Seq<u8>, Seq<u8>)>,
    zoom: u32,
    column: u32,
    row: u32,
    i: int,
    acc: Seq<GridDataM>,
) -> Seq<GridDataM>
    decreases items.len() - i,
{
    if i < 0 || i >= items.len() {
        acc
    } else {
        let next = match sp_full_string(items[i]) {
            None => acc,
            Some(k) => if k.len() == 0 {
                acc
            } else {
                match find_first(data_members, k) {
                    None => acc,
                    Some(vraw) => acc.push(
                        GridDataM { zoom, column, row, key_name: k, key_json: vraw },
                    ),
                }
            },
        };
        grid_rows_from(items, data_members, zoom, column, row, i + 1, next)
    }
}

pub open spec fn spec_grid_rows(
    members: Seq<(Seq<u8>, Seq<u8>)>,
    remainder: Seq<(Seq<u8>, Seq<u8>)>,
    zoom: u32,
    column: u32,
    row: u32,
) -> Seq<GridDataM> {
    match find_first(remainder, keys_lit()) {
        None => Seq::<GridDataM>::empty(),
        Some(keys_raw) => match sp_top_array(keys_raw) {
            None => Seq::<GridDataM>::empty(),
            Some(items) => match find_first(members, data_lit()) {
                None => Seq::<GridDataM>::empty(),
                Some(data_raw) => match sp_top_object(data_raw) {
                    None => Seq::<GridDataM>::empty(),
                    Some(dms) => grid_rows_from(
                        items,
                        dms,
                        zoom,
                        column,
                        row,
                        0,
                        Seq::<GridDataM>::empty(),
                    ),
                },
            },
        },
    }
}

/// What a grid file's text parses to: the members of the top-level object
/// after JSONP unwrapping, or nothing if the text is not such an object.
pub open spec fn spec_grid_parse(content: Seq<u8>) -> Option<Seq<(Seq<u8>, Seq<u8>)>> {
    sp_top_object(spec_unwrap_jsonp(content))
}

/// The category a grid file fails with when it does not parse as an
/// object: the structural category when the unwrapped text is a
/// well-formed JSON value of another shape, the parse category when it is
/// not JSON at all.
pub open spec fn spec_grid_error(content: Seq<u8>) -> InnerError {
    if sp_full_value(spec_unwrap_jsonp(content)) {
        InnerError::BadShape
    } else {
        InnerError::Parse
    }
}

/// The effect of importing one grid file at a canonical address: the
/// `data` member is removed, the remainder is re-serialized and
/// compressed into a grid row, and the key rows are added; an occupied
/// address drops the whole grid.
pub open spec fn spec_apply_grid(
    m: ContainerM,
    zoom: u32,
    column: u32,
    row: u32,
    content: Seq<u8>,
) -> ContainerM
    recommends
        spec_grid_parse(content) is Some,
{
    let members = spec_grid_parse(content)->Some_0;
    let remainder = remove_data(members);
    let payload = deflate_of(ser_object(remainder));
    if has_grid(m, zoom, column, row) {
        m
    } else {
        let rows = spec_grid_rows(members, remainder, zoom, column, row);
        ContainerM {
            grids: m.grids.push(GridM { zoom, column, row, payload }),
            grid_data: m.grid_data + rows,
            ..m
        }
    }
}

/// Decomposes one grid file and inserts its rows at the given canonical
/// address; fails, changing nothing, when the text is not a JSON object:
/// with the structural category when it is JSON of another shape, and the
/// parse category when it is not JSON at all.
#[verifier::rlimit(100)]
pub fn insert_grid_json(
    grid_content: &Vec<u8>,
    zoom: u32,
    column: u32,
    row: u32,
    container: &mut Container,
) -> (r: Result<(), MBTileError>)
    ensures
        match r {
            Ok(_) => spec_grid_parse(grid_content@) is Some && final(container)@
                == spec_apply_grid(old(container)@, zoom, column, row, grid_content@),
            Err(e) => spec_grid_parse(grid_content@) is None && final(container)@ == old(
                container,
            )@ && e.source == spec_grid_error(grid_content@),
        },
{
    let unwrapped = unwrap_jsonp(grid_content);
    let members = match parse_top_object(&unwrapped) {
        Some(ms) => ms,
        None => {
            if is_full_value(&unwrapped) {
                return Err(
                    MBTileError::with_source(
                        InnerError::BadShape,
                        "the grid is not a JSON object",
                    ),
                );
            }
            return Err(
                MBTileError::with_source(InnerError::Parse, "the grid is not valid JSON"),
            );
        },
    };
    let ghost membersv = pair_views(members@);
    let data_key: Vec<u8> = vec![100u8, 97u8, 116u8, 97u8];
    let keys_key: Vec<u8> = vec![107u8, 101u8, 121u8, 115u8];
    proof {
        assert(data_key@ =~= data_lit());
        assert(keys_key@ =~= keys_lit());
    }
    // the remainder: every member but the first "data"
    let mut remainder: Vec<(Vec<u8>, Vec<u8>)> = Vec::new();
    let data_idx: Option<usize> = find_key_index(&members, &data_key);
    let skip_at: usize = match data_idx {
        Some(i) => i,
        None => members.len(),
    };
    let mut i: usize = 0;
    while i < members.len()
        invariant
            0 <= i <= members@.len(),
            skip_at as int == (if find_index(pair_views(members@), data_lit(), 0) < 0 {
                members@.len() as int
            } else {
                find_index(pair_views(members@), data_lit(), 0)
            }),
            pair_views(remainder@) =~~= (if i <= skip_at {
                pair_views(members@).take(i as int)
            } else {
                pair_views(members@).take(skip_at as int) + pair_views(members@).subrange(
                    skip_at as int + 1,
                    i as int,
                )
            }),
        decreases members@.len() - i,
    {
        if i != skip_at {
            let kcopy = copy_range(&members[i].0, 0, members[i].0.len());
            let vcopy = copy_range(&members[i].1, 0, members[i].1.len());
            let ghost pre = pair_views(remainder@);
            remainder.push((kcopy, vcopy));
            proof {
                assert(pair_views(remainder@) =~~= pre.push(
                    (members@[i as int].0@, members@[i as int].1@),
                ));
                assert(pair_views(members@)[i as int] == (
                    members@[i as int].0@,
                    members@[i as int].1@,
                ));
            }
        }
        proof {
            if i + 1 <= skip_at {
                assert(pair_views(remainder@) =~~= pair_views(members@).take(i as int + 1));
            } else {
                assert(pair_views(remainder@) =~~= pair_views(members@).take(skip_at as int)
                    + pair_views(members@).subrange(skip_at as int + 1, i as int + 1));
            }
        }
        i = i + 1;
    }
    proof {
        lemma_find_index_bounds(membersv, data_lit(), 0);
        if find_index(membersv, data_lit(), 0) < 0 {
            assert(pair_views(remainder@) =~~= membersv.take(membersv.len() as int));
            assert(pair_views(remainder@) =~~= remove_data(membersv));
        } else {
            assert(pair_views(remainder@) =~~= membersv.take(skip_at as int)
                + membersv.subrange(skip_at as int + 1, membersv.len() as int));
            assert(pair_views(remainder@) =~~= membersv.remove(skip_at as int));
            assert(pair_views(remainder@) =~~= remove_data(membersv));
        }
    }
    let ghost remv = remove_data(membersv);
    let ser = serialize_object(&remainder);
    let payload = zlib_compress(&ser);
    let ghost pre = container@;
    if !container.insert_grid_row(zoom, column, row, payload) {
        proof {
            assert(container@ =~~= spec_apply_grid(pre, zoom, column, row, grid_content@));
        }
        return Ok(());
    }
    let ghost mid = container@;
    // the key rows
    let keys_idx = match find_key_index(&remainder, &keys_key) {
        Some(i) => i,
        None => {
            proof {
                assert(spec_grid_rows(membersv, remv, zoom, column, row)
                    =~= Seq::<GridDataM>::empty());
                assert(mid.grid_data + Seq::<GridDataM>::empty() =~= mid.grid_data);
                assert(container@ =~~= spec_apply_grid(pre, zoom, column, row, grid_content@));
            }
            return Ok(());
        },
    };
    proof {
        assert(pair_views(remainder@)[keys_idx as int] == (
            remainder@[keys_idx as int].0@,
            remainder@[keys_idx as int].1@,
        ));
    }
    let items = match parse_top_array(&remainder[keys_idx].1) {
        Some(v) => v,
        None => {
            proof {
                assert(spec_grid_rows(membersv, remv, zoom, column, row)
                    =~= Seq::<GridDataM>::empty());
                assert(mid.grid_data + Seq::<GridDataM>::empty() =~= mid.grid_data);
                assert(container@ =~~= spec_apply_grid(pre, zoom, column, row, grid_content@));
            }
            return Ok(());
        },
    };
    let dm_idx = match data_idx {
        Some(i) => i,
        None => {
            proof {
                assert(spec_grid_rows(membersv, remv, zoom, column, row)
                    =~= Seq::<GridDataM>::empty());
                assert(mid.grid_data + Seq::<GridDataM>::empty() =~= mid.grid_data);
                assert(container@ =~~= spec_apply_grid(pre, zoom, column, row, grid_content@));
            }
            return Ok(());
        },
    };
    proof {
        lemma_find_index_bounds(membersv, data_lit(), 0);
        assert(pair_views(members@)[dm_idx as int] == (
            members@[dm_idx as int].0@,
            members@[dm_idx as int].1@,
        ));
    }
    let data_members = match parse_top_object(&members[dm_idx].1) {
        Some(v) => v,
        None => {
            proof {
                assert(spec_grid_rows(membersv, remv, zoom, column, row)
                    =~= Seq::<GridDataM>::empty());
                assert(mid.grid_data + Seq::<GridDataM>::empty() =~= mid.grid_data);
                assert(container@ =~~= spec_apply_grid(pre, zoom, column, row, grid_content@));
            }
            return Ok(());
        },
    };
    let ghost itemsv = raw_views(items@);
    let ghost dmsv = pair_views(data_members@);
    let ghost target = spec_grid_rows(membersv, remv, zoom, column, row);
    proof {
        assert(target == grid_rows_from(
            itemsv,
            dmsv,
            zoom,
            column,
            row,
            0,
            Seq::<GridDataM>::empty(),
        ));
    }
    let mut j: usize = 0;
    let ghost mut acc: Seq<GridDataM> = Seq::<GridDataM>::empty();
    while j < items.len()
        invariant
            0 <= j <= items@.len(),
            itemsv == raw_views(items@),
            dmsv == pair_views(data_members@),
            container@ == (ContainerM { grid_data: mid.grid_data + acc, ..mid }),
            grid_rows_from(itemsv, dmsv, zoom, column, row, 0, Seq::<GridDataM>::empty())
                == grid_rows_from(itemsv, dmsv, zoom, column, row, j as int, acc),
        decreases items@.len() - j,
    {
        let ghost acc0 = acc;
        proof {
            assert(raw_views(items@)[j as int] == items@[j as int]@);
        }
        match parse_full_string(&items[j]) {
            None => {
                proof {
                    assert(sp_full_string(itemsv[j as int]) is None);
                }
            },
            Some(k) => {
                proof {
                    assert(sp_full_string(itemsv[j as int]) == Some(k@));
                }
                if k.len() > 0 {
                    match find_key_index(&data_members, &k) {
                        None => {
                            proof {
                                assert(find_first(dmsv, k@) is None);
                            }
                        },
                        Some(di) => {
                            proof {
                                assert(pair_views(data_members@)[di as int] == (
                                    data_members@[di as int].0@,
                                    data_members@[di as int].1@,
                                ));
                                lemma_find_index_bounds(dmsv, k@, 0);
                                assert(find_first(dmsv, k@) == Some(dmsv[di as int].1));
                            }
                            let kj = copy_range(
                                &data_members[di].1,
                                0,
                                data_members[di].1.len(),
                            );
                            proof {
                                assert(kj@ =~= data_members@[di as int].1@);
                            }
                            let entry = GridDataEntry {
                                zoom,
                                column,
                                row,
                                key_name: k,
                                key_json: kj,
                            };
                            let ghost ev = entry@;
                            container.push_grid_data(entry);
                            proof {
                                acc = acc.push(ev);
                                assert(container@ =~~= (ContainerM {
                                    grid_data: mid.grid_data + acc,
                                    ..mid
                                }));
                            }
                        },
                    }
                }
            },
        }
        proof {
            assert(grid_rows_from(itemsv, dmsv, zoom, column, row, j as int, acc0)
                == grid_rows_from(itemsv, dmsv, zoom, column, row, j as int + 1, acc));
        }
        j = j + 1;
    }
    proof {
        assert(grid_rows_from(itemsv, dmsv, zoom, column, row, j as int, acc) == acc);
        assert(container@ =~~= spec_apply_grid(pre, zoom, column, row, grid_content@));
    }
    Ok(())
}


/// Gathers, in container order, the grid-data rows of one grid as object
/// members, trimming the whitespace around each stored JSON value;
/// nothing is yielded if any stored value is not one well-formed JSON
/// value, since this system only stores well-formed ones.
#[verifier::opaque]
pub open spec fn collect_grid_data(
    all: Seq<GridDataM>,
    i: int,
    zoom: u32,
    column: u32,
    row: u32,
    acc: Seq<(Seq<u8>, Seq<u8>)>,
) -> Option<Seq<(Seq<u8>, Seq<u8>)>>
    decreases all.len() - i,
{
    if i < 0 || i >= all.len() {
        Some(acc)
    } else {
        let d = all[i];
        if d.zoom == zoom && d.column == column && d.row == row {
            let a = sp_ws(d.key_json, 0);
            match sp_scan_value(d.key_json, a) {
                None => None,
                Some(j) => if 0 <= a <= j <= d.key_json.len() && sp_ws(d.key_json, j)
                    == d.key_json.len() {
                    collect_grid_data(
                        all,
                        i + 1,
                        zoom,
                        column,
                        row,
                        acc.push((d.key_name, d.key_json.subrange(a, j))),
                    )
                } else {
                    None
                },
            }
        } else {
            collect_grid_data(all, i + 1, zoom, column, row, acc)
        }
    }
}


proof fn lemma_collect_step(
    all: Seq<GridDataM>,
    i: int,
    zoom: u32,
    column: u32,
    row: u32,
    acc: Seq<(Seq<u8>, Seq<u8>)>,
)
    requires
        0 <= i,
    ensures
        i >= all.len() ==> collect_grid_data(all, i, zoom, column, row, acc) == Some(acc),
        i < all.len() ==> ({
            let d = all[i];
            let a = sp_ws(d.key_json, 0);
            &&& (!(d.zoom == zoom && d.column == column && d.row == row)
                ==> collect_grid_data(all, i, zoom, column, row, acc) == collect_grid_data(
                all,
                i + 1,
                zoom,
                column,
                row,
                acc,
            ))
            &&& ((d.zoom == zoom && d.column == column && d.row == row
                && sp_scan_value(d.key_json, a) is None) ==> collect_grid_data(
                all,
                i,
                zoom,
                column,
                row,
                acc,
            ) is None)
            &&& ((d.zoom == zoom && d.column == column && d.row == row
                && sp_scan_value(d.key_json, a) is Some) ==> ({
                let j = sp_scan_value(d.key_json, a)->Some_0;
                &&& (0 <= a <= j <= d.key_json.len() && sp_ws(d.key_json, j)
                    == d.key_json.len() ==> collect_grid_data(all, i, zoom, column, row, acc)
                    == collect_grid_data(
                    all,
                    i + 1,
                    zoom,
                    column,
                    row,
                    acc.push((d.key_name, d.key_json.subrange(a, j))),
                ))
                &&& (!(0 <= a <= j <= d.key_json.len() && sp_ws(d.key_json, j)
                    == d.key_json.len()) ==> collect_grid_data(all, i, zoom, column, row, acc)
                    is None)
            }))
        }),
{
    reveal(collect_grid_data);
}

/// The text of one exported grid: the stored members with the rebuilt
/// `data` object appended, wrapped in the callback unless the callback is
/// empty, `false` or `null`.
pub open spec fn spec_grid_text(
    members: Seq<(Seq<u8>, Seq<u8>)>,
    data_members: Seq<(Seq<u8>, Seq<u8>)>,
    cb: Seq<u8>,
) -> Seq<u8> {
    let obj = ser_object(members.push((data_lit(), ser_object(data_members))));
    if cb == Seq::<u8>::empty() || cb == crate::json::false_lit() || cb
        == crate::json::null_lit() {
        obj
    } else {
        cb + seq![40u8] + obj + seq![41u8, 59u8]
    }
}

/// What exporting one grid produces from its payload and the container's
/// grid-data rows: the file's text, or the category of the first failure.
pub open spec fn spec_export_grid_text(
    g: GridM,
    all: Seq<GridDataM>,
    cb: Seq<u8>,
) -> Result<Seq<u8>, InnerError> {
    match inflate_of(g.payload) {
        None => Err(InnerError::Io),
        Some(text) => match sp_top_object(text) {
            None => Err(InnerError::BadShape),
            Some(members) => match collect_grid_data(
                all,
                0,
                g.zoom,
                g.column,
                g.row,
                Seq::<(Seq<u8>, Seq<u8>)>::empty(),
            ) {
                None => Err(InnerError::Parse),
                Some(dms) => Ok(spec_grid_text(members, dms, cb)),
            },
        },
    }
}

/// Rebuilds the text of one grid for export: decompresses the payload,
/// reattaches the `data` object from the grid-data rows, and applies the
/// callback wrapper.
#[verifier::rlimit(80)]
pub fn export_grid_text(g: &Grid, all: &Vec<GridDataEntry>, cb: &Vec<u8>) -> (r: Result<
    Vec<u8>,
    MBTileError,
>)
    ensures
        match r {
            Ok(v) => spec_export_grid_text(g@, all@.map_values(|d: GridDataEntry| d@), cb@)
                == Ok::<Seq<u8>, InnerError>(v@),
            Err(e) => spec_export_grid_text(g@, all@.map_values(|d: GridDataEntry| d@), cb@)
                == Err::<Seq<u8>, InnerError>(e.source),
        },
{
    let ghost allv = all@.map_values(|d: GridDataEntry| d@);
    let text = match zlib_decompress(&g.payload) {
        Some(t) => t,
        None => {
            return Err(
                MBTileError::with_source(InnerError::Io, "can't decompress the stored grid"),
            );
        },
    };
    let members = match parse_top_object(&text) {
        Some(ms) => ms,
        None => {
            return Err(
                MBTileError::with_source(
                    InnerError::BadShape,
                    "the stored grid is not a JSON object",
                ),
            );
        },
    };
    // gather this grid's data rows
    let mut dms: Vec<(Vec<u8>, Vec<u8>)> = Vec::new();
    let mut i: usize = 0;
    proof {
        assert(pair_views(dms@) =~= Seq::<(Seq<u8>, Seq<u8>)>::empty());
    }
    while i < all.len()
        invariant
            0 <= i <= all@.len(),
            allv == all@.map_values(|d: GridDataEntry| d@),
            g@.zoom == g.zoom && g@.column == g.column && g@.row == g.row,
            inflate_of(g@.payload) == Some(text@),
            sp_top_object(text@) is Some,
            collect_grid_data(
                allv,
                0,
                g.zoom,
                g.column,
                g.row,
                Seq::<(Seq<u8>, Seq<u8>)>::empty(),
            ) == collect_grid_data(allv, i as int, g.zoom, g.column, g.row, pair_views(dms@)),
        decreases all@.len() - i,
    {
        let ghost acc0 = pair_views(dms@);
        proof {
            assert(allv[i as int] == all@[i as int]@);
            lemma_collect_step(allv, i as int, g.zoom, g.column, g.row, acc0);
        }
        let d = &all[i];
        if d.zoom == g.zoom && d.column == g.column && d.row == g.row {
            let a = skip_ws(&d.key_json, 0);
            let j = match scan_value(&d.key_json, a) {
                Some(j) => j,
                None => {
                    return Err(
                        MBTileError::with_source(
                            InnerError::Parse,
                            "can't parse a stored grid value as JSON",
                        ),
                    );
                },
            };
            let j2 = skip_ws(&d.key_json, j);
            if j2 != d.key_json.len() {
                return Err(
                    MBTileError::with_source(
                        InnerError::Parse,
                        "can't parse a stored grid value as JSON",
                    ),
                );
            }
            let kn = copy_range(&d.key_name, 0, d.key_name.len());
            let kv = copy_range(&d.key_json, a, j);
            proof {
                assert(kn@ =~= all@[i as int].key_name@);
            }
            dms.push((kn, kv));
            proof {
                assert(pair_views(dms@) =~~= acc0.push(
                    (allv[i as int].key_name, allv[i as int].key_json.subrange(a as int, j as int)),
                ));
            }
        }
        proof {
            assert(collect_grid_data(allv, i as int, g.zoom, g.column, g.row, acc0)
                == collect_grid_data(
                allv,
                i as int + 1,
                g.zoom,
                g.column,
                g.row,
                pair_views(dms@),
            ));
        }
        i = i + 1;
    }
    proof {
        lemma_collect_step(allv, i as int, g.zoom, g.column, g.row, pair_views(dms@));
    }
    let data_obj = serialize_object(&dms);
    let data_key: Vec<u8> = vec![100u8, 97u8, 116u8, 97u8];
    proof {
        assert(data_key@ =~= data_lit());
    }
    let mut members2 = members;
    let ghost membersv = pair_views(members2@);
    members2.push((data_key, data_obj));
    proof {
        assert(pair_views(members2@) =~~= membersv.push(
            (data_lit(), ser_object(pair_views(dms@))),
        ));
    }
    let obj = serialize_object(&members2);
    let empty_cb: Vec<u8> = Vec::new();
    let false_cb: Vec<u8> = vec![102u8, 97u8, 108u8, 115u8, 101u8];
    let null_cb: Vec<u8> = vec![110u8, 117u8, 108u8, 108u8];
    proof {
        assert(empty_cb@ =~= Seq::<u8>::empty());
        assert(false_cb@ =~= crate::json::false_lit());
        assert(null_cb@ =~= crate::json::null_lit());
    }
    if vec_u8_eq(cb, &empty_cb) || vec_u8_eq(cb, &false_cb) || vec_u8_eq(cb, &null_cb) {
        Ok(obj)
    } else {
        let mut out = copy_range(cb, 0, cb.len());
        out.push(40);
        crate::util::push_all(&mut out, &obj);
        out.push(41);
        out.push(59);
        proof {
            assert(out@ =~= cb@ + seq![40u8] + obj@ + seq![41u8, 59u8]);
        }
        Ok(out)
    }
}


proof fn lemma_grid_rows_keys(
    items: Seq<Seq<u8>>,
    data_members: Seq<(Seq<u8>, Seq<u8>)>,
    zoom: u32,
    column: u32,
    row: u32,
    i: int,
    acc: Seq<GridDataM>,
)
    requires
        forall|k: int|
            0 <= k < acc.len() ==> (#[trigger] acc[k]).zoom == zoom && acc[k].column == column
                && acc[k].row == row,
    ensures
        forall|k: int|
            0 <= k < grid_rows_from(items, data_members, zoom, column, row, i, acc).len()
                ==> (#[trigger] grid_rows_from(items, data_members, zoom, column, row, i, acc)[k]).zoom
                == zoom && grid_rows_from(items, data_members, zoom, column, row, i, acc)[k].column
                == column && grid_rows_from(items, data_members, zoom, column, row, i, acc)[k].row
                == row,
    decreases items.len() - i,
{
    if 0 <= i < items.len() {
        let next = match sp_full_string(items[i]) {
            None => acc,
            Some(k) => if k.len() == 0 {
                acc
            } else {
                match find_first(data_members, k) {
                    None => acc,
                    Some(vraw) => acc.push(
                        GridDataM { zoom, column, row, key_name: k, key_json: vraw },
                    ),
                }
            },
        };
        assert forall|k: int|
            0 <= k < next.len() implies (#[trigger] next[k]).zoom == zoom && next[k].column
            == column && next[k].row == row by {
            if k < acc.len() {
                assert(next[k] == acc[k]);
            }
        }
        lemma_grid_rows_keys(items, data_members, zoom, column, row, i + 1, next);
        assert(grid_rows_from(items, data_members, zoom, column, row, i, acc) == grid_rows_from(
            items,
            data_members,
            zoom,
            column,
            row,
            i + 1,
            next,
        ));
    } else {
        assert(grid_rows_from(items, data_members, zoom, column, row, i, acc) == acc);
    }
}

/// Applying one grid preserves the container invariants: the grid address
/// stays unique and every added grid-data row is anchored to the grid
/// being added.
pub proof fn lemma_apply_grid_wf(m: ContainerM, zoom: u32, column: u32, row: u32, content: Seq<u8>)
    requires
        wf(m),
    ensures
        wf(spec_apply_grid(m, zoom, column, row, content)),
{
    if !has_grid(m, zoom, column, row) {
        let m2 = spec_apply_grid(m, zoom, column, row, content);
        let members = spec_grid_parse(content)->Some_0;
        let remainder = remove_data(members);
        let rows = spec_grid_rows(members, remainder, zoom, column, row);
        assert forall|k: int|
            0 <= k < rows.len() implies (#[trigger] rows[k]).zoom == zoom && rows[k].column
            == column && rows[k].row == row by {
            match find_first(remainder, keys_lit()) {
                None => {},
                Some(keys_raw) => match sp_top_array(keys_raw) {
                    None => {},
                    Some(items) => match find_first(members, data_lit()) {
                        None => {},
                        Some(data_raw) => match sp_top_object(data_raw) {
                            None => {},
                            Some(dms) => {
                                lemma_grid_rows_keys(
                                    items,
                                    dms,
                                    zoom,
                                    column,
                                    row,
                                    0,
                                    Seq::<GridDataM>::empty(),
                                );
                            },
                        },
                    },
                },
            }
        }
        assert forall|i: int, j: int| 0 <= i < j < m2.grids.len() implies !grid_keyed(
            #[trigger] m2.grids[i],
            (#[trigger] m2.grids[j]).zoom,
            m2.grids[j].column,
            m2.grids[j].row,
        ) by {
            if j == m.grids.len() {
                assert(m2.grids[i] == m.grids[i]);
                assert(!grid_keyed(m.grids[i], zoom, column, row));
            } else {
                assert(m2.grids[i] == m.grids[i]);
                assert(m2.grids[j] == m.grids[j]);
            }
        }
        assert forall|k: int| 0 <= k < m2.grid_data.len() implies has_grid(
            m2,
            (#[trigger] m2.grid_data[k]).zoom,
            m2.grid_data[k].column,
            m2.grid_data[k].row,
        ) by {
            if k < m.grid_data.len() {
                assert(m2.grid_data[k] == m.grid_data[k]);
                assert(has_grid(
                    m,
                    m.grid_data[k].zoom,
                    m.grid_data[k].column,
                    m.grid_data[k].row,
                ));
                let w = choose|w: int|
                    0 <= w < m.grids.len() && #[trigger] grid_keyed(
                        m.grids[w],
                        m.grid_data[k].zoom,
                        m.grid_data[k].column,
                        m.grid_data[k].row,
                    );
                assert(grid_keyed(
                    m2.grids[w],
                    m2.grid_data[k].zoom,
                    m2.grid_data[k].column,
                    m2.grid_data[k].row,
                ));
            } else {
                assert(m2.grid_data[k] == rows[k - m.grid_data.len()]);
                assert(grid_keyed(
                    m2.grids[m.grids.len() as int],
                    m2.grid_data[k].zoom,
                    m2.grid_data[k].column,
                    m2.grid_data[k].row,
                ));
            }
        }
    }
}


proof fn lemma_lparen_at(s: Seq<u8>, i: int, p: int)
    requires
        0 <= i <= p < s.len(),
        forall|k: int| i <= k < p ==> s[k] != 40,
        s[p] == 40,
    ensures
        lparen_from(s, i) == p,
    decreases p - i,
{
    if i < p {
        lemma_lparen_at(s, i + 1, p);
    }
}

proof fn lemma_rbrace_at(s: Seq<u8>, j: int, e: int)
    requires
        0 <= e < j <= s.len(),
        forall|k: int| e < k < j ==> s[k] != 125,
        s[e] == 125,
    ensures
        rbrace_from(s, j) == e,
    decreases j,
{
    if e < j - 1 {
        lemma_rbrace_at(s, j - 1, e);
    }
}

/// Part of the round trip: a JSONP-wrapped object as the export emits it
/// — an identifier callback, the object text, `);` — unwraps back to the
/// object text.
pub proof fn lemma_unwrap_wrap(cb: Seq<u8>, obj: Seq<u8>)
    requires
        cb.len() >= 1,
        forall|i: int| 0 <= i < cb.len() ==> is_ident_byte(#[trigger] cb[i]),
        obj.len() >= 2,
        obj[0] == 123,
        obj.last() == 125,
    ensures
        spec_unwrap_jsonp(cb + seq![40u8] + obj + seq![41u8, 59u8]) == obj,
{
    let s = cb + seq![40u8] + obj + seq![41u8, 59u8];
    let p = cb.len() as int;
    let e = p + obj.len();
    assert(s.len() == e + 3);
    assert(s[p] == 40);
    assert forall|k: int| 0 <= k < p implies s[k] != 40 by {
        assert(s[k] == cb[k]);
        assert(is_ident_byte(cb[k]));
    }
    lemma_lparen_at(s, 0, p);
    assert(s[p - 1] == cb[cb.len() - 1]);
    assert(!is_ws(s[p - 1]));
    assert(rtrim_from(s, p) == p);
    assert forall|k: int| 0 <= k < p implies is_ident_byte(#[trigger] s[k]) by {
        assert(s[k] == cb[k]);
    }
    assert(s[p + 1] == obj[0]);
    assert(s[e] == obj.last());
    assert(s[e + 1] == 41);
    assert(s[e + 2] == 59);
    lemma_rbrace_at(s, s.len() as int, e);
    assert(all_ws_range(s, e + 3, s.len() as int));
    assert(s.subrange(p + 1, e + 1) =~= obj);
}

/// Part of the round trip: text that starts with a brace — an object the
/// export emits without a callback — is kept verbatim by the unwrapper.
pub proof fn lemma_unwrap_plain(obj: Seq<u8>)
    requires
        obj.len() >= 1,
        obj[0] == 123,
    ensures
        spec_unwrap_jsonp(obj) == obj,
{
    let p = lparen_from(obj, 0);
    lemma_lparen_bounds(obj, 0);
    if 0 <= p && p < obj.len() {
        // the prefix before the first parenthesis holds the brace, which
        // no callback name may contain
        assert(p >= 1);
        let q = rtrim_from(obj, p);
        lemma_rtrim_bounds(obj, p);
        if q >= 1 && all_ident_range(obj, 0, q) {
            assert(is_ident_byte(obj[0]));
            assert(false);
        }
    }
}


/// Part of the round trip of the grid codec: the text that import
/// compresses into a stored grid row — the serialized remainder of the
/// grid object — parses back to exactly that remainder. With the
/// compressor's round-trip clause, decompressing a stored payload at
/// export therefore recovers the members import stored.
pub proof fn lemma_grid_payload_text_round_trip(content: Seq<u8>)
    requires
        spec_grid_parse(content) is Some,
    ensures
        sp_top_object(ser_object(remove_data(spec_grid_parse(content)->Some_0))) == Some(
            remove_data(spec_grid_parse(content)->Some_0),
        ),
{
    let members = spec_grid_parse(content)->Some_0;
    let remainder = remove_data(members);
    lemma_top_object_raws_ok(spec_unwrap_jsonp(content));
    let di = find_index(members, data_lit(), 0);
    lemma_find_index_bounds(members, data_lit(), 0);
    assert forall|k: int| 0 <= k < remainder.len() implies raw_span_ok(
        (#[trigger] remainder[k]).1,
    ) by {
        if di < 0 {
            assert(remainder[k] == members[k]);
        } else {
            if k < di {
                assert(remainder[k] == members[k]);
            } else {
                assert(remainder[k] == members[k + 1]);
            }
        }
    }
    lemma_object_raw_parse(remainder);
}

} // verus!
