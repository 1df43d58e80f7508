//! The container model: tiles, metadata, grids and grid data as plain
//! rows, with key-uniqueness maintained by the insert operations. The
//! relational store that persists these rows lives outside the library.
use vstd::prelude::*;

verus! {

/// One tile: canonical bottom-origin address plus image bytes.
#[derive(Debug)]
pub struct Tile {
    pub zoom: u32,
    pub column: u32,
    pub row: u32,
    pub data: Vec<u8>,
}

/// One metadata entry, unique by name.
#[derive(Debug)]
pub struct MetadataEntry {
    pub name: Vec<u8>,
    pub value: Vec<u8>,
}

/// One interactivity grid: canonical address plus the compressed payload.
#[derive(Debug)]
pub struct Grid {
    pub zoom: u32,
    pub column: u32,
    pub row: u32,
    pub payload: Vec<u8>,
}

/// One key of a grid's `data` map, holding the value as JSON text.
#[derive(Debug)]
pub struct GridDataEntry {
    pub zoom: u32,
    pub column: u32,
    pub row: u32,
    pub key_name: Vec<u8>,
    pub key_json: Vec<u8>,
}

#[verifier::ext_equal]
pub ghost struct TileM {
    pub zoom: u32,
    pub column: u32,
    pub row: u32,
    pub data: Seq<u8>,
}

pub ghost struct GridM {
    pub zoom: u32,
    pub column: u32,
    pub row: u32,
    pub payload: Seq<u8>,
}

pub ghost struct GridDataM {
    pub zoom: u32,
    pub column: u32,
    pub row: u32,
    pub key_name: Seq<u8>,
    pub key_json: Seq<u8>,
}

#[verifier::ext_equal]
pub ghost struct ContainerM {
    pub tiles: Seq<TileM>,
    pub metadata: Seq<(Seq<u8>, Seq<u8>)>,
    pub grids: Seq<GridM>,
    pub grid_data: Seq<GridDataM>,
}

impl View for Tile {
    type V = TileM;

    open spec fn view(&self) -> TileM {
        TileM { zoom: self.zoom, column: self.column, row: self.row, data: self.data@ }
    }
}

impl View for Grid {
    type V = GridM;

    open spec fn view(&self) -> GridM {
        GridM { zoom: self.zoom, column: self.column, row: self.row, payload: self.payload@ }
    }
}

impl View for GridDataEntry {
    type V = GridDataM;

    open spec fn view(&self) -> GridDataM {
        GridDataM {
            zoom: self.zoom,
            column: self.column,
            row: self.row,
            key_name: self.key_name@,
            key_json: self.key_json@,
        }
    }
}

/// The container: the four row sets of the store.
#[derive(Debug)]
pub struct Container {
    pub tiles: Vec<Tile>,
    pub metadata: Vec<MetadataEntry>,
    pub grids: Vec<Grid>,
    pub grid_data: Vec<GridDataEntry>,
}

impl View for Container {
    type V = ContainerM;

    open spec fn view(&self) -> ContainerM {
        ContainerM {
            tiles: self.tiles@.map_values(|t: Tile| t@),
            metadata: self.metadata@.map_values(|m: MetadataEntry| (m.name@, m.value@)),
            grids: self.grids@.map_values(|g: Grid| g@),
            grid_data: self.grid_data@.map_values(|d: GridDataEntry| d@),
        }
    }
}

pub open spec fn empty_container() -> ContainerM {
    ContainerM {
        tiles: Seq::<TileM>::empty(),
        metadata: Seq::<(Seq<u8>, Seq<u8>)>::empty(),
        grids: Seq::<GridM>::empty(),
        grid_data: Seq::<GridDataM>::empty(),
    }
}

pub open spec fn tile_keyed(t: TileM, zoom: u32, column: u32, row: u32) -> bool {
    t.zoom == zoom && t.column == column && t.row == row
}

pub open spec fn grid_keyed(g: GridM, zoom: u32, column: u32, row: u32) -> bool {
    g.zoom == zoom && g.column == column && g.row == row
}

pub open spec fn has_tile(m: ContainerM, zoom: u32, column: u32, row: u32) -> bool {
    exists|i: int|
        0 <= i < m.tiles.len() && #[trigger] tile_keyed(m.tiles[i], zoom, column, row)
}

pub open spec fn has_grid(m: ContainerM, zoom: u32, column: u32, row: u32) -> bool {
    exists|i: int|
        0 <= i < m.grids.len() && #[trigger] grid_keyed(m.grids[i], zoom, column, row)
}

pub open spec fn has_meta(m: ContainerM, name: Seq<u8>) -> bool {
    exists|i: int| 0 <= i < m.metadata.len() && (#[trigger] m.metadata[i]).0 == name
}

/// Inserting a tile: a second tile with an occupied address is dropped,
/// as the store's unique tile index would refuse it.
pub open spec fn spec_insert_tile(
    m: ContainerM,
    zoom: u32,
    column: u32,
    row: u32,
    data: Seq<u8>,
) -> ContainerM {
    if has_tile(m, zoom, column, row) {
        m
    } else {
        ContainerM { tiles: m.tiles.push(TileM { zoom, column, row, data }), ..m }
    }
}

/// Inserting a metadata entry: a second value for an existing name is
/// dropped, keeping names unique.
pub open spec fn spec_insert_meta(m: ContainerM, name: Seq<u8>, value: Seq<u8>) -> ContainerM {
    if has_meta(m, name) {
        m
    } else {
        ContainerM { metadata: m.metadata.push((name, value)), ..m }
    }
}


/// Inserting a grid: a second grid with an occupied address is dropped,
/// keeping grid addresses unique.
pub open spec fn spec_insert_grid_row(
    m: ContainerM,
    zoom: u32,
    column: u32,
    row: u32,
    payload: Seq<u8>,
) -> ContainerM {
    if has_grid(m, zoom, column, row) {
        m
    } else {
        ContainerM { grids: m.grids.push(GridM { zoom, column, row, payload }), ..m }
    }
}


/// No two tiles share an address.
pub open spec fn tiles_unique(ts: Seq<TileM>) -> bool {
    forall|i: int, j: int|
        0 <= i < j < ts.len() ==> !tile_keyed(
            #[trigger] ts[i],
            (#[trigger] ts[j]).zoom,
            ts[j].column,
            ts[j].row,
        )
}

/// No two grids share an address.
pub open spec fn grids_unique(gs: Seq<GridM>) -> bool {
    forall|i: int, j: int|
        0 <= i < j < gs.len() ==> !grid_keyed(
            #[trigger] gs[i],
            (#[trigger] gs[j]).zoom,
            gs[j].column,
            gs[j].row,
        )
}

/// No two metadata entries share a name.
pub open spec fn meta_unique(ms: Seq<(Seq<u8>, Seq<u8>)>) -> bool {
    forall|i: int, j: int| 0 <= i < j < ms.len() ==> (#[trigger] ms[i]).0 != (#[trigger] ms[j]).0
}

/// Every grid-data row refers to a grid that exists.
pub open spec fn grid_data_refs(m: ContainerM) -> bool {
    forall|k: int|
        0 <= k < m.grid_data.len() ==> has_grid(
            m,
            (#[trigger] m.grid_data[k]).zoom,
            m.grid_data[k].column,
            m.grid_data[k].row,
        )
}

/// The container invariants: addresses unique among tiles and among
/// grids, names unique among metadata entries, and every grid-data row
/// anchored to an existing grid.
pub open spec fn wf(m: ContainerM) -> bool {
    &&& tiles_unique(m.tiles)
    &&& grids_unique(m.grids)
    &&& meta_unique(m.metadata)
    &&& grid_data_refs(m)
}

pub proof fn lemma_insert_tile_wf(m: ContainerM, zoom: u32, column: u32, row: u32, data: Seq<u8>)
    requires
        wf(m),
    ensures
        wf(spec_insert_tile(m, zoom, column, row, data)),
{
    if !has_tile(m, zoom, column, row) {
        let m2 = spec_insert_tile(m, zoom, column, row, data);
        assert forall|i: int, j: int| 0 <= i < j < m2.tiles.len() implies !tile_keyed(
            #[trigger] m2.tiles[i],
            (#[trigger] m2.tiles[j]).zoom,
            m2.tiles[j].column,
            m2.tiles[j].row,
        ) by {
            if j == m.tiles.len() {
                assert(m2.tiles[i] == m.tiles[i]);
                assert(!tile_keyed(m.tiles[i], zoom, column, row));
            } else {
                assert(m2.tiles[i] == m.tiles[i]);
                assert(m2.tiles[j] == m.tiles[j]);
            }
        }
        assert(m2.grids == m.grids);
        assert forall|k: int| 0 <= k < m2.grid_data.len() implies has_grid(
            m2,
            (#[trigger] m2.grid_data[k]).zoom,
            m2.grid_data[k].column,
            m2.grid_data[k].row,
        ) by {
            assert(has_grid(m, m.grid_data[k].zoom, m.grid_data[k].column, m.grid_data[k].row));
            let w = choose|w: int|
                0 <= w < m.grids.len() && #[trigger] grid_keyed(
                    m.grids[w],
                    m.grid_data[k].zoom,
                    m.grid_data[k].column,
                    m.grid_data[k].row,
                );
            assert(grid_keyed(
                m2.grids[w],
                m2.grid_data[k].zoom,
                m2.grid_data[k].column,
                m2.grid_data[k].row,
            ));
        }
    }
}

pub proof fn lemma_insert_meta_wf(m: ContainerM, name: Seq<u8>, value: Seq<u8>)
    requires
        wf(m),
    ensures
        wf(spec_insert_meta(m, name, value)),
{
    if !has_meta(m, name) {
        let m2 = spec_insert_meta(m, name, value);
        assert forall|i: int, j: int| 0 <= i < j < m2.metadata.len() implies (
        #[trigger] m2.metadata[i]).0 != (#[trigger] m2.metadata[j]).0 by {
            if j == m.metadata.len() {
                assert(m2.metadata[i] == m.metadata[i]);
            } else {
                assert(m2.metadata[i] == m.metadata[i]);
                assert(m2.metadata[j] == m.metadata[j]);
            }
        }
        assert(m2.grids == m.grids);
        assert forall|k: int| 0 <= k < m2.grid_data.len() implies has_grid(
            m2,
            (#[trigger] m2.grid_data[k]).zoom,
            m2.grid_data[k].column,
            m2.grid_data[k].row,
        ) by {
            assert(has_grid(m, m.grid_data[k].zoom, m.grid_data[k].column, m.grid_data[k].row));
            let w = choose|w: int|
                0 <= w < m.grids.len() && #[trigger] grid_keyed(
                    m.grids[w],
                    m.grid_data[k].zoom,
                    m.grid_data[k].column,
                    m.grid_data[k].row,
                );
            assert(grid_keyed(
                m2.grids[w],
                m2.grid_data[k].zoom,
                m2.grid_data[k].column,
                m2.grid_data[k].row,
            ));
        }
    }
}

impl Container {
    /// An empty container.
    pub fn new() -> (r: Container)
        ensures
            r@ == empty_container(),
    {
        let r = Container {
            tiles: Vec::new(),
            metadata: Vec::new(),
            grids: Vec::new(),
            grid_data: Vec::new(),
        };
        proof {
            assert(r@ =~~= empty_container());
        }
        r
    }

    /// Whether a tile with this address is present.
    pub fn contains_tile(&self, zoom: u32, column: u32, row: u32) -> (r: bool)
        ensures
            r == has_tile(self@, zoom, column, row),
    {
        let mut i: usize = 0;
        while i < self.tiles.len()
            invariant
                0 <= i <= self.tiles@.len(),
                forall|k: int|
                    0 <= k < i ==> !#[trigger] tile_keyed(self@.tiles[k], zoom, column, row),
                self@.tiles.len() == self.tiles@.len(),
                forall|k: int|
                    0 <= k < self.tiles@.len() ==> #[trigger] self@.tiles[k] == self.tiles@[k]@,
            decreases self.tiles@.len() - i,
        {
            if self.tiles[i].zoom == zoom && self.tiles[i].column == column && self.tiles[i].row
                == row {
                proof {
                    assert(tile_keyed(self@.tiles[i as int], zoom, column, row));
                }
                return true;
            }
            i = i + 1;
        }
        false
    }

    /// Whether a grid with this address is present.
    pub fn contains_grid(&self, zoom: u32, column: u32, row: u32) -> (r: bool)
        ensures
            r == has_grid(self@, zoom, column, row),
    {
        let mut i: usize = 0;
        while i < self.grids.len()
            invariant
                0 <= i <= self.grids@.len(),
                forall|k: int|
                    0 <= k < i ==> !#[trigger] grid_keyed(self@.grids[k], zoom, column, row),
                self@.grids.len() == self.grids@.len(),
                forall|k: int|
                    0 <= k < self.grids@.len() ==> #[trigger] self@.grids[k] == self.grids@[k]@,
            decreases self.grids@.len() - i,
        {
            if self.grids[i].zoom == zoom && self.grids[i].column == column && self.grids[i].row
                == row {
                proof {
                    assert(grid_keyed(self@.grids[i as int], zoom, column, row));
                }
                return true;
            }
            i = i + 1;
        }
        false
    }

    /// Whether a metadata entry with this name is present.
    pub fn contains_meta(&self, name: &Vec<u8>) -> (r: bool)
        ensures
            r == has_meta(self@, name@),
    {
        let mut i: usize = 0;
        while i < self.metadata.len()
            invariant
                0 <= i <= self.metadata@.len(),
                forall|k: int| 0 <= k < i ==> (#[trigger] self@.metadata[k]).0 != name@,
                self@.metadata.len() == self.metadata@.len(),
                forall|k: int|
                    0 <= k < self.metadata@.len() ==> #[trigger] self@.metadata[k] == (
                    self.metadata@[k].name@,
                    self.metadata@[k].value@,
                ),
            decreases self.metadata@.len() - i,
        {
            if crate::util::vec_u8_eq(&self.metadata[i].name, name) {
                proof {
                    assert((self@.metadata[i as int]).0 == name@);
                }
                return true;
            }
            i = i + 1;
        }
        false
    }

    /// Inserts a tile unless its address is occupied; reports whether the
    /// tile was inserted.
    pub fn insert_tile(&mut self, zoom: u32, column: u32, row: u32, data: Vec<u8>) -> (r: bool)
        ensures
            final(self)@ == spec_insert_tile(old(self)@, zoom, column, row, data@),
            r == !has_tile(old(self)@, zoom, column, row),
    {
        if self.contains_tile(zoom, column, row) {
            false
        } else {
            let ghost pre = self@;
            self.tiles.push(Tile { zoom, column, row, data });
            proof {
                assert(self@ =~~= ContainerM {
                    tiles: pre.tiles.push(TileM { zoom, column, row, data: data@ }),
                    ..pre
                });
            }
            true
        }
    }

    /// Inserts a metadata entry unless its name is taken; reports whether
    /// the entry was inserted.
    pub fn insert_meta(&mut self, name: Vec<u8>, value: Vec<u8>) -> (r: bool)
        ensures
            final(self)@ == spec_insert_meta(old(self)@, name@, value@),
            r == !has_meta(old(self)@, name@),
    {
        if self.contains_meta(&name) {
            false
        } else {
            let ghost pre = self@;
            let ghost nv = name@;
            let ghost vv = value@;
            self.metadata.push(MetadataEntry { name, value });
            proof {
                assert(self@ =~~= ContainerM { metadata: pre.metadata.push((nv, vv)), ..pre });
            }
            true
        }
    }

    /// Inserts a grid row unless its address is occupied; reports whether
    /// the row was inserted.
    pub fn insert_grid_row(&mut self, zoom: u32, column: u32, row: u32, payload: Vec<u8>) -> (r:
        bool)
        ensures
            final(self)@ == spec_insert_grid_row(old(self)@, zoom, column, row, payload@),
            r == !has_grid(old(self)@, zoom, column, row),
    {
        if self.contains_grid(zoom, column, row) {
            false
        } else {
            let ghost pre = self@;
            self.grids.push(Grid { zoom, column, row, payload });
            proof {
                assert(self@ =~~= ContainerM {
                    grids: pre.grids.push(GridM { zoom, column, row, payload: payload@ }),
                    ..pre
                });
            }
            true
        }
    }

    /// Appends one grid-data row.
    pub fn push_grid_data(&mut self, entry: GridDataEntry)
        ensures
            final(self)@ == (ContainerM {
                grid_data: old(self)@.grid_data.push(entry@),
                ..old(self)@
            }),
    {
        let ghost pre = self@;
        let ghost ev = entry@;
        self.grid_data.push(entry);
        proof {
            assert(self@ =~~= ContainerM { grid_data: pre.grid_data.push(ev), ..pre });
        }
    }
}

} // verus!
