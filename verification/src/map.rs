//! The dense rectangular terrain grid.
use vstd::prelude::*;
use crate::protocol::GridPosition;

verus! {

/// What covers a tile.
#[derive(Debug, Clone, Copy, PartialEq, Eq, Structural)]
pub enum Terrain {
    Grass,
    Water,
}

#[derive(Debug, Clone, Copy, PartialEq, Eq, Structural)]
pub enum MapError {
    OutsideMap(GridPosition),
}

/// The abstract content of a map: its size and its tiles in row-major order.
pub struct MapView {
    pub width: i32,
    pub height: i32,
    pub tiles: Seq<Terrain>,
}

impl MapView {
    /// A map is well formed when both sides are positive, the tile count fits an `i32`,
    /// and there is exactly one tile per cell.
    pub open spec fn wf(self) -> bool {
        &&& self.width > 0
        &&& self.height > 0
        &&& self.width * self.height <= i32::MAX
        &&& self.tiles.len() == self.width * self.height
    }

    pub open spec fn inside(self, p: GridPosition) -> bool {
        0 <= p.x < self.width && 0 <= p.y < self.height
    }

    /// Row-major index of a cell: `y * width + x`.
    pub open spec fn index_of(self, p: GridPosition) -> int {
        p.y * self.width + p.x
    }

    pub open spec fn terrain_at(self, p: GridPosition) -> Option<Terrain> {
        if self.inside(p) {
            Some(self.tiles[self.index_of(p)])
        } else {
            None
        }
    }

    /// A unit may stand on a cell when it lies on the map and is grass.
    pub open spec fn walkable(self, p: GridPosition) -> bool {
        self.terrain_at(p) == Some(Terrain::Grass)
    }

    /// The cell whose row-major index is `i`.
    pub open spec fn cell_at(self, i: int) -> GridPosition {
        GridPosition { x: (i % (self.width as int)) as i32, y: (i / (self.width as int)) as i32 }
    }
}

/// Every cell on the map has an index below the tile count.
pub proof fn lemma_index_in_bounds(m: MapView, p: GridPosition)
    requires
        m.wf(),
        m.inside(p),
    ensures
        0 <= m.index_of(p) < m.width * m.height,
        0 <= m.index_of(p) < m.tiles.len(),
{
    let w = m.width as int;
    let h = m.height as int;
    let x = p.x as int;
    let y = p.y as int;
    assert(0 <= y * w + x < w * h) by (nonlinear_arith)
        requires
            0 <= x < w,
            0 <= y < h,
    ;
}

/// Indices and cells correspond one to one.
pub proof fn lemma_cell_at_index(m: MapView, p: GridPosition)
    requires
        m.wf(),
        m.inside(p),
    ensures
        m.cell_at(m.index_of(p)) == p,
{
    let w = m.width as int;
    let x = p.x as int;
    let y = p.y as int;
    assert((y * w + x) % w == x && (y * w + x) / w == y) by (nonlinear_arith)
        requires
            0 <= x < w,
            0 <= y,
    {
        vstd::arithmetic::div_mod::lemma_fundamental_div_mod_converse(y * w + x, w, y, x);
    }
}

/// The cell at an in-range index lies on the map and has that index.
pub proof fn lemma_index_of_cell(m: MapView, i: int)
    requires
        m.wf(),
        0 <= i < m.width * m.height,
    ensures
        m.inside(m.cell_at(i)),
        m.index_of(m.cell_at(i)) == i,
{
    let w = m.width as int;
    let h = m.height as int;
    assert(0 <= i % w < w && 0 <= i / w < h && (i / w) * w + i % w == i) by (nonlinear_arith)
        requires
            0 <= i < w * h,
            w > 0,
            h > 0,
    {
        vstd::arithmetic::div_mod::lemma_fundamental_div_mod(i, w);
        vstd::arithmetic::div_mod::lemma_div_pos_is_pos(i, w);
        vstd::arithmetic::div_mod::lemma_mod_pos_bound(i, w);
        vstd::arithmetic::div_mod::lemma_div_is_ordered_by_denominator(i, 1, w);
        if i / w >= h {
            vstd::arithmetic::mul::lemma_mul_inequality(h, i / w, w);
        }
    }
}

/// Distinct cells of the map have distinct indices.
pub proof fn lemma_index_injective(m: MapView, p: GridPosition, q: GridPosition)
    requires
        m.wf(),
        m.inside(p),
        m.inside(q),
        m.index_of(p) == m.index_of(q),
    ensures
        p == q,
{
    lemma_cell_at_index(m, p);
    lemma_cell_at_index(m, q);
}

/// Reading a cell after writing it gives what was written; every other cell reads as before.
pub proof fn lemma_read_after_set(
    before: MapView,
    after: MapView,
    p: GridPosition,
    t: Terrain,
    q: GridPosition,
)
    requires
        before.wf(),
        before.inside(p),
        after.width == before.width,
        after.height == before.height,
        after.tiles == before.tiles.update(before.index_of(p), t),
    ensures
        after.terrain_at(p) == Some(t),
        q != p ==> after.terrain_at(q) == before.terrain_at(q),
{
    lemma_index_in_bounds(before, p);
    if q != p && before.inside(q) {
        lemma_index_in_bounds(before, q);
        if before.index_of(q) == before.index_of(p) {
            lemma_index_injective(before, p, q);
        }
    }
}

/// A rectangular map of terrain tiles.
#[derive(Debug, Clone)]
pub struct GameMap {
    width: i32,
    height: i32,
    terrain: Vec<Terrain>,
}

impl View for GameMap {
    type V = MapView;

    closed spec fn view(&self) -> MapView {
        MapView { width: self.width, height: self.height, tiles: self.terrain@ }
    }
}

impl GameMap {
    /// A `width` by `height` map covered with `fill`.
    pub fn new(width: i32, height: i32, fill: Terrain) -> (map: Self)
        requires
            width > 0,
            height > 0,
            width * height <= i32::MAX,
        ensures
            map@.wf(),
            map@.width == width,
            map@.height == height,
            map@.tiles == Seq::new((width * height) as nat, |i: int| fill),
    {
        let tile_count = (width * height) as usize;
        let terrain = vec![fill; tile_count];
        let map = Self { width, height, terrain };
        assert(map@.tiles =~= Seq::new((width * height) as nat, |i: int| fill));
        map
    }

    pub fn width(&self) -> (width: i32)
        ensures
            width == self@.width,
    {
        self.width
    }

    pub fn height(&self) -> (height: i32)
        ensures
            height == self@.height,
    {
        self.height
    }

    pub fn is_inside(&self, position: GridPosition) -> (inside: bool)
        ensures
            inside == self@.inside(position),
    {
        position.x >= 0 && position.x < self.width && position.y >= 0 && position.y < self.height
    }

    pub(crate) fn index(&self, position: GridPosition) -> (index: Option<usize>)
        requires
            self@.wf(),
        ensures
            match index {
                Some(i) => self@.inside(position) && i == self@.index_of(position) && i
                    < self@.tiles.len(),
                None => !self@.inside(position),
            },
    {
        if self.is_inside(position) {
            proof {
                lemma_index_in_bounds(self@, position);
            }
            Some((position.y * self.width + position.x) as usize)
        } else {
            None
        }
    }

    /// The terrain of a cell, or `None` off the map.
    pub fn terrain(&self, position: GridPosition) -> (terrain: Option<&Terrain>)
        requires
            self@.wf(),
        ensures
            match terrain {
                Some(t) => self@.terrain_at(position) == Some(*t),
                None => self@.terrain_at(position) is None,
            },
    {
        match self.index(position) {
            Some(index) => Some(&self.terrain[index]),
            None => None,
        }
    }

    /// Replaces the terrain of a cell; refuses a cell off the map and then changes nothing.
    pub fn set_terrain(&mut self, position: GridPosition, terrain: Terrain) -> (result: Result<
        (),
        MapError,
    >)
        requires
            old(self)@.wf(),
        ensures
            final(self)@.wf(),
            final(self)@.width == old(self)@.width,
            final(self)@.height == old(self)@.height,
            match result {
                Ok(()) => old(self)@.inside(position) && final(self)@.tiles == old(
                    self,
                )@.tiles.update(old(self)@.index_of(position), terrain),
                Err(e) => !old(self)@.inside(position) && e == MapError::OutsideMap(position)
                    && final(self)@ == old(self)@,
            },
    {
        match self.index(position) {
            Some(index) => {
                self.terrain.set(index, terrain);
                Ok(())
            },
            None => Err(MapError::OutsideMap(position)),
        }
    }

    pub fn is_walkable(&self, position: GridPosition) -> (walkable: bool)
        requires
            self@.wf(),
        ensures
            walkable == self@.walkable(position),
    {
        match self.terrain(position) {
            Some(t) => match t {
                Terrain::Grass => true,
                Terrain::Water => false,
            },
            None => false,
        }
    }

    /// An 8 by 8 grass map with a 2 by 2 pond whose top-left cell is (3, 2).
    pub fn demo_8x8() -> (map: Self)
        ensures
            map@.wf(),
            map@.width == 8,
            map@.height == 8,
            map@.tiles == Seq::new(
                64,
                |i: int|
                    if i == 19 || i == 20 || i == 27 || i == 28 {
                        Terrain::Water
                    } else {
                        Terrain::Grass
                    },
            ),
    {
        let mut map = Self::new(8, 8, Terrain::Grass);
        let pond = [
            GridPosition::new(3, 2),
            GridPosition::new(4, 2),
            GridPosition::new(3, 3),
            GridPosition::new(4, 3),
        ];
        let mut k: usize = 0;
        while k < 4
            invariant
                0 <= k <= 4,
                pond@ == seq![
                    GridPosition { x: 3, y: 2 },
                    GridPosition { x: 4, y: 2 },
                    GridPosition { x: 3, y: 3 },
                    GridPosition { x: 4, y: 3 },
                ],
                map@.wf(),
                map@.width == 8,
                map@.height == 8,
                forall|i: int|
                    0 <= i < 64 ==> #[trigger] map@.tiles[i] == (if (i == 19 && k > 0) || (i
                        == 20 && k > 1) || (i == 27 && k > 2) || (i == 28 && k > 3) {
                        Terrain::Water
                    } else {
                        Terrain::Grass
                    }),
            decreases 4 - k,
        {
            let result = map.set_terrain(pond[k], Terrain::Water);
            assert(result is Ok);
            k = k + 1;
        }
        assert(map@.tiles =~= Seq::new(
            64,
            |i: int|
                if i == 19 || i == 20 || i == 27 || i == 28 {
                    Terrain::Water
                } else {
                    Terrain::Grass
                },
        ));
        map
    }
}

} // verus!
