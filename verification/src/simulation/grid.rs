use vstd::prelude::*;
use crate::simulation::cell::Cell;
use crate::simulation::material::{CellColor, Material};

verus! {

/// Side length of a chunk, in cells.
pub const CHUNK_SIZE: u16 = 32;

/// Number of cells in one chunk.
pub const NUM_CELLS_IN_CHUNK: usize = 1024;

/// Number of bytes in one chunk's display buffer: four per cell.
pub const TEXTURE_BYTES_IN_CHUNK: usize = 4096;

/// A position in a chunk's own coordinates, `x` to the right and `y` downwards.
#[derive(Clone, Copy, Debug, PartialEq, Eq, Structural)]
pub struct GridPos {
    pub x: i16,
    pub y: i16,
}

impl GridPos {
    /// Whether the position lies inside a chunk.
    pub open spec fn in_bounds(self) -> bool {
        0 <= self.x < 32 && 0 <= self.y < 32
    }

    /// The row-major index of the position in a chunk's cell array.
    pub open spec fn index(self) -> int {
        self.x + self.y * 32
    }

    /// The position with both coordinates reduced into `[0, 32)`.
    pub open spec fn wrapped_spec(self) -> GridPos {
        GridPos { x: (self.x % 32) as i16, y: (self.y % 32) as i16 }
    }

    pub fn new(x: i16, y: i16) -> (pos: GridPos)
        ensures
            pos == (GridPos { x, y }),
    {
        GridPos { x, y }
    }

    /// `glam::I16Vec2::rem_euclid`: the Euclidean remainder of each coordinate
    /// by the matching coordinate of `rhs`. The call panics on a zero divisor,
    /// so both are taken to be positive; the remainder then lies in `[0, rhs)`.
    #[verifier::external_body]
    fn rem_euclid(self, rhs: GridPos) -> (rem: GridPos)
        requires
            rhs.x > 0,
            rhs.y > 0,
        ensures
            rem.x == self.x % rhs.x,
            rem.y == self.y % rhs.y,
    {
        let rem = glam::I16Vec2::new(self.x, self.y).rem_euclid(glam::I16Vec2::new(rhs.x, rhs.y));
        GridPos { x: rem.x, y: rem.y }
    }

    /// Carries a position over into the coordinates of the chunk that it
    /// lies in: both coordinates are reduced into the range of a chunk.
    #[verifier::when_used_as_spec(wrapped_spec)]
    pub fn wrapped(self) -> (pos: GridPos)
        ensures
            pos == self.wrapped_spec(),
            pos.in_bounds(),
            self.in_bounds() ==> pos == self,
    {
        self.rem_euclid(GridPos { x: 32, y: 32 })
    }

    /// The row-major index of an in-bounds position.
    pub fn grid_idx(self) -> (idx: usize)
        requires
            self.in_bounds(),
        ensures
            idx == self.index(),
            idx < NUM_CELLS_IN_CHUNK,
    {
        self.x as usize + self.y as usize * 32
    }
}

/// `texture` with the four bytes of pixel `i` set to the channels of `color`.
pub open spec fn paint(texture: Seq<u8>, i: int, color: CellColor) -> Seq<u8> {
    texture.update(4 * i, color.red).update(4 * i + 1, color.green).update(
        4 * i + 2,
        color.blue,
    ).update(4 * i + 3, color.alpha)
}

/// What a grid holds: its cells in row-major order, the RGBA bytes shown for
/// them, and whether those bytes changed since they were last consumed.
pub struct GridView {
    pub cells: Seq<Cell>,
    pub texture: Seq<u8>,
    pub dirty: bool,
}

impl GridView {
    /// Both arrays have the size of one chunk.
    pub open spec fn wf(self) -> bool {
        self.cells.len() == 1024 && self.texture.len() == 4096
    }

    /// The four bytes of pixel `i` are the colour of cell `i`.
    pub open spec fn pixel_matches(self, i: int) -> bool {
        &&& self.texture[4 * i] == self.cells[i].color.red
        &&& self.texture[4 * i + 1] == self.cells[i].color.green
        &&& self.texture[4 * i + 2] == self.cells[i].color.blue
        &&& self.texture[4 * i + 3] == self.cells[i].color.alpha
    }

    /// The display buffer shows every cell in its colour.
    pub open spec fn is_synced(self) -> bool {
        forall|i: int| 0 <= i < 1024 ==> #[trigger] self.pixel_matches(i)
    }

    /// Every cell is shown in its material's colour.
    pub open spec fn colors_follow_materials(self) -> bool {
        forall|i: int| 0 <= i < 1024 ==> (#[trigger] self.cells[i]).is_consistent()
    }

    /// The grid is well formed, its buffer is in step with its cells, and
    /// every cell has its material's colour.
    pub open spec fn is_consistent(self) -> bool {
        self.wf() && self.is_synced() && self.colors_follow_materials()
    }

    /// The grid in which every cell is a fresh cell of `material`.
    pub open spec fn uniform(material: Material) -> GridView {
        GridView {
            cells: Seq::new(
                1024,
                |i: int|
                    Cell {
                        color: material.color_spec(),
                        material,
                        last_processed_in_tick: 0,
                    },
            ),
            texture: Seq::new(4096, |j: int| material.color_spec().channel(j % 4)),
            dirty: true,
        }
    }

    /// Cell `i` replaced by `cell`, its pixel repainted, the buffer marked dirty.
    pub open spec fn with_cell(self, i: int, cell: Cell) -> GridView {
        GridView {
            cells: self.cells.update(i, cell),
            texture: paint(self.texture, i, cell.color),
            dirty: true,
        }
    }

    /// Cell `i` recoloured and its pixel repainted, the buffer marked dirty.
    pub open spec fn with_color(self, i: int, color: CellColor) -> GridView {
        self.with_cell(i, Cell { color, ..self.cells[i] })
    }

    /// The same grid with the dirty mark cleared.
    pub open spec fn cleaned(self) -> GridView {
        GridView { dirty: false, ..self }
    }
}

/// Writing a cell together with its pixel keeps the size of a grid, and keeps
/// its buffer in step with its cells.
pub proof fn lemma_with_cell_keeps_sync(grid: GridView, i: int, cell: Cell)
    requires
        grid.wf(),
        0 <= i < 1024,
    ensures
        grid.with_cell(i, cell).wf(),
        grid.with_cell(i, cell).pixel_matches(i),
        grid.is_synced() ==> grid.with_cell(i, cell).is_synced(),
        grid.colors_follow_materials() && cell.is_consistent() ==> grid.with_cell(
            i,
            cell,
        ).colors_follow_materials(),
{
    let after = grid.with_cell(i, cell);
    if grid.is_synced() {
        assert forall|k: int| 0 <= k < 1024 implies #[trigger] after.pixel_matches(k) by {
            assert(grid.pixel_matches(k));
        }
    }
    if grid.colors_follow_materials() && cell.is_consistent() {
        assert forall|k: int| 0 <= k < 1024 implies (#[trigger] after.cells[k]).is_consistent() by {
            if k != i {
                assert(grid.cells[k].is_consistent());
            }
        }
    }
}

/// A uniform grid is consistent.
pub proof fn lemma_uniform_is_consistent(material: Material)
    ensures
        GridView::uniform(material).is_consistent(),
{
    let grid = GridView::uniform(material);
    assert forall|i: int| 0 <= i < 1024 implies #[trigger] grid.pixel_matches(i) by {
        assert((4 * i) % 4 == 0);
        assert((4 * i + 1) % 4 == 1);
        assert((4 * i + 2) % 4 == 2);
        assert((4 * i + 3) % 4 == 3);
    }
}

/// The dense cell array of one chunk and the RGBA buffer that shows it.
#[derive(Debug)]
pub struct CellGrid {
    cells: Vec<Cell>,
    texture_data: Vec<u8>,
    texture_dirty: bool,
}

impl View for CellGrid {
    type V = GridView;

    closed spec fn view(&self) -> GridView {
        GridView { cells: self.cells@, texture: self.texture_data@, dirty: self.texture_dirty }
    }
}

impl CellGrid {
    /// Both arrays have the size of one chunk.
    pub open spec fn wf(&self) -> bool {
        self@.wf()
    }

    /// A grid of empty cells; the same as [`CellGrid::empty`].
    pub fn new() -> (grid: CellGrid)
        ensures
            grid@ == GridView::uniform(Material::Empty),
            grid@.is_consistent(),
    {
        CellGrid::empty()
    }

    /// A grid in which every cell is empty and the buffer shows the colour
    /// of emptiness throughout.
    pub fn empty() -> (grid: CellGrid)
        ensures
            grid@ == GridView::uniform(Material::Empty),
            grid@.is_consistent(),
    {
        CellGrid::new_uniform(Material::Empty)
    }

    /// A grid in which every cell is a fresh cell of `material`, with the
    /// buffer filled to match.
    pub fn new_uniform(material: Material) -> (grid: CellGrid)
        ensures
            grid@ == GridView::uniform(material),
            grid@.is_consistent(),
    {
        let cell = Cell::new(material);
        let color = material.color();
        let mut cells: Vec<Cell> = Vec::with_capacity(NUM_CELLS_IN_CHUNK);
        let mut texture_data: Vec<u8> = Vec::with_capacity(TEXTURE_BYTES_IN_CHUNK);
        for i in 0..NUM_CELLS_IN_CHUNK
            invariant
                cell == (Cell { color: material.color_spec(), material, last_processed_in_tick: 0 }),
                color == material.color_spec(),
                cells@ == Seq::new(i as nat, |k: int| cell),
                texture_data@ == Seq::new(4 * i as nat, |j: int| color.channel(j % 4)),
        {
            cells.push(cell);
            texture_data.push(color.red);
            texture_data.push(color.green);
            texture_data.push(color.blue);
            texture_data.push(color.alpha);
            proof {
                assert((4 * i) % 4 == 0);
                assert((4 * i + 1) % 4 == 1);
                assert((4 * i + 2) % 4 == 2);
                assert((4 * i + 3) % 4 == 3);
                assert(cells@ =~= Seq::new((i + 1) as nat, |k: int| cell));
                assert(texture_data@ =~= Seq::new(
                    4 * (i + 1) as nat,
                    |j: int| color.channel(j % 4),
                ));
            }
        }
        let grid = CellGrid { cells, texture_data, texture_dirty: true };
        proof {
            assert(grid@.cells =~= GridView::uniform(material).cells);
            assert(grid@.texture =~= GridView::uniform(material).texture);
            lemma_uniform_is_consistent(material);
        }
        grid
    }

    /// The cell at `pos`.
    pub fn cell_at(&self, pos: GridPos) -> (cell: &Cell)
        requires
            self.wf(),
            pos.in_bounds(),
        ensures
            *cell == self@.cells[pos.index()],
    {
        &self.cells[pos.grid_idx()]
    }

    /// The cell at `pos`, to be changed in place. The display buffer is left
    /// as it is: after a change of colour through this reference the pixel is
    /// stale until [`CellGrid::set_color`] repaints it.
    pub fn cell_at_mut(&mut self, pos: GridPos) -> (cell: &mut Cell)
        requires
            old(self).wf(),
            pos.in_bounds(),
        ensures
            *cell == old(self)@.cells[pos.index()],
            final(self)@ == (GridView {
                cells: old(self)@.cells.update(pos.index(), *final(cell)),
                ..old(self)@
            }),
    {
        let idx = pos.grid_idx();
        &mut self.cells[idx]
    }

    /// Gives the cell at `pos` the colour `color`, in the cell and in the
    /// display buffer alike, and marks the buffer dirty.
    pub fn set_color(&mut self, pos: GridPos, color: &CellColor)
        requires
            old(self).wf(),
            pos.in_bounds(),
        ensures
            final(self)@ == old(self)@.with_color(pos.index(), *color),
            final(self).wf(),
    {
        let idx = pos.grid_idx();
        let cell = Cell { color: *color, ..self.cells[idx] };
        self.write(idx, cell);
    }

    /// Puts `cell` at `pos`, in place of whatever was there, repaints its
    /// pixel and marks the buffer dirty.
    pub fn place_cell(&mut self, pos: GridPos, cell: Cell)
        requires
            old(self).wf(),
            pos.in_bounds(),
        ensures
            final(self)@ == old(self)@.with_cell(pos.index(), cell),
            final(self).wf(),
    {
        self.write(pos.grid_idx(), cell);
    }

    /// Empties the cell at `pos`. Where it is empty already nothing changes,
    /// and the buffer is not marked dirty.
    pub fn remove_cell_at_pos(&mut self, pos: GridPos)
        requires
            old(self).wf(),
            pos.in_bounds(),
        ensures
            final(self)@ == (if old(self)@.cells[pos.index()].holds_matter() {
                old(self)@.with_cell(
                    pos.index(),
                    Cell {
                        color: Material::Empty.color_spec(),
                        material: Material::Empty,
                        last_processed_in_tick: 0,
                    },
                )
            } else {
                old(self)@
            }),
            final(self).wf(),
    {
        let idx = pos.grid_idx();
        if self.cells[idx].material != Material::Empty {
            self.write(idx, Cell::new(Material::Empty));
        }
    }

    /// A copy of the grid: the same cells, the same bytes, the same mark.
    pub fn duplicate(&self) -> (copy: CellGrid)
        ensures
            copy@ == self@,
    {
        let copy = CellGrid {
            cells: self.cells.clone(),
            texture_data: self.texture_data.clone(),
            texture_dirty: self.texture_dirty,
        };
        proof {
            assert(copy.cells@ =~= self.cells@);
            assert(copy.texture_data@ =~= self.texture_data@);
        }
        copy
    }

    /// The RGBA bytes of the grid, four per cell in row-major order.
    pub fn get_texture_data(&self) -> (data: &[u8])
        ensures
            data@ == self@.texture,
    {
        self.texture_data.as_slice()
    }

    /// Whether the display buffer changed since it was last marked clean.
    pub fn is_texture_data_dirty(&self) -> (dirty: bool)
        ensures
            dirty == self@.dirty,
    {
        self.texture_dirty
    }

    /// Marks the display buffer as consumed.
    pub fn set_texture_data_clean(&mut self)
        ensures
            final(self)@ == old(self)@.cleaned(),
    {
        self.texture_dirty = false;
    }

    /// Stores `cell` at index `idx` and paints its pixel.
    fn write(&mut self, idx: usize, cell: Cell)
        requires
            old(self).wf(),
            idx < NUM_CELLS_IN_CHUNK,
        ensures
            final(self)@ == old(self)@.with_cell(idx as int, cell),
            final(self).wf(),
    {
        self.cells[idx] = cell;
        self.texture_data[idx * 4] = cell.color.red;
        self.texture_data[idx * 4 + 1] = cell.color.green;
        self.texture_data[idx * 4 + 2] = cell.color.blue;
        self.texture_data[idx * 4 + 3] = cell.color.alpha;
        self.texture_dirty = true;
    }
}

} // verus!
