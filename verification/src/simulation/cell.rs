use vstd::prelude::*;
use crate::simulation::material::{CellColor, Material};

verus! {

/// One slot of a grid: a material, the colour it is shown in, and the tick in
/// which it last moved.
#[derive(Clone, Copy, Debug, PartialEq, Eq, Structural)]
pub struct Cell {
    pub color: CellColor,
    pub material: Material,
    pub last_processed_in_tick: usize,
}

impl Cell {
    /// A cell is consistent when it is shown in its material's colour.
    pub open spec fn is_consistent(self) -> bool {
        self.color == self.material.color_spec()
    }

    /// A cell holds matter unless its material is `Empty`.
    pub open spec fn holds_matter(self) -> bool {
        self.material != Material::Empty
    }

    /// A fresh cell of `material`, in that material's colour, not yet moved
    /// in any tick.
    pub fn new(material: Material) -> (cell: Cell)
        ensures
            cell == (Cell { color: material.color_spec(), material, last_processed_in_tick: 0 }),
            cell.is_consistent(),
    {
        Cell { color: material.color(), material, last_processed_in_tick: 0 }
    }

    /// The colour the cell is shown in.
    pub fn color(&self) -> (color: &CellColor)
        ensures
            *color == self.color,
    {
        &self.color
    }

    /// The cell's material.
    pub fn material(&self) -> (material: Material)
        ensures
            material == self.material,
    {
        self.material
    }

    /// The tick in which the cell last moved, 0 if it never did.
    pub fn last_processed_in_tick(&self) -> (tick: usize)
        ensures
            tick == self.last_processed_in_tick,
    {
        self.last_processed_in_tick
    }
}

} // verus!
