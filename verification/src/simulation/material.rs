use vstd::prelude::*;

verus! {

/// An RGBA colour with eight bits per channel.
#[derive(Clone, Copy, Debug, PartialEq, Eq, Structural)]
pub struct CellColor {
    pub red: u8,
    pub green: u8,
    pub blue: u8,
    pub alpha: u8,
}

impl CellColor {
    /// Builds a colour from its four channels.
    pub fn new(red: u8, green: u8, blue: u8, alpha: u8) -> (color: CellColor)
        ensures
            color == (CellColor { red, green, blue, alpha }),
    {
        CellColor { red, green, blue, alpha }
    }

    /// The channel stored at byte `k` of a pixel: red, green, blue, alpha.
    pub open spec fn channel(self, k: int) -> u8 {
        if k == 0 {
            self.red
        } else if k == 1 {
            self.green
        } else if k == 2 {
            self.blue
        } else {
            self.alpha
        }
    }
}

/// What a cell is made of. `Empty` stands for no matter at all.
#[derive(Clone, Copy, Debug, PartialEq, Eq, Structural)]
pub enum Material {
    Empty,
    Sand,
    Red,
    Green,
    Blue,
}

impl Material {
    /// The display colour that belongs to each material.
    pub open spec fn color_spec(&self) -> CellColor {
        match self {
            Material::Empty => CellColor { red: 10, green: 10, blue: 10, alpha: 255 },
            Material::Sand => CellColor { red: 221, green: 193, blue: 48, alpha: 255 },
            Material::Red => CellColor { red: 255, green: 0, blue: 0, alpha: 255 },
            Material::Green => CellColor { red: 0, green: 255, blue: 0, alpha: 255 },
            Material::Blue => CellColor { red: 0, green: 0, blue: 255, alpha: 255 },
        }
    }

    /// The fixed display colour of this material.
    #[verifier::when_used_as_spec(color_spec)]
    pub fn color(&self) -> (color: CellColor)
        ensures
            color == self.color_spec(),
    {
        match self {
            Material::Empty => CellColor::new(10, 10, 10, 255),
            Material::Sand => CellColor::new(221, 193, 48, 255),
            Material::Red => CellColor::new(255, 0, 0, 255),
            Material::Green => CellColor::new(0, 255, 0, 255),
            Material::Blue => CellColor::new(0, 0, 255, 255),
        }
    }
}

} // verus!
