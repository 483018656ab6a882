//! The painting tool's palette and brush settings. The front end reads these
//! to translate pointer input into `place` calls; the simulation itself never
//! looks at them.

use vstd::prelude::*;

use crate::datatype::{Rgba, Vector2};

verus! {

/// The colors the palette starts with: white, black, red, green, blue.
pub open spec fn palette_colors() -> Seq<Rgba> {
    seq![
        (Rgba { r: 255, g: 255, b: 255, a: 255 }),
        (Rgba { r: 0, g: 0, b: 0, a: 255 }),
        (Rgba { r: 255, g: 0, b: 0, a: 255 }),
        (Rgba { r: 0, g: 255, b: 0, a: 255 }),
        (Rgba { r: 0, g: 0, b: 255, a: 255 }),
    ]
}

pub struct ToolBox {
    current_color_index: u32,
    available_colors: Vec<Rgba>,
    mouse_box: Vector2<u32>,
    points_per_paint: u32,
}

impl ToolBox {
    pub closed spec fn spec_colors(&self) -> Seq<Rgba> {
        self.available_colors@
    }

    pub closed spec fn spec_color_index(&self) -> u32 {
        self.current_color_index
    }

    pub closed spec fn spec_mouse_box(&self) -> Vector2<u32> {
        self.mouse_box
    }

    pub closed spec fn spec_points_per_paint(&self) -> u32 {
        self.points_per_paint
    }

    /// The selected color always points inside the palette.
    pub open spec fn wf(&self) -> bool {
        self.spec_color_index() < self.spec_colors().len()
    }

    pub fn new() -> (r: ToolBox)
        ensures
            r.wf(),
            r.spec_color_index() == 0,
            r.spec_colors() == palette_colors(),
            r.spec_mouse_box() == (Vector2 { x: 15u32, y: 15u32 }),
            r.spec_points_per_paint() == 25,
    {
        let mut available_colors: Vec<Rgba> = Vec::new();
        available_colors.push(Rgba { r: 255, g: 255, b: 255, a: 255 });
        available_colors.push(Rgba { r: 0, g: 0, b: 0, a: 255 });
        available_colors.push(Rgba { r: 255, g: 0, b: 0, a: 255 });
        available_colors.push(Rgba { r: 0, g: 255, b: 0, a: 255 });
        available_colors.push(Rgba { r: 0, g: 0, b: 255, a: 255 });
        proof {
            assert(available_colors@ =~= palette_colors());
        }
        ToolBox {
            current_color_index: 0,
            available_colors,
            mouse_box: Vector2 { x: 15u32, y: 15u32 },
            points_per_paint: 25,
        }
    }

    pub fn mouse_box(&self) -> (r: Vector2<u32>)
        ensures
            r == self.spec_mouse_box(),
    {
        self.mouse_box
    }

    pub fn points_per_paint(&self) -> (r: u32)
        ensures
            r == self.spec_points_per_paint(),
    {
        self.points_per_paint
    }

    pub fn current_color_index(&self) -> (r: u32)
        ensures
            r == self.spec_color_index(),
    {
        self.current_color_index
    }

    pub fn available_colors(&self) -> (r: &Vec<Rgba>)
        ensures
            r@ == self.spec_colors(),
    {
        &self.available_colors
    }

    pub fn get_current_color(&self) -> (r: &Rgba)
        requires
            self.wf(),
        ensures
            *r == self.spec_colors()[self.spec_color_index() as int],
    {
        &self.available_colors[self.current_color_index as usize]
    }
}

} // verus!
