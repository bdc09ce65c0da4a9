//! The two modes of the editor and the two brushes of its create mode.

use crate::bitmap::draw_color;
use crate::bitmap::spec_draw_color;
use crate::bitmap::spec_transparent;
use crate::bitmap::transparent;
use crate::bitmap::Color;
use vstd::prelude::*;

verus! {

/// What the editor is doing: painting a region, or simulating the mesh.
#[derive(Clone, Copy, Debug, PartialEq, Eq, Structural)]
pub enum Mode {
    Create,
    Sim,
}

/// The brush of the create mode: one paints, the other erases.
#[derive(Clone, Copy, Debug, PartialEq, Eq, Structural)]
pub enum DrawMode {
    Add,
    Remove,
}

/// The other mode.
pub fn switch_modes(current_mode: Mode) -> (next: Mode)
    ensures
        next == match current_mode {
            Mode::Create => Mode::Sim,
            Mode::Sim => Mode::Create,
        },
{
    match current_mode {
        Mode::Create => Mode::Sim,
        Mode::Sim => Mode::Create,
    }
}

impl DrawMode {
    /// The other brush.
    pub fn switched(self) -> (next: DrawMode)
        ensures
            next == match self {
                DrawMode::Add => DrawMode::Remove,
                DrawMode::Remove => DrawMode::Add,
            },
    {
        match self {
            DrawMode::Add => DrawMode::Remove,
            DrawMode::Remove => DrawMode::Add,
        }
    }

    /// The colour that the brush leaves: the paint colour, or a cleared pixel.
    pub fn color(self) -> (c: Color)
        ensures
            c == match self {
                DrawMode::Add => spec_draw_color(),
                DrawMode::Remove => spec_transparent(),
            },
    {
        match self {
            DrawMode::Add => draw_color(),
            DrawMode::Remove => transparent(),
        }
    }
}

} // verus!
