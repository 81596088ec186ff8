//! The drawing tools: which operation a pointer gesture on the canvas
//! stands for, and the points that a tool collects before it draws.

use vstd::prelude::*;
use crate::boundary::contour;
use crate::canvas::Canvas;
use crate::color::Color;
use crate::connectivity::Connectivity;
use crate::fill::{filled_with_color, filled_with_image};
use crate::image::Image;
use crate::line::sharp_line_drawn;
use crate::point::Point;
use crate::raster::Raster;
use crate::smooth::smooth_line_drawn;
use crate::triangle::{gradient_triangle_drawn, Gradient};

verus! {

/// A drawing tool.
#[derive(Clone, Copy, Debug, PartialEq, Eq, Structural)]
pub enum Instrument {
    /// Sets single pixels while the pointer is dragged.
    Pencil,
    /// Fills a region with the current colour.
    Bucket,
    /// Fills a region with the loaded image.
    ImageBucket,
    /// Traces the boundary of a region and draws it.
    Border,
    /// Draws an exact segment between two clicks.
    SharpLine,
    /// Draws a smooth segment between two clicks.
    SmoothLine,
    /// Draws a gradient triangle between three clicks.
    Triangle,
}

impl Default for Instrument {
    fn default() -> (instrument: Instrument)
        ensures
            instrument == Instrument::Pencil,
    {
        Instrument::Pencil
    }
}

impl Instrument {
    /// The name shown for this tool.
    pub open spec fn spec_name(self) -> Seq<char> {
        match self {
            Instrument::Pencil => "карандаш"@,
            Instrument::Bucket => "заливка"@,
            Instrument::ImageBucket => "заливка картинкой"@,
            Instrument::Border => "выделение границ"@,
            Instrument::SharpLine => "линия"@,
            Instrument::SmoothLine => "размытая линия"@,
            Instrument::Triangle => "треугольник"@,
        }
    }

    /// The name shown for this tool.
    pub fn get_name(&self) -> (name: String)
        ensures
            name@ == self.spec_name(),
    {
        match self {
            Instrument::Pencil => "карандаш".to_owned(),
            Instrument::Bucket => "заливка".to_owned(),
            Instrument::ImageBucket => "заливка картинкой".to_owned(),
            Instrument::Border => "выделение границ".to_owned(),
            Instrument::SharpLine => "линия".to_owned(),
            Instrument::SmoothLine => "размытая линия".to_owned(),
            Instrument::Triangle => "треугольник".to_owned(),
        }
    }
}

/// What the pointer did on the canvas.
#[derive(Clone, Copy, Debug, PartialEq, Eq, Structural)]
pub enum Gesture {
    /// A click.
    Click,
    /// A movement with the button held down.
    Drag,
}

/// The clicks that a tool has collected and not yet drawn, each with the
/// colour that was current when it was made.
#[derive(Clone, Copy, Debug, PartialEq, Eq, Structural)]
pub enum Pending {
    /// No click.
    Nothing,
    /// One click.
    One { pos: Point, color: Color },
    /// Two clicks, in the order made.
    Two { first_pos: Point, first_color: Color, second_pos: Point, second_color: Color },
}

/// The current tool and the clicks it has collected.
#[derive(Clone, Copy, Debug, PartialEq, Eq, Structural)]
pub struct ToolState {
    pub instrument: Instrument,
    pub pending: Pending,
}

/// What a gesture leads to: the tool state and the canvas after it, and
/// whether a drawing operation ran, so that the canvas has to be shown
/// again.
pub struct Outcome {
    pub tool: ToolState,
    pub canvas: Raster,
    pub drawn: bool,
}

/// The outcome of a gesture at `pos`, made with the colour `color` while
/// `image` is the loaded image.
///
/// The pencil answers to drags, every other tool to clicks. The pencil sets
/// the pixel under the pointer. The buckets fill from the pixel under the
/// pointer, in the eight-neighbourhood; the image bucket does nothing while
/// no image is loaded. The border tool traces the contour from the pixel
/// under the pointer and draws it. The line tools keep a first click and
/// draw from it to the second. The triangle tool keeps two clicks with
/// their colours and draws on the third, the corners taken from the latest
/// kept click back to the earliest, then the new one.
pub open spec fn outcome(
    tool: ToolState,
    canvas: Raster,
    gesture: Gesture,
    pos: Point,
    color: Color,
    image: Option<Raster>,
) -> Outcome {
    let idle = Outcome { tool, canvas, drawn: false };
    let cell = pos.cell();
    match gesture {
        Gesture::Drag => match tool.instrument {
            Instrument::Pencil => Outcome {
                tool,
                canvas: if canvas.contains(cell.0, cell.1) {
                    canvas.with(cell.0, cell.1, color)
                } else {
                    canvas
                },
                drawn: true,
            },
            _ => idle,
        },
        Gesture::Click => match tool.instrument {
            Instrument::Pencil => idle,
            Instrument::Bucket => Outcome {
                tool,
                canvas: filled_with_color(canvas, cell, color, Connectivity::EIGHT),
                drawn: true,
            },
            Instrument::ImageBucket => match image {
                Some(image) => Outcome {
                    tool,
                    canvas: filled_with_image(canvas, cell, image, Connectivity::EIGHT),
                    drawn: true,
                },
                None => idle,
            },
            Instrument::Border => Outcome {
                tool,
                canvas: canvas.stamped(contour(canvas, cell), color),
                drawn: true,
            },
            Instrument::SharpLine => match tool.pending {
                Pending::Nothing => Outcome {
                    tool: ToolState { pending: Pending::One { pos, color }, ..tool },
                    canvas,
                    drawn: false,
                },
                Pending::One { pos: from, color: _ } => Outcome {
                    tool: ToolState { pending: Pending::Nothing, ..tool },
                    canvas: sharp_line_drawn(canvas, from.nearest(), pos.nearest(), color),
                    drawn: true,
                },
                Pending::Two { first_pos, first_color, second_pos, second_color } => Outcome {
                    tool: ToolState { pending: Pending::One { pos: first_pos, color: first_color }, ..tool },
                    canvas: sharp_line_drawn(canvas, second_pos.nearest(), pos.nearest(), color),
                    drawn: true,
                },
            },
            Instrument::SmoothLine => match tool.pending {
                Pending::Nothing => Outcome {
                    tool: ToolState { pending: Pending::One { pos, color }, ..tool },
                    canvas,
                    drawn: false,
                },
                Pending::One { pos: from, color: _ } => Outcome {
                    tool: ToolState { pending: Pending::Nothing, ..tool },
                    canvas: smooth_line_drawn(canvas, from, pos, color),
                    drawn: true,
                },
                Pending::Two { first_pos, first_color, second_pos, second_color } => Outcome {
                    tool: ToolState { pending: Pending::One { pos: first_pos, color: first_color }, ..tool },
                    canvas: smooth_line_drawn(canvas, second_pos, pos, color),
                    drawn: true,
                },
            },
            Instrument::Triangle => match tool.pending {
                Pending::Nothing => Outcome {
                    tool: ToolState { pending: Pending::One { pos, color }, ..tool },
                    canvas,
                    drawn: false,
                },
                Pending::One { pos: first_pos, color: first_color } => Outcome {
                    tool: ToolState {
                        pending: Pending::Two { first_pos, first_color, second_pos: pos, second_color: color },
                        ..tool
                    },
                    canvas,
                    drawn: false,
                },
                Pending::Two { first_pos, first_color, second_pos, second_color } => Outcome {
                    tool: ToolState { pending: Pending::Nothing, ..tool },
                    canvas: gradient_triangle_drawn(
                        canvas,
                        Gradient {
                            a: second_pos,
                            b: first_pos,
                            c: pos,
                            color_a: second_color,
                            color_b: first_color,
                            color_c: color,
                        },
                    ),
                    drawn: true,
                },
            },
        },
    }
}

/// The view of an optional image.
pub open spec fn image_view(image: Option<&Image>) -> Option<Raster> {
    match image {
        Some(image) => Some(image@),
        None => None,
    }
}

impl Default for ToolState {
    fn default() -> (tool: ToolState)
        ensures
            tool == (ToolState { instrument: Instrument::Pencil, pending: Pending::Nothing }),
    {
        ToolState { instrument: Instrument::Pencil, pending: Pending::Nothing }
    }
}

impl ToolState {
    /// The pencil, with no click collected.
    pub fn new() -> (tool: ToolState)
        ensures
            tool == (ToolState { instrument: Instrument::Pencil, pending: Pending::Nothing }),
    {
        ToolState { instrument: Instrument::Pencil, pending: Pending::Nothing }
    }

    /// Takes up another tool and forgets the clicks collected so far.
    pub fn switch_instrument(&mut self, new_instrument: Instrument)
        ensures
            *final(self) == (ToolState { instrument: new_instrument, pending: Pending::Nothing }),
    {
        self.instrument = new_instrument;
        self.pending = Pending::Nothing;
    }

    /// Answers a gesture at `pos`: collects the click or runs the drawing
    /// operation that the current tool stands for, and tells whether the
    /// canvas has to be shown again.
    pub fn handle(
        &mut self,
        canvas: &mut Canvas,
        gesture: Gesture,
        pos: Point,
        color: Color,
        image: Option<&Image>,
    ) -> (drawn: bool)
        ensures
            (Outcome { tool: *final(self), canvas: final(canvas)@, drawn }) == outcome(
                *old(self),
                old(canvas)@,
                gesture,
                pos,
                color,
                image_view(image),
            ),
    {
        match gesture {
            Gesture::Drag => match self.instrument {
                Instrument::Pencil => {
                    match canvas.locate(pos) {
                        Some((x, y)) => {
                            canvas.put(x, y, color);
                        },
                        None => {},
                    }
                    true
                },
                _ => false,
            },
            Gesture::Click => match self.instrument {
                Instrument::Pencil => false,
                Instrument::Bucket => {
                    canvas.fill_with_color(pos, color, Connectivity::EIGHT);
                    true
                },
                Instrument::ImageBucket => match image {
                    Some(image) => {
                        canvas.fill_with_img(pos, image, Connectivity::EIGHT);
                        true
                    },
                    None => false,
                },
                Instrument::Border => {
                    let boundary = canvas.trace_boundary(pos);
                    canvas.draw_boundary(boundary.as_slice(), color);
                    true
                },
                Instrument::SharpLine => match self.pending {
                    Pending::Nothing => {
                        self.pending = Pending::One { pos, color };
                        false
                    },
                    Pending::One { pos: from, color: _ } => {
                        self.pending = Pending::Nothing;
                        canvas.draw_sharp_line(from, pos, color);
                        true
                    },
                    Pending::Two { first_pos, first_color, second_pos, second_color } => {
                        self.pending = Pending::One { pos: first_pos, color: first_color };
                        canvas.draw_sharp_line(second_pos, pos, color);
                        true
                    },
                },
                Instrument::SmoothLine => match self.pending {
                    Pending::Nothing => {
                        self.pending = Pending::One { pos, color };
                        false
                    },
                    Pending::One { pos: from, color: _ } => {
                        self.pending = Pending::Nothing;
                        canvas.draw_smooth_line_simple(from, pos, color);
                        true
                    },
                    Pending::Two { first_pos, first_color, second_pos, second_color } => {
                        self.pending = Pending::One { pos: first_pos, color: first_color };
                        canvas.draw_smooth_line_simple(second_pos, pos, color);
                        true
                    },
                },
                Instrument::Triangle => match self.pending {
                    Pending::Nothing => {
                        self.pending = Pending::One { pos, color };
                        false
                    },
                    Pending::One { pos: first_pos, color: first_color } => {
                        self.pending = Pending::Two { first_pos, first_color, second_pos: pos, second_color: color };
                        false
                    },
                    Pending::Two { first_pos, first_color, second_pos, second_color } => {
                        self.pending = Pending::Nothing;
                        canvas.draw_gradient_triangle(second_pos, first_pos, pos, second_color, first_color, color);
                        true
                    },
                },
            },
        }
    }
}

} // verus!
