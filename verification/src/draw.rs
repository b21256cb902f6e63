use vstd::prelude::*;

verus! {

/// How a widget's size follows from the space it is given.
#[derive(Debug, Clone, Copy, PartialEq, Eq, Structural)]
pub enum Resize {
    /// The size stays as it was set.
    Fixed,
    /// The size shrinks to fit the content.
    Hug,
    /// The size grows to fill the space.
    Fill,
}

impl Default for Resize {
    fn default() -> (r: Resize)
        ensures
            r == Resize::Fixed,
    {
        Resize::Fixed
    }
}

/// The box that a widget is drawn in, and how it may be resized.
#[derive(Debug, Clone, Copy, PartialEq, Eq, Structural)]
pub struct Constraints {
    pub x: i32,
    pub y: i32,
    pub width: i32,
    pub height: i32,
    pub horizontal_resize: Resize,
    pub verticle_resize: Resize,
}

impl Default for Constraints {
    fn default() -> (r: Constraints)
        ensures
            r == (Constraints {
                x: 0,
                y: 0,
                width: 0,
                height: 0,
                horizontal_resize: Resize::Fixed,
                verticle_resize: Resize::Fixed,
            }),
    {
        Constraints {
            x: 0,
            y: 0,
            width: 0,
            height: 0,
            horizontal_resize: Resize::Fixed,
            verticle_resize: Resize::Fixed,
        }
    }
}

/// `v`, or 0 where `v` is below 0.
pub open spec fn at_least_zero(v: i32) -> i32 {
    if v < 0 {
        0
    } else {
        v
    }
}

impl Constraints {
    /// The same box with a width and a height that are not below 0.
    pub fn check(self) -> (r: Constraints)
        ensures
            r == (Constraints {
                width: at_least_zero(self.width),
                height: at_least_zero(self.height),
                ..self
            }),
    {
        let mut checked = self;
        if checked.width < 0 {
            checked.width = 0;
        }
        if checked.height < 0 {
            checked.height = 0;
        }
        checked
    }

    /// Takes over `width` and `height` where both are above 0, and changes
    /// nothing where one of them is not.
    pub fn resize(&mut self, width: i32, height: i32)
        ensures
            *final(self) == if width > 0 && height > 0 {
                Constraints { width, height, ..*old(self) }
            } else {
                *old(self)
            },
    {
        if width > 0 && height > 0 {
            self.width = width;
            self.height = height;
        }
    }
}

/// Something that can draw itself into a box.
pub trait Draw {
    /// Draws into `constraints` and says whether anything was drawn.
    fn draw(&mut self, constraints: Constraints) -> bool;
}

} // verus!
