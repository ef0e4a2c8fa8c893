use vstd::prelude::*;
use crate::color::Color;

verus! {

/// What the game knows of one kind of object: its default color, its
/// drawing order and how it is drawn.
#[derive(Debug)]
pub struct ObjectVariant {
    pub default_col: Option<Color>,
    pub z_order: i32,
    pub force_bottom: bool,
    pub has_child: bool,
    pub has_color_child: bool,
    pub dont_show: bool,
}

impl ObjectVariant {
    /// The variant of an object id. The table of variants is empty, so no
    /// id has one.
    pub fn from_id(id: u32) -> (r: Option<ObjectVariant>)
        ensures
            r is None,
    {
        None
    }
}

} // verus!
