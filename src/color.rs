use vstd::prelude::*;

verus! {

/// The eight canonical object colors.
#[derive(Debug, Clone, Copy, PartialEq, Eq, Structural)]
pub enum Color {
    Player1,
    Player2,
    Col1,
    Col2,
    LightBG,
    Col3,
    Col4,
    DLine,
}

/// The legacy numeric id of each color, as written on disk.
pub open spec fn legacy_id(c: Color) -> u32 {
    match c {
        Color::Player1 => 1,
        Color::Player2 => 2,
        Color::Col1 => 3,
        Color::Col2 => 4,
        Color::LightBG => 5,
        Color::Col3 => 6,
        Color::Col4 => 7,
        Color::DLine => 8,
    }
}

/// The color that a legacy id names, if any.
pub open spec fn color_of_legacy(id: u32) -> Option<Color> {
    if id == 1 {
        Some(Color::Player1)
    } else if id == 2 {
        Some(Color::Player2)
    } else if id == 3 {
        Some(Color::Col1)
    } else if id == 4 {
        Some(Color::Col2)
    } else if id == 5 {
        Some(Color::LightBG)
    } else if id == 6 {
        Some(Color::Col3)
    } else if id == 7 {
        Some(Color::Col4)
    } else if id == 8 {
        Some(Color::DLine)
    } else {
        None
    }
}

/// The color that a new-scheme id names, if any.
pub open spec fn color_of_new(id: u32) -> Option<Color> {
    if id == 1 {
        Some(Color::Col1)
    } else if id == 2 {
        Some(Color::Col2)
    } else if id == 3 {
        Some(Color::Col3)
    } else if id == 4 {
        Some(Color::Col4)
    } else if id == 5 || id == 1003 {
        Some(Color::DLine)
    } else if id == 1005 {
        Some(Color::Player1)
    } else if id == 1006 {
        Some(Color::Player2)
    } else if id == 1007 {
        Some(Color::LightBG)
    } else {
        None
    }
}

/// The color of an object that carries an optional legacy id and an optional
/// new-scheme id: a nonzero legacy id decides alone, else the new id does.
pub open spec fn resolved_color(legacy: Option<u32>, new: Option<u32>) -> Option<Color> {
    match legacy {
        Some(id) if id != 0 => color_of_legacy(id),
        _ => match new {
            Some(id) => color_of_new(id),
            None => None,
        },
    }
}

impl Color {
    pub fn from_old_id(id: u32) -> (r: Option<Color>)
        ensures
            r == color_of_legacy(id),
            r matches Some(c) ==> legacy_id(c) == id,
    {
        match id {
            1 => Some(Color::Player1),
            2 => Some(Color::Player2),
            3 => Some(Color::Col1),
            4 => Some(Color::Col2),
            5 => Some(Color::LightBG),
            6 => Some(Color::Col3),
            7 => Some(Color::Col4),
            8 => Some(Color::DLine),
            _ => None,
        }
    }

    pub fn from_new_id(id: u32) -> (r: Option<Color>)
        ensures
            r == color_of_new(id),
    {
        match id {
            1 => Some(Color::Col1),
            2 => Some(Color::Col2),
            3 => Some(Color::Col3),
            4 => Some(Color::Col4),
            5 => Some(Color::DLine),
            1003 => Some(Color::DLine),
            1005 => Some(Color::Player1),
            1006 => Some(Color::Player2),
            1007 => Some(Color::LightBG),
            _ => None,
        }
    }

    /// The legacy id that encodes this color on disk.
    pub fn legacy_id(&self) -> (r: u32)
        ensures
            r == legacy_id(*self),
    {
        match self {
            Color::Player1 => 1,
            Color::Player2 => 2,
            Color::Col1 => 3,
            Color::Col2 => 4,
            Color::LightBG => 5,
            Color::Col3 => 6,
            Color::Col4 => 7,
            Color::DLine => 8,
        }
    }
}

/// Resolves an object's color from its legacy and new-scheme ids; the legacy
/// id takes precedence whenever it is present and nonzero.
pub fn resolve_color(legacy: Option<u32>, new: Option<u32>) -> (r: Option<Color>)
    ensures
        r == resolved_color(legacy, new),
{
    match legacy {
        Some(id) if id != 0 => Color::from_old_id(id),
        _ => match new {
            Some(id) => Color::from_new_id(id),
            None => None,
        },
    }
}

} // verus!
