use vstd::prelude::*;
use vstd::string::*;
use crate::color::{color_of_legacy, color_of_new, legacy_id, Color};
use crate::errors::{Error, KeyFault};
use crate::fields::{
    decimal_or_zero, flag_or, optional_int, required_decimal, required_uint, take_decimal_or_zero,
    take_flag_or, take_optional_i32, take_optional_i8, take_optional_string, take_optional_u16,
    take_optional_u8, take_required_decimal, take_required_u16,
};
use crate::format::GdFormat;
use crate::kv::KvMap;
use crate::number::{
    all_digits, decimal4_text, digit_of, digits_value, flag_text, int_text, integer_in, Decimal4,
};

verus! {

/// One object of a level: the fields the game reads most, and every other
/// key of its record as it came.
#[derive(Debug)]
pub struct LevelObject {
    /// Key "1"; never zero.
    pub id: u16,
    /// Key "2".
    pub x_pos: Decimal4,
    /// Key "3".
    pub y_pos: Decimal4,
    /// Key "4".
    pub flip_x: bool,
    /// Key "5".
    pub flip_y: bool,
    /// Key "6".
    pub rotation: Decimal4,
    /// Key "19" in the legacy scheme, key "22" in the new one.
    pub color: Option<Color>,
    /// Key "24".
    pub z_layer: Option<i8>,
    /// Key "25".
    pub z_order: Option<i32>,
    /// Key "43", read only where key "41" is set.
    pub base_hsv: Option<String>,
    /// The keys not named above.
    pub other_data: KvMap,
}

/// Why a record does not decode to an object.
pub enum ObjectFault {
    Key(KeyFault),
    ZeroId,
}

/// The first fault of a record, in the order id, x, y; none if it decodes.
pub open spec fn object_fault(m: Map<Seq<char>, Seq<char>>) -> Option<ObjectFault> {
    match required_uint(m, "1"@, 65535) {
        Err(f) => Some(ObjectFault::Key(f)),
        Ok(id) => if id == 0 {
            Some(ObjectFault::ZeroId)
        } else {
            match required_decimal(m, "2"@) {
                Err(f) => Some(ObjectFault::Key(f)),
                Ok(_) => match required_decimal(m, "3"@) {
                    Err(f) => Some(ObjectFault::Key(f)),
                    Ok(_) => None,
                },
            }
        },
    }
}

/// Whether the record enables its base HSV string.
pub open spec fn hsv_enabled(m: Map<Seq<char>, Seq<char>>) -> bool {
    flag_or(m, "41"@, false)
}

/// Whether the record's legacy color id is absent, unreadable or zero, so
/// that the new-scheme id is read.
pub open spec fn reads_new_color(m: Map<Seq<char>, Seq<char>>) -> bool {
    match optional_int(m, "19"@, false, 0, 255) {
        Some(v) => v == 0,
        None => true,
    }
}

/// The color of a record.
pub open spec fn object_color(m: Map<Seq<char>, Seq<char>>) -> Option<Color> {
    if reads_new_color(m) {
        match optional_int(m, "22"@, false, 0, 65535) {
            Some(v) => color_of_new(v as u32),
            None => None,
        }
    } else {
        color_of_legacy(optional_int(m, "19"@, false, 0, 255)->0 as u32)
    }
}

/// What is left of a record once its fields are taken out.
pub open spec fn leftover(m: Map<Seq<char>, Seq<char>>) -> Map<Seq<char>, Seq<char>> {
    let a = m.remove("1"@).remove("2"@).remove("3"@).remove("4"@).remove("5"@).remove(
        "6"@,
    ).remove("24"@).remove("25"@).remove("41"@);
    let b = if hsv_enabled(m) { a.remove("43"@) } else { a };
    let c = b.remove("19"@);
    if reads_new_color(m) { c.remove("22"@) } else { c }
}

/// An optional integer as an `Option<int>`.
pub open spec fn opt_i8(x: Option<i8>) -> Option<int> {
    match x {
        Some(v) => Some(v as int),
        None => None,
    }
}

pub open spec fn opt_i32(x: Option<i32>) -> Option<int> {
    match x {
        Some(v) => Some(v as int),
        None => None,
    }
}

/// Whether `o` is the object that the record `m` decodes to.
pub open spec fn decodes_to(m: Map<Seq<char>, Seq<char>>, o: LevelObject) -> bool {
    &&& o.id as int == required_uint(m, "1"@, 65535)->Ok_0
    &&& o.x_pos.ten_thousandths as int == required_decimal(m, "2"@)->Ok_0
    &&& o.y_pos.ten_thousandths as int == required_decimal(m, "3"@)->Ok_0
    &&& o.flip_x == flag_or(m, "4"@, false)
    &&& o.flip_y == flag_or(m, "5"@, false)
    &&& o.rotation.ten_thousandths as int == decimal_or_zero(m, "6"@)
    &&& opt_i8(o.z_layer) == optional_int(m, "24"@, true, -128, 127)
    &&& opt_i32(o.z_order) == optional_int(m, "25"@, true, i32::MIN as int, i32::MAX as int)
    &&& (o.base_hsv is Some) == (hsv_enabled(m) && m.contains_key("43"@))
    &&& (o.base_hsv matches Some(h) ==> h@ == m["43"@])
    &&& o.color == object_color(m)
    &&& o.other_data.map() == leftover(m)
}

/// The record that an object encodes to.
pub open spec fn object_record(o: LevelObject) -> Map<Seq<char>, Seq<char>> {
    let a = o.other_data.map().insert("1"@, int_text(o.id as int)).insert(
        "2"@,
        decimal4_text(o.x_pos.ten_thousandths as int),
    ).insert("3"@, decimal4_text(o.y_pos.ten_thousandths as int)).insert(
        "4"@,
        flag_text(o.flip_x),
    ).insert("5"@, flag_text(o.flip_y)).insert(
        "6"@,
        decimal4_text(o.rotation.ten_thousandths as int),
    );
    let b = match o.z_layer {
        Some(v) => a.insert("24"@, int_text(v as int)),
        None => a,
    };
    let c = match o.z_order {
        Some(v) => b.insert("25"@, int_text(v as int)),
        None => b,
    };
    let d = match o.base_hsv {
        Some(h) => c.insert("41"@, flag_text(true)).insert("43"@, h@),
        None => c,
    };
    match o.color {
        Some(col) => d.insert("19"@, int_text(legacy_id(col) as int)),
        None => d,
    }
}

/// Makes the texts of the field keys known, so that they are told apart.
proof fn reveal_field_keys()
    ensures
        "1"@.len() == 1,
        "1"@[0] == '1',
        "2"@.len() == 1,
        "2"@[0] == '2',
        "3"@.len() == 1,
        "3"@[0] == '3',
        "4"@.len() == 1,
        "4"@[0] == '4',
        "5"@.len() == 1,
        "5"@[0] == '5',
        "6"@.len() == 1,
        "6"@[0] == '6',
        "19"@.len() == 2,
        "19"@[0] == '1',
        "19"@[1] == '9',
        "22"@.len() == 2,
        "22"@[0] == '2',
        "22"@[1] == '2',
        "24"@.len() == 2,
        "24"@[0] == '2',
        "24"@[1] == '4',
        "25"@.len() == 2,
        "25"@[0] == '2',
        "25"@[1] == '5',
        "41"@.len() == 2,
        "41"@[0] == '4',
        "41"@[1] == '1',
        "43"@.len() == 2,
        "43"@[0] == '4',
        "43"@[1] == '3',
{
    reveal_strlit("1");
    reveal_strlit("2");
    reveal_strlit("3");
    reveal_strlit("4");
    reveal_strlit("5");
    reveal_strlit("6");
    reveal_strlit("19");
    reveal_strlit("22");
    reveal_strlit("24");
    reveal_strlit("25");
    reveal_strlit("41");
    reveal_strlit("43");
}

/// A record whose id is `"0"` is refused as no object, whatever else it holds.
pub proof fn lemma_zero_id_refused(m: Map<Seq<char>, Seq<char>>)
    requires
        m.contains_key("1"@),
        m["1"@] == "0"@,
    ensures
        object_fault(m) == Some(ObjectFault::ZeroId),
{
    reveal_strlit("0");
    assert("0"@ =~= seq!['0']);
    assert(seq!['0'].drop_last() =~= Seq::<char>::empty());
    assert(digit_of('0') == 0);
    assert(digits_value(Seq::<char>::empty()) == 0);
    assert(seq!['0'].last() == '0');
    assert(digits_value(seq!['0']) == 0);
    assert(all_digits(seq!['0']));
    assert(integer_in("0"@, false, 0, 65535) == Some(0int));
}

/// A nonzero legacy color id decides the color, whatever the new-scheme id.
pub proof fn lemma_legacy_color_wins(m: Map<Seq<char>, Seq<char>>, id: int)
    requires
        m.contains_key("19"@),
        integer_in(m["19"@], false, 0, 255) == Some(id),
        id != 0,
    ensures
        object_color(m) == color_of_legacy(id as u32),
{
}

/// Without the enabling flag, the base HSV string is not read and stays
/// among the other keys.
pub proof fn lemma_base_hsv_gated(m: Map<Seq<char>, Seq<char>>, o: LevelObject)
    requires
        !m.contains_key("41"@),
        m.contains_key("43"@),
        decodes_to(m, o),
    ensures
        o.base_hsv is None,
        o.other_data.map().contains_key("43"@),
        o.other_data.map()["43"@] == m["43"@],
{
    reveal_field_keys();
}

impl LevelObject {
    /// A valid object: its id is not zero and its other keys are unique.
    pub open spec fn wf(&self) -> bool {
        self.id != 0 && self.other_data.wf()
    }

    /// Decodes an object from its record, taking its fields out of the map.
    pub fn from_map(map: KvMap) -> (r: Result<LevelObject, Error>)
        requires
            map.wf(),
        ensures
            match object_fault(map.map()) {
                None => r matches Ok(o) && o.wf() && decodes_to(map.map(), o),
                Some(ObjectFault::ZeroId) => r matches Err(Error::InvalidObject),
                Some(ObjectFault::Key(f)) => r matches Err(Error::Key(e)) && e@ == f,
            },
    {
        let ghost m = map.map();
        proof {
            reveal_field_keys();
        }
        let mut map = map;
        let id = match take_required_u16(&mut map, "1") {
            Ok(v) => v,
            Err(e) => {
                return Err(Error::Key(e));
            },
        };
        if id == 0 {
            return Err(Error::InvalidObject);
        }
        let x_pos = match take_required_decimal(&mut map, "2") {
            Ok(v) => v,
            Err(e) => {
                return Err(Error::Key(e));
            },
        };
        let y_pos = match take_required_decimal(&mut map, "3") {
            Ok(v) => v,
            Err(e) => {
                return Err(Error::Key(e));
            },
        };
        let flip_x = take_flag_or(&mut map, "4", false);
        let flip_y = take_flag_or(&mut map, "5", false);
        let rotation = take_decimal_or_zero(&mut map, "6");
        let z_layer = take_optional_i8(&mut map, "24");
        let z_order = take_optional_i32(&mut map, "25");
        let base_hsv = if take_flag_or(&mut map, "41", false) {
            take_optional_string(&mut map, "43")
        } else {
            None
        };
        let color = match take_optional_u8(&mut map, "19") {
            None | Some(0) => match take_optional_u16(&mut map, "22") {
                Some(v) => Color::from_new_id(v as u32),
                None => None,
            },
            Some(v) => Color::from_old_id(v as u32),
        };
        let o = LevelObject {
            id,
            x_pos,
            y_pos,
            flip_x,
            flip_y,
            rotation,
            color,
            z_layer,
            z_order,
            base_hsv,
            other_data: map,
        };
        Ok(o)
    }

    /// The record of the object, leaving the object as it is.
    pub fn map(&self) -> (r: KvMap)
        requires
            self.other_data.wf(),
        ensures
            r.wf(),
            r.map() == object_record(*self),
    {
        let base_hsv = match &self.base_hsv {
            Some(h) => Some(h.clone()),
            None => None,
        };
        let o = LevelObject {
            id: self.id,
            x_pos: self.x_pos,
            y_pos: self.y_pos,
            flip_x: self.flip_x,
            flip_y: self.flip_y,
            rotation: self.rotation,
            color: self.color,
            z_layer: self.z_layer,
            z_order: self.z_order,
            base_hsv,
            other_data: self.other_data.copy(),
        };
        o.into_inner()
    }

    /// The record of the object: its other keys with every field written
    /// back in its canonical text; optional fields only where present.
    pub fn into_inner(self) -> (r: KvMap)
        requires
            self.other_data.wf(),
        ensures
            r.wf(),
            r.map() == object_record(self),
    {
        let mut m = self.other_data;
        m.insert(String::from_str("1"), self.id.gd_format());
        m.insert(String::from_str("2"), self.x_pos.gd_format());
        m.insert(String::from_str("3"), self.y_pos.gd_format());
        m.insert(String::from_str("4"), self.flip_x.gd_format());
        m.insert(String::from_str("5"), self.flip_y.gd_format());
        m.insert(String::from_str("6"), self.rotation.gd_format());
        if let Some(v) = self.z_layer {
            m.insert(String::from_str("24"), v.gd_format());
        }
        if let Some(v) = self.z_order {
            m.insert(String::from_str("25"), v.gd_format());
        }
        if let Some(v) = self.base_hsv {
            m.insert(String::from_str("41"), true.gd_format());
            m.insert(String::from_str("43"), v.gd_format());
        }
        if let Some(c) = self.color {
            m.insert(String::from_str("19"), c.gd_format());
        }
        m
    }
}

} // verus!
