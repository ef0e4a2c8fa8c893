use vstd::prelude::*;
use vstd::string::*;
use crate::color::{legacy_id, Color};
use crate::number::{decimal4_text, flag_text, int_text, int_to_string, flag_to_string, Decimal4};

verus! {

/// How a field value is written in a level record.
pub trait GdFormat: Sized {
    /// The text of the value.
    spec fn gd_text(&self) -> Seq<char>;

    fn gd_format(self) -> (r: String)
        ensures
            r@ == self.gd_text(),
    ;
}

impl GdFormat for bool {
    open spec fn gd_text(&self) -> Seq<char> {
        flag_text(*self)
    }

    fn gd_format(self) -> (r: String) {
        flag_to_string(self)
    }
}

impl GdFormat for Decimal4 {
    open spec fn gd_text(&self) -> Seq<char> {
        decimal4_text(self.ten_thousandths as int)
    }

    fn gd_format(self) -> (r: String) {
        self.to_text()
    }
}

impl GdFormat for Color {
    open spec fn gd_text(&self) -> Seq<char> {
        int_text(legacy_id(*self) as int)
    }

    fn gd_format(self) -> (r: String) {
        int_to_string(self.legacy_id() as i64)
    }
}

impl GdFormat for String {
    open spec fn gd_text(&self) -> Seq<char> {
        self@
    }

    fn gd_format(self) -> (r: String) {
        self
    }
}

impl GdFormat for i8 {
    open spec fn gd_text(&self) -> Seq<char> {
        int_text(*self as int)
    }

    fn gd_format(self) -> (r: String) {
        int_to_string(self as i64)
    }
}

impl GdFormat for u8 {
    open spec fn gd_text(&self) -> Seq<char> {
        int_text(*self as int)
    }

    fn gd_format(self) -> (r: String) {
        int_to_string(self as i64)
    }
}

impl GdFormat for i16 {
    open spec fn gd_text(&self) -> Seq<char> {
        int_text(*self as int)
    }

    fn gd_format(self) -> (r: String) {
        int_to_string(self as i64)
    }
}

impl GdFormat for u16 {
    open spec fn gd_text(&self) -> Seq<char> {
        int_text(*self as int)
    }

    fn gd_format(self) -> (r: String) {
        int_to_string(self as i64)
    }
}

impl GdFormat for i32 {
    open spec fn gd_text(&self) -> Seq<char> {
        int_text(*self as int)
    }

    fn gd_format(self) -> (r: String) {
        int_to_string(self as i64)
    }
}

impl GdFormat for u32 {
    open spec fn gd_text(&self) -> Seq<char> {
        int_text(*self as int)
    }

    fn gd_format(self) -> (r: String) {
        int_to_string(self as i64)
    }
}

} // verus!
