use vstd::prelude::*;
use vstd::string::*;
use crate::errors::{KeyError, KeyFault};
use crate::kv::KvMap;
use crate::number::{
    decimal4_value, flag_value, integer_in, parse_flag, parse_i32, parse_i8, parse_u16, parse_u8,
    Decimal4,
};

verus! {

/// A required integer field in `0..=hi`.
pub open spec fn required_uint(m: Map<Seq<char>, Seq<char>>, k: Seq<char>, hi: int) -> Result<
    int,
    KeyFault,
> {
    if !m.contains_key(k) {
        Err(KeyFault::Missing(k))
    } else {
        match integer_in(m[k], false, 0, hi) {
            Some(v) => Ok(v),
            None => Err(KeyFault::Invalid(k, m[k])),
        }
    }
}

/// A required decimal field, in ten-thousandths.
pub open spec fn required_decimal(m: Map<Seq<char>, Seq<char>>, k: Seq<char>) -> Result<
    int,
    KeyFault,
> {
    if !m.contains_key(k) {
        Err(KeyFault::Missing(k))
    } else {
        match decimal4_value(m[k]) {
            Some(v) => Ok(v),
            None => Err(KeyFault::Invalid(k, m[k])),
        }
    }
}

/// A flag field that falls back to `d` when absent or unreadable.
pub open spec fn flag_or(m: Map<Seq<char>, Seq<char>>, k: Seq<char>, d: bool) -> bool {
    if m.contains_key(k) {
        match flag_value(m[k]) {
            Some(b) => b,
            None => d,
        }
    } else {
        d
    }
}

/// A decimal field that falls back to zero when absent or unreadable.
pub open spec fn decimal_or_zero(m: Map<Seq<char>, Seq<char>>, k: Seq<char>) -> int {
    if m.contains_key(k) {
        match decimal4_value(m[k]) {
            Some(v) => v,
            None => 0,
        }
    } else {
        0
    }
}

/// An optional integer field in `lo..=hi`; an unreadable value counts as absent.
pub open spec fn optional_int(
    m: Map<Seq<char>, Seq<char>>,
    k: Seq<char>,
    signed: bool,
    lo: int,
    hi: int,
) -> Option<int> {
    if m.contains_key(k) {
        integer_in(m[k], signed, lo, hi)
    } else {
        None
    }
}

fn key_string(k: &str) -> (r: String)
    ensures
        r@ == k@,
{
    String::from_str(k)
}

/// Takes a required `u16` field out of the map.
pub fn take_required_u16(map: &mut KvMap, k: &str) -> (r: Result<u16, KeyError>)
    requires
        old(map).wf(),
    ensures
        final(map).wf(),
        final(map).map() == old(map).map().remove(k@),
        match required_uint(old(map).map(), k@, 65535) {
            Ok(v) => r matches Ok(x) && x as int == v,
            Err(f) => r matches Err(e) && e@ == f,
        },
{
    match map.remove(k) {
        None => Err(KeyError::Missing { key: key_string(k) }),
        Some(val) => match parse_u16(val.as_str()) {
            Some(v) => Ok(v),
            None => Err(KeyError::Invalid { key: key_string(k), val }),
        },
    }
}

/// Takes a required decimal field out of the map.
pub fn take_required_decimal(map: &mut KvMap, k: &str) -> (r: Result<Decimal4, KeyError>)
    requires
        old(map).wf(),
    ensures
        final(map).wf(),
        final(map).map() == old(map).map().remove(k@),
        match required_decimal(old(map).map(), k@) {
            Ok(v) => r matches Ok(x) && x.ten_thousandths as int == v,
            Err(f) => r matches Err(e) && e@ == f,
        },
{
    match map.remove(k) {
        None => Err(KeyError::Missing { key: key_string(k) }),
        Some(val) => match Decimal4::parse(val.as_str()) {
            Some(v) => Ok(v),
            None => Err(KeyError::Invalid { key: key_string(k), val }),
        },
    }
}

/// Takes a flag field out of the map, `d` where it is absent or unreadable.
pub fn take_flag_or(map: &mut KvMap, k: &str, d: bool) -> (r: bool)
    requires
        old(map).wf(),
    ensures
        final(map).wf(),
        final(map).map() == old(map).map().remove(k@),
        r == flag_or(old(map).map(), k@, d),
{
    match map.remove(k) {
        None => d,
        Some(val) => match parse_flag(val.as_str()) {
            Some(b) => b,
            None => d,
        },
    }
}

/// Takes a decimal field out of the map, zero where it is absent or unreadable.
pub fn take_decimal_or_zero(map: &mut KvMap, k: &str) -> (r: Decimal4)
    requires
        old(map).wf(),
    ensures
        final(map).wf(),
        final(map).map() == old(map).map().remove(k@),
        r.ten_thousandths == decimal_or_zero(old(map).map(), k@),
{
    match map.remove(k) {
        None => Decimal4 { ten_thousandths: 0 },
        Some(val) => match Decimal4::parse(val.as_str()) {
            Some(v) => v,
            None => Decimal4 { ten_thousandths: 0 },
        },
    }
}

/// Takes an optional `i8` field out of the map.
pub fn take_optional_i8(map: &mut KvMap, k: &str) -> (r: Option<i8>)
    requires
        old(map).wf(),
    ensures
        final(map).wf(),
        final(map).map() == old(map).map().remove(k@),
        match optional_int(old(map).map(), k@, true, -128, 127) {
            Some(v) => r matches Some(x) && x as int == v,
            None => r is None,
        },
{
    match map.remove(k) {
        None => None,
        Some(val) => parse_i8(val.as_str()),
    }
}

/// Takes an optional `i32` field out of the map.
pub fn take_optional_i32(map: &mut KvMap, k: &str) -> (r: Option<i32>)
    requires
        old(map).wf(),
    ensures
        final(map).wf(),
        final(map).map() == old(map).map().remove(k@),
        match optional_int(old(map).map(), k@, true, i32::MIN as int, i32::MAX as int) {
            Some(v) => r matches Some(x) && x as int == v,
            None => r is None,
        },
{
    match map.remove(k) {
        None => None,
        Some(val) => parse_i32(val.as_str()),
    }
}

/// Takes an optional `u8` field out of the map.
pub fn take_optional_u8(map: &mut KvMap, k: &str) -> (r: Option<u8>)
    requires
        old(map).wf(),
    ensures
        final(map).wf(),
        final(map).map() == old(map).map().remove(k@),
        match optional_int(old(map).map(), k@, false, 0, 255) {
            Some(v) => r matches Some(x) && x as int == v,
            None => r is None,
        },
{
    match map.remove(k) {
        None => None,
        Some(val) => parse_u8(val.as_str()),
    }
}

/// Takes an optional `u16` field out of the map.
pub fn take_optional_u16(map: &mut KvMap, k: &str) -> (r: Option<u16>)
    requires
        old(map).wf(),
    ensures
        final(map).wf(),
        final(map).map() == old(map).map().remove(k@),
        match optional_int(old(map).map(), k@, false, 0, 65535) {
            Some(v) => r matches Some(x) && x as int == v,
            None => r is None,
        },
{
    match map.remove(k) {
        None => None,
        Some(val) => parse_u16(val.as_str()),
    }
}

/// Takes an optional text field out of the map.
pub fn take_optional_string(map: &mut KvMap, k: &str) -> (r: Option<String>)
    requires
        old(map).wf(),
    ensures
        final(map).wf(),
        final(map).map() == old(map).map().remove(k@),
        r is Some == old(map).map().contains_key(k@),
        r matches Some(v) ==> v@ == old(map).map()[k@],
{
    map.remove(k)
}

} // verus!
