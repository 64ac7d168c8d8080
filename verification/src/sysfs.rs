//! Reading one value out of a sysfs/procfs attribute file.
use vstd::prelude::*;
use crate::text::{parse_i32, parse_i32_chars, parse_i64, parse_i64_chars, parse_u32, parse_u32_chars, parse_u64, parse_u64_chars, to_chars, trim, trim_chars};

verus! {

/// Integer types that a sysfs attribute can be parsed into, with the
/// `FromStr` semantics of each stated over the attribute's characters.
pub trait DecimalInt: Sized {
    spec fn parse_spec(s: Seq<char>) -> Option<Self>;

    fn parse_chars(v: &Vec<char>) -> (r: Option<Self>)
        ensures
            r == Self::parse_spec(v@),
    ;
}

impl DecimalInt for u64 {
    open spec fn parse_spec(s: Seq<char>) -> Option<u64> {
        parse_u64(s)
    }

    fn parse_chars(v: &Vec<char>) -> (r: Option<u64>) {
        parse_u64_chars(v)
    }
}

impl DecimalInt for u32 {
    open spec fn parse_spec(s: Seq<char>) -> Option<u32> {
        parse_u32(s)
    }

    fn parse_chars(v: &Vec<char>) -> (r: Option<u32>) {
        parse_u32_chars(v)
    }
}

impl DecimalInt for i64 {
    open spec fn parse_spec(s: Seq<char>) -> Option<i64> {
        parse_i64(s)
    }

    fn parse_chars(v: &Vec<char>) -> (r: Option<i64>) {
        parse_i64_chars(v)
    }
}

impl DecimalInt for i32 {
    open spec fn parse_spec(s: Seq<char>) -> Option<i32> {
        parse_i32(s)
    }

    fn parse_chars(v: &Vec<char>) -> (r: Option<i32>) {
        parse_i32_chars(v)
    }
}

/// The trimmed content of an attribute, `""` when it could not be read
/// (`read_string(..).unwrap_or_default()`).
pub open spec fn content_or_empty(raw: Option<Seq<char>>) -> Seq<char> {
    match raw {
        Some(s) => trim(s),
        None => Seq::empty(),
    }
}

/// What `read_parse` gives for an attribute: its trimmed content parsed as `T`,
/// `None` when the file could not be read or does not parse.
pub open spec fn parsed<T: DecimalInt>(raw: Option<Seq<char>>) -> Option<T> {
    match raw {
        Some(s) => T::parse_spec(trim(s)),
        None => None,
    }
}

pub open spec fn opt_view(raw: Option<&str>) -> Option<Seq<char>> {
    match raw {
        Some(s) => Some(s@),
        None => None,
    }
}

pub open spec fn opt_string_view(raw: Option<String>) -> Option<Seq<char>> {
    match raw {
        Some(s) => Some(s@),
        None => None,
    }
}

/// Parses an attribute whose raw content is `raw` (`None` when it could not
/// be read) after trimming it.
pub fn read_parse<T: DecimalInt>(raw: Option<&str>) -> (r: Option<T>)
    ensures
        r == parsed::<T>(opt_view(raw)),
{
    match raw {
        Some(s) => {
            let v = to_chars(s);
            let t = trim_chars(&v);
            T::parse_chars(&t)
        },
        None => None,
    }
}

/// `read_parse` on an attribute held as an owned string.
pub fn parse_attr<T: DecimalInt>(raw: &Option<String>) -> (r: Option<T>)
    ensures
        r == parsed::<T>(opt_string_view(*raw)),
{
    match raw {
        Some(s) => read_parse::<T>(Some(s.as_str())),
        None => None,
    }
}

/// The trimmed content of an attribute, or `""` when it could not be read.
pub fn read_string_or_empty(raw: &Option<String>) -> (r: Vec<char>)
    ensures
        r@ == content_or_empty(opt_string_view(*raw)),
{
    match raw {
        Some(s) => {
            let v = to_chars(s.as_str());
            trim_chars(&v)
        },
        None => Vec::new(),
    }
}

} // verus!
