//! Values in JSON documents, looked up by JSON pointers.

use crate::text::{chars_of, parse_i64, parse_natural};
use vstd::prelude::*;

verus! {

/// What a pointer leads to in a document.
#[derive(Debug, Clone)]
pub enum JsonValue {
    /// The document is not JSON.
    Invalid,
    /// The pointer leads nowhere.
    Missing,
    Null,
    Bool(bool),
    /// A number, as it is written.
    Number(String),
    Text(String),
    /// An array of this length.
    Array(usize),
    Object,
}

pub enum JsonView {
    Invalid,
    Missing,
    Null,
    Bool(bool),
    Number(Seq<char>),
    Text(Seq<char>),
    Array(nat),
    Object,
}

impl View for JsonValue {
    type V = JsonView;

    open spec fn view(&self) -> JsonView {
        match self {
            JsonValue::Invalid => JsonView::Invalid,
            JsonValue::Missing => JsonView::Missing,
            JsonValue::Null => JsonView::Null,
            JsonValue::Bool(b) => JsonView::Bool(*b),
            JsonValue::Number(n) => JsonView::Number(n@),
            JsonValue::Text(t) => JsonView::Text(t@),
            JsonValue::Array(n) => JsonView::Array(*n as nat),
            JsonValue::Object => JsonView::Object,
        }
    }
}

/// What `pointer` leads to in the document `doc`, as `serde_json` reads it.
pub uninterp spec fn json_value(doc: Seq<char>, pointer: Seq<char>) -> JsonView;

/// `serde_json::from_str` reads the document and `serde_json::Value::pointer` follows the
/// pointer. Nothing is said here of what they find: the result is a name for it.
#[verifier::external_body]
pub(crate) fn json_at(doc: &str, pointer: &str) -> (r: JsonValue)
    ensures
        r@ == json_value(doc@, pointer@),
{
    match serde_json::from_str::<serde_json::Value>(doc).as_ref().map(|v| v.pointer(pointer)) {
        Err(_) => JsonValue::Invalid,
        Ok(None) => JsonValue::Missing,
        Ok(Some(serde_json::Value::Null)) => JsonValue::Null,
        Ok(Some(serde_json::Value::Bool(b))) => JsonValue::Bool(*b),
        Ok(Some(serde_json::Value::Number(n))) => JsonValue::Number(n.to_string()),
        Ok(Some(serde_json::Value::String(s))) => JsonValue::Text(s.clone()),
        Ok(Some(serde_json::Value::Array(a))) => JsonValue::Array(a.len()),
        Ok(Some(serde_json::Value::Object(_))) => JsonValue::Object,
    }
}

/// The 32-bit number of a value: a natural number, of which the lowest 32 bits count, or a
/// text that writes one of 32 bits.
pub open spec fn u32_value(v: JsonView) -> Option<int> {
    match v {
        JsonView::Number(n) => match crate::text::natural_value(n) {
            Some(k) => if k <= u64::MAX {
                Some(k % 0x1_0000_0000)
            } else {
                None
            },
            None => None,
        },
        JsonView::Text(t) => match crate::text::natural_value(t) {
            Some(k) => if k <= u32::MAX {
                Some(k)
            } else {
                None
            },
            None => None,
        },
        _ => None,
    }
}

pub fn json_u32(v: &JsonValue) -> (r: Option<u32>)
    ensures
        match r {
            Some(n) => u32_value(v@) == Some(n as int),
            None => u32_value(v@) is None,
        },
{
    match v {
        JsonValue::Number(n) => match parse_natural(&chars_of(n.as_str()), u64::MAX) {
            Some(k) => Some((k % 0x1_0000_0000) as u32),
            None => None,
        },
        JsonValue::Text(t) => match parse_natural(&chars_of(t.as_str()), 0xffff_ffff) {
            Some(k) => Some(k as u32),
            None => None,
        },
        _ => None,
    }
}

/// A whole number cut down to 32 bits in two's complement.
pub open spec fn low32(n: int) -> int {
    let m = n % 0x1_0000_0000;
    if m >= 0x8000_0000 {
        m - 0x1_0000_0000
    } else {
        m
    }
}

/// The position that a value gives: a whole number of 64 bits, of which the lowest 32
/// count.
pub open spec fn i32_value(v: JsonView) -> Option<int> {
    match v {
        JsonView::Number(n) => match crate::text::integer_value(n) {
            Some(k) => if i64::MIN <= k <= i64::MAX {
                Some(low32(k))
            } else {
                None
            },
            None => None,
        },
        _ => None,
    }
}

fn cut32(n: i64) -> (r: i32)
    ensures
        r == low32(n as int),
{
    let m: u64 = if n >= 0 {
        n as u64 % 0x1_0000_0000
    } else {
        let below: u64 = (-(n + 1)) as u64;
        proof {
            let b = below as int;
            let q = b / 0x1_0000_0000;
            let t = b % 0x1_0000_0000;
            assert(n == -(q + 1) * 0x1_0000_0000 + (0xffff_ffff - t));
            vstd::arithmetic::div_mod::lemma_fundamental_div_mod_converse(
                n as int,
                0x1_0000_0000,
                -(q + 1),
                0xffff_ffff - t,
            );
        }
        0xffff_ffff - below % 0x1_0000_0000
    };
    if m >= 0x8000_0000 {
        (m as i64 - 0x1_0000_0000) as i32
    } else {
        m as i32
    }
}

pub fn json_i32(v: &JsonValue) -> (r: Option<i32>)
    ensures
        match r {
            Some(n) => i32_value(v@) == Some(n as int),
            None => i32_value(v@) is None,
        },
{
    match v {
        JsonValue::Number(n) => match parse_i64(&chars_of(n.as_str())) {
            Some(k) => Some(cut32(k)),
            None => None,
        },
        _ => None,
    }
}

/// The text of a value that is a number or a text.
pub open spec fn written_value(v: JsonView) -> Option<Seq<char>> {
    match v {
        JsonView::Number(n) => Some(n),
        JsonView::Text(t) => Some(t),
        _ => None,
    }
}

pub fn json_written(v: &JsonValue) -> (r: Option<String>)
    ensures
        crate::canvas::optional_text(r) == written_value(v@),
{
    match v {
        JsonValue::Number(n) => Some(n.clone()),
        JsonValue::Text(t) => Some(t.clone()),
        _ => None,
    }
}

// ───────────────────────────── laws ─────────────────────────────
/// Numbers are read as they are written: a size of 32 bits as a number or as a text, a
/// position of 32 bits as a number. What is neither is read as none.
pub proof fn law_numbers_are_read(n: nat, i: int)
    requires
        n <= u32::MAX,
        i32::MIN <= i <= i32::MAX,
    ensures
        u32_value(JsonView::Number(crate::text::dec(n))) == Some(n as int),
        u32_value(JsonView::Text(crate::text::dec(n))) == Some(n as int),
        i32_value(JsonView::Number(crate::text::dec_int(i))) == Some(i),
        u32_value(JsonView::Null) is None && u32_value(JsonView::Missing) is None,
        i32_value(JsonView::Null) is None && i32_value(JsonView::Missing) is None,
        written_value(JsonView::Number(crate::text::dec(n))) == Some(crate::text::dec(n)),
        written_value(JsonView::Text(crate::text::dec(n))) == Some(crate::text::dec(n)),
        written_value(JsonView::Null) is None && written_value(JsonView::Missing) is None,
{
    crate::text::law_numbers_read_back(n);
    crate::text::law_integers_read_back(i);
    assert(crate::text::is_digit(crate::text::dec(n)[0]));
}

}
