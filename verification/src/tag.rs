//! Tag records and the typed value decoder.
//!
//! Each IFD entry is a 12-byte record: a 16-bit identifier, a 16-bit type
//! code, a 32-bit value count, and a 4-byte field that holds the value
//! inline when `element size * count` fits in 4 bytes, and otherwise holds
//! the absolute offset of an out-of-line value block. The decoder resolves
//! the record into a named, typed value list.

use vstd::prelude::*;
use vstd::slice::slice_subrange;

use crate::bytes::{
    le_value, lemma_le_value_bound, lemma_pow256_values, read_u16_at, read_u32_at, signed_value,
};
use crate::error::RawFileError;

verus! {

/// One decoded, widened element of a tag's value list.
///
/// The twelve TIFF field types widen to these payload kinds. Floating-point
/// typed tags (type codes 11 and 12) are carried as their raw IEEE-754 bit
/// patterns, exactly as the file stores them.
#[derive(Clone, Copy, Debug, PartialEq, Eq, Structural)]
pub enum TagValue {
    /// Types 1, 3, 4 and 7: an unsigned value widened to 32 bits.
    Unsigned(u32),
    /// Types 6, 8 and 9: a signed value widened to 32 bits.
    Signed(i32),
    /// Type 5: an unsigned rational's numerator and denominator packed as
    /// one 64-bit value, numerator in the low half.
    U64(u64),
    /// Type 10: a signed rational packed the same way.
    I64(i64),
    /// Type 11: the raw bits of a 32-bit IEEE-754 value.
    F32Bits(u32),
    /// Type 12: the raw bits of a 64-bit IEEE-754 value.
    F64Bits(u64),
}

/// A tag's decoded values: a list of scalars, or — for ASCII-typed tags
/// (type code 2) — the characters accumulated into one string.
#[derive(Debug, PartialEq, Eq)]
pub enum TagPayload {
    Values(Vec<TagValue>),
    Text(String),
}

/// The mathematical shape of a [`TagPayload`].
pub ghost enum PayloadModel {
    Values(Seq<TagValue>),
    Text(Seq<char>),
}

impl View for TagPayload {
    type V = PayloadModel;

    open spec fn view(&self) -> PayloadModel {
        match self {
            TagPayload::Values(v) => PayloadModel::Values(v@),
            TagPayload::Text(s) => PayloadModel::Text(s@),
        }
    }
}

/// One fully decoded IFD entry: the tag identifier, its resolved name, and
/// its value list.
#[derive(Debug, PartialEq, Eq)]
pub struct DecodedTag {
    pub id: u16,
    pub name: String,
    pub payload: TagPayload,
}

/// The mathematical shape of a [`DecodedTag`].
pub ghost struct TagModel {
    pub id: u16,
    pub name: Seq<char>,
    pub payload: PayloadModel,
}

impl View for DecodedTag {
    type V = TagModel;

    open spec fn view(&self) -> TagModel {
        TagModel { id: self.id, name: self.name@, payload: self.payload@ }
    }
}

/// Bytes per element for each of the twelve TIFF value types; `None` for
/// every other code.
pub open spec fn spec_element_size(code: u16) -> Option<u64> {
    if code == 1 || code == 2 || code == 6 || code == 7 {
        Some(1u64)
    } else if code == 3 || code == 8 {
        Some(2u64)
    } else if code == 4 || code == 9 || code == 11 {
        Some(4u64)
    } else if code == 5 || code == 10 || code == 12 {
        Some(8u64)
    } else {
        None
    }
}

/// Resolves a type code to its per-element size in bytes, or reports the
/// unrecognized code.
pub fn element_size(code: u16) -> (r: Result<u64, RawFileError>)
    ensures
        r is Ok <==> spec_element_size(code) is Some,
        r matches Ok(s) ==> spec_element_size(code) == Some(s),
        r matches Err(e) ==> e == RawFileError::TypeError(code),
{
    match code {
        1 | 2 | 6 | 7 => Ok(1),
        3 | 8 => Ok(2),
        4 | 9 | 11 => Ok(4),
        5 | 10 | 12 => Ok(8),
        _ => Err(RawFileError::TypeError(code)),
    }
}

/// Law: the element-size table is total over the twelve TIFF type codes.
/// Every code from 1 to 12 maps to exactly one size among {1, 2, 4, 8}, and
/// every other 16-bit code maps to none.
pub proof fn lemma_element_size_total()
    ensures
        forall|code: u16| (1 <= code <= 12) <==> (#[trigger] spec_element_size(code)) is Some,
        forall|code: u16|
            (#[trigger] spec_element_size(code)) matches Some(s) ==> (s == 1 || s == 2 || s == 4
                || s == 8),
{
}

/// The human-readable name of a tag identifier; identifiers outside the
/// fixed table keep the placeholder name so that no tag is dropped.
pub open spec fn spec_tag_name(id: u16) -> Seq<char> {
    if id == 0x100 {
        "width"@
    } else if id == 0x101 {
        "height"@
    } else if id == 0x102 {
        "bits_per_sample"@
    } else if id == 0x103 {
        "compression"@
    } else if id == 0x10f {
        "make"@
    } else if id == 0x110 {
        "model"@
    } else if id == 0x111 {
        "strip_offset"@
    } else if id == 0x112 {
        "orientation"@
    } else if id == 0x117 {
        "strip_byte_count"@
    } else if id == 0x11a {
        "x_resolution"@
    } else if id == 0x11b {
        "y_resolution"@
    } else if id == 0x128 {
        "res_unit"@
    } else if id == 0x132 {
        "date_time"@
    } else if id == 0xc640 {
        "strip_cr2_slice"@
    } else {
        "???"@
    }
}

/// Maps a tag identifier to its human-readable name.
pub fn tag_name(id: u16) -> (r: &'static str)
    ensures
        r@ == spec_tag_name(id),
{
    match id {
        0x100 => "width",
        0x101 => "height",
        0x102 => "bits_per_sample",
        0x103 => "compression",
        0x10f => "make",
        0x110 => "model",
        0x111 => "strip_offset",
        0x112 => "orientation",
        0x117 => "strip_byte_count",
        0x11a => "x_resolution",
        0x11b => "y_resolution",
        0x128 => "res_unit",
        0x132 => "date_time",
        0xc640 => "strip_cr2_slice",
        _ => "???",
    }
}

/// The widened scalar a non-text chunk of `spec_element_size(code)` bytes
/// decodes to.
pub open spec fn spec_scalar(code: u16, chunk: Seq<u8>) -> TagValue
    recommends
        spec_element_size(code) is Some,
        chunk.len() == spec_element_size(code)->Some_0,
        code != 2,
{
    if code == 1 || code == 3 || code == 4 || code == 7 {
        TagValue::Unsigned(le_value(chunk) as u32)
    } else if code == 5 {
        TagValue::U64(le_value(chunk) as u64)
    } else if code == 6 || code == 8 || code == 9 {
        TagValue::Signed(signed_value(chunk) as i32)
    } else if code == 10 {
        TagValue::I64(signed_value(chunk) as i64)
    } else if code == 11 {
        TagValue::F32Bits(le_value(chunk) as u32)
    } else {
        TagValue::F64Bits(le_value(chunk) as u64)
    }
}

/// Decodes one chunk of exactly `spec_element_size(code)` bytes.
fn scalar_from_chunk(code: u16, chunk: &[u8]) -> (r: TagValue)
    requires
        spec_element_size(code) is Some,
        chunk@.len() == spec_element_size(code)->Some_0,
        code != 2,
    ensures
        r == spec_scalar(code, chunk@),
{
    proof {
        lemma_le_value_bound(chunk@);
        lemma_pow256_values();
    }
    match code {
        1 | 7 => TagValue::Unsigned(crate::bytes::le_u8(chunk).unwrap() as u32),
        3 => TagValue::Unsigned(crate::bytes::le_u16(chunk).unwrap() as u32),
        4 => TagValue::Unsigned(crate::bytes::le_u32(chunk).unwrap()),
        5 => TagValue::U64(crate::bytes::le_u64(chunk).unwrap()),
        6 => TagValue::Signed(crate::bytes::le_i8(chunk).unwrap() as i32),
        8 => TagValue::Signed(crate::bytes::le_i16(chunk).unwrap() as i32),
        9 => TagValue::Signed(crate::bytes::le_i32(chunk).unwrap()),
        10 => TagValue::I64(crate::bytes::le_i64(chunk).unwrap()),
        11 => TagValue::F32Bits(crate::bytes::le_u32(chunk).unwrap()),
        _ => TagValue::F64Bits(crate::bytes::le_u64(chunk).unwrap()),
    }
}

/// The payload that `count` elements of type `code` decode to from the byte
/// window `win`: a character string for ASCII-typed tags, a scalar list for
/// every other type.
pub open spec fn spec_payload(code: u16, size: int, count: int, win: Seq<u8>) -> PayloadModel
    recommends
        spec_element_size(code) is Some,
        size == spec_element_size(code)->Some_0,
        0 <= count,
        size * count <= win.len(),
{
    if code == 2 {
        PayloadModel::Text(Seq::new(count as nat, |i: int| win[i] as char))
    } else {
        PayloadModel::Values(
            Seq::new(count as nat, |i: int| spec_scalar(code, win.subrange(i * size, i * size + size))),
        )
    }
}

/// The outcome of decoding one 12-byte tag record against the whole file.
///
/// When `element size * count` fits in the four inline bytes, the values come
/// from the record's own value field and the rest of the file is never read;
/// otherwise the field is the absolute offset of an out-of-line block of
/// exactly `element size * count` bytes, which must lie inside the data.
pub open spec fn spec_decode_tag(data: Seq<u8>, rec: Seq<u8>) -> Result<TagModel, RawFileError>
    recommends
        rec.len() == 12,
{
    let id = le_value(rec.subrange(0, 2)) as u16;
    let code = le_value(rec.subrange(2, 4)) as u16;
    let count = le_value(rec.subrange(4, 8)) as u32;
    match spec_element_size(code) {
        Some(size) => {
            let total = (size as int) * (count as int);
            if total <= 4 {
                Ok(
                    TagModel {
                        id,
                        name: spec_tag_name(id),
                        payload: spec_payload(code, size as int, count as int, rec.subrange(8, 12)),
                    },
                )
            } else {
                let off = le_value(rec.subrange(8, 12));
                if off + total <= data.len() {
                    Ok(
                        TagModel {
                            id,
                            name: spec_tag_name(id),
                            payload: spec_payload(
                                code,
                                size as int,
                                count as int,
                                data.subrange(off, off + total),
                            ),
                        },
                    )
                } else {
                    Err(RawFileError::Seek(off as u64))
                }
            }
        },
        None => Err(RawFileError::TypeError(code)),
    }
}

/// The model a decoded-tag result stands for: the view of the tag on
/// success, the error itself otherwise.
pub open spec fn tag_result_view(r: Result<DecodedTag, RawFileError>) -> Result<
    TagModel,
    RawFileError,
> {
    match r {
        Ok(t) => Ok(t@),
        Err(e) => Err(e),
    }
}

/// Law: a tag whose total value size fits in the four inline bytes is
/// decoded from the record alone — no other byte of the file can affect the
/// result.
pub proof fn lemma_inline_tag_ignores_data(data1: Seq<u8>, data2: Seq<u8>, rec: Seq<u8>)
    requires
        rec.len() == 12,
        ({
            let code = le_value(rec.subrange(2, 4)) as u16;
            let count = le_value(rec.subrange(4, 8));
            &&& spec_element_size(code) is Some
            &&& (spec_element_size(code)->Some_0 as int) * count <= 4
        }),
    ensures
        spec_decode_tag(data1, rec) == spec_decode_tag(data2, rec),
{
    lemma_le_value_bound(rec.subrange(4, 8));
    lemma_pow256_values();
}

/// Relies on `String::push`: appends one character to the end of the string.
#[verifier::external_body]
fn push_char(s: &mut String, c: char)
    ensures
        final(s)@ == old(s)@.push(c),
{
    s.push(c)
}

/// Splits the byte window into `count` chunks of `size` bytes and decodes
/// each one; ASCII-typed chunks accumulate into a single string.
pub fn decode_payload(code: u16, size: u64, count: u32, win: &[u8]) -> (r: TagPayload)
    requires
        spec_element_size(code) == Some(size),
        size * count <= win@.len(),
    ensures
        r@ == spec_payload(code, size as int, count as int, win@),
{
    if code == 2 {
        let mut s = String::new();
        let mut k: usize = 0;
        while k < count as usize
            invariant
                k <= count,
                code == 2,
                spec_element_size(code) == Some(size),
                size * count <= win@.len(),
                size == 1,
                s@ == Seq::new(k as nat, |i: int| win@[i] as char),
            decreases count - k,
        {
            let b = win[k];
            push_char(&mut s, b as char);
            proof {
                assert(s@ =~= Seq::new((k + 1) as nat, |i: int| win@[i] as char));
            }
            k = k + 1;
        }
        proof {
            assert(s@ =~= Seq::new(count as nat, |i: int| win@[i] as char));
        }
        TagPayload::Text(s)
    } else {
        let size_us = size as usize;
        let mut v: Vec<TagValue> = Vec::new();
        let mut k: usize = 0;
        while k < count as usize
            invariant
                k <= count,
                code != 2,
                spec_element_size(code) == Some(size),
                size * count <= win@.len(),
                size_us == size,
                v@ == Seq::new(
                    k as nat,
                    |i: int| spec_scalar(code, win@.subrange(i * size, i * size + size)),
                ),
            decreases count - k,
        {
            let _wn = win.len();
            proof {
                assert(k * size + size == (k + 1) * size) by (nonlinear_arith);
                assert(0 <= k * size) by (nonlinear_arith)
                    requires
                        0 <= k,
                        0 <= size,
                ;
                assert((k + 1) * size <= count * size) by (nonlinear_arith)
                    requires
                        k + 1 <= count,
                        size >= 0,
                ;
                assert(count * size == size * count) by (nonlinear_arith);
            }
            let start = k * size_us;
            let chunk = slice_subrange(win, start, start + size_us);
            let val = scalar_from_chunk(code, chunk);
            v.push(val);
            proof {
                assert(v@ =~= Seq::new(
                    (k + 1) as nat,
                    |i: int| spec_scalar(code, win@.subrange(i * size, i * size + size)),
                ));
            }
            k = k + 1;
        }
        proof {
            assert(v@ =~= Seq::new(
                count as nat,
                |i: int| spec_scalar(code, win@.subrange(i * size, i * size + size)),
            ));
        }
        TagPayload::Values(v)
    }
}

/// Decodes one 12-byte tag record, resolving its values inline or from the
/// out-of-line block the record points into `data`.
pub fn decode_tag(data: &[u8], rec: &[u8]) -> (r: Result<DecodedTag, RawFileError>)
    requires
        rec@.len() == 12,
    ensures
        tag_result_view(r) == spec_decode_tag(data@, rec@),
{
    proof {
        lemma_le_value_bound(rec@.subrange(0, 2));
        lemma_le_value_bound(rec@.subrange(2, 4));
        lemma_le_value_bound(rec@.subrange(4, 8));
        lemma_le_value_bound(rec@.subrange(8, 12));
        lemma_pow256_values();
    }
    let id = read_u16_at(rec, 0);
    let code = read_u16_at(rec, 2);
    let count = read_u32_at(rec, 4);
    let size = match element_size(code) {
        Ok(s) => s,
        Err(e) => { return Err(e) },
    };
    proof {
        assert((size as int) * (count as int) <= 8 * 0xffff_ffff) by (nonlinear_arith)
            requires
                size <= 8,
                count <= 0xffff_ffffu32,
        ;
        assert(0 <= (size as int) * (count as int)) by (nonlinear_arith)
            requires
                0 <= size,
                0 <= count,
        ;
    }
    let total: u64 = size * (count as u64);
    if total <= 4 {
        let win = slice_subrange(rec, 8, 12);
        let payload = decode_payload(code, size, count, win);
        Ok(DecodedTag { id, name: tag_name(id).to_owned(), payload })
    } else {
        let off = read_u32_at(rec, 8);
        if off as u64 + total <= data.len() as u64 {
            let start = off as usize;
            let end = (off as u64 + total) as usize;
            let win = slice_subrange(data, start, end);
            let payload = decode_payload(code, size, count, win);
            Ok(DecodedTag { id, name: tag_name(id).to_owned(), payload })
        } else {
            Err(RawFileError::Seek(off as u64))
        }
    }
}

} // verus!
