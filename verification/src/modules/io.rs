//! The reader: integers and element headers at a cursor, the file meta
//! group, the walk through the main dataset, and the file as a whole.

use crate::dataelem::{
    attribute_by_tag, canonical_tag, element_views, format_tag, lemma_canonical_tag_form,
    lemma_normalize_canonical, DataElement, DataElementValue, DicomVr, ElementView, ValueKind,
    ValueView,
};
use crate::dataset::{Dataset, DatasetView};
use crate::dictionary::Dictionary;
use crate::modules::bytes::{
    field_at, lemma_value_2, lemma_value_4, lemma_value_8, twos_complement, unsigned_value,
};
use crate::order::str_equal;
use crate::text::{decode_text, text_value};
use vstd::prelude::*;
use vstd::slice::{slice_subrange, slice_to_vec};

verus! {

/// Byte order of the multi-byte fields of a stream.
#[derive(Debug, Clone, Copy, PartialEq, Eq, Structural)]
pub enum Endianness {
    Little,
    Big,
}

/// Whether element headers carry a two-byte value representation.
#[derive(Debug, Clone, Copy, PartialEq, Eq, Structural)]
pub enum VrMode {
    Explicit,
    Implicit,
}

/// The encoding of the main dataset.
#[derive(Debug, Clone, Copy, PartialEq, Eq, Structural)]
pub struct TransferSyntax {
    pub endian: Endianness,
    pub vr_mode: VrMode,
}

/// What a read of an unsigned 16-bit integer at `off` yields.
pub open spec fn spec_read_u16(buf: Seq<u8>, off: int, e: Endianness) -> Option<u16> {
    match field_at(buf, off, 2) {
        Some(f) => Some(unsigned_value(e, f) as u16),
        None => None,
    }
}

/// What a read of an unsigned 32-bit integer at `off` yields.
pub open spec fn spec_read_u32(buf: Seq<u8>, off: int, e: Endianness) -> Option<u32> {
    match field_at(buf, off, 4) {
        Some(f) => Some(unsigned_value(e, f) as u32),
        None => None,
    }
}

/// What a read of an unsigned 64-bit integer at `off` yields.
pub open spec fn spec_read_u64(buf: Seq<u8>, off: int, e: Endianness) -> Option<u64> {
    match field_at(buf, off, 8) {
        Some(f) => Some(unsigned_value(e, f) as u64),
        None => None,
    }
}

/// What a read of a signed 16-bit integer at `off` yields.
pub open spec fn spec_read_i16(buf: Seq<u8>, off: int, e: Endianness) -> Option<i16> {
    match field_at(buf, off, 2) {
        Some(f) => Some(twos_complement(unsigned_value(e, f), 16) as i16),
        None => None,
    }
}

/// What a read of a signed 32-bit integer at `off` yields.
pub open spec fn spec_read_i32(buf: Seq<u8>, off: int, e: Endianness) -> Option<i32> {
    match field_at(buf, off, 4) {
        Some(f) => Some(twos_complement(unsigned_value(e, f), 32) as i32),
        None => None,
    }
}

/// What a read of a signed 64-bit integer at `off` yields.
pub open spec fn spec_read_i64(buf: Seq<u8>, off: int, e: Endianness) -> Option<i64> {
    match field_at(buf, off, 8) {
        Some(f) => Some(twos_complement(unsigned_value(e, f), 64) as i64),
        None => None,
    }
}

/// Reads an unsigned 16-bit integer at the cursor and moves the cursor past
/// it; with fewer than two bytes left the cursor stays.
pub fn read_u16(buf: &[u8], off: &mut usize, e: Endianness) -> (r: Option<u16>)
    ensures
        r == spec_read_u16(buf@, *old(off) as int, e),
        r is Some ==> *final(off) == *old(off) + 2,
        r is None ==> *final(off) == *old(off),
        r matches Some(v) ==> v == unsigned_value(e, buf@.subrange(*old(off) as int, *old(off) + 2)),
{
    let at: usize = *off;
    if buf.len() < 2 || at > buf.len() - 2 {
        return None;
    }
    proof {
        lemma_value_2(buf@.subrange(at as int, at + 2));
    }
    let b0: u16 = buf[at] as u16;
    let b1: u16 = buf[at + 1] as u16;
    let v: u16 = match e {
        Endianness::Little => b0 + 256 * b1,
        Endianness::Big => 256 * b0 + b1,
    };
    *off = at + 2;
    Some(v)
}

/// Reads an unsigned 32-bit integer at the cursor and moves the cursor past
/// it; with fewer than four bytes left the cursor stays.
pub fn read_u32(buf: &[u8], off: &mut usize, e: Endianness) -> (r: Option<u32>)
    ensures
        r == spec_read_u32(buf@, *old(off) as int, e),
        r is Some ==> *final(off) == *old(off) + 4,
        r is None ==> *final(off) == *old(off),
        r matches Some(v) ==> v == unsigned_value(e, buf@.subrange(*old(off) as int, *old(off) + 4)),
{
    let at: usize = *off;
    if buf.len() < 4 || at > buf.len() - 4 {
        return None;
    }
    proof {
        lemma_value_4(buf@.subrange(at as int, at + 4));
    }
    let b0: u32 = buf[at] as u32;
    let b1: u32 = buf[at + 1] as u32;
    let b2: u32 = buf[at + 2] as u32;
    let b3: u32 = buf[at + 3] as u32;
    let v: u32 = match e {
        Endianness::Little => b0 + 0x100 * b1 + 0x1_0000 * b2 + 0x100_0000 * b3,
        Endianness::Big => 0x100_0000 * b0 + 0x1_0000 * b1 + 0x100 * b2 + b3,
    };
    *off = at + 4;
    Some(v)
}

/// Reads an unsigned 64-bit integer at the cursor and moves the cursor past
/// it; with fewer than eight bytes left the cursor stays.
pub fn read_u64(buf: &[u8], off: &mut usize, e: Endianness) -> (r: Option<u64>)
    ensures
        r == spec_read_u64(buf@, *old(off) as int, e),
        r is Some ==> *final(off) == *old(off) + 8,
        r is None ==> *final(off) == *old(off),
        r matches Some(v) ==> v == unsigned_value(e, buf@.subrange(*old(off) as int, *old(off) + 8)),
{
    let at: usize = *off;
    if buf.len() < 8 || at > buf.len() - 8 {
        return None;
    }
    proof {
        lemma_value_8(buf@.subrange(at as int, at + 8));
    }
    let b0: u64 = buf[at] as u64;
    let b1: u64 = buf[at + 1] as u64;
    let b2: u64 = buf[at + 2] as u64;
    let b3: u64 = buf[at + 3] as u64;
    let b4: u64 = buf[at + 4] as u64;
    let b5: u64 = buf[at + 5] as u64;
    let b6: u64 = buf[at + 6] as u64;
    let b7: u64 = buf[at + 7] as u64;
    let v: u64 = match e {
        Endianness::Little => b0 + 0x100 * b1 + 0x1_0000 * b2 + 0x100_0000 * b3 + 0x1_0000_0000
            * b4 + 0x100_0000_0000 * b5 + 0x1_0000_0000_0000 * b6 + 0x100_0000_0000_0000 * b7,
        Endianness::Big => 0x100_0000_0000_0000 * b0 + 0x1_0000_0000_0000 * b1 + 0x100_0000_0000
            * b2 + 0x1_0000_0000 * b3 + 0x100_0000 * b4 + 0x1_0000 * b5 + 0x100 * b6 + b7,
    };
    *off = at + 8;
    Some(v)
}

/// Reads a signed 16-bit integer at the cursor and moves the cursor past it;
/// with fewer than two bytes left the cursor stays.
pub fn read_i16(buf: &[u8], off: &mut usize, e: Endianness) -> (r: Option<i16>)
    ensures
        r == spec_read_i16(buf@, *old(off) as int, e),
        r is Some ==> *final(off) == *old(off) + 2,
        r is None ==> *final(off) == *old(off),
{
    match read_u16(buf, off, e) {
        Some(v) => {
            if v >= 0x8000 {
                Some((v as i32 - 0x1_0000) as i16)
            } else {
                Some(v as i16)
            }
        },
        None => None,
    }
}

/// Reads a signed 32-bit integer at the cursor and moves the cursor past it;
/// with fewer than four bytes left the cursor stays.
pub fn read_i32(buf: &[u8], off: &mut usize, e: Endianness) -> (r: Option<i32>)
    ensures
        r == spec_read_i32(buf@, *old(off) as int, e),
        r is Some ==> *final(off) == *old(off) + 4,
        r is None ==> *final(off) == *old(off),
{
    match read_u32(buf, off, e) {
        Some(v) => {
            if v >= 0x8000_0000 {
                Some((v as i64 - 0x1_0000_0000) as i32)
            } else {
                Some(v as i32)
            }
        },
        None => None,
    }
}

/// Reads a signed 64-bit integer at the cursor and moves the cursor past it;
/// with fewer than eight bytes left the cursor stays.
pub fn read_i64(buf: &[u8], off: &mut usize, e: Endianness) -> (r: Option<i64>)
    ensures
        r == spec_read_i64(buf@, *old(off) as int, e),
        r is Some ==> *final(off) == *old(off) + 8,
        r is None ==> *final(off) == *old(off),
{
    match read_u64(buf, off, e) {
        Some(v) => {
            if v >= 0x8000_0000_0000_0000 {
                Some(((v - 0x8000_0000_0000_0000) as i64) + i64::MIN)
            } else {
                Some(v as i64)
            }
        },
        None => None,
    }
}

/// The fixed part that precedes the value of every element.
#[derive(Debug, Clone, Copy)]
pub struct ElemHeader {
    pub group: u16,
    pub element: u16,
    pub vr: Option<[u8; 2]>,
    pub len: u32,
}

/// The value representations whose explicit header holds two reserved
/// bytes and a 32-bit length: OB, OW, OF, SQ, UT and UN.
pub open spec fn is_long_vr(c0: u8, c1: u8) -> bool {
    ||| (c0 == 0x4F && c1 == 0x42)
    ||| (c0 == 0x4F && c1 == 0x57)
    ||| (c0 == 0x4F && c1 == 0x46)
    ||| (c0 == 0x53 && c1 == 0x51)
    ||| (c0 == 0x55 && c1 == 0x54)
    ||| (c0 == 0x55 && c1 == 0x4E)
}

/// The header that stands at `off`, where the buffer holds all of it.
pub open spec fn spec_elem_header(
    buf: Seq<u8>,
    off: int,
    endian: Endianness,
    vr_mode: VrMode,
) -> Option<ElemHeader> {
    if off < 0 || off + 8 > buf.len() {
        None
    } else {
        let group = spec_read_u16(buf, off, endian)->0;
        let element = spec_read_u16(buf, off + 2, endian)->0;
        match vr_mode {
            VrMode::Implicit => Some(
                ElemHeader { group, element, vr: None, len: spec_read_u32(buf, off + 4, endian)->0 },
            ),
            VrMode::Explicit => {
                let vr = [buf[off + 4], buf[off + 5]];
                if is_long_vr(buf[off + 4], buf[off + 5]) {
                    if off + 12 > buf.len() {
                        None
                    } else {
                        Some(
                            ElemHeader {
                                group,
                                element,
                                vr: Some(vr),
                                len: spec_read_u32(buf, off + 8, endian)->0,
                            },
                        )
                    }
                } else {
                    Some(
                        ElemHeader {
                            group,
                            element,
                            vr: Some(vr),
                            len: spec_read_u16(buf, off + 6, endian)->0 as u32,
                        },
                    )
                }
            },
        }
    }
}

/// The number of bytes that the header at `off` takes.
pub open spec fn spec_header_size(buf: Seq<u8>, off: int, vr_mode: VrMode) -> int {
    if vr_mode == VrMode::Explicit && is_long_vr(buf[off + 4], buf[off + 5]) {
        12
    } else {
        8
    }
}

/// Where the cursor stands after an attempt to read the header at `off`:
/// past the header where it was read, else past the fields that were.
pub open spec fn spec_header_cursor(buf: Seq<u8>, off: int, vr_mode: VrMode) -> int {
    if off < 0 || off + 2 > buf.len() {
        off
    } else if off + 4 > buf.len() {
        off + 2
    } else if vr_mode == VrMode::Implicit {
        if off + 8 > buf.len() { off + 4 } else { off + 8 }
    } else if off + 6 > buf.len() {
        off + 4
    } else if is_long_vr(buf[off + 4], buf[off + 5]) {
        if off + 8 > buf.len() {
            off + 6
        } else if off + 12 > buf.len() {
            off + 8
        } else {
            off + 12
        }
    } else {
        if off + 8 > buf.len() { off + 6 } else { off + 8 }
    }
}

/// Reads the header of the element at the cursor: the tag, then in explicit
/// mode the value representation with a 16-bit length, or two reserved bytes
/// and a 32-bit length, and in implicit mode a 32-bit length.
pub fn read_elem_header(
    buf: &[u8],
    off: &mut usize,
    endian: Endianness,
    vr_mode: VrMode,
) -> (r: Option<ElemHeader>)
    ensures
        r == spec_elem_header(buf@, *old(off) as int, endian, vr_mode),
        *final(off) == spec_header_cursor(buf@, *old(off) as int, vr_mode),
        r is Some ==> *final(off) == *old(off) + spec_header_size(buf@, *old(off) as int, vr_mode),
{
    let group = read_u16(buf, off, endian)?;
    let element = read_u16(buf, off, endian)?;
    match vr_mode {
        VrMode::Explicit => {
            let at: usize = *off;
            if buf.len() < 2 || at > buf.len() - 2 {
                return None;
            }
            let vr = [buf[at], buf[at + 1]];
            *off = at + 2;
            let is_long = (vr[0] == 0x4F && (vr[1] == 0x42 || vr[1] == 0x57 || vr[1] == 0x46))
                || (vr[0] == 0x53 && vr[1] == 0x51) || (vr[0] == 0x55 && (vr[1] == 0x54 || vr[1]
                == 0x4E));
            if is_long {
                let at: usize = *off;
                if buf.len() < 2 || at > buf.len() - 2 {
                    return None;
                }
                *off = at + 2;
                let len = read_u32(buf, off, endian)?;
                Some(ElemHeader { group, element, vr: Some(vr), len })
            } else {
                let len = read_u16(buf, off, endian)?;
                Some(ElemHeader { group, element, vr: Some(vr), len: len as u32 })
            }
        },
        VrMode::Implicit => {
            let len = read_u32(buf, off, endian)?;
            Some(ElemHeader { group, element, vr: None, len })
        },
    }
}

/// What the bytes of a value are decoded into under a value
/// representation: text for the textual ones; for a scalar one the number,
/// where the value has its width; else the bytes as they are.
pub open spec fn spec_decode_value(vr: Option<DicomVr>, val: Seq<u8>, e: Endianness) -> ValueView {
    let kind = match vr {
        Some(v) => v.kind(),
        None => ValueKind::Data,
    };
    let n = unsigned_value(e, val);
    match kind {
        ValueKind::String => ValueView::String(text_value(val)),
        ValueKind::UInt16 if val.len() == 2 => ValueView::UInt16(n as u16),
        ValueKind::Int16 if val.len() == 2 => ValueView::Int16(twos_complement(n, 16) as i16),
        ValueKind::UInt32 if val.len() == 4 => ValueView::UInt32(n as u32),
        ValueKind::Int32 if val.len() == 4 => ValueView::Int32(twos_complement(n, 32) as i32),
        ValueKind::UInt64 if val.len() == 8 => ValueView::UInt64(n as u64),
        ValueKind::Int64 if val.len() == 8 => ValueView::Int64(twos_complement(n, 64) as i64),
        ValueKind::Float if val.len() == 4 => ValueView::Float(n as u32),
        ValueKind::Double if val.len() == 8 => ValueView::Double(n as u64),
        ValueKind::Tag if val.len() == 4 => ValueView::Tag(
            unsigned_value(e, val.subrange(0, 2)) as u16,
            unsigned_value(e, val.subrange(2, 4)) as u16,
        ),
        _ => ValueView::Data(val),
    }
}

/// Decodes the bytes of a value under the value representation of its
/// attribute.
pub fn decode_value(vr: Option<DicomVr>, val: &[u8], endian: Endianness) -> (r: DataElementValue)
    ensures
        r@ == spec_decode_value(vr, val@, endian),
{
    let kind = match vr {
        Some(v) => v.suggested_value_kind(),
        None => ValueKind::Data,
    };
    let mut cursor: usize = 0;
    proof {
        assert(val@.subrange(0, val@.len() as int) =~= val@);
    }
    match kind {
        ValueKind::String => DataElementValue::String(decode_text(val)),
        ValueKind::UInt16 => {
            if val.len() == 2 {
                match read_u16(val, &mut cursor, endian) {
                    Some(v) => DataElementValue::UInt16(v),
                    None => DataElementValue::Data(slice_to_vec(val)),
                }
            } else {
                DataElementValue::Data(slice_to_vec(val))
            }
        },
        ValueKind::Int16 => {
            if val.len() == 2 {
                match read_i16(val, &mut cursor, endian) {
                    Some(v) => DataElementValue::Int16(v),
                    None => DataElementValue::Data(slice_to_vec(val)),
                }
            } else {
                DataElementValue::Data(slice_to_vec(val))
            }
        },
        ValueKind::UInt32 => {
            if val.len() == 4 {
                match read_u32(val, &mut cursor, endian) {
                    Some(v) => DataElementValue::UInt32(v),
                    None => DataElementValue::Data(slice_to_vec(val)),
                }
            } else {
                DataElementValue::Data(slice_to_vec(val))
            }
        },
        ValueKind::Int32 => {
            if val.len() == 4 {
                match read_i32(val, &mut cursor, endian) {
                    Some(v) => DataElementValue::Int32(v),
                    None => DataElementValue::Data(slice_to_vec(val)),
                }
            } else {
                DataElementValue::Data(slice_to_vec(val))
            }
        },
        ValueKind::UInt64 => {
            if val.len() == 8 {
                match read_u64(val, &mut cursor, endian) {
                    Some(v) => DataElementValue::UInt64(v),
                    None => DataElementValue::Data(slice_to_vec(val)),
                }
            } else {
                DataElementValue::Data(slice_to_vec(val))
            }
        },
        ValueKind::Int64 => {
            if val.len() == 8 {
                match read_i64(val, &mut cursor, endian) {
                    Some(v) => DataElementValue::Int64(v),
                    None => DataElementValue::Data(slice_to_vec(val)),
                }
            } else {
                DataElementValue::Data(slice_to_vec(val))
            }
        },
        ValueKind::Float => {
            if val.len() == 4 {
                match read_u32(val, &mut cursor, endian) {
                    Some(v) => DataElementValue::Float(v),
                    None => DataElementValue::Data(slice_to_vec(val)),
                }
            } else {
                DataElementValue::Data(slice_to_vec(val))
            }
        },
        ValueKind::Double => {
            if val.len() == 8 {
                match read_u64(val, &mut cursor, endian) {
                    Some(v) => DataElementValue::Double(v),
                    None => DataElementValue::Data(slice_to_vec(val)),
                }
            } else {
                DataElementValue::Data(slice_to_vec(val))
            }
        },
        ValueKind::Tag => {
            if val.len() == 4 {
                let group = read_u16(val, &mut cursor, endian);
                let element = read_u16(val, &mut cursor, endian);
                match (group, element) {
                    (Some(g), Some(e)) => DataElementValue::Tag(g, e),
                    _ => DataElementValue::Data(slice_to_vec(val)),
                }
            } else {
                DataElementValue::Data(slice_to_vec(val))
            }
        },
        _ => DataElementValue::Data(slice_to_vec(val)),
    }
}

/// What the reader reports of a stream that it could not read to its end.
#[derive(Debug, Clone, Copy, PartialEq, Eq, Structural)]
pub enum Diagnostic {
    /// The element declares the undefined length `0xFFFFFFFF`.
    UndefinedLength { group: u16, element: u16 },
    /// The element declares more bytes than the buffer holds behind its
    /// header.
    TruncatedValue { group: u16, element: u16 },
}

/// What stands at an offset of the main dataset.
pub enum Step {
    /// Fewer than eight bytes are left, or the header is cut short.
    End,
    /// A header with the undefined length.
    UndefinedLength(ElemHeader),
    /// A header whose length runs over the end of the buffer.
    Truncated(ElemHeader),
    /// An element whose value takes the bytes from `start` up to `end`.
    Element { header: ElemHeader, start: int, end: int },
}

/// What stands at `off`.
pub open spec fn step_at(buf: Seq<u8>, off: int, ts: TransferSyntax) -> Step {
    if off + 8 > buf.len() {
        Step::End
    } else {
        match spec_elem_header(buf, off, ts.endian, ts.vr_mode) {
            None => Step::End,
            Some(header) => {
                let start = off + spec_header_size(buf, off, ts.vr_mode);
                if header.len == 0xFFFF_FFFF {
                    Step::UndefinedLength(header)
                } else if start + header.len > buf.len() {
                    Step::Truncated(header)
                } else {
                    Step::Element { header, start, end: start + header.len }
                }
            },
        }
    }
}

/// The tag of the pixel data, `(7FE0,0010)`.
pub open spec fn is_pixel_data(header: ElemHeader) -> bool {
    header.group == 0x7FE0 && header.element == 0x0010
}

/// The element that a header and the bytes of its value make: none where the
/// dictionary lacks the tag; for the pixel data one without a value; else
/// one with the value decoded.
pub open spec fn element_of(dict: &Dictionary, header: ElemHeader, val: Seq<u8>, e: Endianness) -> Option<
    ElementView,
> {
    match dict.by_tag(canonical_tag(header.group, header.element)) {
        None => None,
        Some(attribute) => Some(
            ElementView {
                attribute: attribute@,
                value: if is_pixel_data(header) {
                    None
                } else {
                    Some(spec_decode_value(attribute.vr, val, e))
                },
            },
        ),
    }
}

/// `first`, where there is one, before `rest`.
pub open spec fn prepend(first: Option<ElementView>, rest: Seq<ElementView>) -> Seq<ElementView> {
    match first {
        Some(e) => seq![e] + rest,
        None => rest,
    }
}

/// `late` where there is one, else `early`.
pub open spec fn latest<T>(early: Option<T>, late: Option<T>) -> Option<T> {
    match late {
        Some(_) => late,
        None => early,
    }
}

/// The elements of the main dataset from `off` on, in the order of the
/// stream, up to its end or to the first element that cannot be read.
pub open spec fn walk_elements(dict: &Dictionary, buf: Seq<u8>, off: int, ts: TransferSyntax) -> Seq<
    ElementView,
>
    decreases buf.len() - off,
{
    match step_at(buf, off, ts) {
        Step::Element { header, start, end } => prepend(
            element_of(dict, header, buf.subrange(start, end), ts.endian),
            walk_elements(dict, buf, end, ts),
        ),
        _ => Seq::empty(),
    }
}

/// The value of the last pixel data element among those that
/// `walk_elements` reads.
pub open spec fn walk_pixel_data(buf: Seq<u8>, off: int, ts: TransferSyntax) -> Option<Seq<u8>>
    decreases buf.len() - off,
{
    match step_at(buf, off, ts) {
        Step::Element { header, start, end } => latest(
            if is_pixel_data(header) {
                Some(buf.subrange(start, end))
            } else {
                None
            },
            walk_pixel_data(buf, end, ts),
        ),
        _ => None,
    }
}

/// What stopped the walk from `off` before the end of the stream, if
/// anything did.
pub open spec fn walk_diagnostic(buf: Seq<u8>, off: int, ts: TransferSyntax) -> Option<Diagnostic>
    decreases buf.len() - off,
{
    match step_at(buf, off, ts) {
        Step::End => None,
        Step::UndefinedLength(header) => Some(
            Diagnostic::UndefinedLength { group: header.group, element: header.element },
        ),
        Step::Truncated(header) => Some(
            Diagnostic::TruncatedValue { group: header.group, element: header.element },
        ),
        Step::Element { header, start, end } => walk_diagnostic(buf, end, ts),
    }
}

/// Makes the element of a header and the bytes of its value.
fn make_element(dict: &Dictionary, header: &ElemHeader, val: &[u8], endian: Endianness) -> (r:
    Option<DataElement>)
    ensures
        match r {
            Some(e) => element_of(dict, *header, val@, endian) == Some(e@),
            None => element_of(dict, *header, val@, endian) is None,
        },
{
    let tag = format_tag(header.group, header.element);
    proof {
        lemma_canonical_tag_form(header.group, header.element);
        lemma_normalize_canonical(canonical_tag(header.group, header.element));
    }
    match attribute_by_tag(dict, tag.as_str()) {
        None => None,
        Some(attribute) => {
            if header.group == 0x7FE0 && header.element == 0x0010 {
                Some(DataElement { attribute, value: None })
            } else {
                Some(DataElement { attribute, value: Some(decode_value(attribute.vr, val, endian)) })
            }
        },
    }
}

/// Reads the elements of the main dataset from `start` on into `ds`, in the
/// order of the stream, and stops at the end of the stream or at the first
/// element that cannot be read, which it reports.
pub fn walk_dataset(
    dict: &Dictionary,
    buf: &[u8],
    start: usize,
    ts: TransferSyntax,
    ds: &mut Dataset,
) -> (r: Option<Diagnostic>)
    ensures
        final(ds)@.file_meta == old(ds)@.file_meta,
        final(ds)@.elements == old(ds)@.elements + walk_elements(dict, buf@, start as int, ts),
        final(ds)@.pixel_data == latest(
            old(ds)@.pixel_data,
            walk_pixel_data(buf@, start as int, ts),
        ),
        r == walk_diagnostic(buf@, start as int, ts),
{
    let mut off: usize = start;
    loop
        invariant
            ds@.file_meta == old(ds)@.file_meta,
            old(ds)@.elements + walk_elements(dict, buf@, start as int, ts) == ds@.elements
                + walk_elements(dict, buf@, off as int, ts),
            latest(old(ds)@.pixel_data, walk_pixel_data(buf@, start as int, ts)) == latest(
                ds@.pixel_data,
                walk_pixel_data(buf@, off as int, ts),
            ),
            walk_diagnostic(buf@, start as int, ts) == walk_diagnostic(buf@, off as int, ts),
        decreases buf@.len() - off,
    {
        proof {
            assert(ds@.elements + Seq::<ElementView>::empty() =~= ds@.elements);
        }
        if buf.len() < 8 || off > buf.len() - 8 {
            return None;
        }
        let mut cursor: usize = off;
        let header = match read_elem_header(buf, &mut cursor, ts.endian, ts.vr_mode) {
            Some(h) => h,
            None => {
                return None;
            },
        };
        if header.len == 0xFFFF_FFFF {
            return Some(
                Diagnostic::UndefinedLength { group: header.group, element: header.element },
            );
        }
        let len: usize = header.len as usize;
        if len > buf.len() - cursor {
            return Some(
                Diagnostic::TruncatedValue { group: header.group, element: header.element },
            );
        }
        let val = slice_subrange(buf, cursor, cursor + len);
        let ghost before = ds@;
        let ghost rest = walk_elements(dict, buf@, cursor + len, ts);
        if header.group == 0x7FE0 && header.element == 0x0010 {
            ds.set_pixel_data(slice_to_vec(val));
        }
        match make_element(dict, &header, val, ts.endian) {
            Some(e) => {
                ds.push(e);
                proof {
                    assert(before.elements + (seq![e@] + rest) =~= before.elements.push(e@) + rest);
                }
            },
            None => {},
        }
        off = cursor + len;
    }
}

/// Implicit value representations in little-endian order: the default.
pub open spec fn implicit_little() -> TransferSyntax {
    TransferSyntax { endian: Endianness::Little, vr_mode: VrMode::Implicit }
}

/// The transfer syntax that a UID names. One that this reader does not know
/// has explicit value representations in little-endian byte order.
pub open spec fn spec_ts_from_uid(uid: Seq<char>) -> TransferSyntax {
    if uid == "1.2.840.10008.1.2"@ {
        implicit_little()
    } else if uid == "1.2.840.10008.1.2.1"@ {
        TransferSyntax { endian: Endianness::Little, vr_mode: VrMode::Explicit }
    } else if uid == "1.2.840.10008.1.2.2"@ {
        TransferSyntax { endian: Endianness::Big, vr_mode: VrMode::Explicit }
    } else {
        TransferSyntax { endian: Endianness::Little, vr_mode: VrMode::Explicit }
    }
}

/// The transfer syntax that a UID names.
pub fn ts_from_uid(uid: &str) -> (ts: TransferSyntax)
    ensures
        ts == spec_ts_from_uid(uid@),
{
    if str_equal(uid, "1.2.840.10008.1.2") {
        TransferSyntax { endian: Endianness::Little, vr_mode: VrMode::Implicit }
    } else if str_equal(uid, "1.2.840.10008.1.2.1") {
        TransferSyntax { endian: Endianness::Little, vr_mode: VrMode::Explicit }
    } else if str_equal(uid, "1.2.840.10008.1.2.2") {
        TransferSyntax { endian: Endianness::Big, vr_mode: VrMode::Explicit }
    } else {
        TransferSyntax { endian: Endianness::Little, vr_mode: VrMode::Explicit }
    }
}

/// The transfer syntax of the main dataset, given the transfer syntax UID
/// of the file meta group: the default where there is none or an empty one.
pub open spec fn resolve_transfer_syntax(uid: Option<Seq<char>>) -> TransferSyntax {
    match uid {
        Some(u) if u.len() > 0 => spec_ts_from_uid(u),
        _ => implicit_little(),
    }
}

/// What stands at an offset of the file meta group.
pub enum MetaStep {
    /// The end of the buffer, or the header of an element of another group.
    Done,
    /// An offset behind the end of the buffer, a header that is cut short,
    /// or a value that runs over the end of the buffer.
    Fail,
    /// An element of the group, whose value takes the bytes from `start` up
    /// to `end`.
    Element { header: ElemHeader, start: int, end: int },
}

/// What stands at `off`, read with explicit value representations in
/// little-endian order.
pub open spec fn meta_step_at(buf: Seq<u8>, off: int) -> MetaStep {
    if off > buf.len() {
        MetaStep::Fail
    } else if off == buf.len() {
        MetaStep::Done
    } else {
        match spec_elem_header(buf, off, Endianness::Little, VrMode::Explicit) {
            None => MetaStep::Fail,
            Some(header) => {
                let start = off + spec_header_size(buf, off, VrMode::Explicit);
                if header.group != 0x0002 {
                    MetaStep::Done
                } else if start + header.len > buf.len() {
                    MetaStep::Fail
                } else {
                    MetaStep::Element { header, start, end: start + header.len }
                }
            },
        }
    }
}

/// The offset of the first byte behind the file meta group that starts at
/// `off`; none where the group is cut short or `off` lies behind the end of
/// the buffer.
pub open spec fn meta_end(buf: Seq<u8>, off: int) -> Option<int>
    decreases buf.len() - off,
{
    match meta_step_at(buf, off) {
        MetaStep::Done => Some(off),
        MetaStep::Fail => None,
        MetaStep::Element { header, start, end } => meta_end(buf, end),
    }
}

/// The elements of the file meta group from `off` on, in the order of the
/// stream.
pub open spec fn meta_elements(dict: &Dictionary, buf: Seq<u8>, off: int) -> Seq<ElementView>
    decreases buf.len() - off,
{
    match meta_step_at(buf, off) {
        MetaStep::Element { header, start, end } => prepend(
            element_of(dict, header, buf.subrange(start, end), Endianness::Little),
            meta_elements(dict, buf, end),
        ),
        _ => Seq::empty(),
    }
}

/// The text of the last element `(0002,0010)` of the file meta group from
/// `off` on.
pub open spec fn meta_uid(buf: Seq<u8>, off: int) -> Option<Seq<char>>
    decreases buf.len() - off,
{
    match meta_step_at(buf, off) {
        MetaStep::Element { header, start, end } => latest(
            if header.element == 0x0010 {
                Some(text_value(buf.subrange(start, end)))
            } else {
                None
            },
            meta_uid(buf, end),
        ),
        _ => None,
    }
}

/// The characters of the string, where there is one.
spec fn text_of(s: Option<String>) -> Option<Seq<char>> {
    match s {
        Some(s) => Some(s@),
        None => None,
    }
}

/// Reads the file meta group that starts at `off`, which has explicit value
/// representations in little-endian order whatever it announces. Gives the
/// transfer syntax of the main dataset, the offset of its first byte, which
/// lies in the buffer or at its end, and the elements of the group; nothing
/// where the group is cut short or `off` lies behind the end of the buffer.
pub fn parse_file_meta(dict: &Dictionary, buf: &[u8], off: usize) -> (r: Option<
    (TransferSyntax, usize, Vec<DataElement>),
>)
    ensures
        match r {
            None => meta_end(buf@, off as int) is None,
            Some((ts, end, elements)) => {
                &&& off <= end <= buf@.len()
                &&& meta_end(buf@, off as int) == Some(end as int)
                &&& ts == resolve_transfer_syntax(meta_uid(buf@, off as int))
                &&& element_views(elements@) == meta_elements(dict, buf@, off as int)
            },
        },
{
    if off > buf.len() {
        return None;
    }
    let mut pos: usize = off;
    let mut uid: Option<String> = None;
    let mut elements: Vec<DataElement> = Vec::new();
    assert(element_views(elements@) =~= Seq::empty());
    assert(Seq::<ElementView>::empty() + meta_elements(dict, buf@, pos as int) =~= meta_elements(
        dict,
        buf@,
        pos as int,
    ));
    loop
        invariant
            off <= pos <= buf@.len(),
            meta_end(buf@, off as int) == meta_end(buf@, pos as int),
            meta_elements(dict, buf@, off as int) == element_views(elements@) + meta_elements(
                dict,
                buf@,
                pos as int,
            ),
            meta_uid(buf@, off as int) == latest(text_of(uid), meta_uid(buf@, pos as int)),
        decreases buf@.len() - pos,
    {
        proof {
            assert(element_views(elements@) + Seq::<ElementView>::empty() =~= element_views(
                elements@,
            ));
        }
        let mut cursor: usize = pos;
        let header = if pos == buf.len() {
            None
        } else {
            match read_elem_header(buf, &mut cursor, Endianness::Little, VrMode::Explicit) {
                Some(h) => Some(h),
                None => {
                    return None;
                },
            }
        };
        let header = match header {
            Some(h) if h.group == 0x0002 => h,
            _ => {
                let ts = match &uid {
                    Some(u) if !u.as_str().is_empty() => ts_from_uid(u.as_str()),
                    _ => TransferSyntax { endian: Endianness::Little, vr_mode: VrMode::Implicit },
                };
                return Some((ts, pos, elements));
            },
        };
        let len: usize = header.len as usize;
        if len > buf.len() - cursor {
            return None;
        }
        let val = slice_subrange(buf, cursor, cursor + len);
        if header.element == 0x0010 {
            uid = Some(decode_text(val));
        }
        let ghost before = element_views(elements@);
        let ghost rest = meta_elements(dict, buf@, cursor + len);
        match make_element(dict, &header, val, Endianness::Little) {
            Some(e) => {
                elements.push(e);
                proof {
                    assert(element_views(elements@) =~= before.push(e@));
                    assert(before + (seq![e@] + rest) =~= before.push(e@) + rest);
                }
            },
            None => {},
        }
        pos = cursor + len;
    }
}

/// Whether the buffer starts as a file of this format does: a preamble of
/// 128 bytes, then `DICM`.
pub open spec fn is_part10(buf: Seq<u8>) -> bool {
    &&& buf.len() >= 132
    &&& buf[128] == 0x44
    &&& buf[129] == 0x49
    &&& buf[130] == 0x43
    &&& buf[131] == 0x4D
}

/// The dataset that a buffer holds: nothing where the buffer does not
/// start as a file of this format does or its file meta group is cut
/// short; else the elements of the file meta group, and those of the main
/// dataset as its transfer syntax has them.
pub open spec fn spec_read_dicom(dict: &Dictionary, buf: Seq<u8>) -> DatasetView {
    if !is_part10(buf) {
        DatasetView::empty()
    } else {
        match meta_end(buf, 132) {
            None => DatasetView::empty(),
            Some(end) => {
                let ts = resolve_transfer_syntax(meta_uid(buf, 132));
                DatasetView {
                    file_meta: meta_elements(dict, buf, 132),
                    elements: walk_elements(dict, buf, end, ts),
                    pixel_data: walk_pixel_data(buf, end, ts),
                }
            },
        }
    }
}

/// What stopped the reader in the main dataset of a buffer, if anything
/// did.
pub open spec fn spec_read_diagnostic(buf: Seq<u8>) -> Option<Diagnostic> {
    if !is_part10(buf) {
        None
    } else {
        match meta_end(buf, 132) {
            None => None,
            Some(end) => walk_diagnostic(buf, end, resolve_transfer_syntax(meta_uid(buf, 132))),
        }
    }
}

/// Reads the dataset that a buffer holds, and says what stopped the reader
/// in the main dataset, if anything did.
pub fn parse_dicom(dict: &Dictionary, buffer: &[u8]) -> (r: (Dataset, Option<Diagnostic>))
    ensures
        r.0@ == spec_read_dicom(dict, buffer@),
        r.1 == spec_read_diagnostic(buffer@),
{
    let mut ds = Dataset::new();
    if buffer.len() < 132 {
        return (ds, None);
    }
    if buffer[128] != 0x44 || buffer[129] != 0x49 || buffer[130] != 0x43 || buffer[131] != 0x4D {
        return (ds, None);
    }
    let (ts, off, file_meta) = match parse_file_meta(dict, buffer, 132) {
        Some(v) => v,
        None => {
            return (ds, None);
        },
    };
    ds.set_file_meta(file_meta);
    let diagnostic = walk_dataset(dict, buffer, off, ts, &mut ds);
    proof {
        let elements = walk_elements(dict, buffer@, off as int, ts);
        assert(Seq::<ElementView>::empty() + elements =~= elements);
    }
    (ds, diagnostic)
}

/// Reads the dataset that a buffer holds. A buffer that does not start as
/// a file of this format does gives the empty dataset.
pub fn read_dicom(dict: &Dictionary, buffer: &[u8]) -> (ds: Dataset)
    ensures
        ds@ == spec_read_dicom(dict, buffer@),
        !is_part10(buffer@) ==> ds@ == DatasetView::empty(),
{
    let (ds, _) = parse_dicom(dict, buffer);
    ds
}

} // verus!
