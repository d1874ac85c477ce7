//! What holds of every dataset that the reader gives.

use crate::dataelem::{
    canonical_tag, lemma_canonical_tag_form, lemma_normalize_canonical, normalize_tag_spec,
    DicomVr, ElementView, ValueKind, ValueView,
};
use crate::dataset::Dataset;
use crate::dictionary::Dictionary;
use crate::modules::io::{
    element_of, is_part10, meta_elements, meta_end, meta_step_at, meta_uid,
    resolve_transfer_syntax, spec_decode_value, spec_elem_header, spec_header_size,
    spec_read_dicom, step_at, walk_diagnostic, walk_elements, walk_pixel_data, Diagnostic,
    ElemHeader, Endianness, MetaStep, Step, TransferSyntax, VrMode,
};
use crate::text::text_value;
use vstd::prelude::*;
use vstd::utf8::{decode_utf8, valid_utf8};

verus! {

/// A value of no bytes is decoded into the empty text under a textual value
/// representation, and into no bytes of data under any other or none.
pub proof fn lemma_empty_value(vr: Option<DicomVr>, e: Endianness)
    ensures
        spec_decode_value(vr, Seq::empty(), e) == (if vr is Some && vr->0.is_text() {
            ValueView::String(Seq::empty())
        } else {
            ValueView::Data(Seq::empty())
        }),
{
    let none = Seq::<u8>::empty();
    assert(valid_utf8(none));
    assert(decode_utf8(none) =~= Seq::<char>::empty());
    assert(text_value(none) =~= Seq::<char>::empty());
}

/// A value of no bytes has the kind that its value representation
/// suggests, where that is text or data.
pub proof fn lemma_empty_value_has_suggested_kind(vr: DicomVr, e: Endianness)
    requires
        vr.kind() == ValueKind::String || vr.kind() == ValueKind::Data,
    ensures
        spec_decode_value(Some(vr), Seq::empty(), e).kind() == vr.kind(),
{
    lemma_empty_value(Some(vr), e);
}

/// The attribute of the element is an entry of the dictionary, and looking
/// up its tag gives that entry.
pub open spec fn names_dictionary_entry(dict: &Dictionary, e: ElementView) -> bool {
    match dict.by_tag(normalize_tag_spec(e.attribute.tag)) {
        Some(attribute) => attribute@ == e.attribute,
        None => false,
    }
}

/// An element that the reader makes of a header names an entry of the
/// dictionary.
pub proof fn lemma_element_names_entry(
    dict: &Dictionary,
    header: ElemHeader,
    val: Seq<u8>,
    e: Endianness,
)
    requires
        element_of(dict, header, val, e) is Some,
    ensures
        names_dictionary_entry(dict, element_of(dict, header, val, e)->0),
{
    let tag = canonical_tag(header.group, header.element);
    dict.lemma_lookup_is_entry(tag, false);
    lemma_canonical_tag_form(header.group, header.element);
    lemma_normalize_canonical(tag);
}

/// Every element of the main dataset names an entry of the dictionary.
pub proof fn lemma_walk_names_entries(
    dict: &Dictionary,
    buf: Seq<u8>,
    off: int,
    ts: TransferSyntax,
    i: int,
)
    requires
        0 <= i < walk_elements(dict, buf, off, ts).len(),
    ensures
        names_dictionary_entry(dict, walk_elements(dict, buf, off, ts)[i]),
    decreases buf.len() - off,
{
    match step_at(buf, off, ts) {
        Step::Element { header, start, end } => {
            let first = element_of(dict, header, buf.subrange(start, end), ts.endian);
            if first is Some {
                lemma_element_names_entry(dict, header, buf.subrange(start, end), ts.endian);
                if i > 0 {
                    lemma_walk_names_entries(dict, buf, end, ts, i - 1);
                }
            } else {
                lemma_walk_names_entries(dict, buf, end, ts, i);
            }
        },
        _ => {},
    }
}

/// Every element of the file meta group names an entry of the dictionary.
pub proof fn lemma_meta_names_entries(dict: &Dictionary, buf: Seq<u8>, off: int, i: int)
    requires
        0 <= i < meta_elements(dict, buf, off).len(),
    ensures
        names_dictionary_entry(dict, meta_elements(dict, buf, off)[i]),
    decreases buf.len() - off,
{
    match meta_step_at(buf, off) {
        MetaStep::Element { header, start, end } => {
            let first = element_of(dict, header, buf.subrange(start, end), Endianness::Little);
            if first is Some {
                lemma_element_names_entry(dict, header, buf.subrange(start, end), Endianness::Little);
                if i > 0 {
                    lemma_meta_names_entries(dict, buf, end, i - 1);
                }
            } else {
                lemma_meta_names_entries(dict, buf, end, i);
            }
        },
        _ => {},
    }
}

/// For every element of a dataset that was read from a buffer, of the file
/// meta group or of the main dataset, looking up the tag of its attribute
/// gives that same attribute.
pub proof fn lemma_read_names_entries(dict: &Dictionary, buf: Seq<u8>)
    ensures
        forall|i: int|
            0 <= i < spec_read_dicom(dict, buf).elements.len() ==> names_dictionary_entry(
                dict,
                #[trigger] spec_read_dicom(dict, buf).elements[i],
            ),
        forall|i: int|
            0 <= i < spec_read_dicom(dict, buf).file_meta.len() ==> names_dictionary_entry(
                dict,
                #[trigger] spec_read_dicom(dict, buf).file_meta[i],
            ),
{
    let ds = spec_read_dicom(dict, buf);
    assert forall|i: int| 0 <= i < ds.elements.len() implies names_dictionary_entry(
        dict,
        #[trigger] ds.elements[i],
    ) by {
        let ts = resolve_transfer_syntax(meta_uid(buf, 132));
        lemma_walk_names_entries(dict, buf, meta_end(buf, 132)->0, ts, i);
    }
    assert forall|i: int| 0 <= i < ds.file_meta.len() implies names_dictionary_entry(
        dict,
        #[trigger] ds.file_meta[i],
    ) by {
        lemma_meta_names_entries(dict, buf, 132, i);
    }
}

/// Two datasets read from the same buffer with the same dictionary hold the
/// same: as many elements, and equal ones at each place.
pub proof fn lemma_reading_again_gives_the_same(
    dict: &Dictionary,
    buf: Seq<u8>,
    first: Dataset,
    second: Dataset,
)
    requires
        first@ == spec_read_dicom(dict, buf),
        second@ == spec_read_dicom(dict, buf),
    ensures
        first@ == second@,
        first@.elements.len() == second@.elements.len(),
        forall|i: int| 0 <= i < first@.elements.len() ==> first@.elements[i] == second@.elements[i],
        first@.file_meta.len() == second@.file_meta.len(),
        forall|i: int|
            0 <= i < first@.file_meta.len() ==> first@.file_meta[i] == second@.file_meta[i],
        first@.pixel_data == second@.pixel_data,
{
}

/// The element that stands at `off` in the main dataset, where one stands
/// there whose tag the dictionary has.
pub open spec fn element_at(dict: &Dictionary, buf: Seq<u8>, off: int, ts: TransferSyntax) -> Option<
    ElementView,
> {
    match step_at(buf, off, ts) {
        Step::Element { header, start, end } => element_of(
            dict,
            header,
            buf.subrange(start, end),
            ts.endian,
        ),
        _ => None,
    }
}

/// The offsets at which the elements that `walk_elements` gives stand in
/// the buffer.
pub open spec fn walk_offsets(dict: &Dictionary, buf: Seq<u8>, off: int, ts: TransferSyntax) -> Seq<
    int,
>
    decreases buf.len() - off,
{
    match step_at(buf, off, ts) {
        Step::Element { header, start, end } => {
            if element_at(dict, buf, off, ts) is Some {
                seq![off] + walk_offsets(dict, buf, end, ts)
            } else {
                walk_offsets(dict, buf, end, ts)
            }
        },
        _ => Seq::empty(),
    }
}

/// The elements of the main dataset come in the order of the stream: each
/// is the element that stands at its offset, and the offsets rise from one
/// element to the next.
pub proof fn lemma_walk_keeps_stream_order(
    dict: &Dictionary,
    buf: Seq<u8>,
    off: int,
    ts: TransferSyntax,
)
    ensures
        walk_offsets(dict, buf, off, ts).len() == walk_elements(dict, buf, off, ts).len(),
        forall|i: int|
            0 <= i < walk_offsets(dict, buf, off, ts).len() ==> {
                &&& off <= #[trigger] walk_offsets(dict, buf, off, ts)[i]
                &&& element_at(dict, buf, walk_offsets(dict, buf, off, ts)[i], ts) == Some(
                    walk_elements(dict, buf, off, ts)[i],
                )
            },
        forall|i: int, j: int|
            0 <= i < j < walk_offsets(dict, buf, off, ts).len() ==> walk_offsets(
                dict,
                buf,
                off,
                ts,
            )[i] < walk_offsets(dict, buf, off, ts)[j],
    decreases buf.len() - off,
{
    match step_at(buf, off, ts) {
        Step::Element { header, start, end } => {
            lemma_walk_keeps_stream_order(dict, buf, end, ts);
            let offsets = walk_offsets(dict, buf, off, ts);
            let elements = walk_elements(dict, buf, off, ts);
            let rest_offsets = walk_offsets(dict, buf, end, ts);
            let rest_elements = walk_elements(dict, buf, end, ts);
            if element_at(dict, buf, off, ts) is Some {
                assert forall|i: int| 0 <= i < offsets.len() implies {
                    &&& off <= #[trigger] offsets[i]
                    &&& element_at(dict, buf, offsets[i], ts) == Some(elements[i])
                } by {
                    if i > 0 {
                        assert(offsets[i] == rest_offsets[i - 1]);
                        assert(elements[i] == rest_elements[i - 1]);
                    }
                }
                assert forall|i: int, j: int| 0 <= i < j < offsets.len() implies offsets[i]
                    < offsets[j] by {
                    assert(offsets[j] == rest_offsets[j - 1]);
                    if i > 0 {
                        assert(offsets[i] == rest_offsets[i - 1]);
                    }
                }
            }
        },
        _ => {},
    }
}

/// The offset at which the walk from `off` stops: the first at which no
/// whole element stands.
pub open spec fn walk_stop(buf: Seq<u8>, off: int, ts: TransferSyntax) -> int
    decreases buf.len() - off,
{
    match step_at(buf, off, ts) {
        Step::Element { header, start, end } => walk_stop(buf, end, ts),
        _ => off,
    }
}

/// The walk stops inside the buffer.
pub proof fn lemma_walk_stop_bounds(buf: Seq<u8>, off: int, ts: TransferSyntax)
    requires
        0 <= off <= buf.len(),
    ensures
        off <= walk_stop(buf, off, ts) <= buf.len(),
    decreases buf.len() - off,
{
    match step_at(buf, off, ts) {
        Step::Element { header, start, end } => {
            lemma_walk_stop_bounds(buf, end, ts);
        },
        _ => {},
    }
}

/// A header reads the same in a buffer that is cut behind it.
pub proof fn lemma_header_in_cut_buffer(
    buf: Seq<u8>,
    cut: int,
    off: int,
    endian: Endianness,
    vr_mode: VrMode,
)
    requires
        0 <= off,
        off + 8 <= cut <= buf.len(),
        off + spec_header_size(buf, off, vr_mode) <= cut,
    ensures
        spec_elem_header(buf.take(cut), off, endian, vr_mode) == spec_elem_header(
            buf,
            off,
            endian,
            vr_mode,
        ),
        spec_header_size(buf.take(cut), off, vr_mode) == spec_header_size(buf, off, vr_mode),
{
    let short = buf.take(cut);
    assert(short.subrange(off, off + 2) =~= buf.subrange(off, off + 2));
    assert(short.subrange(off + 2, off + 4) =~= buf.subrange(off + 2, off + 4));
    assert(short.subrange(off + 4, off + 8) =~= buf.subrange(off + 4, off + 8));
    assert(short.subrange(off + 6, off + 8) =~= buf.subrange(off + 6, off + 8));
    assert(short[off + 4] == buf[off + 4]);
    assert(short[off + 5] == buf[off + 5]);
    if off + 12 <= cut {
        assert(short.subrange(off + 8, off + 12) =~= buf.subrange(off + 8, off + 12));
    }
}

/// Whatever stops the walk, an element whose declared length runs over the
/// end of the buffer or anything else, the elements before it stand as they
/// would if the buffer ended where that element starts.
pub proof fn lemma_walk_ignores_what_follows_the_stop(
    dict: &Dictionary,
    buf: Seq<u8>,
    off: int,
    ts: TransferSyntax,
)
    requires
        0 <= off <= buf.len(),
    ensures
        walk_elements(dict, buf, off, ts) == walk_elements(
            dict,
            buf.take(walk_stop(buf, off, ts)),
            off,
            ts,
        ),
        walk_pixel_data(buf, off, ts) == walk_pixel_data(
            buf.take(walk_stop(buf, off, ts)),
            off,
            ts,
        ),
    decreases buf.len() - off,
{
    let stop = walk_stop(buf, off, ts);
    let short = buf.take(stop);
    lemma_walk_stop_bounds(buf, off, ts);
    match step_at(buf, off, ts) {
        Step::Element { header, start, end } => {
            lemma_walk_stop_bounds(buf, end, ts);
            lemma_header_in_cut_buffer(buf, stop, off, ts.endian, ts.vr_mode);
            assert(step_at(short, off, ts) == step_at(buf, off, ts));
            assert(short.subrange(start, end) =~= buf.subrange(start, end));
            lemma_walk_ignores_what_follows_the_stop(dict, buf, end, ts);
        },
        _ => {
            assert(step_at(short, off, ts) is End);
        },
    }
}

/// In a dataset that was read from a buffer whose file meta group is whole,
/// the elements of the main dataset come in the order of the stream: the
/// offsets at which they stand rise from one to the next.
pub proof fn lemma_read_keeps_stream_order(dict: &Dictionary, buf: Seq<u8>)
    requires
        is_part10(buf),
        meta_end(buf, 132) is Some,
    ensures
        ({
            let start = meta_end(buf, 132)->0;
            let ts = resolve_transfer_syntax(meta_uid(buf, 132));
            let offsets = walk_offsets(dict, buf, start, ts);
            let elements = spec_read_dicom(dict, buf).elements;
            &&& offsets.len() == elements.len()
            &&& forall|i: int|
                0 <= i < offsets.len() ==> start <= #[trigger] offsets[i] && element_at(
                    dict,
                    buf,
                    offsets[i],
                    ts,
                ) == Some(elements[i])
            &&& forall|i: int, j: int| 0 <= i < j < offsets.len() ==> offsets[i] < offsets[j]
        }),
{
    lemma_walk_keeps_stream_order(
        dict,
        buf,
        meta_end(buf, 132)->0,
        resolve_transfer_syntax(meta_uid(buf, 132)),
    );
}

/// What the walk reports is what stands where it stops: nothing at the end
/// of the stream, else the element of undefined length or the element that
/// runs over the end of the buffer.
pub proof fn lemma_diagnostic_names_the_stop(buf: Seq<u8>, off: int, ts: TransferSyntax)
    ensures
        walk_diagnostic(buf, off, ts) == (match step_at(buf, walk_stop(buf, off, ts), ts) {
            Step::UndefinedLength(header) => Some(
                Diagnostic::UndefinedLength { group: header.group, element: header.element },
            ),
            Step::Truncated(header) => Some(
                Diagnostic::TruncatedValue { group: header.group, element: header.element },
            ),
            _ => None,
        }),
        !(step_at(buf, walk_stop(buf, off, ts), ts) is Element),
    decreases buf.len() - off,
{
    match step_at(buf, off, ts) {
        Step::Element { header, start, end } => {
            lemma_diagnostic_names_the_stop(buf, end, ts);
        },
        _ => {},
    }
}

/// A dataset read from a buffer whose file meta group is whole holds in its
/// main part what stands before the offset at which the reader stopped: an
/// element that runs over the end of the buffer leaves the elements before
/// it, and the pixel data among them, as they are.
pub proof fn lemma_read_keeps_what_precedes_the_stop(dict: &Dictionary, buf: Seq<u8>)
    requires
        is_part10(buf),
        meta_end(buf, 132) is Some,
    ensures
        ({
            let start = meta_end(buf, 132)->0;
            let ts = resolve_transfer_syntax(meta_uid(buf, 132));
            let stop = walk_stop(buf, start, ts);
            &&& start <= stop <= buf.len()
            &&& spec_read_dicom(dict, buf).elements == walk_elements(
                dict,
                buf.take(stop),
                start,
                ts,
            )
            &&& spec_read_dicom(dict, buf).pixel_data == walk_pixel_data(buf.take(stop), start, ts)
        }),
{
    let start = meta_end(buf, 132)->0;
    let ts = resolve_transfer_syntax(meta_uid(buf, 132));
    lemma_meta_end_bounds(buf, 132);
    lemma_walk_stop_bounds(buf, start, ts);
    lemma_walk_ignores_what_follows_the_stop(dict, buf, start, ts);
}

/// A file meta group that is whole starts in the buffer or at its end, and
/// ends there too.
pub proof fn lemma_meta_end_bounds(buf: Seq<u8>, off: int)
    requires
        meta_end(buf, off) is Some,
    ensures
        0 <= off <= meta_end(buf, off)->0 <= buf.len(),
    decreases buf.len() - off,
{
    match meta_step_at(buf, off) {
        MetaStep::Element { header, start, end } => {
            lemma_meta_end_bounds(buf, end);
        },
        _ => {},
    }
}

/// Where a file meta group that is whole ends, the buffer ends or an
/// element of another group starts.
pub proof fn lemma_meta_end_is_done(buf: Seq<u8>, off: int)
    requires
        meta_end(buf, off) is Some,
    ensures
        meta_step_at(buf, meta_end(buf, off)->0) is Done,
    decreases buf.len() - off,
{
    match meta_step_at(buf, off) {
        MetaStep::Element { header, start, end } => {
            lemma_meta_end_is_done(buf, end);
        },
        _ => {},
    }
}

} // verus!
