//! A cursor walks the documents of a packed file in the order in which they
//! were written.
//!
//! The byte at place `n` of the contents of a packed file stands in page
//! `n / 4094` at offset `n % 4094 + 2`. A cursor that stands where a
//! document starts reads that document, and the next step takes it to where
//! the next document starts, as long as a record is not longer than the
//! room behind the header of one page.

use crate::codec::error::CodecError;
use crate::codec::field::FieldView;
use crate::codec::le::{
    le_bytes, lemma_le_bytes_len, lemma_le_value_of_bytes, lemma_radix_pow_values,
};
use crate::codec::wire::{entries_wire, well_formed};
use crate::cursor::{advanced, fits_gap, gap_fill, removed_at, size_at};
use crate::document::{document_wire, lemma_document_roundtrip, parse_document};
use crate::file::frame_at;
use crate::page::{least, lemma_blank_valid, PageView};
use crate::pager::laws::{
    contents, contents_from, lemma_contents_from, lemma_overwrite_raw, lemma_read_from,
    lemma_stream_raw, packed, payload_before, position_of, raw_byte, raw_range, used_bytes,
};
use crate::pager::{spread, stream, SpanMode};
use crate::file::frames_valid;
use crate::page::zeros;
use vstd::prelude::*;

verus! {

/// The bytes before page `upto` are 4094 for each page.
pub proof fn lemma_payload_before_len(frames: Seq<PageView>, upto: int)
    requires
        crate::file::frames_valid(frames),
        0 <= upto,
    ensures
        payload_before(frames, upto).len() == 4094 * upto,
    decreases upto,
{
    lemma_blank_valid();
    if upto > 0 {
        lemma_payload_before_len(frames, upto - 1);
        assert(frame_at(frames, upto - 1).valid());
    }
}

/// The contents from a page on start with the bytes of that page.
pub proof fn lemma_contents_from_head(frames: Seq<PageView>, from: int, tail: int)
    requires
        packed(frames, tail),
        0 <= from <= tail,
    ensures
        contents_from(frames, from, tail).len() >= used_bytes(frames, from).len(),
        forall|i: int|
            0 <= i < used_bytes(frames, from).len() ==> #[trigger] contents_from(
                frames,
                from,
                tail,
            )[i] == frame_at(frames, from).bytes[i + 2],
        from < tail ==> contents_from(frames, from, tail) == frame_at(frames, from).bytes.subrange(
            2,
            4096,
        ) + contents_from(frames, from + 1, tail),
{
    lemma_blank_valid();
    assert(frame_at(frames, from).valid());
}

/// Reading at the place of a byte of the contents of a packed file gives
/// the contents from that byte on.
pub proof fn lemma_read_at_place(frames: Seq<PageView>, tail: int, place: int, len: int)
    requires
        packed(frames, tail),
        0 <= place,
        0 <= len,
        place + len <= contents(frames, tail).len(),
    ensures
        stream(frames, position_of(place).0, position_of(place).1, len) == contents(
            frames,
            tail,
        ).subrange(place, place + len),
{
    let page = place / 4094;
    let within = place % 4094;
    let whole = contents(frames, tail);
    lemma_blank_valid();
    lemma_payload_before_len(frames, tail);
    if len == 0 {
        assert(whole.subrange(place, place) =~= Seq::<u8>::empty());
    } else {
        assert(page <= tail) by {
            assert(whole.len() <= 4094 * tail + 4094) by {
                assert(frame_at(frames, tail).valid());
            }
        }
        lemma_payload_before_len(frames, page);
        lemma_contents_from(frames, page, tail);
        let rest = contents_from(frames, page, tail);
        assert(whole == payload_before(frames, page) + rest);
        assert(whole.subrange(place, place + len) =~= rest.subrange(within, within + len));
        let here = frame_at(frames, page);
        assert(here.valid());
        let share = least(len, 4094 - within);
        lemma_contents_from_head(frames, page, tail);
        if page == tail {
            assert(share == len);
            assert(stream(frames, page + 1, 2, 0) =~= Seq::<u8>::empty());
            assert(stream(frames, page, within + 2, len) =~= rest.subrange(within, within + len));
        } else {
            let later = contents_from(frames, page + 1, tail);
            assert(rest == here.bytes.subrange(2, 4096) + later);
            if share == len {
                assert(stream(frames, page + 1, 2, 0) =~= Seq::<u8>::empty());
                assert(stream(frames, page, within + 2, len) =~= rest.subrange(
                    within,
                    within + len,
                ));
            } else {
                lemma_read_from(frames, page + 1, tail, len - share);
                assert(here.read(len, within + 2) + later.take(len - share) =~= rest.subrange(
                    within,
                    within + len,
                ));
            }
        }
    }
}

/// A step of `by` bytes from the place of a byte leads to the place of the
/// byte that stands `by` bytes further, where the step is not longer than
/// the room behind the header of one page.
pub proof fn lemma_advanced_place(place: int, by: int)
    requires
        0 <= place,
        0 <= by <= 4094,
    ensures
        advanced(position_of(place).0, position_of(place).1, by) == position_of(place + by),
{
    let page = place / 4094;
    let within = place % 4094;
    let reached = within + 2 + by;
    if reached < 4096 {
        assert(reached / 4096 == 0);
        assert(reached % 4096 == reached);
        assert((place + by) / 4094 == page && (place + by) % 4094 == within + by) by {
            assert(place + by == 4094 * page + (within + by));
            lemma_quotient(place + by, 4094, page, within + by);
        }
    } else {
        assert(reached < 8192);
        assert(reached / 4096 == 1);
        assert(reached % 4096 == reached - 4096);
        assert((place + by) / 4094 == page + 1 && (place + by) % 4094 == within + by - 4094) by {
            assert(place + by == 4094 * (page + 1) + (within + by - 4094));
            lemma_quotient(place + by, 4094, page + 1, within + by - 4094);
        }
    }
}

/// A number that is a multiple and a rest has them as quotient and remainder.
pub proof fn lemma_quotient(value: int, divisor: int, quotient: int, rest: int)
    requires
        divisor > 0,
        0 <= rest < divisor,
        value == divisor * quotient + rest,
    ensures
        value / divisor == quotient,
        value % divisor == rest,
{
    assert(value == quotient * divisor + rest) by (nonlinear_arith)
        requires
            value == divisor * quotient + rest,
    ;
    vstd::arithmetic::div_mod::lemma_fundamental_div_mod_converse(value, divisor, quotient, rest);
}

/// A cursor that stands where a document starts in a packed file finds the
/// length of the document there, reads the document, and is taken by its
/// next step to the byte behind the document.
pub proof fn lemma_cursor_reads(
    frames: Seq<PageView>,
    tail: int,
    before: Seq<u8>,
    fields: Seq<(Seq<char>, FieldView)>,
    after: Seq<u8>,
)
    requires
        packed(frames, tail),
        contents(frames, tail) == before + document_wire(fields) + after,
        well_formed(FieldView::Mapping(fields)),
        document_wire(fields).len() <= 4094,
    ensures
        size_at(frames, position_of(before.len() as int).0, position_of(before.len() as int).1)
            == entries_wire(fields).len(),
        parse_document(
            stream(
                frames,
                position_of(before.len() as int).0,
                position_of(before.len() as int).1,
                entries_wire(fields).len() as int + 4,
            ),
        ) == Ok::<Seq<(Seq<char>, FieldView)>, CodecError>(fields),
        advanced(
            position_of(before.len() as int).0,
            position_of(before.len() as int).1,
            entries_wire(fields).len() as int + 4,
        ) == position_of((before.len() + document_wire(fields).len()) as int),
{
    let place = before.len() as int;
    let record = document_wire(fields);
    let whole = contents(frames, tail);
    let body = entries_wire(fields);
    lemma_radix_pow_values();
    lemma_le_bytes_len(body.len(), 4);
    lemma_le_value_of_bytes(body.len(), 4);
    assert(record.len() == 4 + body.len());
    lemma_read_at_place(frames, tail, place, 4);
    assert(whole.subrange(place, place + 4) =~= le_bytes(body.len(), 4));
    lemma_read_at_place(frames, tail, place, record.len() as int);
    assert(whole.subrange(place, place + record.len()) =~= record);
    lemma_document_roundtrip(fields, Seq::empty());
    assert(record + Seq::<u8>::empty() =~= record);
    lemma_advanced_place(place, record.len() as int);
}

/// A cursor that stands where the encoding of a document stands in the
/// stream finds the length of the document there, reads the document, and
/// is taken by its next step to the byte behind the document.
pub proof fn lemma_cursor_reads_stream(
    frames: Seq<PageView>,
    place: int,
    fields: Seq<(Seq<char>, FieldView)>,
)
    requires
        frames_valid(frames),
        0 <= place,
        raw_range(frames, place, document_wire(fields).len() as int) == document_wire(fields),
        well_formed(FieldView::Mapping(fields)),
        document_wire(fields).len() <= 4094,
    ensures
        size_at(frames, position_of(place).0, position_of(place).1) == entries_wire(fields).len(),
        parse_document(
            stream(
                frames,
                position_of(place).0,
                position_of(place).1,
                entries_wire(fields).len() as int + 4,
            ),
        ) == Ok::<Seq<(Seq<char>, FieldView)>, CodecError>(fields),
        advanced(
            position_of(place).0,
            position_of(place).1,
            entries_wire(fields).len() as int + 4,
        ) == position_of(place + document_wire(fields).len()),
{
    let record = document_wire(fields);
    let body = entries_wire(fields);
    lemma_radix_pow_values();
    lemma_le_bytes_len(body.len(), 4);
    lemma_le_value_of_bytes(body.len(), 4);
    assert(record.len() == 4 + body.len());
    lemma_stream_raw(frames, place, 4);
    assert(raw_range(frames, place, 4) =~= le_bytes(body.len(), 4)) by {
        assert forall|i: int| 0 <= i < 4 implies raw_range(frames, place, 4)[i] == le_bytes(
            body.len(),
            4,
        )[i] by {
            assert(raw_range(frames, place, record.len() as int)[i] == record[i]);
        }
    }
    lemma_stream_raw(frames, place, record.len() as int);
    lemma_document_roundtrip(fields, Seq::empty());
    assert(record + Seq::<u8>::empty() =~= record);
    lemma_advanced_place(place, record.len() as int);
}

/// The length of the record at a place, read from the stream.
pub proof fn lemma_size_at_place(frames: Seq<PageView>, place: int)
    requires
        frames_valid(frames),
        0 <= place,
    ensures
        size_at(frames, position_of(place).0, position_of(place).1) == crate::codec::le::le_value(
            raw_range(frames, place, 4),
        ),
        advanced(position_of(place).0, position_of(place).1, 4) == position_of(place + 4),
{
    lemma_stream_raw(frames, place, 4);
    lemma_advanced_place(place, 4);
}

/// Removing the document at a place leaves its length as it is and zeros in
/// the place of its fields, so that the cursor finds a removed document
/// there; every other byte of the stream is as it was.
pub proof fn lemma_remove_leaves_tombstone(frames: Seq<PageView>, limit: int, place: int)
    requires
        frames_valid(frames),
        0 <= place,
        !spread(
            frames,
            limit,
            SpanMode::Erase,
            position_of(place + 4).0,
            position_of(place + 4).1,
            zeros(size_at(frames, position_of(place).0, position_of(place).1)),
        ).failed,
    ensures
        advanced(position_of(place).0, position_of(place).1, 4) == position_of(place + 4),
        ({
            let size = size_at(frames, position_of(place).0, position_of(place).1);
            let after = spread(
                frames,
                limit,
                SpanMode::Erase,
                position_of(place + 4).0,
                position_of(place + 4).1,
                zeros(size),
            ).frames;
            &&& frames_valid(after)
            &&& size_at(after, position_of(place).0, position_of(place).1) == size
            &&& removed_at(after, position_of(place).0, position_of(place).1)
            &&& forall|x: int|
                0 <= x && !(place + 4 <= x < place + 4 + size) ==> #[trigger] raw_byte(after, x)
                    == raw_byte(frames, x)
        }),
{
    let size = size_at(frames, position_of(place).0, position_of(place).1);
    let data = zeros(size);
    let after = spread(
        frames,
        limit,
        SpanMode::Erase,
        position_of(place + 4).0,
        position_of(place + 4).1,
        data,
    ).frames;
    lemma_size_at_place(frames, place);
    assert(data =~= zeros(data.len() as int));
    lemma_overwrite_raw(frames, limit, SpanMode::Erase, place + 4, data);
    lemma_size_at_place(after, place);
    assert(raw_range(after, place, 4) =~= raw_range(frames, place, 4)) by {
        assert forall|i: int| 0 <= i < 4 implies raw_range(after, place, 4)[i] == raw_range(
            frames,
            place,
            4,
        )[i] by {
            assert(raw_byte(after, place + i) == raw_byte(frames, place + i));
        }
    }
    lemma_stream_raw(after, place + 4, size);
    assert forall|i: int| 0 <= i < size implies #[trigger] raw_range(after, place + 4, size)[i]
        == 0 by {
        assert(raw_byte(after, place + 4 + i) == data[i]);
    }
}

/// Putting a document into the gap that a removed document left at a place
/// makes the cursor read that document there. Where the document is smaller
/// than the gap, the cursor finds behind it a removed document that takes
/// the rest of the gap. Every byte of the stream behind the gap is as it
/// was, and the steps of the cursor lead to the byte behind the gap.
pub proof fn lemma_reinsert_fills_gap(
    frames: Seq<PageView>,
    limit: int,
    place: int,
    fields: Seq<(Seq<char>, FieldView)>,
)
    requires
        frames_valid(frames),
        0 <= place,
        removed_at(frames, position_of(place).0, position_of(place).1),
        well_formed(FieldView::Mapping(fields)),
        fits_gap(
            entries_wire(fields).len() as int,
            size_at(frames, position_of(place).0, position_of(place).1),
        ),
        size_at(frames, position_of(place).0, position_of(place).1) + 4 <= 4094,
        !spread(
            frames,
            limit,
            SpanMode::Replace,
            position_of(place).0,
            position_of(place).1,
            gap_fill(fields, size_at(frames, position_of(place).0, position_of(place).1)),
        ).failed,
    ensures
        ({
            let gap = size_at(frames, position_of(place).0, position_of(place).1);
            let size = entries_wire(fields).len() as int;
            let after = spread(
                frames,
                limit,
                SpanMode::Replace,
                position_of(place).0,
                position_of(place).1,
                gap_fill(fields, gap),
            ).frames;
            let behind = position_of(place + 4 + size);
            &&& frames_valid(after)
            &&& size_at(after, position_of(place).0, position_of(place).1) == size
            &&& parse_document(
                stream(after, position_of(place).0, position_of(place).1, size + 4),
            ) == Ok::<Seq<(Seq<char>, FieldView)>, CodecError>(fields)
            &&& advanced(position_of(place).0, position_of(place).1, size + 4) == behind
            &&& (size < gap ==> {
                &&& size_at(after, behind.0, behind.1) == gap - size - 4
                &&& removed_at(after, behind.0, behind.1)
                &&& advanced(behind.0, behind.1, gap - size - 4 + 4) == position_of(
                    place + 4 + gap,
                )
            })
            &&& forall|x: int|
                place + 4 + gap <= x ==> #[trigger] raw_byte(after, x) == raw_byte(frames, x)
        }),
{
    let gap = size_at(frames, position_of(place).0, position_of(place).1);
    let size = entries_wire(fields).len() as int;
    let record = document_wire(fields);
    let data = gap_fill(fields, gap);
    let after = spread(
        frames,
        limit,
        SpanMode::Replace,
        position_of(place).0,
        position_of(place).1,
        data,
    ).frames;
    lemma_radix_pow_values();
    lemma_le_bytes_len(size as nat, 4);
    assert(record.len() == 4 + size);
    lemma_size_at_place(frames, place);
    lemma_overwrite_raw(frames, limit, SpanMode::Replace, place, data);
    assert(raw_range(after, place, record.len() as int) =~= record) by {
        assert forall|i: int| 0 <= i < record.len() implies raw_range(
            after,
            place,
            record.len() as int,
        )[i] == record[i] by {
            assert(raw_byte(after, place + i) == data[i]);
        }
    }
    lemma_cursor_reads_stream(after, place, fields);
    if size < gap {
        let left = gap - size - 4;
        let start = place + 4 + size;
        lemma_le_bytes_len(left as nat, 4);
        lemma_le_value_of_bytes(left as nat, 4);
        assert(data.len() == record.len() + 4);
        lemma_size_at_place(after, start);
        assert(raw_range(after, start, 4) =~= le_bytes(left as nat, 4)) by {
            assert forall|i: int| 0 <= i < 4 implies raw_range(after, start, 4)[i] == le_bytes(
                left as nat,
                4,
            )[i] by {
                assert(raw_byte(after, start + i) == data[record.len() + i]);
            }
        }
        lemma_stream_raw(after, start + 4, left);
        lemma_stream_raw(frames, place + 4, gap);
        assert forall|i: int| 0 <= i < left implies #[trigger] raw_range(after, start + 4, left)[i]
            == 0 by {
            assert(raw_byte(after, start + 4 + i) == raw_byte(frames, start + 4 + i));
            assert(raw_range(frames, place + 4, gap)[size + 4 + i] == 0);
        }
        lemma_advanced_place(start, left + 4);
    }
}

} // verus!
