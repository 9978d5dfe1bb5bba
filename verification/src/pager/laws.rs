//! What is written behind the other is read back as one stream.
//!
//! A file is packed up to a page where every page before that page is full
//! and every page behind it is empty. The contents of such a file are the
//! bytes behind the headers of the full pages and the used bytes of the last
//! page. Appending from that page on keeps the file packed and adds the
//! bytes to the contents; reading from the start of the first page gives the
//! contents.

use crate::file::{frame_at, frames_valid, lemma_stored, lemma_stored_valid, stored};
use crate::page::{
    least, lemma_blank_valid, lemma_erased_valid, lemma_put_bytes, lemma_put_read, lemma_put_valid,
    PageView,
};
use crate::pager::{idle_bound, page_after, page_share, spread, stream, write_start, SpanMode};
use vstd::prelude::*;

verus! {

/// Every page before `tail` is full and every page behind it is empty.
pub open spec fn packed(frames: Seq<PageView>, tail: int) -> bool {
    &&& frames_valid(frames)
    &&& 0 <= tail
    &&& forall|i: int| 0 <= i < tail ==> (#[trigger] frame_at(frames, i)).occupied == 4096
    &&& forall|i: int| i > tail ==> (#[trigger] frame_at(frames, i)).occupied == 2
}

/// The bytes behind the headers of the pages before `upto`.
pub open spec fn payload_before(frames: Seq<PageView>, upto: int) -> Seq<u8>
    decreases upto,
{
    if upto <= 0 {
        Seq::<u8>::empty()
    } else {
        payload_before(frames, upto - 1) + frame_at(frames, upto - 1).bytes.subrange(2, 4096)
    }
}

/// The used bytes of page `page` behind its header.
pub open spec fn used_bytes(frames: Seq<PageView>, page: int) -> Seq<u8> {
    frame_at(frames, page).bytes.subrange(2, frame_at(frames, page).occupied)
}

/// The contents of a file that is packed up to `tail`.
pub open spec fn contents(frames: Seq<PageView>, tail: int) -> Seq<u8> {
    payload_before(frames, tail) + used_bytes(frames, tail)
}

/// The contents of a file that is packed up to `tail`, from page `from` on.
pub open spec fn contents_from(frames: Seq<PageView>, from: int, tail: int) -> Seq<u8>
    decreases tail - from,
{
    if from > tail {
        Seq::<u8>::empty()
    } else if from == tail {
        used_bytes(frames, tail)
    } else {
        frame_at(frames, from).bytes.subrange(2, 4096) + contents_from(frames, from + 1, tail)
    }
}

/// A file without pages is packed up to its first page and holds nothing.
pub proof fn lemma_empty_is_packed()
    ensures
        packed(Seq::<PageView>::empty(), 0),
        contents(Seq::<PageView>::empty(), 0) == Seq::<u8>::empty(),
{
    lemma_blank_valid();
    assert(payload_before(Seq::<PageView>::empty(), 0) =~= Seq::<u8>::empty());
    assert(used_bytes(Seq::<PageView>::empty(), 0) =~= Seq::<u8>::empty());
    assert(contents(Seq::<PageView>::empty(), 0) =~= Seq::<u8>::empty());
}

/// Storing a page changes nothing of what lies before it.
pub proof fn lemma_payload_before_stored(
    frames: Seq<PageView>,
    at: int,
    page: PageView,
    upto: int,
)
    requires
        0 <= at,
        upto <= at,
    ensures
        payload_before(stored(frames, at, page), upto) == payload_before(frames, upto),
    decreases upto,
{
    if upto > 0 {
        lemma_payload_before_stored(frames, at, page, upto - 1);
        lemma_stored(frames, at, page);
        assert(frame_at(stored(frames, at, page), upto - 1) == frame_at(frames, upto - 1));
    }
}

/// The contents are the pages from the first on.
pub proof fn lemma_contents_from(frames: Seq<PageView>, from: int, tail: int)
    requires
        0 <= from <= tail,
    ensures
        payload_before(frames, from) + contents_from(frames, from, tail) == contents(frames, tail),
    decreases tail - from,
{
    if from < tail {
        lemma_contents_from(frames, from + 1, tail);
        assert(payload_before(frames, from) + (frame_at(frames, from).bytes.subrange(2, 4096)
            + contents_from(frames, from + 1, tail)) =~= payload_before(frames, from + 1)
            + contents_from(frames, from + 1, tail));
    }
}

/// Bytes appended from page `page` of a packed file on keep the file packed
/// and stand behind its contents.
pub proof fn lemma_append(frames: Seq<PageView>, limit: int, page: int, data: Seq<u8>)
    requires
        packed(frames, page),
        !spread(frames, limit, SpanMode::Append, page, 2, data).failed,
    ensures
        packed(
            spread(frames, limit, SpanMode::Append, page, 2, data).frames,
            spread(frames, limit, SpanMode::Append, page, 2, data).last,
        ),
        contents(
            spread(frames, limit, SpanMode::Append, page, 2, data).frames,
            spread(frames, limit, SpanMode::Append, page, 2, data).last,
        ) == contents(frames, page) + data,
        spread(frames, limit, SpanMode::Append, page, 2, data).last >= page,
        data.len() > 0 ==> frame_at(
            spread(frames, limit, SpanMode::Append, page, 2, data).frames,
            spread(frames, limit, SpanMode::Append, page, 2, data).last,
        ).occupied > 2,
        spread(frames, limit, SpanMode::Append, page, 2, data).last == page ==> frame_at(
            spread(frames, limit, SpanMode::Append, page, 2, data).frames,
            page,
        ).occupied >= frame_at(frames, page).occupied,
    decreases data.len(), idle_bound(frames, page, 2),
{
    let out = spread(frames, limit, SpanMode::Append, page, 2, data);
    let now = frame_at(frames, page);
    lemma_blank_valid();
    assert(now.valid());
    let used = now.occupied;
    assert(now.append_start(2) == used);
    let share = least(data.len() as int, 4096 - used);
    let after = now.put(data, used).clean();
    let next = stored(frames, page, after);
    lemma_put_valid(now, data, used);
    lemma_put_read(now, data, used);
    lemma_stored(frames, page, after);
    lemma_stored_valid(frames, page, after);
    lemma_payload_before_stored(frames, page, after, page);
    assert(after.bytes.subrange(2, used + share) =~= now.bytes.subrange(2, used) + data.take(
        share,
    )) by {
        let grown = after.bytes.subrange(2, used + share);
        let joined = now.bytes.subrange(2, used) + data.take(share);
        assert(grown.len() == joined.len());
        assert forall|i: int| 0 <= i < grown.len() implies grown[i] == joined[i] by {
            if i < used - 2 {
                assert(after.bytes[i + 2] == now.bytes[i + 2]);
            } else {
                assert(after.read(data.len() as int, used)[i - (used - 2)] == data.take(
                    share,
                )[i - (used - 2)]);
            }
        }
    }
    assert(packed(next, page) || share < data.len()) by {
        assert forall|i: int| i > page implies (#[trigger] frame_at(next, i)).occupied == 2 by {
            assert(frame_at(next, i) == frame_at(frames, i));
        }
        assert forall|i: int| 0 <= i < page implies (#[trigger] frame_at(next, i)).occupied
            == 4096 by {
            assert(frame_at(next, i) == frame_at(frames, i));
        }
    }
    if share >= data.len() {
        assert(data.take(share) =~= data);
        assert(used_bytes(next, page) == after.bytes.subrange(2, used + share));
        assert(contents(next, page) =~= contents(frames, page) + data);
    } else {
        assert(used + share == 4096);
        assert(frame_at(next, page).occupied == 4096);
        assert forall|i: int| i > page + 1 implies (#[trigger] frame_at(next, i)).occupied
            == 2 by {
            assert(frame_at(next, i) == frame_at(frames, i));
        }
        assert forall|i: int| 0 <= i < page + 1 implies (#[trigger] frame_at(next, i)).occupied
            == 4096 by {
            if i < page {
                assert(frame_at(next, i) == frame_at(frames, i));
            }
        }
        assert(frame_at(next, page + 1) == frame_at(frames, page + 1));
        assert(frame_at(next, page + 1).occupied == 2);
        assert(used_bytes(next, page + 1) =~= Seq::<u8>::empty());
        assert(contents(next, page + 1) =~= contents(frames, page) + data.take(share)) by {
            assert(payload_before(next, page + 1) == payload_before(next, page) + after.bytes.subrange(
                2,
                4096,
            ));
        }
        if share <= 0 {
            assert(used == 4096);
            assert(page < frames.len());
            assert(data.take(share) =~= Seq::<u8>::empty());
            lemma_append(next, limit, page + 1, data);
            assert(contents(frames, page) + Seq::<u8>::empty() + data =~= contents(frames, page)
                + data);
        } else {
            lemma_append(next, limit, page + 1, data.skip(share));
            assert(contents(frames, page) + data.take(share) + data.skip(share) =~= contents(
                frames,
                page,
            ) + data);
        }
    }
}

/// Reading from the start of page `from` of a packed file gives its
/// contents from that page on.
pub proof fn lemma_read_from(frames: Seq<PageView>, from: int, tail: int, len: int)
    requires
        packed(frames, tail),
        0 <= from <= tail,
        0 <= len <= contents_from(frames, from, tail).len(),
    ensures
        stream(frames, from, 2, len) == contents_from(frames, from, tail).take(len),
    decreases len, tail - from,
{
    let page = frame_at(frames, from);
    lemma_blank_valid();
    assert(page.valid());
    if len == 0 {
        assert(contents_from(frames, from, tail).take(0) =~= Seq::<u8>::empty());
    } else {
        let share = least(len, 4094);
        if from == tail {
            assert(len <= page.occupied - 2);
            assert(share == len);
            assert(stream(frames, from + 1, 2, 0) =~= Seq::<u8>::empty());
            assert(stream(frames, from, 2, len) =~= contents_from(frames, from, tail).take(len));
        } else {
            let here = page.bytes.subrange(2, 4096);
            let later = contents_from(frames, from + 1, tail);
            if len <= 4094 {
                assert(stream(frames, from + 1, 2, 0) =~= Seq::<u8>::empty());
                assert(stream(frames, from, 2, len) =~= (here + later).take(len));
            } else {
                lemma_read_from(frames, from + 1, tail, len - 4094);
                assert(page.read(len, 2) =~= here);
                assert(here + later.take(len - 4094) =~= (here + later).take(len));
            }
        }
    }
}

/// Reading from the start of a packed file gives its contents.
pub proof fn lemma_read_contents(frames: Seq<PageView>, tail: int, len: int)
    requires
        packed(frames, tail),
        0 <= len <= contents(frames, tail).len(),
    ensures
        stream(frames, 0, 2, len) == contents(frames, tail).take(len),
{
    lemma_contents_from(frames, 0, tail);
    assert(payload_before(frames, 0) + contents_from(frames, 0, tail) =~= contents_from(
        frames,
        0,
        tail,
    ));
    lemma_read_from(frames, 0, tail, len);
}

/// A file is ready for appending where it is packed up to the page that
/// was last written on and that page holds something or is the first.
pub open spec fn appendable(frames: Seq<PageView>, last_free_page: int) -> bool {
    &&& packed(frames, last_free_page)
    &&& (last_free_page == 0 || frame_at(frames, last_free_page).occupied > 2)
}

/// What a write appends to a file that is ready for appending stands behind
/// the contents of the file, the file stays ready for appending, and what
/// is read from its start is its contents.
pub proof fn lemma_write_then_read(
    frames: Seq<PageView>,
    limit: int,
    last_free_page: int,
    data: Seq<u8>,
)
    requires
        appendable(frames, last_free_page),
        !spread(
            frames,
            limit,
            SpanMode::Append,
            write_start(frames, last_free_page),
            2,
            data,
        ).failed,
    ensures
        ({
            let out = spread(
                frames,
                limit,
                SpanMode::Append,
                write_start(frames, last_free_page),
                2,
                data,
            );
            &&& appendable(out.frames, out.last)
            &&& crate::pager::later_page(last_free_page, out.last) == out.last
            &&& contents(out.frames, out.last) == contents(frames, last_free_page) + data
            &&& stream(
                out.frames,
                0,
                2,
                (contents(frames, last_free_page).len() + data.len()) as int,
            ) == contents(frames, last_free_page) + data
        }),
{
    assert(write_start(frames, last_free_page) == last_free_page);
    let out = spread(frames, limit, SpanMode::Append, last_free_page, 2, data);
    lemma_append(frames, limit, last_free_page, data);
    lemma_read_contents(
        out.frames,
        out.last,
        (contents(frames, last_free_page).len() + data.len()) as int,
    );
    assert((contents(frames, last_free_page) + data).take(
        (contents(frames, last_free_page).len() + data.len()) as int,
    ) =~= contents(frames, last_free_page) + data);
}

/// A file without pages is ready for appending.
pub proof fn lemma_empty_is_appendable()
    ensures
        appendable(Seq::<PageView>::empty(), 0),
        contents(Seq::<PageView>::empty(), 0) == Seq::<u8>::empty(),
{
    lemma_empty_is_packed();
}

/// The page and the offset at which the byte at place `place` of the stream
/// stands: the stream runs through the bytes behind the header of each page.
pub open spec fn position_of(place: int) -> (int, int) {
    (place / 4094, place % 4094 + 2)
}

/// The byte at place `place` of the stream.
pub open spec fn raw_byte(frames: Seq<PageView>, place: int) -> u8 {
    frame_at(frames, place / 4094).bytes[place % 4094 + 2]
}

/// The `len` bytes of the stream from place `place` on.
pub open spec fn raw_range(frames: Seq<PageView>, place: int, len: int) -> Seq<u8> {
    Seq::new(len as nat, |i: int| raw_byte(frames, place + i))
}

/// The place of a byte of a page.
pub proof fn lemma_place_of(page: int, within: int)
    requires
        0 <= page,
        0 <= within < 4094,
    ensures
        (page * 4094 + within) / 4094 == page,
        (page * 4094 + within) % 4094 == within,
{
    vstd::arithmetic::div_mod::lemma_fundamental_div_mod_converse(
        page * 4094 + within,
        4094,
        page,
        within,
    );
}

/// A place is the place of a byte of a page.
pub proof fn lemma_place_parts(place: int)
    requires
        0 <= place,
    ensures
        0 <= place / 4094,
        0 <= place % 4094 < 4094,
        place == (place / 4094) * 4094 + place % 4094,
{
    vstd::arithmetic::div_mod::lemma_fundamental_div_mod(place, 4094);
    assert((place / 4094) * 4094 == 4094 * (place / 4094)) by (nonlinear_arith);
}

/// Reading at the position of a place gives the stream from that place on.
pub proof fn lemma_stream_raw(frames: Seq<PageView>, place: int, len: int)
    requires
        frames_valid(frames),
        0 <= place,
        0 <= len,
    ensures
        stream(frames, position_of(place).0, position_of(place).1, len) == raw_range(
            frames,
            place,
            len,
        ),
    decreases len,
{
    let page = place / 4094;
    let within = place % 4094;
    lemma_place_parts(place);
    lemma_blank_valid();
    if len == 0 {
        assert(raw_range(frames, place, 0) =~= Seq::<u8>::empty());
    } else {
        let here = frame_at(frames, page);
        assert(here.valid());
        let share = least(len, 4094 - within);
        let first = here.read(len, within + 2);
        assert(first.len() == share);
        assert forall|i: int| 0 <= i < share implies first[i] == raw_byte(frames, place + i) by {
            lemma_place_of(page, within + i);
        }
        if share == len {
            assert(stream(frames, page + 1, 2, 0) =~= Seq::<u8>::empty());
            assert(stream(frames, page, within + 2, len) =~= raw_range(frames, place, len));
        } else {
            lemma_place_of(page + 1, 0);
            assert(place + share == (page + 1) * 4094);
            lemma_stream_raw(frames, place + share, len - share);
            assert(first + raw_range(frames, place + share, len - share) =~= raw_range(
                frames,
                place,
                len,
            ));
        }
    }
}

/// Bytes written over the stream, or zeros put into it, stand where they
/// were put, and every other byte of the stream is as it was.
pub proof fn lemma_overwrite_raw(
    frames: Seq<PageView>,
    limit: int,
    mode: SpanMode,
    place: int,
    data: Seq<u8>,
)
    requires
        frames_valid(frames),
        0 <= place,
        mode != SpanMode::Append,
        mode == SpanMode::Erase ==> data == crate::page::zeros(data.len() as int),
        !spread(
            frames,
            limit,
            mode,
            position_of(place).0,
            position_of(place).1,
            data,
        ).failed,
    ensures
        frames_valid(
            spread(frames, limit, mode, position_of(place).0, position_of(place).1, data).frames,
        ),
        forall|x: int|
            0 <= x ==> #[trigger] raw_byte(
                spread(
                    frames,
                    limit,
                    mode,
                    position_of(place).0,
                    position_of(place).1,
                    data,
                ).frames,
                x,
            ) == (if place <= x < place + data.len() {
                data[x - place]
            } else {
                raw_byte(frames, x)
            }),
    decreases data.len(),
{
    let page = place / 4094;
    let within = place % 4094;
    let offset = within + 2;
    lemma_place_parts(place);
    lemma_blank_valid();
    let out = spread(frames, limit, mode, page, offset, data);
    let now = frame_at(frames, page);
    assert(now.valid());
    let share = least(data.len() as int, 4094 - within);
    assert(page_share(now, mode, data, offset) == share);
    let after = page_after(now, mode, data, offset).clean();
    let next = stored(frames, page, after);
    lemma_stored(frames, page, after);
    if mode == SpanMode::Replace {
        lemma_put_valid(now, data, offset);
        lemma_put_bytes(now, data, offset);
    } else {
        lemma_erased_valid(now, data.len() as int, offset);
    }
    lemma_stored_valid(frames, page, after);
    assert forall|x: int| 0 <= x implies #[trigger] raw_byte(next, x) == (if place <= x < place
        + share {
        data[x - place]
    } else {
        raw_byte(frames, x)
    }) by {
        lemma_place_parts(x);
        if x / 4094 == page {
            let i = x % 4094 + 2;
            assert(x == page * 4094 + x % 4094);
            assert(x - place == i - offset);
            if mode == SpanMode::Erase {
                if offset <= i < offset + share {
                    assert(data[i - offset] == 0);
                }
            }
        } else {
            assert(frame_at(next, x / 4094) == frame_at(frames, x / 4094));
            if place <= x < place + share {
                assert(x < (page + 1) * 4094);
                assert(x >= page * 4094);
                lemma_place_of(page, x - page * 4094);
            }
        }
    }
    if share >= data.len() {
    } else {
        assert(share > 0);
        lemma_place_of(page + 1, 0);
        assert(place + share == (page + 1) * 4094);
        let rest = data.skip(share);
        if mode == SpanMode::Erase {
            assert(rest =~= crate::page::zeros(rest.len() as int));
        }
        lemma_overwrite_raw(next, limit, mode, place + share, rest);
        let last = spread(next, limit, mode, page + 1, 2, rest);
        assert(out.frames == last.frames);
        assert forall|x: int| 0 <= x implies #[trigger] raw_byte(out.frames, x) == (if place <= x
            < place + data.len() {
            data[x - place]
        } else {
            raw_byte(frames, x)
        }) by {
            if place + share <= x < place + data.len() {
                assert(rest[x - place - share] == data[x - place]);
            }
        }
    }
}

} // verus!
