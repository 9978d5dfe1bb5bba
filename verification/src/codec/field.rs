//! Tagged values: the atoms of every record.

use vstd::prelude::*;

verus! {

/// The one-octet discriminator of a [`Field`].
#[derive(Clone, Copy, Debug, PartialEq, Eq, Structural)]
pub enum FieldType {
    String,
    Byte,
    UByte,
    Int32,
    UInt32,
    Int64,
    UInt64,
    Float32,
    Float64,
    Mapping,
}

impl FieldType {
    /// The tag octet that stands for this type on the wire.
    pub open spec fn tag(self) -> u8 {
        match self {
            FieldType::String => 0,
            FieldType::Byte => 1,
            FieldType::UByte => 2,
            FieldType::Int32 => 3,
            FieldType::UInt32 => 4,
            FieldType::Int64 => 5,
            FieldType::UInt64 => 6,
            FieldType::Float32 => 7,
            FieldType::Float64 => 8,
            FieldType::Mapping => 9,
        }
    }

    /// The type that a tag octet stands for, if any.
    pub open spec fn of_tag(tag: u8) -> Option<FieldType> {
        if tag == 0 {
            Some(FieldType::String)
        } else if tag == 1 {
            Some(FieldType::Byte)
        } else if tag == 2 {
            Some(FieldType::UByte)
        } else if tag == 3 {
            Some(FieldType::Int32)
        } else if tag == 4 {
            Some(FieldType::UInt32)
        } else if tag == 5 {
            Some(FieldType::Int64)
        } else if tag == 6 {
            Some(FieldType::UInt64)
        } else if tag == 7 {
            Some(FieldType::Float32)
        } else if tag == 8 {
            Some(FieldType::Float64)
        } else if tag == 9 {
            Some(FieldType::Mapping)
        } else {
            None
        }
    }

    /// Tags and types correspond one to one.
    pub proof fn lemma_tag_roundtrip(self)
        ensures
            self.tag() <= 9,
            FieldType::of_tag(self.tag()) == Some(self),
    {
    }

    pub fn to_tag(self) -> (tag: u8)
        ensures
            tag == self.tag(),
    {
        match self {
            FieldType::String => 0,
            FieldType::Byte => 1,
            FieldType::UByte => 2,
            FieldType::Int32 => 3,
            FieldType::UInt32 => 4,
            FieldType::Int64 => 5,
            FieldType::UInt64 => 6,
            FieldType::Float32 => 7,
            FieldType::Float64 => 8,
            FieldType::Mapping => 9,
        }
    }

    pub fn from_tag(tag: u8) -> (kind: Option<FieldType>)
        ensures
            kind == FieldType::of_tag(tag),
    {
        if tag == 0 {
            Some(FieldType::String)
        } else if tag == 1 {
            Some(FieldType::Byte)
        } else if tag == 2 {
            Some(FieldType::UByte)
        } else if tag == 3 {
            Some(FieldType::Int32)
        } else if tag == 4 {
            Some(FieldType::UInt32)
        } else if tag == 5 {
            Some(FieldType::Int64)
        } else if tag == 6 {
            Some(FieldType::UInt64)
        } else if tag == 7 {
            Some(FieldType::Float32)
        } else if tag == 8 {
            Some(FieldType::Float64)
        } else if tag == 9 {
            Some(FieldType::Mapping)
        } else {
            None
        }
    }
}

/// A tagged value. The two float variants hold the IEEE-754 bit pattern.
/// A map holds its entries in the order in which they were added.
#[derive(Debug)]
pub enum Field {
    String(String),
    Byte(i8),
    UByte(u8),
    Int32(i32),
    UInt32(u32),
    Int64(i64),
    UInt64(u64),
    Float32(u32),
    Float64(u64),
    Mapping(Vec<(String, Field)>),
}

/// The mathematical value of a [`Field`].
pub enum FieldView {
    String(Seq<char>),
    Byte(i8),
    UByte(u8),
    Int32(i32),
    UInt32(u32),
    Int64(i64),
    UInt64(u64),
    Float32(u32),
    Float64(u64),
    Mapping(Seq<(Seq<char>, FieldView)>),
}

/// The mathematical value of a field.
pub open spec fn field_view(field: Field) -> FieldView
    decreases field, 0int,
{
    match field {
        Field::String(text) => FieldView::String(text@),
        Field::Byte(value) => FieldView::Byte(value),
        Field::UByte(value) => FieldView::UByte(value),
        Field::Int32(value) => FieldView::Int32(value),
        Field::UInt32(value) => FieldView::UInt32(value),
        Field::Int64(value) => FieldView::Int64(value),
        Field::UInt64(value) => FieldView::UInt64(value),
        Field::Float32(bits) => FieldView::Float32(bits),
        Field::Float64(bits) => FieldView::Float64(bits),
        Field::Mapping(entries) => FieldView::Mapping(entries_view(entries@)),
    }
}

/// The views of a list of named fields, in order.
pub open spec fn entries_view(entries: Seq<(String, Field)>) -> Seq<(Seq<char>, FieldView)>
    decreases entries, 0int,
{
    if entries.len() == 0 {
        Seq::empty()
    } else {
        entries_view(entries.drop_last()).push((entries.last().0@, field_view(entries.last().1)))
    }
}

impl View for Field {
    type V = FieldView;

    open spec fn view(&self) -> FieldView {
        field_view(*self)
    }
}

/// The views of a list of fields, in order.
pub open spec fn fields_view(fields: Seq<Field>) -> Seq<FieldView> {
    Seq::new(fields.len(), |i: int| fields[i]@)
}

/// The view of a list of entries holds the view of each entry at its place.
pub proof fn lemma_entries_view(entries: Seq<(String, Field)>)
    ensures
        entries_view(entries).len() == entries.len(),
        forall|i: int|
            0 <= i < entries.len() ==> (#[trigger] entries_view(entries)[i]) == (
                entries[i].0@,
                entries[i].1@,
            ),
    decreases entries.len(),
{
    if entries.len() > 0 {
        lemma_entries_view(entries.drop_last());
    }
}

/// Adding an entry at the end adds its view at the end.
pub proof fn lemma_entries_view_push(entries: Seq<(String, Field)>, entry: (String, Field))
    ensures
        entries_view(entries.push(entry)) == entries_view(entries).push((entry.0@, entry.1@)),
{
    assert(entries.push(entry).drop_last() =~= entries);
}

impl FieldView {
    /// The type tag that goes with the value.
    pub open spec fn kind(self) -> FieldType {
        match self {
            FieldView::String(_) => FieldType::String,
            FieldView::Byte(_) => FieldType::Byte,
            FieldView::UByte(_) => FieldType::UByte,
            FieldView::Int32(_) => FieldType::Int32,
            FieldView::UInt32(_) => FieldType::UInt32,
            FieldView::Int64(_) => FieldType::Int64,
            FieldView::UInt64(_) => FieldType::UInt64,
            FieldView::Float32(_) => FieldType::Float32,
            FieldView::Float64(_) => FieldType::Float64,
            FieldView::Mapping(_) => FieldType::Mapping,
        }
    }
}

/// The position of the first entry named `name`, or the number of entries.
pub open spec fn name_position(entries: Seq<(Seq<char>, FieldView)>, name: Seq<char>) -> int
    decreases entries.len(),
{
    if entries.len() == 0 {
        0
    } else if entries[0].0 == name {
        0
    } else {
        1 + name_position(entries.subrange(1, entries.len() as int), name)
    }
}

/// No two entries share a name.
pub open spec fn names_unique(entries: Seq<(Seq<char>, FieldView)>) -> bool {
    forall|i: int, j: int|
        0 <= i < j < entries.len() ==> (#[trigger] entries[i]).0 != (#[trigger] entries[j]).0
}

/// `entries` with `name` bound to `value`: in place where the name is
/// already bound, at the end where it is not.
pub open spec fn upsert(
    entries: Seq<(Seq<char>, FieldView)>,
    name: Seq<char>,
    value: FieldView,
) -> Seq<(Seq<char>, FieldView)> {
    let at = name_position(entries, name);
    if at < entries.len() {
        entries.update(at, (name, value))
    } else {
        entries.push((name, value))
    }
}

pub proof fn lemma_name_position(entries: Seq<(Seq<char>, FieldView)>, name: Seq<char>)
    ensures
        0 <= name_position(entries, name) <= entries.len(),
        name_position(entries, name) < entries.len() ==> entries[name_position(
            entries,
            name,
        )].0 == name,
        forall|i: int| 0 <= i < name_position(entries, name) ==> (#[trigger] entries[i]).0 != name,
    decreases entries.len(),
{
    if entries.len() > 0 && entries[0].0 != name {
        let tail = entries.subrange(1, entries.len() as int);
        lemma_name_position(tail, name);
        assert forall|i: int| 0 <= i < name_position(entries, name) implies (
        #[trigger] entries[i]).0 != name by {
            if i > 0 {
                assert(tail[i - 1] == entries[i]);
            }
        }
    }
}

impl Field {
    pub fn string(value: String) -> (field: Field)
        ensures
            field@ == FieldView::String(value@),
    {
        Field::String(value)
    }

    pub fn byte(value: i8) -> (field: Field)
        ensures
            field@ == FieldView::Byte(value),
    {
        Field::Byte(value)
    }

    pub fn ubyte(value: u8) -> (field: Field)
        ensures
            field@ == FieldView::UByte(value),
    {
        Field::UByte(value)
    }

    pub fn int32(value: i32) -> (field: Field)
        ensures
            field@ == FieldView::Int32(value),
    {
        Field::Int32(value)
    }

    pub fn uint32(value: u32) -> (field: Field)
        ensures
            field@ == FieldView::UInt32(value),
    {
        Field::UInt32(value)
    }

    pub fn int64(value: i64) -> (field: Field)
        ensures
            field@ == FieldView::Int64(value),
    {
        Field::Int64(value)
    }

    pub fn uint64(value: u64) -> (field: Field)
        ensures
            field@ == FieldView::UInt64(value),
    {
        Field::UInt64(value)
    }

    /// A 32-bit float, given by its IEEE-754 bit pattern.
    pub fn float32(bits: u32) -> (field: Field)
        ensures
            field@ == FieldView::Float32(bits),
    {
        Field::Float32(bits)
    }

    /// A 64-bit float, given by its IEEE-754 bit pattern.
    pub fn float64(bits: u64) -> (field: Field)
        ensures
            field@ == FieldView::Float64(bits),
    {
        Field::Float64(bits)
    }

    /// The type tag of the value.
    pub fn field_type(&self) -> (kind: FieldType)
        ensures
            kind == self@.kind(),
    {
        match self {
            Field::String(_) => FieldType::String,
            Field::Byte(_) => FieldType::Byte,
            Field::UByte(_) => FieldType::UByte,
            Field::Int32(_) => FieldType::Int32,
            Field::UInt32(_) => FieldType::UInt32,
            Field::Int64(_) => FieldType::Int64,
            Field::UInt64(_) => FieldType::UInt64,
            Field::Float32(_) => FieldType::Float32,
            Field::Float64(_) => FieldType::Float64,
            Field::Mapping(_) => FieldType::Mapping,
        }
    }
}

/// The first entry named `name` is where the name stands with none before it.
pub proof fn lemma_name_position_at(
    entries: Seq<(Seq<char>, FieldView)>,
    name: Seq<char>,
    at: int,
)
    requires
        0 <= at <= entries.len(),
        forall|i: int| 0 <= i < at ==> (#[trigger] entries[i]).0 != name,
        at < entries.len() ==> entries[at].0 == name,
    ensures
        name_position(entries, name) == at,
{
    lemma_name_position(entries, name);
    let found = name_position(entries, name);
    if found < at {
        assert(entries[found].0 != name);
    } else if found > at {
        assert(entries[at].0 != name);
    }
}

/// Binding a name keeps the names pairwise different.
pub proof fn lemma_upsert_unique(
    entries: Seq<(Seq<char>, FieldView)>,
    name: Seq<char>,
    value: FieldView,
)
    requires
        names_unique(entries),
    ensures
        names_unique(upsert(entries, name, value)),
{
    lemma_name_position(entries, name);
    let at = name_position(entries, name);
    let after = upsert(entries, name, value);
    assert forall|i: int, j: int| 0 <= i < j < after.len() implies (#[trigger] after[i]).0 != (
    #[trigger] after[j]).0 by {
        if at < entries.len() {
            assert(after[i].0 == entries[i].0);
            assert(after[j].0 == entries[j].0);
        } else {
            if j < entries.len() {
                assert(after[i] == entries[i]);
                assert(after[j] == entries[j]);
            } else {
                assert(after[i] == entries[i]);
            }
        }
    }
}

/// `more`, bound entry by entry on top of `seen`.
pub open spec fn upsert_all(
    seen: Seq<(Seq<char>, FieldView)>,
    more: Seq<(Seq<char>, FieldView)>,
) -> Seq<(Seq<char>, FieldView)>
    decreases more.len(),
{
    if more.len() == 0 {
        seen
    } else {
        upsert(upsert_all(seen, more.drop_last()), more.last().0, more.last().1)
    }
}

pub proof fn lemma_upsert_all_unique(
    seen: Seq<(Seq<char>, FieldView)>,
    more: Seq<(Seq<char>, FieldView)>,
)
    requires
        names_unique(seen),
    ensures
        names_unique(upsert_all(seen, more)),
    decreases more.len(),
{
    if more.len() > 0 {
        lemma_upsert_all_unique(seen, more.drop_last());
        lemma_upsert_unique(upsert_all(seen, more.drop_last()), more.last().0, more.last().1);
    }
}

/// Entries whose names are pairwise different bind to themselves.
pub proof fn lemma_upsert_all_of_unique(more: Seq<(Seq<char>, FieldView)>)
    requires
        names_unique(more),
    ensures
        upsert_all(Seq::empty(), more) == more,
    decreases more.len(),
{
    if more.len() > 0 {
        let front = more.drop_last();
        assert forall|i: int, j: int| 0 <= i < j < front.len() implies (#[trigger] front[i]).0 != (
        #[trigger] front[j]).0 by {
            assert(front[i] == more[i]);
            assert(front[j] == more[j]);
        }
        lemma_upsert_all_of_unique(front);
        assert forall|i: int| 0 <= i < front.len() implies (#[trigger] front[i]).0
            != more.last().0 by {
            assert(front[i] == more[i]);
            assert(more.last() == more[more.len() - 1]);
        }
        lemma_name_position_at(front, more.last().0, front.len() as int);
        assert(front.push(more.last()) =~= more);
    }
}

/// Binds `name` to `value` in `entries`: in place where the name is already
/// bound, at the end where it is not. Returns the value that was bound.
pub fn upsert_entry(entries: &mut Vec<(String, Field)>, name: String, value: Field) -> (previous:
    Option<Field>)
    ensures
        entries_view(final(entries)@) == upsert(entries_view(old(entries)@), name@, value@),
        match previous {
            Some(field) => {
                let at = name_position(entries_view(old(entries)@), name@);
                at < old(entries)@.len() && field@ == entries_view(old(entries)@)[at].1
            },
            None => name_position(entries_view(old(entries)@), name@) == old(entries)@.len(),
        },
{
    let ghost before = entries_view(entries@);
    proof {
        lemma_entries_view(entries@);
    }
    let mut at: usize = 0;
    while at < entries.len()
        invariant
            at <= entries@.len(),
            entries@ == old(entries)@,
            before == entries_view(entries@),
            before.len() == entries@.len(),
            forall|i: int|
                0 <= i < entries@.len() ==> (#[trigger] before[i]) == (
                    entries@[i].0@,
                    entries@[i].1@,
                ),
            forall|i: int| 0 <= i < at ==> (#[trigger] before[i]).0 != name@,
        decreases entries.len() - at,
    {
        if entries[at].0 == name {
            proof {
                lemma_name_position_at(before, name@, at as int);
            }
            let ghost fresh = (name, value);
            let replaced = entries.remove(at);
            entries.insert(at, (name, value));
            proof {
                lemma_entries_view(entries@);
                assert(entries@ =~= old(entries)@.update(at as int, fresh));
                assert(entries_view(entries@) =~= before.update(at as int, (fresh.0@, fresh.1@)));
            }
            return Some(replaced.1);
        }
        at = at + 1;
    }
    proof {
        lemma_name_position_at(before, name@, at as int);
        lemma_entries_view_push(entries@, (name, value));
    }
    entries.push((name, value));
    None
}

/// The items of `items`, last first.
pub fn reversed<T>(items: Vec<T>) -> (turned: Vec<T>)
    ensures
        turned@ == items@.reverse(),
{
    let mut items = items;
    let ghost all = items@;
    let mut turned: Vec<T> = Vec::new();
    while items.len() > 0
        invariant
            items@.len() + turned@.len() == all.len(),
            items@ == all.take(items@.len() as int),
            forall|i: int| 0 <= i < turned@.len() ==> turned@[i] == all[all.len() - 1 - i],
        decreases items.len(),
    {
        let item = items.pop().unwrap();
        turned.push(item);
        assert(items@ =~= all.take(items@.len() as int));
    }
    assert(turned@ =~= all.reverse());
    turned
}

impl Field {
    /// A map that binds the entries one by one, in order: where a name comes
    /// twice, the later value takes the place of the earlier.
    pub fn map(entries: Vec<(String, Field)>) -> (field: Field)
        ensures
            field@ == FieldView::Mapping(upsert_all(Seq::empty(), entries_view(entries@))),
            names_unique(field@->Mapping_0),
    {
        let ghost all = entries_view(entries@);
        let ghost given = entries@;
        proof {
            lemma_entries_view(entries@);
        }
        let mut waiting = reversed(entries);
        let mut bound: Vec<(String, Field)> = Vec::new();
        let ghost mut done: int = 0;
        while waiting.len() > 0
            invariant
                0 <= done <= given.len(),
                all == entries_view(given),
                all.len() == given.len(),
                forall|i: int|
                    0 <= i < given.len() ==> (#[trigger] all[i]) == (given[i].0@, given[i].1@),
                waiting@.len() == given.len() - done,
                forall|i: int|
                    0 <= i < waiting@.len() ==> waiting@[i] == given[given.len() - 1 - i],
                entries_view(bound@) == upsert_all(Seq::empty(), all.take(done)),
            decreases waiting.len(),
        {
            let entry = waiting.pop().unwrap();
            proof {
                assert(entry == given[done]);
                assert(all.take(done + 1).drop_last() =~= all.take(done));
                assert(all.take(done + 1).last() == all[done]);
            }
            let _ = upsert_entry(&mut bound, entry.0, entry.1);
            proof {
                done = done + 1;
            }
        }
        proof {
            assert(all.take(done) =~= all);
            lemma_upsert_all_unique(Seq::empty(), all);
        }
        Field::Mapping(bound)
    }

    /// A map from names given as string slices; see [`Field::map`].
    pub fn map_str(entries: Vec<(&str, Field)>) -> (field: Field)
        ensures
            field@ == FieldView::Mapping(
                upsert_all(
                    Seq::empty(),
                    Seq::new(entries@.len(), |i: int| (entries@[i].0@, entries@[i].1@)),
                ),
            ),
            names_unique(field@->Mapping_0),
    {
        let ghost given = entries@;
        let ghost all = Seq::new(given.len(), |i: int| (given[i].0@, given[i].1@));
        let mut waiting = reversed(entries);
        let mut bound: Vec<(String, Field)> = Vec::new();
        let ghost mut done: int = 0;
        while waiting.len() > 0
            invariant
                0 <= done <= given.len(),
                all == Seq::new(given.len(), |i: int| (given[i].0@, given[i].1@)),
                waiting@.len() == given.len() - done,
                forall|i: int|
                    0 <= i < waiting@.len() ==> waiting@[i] == given[given.len() - 1 - i],
                entries_view(bound@) == upsert_all(Seq::empty(), all.take(done)),
            decreases waiting.len(),
        {
            let entry = waiting.pop().unwrap();
            proof {
                assert(entry == given[done]);
                assert(all.take(done + 1).drop_last() =~= all.take(done));
                assert(all.take(done + 1).last() == all[done]);
            }
            let _ = upsert_entry(&mut bound, entry.0.to_owned(), entry.1);
            proof {
                done = done + 1;
            }
        }
        proof {
            assert(all.take(done) =~= all);
            lemma_upsert_all_unique(Seq::empty(), all);
        }
        Field::Mapping(bound)
    }
}

} // verus!
