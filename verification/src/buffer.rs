//! Buffers that back structured resources: how large one must be, and which
//! byte range a write to one of its fields may touch.

use crate::layout::{extent, lemma_measures_step, spans_of, BufField, LayoutError};
use crate::namemap::{has_name, lookup, put, Entries, NameMap};
use vstd::prelude::*;

verus! {

/// Why a write was refused.
#[derive(Debug, Copy, Clone, PartialEq, Eq, Structural)]
pub enum WriteError {
    /// No field of that name exists.
    UnknownField,
    /// The payload is not exactly as long as the field.
    SizeMismatch,
    /// The place of the field cannot be addressed.
    OutOfRange,
}

/// The table that results from storing the items one after the other.
pub open spec fn table_of(items: Entries<BufField>) -> Entries<BufField>
    decreases items.len(),
{
    if items.len() == 0 {
        Seq::empty()
    } else {
        put(table_of(items.drop_last()), items.last().0, items.last().1)
    }
}

/// The items as the table sees them: the name of each by its characters.
pub open spec fn items_view(items: Seq<(String, u64, u64)>) -> Entries<BufField> {
    items.map_values(|e: (String, u64, u64)| (e.0@, BufField { offset: e.1, size: e.2 }))
}

/// What a write to a field answers to a payload of `len` bytes: the field's
/// byte range if the field exists and the payload is exactly as long.
pub open spec fn write_range(fields: Entries<BufField>, name: Seq<char>, len: nat) -> Result<
    BufField,
    WriteError,
> {
    match lookup(fields, name) {
        None => Err(WriteError::UnknownField),
        Some(f) => if len == f.size {
            Ok(f)
        } else {
            Err(WriteError::SizeMismatch)
        },
    }
}

/// The largest end of a range in `fields`; `None` when it does not fit in 64 bits.
pub fn table_extent(fields: &NameMap<BufField>) -> (r: Option<u64>)
    ensures
        r is Some <==> extent(spans_of(fields@)) <= u64::MAX,
        r matches Some(n) ==> n == extent(spans_of(fields@)),
{
    let ghost spans = spans_of(fields@);
    let mut far: u64 = 0;
    let mut i: usize = 0;
    assert(spans.take(0) =~= Seq::<BufField>::empty());
    while i < fields.len()
        invariant
            i <= fields@.len(),
            spans == spans_of(fields@),
            far == extent(spans.take(i as int)),
        decreases fields@.len() - i,
    {
        let f = *fields.value_at(i);
        proof {
            lemma_measures_step(spans, i as int);
            assert(spans[i as int] == f);
        }
        if f.size > u64::MAX - f.offset {
            proof {
                lemma_extent_grows(spans, i as int + 1);
            }
            return None;
        }
        let end = f.offset + f.size;
        if end > far {
            far = end;
        }
        i += 1;
    }
    assert(spans.take(i as int) =~= spans);
    Some(far)
}

/// The extent of a prefix never exceeds the extent of the whole.
pub proof fn lemma_extent_grows(s: Seq<BufField>, n: int)
    requires
        0 <= n <= s.len(),
    ensures
        extent(s.take(n)) <= extent(s),
    decreases s.len() - n,
{
    if n < s.len() {
        lemma_measures_step(s, n);
        lemma_extent_grows(s, n + 1);
    } else {
        assert(s.take(n) =~= s);
    }
}

/// The layout of a buffer that backs one structured resource.
#[derive(Debug, Clone)]
pub struct BufStruct {
    /// Bytes that the buffer needs: the extent of its fields.
    pub size: u64,
    /// The byte range of each field, by name.
    pub fields: NameMap<BufField>,
}

impl BufStruct {
    /// Well-formedness: the names are distinct and the size is the extent of
    /// the fields.
    pub open spec fn wf(&self) -> bool {
        &&& self.fields.wf()
        &&& self.size == extent(spans_of(self.fields@))
    }

    /// Lays a buffer out for the given fields, each a name, an offset and a
    /// size. A name that comes twice keeps its first place and its last
    /// range. Fails if a field would end beyond the largest address.
    pub fn from_fields(items: Vec<(String, u64, u64)>) -> (r: Result<BufStruct, LayoutError>)
        ensures
            r is Ok <==> extent(spans_of(table_of(items_view(items@)))) <= u64::MAX,
            r matches Ok(b) ==> b.wf() && b.fields@ == table_of(items_view(items@)),
            r matches Err(e) ==> e == LayoutError::Overflow,
    {
        let ghost all = items_view(items@);
        let mut fields: NameMap<BufField> = NameMap::new();
        let mut i: usize = 0;
        assert(all.take(0) =~= Seq::<(Seq<char>, BufField)>::empty());
        while i < items.len()
            invariant
                i <= items.len(),
                all == items_view(items@),
                fields.wf(),
                fields@ == table_of(all.take(i as int)),
            decreases items.len() - i,
        {
            let name = items[i].0.clone();
            let field = BufField { offset: items[i].1, size: items[i].2 };
            proof {
                assert(all.take(i as int + 1).drop_last() =~= all.take(i as int));
                assert(all.take(i as int + 1).last() == (name@, field));
            }
            fields.insert(name, field);
            i += 1;
        }
        assert(all.take(i as int) =~= all);
        match table_extent(&fields) {
            Some(size) => Ok(BufStruct { size, fields }),
            None => Err(LayoutError::Overflow),
        }
    }

    /// The byte range to map for writing `field`; `None` if there is no such field.
    pub fn map_write(&self, field: &str) -> (r: Option<BufField>)
        requires
            self.wf(),
        ensures
            r == lookup(self.fields@, field@),
            r matches Some(f) ==> f.end() <= self.size,
    {
        match self.fields.find(field) {
            Some(i) => {
                let f = *self.fields.value_at(i);
                proof {
                    crate::layout::lemma_extent_is_max(spans_of(self.fields@));
                    assert(spans_of(self.fields@)[i as int] == f);
                }
                Some(f)
            },
            None => None,
        }
    }

    /// Checks a write of `data` to `field` and names the byte range that it
    /// may touch. The payload must be exactly as long as the field; nothing
    /// is to be mapped or copied when the answer is an error.
    pub fn write(&self, field: &str, data: &[u8]) -> (r: Result<BufField, WriteError>)
        requires
            self.wf(),
        ensures
            r == write_range(self.fields@, field@, data@.len()),
            r matches Ok(f) ==> f.size == data@.len() && f.end() <= self.size,
    {
        match self.map_write(field) {
            None => Err(WriteError::UnknownField),
            Some(f) => {
                if data.len() as u64 == f.size {
                    Ok(f)
                } else {
                    Err(WriteError::SizeMismatch)
                }
            },
        }
    }
}

/// A write whose payload is shorter or longer than the field is refused,
/// whatever else holds.
pub proof fn lemma_write_rejects_wrong_size(fields: Entries<BufField>, name: Seq<char>, len: nat)
    requires
        has_name(fields, name),
        len != lookup(fields, name).unwrap().size,
    ensures
        write_range(fields, name, len) == Err::<BufField, WriteError>(WriteError::SizeMismatch),
{
}

} // verus!
