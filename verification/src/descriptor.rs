//! Resource bindings as one shader stage declares them.

use crate::buffer::{items_view, table_of, BufStruct};
use crate::layout::{extent, field_spans, spans_of, BufField, DescField, DescKind, LayoutError};
use crate::namemap::{distinct_names, has_name, put, Entries, NameMap};
use crate::stage::StageSet;
use vstd::prelude::*;

verus! {

/// A resource binding as a mathematical value.
pub struct DescriptorView {
    pub set: u32,
    pub binding: u32,
    pub name: Seq<char>,
    pub ty: DescKind,
    pub count: usize,
    pub stage: StageSet,
    pub fields: Entries<DescField>,
}

/// One resource that a shader binds: where it is bound, what it is, from
/// which stages it is visible and, for a structured resource, its fields.
#[derive(Debug, Clone)]
pub struct Descriptor {
    pub set: u32,
    pub binding: u32,
    pub name: String,
    pub ty: DescKind,
    pub count: usize,
    pub stage: StageSet,
    /// The fields by name; empty if the resource is not structured.
    pub fields: NameMap<DescField>,
}

/// An entry of a descriptor pool's size list.
#[derive(Debug, Copy, Clone, PartialEq, Eq, Structural)]
pub struct PoolSize {
    pub ty: DescKind,
    pub descriptor_count: usize,
}

/// A binding as a descriptor set layout lists it.
#[derive(Debug, Copy, Clone, PartialEq, Eq, Structural)]
pub struct LayoutBinding {
    pub binding: u32,
    pub descriptor_type: DescKind,
    pub descriptor_count: usize,
    pub stage_flags: StageSet,
}

/// What a descriptor is to point at, by the raw handles of the objects.
#[derive(Debug, Copy, Clone, PartialEq, Eq, Structural)]
pub enum DescWriteInfo {
    /// A range of a buffer.
    Buf { buffer: u64, offset: u64, range: u64 },
    /// An image view with its sampler and the layout the image is in.
    Img { sampler: u64, image_view: u64, image_layout: i32 },
    /// A view of a texel buffer.
    Tex { view: u64 },
}

/// One update of a descriptor set: which binding of which set is to point at what.
#[derive(Debug, Copy, Clone, PartialEq, Eq, Structural)]
pub struct WriteRecord {
    pub dst_set: u64,
    pub dst_binding: u32,
    pub descriptor_count: usize,
    pub descriptor_type: DescKind,
    pub info: DescWriteInfo,
}

/// The byte ranges of the fields of a resource, each under its field's name.
pub open spec fn range_table(fields: Entries<DescField>) -> Entries<BufField> {
    fields.map_values(|e: (Seq<char>, DescField)| (e.0, e.1.span()))
}

/// Storing entries with distinct names one after the other yields the entries.
pub proof fn lemma_table_of_distinct(items: Entries<BufField>)
    requires
        distinct_names(items),
    ensures
        table_of(items) == items,
    decreases items.len(),
{
    if items.len() > 0 {
        let rest = items.drop_last();
        assert forall|i: int, j: int| 0 <= i < j < rest.len() implies (#[trigger] rest[i]).0
            != (#[trigger] rest[j]).0 by {
            assert(items[i].0 != items[j].0);
        }
        lemma_table_of_distinct(rest);
        if has_name(rest, items.last().0) {
            let p = choose|i: int| 0 <= i < rest.len() && (#[trigger] rest[i]).0 == items.last().0;
            assert(items[p].0 != items[items.len() - 1].0);
        }
        assert(put(rest, items.last().0, items.last().1) =~= items);
    }
}

/// Whether two tables hold the same fields: the same names in the same
/// order, each with the same position, offset, size, kind and count.
pub fn same_layout(a: &NameMap<DescField>, b: &NameMap<DescField>) -> (r: bool)
    ensures
        r == (a@ == b@),
{
    if a.len() != b.len() {
        return false;
    }
    let mut i: usize = 0;
    while i < a.len()
        invariant
            i <= a@.len(),
            a@.len() == b@.len(),
            forall|k: int| 0 <= k < i ==> a@[k] == b@[k],
        decreases a@.len() - i,
    {
        let same_name = *a.name_at(i) == *b.name_at(i);
        let same_field = *a.value_at(i) == *b.value_at(i);
        if !same_name || !same_field {
            assert(a@[i as int] != b@[i as int]);
            return false;
        }
        i += 1;
    }
    assert(a@ =~= b@);
    true
}

impl Descriptor {
    /// The binding as a mathematical value.
    pub open spec fn view(&self) -> DescriptorView {
        DescriptorView {
            set: self.set,
            binding: self.binding,
            name: self.name@,
            ty: self.ty,
            count: self.count,
            stage: self.stage,
            fields: self.fields@,
        }
    }

    /// Well-formedness: no field name occurs twice.
    pub open spec fn wf(&self) -> bool {
        self.fields.wf()
    }

    /// What the resource takes from a descriptor pool.
    pub fn size(&self) -> (r: PoolSize)
        ensures
            r == pool_size_of(self@),
    {
        PoolSize { ty: self.ty, descriptor_count: self.count }
    }

    /// The binding as a descriptor set layout lists it.
    pub fn layout_binding(&self) -> (r: LayoutBinding)
        ensures
            r == layout_binding_of(self@),
    {
        LayoutBinding {
            binding: self.binding,
            descriptor_type: self.ty,
            descriptor_count: self.count,
            stage_flags: self.stage,
        }
    }

    /// The update that points this binding of the set `set` at `info`.
    pub fn make_write(&self, set: u64, info: &DescWriteInfo) -> (r: WriteRecord)
        ensures
            r == write_of(self@, set, *info),
    {
        WriteRecord {
            dst_set: set,
            dst_binding: self.binding,
            descriptor_count: self.count,
            descriptor_type: self.ty,
            info: *info,
        }
    }

    /// Lays out the buffer that backs the resource: one byte range per
    /// field, and as many bytes as the farthest field needs. A resource
    /// without fields has no such buffer.
    pub fn make_buffer(&self) -> (r: Result<BufStruct, LayoutError>)
        requires
            self.wf(),
        ensures
            r == Err::<BufStruct, LayoutError>(LayoutError::NotStructured) <==> self@.fields.len() == 0,
            r == Err::<BufStruct, LayoutError>(LayoutError::Overflow) <==> self@.fields.len() > 0
                && extent(field_spans(self@.fields)) > u64::MAX,
            r matches Ok(b) ==> b.wf() && b.fields@ == range_table(self@.fields) && b.size
                == extent(field_spans(self@.fields)),
    {
        if self.fields.is_empty() {
            return Err(LayoutError::NotStructured);
        }
        let ghost fields = self.fields@;
        let mut items: Vec<(String, u64, u64)> = Vec::new();
        let mut i: usize = 0;
        while i < self.fields.len()
            invariant
                i <= fields.len(),
                fields == self.fields@,
                items@.len() == i,
                forall|k: int| 0 <= k < i ==> (#[trigger] items@[k]).0@ == fields[k].0 && items@[k].1
                    == fields[k].1.offset && items@[k].2 == fields[k].1.size,
            decreases fields.len() - i,
        {
            let f = self.fields.value_at(i);
            items.push((self.fields.name_at(i).clone(), f.offset, f.size));
            i += 1;
        }
        proof {
            assert(items_view(items@) =~= range_table(fields));
            assert forall|i: int, j: int| 0 <= i < j < range_table(fields).len() implies (
            #[trigger] range_table(fields)[i]).0 != (#[trigger] range_table(fields)[j]).0 by {
                assert(fields[i].0 != fields[j].0);
            }
            lemma_table_of_distinct(range_table(fields));
            assert(spans_of(range_table(fields)) =~= field_spans(fields));
        }
        BufStruct::from_fields(items)
    }
}

/// What a binding takes from a descriptor pool.
pub open spec fn pool_size_of(d: DescriptorView) -> PoolSize {
    PoolSize { ty: d.ty, descriptor_count: d.count }
}

/// A binding as a descriptor set layout lists it.
pub open spec fn layout_binding_of(d: DescriptorView) -> LayoutBinding {
    LayoutBinding {
        binding: d.binding,
        descriptor_type: d.ty,
        descriptor_count: d.count,
        stage_flags: d.stage,
    }
}

/// The update that points binding `d` of the set `set` at `info`.
pub open spec fn write_of(d: DescriptorView, set: u64, info: DescWriteInfo) -> WriteRecord {
    WriteRecord {
        dst_set: set,
        dst_binding: d.binding,
        descriptor_count: d.count,
        descriptor_type: d.ty,
        info,
    }
}

/// The bindings of a list as mathematical values.
pub open spec fn descs_view(s: Seq<Descriptor>) -> Seq<DescriptorView> {
    s.map_values(|d: Descriptor| d@)
}

/// Whether every binding of a list is well-formed.
pub open spec fn descs_wf(s: Seq<Descriptor>) -> bool {
    forall|i: int| 0 <= i < s.len() ==> (#[trigger] s[i]).wf()
}

} // verus!
