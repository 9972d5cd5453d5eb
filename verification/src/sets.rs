//! Descriptor sets: the bindings that share a set index, and what is needed
//! to allocate, update and back them.

use crate::buffer::BufStruct;
use crate::descriptor::{
    descs_view, descs_wf, layout_binding_of, pool_size_of, range_table, write_of, DescWriteInfo,
    Descriptor, DescriptorView, LayoutBinding, PoolSize, WriteRecord,
};
use crate::layout::{extent, field_spans, BufField, LayoutError};
use crate::merge::distinct_slots;
use crate::namemap::Entries;
use vstd::prelude::*;

verus! {

/// A descriptor set as a mathematical value.
pub struct SetView {
    pub index: u32,
    pub set: u64,
    pub layout: u64,
    pub descriptors: Seq<DescriptorView>,
}

/// All bindings of one set index, with the handles of the descriptor set
/// and of its layout once they are allocated (zero before).
#[derive(Debug, Clone)]
pub struct SetToken {
    /// The set index that the bindings share.
    pub index: u32,
    /// Raw handle of the descriptor set.
    pub set: u64,
    /// Raw handle of the descriptor set layout.
    pub layout: u64,
    /// The bindings, in the order in which their slots were first declared.
    pub descriptors: Vec<Descriptor>,
}

/// Whether a set of the list has the index `index`.
pub open spec fn has_set(groups: Seq<SetView>, index: u32) -> bool {
    exists|i: int| 0 <= i < groups.len() && (#[trigger] groups[i]).index == index
}

/// The position of the set with the index `index`; meaningful when there is one.
pub open spec fn set_position(groups: Seq<SetView>, index: u32) -> int {
    choose|i: int| 0 <= i < groups.len() && (#[trigger] groups[i]).index == index
}

/// Whether no two sets of the list share an index.
pub open spec fn distinct_sets(groups: Seq<SetView>) -> bool {
    forall|i: int, j: int| 0 <= i < j < groups.len() ==> (#[trigger] groups[i]).index != (
    #[trigger] groups[j]).index
}

/// The sets after one more binding: it joins the set of its index, or opens
/// a new set behind the others.
pub open spec fn group_one(groups: Seq<SetView>, d: DescriptorView) -> Seq<SetView> {
    if has_set(groups, d.set) {
        let i = set_position(groups, d.set);
        groups.update(i, SetView { descriptors: groups[i].descriptors.push(d), ..groups[i] })
    } else {
        groups.push(SetView { index: d.set, set: 0, layout: 0, descriptors: seq![d] })
    }
}

/// The bindings grouped into sets, each set in the place where its index
/// first occurs.
pub open spec fn group_all(ds: Seq<DescriptorView>) -> Seq<SetView>
    decreases ds.len(),
{
    if ds.len() == 0 {
        Seq::empty()
    } else {
        group_one(group_all(ds.drop_last()), ds.last())
    }
}

/// The bindings of `ds` that belong to the set `index`, in order.
pub open spec fn of_set(ds: Seq<DescriptorView>, index: u32) -> Seq<DescriptorView>
    decreases ds.len(),
{
    if ds.len() == 0 {
        Seq::empty()
    } else if ds.last().set == index {
        of_set(ds.drop_last(), index).push(ds.last())
    } else {
        of_set(ds.drop_last(), index)
    }
}

/// With distinct indices, a set found under an index is the one
/// `set_position` names.
pub proof fn lemma_set_unique(groups: Seq<SetView>, i: int)
    requires
        distinct_sets(groups),
        0 <= i < groups.len(),
    ensures
        has_set(groups, groups[i].index),
        set_position(groups, groups[i].index) == i,
{
    let p = set_position(groups, groups[i].index);
    assert(0 <= p < groups.len() && groups[p].index == groups[i].index);
    if p < i {
        assert(groups[p].index != groups[i].index);
    } else if i < p {
        assert(groups[i].index != groups[p].index);
    }
}

/// Grouping is a partition: the sets have distinct indices, none is empty,
/// each holds exactly the bindings of its index in their order, and every
/// index that occurs has its set.
pub proof fn lemma_groups_partition(ds: Seq<DescriptorView>)
    ensures
        distinct_sets(group_all(ds)),
        forall|g: int|
            0 <= g < group_all(ds).len() ==> (#[trigger] group_all(ds)[g]).descriptors == of_set(
                ds,
                group_all(ds)[g].index,
            ) && group_all(ds)[g].descriptors.len() > 0,
        forall|k: int| 0 <= k < ds.len() ==> has_set(group_all(ds), (#[trigger] ds[k]).set),
    decreases ds.len(),
{
    if ds.len() > 0 {
        let rest = ds.drop_last();
        let d = ds.last();
        let before = group_all(rest);
        let after = group_all(ds);
        lemma_groups_partition(rest);
        if has_set(before, d.set) {
            let p = set_position(before, d.set);
            assert(0 <= p < before.len() && before[p].index == d.set);
            assert forall|i: int, j: int| 0 <= i < j < after.len() implies (#[trigger] after[i]).index
                != (#[trigger] after[j]).index by {
                assert(before[i].index != before[j].index);
            }
            assert forall|g: int| 0 <= g < after.len() implies (#[trigger] after[g]).descriptors
                == of_set(ds, after[g].index) && after[g].descriptors.len() > 0 by {
                assert(before[g].descriptors == of_set(rest, before[g].index));
                if g != p {
                    assert(before[g].index != before[p].index);
                }
            }
            assert forall|k: int| 0 <= k < ds.len() implies has_set(after, (#[trigger] ds[k]).set) by {
                if k < rest.len() {
                    assert(rest[k] == ds[k]);
                    let q = set_position(before, ds[k].set);
                    assert(0 <= q < before.len() && before[q].index == ds[k].set);
                    assert(after[q].index == ds[k].set);
                } else {
                    assert(after[p].index == d.set);
                }
            }
        } else {
            let n = before.len() as int;
            assert forall|i: int, j: int| 0 <= i < j < after.len() implies (#[trigger] after[i]).index
                != (#[trigger] after[j]).index by {
                if j < n {
                    assert(before[i].index != before[j].index);
                } else {
                    assert(after[i] == before[i]);
                }
            }
            lemma_of_set_absent(rest, before, d.set);
            assert forall|g: int| 0 <= g < after.len() implies (#[trigger] after[g]).descriptors
                == of_set(ds, after[g].index) && after[g].descriptors.len() > 0 by {
                if g < n {
                    assert(after[g] == before[g]);
                    assert(before[g].descriptors == of_set(rest, before[g].index));
                } else {
                    assert(after[g].descriptors =~= of_set(rest, d.set).push(d));
                }
            }
            assert forall|k: int| 0 <= k < ds.len() implies has_set(after, (#[trigger] ds[k]).set) by {
                if k < rest.len() {
                    assert(rest[k] == ds[k]);
                    let q = set_position(before, ds[k].set);
                    assert(0 <= q < before.len() && before[q].index == ds[k].set);
                    assert(after[q] == before[q]);
                } else {
                    assert(after[n].index == d.set);
                }
            }
        }
    }
}

/// The bindings of one set are bindings of the list, all of that set, and
/// no two of them share a slot if no two of the list do.
pub proof fn lemma_of_set_members(ds: Seq<DescriptorView>, index: u32)
    ensures
        forall|k: int|
            0 <= k < of_set(ds, index).len() ==> (#[trigger] of_set(ds, index)[k]).set == index
                && ds.contains(of_set(ds, index)[k]),
        distinct_slots(ds) ==> distinct_slots(of_set(ds, index)),
    decreases ds.len(),
{
    if ds.len() > 0 {
        let rest = ds.drop_last();
        let last = ds.last();
        let sub = of_set(rest, index);
        let all = of_set(ds, index);
        lemma_of_set_members(rest, index);
        assert forall|k: int| 0 <= k < all.len() implies (#[trigger] all[k]).set == index && ds.contains(
            all[k],
        ) by {
            if k < sub.len() {
                assert(all[k] == sub[k]);
                assert(rest.contains(sub[k]));
                let j = choose|j: int| 0 <= j < rest.len() && rest[j] == sub[k];
                assert(ds[j] == sub[k]);
            } else {
                assert(ds[ds.len() - 1] == last);
            }
        }
        if distinct_slots(ds) {
            assert forall|i: int, j: int| 0 <= i < j < rest.len() implies !((#[trigger] rest[i]).set == (
            #[trigger] rest[j]).set && rest[i].binding == rest[j].binding) by {
                assert(!(ds[i].set == ds[j].set && ds[i].binding == ds[j].binding));
            }
            assert forall|i: int, j: int| 0 <= i < j < all.len() implies !((#[trigger] all[i]).set == (
            #[trigger] all[j]).set && all[i].binding == all[j].binding) by {
                if j < sub.len() {
                    assert(!(sub[i].set == sub[j].set && sub[i].binding == sub[j].binding));
                } else {
                    assert(all[i] == sub[i]);
                    assert(rest.contains(sub[i]));
                    let m = choose|m: int| 0 <= m < rest.len() && rest[m] == sub[i];
                    assert(!(ds[m].set == ds[ds.len() - 1].set && ds[m].binding == ds[ds.len() - 1].binding));
                }
            }
        }
    }
}

/// An index without a set has no binding.
proof fn lemma_of_set_absent(ds: Seq<DescriptorView>, groups: Seq<SetView>, index: u32)
    requires
        forall|k: int| 0 <= k < ds.len() ==> has_set(groups, (#[trigger] ds[k]).set),
        !has_set(groups, index),
    ensures
        of_set(ds, index) == Seq::<DescriptorView>::empty(),
    decreases ds.len(),
{
    if ds.len() > 0 {
        let rest = ds.drop_last();
        assert forall|k: int| 0 <= k < rest.len() implies has_set(groups, (#[trigger] rest[k]).set) by {
            assert(rest[k] == ds[k]);
        }
        lemma_of_set_absent(rest, groups, index);
        assert(has_set(groups, ds[ds.len() - 1].set));
    }
}

/// The sets of a list as mathematical values.
pub open spec fn sets_view(s: Seq<SetToken>) -> Seq<SetView> {
    s.map_values(|t: SetToken| t@)
}

/// Whether every set of a list is well-formed.
pub open spec fn sets_wf(s: Seq<SetToken>) -> bool {
    forall|i: int| 0 <= i < s.len() ==> (#[trigger] s[i]).wf()
}

/// What the bindings take from a descriptor pool, one entry each.
pub open spec fn sizes_of(ds: Seq<DescriptorView>) -> Seq<PoolSize> {
    ds.map_values(|d: DescriptorView| pool_size_of(d))
}

/// What the sets take from a descriptor pool: one entry per binding, set by set.
pub open spec fn pool_sizes(sets: Seq<SetView>) -> Seq<PoolSize>
    decreases sets.len(),
{
    if sets.len() == 0 {
        Seq::empty()
    } else {
        pool_sizes(sets.drop_last()) + sizes_of(sets.last().descriptors)
    }
}

/// The position of the last binding called `name`, if there is one.
pub open spec fn last_named(ds: Seq<DescriptorView>, name: Seq<char>) -> Option<int>
    decreases ds.len(),
{
    if ds.len() == 0 {
        None
    } else if ds.last().name == name {
        Some(ds.len() - 1)
    } else {
        last_named(ds.drop_last(), name)
    }
}

/// The updates of one set for a list of named targets: one update for each
/// target whose name the set knows, in the order of the targets. A name
/// that the set does not know is passed over.
pub open spec fn writes_for(s: SetView, infos: Entries<DescWriteInfo>) -> Seq<WriteRecord>
    decreases infos.len(),
{
    if infos.len() == 0 {
        Seq::empty()
    } else {
        let rest = writes_for(s, infos.drop_last());
        match last_named(s.descriptors, infos.last().0) {
            Some(i) => rest.push(write_of(s.descriptors[i], s.set, infos.last().1)),
            None => rest,
        }
    }
}

/// The updates of all sets for a list of named targets, set by set.
pub open spec fn all_writes(sets: Seq<SetView>, infos: Entries<DescWriteInfo>) -> Seq<WriteRecord>
    decreases sets.len(),
{
    if sets.len() == 0 {
        Seq::empty()
    } else {
        all_writes(sets.drop_last(), infos) + writes_for(sets.last(), infos)
    }
}

/// The named targets as the sets see them: each name by its characters.
pub open spec fn infos_view(infos: Seq<(String, DescWriteInfo)>) -> Entries<DescWriteInfo> {
    infos.map_values(|e: (String, DescWriteInfo)| (e.0@, e.1))
}

/// The layout of a buffer as a mathematical value.
pub struct BufferView {
    pub name: Seq<char>,
    pub size: nat,
    pub fields: Entries<BufField>,
}

/// The buffer that backs a structured binding.
pub open spec fn buffer_of(d: DescriptorView) -> BufferView {
    BufferView { name: d.name, size: extent(field_spans(d.fields)), fields: range_table(d.fields) }
}

/// The buffers that back the structured bindings of a list, in order; a
/// binding without fields has none.
pub open spec fn buffers_of(ds: Seq<DescriptorView>) -> Seq<BufferView>
    decreases ds.len(),
{
    if ds.len() == 0 {
        Seq::empty()
    } else if ds.last().fields.len() > 0 {
        buffers_of(ds.drop_last()).push(buffer_of(ds.last()))
    } else {
        buffers_of(ds.drop_last())
    }
}

/// The buffers that back the structured bindings of all sets, set by set.
pub open spec fn all_buffers(sets: Seq<SetView>) -> Seq<BufferView>
    decreases sets.len(),
{
    if sets.len() == 0 {
        Seq::empty()
    } else {
        all_buffers(sets.drop_last()) + buffers_of(sets.last().descriptors)
    }
}

/// Whether every buffer of the list can be addressed with 64 bits.
pub open spec fn all_fit(bs: Seq<BufferView>) -> bool {
    forall|i: int| 0 <= i < bs.len() ==> (#[trigger] bs[i]).size <= u64::MAX
}

/// Named buffer layouts as mathematical values.
pub open spec fn buffers_view(bs: Seq<(String, BufStruct)>) -> Seq<BufferView> {
    bs.map_values(
        |e: (String, BufStruct)| BufferView { name: e.0@, size: e.1.size as nat, fields: e.1.fields@ },
    )
}

/// Whether every buffer layout of the list is well-formed.
pub open spec fn buffers_wf(bs: Seq<(String, BufStruct)>) -> bool {
    forall|i: int| 0 <= i < bs.len() ==> (#[trigger] bs[i]).1.wf()
}

impl SetToken {
    /// The set as a mathematical value.
    pub open spec fn view(&self) -> SetView {
        SetView {
            index: self.index,
            set: self.set,
            layout: self.layout,
            descriptors: descs_view(self.descriptors@),
        }
    }

    /// Well-formedness: every binding is well-formed.
    pub open spec fn wf(&self) -> bool {
        descs_wf(self.descriptors@)
    }

    /// The bindings as the set's layout lists them, in the set's order.
    pub fn layout_bindings(&self) -> (r: Vec<LayoutBinding>)
        ensures
            r@ == self@.descriptors.map_values(|d: DescriptorView| layout_binding_of(d)),
    {
        let mut out: Vec<LayoutBinding> = Vec::new();
        let mut i: usize = 0;
        while i < self.descriptors.len()
            invariant
                i <= self.descriptors.len(),
                out@.len() == i,
                forall|k: int| 0 <= k < i ==> out@[k] == layout_binding_of(self.descriptors@[k]@),
            decreases self.descriptors.len() - i,
        {
            out.push(self.descriptors[i].layout_binding());
            i += 1;
        }
        assert(out@ =~= self@.descriptors.map_values(|d: DescriptorView| layout_binding_of(d)));
        out
    }

    /// What the set takes from a descriptor pool, one entry per binding.
    pub fn sizes(&self) -> (r: Vec<PoolSize>)
        ensures
            r@ == sizes_of(self@.descriptors),
    {
        let mut out: Vec<PoolSize> = Vec::new();
        let mut i: usize = 0;
        while i < self.descriptors.len()
            invariant
                i <= self.descriptors.len(),
                out@.len() == i,
                forall|k: int| 0 <= k < i ==> out@[k] == pool_size_of(self.descriptors@[k]@),
            decreases self.descriptors.len() - i,
        {
            out.push(self.descriptors[i].size());
            i += 1;
        }
        assert(out@ =~= sizes_of(self@.descriptors));
        out
    }

    /// The binding called `name`; the last one, should several carry the name.
    pub fn get(&self, name: &str) -> (r: Option<&Descriptor>)
        ensures
            r is Some <==> last_named(self@.descriptors, name@) is Some,
            r matches Some(d) ==> d@ == self@.descriptors[last_named(self@.descriptors, name@).unwrap()],
    {
        let ghost ds = self@.descriptors;
        let wanted = name.to_owned();
        let mut i: usize = self.descriptors.len();
        assert(ds.take(i as int) =~= ds);
        while i > 0
            invariant
                i <= self.descriptors.len(),
                ds == self@.descriptors,
                wanted@ == name@,
                last_named(ds, name@) == last_named(ds.take(i as int), name@),
            decreases i,
        {
            i -= 1;
            proof {
                assert(ds.take(i as int + 1).drop_last() =~= ds.take(i as int));
                assert(ds.take(i as int + 1).last() == self.descriptors@[i as int]@);
            }
            if self.descriptors[i].name == wanted {
                return Some(&self.descriptors[i]);
            }
        }
        assert(ds.take(0).len() == 0);
        None
    }

    /// The updates of this set for a list of named targets. A target whose
    /// name the set does not know is passed over.
    pub fn make_writes(&self, info: &Vec<(String, DescWriteInfo)>) -> (r: Vec<WriteRecord>)
        ensures
            r@ == writes_for(self@, infos_view(info@)),
    {
        let ghost infos = infos_view(info@);
        let mut out: Vec<WriteRecord> = Vec::new();
        let mut i: usize = 0;
        assert(infos.take(0) =~= Seq::<(Seq<char>, DescWriteInfo)>::empty());
        while i < info.len()
            invariant
                i <= info.len(),
                infos == infos_view(info@),
                out@ == writes_for(self@, infos.take(i as int)),
            decreases info.len() - i,
        {
            proof {
                assert(infos.take(i as int + 1).drop_last() =~= infos.take(i as int));
                assert(infos.take(i as int + 1).last() == (info@[i as int].0@, info@[i as int].1));
            }
            match self.get(info[i].0.as_str()) {
                Some(d) => {
                    out.push(d.make_write(self.set, &info[i].1));
                },
                None => {},
            }
            i += 1;
        }
        assert(infos.take(i as int) =~= infos);
        out
    }

    /// The layouts of the buffers that back the structured bindings of the
    /// set, each under its binding's name. Fails if one of them cannot be
    /// addressed with 64 bits.
    pub fn make_buffers(&self) -> (r: Result<Vec<(String, BufStruct)>, LayoutError>)
        requires
            self.wf(),
        ensures
            r is Ok <==> all_fit(buffers_of(self@.descriptors)),
            r matches Ok(bs) ==> buffers_wf(bs@) && buffers_view(bs@) == buffers_of(self@.descriptors),
            r matches Err(e) ==> e == LayoutError::Overflow,
    {
        let ghost ds = self@.descriptors;
        let mut out: Vec<(String, BufStruct)> = Vec::new();
        let mut i: usize = 0;
        proof {
            assert(ds.take(0) =~= Seq::<DescriptorView>::empty());
            assert(buffers_view(out@) =~= Seq::<BufferView>::empty());
        }
        while i < self.descriptors.len()
            invariant
                i <= self.descriptors.len(),
                self.wf(),
                ds == self@.descriptors,
                buffers_wf(out@),
                buffers_view(out@) == buffers_of(ds.take(i as int)),
                all_fit(buffers_of(ds.take(i as int))),
            decreases self.descriptors.len() - i,
        {
            let d = &self.descriptors[i];
            proof {
                assert(ds.take(i as int + 1).drop_last() =~= ds.take(i as int));
                assert(ds.take(i as int + 1).last() == d@);
            }
            if !d.fields.is_empty() {
                match d.make_buffer() {
                    Ok(b) => {
                        let ghost before = out@;
                        out.push((d.name.clone(), b));
                        proof {
                            assert(buffers_view(out@) =~= buffers_view(before).push(buffer_of(d@)));
                            assert forall|k: int| 0 <= k < out@.len() implies (#[trigger] out@[k]).1.wf() by {
                                if k < before.len() {
                                    assert(out@[k] == before[k]);
                                }
                            }
                        }
                    },
                    Err(e) => {
                        proof {
                            let bad = buffers_of(ds.take(i as int + 1));
                            assert(d@.fields.len() > 0);
                            assert(e == LayoutError::Overflow);
                            assert(bad == buffers_of(ds.take(i as int)).push(buffer_of(d@)));
                            assert(bad[bad.len() - 1].size > u64::MAX);
                            lemma_buffers_prefix(ds, i as int + 1);
                            assert(buffers_of(ds)[bad.len() - 1] == bad[bad.len() - 1]);
                        }
                        return Err(LayoutError::Overflow);
                    },
                }
            }
            i += 1;
        }
        assert(ds.take(i as int) =~= ds);
        Ok(out)
    }
}

/// The buffers of a prefix of the bindings are a prefix of the buffers of all.
pub proof fn lemma_buffers_prefix(ds: Seq<DescriptorView>, n: int)
    requires
        0 <= n <= ds.len(),
    ensures
        buffers_of(ds.take(n)).len() <= buffers_of(ds).len(),
        forall|k: int| 0 <= k < buffers_of(ds.take(n)).len() ==> buffers_of(ds.take(n))[k] == buffers_of(ds)[k],
    decreases ds.len() - n,
{
    if n < ds.len() {
        assert(ds.take(n + 1).drop_last() =~= ds.take(n));
        lemma_buffers_prefix(ds, n + 1);
    } else {
        assert(ds.take(n) =~= ds);
    }
}

} // verus!
