//! The descriptor pool of a pipeline: built from what the stages declare,
//! it says what to allocate and holds the sets once they are allocated.

use crate::buffer::BufStruct;
use crate::descriptor::{descs_view, descs_wf, DescWriteInfo, Descriptor, DescriptorView, PoolSize, WriteRecord};
use crate::layout::LayoutError;
use crate::merge::{distinct_slots, lemma_merge_all_distinct, merge_all, merge_bindings};
use crate::namemap::{distinct_names, has_name, lemma_position_unique, lookup, position, Entries};
use crate::push::{PushConstant, PushView};
use crate::raw::RawModule;
use crate::reflect::{reflect_spec, reflect_stage, ReflectionError, StageReflection, StageView};
use crate::sets::{
    all_buffers, all_fit, all_writes, buffers_of, buffers_view, buffers_wf, distinct_sets,
    group_all, group_one, has_set, infos_view, lemma_groups_partition, lemma_of_set_members,
    lemma_set_unique, pool_sizes, set_position, sets_view, sets_wf, BufferView, SetToken, SetView,
};
use vstd::prelude::*;

verus! {

/// Why a pool could not be built.
#[derive(Debug, Copy, Clone, PartialEq, Eq, Structural)]
pub enum BuildError {
    /// Two declarations of one slot disagree on its structure.
    BindingConflict,
    /// Two push-constant blocks of one name disagree on their structure.
    PushConstantConflict,
}

/// Named push-constant blocks as mathematical values.
pub open spec fn pushes_view(s: Seq<(String, PushConstant)>) -> Entries<PushView> {
    s.map_values(|e: (String, PushConstant)| (e.0@, e.1@))
}

/// Whether every block of a list is well-formed.
pub open spec fn pushes_wf(s: Seq<(String, PushConstant)>) -> bool {
    forall|i: int| 0 <= i < s.len() ==> (#[trigger] s[i]).1.wf()
}

/// Whether two declarations of one block agree on its structure: the same
/// fields, the same size and the same offset.
pub open spec fn push_compatible(a: PushView, b: PushView) -> bool {
    a.fields == b.fields && a.size == b.size && a.offset == b.offset
}

/// The merged blocks after one more declaration. A new name is appended. A
/// block that is there gains the declaration's stages if both agree on the
/// structure; if they do not, there are no merged blocks.
pub open spec fn merge_push_one(acc: Entries<PushView>, name: Seq<char>, p: PushView) -> Option<
    Entries<PushView>,
> {
    if has_name(acc, name) {
        let i = position(acc, name);
        if push_compatible(acc[i].1, p) {
            Some(acc.update(i, (name, PushView { stage: acc[i].1.stage.union_spec(p.stage), ..acc[i].1 })))
        } else {
            None
        }
    } else {
        Some(acc.push((name, p)))
    }
}

/// The blocks of a builder after more declarations, taken in order, with
/// the mark of a conflict. A declaration that agrees with the block of its
/// name, or whose name is new, is merged. One that disagrees is left out
/// and sets the mark; the block stands as it was first declared.
pub open spec fn merge_push_onto(acc: Entries<PushView>, conflict: bool, blocks: Entries<PushView>) -> (
    Entries<PushView>,
    bool,
)
    decreases blocks.len(),
{
    if blocks.len() == 0 {
        (acc, conflict)
    } else {
        let before = merge_push_onto(acc, conflict, blocks.drop_last());
        match merge_push_one(before.0, blocks.last().0, blocks.last().1) {
            Some(merged) => (merged, before.1),
            None => (before.0, true),
        }
    }
}

/// Merging one more declaration keeps the names distinct.
pub proof fn lemma_merge_push_distinct(acc: Entries<PushView>, name: Seq<char>, p: PushView)
    requires
        distinct_names(acc),
        merge_push_one(acc, name, p) is Some,
    ensures
        distinct_names(merge_push_one(acc, name, p).unwrap()),
{
    let m = merge_push_one(acc, name, p).unwrap();
    if has_name(acc, name) {
        let i = position(acc, name);
        assert(0 <= i < acc.len() && acc[i].0 == name);
        assert forall|a: int, b: int| 0 <= a < b < m.len() implies (#[trigger] m[a]).0 != (#[trigger] m[b]).0 by {
            assert(acc[a].0 != acc[b].0);
        }
    } else {
        assert forall|a: int, b: int| 0 <= a < b < m.len() implies (#[trigger] m[a]).0 != (#[trigger] m[b]).0 by {
            if b < acc.len() {
                assert(acc[a].0 != acc[b].0);
            } else {
                assert(m[a] == acc[a]);
            }
        }
    }
}

/// Blocks with distinct names keep distinct names through more
/// declarations, and a conflict once marked stays marked.
pub proof fn lemma_merge_push_onto_distinct(acc: Entries<PushView>, conflict: bool, blocks: Entries<PushView>)
    requires
        distinct_names(acc),
    ensures
        distinct_names(merge_push_onto(acc, conflict, blocks).0),
        conflict ==> merge_push_onto(acc, conflict, blocks).1,
    decreases blocks.len(),
{
    if blocks.len() > 0 {
        lemma_merge_push_onto_distinct(acc, conflict, blocks.drop_last());
        let before = merge_push_onto(acc, conflict, blocks.drop_last());
        if merge_push_one(before.0, blocks.last().0, blocks.last().1) is Some {
            lemma_merge_push_distinct(before.0, blocks.last().0, blocks.last().1);
        }
    }
}

/// One more declaration is merged into the block of its name, or left
/// out and marked if it disagrees with that block.
pub proof fn lemma_merge_push_onto_one(acc: Entries<PushView>, conflict: bool, name: Seq<char>, p: PushView)
    ensures
        merge_push_onto(acc, conflict, seq![(name, p)]) == match merge_push_one(acc, name, p) {
            Some(merged) => (merged, conflict),
            None => (acc, true),
        },
{
    let one = seq![(name, p)];
    assert(one.drop_last() =~= Seq::<(Seq<char>, PushView)>::empty());
    assert(merge_push_onto(acc, conflict, one.drop_last()) == (acc, conflict));
    assert(one.last() == (name, p));
}

/// After a declaration that agrees with the block of its name, there is
/// still one block of that name, visible from the stages of both, and
/// with the structure that it had.
pub proof fn lemma_merge_push_unites(acc: Entries<PushView>, name: Seq<char>, p: PushView)
    requires
        distinct_names(acc),
        has_name(acc, name),
        push_compatible(acc[position(acc, name)].1, p),
    ensures
        merge_push_one(acc, name, p) is Some,
        merge_push_one(acc, name, p).unwrap().len() == acc.len(),
        lookup(merge_push_one(acc, name, p).unwrap(), name) == Some(
            PushView {
                stage: acc[position(acc, name)].1.stage.union_spec(p.stage),
                ..acc[position(acc, name)].1
            },
        ),
{
    let i = position(acc, name);
    assert(0 <= i < acc.len() && acc[i].0 == name);
    let m = merge_push_one(acc, name, p).unwrap();
    lemma_merge_push_distinct(acc, name, p);
    lemma_position_unique(m, name, i);
}

/// The position of the block called `name`, if there is one.
pub fn find_push(acc: &Vec<(String, PushConstant)>, name: &String) -> (r: Option<usize>)
    requires
        distinct_names(pushes_view(acc@)),
    ensures
        r is Some <==> has_name(pushes_view(acc@), name@),
        r matches Some(i) ==> i < acc.len() && i == position(pushes_view(acc@), name@),
{
    let ghost view = pushes_view(acc@);
    let mut i: usize = 0;
    while i < acc.len()
        invariant
            i <= acc.len(),
            view == pushes_view(acc@),
            distinct_names(view),
            forall|k: int| 0 <= k < i ==> (#[trigger] view[k]).0 != name@,
        decreases acc.len() - i,
    {
        if acc[i].0 == *name {
            proof {
                assert(view[i as int].0 == acc@[i as int].0@);
                lemma_position_unique(view, name@, i as int);
            }
            return Some(i);
        }
        i += 1;
    }
    None
}

/// Merges one more block into a list with one block per name. Answers
/// whether the block fits; the list is left as it was if it does not.
pub fn merge_push(acc: &mut Vec<(String, PushConstant)>, name: String, p: PushConstant) -> (ok: bool)
    requires
        pushes_wf(old(acc)@),
        distinct_names(pushes_view(old(acc)@)),
        p.wf(),
    ensures
        pushes_wf(final(acc)@),
        distinct_names(pushes_view(final(acc)@)),
        ok <==> merge_push_one(pushes_view(old(acc)@), name@, p@) is Some,
        ok ==> pushes_view(final(acc)@) == merge_push_one(pushes_view(old(acc)@), name@, p@).unwrap(),
        !ok ==> final(acc)@ == old(acc)@,
{
    let ghost before = pushes_view(acc@);
    match find_push(acc, &name) {
        None => {
            acc.push((name, p));
            proof {
                assert(pushes_view(acc@) =~= before.push((name@, p@)));
                lemma_merge_push_distinct(before, name@, p@);
            }
            true
        },
        Some(i) => {
            assert(before[i as int] == (acc@[i as int].0@, acc@[i as int].1@));
            let agree = crate::descriptor::same_layout(&acc[i].1.fields, &p.fields) && acc[i].1.size
                == p.size && acc[i].1.offset == p.offset;
            if !agree {
                return false;
            }
            let mut cur = acc.remove(i);
            cur.1.stage = cur.1.stage.union(p.stage);
            acc.insert(i, cur);
            proof {
                assert(pushes_view(acc@) =~= before.update(
                    i as int,
                    (
                        name@,
                        PushView {
                            stage: before[i as int].1.stage.union_spec(p.stage),
                            ..before[i as int].1
                        },
                    ),
                ));
                lemma_merge_push_distinct(before, name@, p@);
            }
            true
        },
    }
}

/// The position of the set with the index `index`, if there is one.
pub fn find_set(groups: &Vec<SetToken>, index: u32) -> (r: Option<usize>)
    requires
        distinct_sets(sets_view(groups@)),
    ensures
        r is Some <==> has_set(sets_view(groups@), index),
        r matches Some(i) ==> i < groups.len() && i == set_position(sets_view(groups@), index),
{
    let ghost view = sets_view(groups@);
    let mut i: usize = 0;
    while i < groups.len()
        invariant
            i <= groups.len(),
            view == sets_view(groups@),
            distinct_sets(view),
            forall|k: int| 0 <= k < i ==> (#[trigger] view[k]).index != index,
        decreases groups.len() - i,
    {
        if groups[i].index == index {
            proof {
                assert(view[i as int] == groups@[i as int]@);
                lemma_set_unique(view, i as int);
            }
            return Some(i);
        }
        i += 1;
    }
    None
}

/// Groups bindings into sets by their set index. The sets stand in the
/// order in which their indices first occur, the bindings of a set in their
/// own order; no handle is attached yet.
pub fn group_sets(merged: Vec<Descriptor>) -> (r: Vec<SetToken>)
    requires
        descs_wf(merged@),
    ensures
        sets_wf(r@),
        sets_view(r@) == group_all(descs_view(merged@)),
{
    let ghost all = descs_view(merged@);
    let mut rest = merged;
    let mut groups: Vec<SetToken> = Vec::new();
    let ghost mut done: int = 0;
    proof {
        assert(all.take(0) =~= Seq::<DescriptorView>::empty());
        assert(sets_view(groups@) =~= Seq::<SetView>::empty());
        assert(all.skip(0) =~= all);
    }
    while rest.len() > 0
        invariant
            0 <= done <= all.len(),
            all == descs_view(merged@),
            descs_wf(rest@),
            descs_view(rest@) == all.skip(done),
            sets_wf(groups@),
            sets_view(groups@) == group_all(all.take(done)),
        decreases rest.len(),
    {
        let ghost rest_before = rest@;
        let ghost before = sets_view(groups@);
        let ghost groups_before = groups@;
        let d = rest.remove(0);
        proof {
            assert(descs_view(rest_before).len() == rest_before.len());
            assert(done < all.len());
            assert(d == rest_before[0]);
            assert(d@ == descs_view(rest_before)[0]);
            assert(d@ == all[done]);
            assert(all.take(done + 1).drop_last() =~= all.take(done));
            assert(all.take(done + 1).last() == d@);
            assert forall|i: int| 0 <= i < rest@.len() implies descs_view(rest@)[i] == all.skip(
                done + 1,
            )[i] by {
                assert(rest@[i] == rest_before[i + 1]);
                assert(descs_view(rest_before)[i + 1] == all.skip(done)[i + 1]);
            }
            assert(descs_view(rest@) =~= all.skip(done + 1));
            assert forall|i: int| 0 <= i < rest@.len() implies (#[trigger] rest@[i]).wf() by {
                assert(rest@[i] == rest_before[i + 1]);
            }
            lemma_groups_partition(all.take(done));
            assert(group_all(all.take(done + 1)) == group_one(before, d@));
        }
        match find_set(&groups, d.set) {
            Some(g) => {
                let mut t = groups.remove(g);
                let ghost members = t.descriptors@;
                let ghost dv = d@;
                t.descriptors.push(d);
                proof {
                    assert(descs_view(t.descriptors@) =~= descs_view(members).push(dv));
                    assert forall|k: int| 0 <= k < t.descriptors@.len() implies (
                    #[trigger] t.descriptors@[k]).wf() by {
                        if k < members.len() {
                            assert(t.descriptors@[k] == members[k]);
                            assert(groups_before[g as int].wf());
                        }
                    }
                }
                groups.insert(g, t);
                proof {
                    assert(sets_view(groups@) =~= group_one(before, dv));
                    assert forall|k: int| 0 <= k < groups@.len() implies (#[trigger] groups@[k]).wf() by {
                        if k != g {
                            assert(groups@[k] == groups_before[k]);
                        }
                    }
                }
            },
            None => {
                let index = d.set;
                let ghost dv = d@;
                let mut members: Vec<Descriptor> = Vec::new();
                members.push(d);
                groups.push(SetToken { index, set: 0, layout: 0, descriptors: members });
                proof {
                    assert(descs_view(members@) =~= seq![dv]);
                    assert(sets_view(groups@) =~= group_one(before, dv));
                    assert forall|k: int| 0 <= k < groups@.len() implies (#[trigger] groups@[k]).wf() by {
                        if k < groups_before.len() {
                            assert(groups@[k] == groups_before[k]);
                        }
                    }
                }
            },
        }
        proof {
            done = done + 1;
        }
    }
    proof {
        assert(all.skip(done).len() == 0);
        assert(all.take(done) =~= all);
    }
    groups
}

/// A descriptor pool as a mathematical value.
pub struct PoolView {
    pub pool: u64,
    pub sets: Seq<SetView>,
}

/// The descriptor pool of a pipeline with its sets. The handles of the
/// pool, of the sets and of their layouts are zero until they are attached.
#[derive(Debug, Clone)]
pub struct DescPoolToken {
    /// Raw handle of the pool.
    pub pool: u64,
    pub sets: Vec<SetToken>,
}

/// What a builder has gathered, as a mathematical value.
pub struct BuilderView {
    pub min_offset: u64,
    pub data: Seq<DescriptorView>,
    pub push_consts: Entries<PushView>,
    pub push_conflict: bool,
}

/// Gathers what the stages of one pipeline declare, stage by stage.
#[derive(Debug, Clone)]
pub struct DescPoolBuilder {
    /// The alignment that the device asks of every field offset.
    pub min_offset: u64,
    /// The bindings of all stages, in the order in which they were added.
    pub data: Vec<Descriptor>,
    /// The push-constant blocks of all stages, one for each name, in the
    /// order in which the names were first declared. A block is visible
    /// from every stage that declared it.
    pub push_consts: Vec<(String, PushConstant)>,
    /// Whether a stage declared a block with another structure than the
    /// block of that name has. Such a declaration is left out of
    /// `push_consts`.
    pub push_conflict: bool,
}

impl BuilderView {
    /// What is gathered after one more stage.
    pub open spec fn with_stage(self, stage: StageView) -> BuilderView {
        let blocks = merge_push_onto(self.push_consts, self.push_conflict, stage.push_constants);
        BuilderView {
            min_offset: self.min_offset,
            data: self.data + stage.resources,
            push_consts: blocks.0,
            push_conflict: blocks.1,
        }
    }

    /// What is gathered after one more module, if it can be reflected.
    pub open spec fn with_module(self, module: RawModule) -> Result<BuilderView, ReflectionError> {
        match reflect_spec(module, self.min_offset) {
            Ok(stage) => Ok(self.with_stage(stage)),
            Err(e) => Err(e),
        }
    }
}

/// The pool and the push-constant blocks that are built from what was
/// gathered: one binding per slot, visible from every stage that declares
/// it, the bindings grouped into sets, and the blocks as they were gathered.
pub open spec fn build_spec(b: BuilderView) -> Result<(PoolView, Entries<PushView>), BuildError> {
    match merge_all(b.data) {
        None => Err(BuildError::BindingConflict),
        Some(merged) => if b.push_conflict {
            Err(BuildError::PushConstantConflict)
        } else {
            Ok((PoolView { pool: 0, sets: group_all(merged) }, b.push_consts))
        },
    }
}

/// What is built has one set for each set index that occurs, and in every
/// set one binding per binding index: the sets have distinct indices, none
/// is empty, every binding stands in the set of its index, and no two
/// bindings of a set share a slot.
pub proof fn lemma_built_sets(b: BuilderView)
    requires
        build_spec(b) is Ok,
    ensures
        distinct_sets(build_spec(b).unwrap().0.sets),
        forall|g: int|
            0 <= g < build_spec(b).unwrap().0.sets.len() ==> {
                let set = #[trigger] build_spec(b).unwrap().0.sets[g];
                &&& set.descriptors.len() > 0
                &&& distinct_slots(set.descriptors)
                &&& forall|k: int|
                    0 <= k < set.descriptors.len() ==> (#[trigger] set.descriptors[k]).set == set.index
            },
{
    let merged = merge_all(b.data).unwrap();
    let sets = group_all(merged);
    lemma_merge_all_distinct(b.data);
    lemma_groups_partition(merged);
    assert forall|g: int| 0 <= g < sets.len() implies {
        let set = #[trigger] sets[g];
        &&& set.descriptors.len() > 0
        &&& distinct_slots(set.descriptors)
        &&& forall|k: int| 0 <= k < set.descriptors.len() ==> (#[trigger] set.descriptors[k]).set == set.index
    } by {
        lemma_of_set_members(merged, sets[g].index);
    }
}

/// The sets with the handles of their layouts and descriptor sets attached.
pub open spec fn attached(sets: Seq<SetView>, layouts: Seq<u64>, handles: Seq<u64>) -> Seq<SetView> {
    Seq::new(sets.len(), |i: int| SetView { set: handles[i], layout: layouts[i], ..sets[i] })
}

impl DescPoolBuilder {
    /// What the builder has gathered.
    pub open spec fn view(&self) -> BuilderView {
        BuilderView {
            min_offset: self.min_offset,
            data: descs_view(self.data@),
            push_consts: pushes_view(self.push_consts@),
            push_conflict: self.push_conflict,
        }
    }

    /// Well-formedness: every binding and every block is well-formed, and
    /// no two blocks have one name.
    pub open spec fn wf(&self) -> bool {
        &&& descs_wf(self.data@)
        &&& pushes_wf(self.push_consts@)
        &&& distinct_names(pushes_view(self.push_consts@))
    }

    /// Adds what one stage declares: its bindings behind the bindings
    /// gathered so far, and each of its push-constant blocks into the block
    /// of its name, which becomes visible from this stage too. A block
    /// whose structure differs from that of the block of its name is left
    /// out and marked as a conflict.
    pub fn add_stage(&mut self, stage: StageReflection)
        requires
            old(self).wf(),
            stage.wf(),
        ensures
            final(self).wf(),
            final(self)@ == old(self)@.with_stage(stage@),
    {
        let ghost data_before = self.data@;
        let ghost start = pushes_view(self.push_consts@);
        let ghost start_conflict = self.push_conflict;
        let ghost min_offset = self.min_offset;
        let mut stage = stage;
        let ghost resources = stage.resources@;
        let ghost blocks = pushes_view(stage.push_constants@);
        self.data.append(&mut stage.resources);
        proof {
            assert(descs_view(self.data@) =~= descs_view(data_before) + descs_view(resources));
            assert forall|k: int| 0 <= k < self.data@.len() implies (#[trigger] self.data@[k]).wf() by {
                if k < data_before.len() {
                    assert(self.data@[k] == data_before[k]);
                } else {
                    assert(self.data@[k] == resources[k - data_before.len()]);
                }
            }
        }
        let ghost data_after = self.data@;
        let mut rest = stage.push_constants;
        let ghost mut done: int = 0;
        proof {
            assert(blocks.take(0) =~= Seq::<(Seq<char>, PushView)>::empty());
            assert(blocks.skip(0) =~= blocks);
        }
        while rest.len() > 0
            invariant
                0 <= done <= blocks.len(),
                pushes_wf(rest@),
                pushes_view(rest@) == blocks.skip(done),
                self.data@ == data_after,
                self.min_offset == min_offset,
                pushes_wf(self.push_consts@),
                distinct_names(pushes_view(self.push_consts@)),
                merge_push_onto(start, start_conflict, blocks.take(done)) == (
                    pushes_view(self.push_consts@),
                    self.push_conflict,
                ),
            decreases rest.len(),
        {
            let ghost rest_before = rest@;
            let entry = rest.remove(0);
            proof {
                assert(pushes_view(rest_before).len() == rest_before.len());
                assert(done < blocks.len());
                assert(entry == rest_before[0]);
                assert((entry.0@, entry.1@) == pushes_view(rest_before)[0]);
                assert((entry.0@, entry.1@) == blocks[done]);
                assert(blocks.take(done + 1).drop_last() =~= blocks.take(done));
                assert(blocks.take(done + 1).last() == (entry.0@, entry.1@));
                assert forall|i: int| 0 <= i < rest@.len() implies pushes_view(rest@)[i] == blocks.skip(
                    done + 1,
                )[i] by {
                    assert(rest@[i] == rest_before[i + 1]);
                    assert(pushes_view(rest_before)[i + 1] == blocks.skip(done)[i + 1]);
                }
                assert(pushes_view(rest@) =~= blocks.skip(done + 1));
                assert forall|i: int| 0 <= i < rest@.len() implies (#[trigger] rest@[i]).1.wf() by {
                    assert(rest@[i] == rest_before[i + 1]);
                }
            }
            let ok = merge_push(&mut self.push_consts, entry.0, entry.1);
            if !ok {
                self.push_conflict = true;
            }
            proof {
                done = done + 1;
            }
        }
        proof {
            assert(blocks.skip(done).len() == 0);
            assert(blocks.take(done) =~= blocks);
        }
    }

    /// Reflects what one stage declares and adds it. If it cannot be
    /// reflected, nothing is added.
    pub fn add(&mut self, module: &RawModule) -> (r: Result<(), ReflectionError>)
        requires
            old(self).wf(),
        ensures
            final(self).wf(),
            match old(self)@.with_module(*module) {
                Ok(after) => r is Ok && final(self)@ == after,
                Err(e) => r == Err::<(), ReflectionError>(e) && final(self)@ == old(self)@,
            },
    {
        match reflect_stage(module, self.min_offset) {
            Err(e) => Err(e),
            Ok(stage) => {
                self.add_stage(stage);
                Ok(())
            },
        }
    }

    /// Builds the pool: merges the bindings of all stages into one binding
    /// per slot, visible from every stage that declares it, and groups the
    /// bindings into sets. The push-constant blocks are handed out as they
    /// were gathered, one for each name. Fails if two stages disagree on
    /// the structure of a slot or of a block.
    pub fn build(self) -> (r: Result<(DescPoolToken, Vec<(String, PushConstant)>), BuildError>)
        requires
            self.wf(),
        ensures
            match build_spec(self@) {
                Ok((pool, blocks)) => r matches Ok(built) && built.0.wf() && built.0@ == pool
                    && pushes_wf(built.1@) && pushes_view(built.1@) == blocks && distinct_names(blocks),
                Err(e) => r matches Err(x) && x == e,
            },
    {
        let merged = match merge_bindings(self.data) {
            Some(merged) => merged,
            None => {
                return Err(BuildError::BindingConflict);
            },
        };
        if self.push_conflict {
            return Err(BuildError::PushConstantConflict);
        }
        let sets = group_sets(merged);
        Ok((DescPoolToken { pool: 0, sets }, self.push_consts))
    }
}

impl DescPoolToken {
    /// The pool as a mathematical value.
    pub open spec fn view(&self) -> PoolView {
        PoolView { pool: self.pool, sets: sets_view(self.sets@) }
    }

    /// Well-formedness: every set is well-formed.
    pub open spec fn wf(&self) -> bool {
        sets_wf(self.sets@)
    }

    /// A builder that has gathered nothing yet and aligns every field
    /// offset to `min_offset`.
    pub fn builder(min_offset: u64) -> (r: DescPoolBuilder)
        ensures
            r.wf(),
            r@ == (BuilderView {
                min_offset,
                data: Seq::empty(),
                push_consts: Seq::empty(),
                push_conflict: false,
            }),
    {
        let r = DescPoolBuilder { min_offset, data: Vec::new(), push_consts: Vec::new(), push_conflict: false };
        proof {
            assert(descs_view(r.data@) =~= Seq::<DescriptorView>::empty());
            assert(pushes_view(r.push_consts@) =~= Seq::<(Seq<char>, PushView)>::empty());
        }
        r
    }

    /// The number of descriptor sets to allocate the pool for: one for each
    /// set index that occurs.
    pub fn max_sets(&self) -> (n: usize)
        ensures
            n == self@.sets.len(),
    {
        self.sets.len()
    }

    /// The size list to allocate the pool with: one entry per binding, set
    /// by set.
    pub fn pool_sizes(&self) -> (r: Vec<PoolSize>)
        ensures
            r@ == pool_sizes(self@.sets),
    {
        let ghost sets = self@.sets;
        let mut out: Vec<PoolSize> = Vec::new();
        let mut i: usize = 0;
        assert(sets.take(0) =~= Seq::<SetView>::empty());
        while i < self.sets.len()
            invariant
                i <= self.sets.len(),
                sets == self@.sets,
                out@ == pool_sizes(sets.take(i as int)),
            decreases self.sets.len() - i,
        {
            proof {
                assert(sets.take(i as int + 1).drop_last() =~= sets.take(i as int));
                assert(sets.take(i as int + 1).last() == self.sets@[i as int]@);
            }
            let mut more = self.sets[i].sizes();
            out.append(&mut more);
            i += 1;
        }
        assert(sets.take(i as int) =~= sets);
        out
    }

    /// The layouts of the buffers that back the structured bindings of all
    /// sets, set by set, each under its binding's name. Fails if one of
    /// them cannot be addressed with 64 bits.
    pub fn make_buffers(&self) -> (r: Result<Vec<(String, BufStruct)>, LayoutError>)
        requires
            self.wf(),
        ensures
            r is Ok <==> all_fit(all_buffers(self@.sets)),
            r matches Ok(bs) ==> buffers_wf(bs@) && buffers_view(bs@) == all_buffers(self@.sets),
            r matches Err(e) ==> e == LayoutError::Overflow,
    {
        let ghost sets = self@.sets;
        let mut out: Vec<(String, BufStruct)> = Vec::new();
        let mut i: usize = 0;
        proof {
            assert(sets.take(0) =~= Seq::<SetView>::empty());
            assert(buffers_view(out@) =~= Seq::<BufferView>::empty());
        }
        while i < self.sets.len()
            invariant
                i <= self.sets.len(),
                self.wf(),
                sets == self@.sets,
                buffers_wf(out@),
                buffers_view(out@) == all_buffers(sets.take(i as int)),
                all_fit(all_buffers(sets.take(i as int))),
            decreases self.sets.len() - i,
        {
            proof {
                assert(sets.take(i as int + 1).drop_last() =~= sets.take(i as int));
                assert(sets.take(i as int + 1).last() == self.sets@[i as int]@);
                assert(self.sets@[i as int].wf());
            }
            match self.sets[i].make_buffers() {
                Err(e) => {
                    proof {
                        let here = buffers_of(self.sets@[i as int]@.descriptors);
                        let k = choose|k: int| 0 <= k < here.len() && !((#[trigger] here[k]).size <= u64::MAX);
                        let upto = all_buffers(sets.take(i as int + 1));
                        let before = all_buffers(sets.take(i as int));
                        assert(upto[before.len() + k] == here[k]);
                        lemma_all_buffers_prefix(sets, i as int + 1);
                        assert(all_buffers(sets)[before.len() + k] == here[k]);
                    }
                    return Err(e);
                },
                Ok(mut more) => {
                    let ghost before = out@;
                    let ghost added = more@;
                    out.append(&mut more);
                    proof {
                        assert(buffers_view(out@) =~= buffers_view(before) + buffers_view(added));
                        assert forall|k: int| 0 <= k < out@.len() implies (#[trigger] out@[k]).1.wf() by {
                            if k < before.len() {
                                assert(out@[k] == before[k]);
                            } else {
                                assert(out@[k] == added[k - before.len()]);
                            }
                        }
                    }
                },
            }
            i += 1;
        }
        assert(sets.take(i as int) =~= sets);
        Ok(out)
    }

    /// The updates of all sets for a list of named targets, set by set. A
    /// target whose name a set does not know is passed over for that set.
    pub fn update_desc_sets(&self, info: &Vec<(String, DescWriteInfo)>) -> (r: Vec<WriteRecord>)
        ensures
            r@ == all_writes(self@.sets, infos_view(info@)),
    {
        let ghost sets = self@.sets;
        let mut out: Vec<WriteRecord> = Vec::new();
        let mut i: usize = 0;
        assert(sets.take(0) =~= Seq::<SetView>::empty());
        while i < self.sets.len()
            invariant
                i <= self.sets.len(),
                sets == self@.sets,
                out@ == all_writes(sets.take(i as int), infos_view(info@)),
            decreases self.sets.len() - i,
        {
            proof {
                assert(sets.take(i as int + 1).drop_last() =~= sets.take(i as int));
                assert(sets.take(i as int + 1).last() == self.sets@[i as int]@);
            }
            let mut more = self.sets[i].make_writes(info);
            out.append(&mut more);
            i += 1;
        }
        assert(sets.take(i as int) =~= sets);
        out
    }

    /// Records the handles that the driver gave: that of the pool and, set
    /// by set, those of the layouts and of the descriptor sets. Answers
    /// whether there is one layout and one descriptor set for each set;
    /// nothing is recorded if there is not.
    pub fn attach(&mut self, pool: u64, layouts: &Vec<u64>, handles: &Vec<u64>) -> (ok: bool)
        requires
            old(self).wf(),
        ensures
            final(self).wf(),
            ok <==> layouts@.len() == old(self)@.sets.len() && handles@.len() == old(self)@.sets.len(),
            ok ==> final(self)@ == (PoolView { pool, sets: attached(old(self)@.sets, layouts@, handles@) }),
            !ok ==> final(self)@ == old(self)@,
    {
        if layouts.len() != self.sets.len() || handles.len() != self.sets.len() {
            return false;
        }
        let ghost before = self@.sets;
        let n = self.sets.len();
        let mut i: usize = 0;
        while i < n
            invariant
                i <= n,
                n == self.sets.len(),
                n == before.len(),
                layouts@.len() == n,
                handles@.len() == n,
                sets_wf(self.sets@),
                forall|k: int| 0 <= k < i ==> (#[trigger] self.sets@[k])@ == attached(before, layouts@, handles@)[k],
                forall|k: int| i <= k < n ==> (#[trigger] self.sets@[k])@ == before[k],
            decreases n - i,
        {
            let ghost sets_before = self.sets@;
            let mut t = self.sets.remove(i);
            t.set = handles[i];
            t.layout = layouts[i];
            self.sets.insert(i, t);
            proof {
                assert forall|k: int| 0 <= k < n implies (#[trigger] self.sets@[k]).wf() by {
                    if k != i {
                        assert(self.sets@[k] == sets_before[k]);
                    } else {
                        assert(sets_before[k].wf());
                    }
                }
                assert forall|k: int| 0 <= k < i + 1 implies (#[trigger] self.sets@[k])@ == attached(
                    before,
                    layouts@,
                    handles@,
                )[k] by {
                    if k != i {
                        assert(self.sets@[k] == sets_before[k]);
                    } else {
                        assert(sets_before[k]@ == before[k]);
                    }
                }
                assert forall|k: int| i + 1 <= k < n implies (#[trigger] self.sets@[k])@ == before[k] by {
                    assert(self.sets@[k] == sets_before[k]);
                }
            }
            i += 1;
        }
        self.pool = pool;
        assert(sets_view(self.sets@) =~= attached(before, layouts@, handles@));
        true
    }
}

/// The buffers of a prefix of the sets are a prefix of the buffers of all.
pub proof fn lemma_all_buffers_prefix(sets: Seq<SetView>, n: int)
    requires
        0 <= n <= sets.len(),
    ensures
        all_buffers(sets.take(n)).len() <= all_buffers(sets).len(),
        forall|k: int| 0 <= k < all_buffers(sets.take(n)).len() ==> all_buffers(sets.take(n))[k] == all_buffers(sets)[k],
    decreases sets.len() - n,
{
    if n < sets.len() {
        assert(sets.take(n + 1).drop_last() =~= sets.take(n));
        lemma_all_buffers_prefix(sets, n + 1);
    } else {
        assert(sets.take(n) =~= sets);
    }
}

} // verus!
