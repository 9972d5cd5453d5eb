//! Merging what several stages declare: one binding per slot, visible from
//! every stage that declares it, and no disagreement about its structure.

use crate::descriptor::{descs_view, descs_wf, same_layout, Descriptor, DescriptorView};
use crate::stage::{ShaderStage, StageSet};
use vstd::prelude::*;

verus! {

/// Whether a binding of the list sits at the slot (`set`, `binding`).
pub open spec fn slot_taken(acc: Seq<DescriptorView>, set: u32, binding: u32) -> bool {
    exists|i: int| 0 <= i < acc.len() && (#[trigger] acc[i]).set == set && acc[i].binding == binding
}

/// The position of a binding at the slot; meaningful when there is one.
pub open spec fn slot_index(acc: Seq<DescriptorView>, set: u32, binding: u32) -> int {
    choose|i: int| 0 <= i < acc.len() && (#[trigger] acc[i]).set == set && acc[i].binding == binding
}

/// Whether no two bindings of the list share a slot.
pub open spec fn distinct_slots(acc: Seq<DescriptorView>) -> bool {
    forall|i: int, j: int|
        0 <= i < j < acc.len() ==> !((#[trigger] acc[i]).set == (#[trigger] acc[j]).set
            && acc[i].binding == acc[j].binding)
}

/// Whether two declarations of one slot agree on its structure: the same
/// kind of resource, the same count and the same fields.
pub open spec fn compatible(a: DescriptorView, b: DescriptorView) -> bool {
    a.ty == b.ty && a.count == b.count && a.fields == b.fields
}

/// The binding `d`, visible from the stages in `stage` as well.
pub open spec fn seen_from(d: DescriptorView, stage: StageSet) -> DescriptorView {
    DescriptorView { stage: d.stage.union_spec(stage), ..d }
}

/// The merged list after one more declaration. A new slot is appended. A
/// slot that is taken gains the declaration's stages if both agree on the
/// structure; if they do not, there is no merged list.
pub open spec fn merge_one(acc: Seq<DescriptorView>, d: DescriptorView) -> Option<Seq<DescriptorView>> {
    if slot_taken(acc, d.set, d.binding) {
        let i = slot_index(acc, d.set, d.binding);
        if compatible(acc[i], d) {
            Some(acc.update(i, seen_from(acc[i], d.stage)))
        } else {
            None
        }
    } else {
        Some(acc.push(d))
    }
}

/// The merged list of all declarations, taken in order; `None` if two of
/// them disagree on the structure of a slot.
pub open spec fn merge_all(ds: Seq<DescriptorView>) -> Option<Seq<DescriptorView>>
    decreases ds.len(),
{
    if ds.len() == 0 {
        Some(Seq::empty())
    } else {
        match merge_all(ds.drop_last()) {
            Some(acc) => merge_one(acc, ds.last()),
            None => None,
        }
    }
}

/// With distinct slots, a binding found at a slot is the one `slot_index` names.
pub proof fn lemma_slot_unique(acc: Seq<DescriptorView>, i: int)
    requires
        distinct_slots(acc),
        0 <= i < acc.len(),
    ensures
        slot_taken(acc, acc[i].set, acc[i].binding),
        slot_index(acc, acc[i].set, acc[i].binding) == i,
{
    let p = slot_index(acc, acc[i].set, acc[i].binding);
    assert(0 <= p < acc.len() && acc[p].set == acc[i].set && acc[p].binding == acc[i].binding);
    if p < i {
        assert(!(acc[p].set == acc[i].set && acc[p].binding == acc[i].binding));
    } else if i < p {
        assert(!(acc[i].set == acc[p].set && acc[i].binding == acc[p].binding));
    }
}

/// Merging one more declaration keeps the slots distinct.
pub proof fn lemma_merge_one_distinct(acc: Seq<DescriptorView>, d: DescriptorView)
    requires
        distinct_slots(acc),
        merge_one(acc, d) is Some,
    ensures
        distinct_slots(merge_one(acc, d).unwrap()),
{
    let m = merge_one(acc, d).unwrap();
    if slot_taken(acc, d.set, d.binding) {
        assert forall|i: int, j: int| 0 <= i < j < m.len() implies !((#[trigger] m[i]).set == (
        #[trigger] m[j]).set && m[i].binding == m[j].binding) by {
            assert(!(acc[i].set == acc[j].set && acc[i].binding == acc[j].binding));
        }
    } else {
        assert forall|i: int, j: int| 0 <= i < j < m.len() implies !((#[trigger] m[i]).set == (
        #[trigger] m[j]).set && m[i].binding == m[j].binding) by {
            if j < acc.len() {
                assert(!(acc[i].set == acc[j].set && acc[i].binding == acc[j].binding));
            } else {
                assert(m[i] == acc[i]);
            }
        }
    }
}

/// A merged list has one binding per slot.
pub proof fn lemma_merge_all_distinct(ds: Seq<DescriptorView>)
    requires
        merge_all(ds) is Some,
    ensures
        distinct_slots(merge_all(ds).unwrap()),
    decreases ds.len(),
{
    if ds.len() > 0 {
        lemma_merge_all_distinct(ds.drop_last());
        lemma_merge_one_distinct(merge_all(ds.drop_last()).unwrap(), ds.last());
    }
}

/// In a merged list, the binding at a slot is visible from a stage exactly
/// when some declaration of that slot is.
pub proof fn lemma_merge_visibility(ds: Seq<DescriptorView>, set: u32, binding: u32, stage: ShaderStage)
    requires
        merge_all(ds) is Some,
    ensures
        slot_taken(merge_all(ds).unwrap(), set, binding) <==> slot_taken(ds, set, binding),
        slot_taken(ds, set, binding) ==> (merge_all(ds).unwrap()[slot_index(
            merge_all(ds).unwrap(),
            set,
            binding,
        )].stage.has(stage) <==> exists|k: int|
            0 <= k < ds.len() && (#[trigger] ds[k]).set == set && ds[k].binding == binding
                && ds[k].stage.has(stage)),
    decreases ds.len(),
{
    if ds.len() > 0 {
        let rest = ds.drop_last();
        let d = ds.last();
        let acc = merge_all(rest).unwrap();
        let m = merge_all(ds).unwrap();
        lemma_merge_visibility(rest, set, binding, stage);
        lemma_merge_all_distinct(rest);
        lemma_merge_all_distinct(ds);
        let here = d.set == set && d.binding == binding;
        // slots of `ds` are those of `rest` and that of `d`
        if slot_taken(ds, set, binding) {
            let k = choose|k: int| 0 <= k < ds.len() && (#[trigger] ds[k]).set == set && ds[k].binding == binding;
            if k < rest.len() {
                assert(rest[k] == ds[k]);
                assert(slot_taken(rest, set, binding));
            }
        }
        if slot_taken(rest, set, binding) {
            let k = choose|k: int| 0 <= k < rest.len() && (#[trigger] rest[k]).set == set && rest[k].binding == binding;
            assert(ds[k] == rest[k]);
            assert(slot_taken(ds, set, binding));
        }
        if here {
            assert(ds[ds.len() - 1] == d);
            assert(slot_taken(ds, set, binding));
        }
        if slot_taken(acc, d.set, d.binding) {
            let i = slot_index(acc, d.set, d.binding);
            assert(0 <= i < acc.len() && acc[i].set == d.set && acc[i].binding == d.binding);
            assert(m =~= acc.update(i, seen_from(acc[i], d.stage)));
            if slot_taken(acc, set, binding) {
                let p = slot_index(acc, set, binding);
                assert(0 <= p < acc.len() && acc[p].set == set && acc[p].binding == binding);
                assert(m[p].set == set && m[p].binding == binding);
                lemma_slot_unique(m, p);
            }
            if slot_taken(m, set, binding) {
                let p = slot_index(m, set, binding);
                assert(0 <= p < m.len() && m[p].set == set && m[p].binding == binding);
                assert(acc[p].set == set && acc[p].binding == binding);
                lemma_slot_unique(acc, p);
            }
        } else {
            assert(m =~= acc.push(d));
            if slot_taken(acc, set, binding) {
                let p = slot_index(acc, set, binding);
                assert(0 <= p < acc.len() && acc[p].set == set && acc[p].binding == binding);
                assert(m[p] == acc[p]);
                lemma_slot_unique(m, p);
            }
            if here {
                assert(m[acc.len() as int] == d);
                lemma_slot_unique(m, acc.len() as int);
            }
            if slot_taken(m, set, binding) {
                let p = slot_index(m, set, binding);
                assert(0 <= p < m.len() && m[p].set == set && m[p].binding == binding);
                if p < acc.len() {
                    assert(acc[p] == m[p]);
                    lemma_slot_unique(acc, p);
                }
            }
        }
        if slot_taken(ds, set, binding) {
            let seen = exists|k: int|
                0 <= k < ds.len() && (#[trigger] ds[k]).set == set && ds[k].binding == binding
                    && ds[k].stage.has(stage);
            let seen_rest = exists|k: int|
                0 <= k < rest.len() && (#[trigger] rest[k]).set == set && rest[k].binding == binding
                    && rest[k].stage.has(stage);
            assert(seen <==> seen_rest || (here && d.stage.has(stage))) by {
                if seen {
                    let k = choose|k: int|
                        0 <= k < ds.len() && (#[trigger] ds[k]).set == set && ds[k].binding == binding
                            && ds[k].stage.has(stage);
                    if k < rest.len() {
                        assert(rest[k] == ds[k]);
                    }
                }
                if seen_rest {
                    let k = choose|k: int|
                        0 <= k < rest.len() && (#[trigger] rest[k]).set == set && rest[k].binding
                            == binding && rest[k].stage.has(stage);
                    assert(ds[k] == rest[k]);
                }
                if here && d.stage.has(stage) {
                    assert(ds[ds.len() - 1] == d);
                }
            }
        }
    }
}

/// The position of the binding at the slot (`set`, `binding`), if there is one.
pub fn find_slot(acc: &Vec<Descriptor>, set: u32, binding: u32) -> (r: Option<usize>)
    requires
        distinct_slots(descs_view(acc@)),
    ensures
        r is Some <==> slot_taken(descs_view(acc@), set, binding),
        r matches Some(i) ==> i < acc.len() && i == slot_index(descs_view(acc@), set, binding),
{
    let ghost view = descs_view(acc@);
    let mut i: usize = 0;
    while i < acc.len()
        invariant
            i <= acc.len(),
            view == descs_view(acc@),
            distinct_slots(view),
            forall|k: int| 0 <= k < i ==> !((#[trigger] view[k]).set == set && view[k].binding == binding),
        decreases acc.len() - i,
    {
        if acc[i].set == set && acc[i].binding == binding {
            proof {
                assert(view[i as int] == acc@[i as int]@);
                lemma_slot_unique(view, i as int);
            }
            return Some(i);
        }
        i += 1;
    }
    None
}

/// Merges one more declaration into a list with one binding per slot.
/// Answers whether the declaration fits; the list is left as it was if it
/// does not.
pub fn merge_binding(acc: &mut Vec<Descriptor>, d: Descriptor) -> (ok: bool)
    requires
        descs_wf(old(acc)@),
        distinct_slots(descs_view(old(acc)@)),
        d.wf(),
    ensures
        descs_wf(final(acc)@),
        distinct_slots(descs_view(final(acc)@)),
        ok <==> merge_one(descs_view(old(acc)@), d@) is Some,
        ok ==> descs_view(final(acc)@) == merge_one(descs_view(old(acc)@), d@).unwrap(),
        !ok ==> final(acc)@ == old(acc)@,
{
    let ghost before = descs_view(acc@);
    match find_slot(acc, d.set, d.binding) {
        None => {
            acc.push(d);
            proof {
                assert(descs_view(acc@) =~= before.push(d@));
                lemma_merge_one_distinct(before, d@);
            }
            true
        },
        Some(i) => {
            assert(before[i as int] == acc@[i as int]@);
            let agree = acc[i].ty == d.ty && acc[i].count == d.count && same_layout(&acc[i].fields, &d.fields);
            if !agree {
                return false;
            }
            let mut cur = acc.remove(i);
            cur.stage = cur.stage.union(d.stage);
            acc.insert(i, cur);
            proof {
                assert(descs_view(acc@) =~= before.update(i as int, seen_from(before[i as int], d.stage)));
                lemma_merge_one_distinct(before, d@);
            }
            true
        },
    }
}

/// Merges the declarations of all stages, taken in order, into one binding
/// per slot. A binding is visible from every stage that declares its slot.
/// Fails if two declarations of a slot disagree on its structure.
pub fn merge_bindings(data: Vec<Descriptor>) -> (r: Option<Vec<Descriptor>>)
    requires
        descs_wf(data@),
    ensures
        r is Some <==> merge_all(descs_view(data@)) is Some,
        r matches Some(m) ==> descs_wf(m@) && distinct_slots(descs_view(m@)) && descs_view(m@)
            == merge_all(descs_view(data@)).unwrap(),
{
    let ghost all = descs_view(data@);
    let mut rest = data;
    let mut acc: Vec<Descriptor> = Vec::new();
    let ghost mut done: int = 0;
    proof {
        assert(all.take(0) =~= Seq::<DescriptorView>::empty());
        assert(descs_view(acc@) =~= Seq::<DescriptorView>::empty());
        assert(all.skip(0) =~= all);
    }
    while rest.len() > 0
        invariant
            0 <= done <= all.len(),
            all == descs_view(data@),
            descs_wf(rest@),
            descs_view(rest@) == all.skip(done),
            descs_wf(acc@),
            distinct_slots(descs_view(acc@)),
            merge_all(all.take(done)) == Some(descs_view(acc@)),
        decreases rest.len(),
    {
        let ghost rest_before = rest@;
        let d = rest.remove(0);
        proof {
            assert(descs_view(rest_before).len() == rest_before.len());
            assert(done < all.len());
            assert(d == rest_before[0]);
            assert(d@ == descs_view(rest_before)[0]);
            assert(d@ == all[done]);
            assert(all.take(done + 1).drop_last() =~= all.take(done));
            assert(all.take(done + 1).last() == d@);
            assert forall|i: int| 0 <= i < rest@.len() implies descs_view(rest@)[i] == all.skip(
                done + 1,
            )[i] by {
                assert(rest@[i] == rest_before[i + 1]);
                assert(descs_view(rest_before)[i + 1] == all.skip(done)[i + 1]);
            }
            assert(descs_view(rest@) =~= all.skip(done + 1));
            assert forall|i: int| 0 <= i < rest@.len() implies (#[trigger] rest@[i]).wf() by {
                assert(rest@[i] == rest_before[i + 1]);
            }
        }
        assert(merge_all(all.take(done + 1)) == merge_one(descs_view(acc@), d@));
        let ok = merge_binding(&mut acc, d);
        if !ok {
            proof {
                lemma_merge_none_stays(all, done + 1);
            }
            return None;
        }
        proof {
            done = done + 1;
        }
    }
    proof {
        assert(all.skip(done).len() == 0);
        assert(all.take(done) =~= all);
    }
    Some(acc)
}

/// Once a prefix of the declarations cannot be merged, no longer one can.
pub proof fn lemma_merge_none_stays(ds: Seq<DescriptorView>, n: int)
    requires
        0 <= n <= ds.len(),
        merge_all(ds.take(n)) is None,
    ensures
        merge_all(ds) is None,
    decreases ds.len() - n,
{
    if n < ds.len() {
        assert(ds.take(n + 1).drop_last() =~= ds.take(n));
        lemma_merge_none_stays(ds, n + 1);
    } else {
        assert(ds.take(n) =~= ds);
    }
}

} // verus!
