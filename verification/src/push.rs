//! Push-constant blocks: small parameter blocks that are written straight
//! into the command stream.

use crate::buffer::WriteError;
use crate::layout::{field_spans, lemma_measures_step, total_size, BufField, DescField, LayoutError};
use crate::namemap::{lookup, Entries, NameMap};
use crate::stage::StageSet;
use vstd::prelude::*;

verus! {

/// A push-constant block as a mathematical value.
pub struct PushView {
    pub stage: StageSet,
    pub offset: u32,
    pub size: u32,
    pub fields: Entries<DescField>,
}

/// A push-constant block: the stages that see it, the byte range it takes
/// among the push constants, and its fields.
#[derive(Debug, Clone)]
pub struct PushConstant {
    pub stage: StageSet,
    /// Where the block starts among the push constants.
    pub offset: u32,
    /// Size of the block in bytes: the sizes of its fields added up.
    pub size: u32,
    pub fields: NameMap<DescField>,
}

/// Where a payload is to be pushed, and for which stages.
#[derive(Debug, Copy, Clone, PartialEq, Eq, Structural)]
pub struct PushWrite {
    pub stage_flags: StageSet,
    pub offset: u32,
}

/// What a write to a field of a block answers to a payload of `len` bytes.
/// The payload goes to the block's own offset plus the field's, if the field
/// exists, the payload is exactly as long as the field, and that place can
/// be addressed with 32 bits.
pub open spec fn push_write(p: PushView, name: Seq<char>, len: nat) -> Result<PushWrite, WriteError> {
    match lookup(p.fields, name) {
        None => Err(WriteError::UnknownField),
        Some(f) => if len != f.size {
            Err(WriteError::SizeMismatch)
        } else if p.offset + f.offset > u32::MAX {
            Err(WriteError::OutOfRange)
        } else {
            Ok(PushWrite { stage_flags: p.stage, offset: (p.offset + f.offset) as u32 })
        },
    }
}

/// The sizes of the fields added up; `None` when the sum does not fit in 32 bits.
pub fn block_size(fields: &NameMap<DescField>) -> (r: Option<u32>)
    ensures
        r is Some <==> total_size(field_spans(fields@)) <= u32::MAX,
        r matches Some(n) ==> n == total_size(field_spans(fields@)),
{
    let ghost spans = field_spans(fields@);
    let mut sum: u32 = 0;
    let mut i: usize = 0;
    assert(spans.take(0) =~= Seq::<BufField>::empty());
    while i < fields.len()
        invariant
            i <= fields@.len(),
            spans == field_spans(fields@),
            sum == total_size(spans.take(i as int)),
        decreases fields@.len() - i,
    {
        let f = fields.value_at(i);
        proof {
            lemma_measures_step(spans, i as int);
            assert(spans[i as int] == f.span());
        }
        if f.size > (u32::MAX - sum) as u64 {
            proof {
                lemma_total_grows(spans, i as int + 1);
            }
            return None;
        }
        sum = sum + f.size as u32;
        i += 1;
    }
    assert(spans.take(i as int) =~= spans);
    Some(sum)
}

/// The total size of a prefix never exceeds the total size of the whole.
pub proof fn lemma_total_grows(s: Seq<BufField>, n: int)
    requires
        0 <= n <= s.len(),
    ensures
        total_size(s.take(n)) <= total_size(s),
    decreases s.len() - n,
{
    if n < s.len() {
        lemma_measures_step(s, n);
        lemma_total_grows(s, n + 1);
    } else {
        assert(s.take(n) =~= s);
    }
}

impl PushConstant {
    /// The block as a mathematical value.
    pub open spec fn view(&self) -> PushView {
        PushView { stage: self.stage, offset: self.offset, size: self.size, fields: self.fields@ }
    }

    /// Well-formedness: the field names are distinct, the block starts at
    /// offset zero and is as large as its fields together.
    pub open spec fn wf(&self) -> bool {
        &&& self.fields.wf()
        &&& self.offset == 0
        &&& self.size == total_size(field_spans(self.fields@))
    }

    /// A block with the given fields, visible from `stage`. It starts at
    /// offset zero; its size is the sum of the sizes of the fields. Fails if
    /// that sum does not fit in 32 bits.
    pub fn new(stage: StageSet, fields: NameMap<DescField>) -> (r: Result<PushConstant, LayoutError>)
        requires
            fields.wf(),
        ensures
            r is Ok <==> total_size(field_spans(fields@)) <= u32::MAX,
            r matches Ok(p) ==> p.wf() && p@ == (PushView {
                stage,
                offset: 0,
                size: total_size(field_spans(fields@)) as u32,
                fields: fields@,
            }),
            r matches Err(e) ==> e == LayoutError::Overflow,
    {
        match block_size(&fields) {
            Some(size) => Ok(PushConstant { stage, offset: 0, size, fields }),
            None => Err(LayoutError::Overflow),
        }
    }

    /// Checks a write of `data` to `field` and says where the payload is to
    /// be pushed. The payload must be exactly as long as the field; nothing
    /// is to be recorded when the answer is an error.
    pub fn write(&self, field: &str, data: &[u8]) -> (r: Result<PushWrite, WriteError>)
        requires
            self.fields.wf(),
        ensures
            r == push_write(self@, field@, data@.len()),
    {
        match self.fields.get(field) {
            None => Err(WriteError::UnknownField),
            Some(f) => {
                if data.len() as u64 != f.size {
                    Err(WriteError::SizeMismatch)
                } else if f.offset > (u32::MAX - self.offset) as u64 {
                    Err(WriteError::OutOfRange)
                } else {
                    Ok(PushWrite { stage_flags: self.stage, offset: self.offset + f.offset as u32 })
                }
            },
        }
    }
}

/// A push whose payload is shorter or longer than the field is refused,
/// whatever else holds.
pub proof fn lemma_push_rejects_wrong_size(p: PushView, name: Seq<char>, len: nat)
    requires
        lookup(p.fields, name) is Some,
        len != lookup(p.fields, name).unwrap().size,
    ensures
        push_write(p, name, len) == Err::<PushWrite, WriteError>(WriteError::SizeMismatch),
{
}

} // verus!
