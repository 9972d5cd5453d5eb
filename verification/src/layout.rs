//! Byte layout of the fields of a structured resource.

use crate::namemap::Entries;
use vstd::prelude::*;

verus! {

/// What kind of descriptor a resource or a field occupies.
#[derive(Debug, Copy, Clone, PartialEq, Eq, Structural)]
pub enum DescKind {
    SampledImage,
    CombinedImageSampler,
    Sampler,
    UniformBuffer,
}

/// Why a layout could not be computed.
#[derive(Debug, Copy, Clone, PartialEq, Eq, Structural)]
pub enum LayoutError {
    /// The resource has no fields, so there is nothing to lay out.
    NotStructured,
    /// A field ends beyond the largest address.
    Overflow,
}

/// Where one field of a structured resource lives.
#[derive(Debug, Copy, Clone, PartialEq, Eq, Structural)]
pub struct DescField {
    /// Position of the field in its declaration.
    pub index: usize,
    /// Byte offset of the field, a multiple of the alignment it was made with.
    pub offset: u64,
    /// Size of the field in bytes.
    pub size: u64,
    pub ty: DescKind,
    pub count: usize,
}

/// The least multiple of `align` that is not below `offset`.
pub open spec fn align_up(offset: nat, align: nat) -> nat
    recommends
        align > 0,
{
    if offset % align == 0 {
        offset
    } else {
        (offset + (align - offset % align)) as nat
    }
}

/// `align_up` yields a multiple of the alignment, not below the offset and
/// less than one alignment step above it.
pub proof fn lemma_align_up(offset: nat, align: nat)
    requires
        align > 0,
    ensures
        align_up(offset, align) % align == 0,
        offset <= align_up(offset, align) < offset + align,
{
    let r = offset % align;
    let q = offset / align;
    let a = align_up(offset, align);
    assert(offset == align * q + r) by (nonlinear_arith)
        requires
            align > 0,
            r == offset % align,
            q == offset / align,
    ;
    if r != 0 {
        assert(a == align * (q + 1)) by (nonlinear_arith)
            requires
                a == offset + (align - r),
                offset == align * q + r,
        ;
        assert((align * (q + 1)) % align == 0) by (nonlinear_arith)
            requires
                align > 0,
        ;
    }
}

/// No multiple of the alignment lies between an offset and its `align_up`.
pub proof fn lemma_align_up_least(offset: nat, align: nat, m: nat)
    requires
        align > 0,
        m % align == 0,
        m >= offset,
    ensures
        m >= align_up(offset, align),
{
    let r = offset % align;
    let q = offset / align;
    let k = m / align;
    if r != 0 {
        assert(offset == align * q + r) by (nonlinear_arith)
            requires
                align > 0,
                r == offset % align,
                q == offset / align,
        ;
        assert(m == align * k) by (nonlinear_arith)
            requires
                align > 0,
                m % align == 0,
                k == m / align,
        ;
        assert(k >= q + 1) by (nonlinear_arith)
            requires
                align > 0,
                align * k >= align * q + r,
                0 < r < align,
        ;
        assert(align * k >= align * (q + 1)) by (nonlinear_arith)
            requires
                align > 0,
                k >= q + 1,
        ;
        assert(align_up(offset, align) == align * (q + 1)) by (nonlinear_arith)
            requires
                align_up(offset, align) == offset + (align - r),
                offset == align * q + r,
        ;
    }
}

/// With an alignment of one byte every offset is already aligned.
pub proof fn lemma_align_up_one(offset: nat)
    ensures
        align_up(offset, 1) == offset,
{
}

/// An aligned offset stays where it is.
pub proof fn lemma_align_up_fixed(offset: nat, align: nat)
    requires
        align > 0,
        offset % align == 0,
    ensures
        align_up(offset, align) == offset,
{
}

/// A byte range inside a buffer: where a field starts and how long it is.
#[derive(Debug, Copy, Clone, PartialEq, Eq, Structural)]
pub struct BufField {
    pub offset: u64,
    pub size: u64,
}

impl BufField {
    /// The first byte after the range.
    pub open spec fn end(self) -> nat {
        (self.offset + self.size) as nat
    }
}

impl DescField {
    /// The byte range that the field occupies.
    pub open spec fn span(self) -> BufField {
        BufField { offset: self.offset, size: self.size }
    }

    /// The byte range that the field occupies.
    pub fn range(&self) -> (r: BufField)
        ensures
            r == self.span(),
    {
        BufField { offset: self.offset, size: self.size }
    }
}

/// The byte ranges of a table of fields, in the table's order.
pub open spec fn field_spans(s: Entries<DescField>) -> Seq<BufField> {
    s.map_values(|e: (Seq<char>, DescField)| e.1.span())
}

/// The byte ranges of a table of ranges, in the table's order.
pub open spec fn spans_of(s: Entries<BufField>) -> Seq<BufField> {
    s.map_values(|e: (Seq<char>, BufField)| e.1)
}

/// The least size that holds every range: the largest end of a range, zero
/// when there is none.
pub open spec fn extent(s: Seq<BufField>) -> nat
    decreases s.len(),
{
    if s.len() == 0 {
        0
    } else {
        let rest = extent(s.drop_last());
        let end = s.last().end();
        if end > rest {
            end
        } else {
            rest
        }
    }
}

/// The sizes of all ranges added up.
pub open spec fn total_size(s: Seq<BufField>) -> nat
    decreases s.len(),
{
    if s.len() == 0 {
        0
    } else {
        total_size(s.drop_last()) + s.last().size as nat
    }
}

/// The extent reaches the end of every range and, unless there is no range,
/// is the end of one of them.
pub proof fn lemma_extent_is_max(s: Seq<BufField>)
    ensures
        forall|i: int| 0 <= i < s.len() ==> (#[trigger] s[i]).end() <= extent(s),
        s.len() == 0 ==> extent(s) == 0,
        s.len() > 0 ==> exists|i: int| 0 <= i < s.len() && (#[trigger] s[i]).end() == extent(s),
    decreases s.len(),
{
    if s.len() > 0 {
        let rest = s.drop_last();
        lemma_extent_is_max(rest);
        assert forall|i: int| 0 <= i < s.len() implies (#[trigger] s[i]).end() <= extent(s) by {
            if i < rest.len() {
                assert(rest[i] == s[i]);
            }
        }
        if s.last().end() > extent(rest) || rest.len() == 0 {
            assert(s[s.len() - 1].end() == extent(s));
        } else {
            let i = choose|i: int| 0 <= i < rest.len() && (#[trigger] rest[i]).end() == extent(rest);
            assert(rest[i] == s[i]);
            assert(s[i].end() == extent(s));
        }
    }
}

/// One more range can only grow the extent, and adds its size to the total.
pub proof fn lemma_measures_push(s: Seq<BufField>, f: BufField)
    ensures
        extent(s.push(f)) == if f.end() > extent(s) {
            f.end()
        } else {
            extent(s)
        },
        total_size(s.push(f)) == total_size(s) + f.size,
{
    assert(s.push(f).drop_last() =~= s);
}

/// The extent of the first `n + 1` ranges, from that of the first `n`.
pub proof fn lemma_measures_step(s: Seq<BufField>, n: int)
    requires
        0 <= n < s.len(),
    ensures
        extent(s.take(n + 1)) == if s[n].end() > extent(s.take(n)) {
            s[n].end()
        } else {
            extent(s.take(n))
        },
        total_size(s.take(n + 1)) == total_size(s.take(n)) + s[n].size,
{
    assert(s.take(n + 1) =~= s.take(n).push(s[n]));
    lemma_measures_push(s.take(n), s[n]);
}

/// Whether every field starts on a multiple of `align`.
pub open spec fn all_aligned(s: Entries<DescField>, align: nat) -> bool {
    forall|i: int| 0 <= i < s.len() ==> (#[trigger] s[i]).1.offset as nat % align == 0
}

} // verus!
