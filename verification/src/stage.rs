//! Shader stages, their canonical order and sets of stages.

use std::cmp::Ordering;
use vstd::prelude::*;

verus! {

/// A programmable pipeline stage.
///
/// The variants are declared in their canonical order, `Vert < Frag < Geom`,
/// which is the order that comparison operators and sorting use.
#[derive(Debug, Copy, Clone, Hash, PartialEq, Eq, Structural, Ord)]
pub enum ShaderStage {
    Vert,
    Frag,
    Geom,
}

/// The execution model that a module's entry point declares.
#[derive(Debug, Copy, Clone, PartialEq, Eq, Structural)]
pub enum ExecModel {
    Vertex,
    TessellationControl,
    TessellationEvaluation,
    Geometry,
    Fragment,
    GlCompute,
    Kernel,
}

/// The order of two positions in the canonical sequence of stages.
pub open spec fn rank_order(a: nat, b: nat) -> Ordering {
    if a < b {
        Ordering::Less
    } else if a == b {
        Ordering::Equal
    } else {
        Ordering::Greater
    }
}

/// The stage that a lower-case name stands for, if any.
pub open spec fn stage_named(name: Seq<char>) -> Option<ShaderStage> {
    if name == "vert"@ {
        Some(ShaderStage::Vert)
    } else if name == "frag"@ {
        Some(ShaderStage::Frag)
    } else if name == "geom"@ {
        Some(ShaderStage::Geom)
    } else {
        None
    }
}

/// The stage that runs an execution model, if the model is supported.
pub open spec fn stage_of_model(model: ExecModel) -> Option<ShaderStage> {
    match model {
        ExecModel::Vertex => Some(ShaderStage::Vert),
        ExecModel::Geometry => Some(ShaderStage::Geom),
        ExecModel::Fragment => Some(ShaderStage::Frag),
        _ => None,
    }
}

impl ShaderStage {
    /// Position of the stage in the canonical order.
    pub open spec fn rank(self) -> nat {
        match self {
            ShaderStage::Vert => 0,
            ShaderStage::Frag => 1,
            ShaderStage::Geom => 2,
        }
    }

    /// Position of the stage in the canonical order.
    pub fn ordinal(self) -> (r: u8)
        ensures
            r == self.rank(),
    {
        match self {
            ShaderStage::Vert => 0,
            ShaderStage::Frag => 1,
            ShaderStage::Geom => 2,
        }
    }

    /// Looks a stage up by its lower-case name: `vert`, `frag` or `geom`.
    pub fn from_lowercase(name: &str) -> (r: Option<ShaderStage>)
        ensures
            r == stage_named(name@),
    {
        let owned = name.to_owned();
        if owned == "vert".to_owned() {
            Some(ShaderStage::Vert)
        } else if owned == "frag".to_owned() {
            Some(ShaderStage::Frag)
        } else if owned == "geom".to_owned() {
            Some(ShaderStage::Geom)
        } else {
            None
        }
    }

    /// The stage that runs the given execution model; `None` for the models
    /// that have no stage here (tessellation, compute, kernels).
    pub fn from_model(model: ExecModel) -> (r: Option<ShaderStage>)
        ensures
            r == stage_of_model(model),
    {
        match model {
            ExecModel::Vertex => Some(ShaderStage::Vert),
            ExecModel::Geometry => Some(ShaderStage::Geom),
            ExecModel::Fragment => Some(ShaderStage::Frag),
            _ => None,
        }
    }

    /// The execution model that the stage runs under.
    pub fn model(self) -> (r: ExecModel)
        ensures
            stage_of_model(r) == Some(self),
    {
        match self {
            ShaderStage::Vert => ExecModel::Vertex,
            ShaderStage::Geom => ExecModel::Geometry,
            ShaderStage::Frag => ExecModel::Fragment,
        }
    }
}

impl PartialOrd for ShaderStage {
    fn partial_cmp(&self, other: &Self) -> (r: Option<Ordering>) {
        let a = self.ordinal();
        let b = other.ordinal();
        if a < b {
            Some(Ordering::Less)
        } else if a == b {
            Some(Ordering::Equal)
        } else {
            Some(Ordering::Greater)
        }
    }
}

impl vstd::std_specs::cmp::PartialOrdSpecImpl for ShaderStage {
    open spec fn obeys_partial_cmp_spec() -> bool {
        true
    }

    open spec fn partial_cmp_spec(&self, other: &Self) -> Option<Ordering> {
        Some(rank_order(self.rank(), other.rank()))
    }
}

/// The canonical order is total: two stages compare equal exactly when they
/// are the same stage, and swapping the operands mirrors the result.
pub proof fn lemma_stage_order_total(a: ShaderStage, b: ShaderStage)
    ensures
        rank_order(a.rank(), b.rank()) == Ordering::Equal <==> a == b,
        rank_order(a.rank(), b.rank()) == Ordering::Less <==> rank_order(b.rank(), a.rank())
            == Ordering::Greater,
{
}

/// The canonical order is transitive.
pub proof fn lemma_stage_order_transitive(a: ShaderStage, b: ShaderStage, c: ShaderStage)
    requires
        rank_order(a.rank(), b.rank()) == Ordering::Less,
        rank_order(b.rank(), c.rank()) == Ordering::Less,
    ensures
        rank_order(a.rank(), c.rank()) == Ordering::Less,
{
}

/// A set of stages: the stages from which a resource is visible.
#[derive(Debug, Copy, Clone, PartialEq, Eq, Structural)]
pub struct StageSet {
    pub vert: bool,
    pub frag: bool,
    pub geom: bool,
}

impl StageSet {
    /// Whether `stage` belongs to the set.
    pub open spec fn has(self, stage: ShaderStage) -> bool {
        match stage {
            ShaderStage::Vert => self.vert,
            ShaderStage::Frag => self.frag,
            ShaderStage::Geom => self.geom,
        }
    }

    /// The set as a mathematical set of stages.
    pub open spec fn view(self) -> Set<ShaderStage> {
        Set::new(|s: ShaderStage| self.has(s))
    }

    /// The set without any stage.
    pub fn empty() -> (r: StageSet)
        ensures
            forall|s: ShaderStage| !r.has(s),
    {
        StageSet { vert: false, frag: false, geom: false }
    }

    /// The set that holds `stage` and nothing else.
    pub open spec fn only_spec(stage: ShaderStage) -> StageSet {
        StageSet {
            vert: stage == ShaderStage::Vert,
            frag: stage == ShaderStage::Frag,
            geom: stage == ShaderStage::Geom,
        }
    }

    /// The set that holds `stage` and nothing else.
    pub fn only(stage: ShaderStage) -> (r: StageSet)
        ensures
            r == StageSet::only_spec(stage),
            forall|s: ShaderStage| r.has(s) <==> s == stage,
    {
        match stage {
            ShaderStage::Vert => StageSet { vert: true, frag: false, geom: false },
            ShaderStage::Frag => StageSet { vert: false, frag: true, geom: false },
            ShaderStage::Geom => StageSet { vert: false, frag: false, geom: true },
        }
    }

    /// The stages that are in either set.
    pub open spec fn union_spec(self, other: StageSet) -> StageSet {
        StageSet {
            vert: self.vert || other.vert,
            frag: self.frag || other.frag,
            geom: self.geom || other.geom,
        }
    }

    /// The stages that are in either set.
    pub fn union(self, other: StageSet) -> (r: StageSet)
        ensures
            r == self.union_spec(other),
            forall|s: ShaderStage| r.has(s) <==> self.has(s) || other.has(s),
    {
        StageSet {
            vert: self.vert || other.vert,
            frag: self.frag || other.frag,
            geom: self.geom || other.geom,
        }
    }

    /// Whether `stage` belongs to the set.
    pub fn contains(self, stage: ShaderStage) -> (r: bool)
        ensures
            r == self.has(stage),
    {
        match stage {
            ShaderStage::Vert => self.vert,
            ShaderStage::Frag => self.frag,
            ShaderStage::Geom => self.geom,
        }
    }
}

/// Union of stage sets is commutative, associative and idempotent.
pub proof fn lemma_stage_union_laws(a: StageSet, b: StageSet, c: StageSet)
    ensures
        a.union_spec(b) == b.union_spec(a),
        a.union_spec(b).union_spec(c) == a.union_spec(b.union_spec(c)),
        a.union_spec(a) == a,
        a.union_spec(b)@ == a@.union(b@),
{
    assert(a.union_spec(b)@ =~= a@.union(b@));
}

} // verus!
