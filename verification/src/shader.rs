//! Compiled shaders and the chain of stages that makes a pipeline.

use crate::namemap::Entries;
use crate::pool::{build_spec, BuildError, BuilderView, DescPoolToken, PoolView, pushes_view, pushes_wf};
use crate::push::{PushConstant, PushView};
use crate::raw::RawModule;
use crate::reflect::ReflectionError;
use crate::sets::pool_sizes;
use crate::stage::{stage_named, ShaderStage};
use vstd::prelude::*;
use vstd::string::*;

verus! {

/// The lower-case form of a string, as `str::to_lowercase` gives it.
pub uninterp spec fn lowercase_of(s: Seq<char>) -> Seq<char>;

/// Calls `str::to_lowercase`. Claims that the result depends on the
/// characters of the string alone.
#[verifier::external_body]
fn to_lowercase(s: &str) -> (r: String)
    ensures
        r@ == lowercase_of(s@),
{
    s.to_lowercase()
}

/// The position of the last `c` in `s`, if there is one.
pub open spec fn last_index_of(s: Seq<char>, c: char) -> Option<int>
    decreases s.len(),
{
    if s.len() == 0 {
        None
    } else if s.last() == c {
        Some(s.len() - 1)
    } else {
        last_index_of(s.drop_last(), c)
    }
}

/// The stage that the extension of a path names: what follows the last dot
/// of the path, in lower case, is looked up among the names of the stages.
pub open spec fn stage_for(path: Seq<char>) -> Option<ShaderStage> {
    match last_index_of(path, '.') {
        None => None,
        Some(dot) => stage_named(lowercase_of(path.skip(dot + 1))),
    }
}

/// The name under which the source at a path is compiled: the path from
/// its last slash on, the slash included; the whole path if it has none.
pub open spec fn source_name_of(path: Seq<char>) -> Seq<char> {
    match last_index_of(path, '/') {
        None => path,
        Some(slash) => path.skip(slash),
    }
}

/// The position of the last `c` in `s`, counted in characters.
pub fn rfind_char(s: &str, c: char) -> (r: Option<usize>)
    ensures
        r is Some <==> last_index_of(s@, c) is Some,
        r matches Some(i) ==> last_index_of(s@, c) == Some(i as int) && i < s@.len() && s@[i as int] == c,
{
    let n = s.unicode_len();
    let mut i: usize = n;
    assert(s@.take(n as int) =~= s@);
    while i > 0
        invariant
            i <= n,
            n == s@.len(),
            last_index_of(s@, c) == last_index_of(s@.take(i as int), c),
        decreases i,
    {
        i -= 1;
        proof {
            assert(s@.take(i as int + 1).drop_last() =~= s@.take(i as int));
            assert(s@.take(i as int + 1).last() == s@[i as int]);
        }
        if s.get_char(i) == c {
            return Some(i);
        }
    }
    assert(s@.take(0).len() == 0);
    None
}

/// The stage that the extension of `path` names, if it names one.
pub fn stage_of_path(path: &str) -> (r: Option<ShaderStage>)
    ensures
        r == stage_for(path@),
{
    match rfind_char(path, '.') {
        None => None,
        Some(dot) => {
            let n = path.unicode_len();
            let extension = path.substring_char(dot + 1, n);
            assert(path@.subrange(dot + 1, n as int) =~= path@.skip(dot + 1));
            let lowered = to_lowercase(extension);
            ShaderStage::from_lowercase(lowered.as_str())
        },
    }
}

/// The name under which the source at `path` is compiled.
pub fn source_name(path: &str) -> (r: &str)
    ensures
        r@ == source_name_of(path@),
{
    match rfind_char(path, '/') {
        None => path,
        Some(slash) => {
            let n = path.unicode_len();
            let name = path.substring_char(slash, n);
            assert(path@.subrange(slash as int, n as int) =~= path@.skip(slash as int));
            name
        },
    }
}

/// A compiled shader: its stage, the name of its entry point and its bytecode.
#[derive(Debug, Clone)]
pub struct MetaShader {
    pub stage: ShaderStage,
    pub entry: String,
    pub bin: Vec<u32>,
}

/// Why a chain of shaders gave no pool.
#[derive(Debug, Copy, Clone, PartialEq, Eq, Structural)]
pub enum ChainError {
    /// The bytecode of a stage could not be reflected.
    Reflection(ReflectionError),
    /// The stages disagree on what they declare.
    Build(BuildError),
}

/// What a builder has gathered after the given modules, one after the
/// other; the first module that cannot be reflected makes it fail.
pub open spec fn gathered(start: BuilderView, modules: Seq<RawModule>) -> Result<BuilderView, ReflectionError>
    decreases modules.len(),
{
    if modules.len() == 0 {
        Ok(start)
    } else {
        match gathered(start, modules.drop_last()) {
            Err(e) => Err(e),
            Ok(b) => b.with_module(modules.last()),
        }
    }
}

/// The pool and the push-constant blocks of the pipeline that the given
/// modules make, with every field aligned to `min_offset`.
pub open spec fn chain_spec(min_offset: u64, modules: Seq<RawModule>) -> Result<
    (PoolView, Entries<PushView>),
    ChainError,
> {
    match gathered(BuilderView { min_offset, data: Seq::empty(), push_consts: Seq::empty(), push_conflict: false }, modules) {
        Err(e) => Err(ChainError::Reflection(e)),
        Ok(b) => match build_spec(b) {
            Err(e) => Err(ChainError::Build(e)),
            Ok(built) => Ok(built),
        },
    }
}

/// Once a prefix of the modules fails, the whole chain fails in the same way.
pub proof fn lemma_gathered_fail(start: BuilderView, modules: Seq<RawModule>, n: int)
    requires
        0 <= n <= modules.len(),
        gathered(start, modules.take(n)) is Err,
    ensures
        gathered(start, modules) == gathered(start, modules.take(n)),
    decreases modules.len() - n,
{
    if n < modules.len() {
        assert(modules.take(n + 1).drop_last() =~= modules.take(n));
        lemma_gathered_fail(start, modules, n + 1);
    } else {
        assert(modules.take(n) =~= modules);
    }
}

/// Building is reproducible: the same modules in the same order, with the
/// same alignment, give the same pool, hence the same pool sizes and the
/// same fields at the same offsets, and the same push-constant blocks.
pub proof fn lemma_chain_deterministic(min_offset: u64, a: Seq<RawModule>, b: Seq<RawModule>)
    requires
        a.len() == b.len(),
        forall|i: int| 0 <= i < a.len() ==> a[i] == b[i],
    ensures
        chain_spec(min_offset, a) == chain_spec(min_offset, b),
        chain_spec(min_offset, a) matches Ok(built) ==> pool_sizes(built.0.sets) == pool_sizes(
            chain_spec(min_offset, b).unwrap().0.sets,
        ),
{
    assert(a =~= b);
}

impl MetaShader {
    /// A compiled shader from the path of its source, the name of its
    /// entry point and its bytecode. The stage is the one that the
    /// extension of the path names; without such an extension there is no
    /// shader.
    pub fn new(path: &str, entry: &str, bin: Vec<u32>) -> (r: Option<MetaShader>)
        ensures
            r is Some <==> stage_for(path@) is Some,
            r matches Some(m) ==> stage_for(path@) == Some(m.stage) && m.entry@ == entry@ && m.bin@ == bin@,
    {
        match stage_of_path(path) {
            None => None,
            Some(stage) => Some(MetaShader { stage, entry: entry.to_owned(), bin }),
        }
    }

    /// Builds the pool of the pipeline that the stages make: reflects what
    /// each of them declares, in order, and builds from that.
    pub fn build_chain(modules: &Vec<RawModule>, min_offset: u64) -> (r: Result<
        (DescPoolToken, Vec<(String, PushConstant)>),
        ChainError,
    >)
        ensures
            match chain_spec(min_offset, modules@) {
                Ok((pool, blocks)) => r matches Ok(built) && built.0.wf() && built.0@ == pool
                    && pushes_wf(built.1@) && pushes_view(built.1@) == blocks,
                Err(e) => r matches Err(x) && x == e,
            },
    {
        let ghost start = BuilderView { min_offset, data: Seq::empty(), push_consts: Seq::empty(), push_conflict: false };
        let mut builder = DescPoolToken::builder(min_offset);
        let mut i: usize = 0;
        assert(modules@.take(0) =~= Seq::<RawModule>::empty());
        while i < modules.len()
            invariant
                i <= modules.len(),
                start == (BuilderView { min_offset, data: Seq::empty(), push_consts: Seq::empty(), push_conflict: false }),
                builder.wf(),
                builder.min_offset == min_offset,
                gathered(start, modules@.take(i as int)) == Ok::<BuilderView, ReflectionError>(builder@),
            decreases modules.len() - i,
        {
            proof {
                assert(modules@.take(i as int + 1).drop_last() =~= modules@.take(i as int));
                assert(modules@.take(i as int + 1).last() == modules@[i as int]);
            }
            match builder.add(&modules[i]) {
                Err(e) => {
                    proof {
                        lemma_gathered_fail(start, modules@, i as int + 1);
                    }
                    return Err(ChainError::Reflection(e));
                },
                Ok(()) => {},
            }
            i += 1;
        }
        assert(modules@.take(i as int) =~= modules@);
        match builder.build() {
            Err(e) => Err(ChainError::Build(e)),
            Ok(built) => Ok(built),
        }
    }
}

} // verus!
