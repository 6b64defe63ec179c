//! The cache-reset discipline: every run wipes the cache before filling
//! it, so no frame or audio file of an earlier run survives into the
//! current sequence.
use vstd::prelude::*;

verus! {

/// One file-system step of preparing the cache.
#[derive(Clone, Copy, Debug, PartialEq, Eq, Structural)]
pub enum CacheOp {
    /// Remove the cache directory and everything in it.
    WipeAll,
    /// Create the empty frames directory.
    CreateFrames,
}

/// The cache contents (a set of file names) after one step.
pub open spec fn apply_op(cache: Set<Seq<char>>, op: CacheOp) -> Set<Seq<char>> {
    match op {
        CacheOp::WipeAll => Set::empty(),
        CacheOp::CreateFrames => cache,
    }
}

/// The cache contents after a sequence of steps.
pub open spec fn apply_ops(cache: Set<Seq<char>>, ops: Seq<CacheOp>) -> Set<Seq<char>>
    decreases ops.len(),
{
    if ops.len() == 0 {
        cache
    } else {
        apply_ops(apply_op(cache, ops[0]), ops.skip(1))
    }
}

proof fn lemma_wipe_create(prior: Set<Seq<char>>)
    ensures
        apply_ops(prior, seq![CacheOp::WipeAll, CacheOp::CreateFrames]) =~= Set::empty(),
{
    let plan = seq![CacheOp::WipeAll, CacheOp::CreateFrames];
    let e = Set::<Seq<char>>::empty();
    assert(apply_ops(prior, plan) == apply_ops(e, plan.skip(1)));
    assert(plan.skip(1) =~= seq![CacheOp::CreateFrames]);
    assert(apply_ops(e, plan.skip(1)) == apply_ops(e, plan.skip(1).skip(1)));
    assert(plan.skip(1).skip(1) =~= Seq::<CacheOp>::empty());
    assert(apply_ops(e, plan.skip(1).skip(1)) == e);
}

/// The steps that prepare the cache for a run: wipe whatever a prior run
/// left whenever the directory exists, then create the empty frames
/// directory. After them, nothing of the prior contents remains.
pub fn reset_plan(cache_exists: bool) -> (ops: Vec<CacheOp>)
    ensures
        ops@ == (if cache_exists {
            seq![CacheOp::WipeAll, CacheOp::CreateFrames]
        } else {
            seq![CacheOp::CreateFrames]
        }),
        forall|prior: Set<Seq<char>>|
            cache_exists ==> #[trigger] apply_ops(prior, ops@) =~= Set::empty(),
        apply_ops(Set::empty(), ops@) =~= Set::empty(),
{
    let mut ops: Vec<CacheOp> = Vec::new();
    if cache_exists {
        ops.push(CacheOp::WipeAll);
    }
    ops.push(CacheOp::CreateFrames);
    proof {
        if cache_exists {
            assert(ops@ =~= seq![CacheOp::WipeAll, CacheOp::CreateFrames]);
            assert forall|prior: Set<Seq<char>>| #[trigger]
                apply_ops(prior, ops@) =~= Set::empty() by {
                lemma_wipe_create(prior);
            }
        } else {
            assert(ops@ =~= seq![CacheOp::CreateFrames]);
            assert(apply_ops(Set::empty(), ops@) == apply_ops(Set::empty(), ops@.skip(1)));
            assert(ops@.skip(1) =~= Seq::<CacheOp>::empty());
        }
    }
    ops
}

/// The files in the cache once a run finishes: the reset steps wipe it,
/// then the run writes its own frames and audio.
pub open spec fn after_run(prior: Set<Seq<char>>, produced: Set<Seq<char>>) -> Set<Seq<char>> {
    apply_ops(prior, seq![CacheOp::WipeAll, CacheOp::CreateFrames]).union(produced)
}

/// Law: a run leaves exactly its own files, whatever was there before; so
/// two runs in succession leave exactly the second run's files, never a
/// mix of both.
pub proof fn lemma_cache_reset_idempotent(
    prior: Set<Seq<char>>,
    first: Set<Seq<char>>,
    second: Set<Seq<char>>,
)
    ensures
        after_run(prior, first) =~= first,
        after_run(after_run(prior, first), second) =~= second,
        after_run(after_run(prior, first), second) =~= after_run(prior, second),
{
    lemma_wipe_create(prior);
    lemma_wipe_create(after_run(prior, first));
}

} // verus!
