//! Drawing a mini-batch: distinct sample indices chosen at random, without
//! replacement, by a partial shuffle of the index pool.

use vstd::prelude::*;

use vstd::pervasive::VecAdditionalExecFns;

use crate::error::Error;

verus! {

/// Relies on rand's `Rng::gen_range` over `0..n` on the thread-local
/// generator: it returns a uniformly sampled value of that range, and panics
/// only on an empty range, which `n >= 1` rules out. The draw depends on the
/// generator's hidden state, so nothing beyond the range is promised.
#[verifier::external_body]
fn rand_below(n: usize) -> (r: usize)
    requires
        n >= 1,
    ensures
        r < n,
{
    rand::Rng::gen_range(&mut rand::thread_rng(), 0..n)
}

/// Draws exactly `batch_size` distinct sample indices below `sample_count`,
/// without replacement. A batch of zero, or of more samples than the dataset
/// holds, is rejected.
pub fn choose_batch_indices(sample_count: usize, batch_size: usize) -> (r: Result<
    Vec<usize>,
    Error,
>)
    ensures
        r is Ok <==> 1 <= batch_size <= sample_count,
        r is Err ==> r == Err::<Vec<usize>, Error>(Error::InvalidBatchSize),
        r matches Ok(v) ==> {
            &&& v@.len() == batch_size
            &&& forall|i: int| 0 <= i < v@.len() ==> v@[i] < sample_count
            &&& forall|i: int, j: int| 0 <= i < j < v@.len() ==> v@[i] != v@[j]
        },
{
    if batch_size == 0 || batch_size > sample_count {
        return Err(Error::InvalidBatchSize);
    }
    let mut pool: Vec<usize> = Vec::new();
    for k in 0..sample_count
        invariant
            pool@.len() == k,
            forall|t: int| 0 <= t < k ==> pool@[t] == t,
    {
        pool.push(k);
    }
    for i in 0..batch_size
        invariant
            batch_size <= sample_count,
            pool@.len() == sample_count,
            forall|t: int| 0 <= t < sample_count ==> pool@[t] < sample_count,
            forall|t1: int, t2: int|
                0 <= t1 < t2 < sample_count ==> pool@[t1] != pool@[t2],
    {
        let j = i + rand_below(sample_count - i);
        let a = pool[i];
        let b = pool[j];
        pool.set(i, b);
        pool.set(j, a);
    }
    pool.truncate(batch_size);
    Ok(pool)
}

} // verus!
