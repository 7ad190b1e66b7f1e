//! Data-parallel training: gradient exchange, sharding and the wire format.
use vstd::prelude::*;
use crate::bytes;
use crate::bytes::{bytes_between, push_all, push_le, push_words, read_le, read_words, Word};
use crate::number;
use crate::number::{filled, Number, Real};
use crate::optim;
use crate::tensor;
use crate::tensor::{copy_slice, Tensor};
use crate::text;

verus! {

// ---- All-reduce

/// Each worker has a buffer of `n` numbers.
pub open spec fn buffers<S>(workers: Seq<Vec<S>>, n: int) -> bool {
    forall|w: int| 0 <= w < workers.len() ==> (#[trigger] workers[w])@.len() == n
}

/// The numbers at position `i`, worker by worker.
pub open spec fn across<S>(workers: Seq<Vec<S>>, i: int) -> spec_fn(int) -> S {
    |w: int| workers[w]@[i]
}

/// The sum over all workers at each position, in the order of the workers.
pub open spec fn summed<S: Number>(workers: Seq<Vec<S>>, n: int) -> Seq<S> {
    Seq::new(n as nat, |i: int| number::sum_n(across(workers, i), workers.len() as int))
}

/// Gives every worker the sum over all workers.
#[verifier::loop_isolation(false)]
pub fn ring_all_reduce_all<S: Number>(workers: &mut Vec<Vec<S>>, world_size: usize)
    requires
        world_size > 1 ==> old(workers)@.len() > 0 && buffers(
            old(workers)@,
            old(workers)@[0]@.len() as int,
        ),
    ensures
        final(workers)@.len() == old(workers)@.len(),
        world_size <= 1 ==> final(workers)@ == old(workers)@,
        world_size > 1 ==> forall|w: int|
            0 <= w < final(workers)@.len() ==> (#[trigger] final(workers)@[w])@ == summed(
                old(workers)@,
                old(workers)@[0]@.len() as int,
            ),
{
    if world_size <= 1 {
        return ;
    }
    let n: usize = workers[0].len();
    let count: usize = workers.len();
    let mut sum: Vec<S> = filled(S::zero(), n);
    for w in 0..count
        invariant
            sum@.len() == n,
            forall|i: int|
                0 <= i < n ==> #[trigger] sum@[i] == number::sum_n(
                    across(old(workers)@, i),
                    w as int,
                ),
    {
        let row = &workers[w];
        assert(row@.len() == n);
        for i in 0..n
            invariant
                sum@.len() == n,
                row@ == old(workers)@[w as int]@,
                forall|k: int|
                    0 <= k < n ==> #[trigger] sum@[k] == number::sum_n(
                        across(old(workers)@, k),
                        if k < i {
                            w + 1
                        } else {
                            w as int
                        },
                    ),
        {
            let v = sum[i].plus(row[i]);
            sum.set(i, v);
        }
    }
    assert(sum@ =~= summed(old(workers)@, n as int));
    for w in 0..count
        invariant
            workers@.len() == count,
            forall|k: int| 0 <= k < w ==> (#[trigger] workers@[k])@ == sum@,
    {
        workers.set(w, copy_slice(&sum));
    }
}

/// `k` counted round a ring of `n`.
pub open spec fn wrap(k: int, n: int) -> int {
    if k >= n {
        k - n
    } else {
        k
    }
}

/// How many steps to the right worker `w` is from worker `c`.
pub open spec fn steps(w: int, c: int, n: int) -> int {
    if w >= c {
        w - c
    } else {
        w - c + n
    }
}

/// What has come together at position `i` after `d` steps round the ring from worker `c`.
pub open spec fn gathered<S: Number>(workers: Seq<Vec<S>>, n: int, c: int, i: int, d: int) -> S
    decreases d,
{
    if d <= 0 {
        workers[c]@[i]
    } else {
        workers[wrap(c + d, n)]@[i].spec_plus(gathered(workers, n, c, i, d - 1))
    }
}

/// The number of the chunk that a position lies in.
pub open spec fn chunk_of(i: int, chunk: int) -> int {
    i / chunk
}

/// The total at position `i`: each chunk starts at the worker of its own number.
pub open spec fn ring_total<S: Number>(workers: Seq<Vec<S>>, n: int, chunk: int, i: int) -> S {
    gathered(workers, n, chunk_of(i, chunk), i, n - 1)
}

/// What worker `w` holds at position `i` after some rounds of adding up.
pub open spec fn scattered<S: Number>(
    workers: Seq<Vec<S>>,
    n: int,
    chunk: int,
    rounds: int,
    w: int,
    i: int,
) -> S {
    let c = chunk_of(i, chunk);
    let d = steps(w, c, n);
    if d <= rounds {
        gathered(workers, n, c, i, d)
    } else {
        workers[w]@[i]
    }
}

/// What worker `w` holds at position `i` after some rounds of passing on.
pub open spec fn shared<S: Number>(
    workers: Seq<Vec<S>>,
    n: int,
    chunk: int,
    rounds: int,
    w: int,
    i: int,
) -> S {
    let c = chunk_of(i, chunk);
    let d = steps(w, c, n);
    if d < rounds || d == n - 1 {
        gathered(workers, n, c, i, n - 1)
    } else {
        gathered(workers, n, c, i, d)
    }
}

proof fn lemma_chunk(i: int, len: int, chunk: int, n: int)
    requires
        0 <= i < len,
        0 < chunk,
        len <= chunk * n,
    ensures
        0 <= chunk_of(i, chunk) < n,
{
    vstd::arithmetic::div_mod::lemma_fundamental_div_mod(i, chunk);
    let (q, r) = (i / chunk, i % chunk);
    assert(0 <= q < n) by (nonlinear_arith)
        requires
            i == chunk * q + r,
            0 <= r < chunk,
            0 <= i < chunk * n,
    ;
}

proof fn lemma_in_chunk(i: int, chunk: int, c: int)
    requires
        0 < chunk,
        0 <= i,
        0 <= c,
    ensures
        chunk_of(i, chunk) == c <==> c * chunk <= i < c * chunk + chunk,
{
    vstd::arithmetic::div_mod::lemma_fundamental_div_mod(i, chunk);
    let (q, r) = (i / chunk, i % chunk);
    assert(q == c <==> c * chunk <= i < c * chunk + chunk) by (nonlinear_arith)
        requires
            i == chunk * q + r,
            0 <= r < chunk,
            0 <= c,
    ;
}

/// The chunk with number `c`: where it starts and where it ends.
fn chunk_bounds(c: usize, chunk: usize, len: usize, Ghost(n): Ghost<int>) -> (r: (usize, usize))
    requires
        c < n,
        chunk * n <= usize::MAX,
    ensures
        r.0 == c * chunk,
        r.1 == if c * chunk + chunk < len {
            c * chunk + chunk
        } else {
            len as int
        },
{
    proof {
        assert(c * chunk + chunk <= chunk * n) by (nonlinear_arith)
            requires
                c < n,
                0 <= chunk,
        ;
    }
    let start: usize = c * chunk;
    let end: usize = start + chunk;
    (start, if end < len {
        end
    } else {
        len
    })
}

/// One round: every worker takes one chunk from its left neighbour, adding it up or as it is.
#[verifier::loop_isolation(false)]
#[verifier::rlimit(40)]
fn ring_round<S: Number>(
    workers: &mut Vec<Vec<S>>,
    len: usize,
    chunk: usize,
    round: usize,
    adding: bool,
    Ghost(first): Ghost<Seq<Vec<S>>>,
)
    requires
        old(workers)@.len() == first.len(),
        first.len() > 1,
        round < first.len() - 1,
        buffers(old(workers)@, len as int),
        chunk > 0,
        len <= chunk * first.len() <= usize::MAX,
        2 * first.len() <= usize::MAX,
        adding ==> forall|w: int, i: int|
            0 <= w < first.len() && 0 <= i < len ==> (#[trigger] old(workers)@[w]@[i])
                == scattered(first, first.len() as int, chunk as int, round as int, w, i),
        !adding ==> forall|w: int, i: int|
            0 <= w < first.len() && 0 <= i < len ==> (#[trigger] old(workers)@[w]@[i]) == shared(
                first,
                first.len() as int,
                chunk as int,
                round as int,
                w,
                i,
            ),
    ensures
        final(workers)@.len() == first.len(),
        buffers(final(workers)@, len as int),
        adding ==> forall|w: int, i: int|
            0 <= w < first.len() && 0 <= i < len ==> (#[trigger] final(workers)@[w]@[i])
                == scattered(first, first.len() as int, chunk as int, round + 1, w, i),
        !adding ==> forall|w: int, i: int|
            0 <= w < first.len() && 0 <= i < len ==> (#[trigger] final(workers)@[w]@[i])
                == shared(first, first.len() as int, chunk as int, round + 1, w, i),
{
    let n: usize = workers.len();
    let ghost nn = n as int;
    let ghost cc = chunk as int;
    let ghost before = workers@;
    for r in 0..n
        invariant
            workers@.len() == n,
            buffers(workers@, len as int),
            forall|w: int, i: int|
                0 <= w < n && 0 <= i < len ==> (#[trigger] workers@[w]@[i]) == (if adding {
                    scattered(
                        first,
                        nn,
                        cc,
                        if w < r {
                            round + 1
                        } else {
                            round as int
                        },
                        w,
                        i,
                    )
                } else {
                    shared(
                        first,
                        nn,
                        cc,
                        if w < r {
                            round + 1
                        } else {
                            round as int
                        },
                        w,
                        i,
                    )
                }),
    {
        let offset: usize = if adding {
            round + 1
        } else {
            round
        };
        let c: usize = if r >= offset {
            r - offset
        } else {
            r + n - offset
        };
        let left: usize = if r == 0 {
            n - 1
        } else {
            r - 1
        };
        let (start, end) = chunk_bounds(c, chunk, len, Ghost(nn));
        let ghost entry = workers@;
        proof {
            assert(steps(r as int, c as int, nn) == offset);
            assert forall|i: int| 0 <= i < len implies (start <= i < end <==> #[trigger] chunk_of(i, cc) == c) by {
                lemma_in_chunk(i, cc, c as int);
            }
            assert forall|i: int| 0 <= i < len implies 0 <= #[trigger] chunk_of(i, cc) < nn by {
                lemma_chunk(i, len as int, cc, nn);
            }
        }
        let mut i: usize = start;
        while i < end
            invariant
                start <= i,
                start <= end ==> i <= end,
                workers@.len() == n,
                buffers(workers@, len as int),
                forall|w: int, k: int|
                    0 <= w < n && 0 <= k < len && !(w == r && start <= k < i) ==> (
                    #[trigger] workers@[w]@[k]) == entry[w]@[k],
                forall|k: int|
                    start <= k < i && k < len ==> (#[trigger] workers@[r as int]@[k]) == (
                    if adding {
                        entry[r as int]@[k].spec_plus(entry[left as int]@[k])
                    } else {
                        entry[left as int]@[k]
                    }),
            decreases end - i,
        {
            let got = workers[left][i];
            let v = if adding {
                workers[r][i].plus(got)
            } else {
                got
            };
            workers[r][i] = v;
            i = i + 1;
        }
        assert forall|w: int, k: int| 0 <= w < n && 0 <= k < len implies (
        #[trigger] workers@[w]@[k]) == (if adding {
            scattered(
                first,
                nn,
                cc,
                if w < r + 1 {
                    round + 1
                } else {
                    round as int
                },
                w,
                k,
            )
        } else {
            shared(
                first,
                nn,
                cc,
                if w < r + 1 {
                    round + 1
                } else {
                    round as int
                },
                w,
                k,
            )
        }) by {
            let cw = chunk_of(k, cc);
            assert(0 <= cw < nn);
            assert(entry[w]@[k] == entry[w]@[k]);
            if w == r {
                if cw == c {
                    assert(start <= k < end);
                    assert(wrap(c + offset, nn) == r);
                    assert(steps(left as int, c as int, nn) == (if offset == 0 {
                        nn - 1
                    } else {
                        offset - 1
                    }));
                    let e = entry[left as int]@[k];
                } else {
                    assert(!(start <= k < end));
                    assert(steps(r as int, cw, nn) != offset);
                }
            }
        }
    }
}

/// Sums over all workers by passing chunks round a ring; afterwards this worker's buffer, and
/// that of every other, holds the sum.
///
/// In the first half each worker adds to one chunk what its left neighbour has of it; in the
/// second half the complete chunks are passed on.
pub fn ring_all_reduce_simulated<S: Number>(
    local_data: &mut Vec<S>,
    all_workers: &mut Vec<Vec<S>>,
    rank: usize,
    world_size: usize,
)
    requires
        world_size > 1 ==> {
            &&& old(all_workers)@.len() == world_size
            &&& rank < world_size
            &&& buffers(old(all_workers)@, old(local_data)@.len() as int)
            &&& old(local_data)@.len() + 2 * world_size <= usize::MAX
        },
    ensures
        world_size <= 1 ==> final(local_data)@ == old(local_data)@ && final(all_workers)@ == old(all_workers)@,
        world_size > 1 ==> {
            &&& final(local_data)@.len() == old(local_data)@.len()
            &&& forall|i: int|
                0 <= i < old(local_data)@.len() ==> #[trigger] final(local_data)@[i]
                    == ring_total(
                    old(all_workers)@.update(rank as int, *old(local_data)),
                    world_size as int,
                    chunk_len(old(local_data)@.len() as int, world_size as int),
                    i,
                )
            &&& final(all_workers)@.len() == world_size
            &&& forall|w: int|
                0 <= w < world_size ==> (#[trigger] final(all_workers)@[w])@ == final(local_data)@
        },
{
    if world_size <= 1 {
        return ;
    }
    let n: usize = local_data.len();
    proof {
        lemma_chunk_len(n as int, world_size as int);
    }
    let chunk_size: usize = (n + world_size - 1) / world_size;
    if n == 0 {
        assert forall|w: int| 0 <= w < world_size implies (#[trigger] all_workers@[w])@ == local_data@ by {
            assert(all_workers@[w]@ =~= local_data@);
        }
        return ;
    }
    let ghost first = all_workers@.update(rank as int, *local_data);
    let mine = copy_slice(local_data);
    proof {
        assert(mine@ == local_data@);
    }
    all_workers.set(rank, mine);
    let ghost start = all_workers@;
    assert forall|w: int, i: int| 0 <= w < world_size && 0 <= i < n implies (
    #[trigger] start[w]@[i]) == scattered(
        first,
        world_size as int,
        chunk_size as int,
        0,
        w,
        i,
    ) by {
        lemma_chunk(i, n as int, chunk_size as int, world_size as int);
    }
    for round in 0..world_size - 1
        invariant
            world_size > 1,
            all_workers@.len() == world_size,
            first.len() == world_size,
            buffers(all_workers@, n as int),
            chunk_size > 0,
            n <= chunk_size * world_size <= usize::MAX,
            2 * world_size <= usize::MAX,
            forall|w: int, i: int|
                0 <= w < world_size && 0 <= i < n ==> (#[trigger] all_workers@[w]@[i])
                    == scattered(
                    first,
                    world_size as int,
                    chunk_size as int,
                    round as int,
                    w,
                    i,
                ),
    {
        ring_round(all_workers, n, chunk_size, round, true, Ghost(first));
    }
    let ghost middle = all_workers@;
    assert forall|w: int, i: int| 0 <= w < world_size && 0 <= i < n implies (
    #[trigger] middle[w]@[i]) == shared(
        first,
        world_size as int,
        chunk_size as int,
        0,
        w,
        i,
    ) by {
        lemma_chunk(i, n as int, chunk_size as int, world_size as int);
    }
    for round in 0..world_size - 1
        invariant
            world_size > 1,
            all_workers@.len() == world_size,
            first.len() == world_size,
            buffers(all_workers@, n as int),
            chunk_size > 0,
            n <= chunk_size * world_size <= usize::MAX,
            2 * world_size <= usize::MAX,
            forall|w: int, i: int|
                0 <= w < world_size && 0 <= i < n ==> (#[trigger] all_workers@[w]@[i]) == shared(
                    first,
                    world_size as int,
                    chunk_size as int,
                    round as int,
                    w,
                    i,
                ),
    {
        ring_round(all_workers, n, chunk_size, round, false, Ghost(first));
    }
    let ghost total = Seq::new(
        n as nat,
        |i: int| ring_total(first, world_size as int, chunk_size as int, i),
    );
    assert forall|w: int| 0 <= w < world_size implies (#[trigger] all_workers@[w])@ == total by {
        assert forall|i: int| 0 <= i < n implies all_workers@[w]@[i] == total[i] by {
            lemma_chunk(i, n as int, chunk_size as int, world_size as int);
        }
        assert(all_workers@[w]@ =~= total);
    }
    *local_data = copy_slice(&all_workers[rank]);
}

/// The length of a chunk: that of the buffer divided by the number of workers, rounded up.
pub open spec fn chunk_len(len: int, world_size: int) -> int {
    (len + world_size - 1) / world_size
}

proof fn lemma_chunk_len(len: int, n: int)
    requires
        0 <= len,
        0 < n,
    ensures
        len > 0 ==> chunk_len(len, n) > 0,
        len <= chunk_len(len, n) * n <= len + n,
{
    vstd::arithmetic::div_mod::lemma_fundamental_div_mod(len + n - 1, n);
    let (q, r) = ((len + n - 1) / n, (len + n - 1) % n);
    assert(q * n == n * q) by (nonlinear_arith);
    assert(len > 0 ==> q > 0) by (nonlinear_arith)
        requires
            len + n - 1 == n * q + r,
            0 <= r < n,
            0 < n,
    ;
}

/// Every position of a buffer lies in the chunk of some worker.
pub proof fn lemma_chunk_exists(i: int, len: int, world_size: int)
    requires
        0 <= i < len,
        0 < world_size,
    ensures
        0 <= chunk_of(i, chunk_len(len, world_size)) < world_size,
{
    lemma_chunk_len(len, world_size);
    lemma_chunk(i, len, chunk_len(len, world_size), world_size);
}

/// Divides by the number of workers.
pub fn average_gradients<S: Real>(data: &mut Vec<S>, world_size: usize)
    ensures
        final(data)@ == averaged(old(data)@, world_size),
{
    let scale = S::one().over(S::count(world_size));
    let n: usize = data.len();
    for i in 0..n
        invariant
            n == old(data)@.len(),
            scale == S::spec_one().spec_over(S::spec_count(world_size)),
            data@ =~= Seq::new(
                n as nat,
                |k: int|
                    if k < i {
                        old(data)@[k].spec_times(scale)
                    } else {
                        old(data)@[k]
                    },
            ),
    {
        let v = data[i].times(scale);
        data.set(i, v);
    }
}

/// Each number times the reciprocal of the number of workers.
pub open spec fn averaged<S: Real>(data: Seq<S>, world_size: usize) -> Seq<S> {
    Seq::new(
        data.len(),
        |i: int| data[i].spec_times(S::spec_one().spec_over(S::spec_count(world_size))),
    )
}

// ---- Buckets

/// The gradient of a tensor, or zeros.
pub open spec fn grad_or_zero<S: Number>(t: Tensor<S>) -> Seq<S> {
    match t.grad {
        Some(g) => g@,
        None => Seq::new(t.data@.len(), |i: int| S::spec_zero()),
    }
}

/// All gradients, one after the other.
pub open spec fn flattened<S: Number>(params: Seq<Tensor<S>>) -> Seq<S>
    decreases params.len(),
{
    if params.len() == 0 {
        Seq::empty()
    } else {
        flattened(params.drop_last()) + grad_or_zero(params.last())
    }
}

/// How many elements the tensors have together.
pub open spec fn total_len<S>(params: Seq<Tensor<S>>) -> int
    decreases params.len(),
{
    if params.len() == 0 {
        0
    } else {
        total_len(params.drop_last()) + params.last().data@.len()
    }
}

pub(crate) proof fn lemma_flattened_len<S: Number>(params: Seq<Tensor<S>>)
    requires
        optim::params_wf(params),
    ensures
        flattened(params).len() == total_len(params),
    decreases params.len(),
{
    if params.len() > 0 {
        assert forall|i: int| 0 <= i < params.len() - 1 implies (
        #[trigger] params.drop_last()[i]).wf() by {
            assert(params[i].wf());
        }
        lemma_flattened_len(params.drop_last());
        assert(params.last() == params[params.len() - 1]);
        assert(params[params.len() - 1].wf());
    }
}

/// All gradients in one buffer; where there is none, zeros stand in.
#[verifier::loop_isolation(false)]
pub fn flatten_gradients<S: Number>(params: &[Tensor<S>]) -> (r: Vec<S>)
    ensures
        r@ == flattened(params@),
{
    let mut buf: Vec<S> = Vec::new();
    assert(params@.take(0) =~= Seq::<Tensor<S>>::empty());
    for k in 0..params.len()
        invariant
            buf@ =~= flattened(params@.take(k as int)),
    {
        let ghost before = buf@;
        let ghost item = grad_or_zero(params@[k as int]);
        proof {
            assert(params@.take(k + 1).drop_last() =~= params@.take(k as int));
        }
        match &params[k].grad {
            Some(g) => {
                for i in 0..g.len()
                    invariant
                        g@ == item,
                        buf@ =~= before + item.take(i as int),
                {
                    buf.push(g[i]);
                }
            },
            None => {
                for i in 0..params[k].data.len()
                    invariant
                        item == Seq::new(params@[k as int].data@.len(), |j: int| S::spec_zero()),
                        buf@ =~= before + item.take(i as int),
                {
                    buf.push(S::zero());
                }
            },
        }
        assert(item.take(item.len() as int) =~= item);
    }
    assert(params@.take(params@.len() as int) =~= params@);
    buf
}

/// The tensors with the buffer as gradients, each with its part.
pub open spec fn unflattened<S>(
    old: Seq<Tensor<S>>,
    new: Seq<Tensor<S>>,
    flat: Seq<S>,
    upto: int,
) -> bool {
    &&& new.len() == old.len()
    &&& forall|k: int|
        0 <= k < upto ==> {
            &&& (#[trigger] new[k]).data == old[k].data
            &&& new[k].shape == old[k].shape
            &&& new[k].requires_grad == old[k].requires_grad
            &&& tensor::grad_of(new[k].grad) == Some(
                flat.subrange(
                    total_len(old.take(k)),
                    total_len(old.take(k)) + old[k].data@.len(),
                ),
            )
        }
    &&& forall|k: int| upto <= k < old.len() ==> #[trigger] new[k] == old[k]
}

proof fn lemma_prefix_len<S>(params: Seq<Tensor<S>>, k: int)
    requires
        0 <= k <= params.len(),
    ensures
        0 <= total_len(params.take(k)) <= total_len(params),
        k < params.len() ==> total_len(params.take(k + 1)) == total_len(params.take(k))
            + params[k].data@.len() && total_len(params.take(k + 1)) <= total_len(params),
    decreases params.len() - k,
{
    if k < params.len() {
        lemma_prefix_len(params, k + 1);
        assert(params.take(k + 1).drop_last() =~= params.take(k));
        lemma_total_nonneg(params.take(k));
    } else {
        assert(params.take(k) =~= params);
        lemma_total_nonneg(params);
    }
}

proof fn lemma_total_nonneg<S>(params: Seq<Tensor<S>>)
    ensures
        0 <= total_len(params),
    decreases params.len(),
{
    if params.len() > 0 {
        lemma_total_nonneg(params.drop_last());
    }
}

/// Gives each tensor its part of the buffer as gradient.
#[verifier::loop_isolation(false)]
pub fn unflatten_gradients<S: Number>(params: &mut Vec<Tensor<S>>, flat_grads: &[S])
    requires
        flat_grads@.len() >= total_len(old(params)@),
    ensures
        unflattened(old(params)@, final(params)@, flat_grads@, old(params)@.len() as int),
{
    let ghost first = params@;
    let n: usize = params.len();
    let len: usize = flat_grads.len();
    let mut offset: usize = 0;
    assert(first.take(0) =~= Seq::<Tensor<S>>::empty());
    for k in 0..n
        invariant
            params@.len() == n,
            offset == total_len(first.take(k as int)),
            unflattened(first, params@, flat_grads@, k as int),
    {
        proof {
            lemma_prefix_len(first, k as int);
        }
        assert(params@[k as int] == first[k as int]);
        let m: usize = params[k].data.len();
        let mut part: Vec<S> = Vec::new();
        for i in 0..m
            invariant
                part@ =~= flat_grads@.subrange(offset as int, offset + i),
        {
            part.push(flat_grads[offset + i]);
        }
        params[k].grad = Some(part);
        offset = offset + m;
    }
}

/// Splitting up the joined gradients gives back the gradients, where each tensor had one.
pub proof fn lemma_flatten_round_trip<S: Number>(old: Seq<Tensor<S>>, new: Seq<Tensor<S>>)
    requires
        optim::params_wf(old),
        unflattened(old, new, flattened(old), old.len() as int),
    ensures
        forall|k: int|
            0 <= k < old.len() ==> tensor::grad_of((#[trigger] new[k]).grad) == Some(
                grad_or_zero(old[k]),
            ),
{
    assert forall|k: int| 0 <= k < old.len() implies tensor::grad_of(
        (#[trigger] new[k]).grad,
    ) == Some(grad_or_zero(old[k])) by {
        lemma_flattened_part(old, k);
    }
}

proof fn lemma_flattened_part<S: Number>(params: Seq<Tensor<S>>, k: int)
    requires
        optim::params_wf(params),
        0 <= k < params.len(),
    ensures
        flattened(params).subrange(
            total_len(params.take(k)),
            total_len(params.take(k)) + params[k].data@.len(),
        ) == grad_or_zero(params[k]),
        total_len(params.take(k)) + params[k].data@.len() <= flattened(params).len(),
        0 <= total_len(params.take(k)),
    decreases params.len(),
{
    let front = params.drop_last();
    assert forall|i: int| 0 <= i < front.len() implies (#[trigger] front[i]).wf() by {
        assert(params[i].wf());
    }
    assert(params[k].wf());
    lemma_flattened_len(front);
    lemma_flattened_len(params);
    lemma_prefix_len(params, k);
    let at = total_len(params.take(k));
    let n = params[k].data@.len() as int;
    if k < front.len() {
        lemma_flattened_part(front, k);
        assert(front.take(k) =~= params.take(k));
        assert(flattened(params).subrange(at, at + n) =~= flattened(front).subrange(at, at + n));
    } else {
        assert(params.take(k) =~= front);
        assert(flattened(params).subrange(at, at + n) =~= grad_or_zero(params[k]));
    }
}

/// The buffers that are summed: those of the others, this worker's own at its place, and as many
/// copies of its own as it takes to get there.
pub open spec fn pooled<S>(others: Seq<Vec<S>>, local: Seq<S>, rank: int, k: int) -> Seq<S> {
    if k < others.len() && k != rank {
        others[k]@
    } else {
        local
    }
}

pub open spec fn pool_size<S>(others: Seq<Vec<S>>, rank: int) -> int {
    if others.len() <= rank {
        rank + 1
    } else {
        others.len() as int
    }
}

/// The average at each position over all buffers.
pub open spec fn pool_average<S: Real>(
    others: Seq<Vec<S>>,
    local: Seq<S>,
    rank: int,
    world_size: usize,
) -> Seq<S> {
    averaged(
        Seq::new(
            local.len(),
            |i: int|
                number::sum_n(
                    |k: int| pooled(others, local, rank, k)[i],
                    pool_size(others, rank),
                ),
        ),
        world_size,
    )
}

/// Replaces the gradients by their averages over all workers.
pub fn sync_gradients<S: Real>(
    params: &mut Vec<Tensor<S>>,
    world_size: usize,
    other_worker_grads: &[Vec<S>],
    rank: usize,
)
    requires
        optim::params_wf(old(params)@),
        world_size > 1 ==> rank < usize::MAX && forall|k: int|
            0 <= k < other_worker_grads@.len() && k != rank ==> (
            #[trigger] other_worker_grads@[k])@.len() == total_len(old(params)@),
    ensures
        world_size <= 1 ==> final(params)@ == old(params)@,
        world_size > 1 ==> unflattened(
            old(params)@,
            final(params)@,
            pool_average(
                other_worker_grads@,
                flattened(old(params)@),
                rank as int,
                world_size,
            ),
            old(params)@.len() as int,
        ),
{
    if world_size <= 1 {
        return ;
    }
    proof {
        lemma_flattened_len(params@);
    }
    let local_flat: Vec<S> = flatten_gradients(params);
    let mut all_workers: Vec<Vec<S>> = Vec::new();
    for k in 0..other_worker_grads.len()
        invariant
            all_workers@.len() == k,
            forall|j: int| 0 <= j < k ==> (#[trigger] all_workers@[j])@ == other_worker_grads@[j]@,
    {
        all_workers.push(copy_slice(&other_worker_grads[k]));
    }
    while all_workers.len() <= rank
        invariant
            other_worker_grads@.len() <= all_workers@.len(),
            all_workers@.len() == other_worker_grads@.len() || all_workers@.len() <= rank + 1,
            forall|j: int|
                0 <= j < all_workers@.len() ==> (#[trigger] all_workers@[j])@ == (if j
                    < other_worker_grads@.len() {
                    other_worker_grads@[j]@
                } else {
                    local_flat@
                }),
            rank < usize::MAX,
        decreases rank + 1 - all_workers@.len(),
    {
        all_workers.push(copy_slice(&local_flat));
    }
    all_workers.set(rank, copy_slice(&local_flat));
    let ghost pool = all_workers@;
    let ghost others = other_worker_grads@;
    proof {
        assert(pool.len() == pool_size(others, rank as int));
        assert forall|k: int| 0 <= k < pool.len() implies (#[trigger] pool[k])@ == pooled(
            others,
            local_flat@,
            rank as int,
            k,
        ) by {}
        assert(buffers(pool, local_flat@.len() as int));
    }
    ring_all_reduce_all(&mut all_workers, world_size);
    let mut mean: Vec<S> = copy_slice(&all_workers[rank]);
    average_gradients(&mut mean, world_size);
    proof {
        let len = local_flat@.len() as int;
        assert forall|i: int| 0 <= i < len implies #[trigger] summed(pool, len)[i]
            == number::sum_n(
            |k: int| pooled(others, local_flat@, rank as int, k)[i],
            pool_size(others, rank as int),
        ) by {
            number::lemma_sum_agree(
                across(pool, i),
                |k: int| pooled(others, local_flat@, rank as int, k)[i],
                pool.len() as int,
            );
        }
        assert(mean@ =~= pool_average(others, local_flat@, rank as int, world_size));
    }
    unflatten_gradients(params, &mean);
}

/// The sum of the squares of all gradients: per tensor, then over the tensors.
pub open spec fn norm_squared<S: Real>(params: Seq<Tensor<S>>) -> S
    decreases params.len(),
{
    if params.len() == 0 {
        S::spec_zero()
    } else {
        let rest = norm_squared(params.drop_last());
        match params.last().grad {
            Some(g) => rest.spec_plus(
                number::sum_n(optim::squares(g@), g@.len() as int),
            ),
            None => rest,
        }
    }
}

/// The tensors with every gradient times `scale`.
pub open spec fn scaled_grads<S: Real>(
    old: Seq<Tensor<S>>,
    new: Seq<Tensor<S>>,
    scale: S,
    upto: int,
) -> bool {
    &&& new.len() == old.len()
    &&& forall|k: int|
        0 <= k < upto ==> {
            &&& (#[trigger] new[k]).data == old[k].data
            &&& new[k].shape == old[k].shape
            &&& new[k].requires_grad == old[k].requires_grad
            &&& tensor::grad_of(new[k].grad) == match old[k].grad {
                Some(g) => Some(Seq::new(g@.len(), |i: int| g@[i].spec_times(scale))),
                None => None,
            }
        }
    &&& forall|k: int| upto <= k < old.len() ==> #[trigger] new[k] == old[k]
}

/// The norm of all gradients together.
#[verifier::loop_isolation(false)]
pub fn grad_norm<S: Real>(params: &[Tensor<S>]) -> (r: S)
    ensures
        r == norm_squared(params@).spec_sqrt(),
{
    let mut total = S::zero();
    assert(params@.take(0) =~= Seq::<Tensor<S>>::empty());
    for k in 0..params.len()
        invariant
            total == norm_squared(params@.take(k as int)),
    {
        proof {
            assert(params@.take(k + 1).drop_last() =~= params@.take(k as int));
        }
        if let Some(g) = &params[k].grad {
            let mut sum = S::zero();
            for i in 0..g.len()
                invariant
                    sum == number::sum_n(optim::squares(g@), i as int),
            {
                sum = sum.plus(g[i].times(g[i]));
            }
            total = total.plus(sum);
        }
    }
    assert(params@.take(params@.len() as int) =~= params@);
    total.sqrt()
}

/// Multiplies every gradient by `scale`.
#[verifier::loop_isolation(false)]
pub fn scale_gradients<S: Real>(params: &mut Vec<Tensor<S>>, scale: S)
    ensures
        scaled_grads(old(params)@, final(params)@, scale, old(params)@.len() as int),
{
    let ghost first = params@;
    let n: usize = params.len();
    for k in 0..n
        invariant
            params@.len() == n,
            scaled_grads(first, params@, scale, k as int),
    {
        assert(params@[k as int] == first[k as int]);
        if let Some(g) = params[k].grad.take() {
            let mut out: Vec<S> = Vec::new();
            for i in 0..g.len()
                invariant
                    out@ =~= Seq::new(i as nat, |j: int| g@[j].spec_times(scale)),
            {
                out.push(g[i].times(scale));
            }
            params[k].grad = Some(out);
        }
    }
}

/// Shrinks the gradients where their norm is greater than `max_norm`.
pub fn clip_gradients<S: Real>(params: &mut Vec<Tensor<S>>, max_norm: S)
    ensures
        clipped(old(params)@, final(params)@, max_norm),
{
    let total_norm = grad_norm(params);
    if max_norm.below(total_norm) {
        let scale = max_norm.over(total_norm);
        scale_gradients(params, scale);
    }
}

/// The gradients are scaled to `max_norm` where their norm is greater, and as they were
/// elsewhere.
pub open spec fn clipped<S: Real>(old: Seq<Tensor<S>>, new: Seq<Tensor<S>>, max_norm: S) -> bool {
    let norm = norm_squared(old).spec_sqrt();
    if max_norm.spec_below(norm) {
        scaled_grads(old, new, max_norm.spec_over(norm), old.len() as int)
    } else {
        new == old
    }
}

// ---- Sharding

/// Which worker this is among how many, and how it trains.
#[derive(Debug, Clone)]
pub struct DistributedConfig<S> {
    /// The number of this worker, from zero.
    pub rank: usize,
    /// How many workers there are.
    pub world_size: usize,
    /// Whether the learning rate grows with the number of workers.
    pub scale_lr: bool,
    /// The greatest gradient norm; zero for no limit.
    pub grad_clip: S,
}

impl<S: Real> Default for DistributedConfig<S> {
    fn default() -> (r: Self)
        ensures
            r == (DistributedConfig::<S> {
                rank: 0,
                world_size: 1,
                scale_lr: true,
                grad_clip: S::spec_zero(),
            }),
    {
        DistributedConfig { rank: 0, world_size: 1, scale_lr: true, grad_clip: S::zero() }
    }
}

/// Where the samples of a worker start.
pub open spec fn shard_start(rank: int, world_size: int, total: int) -> int {
    let rest = total % world_size;
    rank * (total / world_size) + (if rank < rest {
        rank
    } else {
        rest
    })
}

/// How many samples a worker has.
pub open spec fn shard_size(rank: int, world_size: int, total: int) -> int {
    total / world_size + (if rank < total % world_size {
        1int
    } else {
        0
    })
}

impl<S: Real> DistributedConfig<S> {
    /// One worker alone.
    pub fn single() -> (r: Self)
        ensures
            r == (DistributedConfig::<S> {
                rank: 0,
                world_size: 1,
                scale_lr: true,
                grad_clip: S::spec_zero(),
            }),
    {
        DistributedConfig::default()
    }

    /// One of several workers.
    pub fn new(rank: usize, world_size: usize) -> (r: Self)
        ensures
            r == (DistributedConfig::<S> {
                rank,
                world_size,
                scale_lr: true,
                grad_clip: S::spec_zero(),
            }),
    {
        DistributedConfig { rank, world_size, scale_lr: true, grad_clip: S::zero() }
    }

    /// The learning rate, times the number of workers if it is scaled.
    pub fn effective_lr(&self, base_lr: S) -> (r: S)
        ensures
            r == if self.scale_lr {
                base_lr.spec_times(S::spec_count(self.world_size))
            } else {
                base_lr
            },
    {
        if self.scale_lr {
            base_lr.times(S::count(self.world_size))
        } else {
            base_lr
        }
    }

    /// The samples of this worker: the first, and the one after the last.
    pub fn shard_range(&self, total_samples: usize) -> (r: (usize, usize))
        requires
            self.world_size > 0,
            shard_start(self.rank as int, self.world_size as int, total_samples as int)
                + shard_size(self.rank as int, self.world_size as int, total_samples as int)
                <= usize::MAX,
        ensures
            r.0 == shard_start(self.rank as int, self.world_size as int, total_samples as int),
            r.1 == ({
                let end = shard_start(
                    self.rank as int,
                    self.world_size as int,
                    total_samples as int,
                ) + shard_size(self.rank as int, self.world_size as int, total_samples as int);
                if end < total_samples {
                    end
                } else {
                    total_samples as int
                }
            }),
    {
        let per_worker: usize = total_samples / self.world_size;
        let remainder: usize = total_samples % self.world_size;
        let low: usize = if self.rank < remainder {
            self.rank
        } else {
            remainder
        };
        proof {
            assert(0 <= self.rank * per_worker) by (nonlinear_arith);
        }
        let start: usize = self.rank * per_worker + low;
        let extra: usize = if self.rank < remainder {
            1
        } else {
            0
        };
        let end: usize = start + per_worker + extra;
        (start, if end < total_samples {
            end
        } else {
            total_samples
        })
    }

    /// The batch of this worker: its part of the whole batch, but at least one.
    pub fn local_batch_size(&self, global_batch_size: usize) -> (r: usize)
        requires
            self.world_size > 0,
        ensures
            r == if global_batch_size as int / self.world_size as int >= 1 {
                global_batch_size as int / self.world_size as int
            } else {
                1
            },
    {
        let part: usize = global_batch_size / self.world_size;
        if part >= 1 {
            part
        } else {
            1
        }
    }
}

/// The shards follow each other without a gap or an overlap, from the first sample to the last,
/// and none is longer than another by more than one.
pub proof fn lemma_shards(rank: int, other: int, world_size: int, total: int)
    requires
        0 <= rank < world_size,
        0 <= other < world_size,
        0 <= total,
    ensures
        shard_start(0, world_size, total) == 0,
        shard_start(rank, world_size, total) + shard_size(rank, world_size, total)
            == shard_start(rank + 1, world_size, total),
        shard_start(world_size, world_size, total) == total,
        shard_start(rank + 1, world_size, total) <= total,
        shard_size(rank, world_size, total) <= shard_size(other, world_size, total) + 1,
{
    let (q, r) = (total / world_size, total % world_size);
    vstd::arithmetic::div_mod::lemma_fundamental_div_mod(total, world_size);
    assert(0 * q == 0) by (nonlinear_arith);
    assert((rank + 1) * q == rank * q + q) by (nonlinear_arith);
    assert(world_size * q == q * world_size) by (nonlinear_arith);
    assert(0 <= q) by (nonlinear_arith)
        requires
            total == world_size * q + r,
            0 <= total,
            0 <= r < world_size,
    ;
    assert((rank + 1) * q <= world_size * q) by (nonlinear_arith)
        requires
            rank + 1 <= world_size,
            0 <= q,
    ;
}

// ---- Messages

/// What a message is for.
#[derive(Debug, Clone, Copy, PartialEq, Eq, Structural)]
pub enum MessageType {
    /// A part of a gradient.
    GradientChunk,
    /// All workers wait for each other.
    Barrier,
    /// A sign of life.
    Heartbeat,
    /// The end of the work.
    Shutdown,
    /// Model parameters.
    Parameters,
}

impl MessageType {
    /// The byte that stands for a type.
    pub open spec fn spec_code(self) -> u8 {
        match self {
            MessageType::GradientChunk => 0,
            MessageType::Barrier => 1,
            MessageType::Heartbeat => 2,
            MessageType::Shutdown => 3,
            MessageType::Parameters => 4,
        }
    }

    /// The byte that stands for a type.
    pub fn code(self) -> (r: u8)
        ensures
            r == self.spec_code(),
    {
        match self {
            MessageType::GradientChunk => 0,
            MessageType::Barrier => 1,
            MessageType::Heartbeat => 2,
            MessageType::Shutdown => 3,
            MessageType::Parameters => 4,
        }
    }
}

/// A message between workers.
#[derive(Debug, Clone)]
pub struct Message {
    pub msg_type: MessageType,
    pub payload: Vec<u8>,
}

/// The bytes of a message: its type, the length of the payload in four bytes, the payload.
pub open spec fn encoded(t: MessageType, payload: Seq<u8>) -> Seq<u8> {
    seq![t.spec_code()] + bytes::le_bytes((payload.len() % 0x1_0000_0000) as nat, 4) + payload
}

/// The type and the payload that bytes start with, if they hold a whole message.
pub open spec fn decoded(data: Seq<u8>) -> Option<(MessageType, Seq<u8>)> {
    if data.len() < 5 {
        None
    } else {
        let len = bytes::le_value(data.subrange(1, 5));
        let kind = if data[0] == 0 {
            Some(MessageType::GradientChunk)
        } else if data[0] == 1 {
            Some(MessageType::Barrier)
        } else if data[0] == 2 {
            Some(MessageType::Heartbeat)
        } else if data[0] == 3 {
            Some(MessageType::Shutdown)
        } else if data[0] == 4 {
            Some(MessageType::Parameters)
        } else {
            None
        };
        match kind {
            Some(t) => if data.len() < 5 + len {
                None
            } else {
                Some((t, data.subrange(5, 5 + len as int)))
            },
            None => None,
        }
    }
}

impl Message {
    /// A message with numbers.
    pub fn gradient_chunk<W: Word>(data: &[W]) -> (r: Self)
        ensures
            r.msg_type == MessageType::GradientChunk,
            r.payload@ == bytes::word_bytes(data@),
    {
        let mut payload: Vec<u8> = Vec::new();
        push_words(&mut payload, data);
        assert(payload@ =~= bytes::word_bytes(data@));
        Message { msg_type: MessageType::GradientChunk, payload }
    }

    /// A barrier.
    pub fn barrier() -> (r: Self)
        ensures
            r.msg_type == MessageType::Barrier,
            r.payload@ == Seq::<u8>::empty(),
    {
        Message { msg_type: MessageType::Barrier, payload: Vec::new() }
    }

    /// The bytes of the message.
    pub fn serialize(&self) -> (r: Vec<u8>)
        ensures
            r@ == encoded(self.msg_type, self.payload@),
    {
        let mut buf: Vec<u8> = Vec::new();
        buf.push(self.msg_type.code());
        push_le(&mut buf, self.payload.len() as u64 % 0x1_0000_0000, 4);
        push_all(&mut buf, &self.payload);
        assert(buf@ =~= encoded(self.msg_type, self.payload@));
        buf
    }

    /// The message that bytes start with, if they hold a whole one.
    pub fn deserialize(data: &[u8]) -> (r: Option<Self>)
        ensures
            r is Some <==> decoded(data@) is Some,
            r matches Some(m) ==> decoded(data@) == Some((m.msg_type, m.payload@)),
    {
        if data.len() < 5 {
            return None;
        }
        let msg_type = match data[0] {
            0 => MessageType::GradientChunk,
            1 => MessageType::Barrier,
            2 => MessageType::Heartbeat,
            3 => MessageType::Shutdown,
            4 => MessageType::Parameters,
            _ => {
                return None;
            },
        };
        let len: u64 = read_le(data, 1, 4);
        if ((data.len() - 5) as u64) < len {
            return None;
        }
        let payload = bytes_between(data, 5, 5 + len as usize);
        Some(Message { msg_type, payload })
    }

    /// The numbers in the payload.
    pub fn as_floats<W: Word>(&self) -> (r: Vec<W>)
        ensures
            r@ == bytes::words_in::<W>(self.payload@),
    {
        read_words(&self.payload)
    }
}

/// How many payload bytes follow a header of five bytes.
pub fn payload_len(header: &[u8]) -> (r: usize)
    requires
        header@.len() == 5,
        bytes::le_value(header@.subrange(1, 5)) <= usize::MAX,
    ensures
        r == bytes::le_value(header@.subrange(1, 5)),
{
    read_le(header, 1, 4) as usize
}

/// The message of a header and the payload that was read after it.
pub fn received(header: &[u8], payload: &[u8]) -> (r: Option<Message>)
    requires
        header@.len() == 5,
        payload@.len() == bytes::le_value(header@.subrange(1, 5)),
    ensures
        r is Some <==> header@[0] <= 4,
        r matches Some(m) ==> m.payload@ == payload@ && m.msg_type.spec_code() == header@[0],
{
    let mut full: Vec<u8> = Vec::new();
    push_all(&mut full, header);
    push_all(&mut full, payload);
    proof {
        assert(full@.subrange(1, 5) =~= header@.subrange(1, 5));
        assert(full@.subrange(5, 5 + payload@.len() as int) =~= payload@);
    }
    Message::deserialize(&full)
}

/// Reading the bytes of a message gives back the message, whatever follows them.
pub proof fn lemma_message_round_trip(t: MessageType, payload: Seq<u8>, more: Seq<u8>)
    requires
        payload.len() < 0x1_0000_0000,
    ensures
        decoded(encoded(t, payload) + more) == Some((t, payload)),
{
    let data = encoded(t, payload) + more;
    let len = payload.len();
    assert(len % 0x1_0000_0000 == len) by {
        vstd::arithmetic::div_mod::lemma_small_mod(len, 0x1_0000_0000);
    }
    bytes::lemma_le_len(len, 4);
    bytes::lemma_range(4);
    bytes::lemma_le_round_trip(len, 4);
    assert(data.subrange(1, 5) =~= bytes::le_bytes(len, 4));
    assert(data.subrange(5, 5 + len as int) =~= payload);
    assert(data[0] == t.spec_code());
}

/// A message that was cut short is not read.
pub proof fn lemma_truncated_is_refused(t: MessageType, payload: Seq<u8>, cut: int)
    requires
        payload.len() < 0x1_0000_0000,
        0 <= cut < encoded(t, payload).len(),
    ensures
        decoded(encoded(t, payload).take(cut)) is None,
{
    let len = payload.len();
    assert(len % 0x1_0000_0000 == len) by {
        vstd::arithmetic::div_mod::lemma_small_mod(len, 0x1_0000_0000);
    }
    bytes::lemma_le_len(len, 4);
    bytes::lemma_range(4);
    bytes::lemma_le_round_trip(len, 4);
    if cut >= 5 {
        assert(encoded(t, payload).take(cut).subrange(1, 5) =~= bytes::le_bytes(len, 4));
    }
}

/// Numbers that were sent as a chunk are received as they were.
pub proof fn lemma_chunk_round_trip<W: Word>(data: Seq<W>)
    ensures
        bytes::words_in::<W>(bytes::word_bytes(data)) == data,
{
    bytes::lemma_words_round_trip(data);
}

// ---- Workers

/// A worker.
#[derive(Debug, Clone)]
pub struct DistributedWorker<S> {
    pub config: DistributedConfig<S>,
}

impl<S: Real> DistributedWorker<S> {
    /// A worker without connections.
    pub fn standalone(rank: usize, world_size: usize) -> (r: Self)
        ensures
            r.config == (DistributedConfig::<S> {
                rank,
                world_size,
                scale_lr: true,
                grad_clip: S::spec_zero(),
            }),
    {
        DistributedWorker { config: DistributedConfig::new(rank, world_size) }
    }

    /// The part of a training step between the backward pass and the optimizer: the gradients
    /// are averaged over the workers and, if there is a limit, clipped. Returns the loss per
    /// input element, where the loss is the first element of the loss tensor, or zero.
    pub fn train_step(
        &self,
        params: &mut Vec<Tensor<S>>,
        loss: &[S],
        input_len: usize,
        other_worker_grads: &[Vec<S>],
    ) -> (r: S)
        requires
            optim::params_wf(old(params)@),
            self.config.world_size > 1 ==> self.config.rank < usize::MAX && forall|k: int|
                0 <= k < other_worker_grads@.len() && k != self.config.rank ==> (
                #[trigger] other_worker_grads@[k])@.len() == total_len(old(params)@),
        ensures
            exists|mid: Seq<Tensor<S>>|
                {
                    &&& #[trigger] synced(
                        self.config,
                        old(params)@,
                        mid,
                        other_worker_grads@,
                    )
                    &&& if S::spec_zero().spec_below(self.config.grad_clip) {
                        clipped(mid, final(params)@, self.config.grad_clip)
                    } else {
                        final(params)@ == mid
                    }
                },
            r == (if loss@.len() > 0 {
                loss@[0]
            } else {
                S::spec_zero()
            }).spec_over(S::spec_count(input_len)),
    {
        sync_gradients(params, self.config.world_size, other_worker_grads, self.config.rank);
        let ghost mid = params@;
        assert(synced(self.config, old(params)@, mid, other_worker_grads@));
        if S::zero().below(self.config.grad_clip) {
            clip_gradients(params, self.config.grad_clip);
        }
        let first = if loss.len() > 0 {
            loss[0]
        } else {
            S::zero()
        };
        first.over(S::count(input_len))
    }
}

/// The gradients after the exchange between workers.
pub open spec fn synced<S: Real>(
    config: DistributedConfig<S>,
    old: Seq<Tensor<S>>,
    new: Seq<Tensor<S>>,
    others: Seq<Vec<S>>,
) -> bool {
    if config.world_size <= 1 {
        new == old
    } else {
        unflattened(
            old,
            new,
            pool_average(others, flattened(old), config.rank as int, config.world_size),
            old.len() as int,
        )
    }
}

/// The address under which other workers reach this machine.
pub fn get_local_ip() -> (r: String)
    ensures
        r@ == "127.0.0.1"@,
{
    text::owned("127.0.0.1")
}

/// The right neighbour's address, unless there is none.
pub fn has_neighbour(addr: &str) -> (r: bool)
    ensures
        r == (addr@.len() > 0 && addr@ != "none"@),
{
    let v = text::chars_of(addr);
    v.len() > 0 && !text::is_text(&v, "none")
}

} // verus!
