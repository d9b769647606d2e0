use vstd::prelude::*;

use crate::DispatchError;

verus! {

/// The extraction/reinsertion protocol: a container can hand out exclusive
/// ownership of one element, addressed by an extraction index, and later
/// accept a processed payload back at a reinsertion index.  The two index
/// kinds may differ in shape.  Each implementation describes its own
/// behaviour through the relational spec functions below, and proves the
/// protocol laws.
pub trait TakePutBack<IndexInto1, IndexInto2>: Sized {
    type ItemType;

    type PutType;

    /// What a caller can observe of a container state; the identity laws
    /// promise restoration up to this relation.
    spec fn obs_eq(&self, other: &Self) -> bool;

    /// Extraction at `i` currently succeeds.
    spec fn valid_take(&self, i: IndexInto1) -> bool;

    /// Reinsertion of `v` at `i` currently succeeds.
    spec fn valid_put(&self, i: IndexInto2, v: Self::PutType) -> bool;

    /// Reinsertion target `i` refers to a place that exists, whatever the
    /// payload.  Failing this is the index invalidity the dispatcher
    /// screens out before extracting anything of a chunk.
    spec fn valid_put_idx(&self, i: IndexInto2) -> bool;

    /// The error a failing reinsertion reports.
    spec fn put_err(&self, i: IndexInto2, v: Self::PutType) -> DispatchError;

    /// How a successful extraction relates the old state to the new state
    /// and the extracted item.
    spec fn take_post(&self, i: IndexInto1, post: &Self, item: &Self::ItemType) -> bool;

    /// How a successful reinsertion relates the old state to the new state.
    spec fn put_post(&self, i: IndexInto2, v: Self::PutType, post: &Self) -> bool;

    /// `(i1, i2)` is a self-correspondence pair of this state: reinserting
    /// through `i2` what the do-nothing processing makes of the item taken
    /// at `i1` restores the state.
    spec fn pair_ok(&self, i1: IndexInto1, i2: IndexInto2) -> bool;

    /// The do-nothing processing: how a reinsertion payload wraps an
    /// extracted item without changing what it stands for.
    spec fn nothing_rel(x: Self::ItemType, y: Self::PutType) -> bool;

    /// What the canonical correspondence list looks like.
    spec fn all_idces_post(&self, pairs: Seq<(IndexInto1, IndexInto2)>) -> bool;

    /// Whether extraction at `index_into` would succeed right now.
    fn can_take(&self, index_into: &IndexInto1) -> (r: bool)
        ensures
            r == self.valid_take(*index_into),
    ;

    /// Whether `index_into` refers to an existing reinsertion target.
    fn can_put(&self, index_into: &IndexInto2) -> (r: bool)
        ensures
            r == self.valid_put_idx(*index_into),
    ;

    /// Remove and return the element at `index_into`, leaving a neutral
    /// placeholder in its place.
    fn take(&mut self, index_into: &IndexInto1) -> (r: Result<Self::ItemType, DispatchError>)
        ensures
            r is Ok <==> old(self).valid_take(*index_into),
            r is Ok ==> old(self).take_post(*index_into, final(self), &r->Ok_0),
            r is Err ==> *final(self) == *old(self) && r->Err_0 == DispatchError::IndexNotFound,
    ;

    /// Write `reinsert` at `index_into`.  On failure the container is left
    /// unchanged.
    fn put_back(&mut self, index_into: &IndexInto2, reinsert: Self::PutType) -> (r: Result<
        (),
        DispatchError,
    >)
        ensures
            r is Ok <==> old(self).valid_put(*index_into, reinsert),
            r is Ok ==> old(self).put_post(*index_into, reinsert, final(self)),
            r is Err ==> *final(self) == *old(self) && r->Err_0 == old(self).put_err(
                *index_into,
                reinsert,
            ),
    ;

    /// The canonical default correspondence: typically every element,
    /// paired with itself.
    fn all_idces_inout(&self) -> (r: Vec<(IndexInto1, IndexInto2)>)
        ensures
            self.all_idces_post(r@),
    ;

    /// The do-nothing processing function: wraps an extracted item into the
    /// payload that reinserts it unchanged.
    fn do_nothing_process(item: Self::ItemType) -> (r: Self::PutType)
        ensures
            Self::nothing_rel(item, r),
    ;

    /// Protocol law: an extraction never invalidates another extraction
    /// index.  The dispatcher relies on this to validate a whole chunk
    /// before extracting any of it.
    proof fn law_take_preserves_valid(
        &self,
        i: IndexInto1,
        post: &Self,
        item: &Self::ItemType,
        j: IndexInto1,
    )
        requires
            self.take_post(i, post, item),
            self.valid_take(j),
        ensures
            post.valid_take(j),
    ;

    /// Protocol law: a reinsertion can only succeed at an existing target,
    /// and a missing target is reported as a missing index.
    proof fn law_put_target(&self, i: IndexInto2, v: Self::PutType)
        ensures
            self.valid_put(i, v) ==> self.valid_put_idx(i),
            !self.valid_put_idx(i) ==> self.put_err(i, v) == DispatchError::IndexNotFound,
    ;

    /// Protocol law: after extracting through the first index of a
    /// correspondence pair, the do-nothing payload is accepted back
    /// through the second.
    proof fn law_nothing_valid(
        &self,
        i1: IndexInto1,
        i2: IndexInto2,
        mid: &Self,
        item: &Self::ItemType,
        y: Self::PutType,
    )
        requires
            self.pair_ok(i1, i2),
            self.take_post(i1, mid, item),
            Self::nothing_rel(*item, y),
        ensures
            mid.valid_put(i2, y),
    ;

    /// Protocol law: take, wrap through the do-nothing processing, put
    /// back through the corresponding index, and the container is
    /// observably what it was.
    proof fn law_nothing_restores(
        &self,
        i1: IndexInto1,
        i2: IndexInto2,
        mid: &Self,
        item: &Self::ItemType,
        y: Self::PutType,
        post: &Self,
    )
        requires
            self.pair_ok(i1, i2),
            self.take_post(i1, mid, item),
            Self::nothing_rel(*item, y),
            mid.put_post(i2, y, post),
        ensures
            post.obs_eq(self),
    ;
}

/// The extraction phase of one chunk: the items were removed one after the
/// other, each step related to the last by `take_post`.
pub open spec fn takes_rel<I1, I2, C: TakePutBack<I1, I2>>(
    s0: C,
    pairs: Seq<(I1, I2)>,
    s1: C,
    items: Seq<C::ItemType>,
) -> bool
    decreases pairs.len(),
{
    if pairs.len() == 0 {
        &&& s1 == s0
        &&& items.len() == 0
    } else {
        &&& items.len() == pairs.len()
        &&& s0.valid_take(pairs[0].0)
        &&& exists|mid: C|
            #[trigger] s0.take_post(pairs[0].0, &mid, &items[0]) && takes_rel(
                mid,
                pairs.drop_first(),
                s1,
                items.drop_first(),
            )
    }
}

/// A processor that can only hand its input back.
pub open spec fn identity_fn<M, F: Fn(M) -> M>(f: F) -> bool {
    forall|x: M, y: M| #[trigger] call_ensures(f, (x,), y) ==> y == x
}

/// The processing phase: every result is a possible output of the
/// processor on the matching item.
pub open spec fn results_rel<It, Pt, F: Fn(It) -> Pt>(
    f: F,
    items: Seq<It>,
    results: Seq<Pt>,
) -> bool {
    &&& results.len() == items.len()
    &&& forall|k: int|
        0 <= k < items.len() ==> #[trigger] call_ensures(f, (items[k],), results[k])
}

/// The reinsertion phase of one chunk: payloads go back in submission
/// order; the first failing reinsertion stops the run, leaving the state
/// it found.
pub open spec fn puts_run<I1, I2, C: TakePutBack<I1, I2>>(
    s0: C,
    pairs: Seq<(I1, I2)>,
    results: Seq<C::PutType>,
    s1: C,
    r: Result<(), DispatchError>,
) -> bool
    decreases pairs.len(),
{
    if pairs.len() == 0 {
        &&& s1 == s0
        &&& r is Ok
    } else {
        &&& results.len() == pairs.len()
        &&& if s0.valid_put(pairs[0].1, results[0]) {
            exists|mid: C|
                #[trigger] s0.put_post(pairs[0].1, results[0], &mid) && puts_run(
                    mid,
                    pairs.drop_first(),
                    results.drop_first(),
                    s1,
                    r,
                )
        } else {
            &&& s1 == s0
            &&& r == Result::<(), DispatchError>::Err(s0.put_err(pairs[0].1, results[0]))
        }
    }
}

/// One chunk of the dispatch.  Every extraction index and every
/// reinsertion target is validated against the chunk's starting state
/// before anything is extracted; an invalid one fails the chunk with no
/// mutation.  Otherwise all items come out, are processed, and the
/// results go back in.
pub open spec fn chunk_rel<I1, I2, C: TakePutBack<I1, I2>, F: Fn(C::ItemType) -> C::PutType>(
    s0: C,
    pairs: Seq<(I1, I2)>,
    f: F,
    s1: C,
    r: Result<(), DispatchError>,
) -> bool {
    if exists|k: int|
        #![trigger pairs[k]]
        0 <= k < pairs.len() && (!s0.valid_take(pairs[k].0) || !s0.valid_put_idx(pairs[k].1)) {
        &&& s1 == s0
        &&& r == Result::<(), DispatchError>::Err(DispatchError::IndexNotFound)
    } else {
        exists|mid: C, items: Seq<C::ItemType>, results: Seq<C::PutType>|
            #![trigger takes_rel(s0, pairs, mid, items), results_rel(f, items, results)]
            {
                &&& takes_rel(s0, pairs, mid, items)
                &&& results_rel(f, items, results)
                &&& puts_run(mid, pairs, results, s1, r)
            }
    }
}

/// Consecutive chunks of size at most `p`, preserving input order.
pub open spec fn chunks_of<T>(pairs: Seq<T>, p: nat) -> Seq<Seq<T>>
    decreases pairs.len(),
    when p >= 1
{
    if pairs.len() == 0 {
        Seq::empty()
    } else if pairs.len() <= p {
        seq![pairs]
    } else {
        seq![pairs.take(p as int)] + chunks_of(pairs.skip(p as int), p)
    }
}

/// The whole dispatch over a sequence of chunks: strictly one chunk after
/// another, each beginning only from the state the previous one fully
/// produced, and stopping at the first chunk that fails.
pub open spec fn dispatch_chunks_rel<
    I1,
    I2,
    C: TakePutBack<I1, I2>,
    F: Fn(C::ItemType) -> C::PutType,
>(
    s0: C,
    chunks: Seq<Seq<(I1, I2)>>,
    f: F,
    s1: C,
    r: Result<(), DispatchError>,
) -> bool
    decreases chunks.len(),
{
    if chunks.len() == 0 {
        &&& s1 == s0
        &&& r is Ok
    } else {
        exists|mid: C, r1: Result<(), DispatchError>|
            #![trigger chunk_rel(s0, chunks[0], f, mid, r1)]
            {
                &&& chunk_rel(s0, chunks[0], f, mid, r1)
                &&& if r1 is Err {
                    s1 == mid && r == r1
                } else {
                    dispatch_chunks_rel(mid, chunks.drop_first(), f, s1, r)
                }
            }
    }
}

/// The full dispatch relation: the work items were cut into chunks of at
/// most `p` and dispatched chunk by chunk.
pub open spec fn dispatch_rel<I1, I2, C: TakePutBack<I1, I2>, F: Fn(C::ItemType) -> C::PutType>(
    s0: C,
    pairs: Seq<(I1, I2)>,
    f: F,
    p: nat,
    s1: C,
    r: Result<(), DispatchError>,
) -> bool {
    &&& p >= 1
    &&& dispatch_chunks_rel(s0, chunks_of(pairs, p), f, s1, r)
}

/// Bounded concurrency: no chunk holds more work items than the
/// parallelism bound, so at most `p` tasks are ever live at once.
pub proof fn lemma_chunks_bounded<T>(pairs: Seq<T>, p: nat)
    requires
        p >= 1,
    ensures
        forall|k: int|
            0 <= k < chunks_of(pairs, p).len() ==> #[trigger] chunks_of(pairs, p)[k].len() <= p,
    decreases pairs.len(),
{
    if pairs.len() == 0 {
    } else if pairs.len() <= p {
        assert(chunks_of(pairs, p) == seq![pairs]);
    } else {
        lemma_chunks_bounded(pairs.skip(p as int), p);
        let whole = chunks_of(pairs, p);
        assert forall|k: int| 0 <= k < whole.len() implies #[trigger] whole[k].len() <= p by {
            if k == 0 {
                assert(whole[0] == pairs.take(p as int));
            } else {
                assert(whole[k] == chunks_of(pairs.skip(p as int), p)[k - 1]);
            }
        }
    }
}

/// No work item is lost or reordered by chunking: the chunks flatten back
/// to the input.
pub proof fn lemma_chunks_flatten<T>(pairs: Seq<T>, p: nat)
    requires
        p >= 1,
    ensures
        chunks_of(pairs, p).flatten() == pairs,
    decreases pairs.len(),
{
    if pairs.len() == 0 {
        assert(chunks_of(pairs, p) == Seq::<Seq<T>>::empty());
        assert(chunks_of(pairs, p).flatten() =~= pairs);
    } else if pairs.len() <= p {
        assert(chunks_of(pairs, p) == seq![pairs]);
        assert(seq![pairs].drop_first() =~= Seq::<Seq<T>>::empty());
        assert(seq![pairs].flatten() == pairs + Seq::<Seq<T>>::empty().flatten());
        assert(chunks_of(pairs, p).flatten() =~= pairs);
    } else {
        lemma_chunks_flatten(pairs.skip(p as int), p);
        assert(chunks_of(pairs, p) =~= seq![pairs.take(p as int)] + chunks_of(
            pairs.skip(p as int),
            p,
        ));
        assert(chunks_of(pairs, p).flatten() =~= pairs.take(p as int) + chunks_of(
            pairs.skip(p as int),
            p,
        ).flatten()) by {
            assert((seq![pairs.take(p as int)] + chunks_of(pairs.skip(p as int), p)).drop_first()
                =~= chunks_of(pairs.skip(p as int), p));
        }
        assert(pairs.take(p as int) + pairs.skip(p as int) =~= pairs);
    }
}

/// Chunk barrier: a successful dispatch over `front + back` passes through
/// a state where every chunk of `front` is fully applied before any chunk
/// of `back` begins.
pub proof fn lemma_chunk_barrier<I1, I2, C: TakePutBack<I1, I2>, F: Fn(C::ItemType) -> C::PutType>(
    s0: C,
    front: Seq<Seq<(I1, I2)>>,
    back: Seq<Seq<(I1, I2)>>,
    f: F,
    s1: C,
)
    requires
        dispatch_chunks_rel(s0, front + back, f, s1, Result::<(), DispatchError>::Ok(())),
    ensures
        exists|mid: C|
            #![trigger dispatch_chunks_rel(s0, front, f, mid, Result::<(), DispatchError>::Ok(()))]
            {
                &&& dispatch_chunks_rel(s0, front, f, mid, Result::<(), DispatchError>::Ok(()))
                &&& dispatch_chunks_rel(mid, back, f, s1, Result::<(), DispatchError>::Ok(()))
            },
    decreases front.len(),
{
    if front.len() == 0 {
        assert(front + back =~= back);
        assert(dispatch_chunks_rel(s0, front, f, s0, Result::<(), DispatchError>::Ok(())));
    } else {
        let whole = front + back;
        let (mid0, r1) = choose|mid0: C, r1: Result<(), DispatchError>|
            #![trigger chunk_rel(s0, whole[0], f, mid0, r1)]
            {
                &&& chunk_rel(s0, whole[0], f, mid0, r1)
                &&& if r1 is Err {
                    s1 == mid0 && Result::<(), DispatchError>::Ok(()) == r1
                } else {
                    dispatch_chunks_rel(
                        mid0,
                        whole.drop_first(),
                        f,
                        s1,
                        Result::<(), DispatchError>::Ok(()),
                    )
                }
            };
        assert(whole[0] == front[0]);
        assert(chunk_rel(s0, front[0], f, mid0, r1));
        assert(r1 is Ok);
        assert(whole.drop_first() =~= front.drop_first() + back);
        lemma_chunk_barrier(mid0, front.drop_first(), back, f, s1);
        let mid = choose|mid: C|
            #![trigger dispatch_chunks_rel(mid0, front.drop_first(), f, mid, Result::<(), DispatchError>::Ok(()))]
            {
                &&& dispatch_chunks_rel(
                    mid0,
                    front.drop_first(),
                    f,
                    mid,
                    Result::<(), DispatchError>::Ok(()),
                )
                &&& dispatch_chunks_rel(mid, back, f, s1, Result::<(), DispatchError>::Ok(()))
            };
        assert(whole[0] == front[0]);
        assert(dispatch_chunks_rel(s0, front, f, mid, Result::<(), DispatchError>::Ok(())));
    }
}

/// The chunk barrier, at the dispatcher's interface: a successful
/// dispatch passes, for every chunk count `n`, through a state where the
/// first `n` chunks are fully applied before the rest begin.
pub proof fn lemma_dispatch_barrier<I1, I2, C: TakePutBack<I1, I2>, F: Fn(C::ItemType) -> C::PutType>(
    s0: C,
    pairs: Seq<(I1, I2)>,
    f: F,
    p: nat,
    s1: C,
    n: int,
)
    requires
        dispatch_rel(s0, pairs, f, p, s1, Result::<(), DispatchError>::Ok(())),
        0 <= n <= chunks_of(pairs, p).len(),
    ensures
        exists|mid: C|
            #![trigger dispatch_chunks_rel(s0, chunks_of(pairs, p).take(n), f, mid, Result::<(), DispatchError>::Ok(()))]
            {
                &&& dispatch_chunks_rel(
                    s0,
                    chunks_of(pairs, p).take(n),
                    f,
                    mid,
                    Result::<(), DispatchError>::Ok(()),
                )
                &&& dispatch_chunks_rel(
                    mid,
                    chunks_of(pairs, p).skip(n),
                    f,
                    s1,
                    Result::<(), DispatchError>::Ok(()),
                )
            },
{
    let chunks = chunks_of(pairs, p);
    assert(chunks.take(n) + chunks.skip(n) =~= chunks);
    lemma_chunk_barrier(s0, chunks.take(n), chunks.skip(n), f, s1);
}

proof fn lemma_takes_rel_snoc<I1, I2, C: TakePutBack<I1, I2>>(
    s0: C,
    pairs: Seq<(I1, I2)>,
    s1: C,
    items: Seq<C::ItemType>,
    p: (I1, I2),
    s2: C,
    item: C::ItemType,
)
    requires
        takes_rel(s0, pairs, s1, items),
        s1.valid_take(p.0),
        s1.take_post(p.0, &s2, &item),
    ensures
        takes_rel(s0, pairs.push(p), s2, items.push(item)),
    decreases pairs.len(),
{
    if pairs.len() == 0 {
        assert(pairs.push(p).drop_first() =~= Seq::<(I1, I2)>::empty());
        assert(items.push(item).drop_first() =~= Seq::<C::ItemType>::empty());
        assert(s0.take_post(pairs.push(p)[0].0, &s2, &items.push(item)[0]) && takes_rel(
            s2,
            pairs.push(p).drop_first(),
            s2,
            items.push(item).drop_first(),
        ));
    } else {
        let mid = choose|mid: C|
            #[trigger] s0.take_post(pairs[0].0, &mid, &items[0]) && takes_rel(
                mid,
                pairs.drop_first(),
                s1,
                items.drop_first(),
            );
        lemma_takes_rel_snoc(mid, pairs.drop_first(), s1, items.drop_first(), p, s2, item);
        assert(pairs.push(p).drop_first() =~= pairs.drop_first().push(p));
        assert(items.push(item).drop_first() =~= items.drop_first().push(item));
        assert(s0.take_post(pairs.push(p)[0].0, &mid, &items.push(item)[0]) && takes_rel(
            mid,
            pairs.push(p).drop_first(),
            s2,
            items.push(item).drop_first(),
        ));
    }
}

proof fn lemma_puts_run_snoc<I1, I2, C: TakePutBack<I1, I2>>(
    s0: C,
    pairs: Seq<(I1, I2)>,
    results: Seq<C::PutType>,
    s1: C,
    p: (I1, I2),
    v: C::PutType,
    s2: C,
)
    requires
        results.len() == pairs.len(),
        puts_run(s0, pairs, results, s1, Result::<(), DispatchError>::Ok(())),
        s1.valid_put(p.1, v),
        s1.put_post(p.1, v, &s2),
    ensures
        puts_run(s0, pairs.push(p), results.push(v), s2, Result::<(), DispatchError>::Ok(())),
    decreases pairs.len(),
{
    if pairs.len() == 0 {
        assert(pairs.push(p).drop_first() =~= Seq::<(I1, I2)>::empty());
        assert(results.push(v).drop_first() =~= Seq::<C::PutType>::empty());
        assert(s0.put_post(pairs.push(p)[0].1, results.push(v)[0], &s2) && puts_run(
            s2,
            pairs.push(p).drop_first(),
            results.push(v).drop_first(),
            s2,
            Result::<(), DispatchError>::Ok(()),
        ));
    } else {
        let mid = choose|mid: C|
            #[trigger] s0.put_post(pairs[0].1, results[0], &mid) && puts_run(
                mid,
                pairs.drop_first(),
                results.drop_first(),
                s1,
                Result::<(), DispatchError>::Ok(()),
            );
        lemma_puts_run_snoc(mid, pairs.drop_first(), results.drop_first(), s1, p, v, s2);
        assert(pairs.push(p).drop_first() =~= pairs.drop_first().push(p));
        assert(results.push(v).drop_first() =~= results.drop_first().push(v));
        assert(s0.put_post(pairs.push(p)[0].1, results.push(v)[0], &mid) && puts_run(
            mid,
            pairs.push(p).drop_first(),
            results.push(v).drop_first(),
            s2,
            Result::<(), DispatchError>::Ok(()),
        ));
    }
}

proof fn lemma_puts_run_stop<I1, I2, C: TakePutBack<I1, I2>>(
    s0: C,
    pairs: Seq<(I1, I2)>,
    results: Seq<C::PutType>,
    s1: C,
    j: int,
)
    requires
        0 <= j < pairs.len(),
        results.len() == pairs.len(),
        puts_run(
            s0,
            pairs.take(j),
            results.take(j),
            s1,
            Result::<(), DispatchError>::Ok(()),
        ),
        !s1.valid_put(pairs[j].1, results[j]),
    ensures
        puts_run(
            s0,
            pairs,
            results,
            s1,
            Result::<(), DispatchError>::Err(s1.put_err(pairs[j].1, results[j])),
        ),
    decreases j,
{
    if j == 0 {
        assert(pairs.take(0) =~= Seq::<(I1, I2)>::empty());
        assert(results.take(0) =~= Seq::<C::PutType>::empty());
    } else {
        let mid = choose|mid: C|
            #[trigger] s0.put_post(pairs.take(j)[0].1, results.take(j)[0], &mid) && puts_run(
                mid,
                pairs.take(j).drop_first(),
                results.take(j).drop_first(),
                s1,
                Result::<(), DispatchError>::Ok(()),
            );
        assert(pairs.take(j).drop_first() =~= pairs.drop_first().take(j - 1));
        assert(results.take(j).drop_first() =~= results.drop_first().take(j - 1));
        assert(pairs.drop_first()[j - 1] == pairs[j]);
        assert(results.drop_first()[j - 1] == results[j]);
        lemma_puts_run_stop(mid, pairs.drop_first(), results.drop_first(), s1, j - 1);
        assert(s0.put_post(pairs[0].1, results[0], &mid));
    }
}

/// Relies on num_cpus::get for the machine's available CPU count; only
/// used as the chunk-size bound, and clamped by the caller.
#[verifier::external_body]
fn detected_parallelism() -> usize {
    num_cpus::get()
}

/// The fallback chunk bound when hardware parallelism cannot be detected.
pub const DEFAULT_PARALLELISM: usize = 4;

/// One chunk of the dispatch: validate every extraction index first, then
/// extract each item, process it, and reinsert the results in submission
/// order.  The whole slice is treated as a single chunk, however long.
#[verifier::loop_isolation(false)]
pub fn process_all_helper<I1, I2, C, F>(
    container: &mut C,
    which_idces: &[(I1, I2)],
    processor: &F,
) -> (r: Result<(), DispatchError>)
    where
        C: TakePutBack<I1, I2>,
        F: Fn(C::ItemType) -> C::PutType,
    requires
        forall|x: C::ItemType| #[trigger] call_requires(*processor, (x,)),
    ensures
        chunk_rel(*old(container), which_idces@, *processor, *final(container), r),
{
    let ghost s0 = *container;
    let ghost pairs = which_idces@;
    let n = which_idces.len();

    // Fail fast: validate every extraction index and reinsertion target
    // of the chunk before extracting anything.
    let mut j: usize = 0;
    while j < n
        invariant
            j <= n,
            n == pairs.len(),
            *container == s0,
            forall|k: int|
                #![trigger pairs[k]]
                0 <= k < j ==> s0.valid_take(pairs[k].0) && s0.valid_put_idx(pairs[k].1),
        decreases n - j,
    {
        if !container.can_take(&which_idces[j].0) || !container.can_put(&which_idces[j].1) {
            assert(!s0.valid_take(pairs[j as int].0) || !s0.valid_put_idx(pairs[j as int].1));
            return Err(DispatchError::IndexNotFound);
        }
        j += 1;
    }
    assert(forall|k: int|
        #![trigger pairs[k]]
        0 <= k < pairs.len() ==> s0.valid_take(pairs[k].0) && s0.valid_put_idx(pairs[k].1));

    // Extraction phase.
    let mut items: Vec<C::ItemType> = Vec::new();
    let mut j: usize = 0;
    while j < n
        invariant
            j <= n,
            n == pairs.len(),
            items@.len() == j,
            takes_rel(s0, pairs.take(j as int), *container, items@),
            forall|k: int| j <= k < n ==> (*container).valid_take(#[trigger] pairs[k].0),
        decreases n - j,
    {
        let ghost pre = *container;
        let item = match container.take(&which_idces[j].0) {
            Ok(it) => it,
            Err(e) => {
                proof {
                    assert(false);
                }
                return Err(e);
            },
        };
        proof {
            lemma_takes_rel_snoc(
                s0,
                pairs.take(j as int),
                pre,
                items@,
                pairs[j as int],
                *container,
                item,
            );
            assert(pairs.take(j as int).push(pairs[j as int]) =~= pairs.take(j + 1 as int));
            assert forall|k: int| j + 1 <= k < n implies (*container).valid_take(
                #[trigger] pairs[k].0,
            ) by {
                pre.law_take_preserves_valid(pairs[j as int].0, container, &item, pairs[k].0);
            }
        }
        items.push(item);
        j += 1;
    }
    let ghost mid = *container;
    let ghost all_items = items@;
    proof {
        assert(pairs.take(n as int) =~= pairs);
    }

    // Processing phase.
    let mut results: Vec<C::PutType> = Vec::new();
    let mut j: usize = 0;
    while j < n
        invariant
            j <= n,
            n == pairs.len(),
            all_items.len() == n,
            items@ == all_items.skip(j as int),
            results@.len() == j,
            forall|x: C::ItemType| #[trigger] call_requires(*processor, (x,)),
            forall|k: int|
                0 <= k < j ==> #[trigger] call_ensures(*processor, (all_items[k],), results@[k]),
        decreases n - j,
    {
        let it = items.remove(0);
        proof {
            assert(it == all_items[j as int]);
            assert(all_items.skip(j as int).drop_first() =~= all_items.skip(j + 1 as int));
        }
        let out = processor(it);
        results.push(out);
        j += 1;
    }
    let ghost all_results = results@;
    proof {
        assert(results_rel(*processor, all_items, all_results));
    }

    // Reinsertion phase, in submission order.
    let mut j: usize = 0;
    while j < n
        invariant
            j <= n,
            n == pairs.len(),
            all_results.len() == n,
            results@ == all_results.skip(j as int),
            takes_rel(s0, pairs, mid, all_items),
            results_rel(*processor, all_items, all_results),
            puts_run(
                mid,
                pairs.take(j as int),
                all_results.take(j as int),
                *container,
                Result::<(), DispatchError>::Ok(()),
            ),
            forall|k: int| 0 <= k < pairs.len() ==> s0.valid_take(#[trigger] pairs[k].0),
        decreases n - j,
    {
        let v = results.remove(0);
        proof {
            assert(v == all_results[j as int]);
            assert(all_results.skip(j as int).drop_first() =~= all_results.skip(j + 1 as int));
        }
        let ghost pre = *container;
        match container.put_back(&which_idces[j].1, v) {
            Ok(_) => {
                proof {
                    lemma_puts_run_snoc(
                        mid,
                        pairs.take(j as int),
                        all_results.take(j as int),
                        pre,
                        pairs[j as int],
                        v,
                        *container,
                    );
                    assert(pairs.take(j as int).push(pairs[j as int]) =~= pairs.take(
                        j + 1 as int,
                    ));
                    assert(all_results.take(j as int).push(v) =~= all_results.take(j + 1 as int));
                }
            },
            Err(e) => {
                proof {
                    lemma_puts_run_stop(mid, pairs, all_results, pre, j as int);
                }
                return Err(e);
            },
        }
        j += 1;
    }
    proof {
        assert(pairs.take(n as int) =~= pairs);
        assert(all_results.take(n as int) =~= all_results);
    }
    Ok(())
}

fn process_all_from<I1, I2, C, F>(
    container: &mut C,
    which_idces: &[(I1, I2)],
    processor: &F,
    p: usize,
) -> (r: Result<(), DispatchError>)
    where
        C: TakePutBack<I1, I2>,
        F: Fn(C::ItemType) -> C::PutType,
    requires
        p >= 1,
        forall|x: C::ItemType| #[trigger] call_requires(*processor, (x,)),
    ensures
        dispatch_chunks_rel(
            *old(container),
            chunks_of(which_idces@, p as nat),
            *processor,
            *final(container),
            r,
        ),
    decreases which_idces@.len(),
{
    let ghost s0 = *container;
    let ghost pairs = which_idces@;
    if which_idces.len() == 0 {
        return Ok(());
    }
    let cut = if which_idces.len() < p {
        which_idces.len()
    } else {
        p
    };
    let (first, rest) = which_idces.split_at(cut);
    proof {
        if pairs.len() <= p as nat {
            assert(first@ =~= pairs);
            assert(chunks_of(pairs, p as nat) == seq![pairs]);
        } else {
            assert(first@ =~= pairs.take(p as int));
            assert(rest@ =~= pairs.skip(p as int));
        }
    }
    let r1 = process_all_helper(container, first, processor);
    let ghost mid = *container;
    match r1 {
        Err(e) => {
            proof {
                assert(chunks_of(pairs, p as nat)[0] == first@);
                assert(chunk_rel(
                    s0,
                    chunks_of(pairs, p as nat)[0],
                    *processor,
                    mid,
                    Result::<(), DispatchError>::Err(e),
                ));
            }
            Err(e)
        },
        Ok(_) => {
            proof {
                assert(chunk_rel(s0, first@, *processor, mid, r1));
                assert(r1 is Ok);
            }
            let r2 = process_all_from(container, rest, processor, p);
            proof {
                assert(chunks_of(pairs, p as nat)[0] == first@);
                if pairs.len() <= p as nat {
                    assert(rest@ =~= Seq::<(I1, I2)>::empty());
                    assert(chunks_of(pairs, p as nat).drop_first() =~= chunks_of(
                        rest@,
                        p as nat,
                    ));
                } else {
                    assert(chunks_of(pairs, p as nat).drop_first() =~= chunks_of(
                        rest@,
                        p as nat,
                    ));
                }
                assert(chunk_rel(s0, chunks_of(pairs, p as nat)[0], *processor, mid, r1));
            }
            r2
        },
    }
}

/// The bounded parallel dispatcher: cut the work items into chunks no
/// larger than the detected hardware parallelism (falling back to
/// `DEFAULT_PARALLELISM`), and run the chunks strictly one after another.
/// Every extraction and reinsertion happens on the calling context.
pub fn process_all<I1, I2, C, F>(container: &mut C, which_idces: &[(I1, I2)], processor: F) -> (r:
    Result<(), DispatchError>)
    where
        C: TakePutBack<I1, I2>,
        F: Fn(C::ItemType) -> C::PutType,
    requires
        forall|x: C::ItemType| #[trigger] call_requires(processor, (x,)),
    ensures
        exists|p: nat|
            #[trigger] dispatch_rel(
                *old(container),
                which_idces@,
                processor,
                p,
                *final(container),
                r,
            ),
        which_idces@.len() == 0 ==> r is Ok && *final(container) == *old(container),
{
    let detected = detected_parallelism();
    let p = if detected == 0 {
        DEFAULT_PARALLELISM
    } else {
        detected
    };
    let r = process_all_from(container, which_idces, &processor, p);
    proof {
        assert(dispatch_rel(
            *old(container),
            which_idces@,
            processor,
            p as nat,
            *final(container),
            r,
        ));
        if which_idces@.len() == 0 {
            assert(chunks_of(which_idces@, p as nat) =~= Seq::<Seq<(I1, I2)>>::empty());
        }
    }
    r
}

} // verus!
