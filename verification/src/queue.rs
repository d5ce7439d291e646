//! The output queue: a FIFO of samples awaiting emission.

use std::collections::VecDeque;
use vstd::prelude::*;

verus! {

/// What `trim_front` leaves of a queue: its last `cap` samples, or all of
/// them where there are no more than `cap`.
pub open spec fn trimmed<T>(queue: Seq<T>, cap: nat) -> Seq<T> {
    if queue.len() <= cap {
        queue
    } else {
        queue.subrange(queue.len() - cap, queue.len() as int)
    }
}

/// The sample that leaves a queue next: its oldest, or `silence` where it
/// holds none.
pub open spec fn front_or<T>(queue: Seq<T>, silence: T) -> T {
    if queue.len() == 0 {
        silence
    } else {
        queue[0]
    }
}

/// The queue once that sample has left: an empty queue stays as it is.
pub open spec fn rest<T>(queue: Seq<T>) -> Seq<T> {
    if queue.len() == 0 {
        queue
    } else {
        queue.drop_first()
    }
}

/// The queue after `pops` samples have left it.
pub open spec fn drained<T>(queue: Seq<T>, pops: nat) -> Seq<T>
    decreases pops,
{
    if pops == 0 {
        queue
    } else {
        rest(drained(queue, (pops - 1) as nat))
    }
}

/// However often an empty queue is popped, it stays empty and gives
/// silence.
pub proof fn lemma_empty_drain<T>(queue: Seq<T>, silence: T, pops: nat)
    requires
        queue.len() == 0,
    ensures
        drained(queue, pops) == queue,
        front_or(drained(queue, pops), silence) == silence,
    decreases pops,
{
    if pops > 0 {
        lemma_empty_drain(queue, silence, (pops - 1) as nat);
    }
}

/// Popping takes the oldest samples first: after `pops` pops a queue has
/// lost its first `pops` samples, or all of them where it held fewer.
pub proof fn lemma_drained<T>(queue: Seq<T>, pops: nat)
    ensures
        drained(queue, pops) == if pops <= queue.len() {
            queue.skip(pops as int)
        } else {
            Seq::empty()
        },
    decreases pops,
{
    if pops > 0 {
        lemma_drained(queue, (pops - 1) as nat);
        if pops <= queue.len() {
            assert(queue.skip(pops - 1).drop_first() =~= queue.skip(pops as int));
        } else {
            assert(rest(drained(queue, (pops - 1) as nat)) =~= Seq::<T>::empty());
        }
    } else {
        assert(queue.skip(0) =~= queue);
    }
}

/// Takes the oldest sample from the queue, or hands back `silence` when the
/// queue is empty; an empty queue stays empty.
pub fn pop_front_or<T>(queue: &mut VecDeque<T>, silence: T) -> (sample: T)
    ensures
        sample == front_or(old(queue)@, silence),
        final(queue)@ == rest(old(queue)@),
{
    match queue.pop_front() {
        Some(front) => front,
        None => silence,
    }
}

/// Drops samples from the front of the queue until no more than `cap` are
/// left.
pub fn trim_front<T>(queue: &mut VecDeque<T>, cap: usize)
    ensures
        final(queue)@ == trimmed(old(queue)@, cap as nat),
{
    while queue.len() > cap
        invariant
            queue@.len() <= old(queue)@.len(),
            queue@.len() >= cap || queue@.len() == old(queue)@.len(),
            queue@ == old(queue)@.subrange(old(queue)@.len() - queue@.len(), old(queue)@.len() as int),
        decreases queue@.len(),
    {
        let _ = queue.pop_front();
    }
    assert(queue@ =~= trimmed(old(queue)@, cap as nat));
}

/// Moves `count` samples from the front of `from` to the back of `into`, in
/// order; where `from` holds fewer, it moves them all and reports that it
/// ran dry.
pub fn move_front<T>(from: &mut VecDeque<T>, count: usize, into: &mut VecDeque<T>) -> (complete: bool)
    ensures
        complete == (count <= old(from)@.len()),
        complete ==> final(into)@ == old(into)@ + old(from)@.take(count as int),
        complete ==> final(from)@ == old(from)@.skip(count as int),
        !complete ==> final(into)@ == old(into)@ + old(from)@,
        !complete ==> final(from)@.len() == 0,
{
    let mut moved: usize = 0;
    while moved < count
        invariant
            moved <= count,
            moved <= old(from)@.len(),
            from@ == old(from)@.skip(moved as int),
            into@ == old(into)@ + old(from)@.take(moved as int),
        decreases count - moved,
    {
        match from.pop_front() {
            Some(front) => {
                into.push_back(front);
            },
            None => {
                assert(old(from)@.take(moved as int) =~= old(from)@);
                return false;
            },
        }
        moved += 1;
        assert(from@ =~= old(from)@.skip(moved as int));
        assert(into@ =~= old(into)@ + old(from)@.take(moved as int));
    }
    true
}

} // verus!
