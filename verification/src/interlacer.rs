//! The interlacer: merges a set of segment buffers into one sequence,
//! taking from each in proportion to its length relative to the first.

use std::collections::VecDeque;
use vstd::prelude::*;
use crate::braid::{
    braid, interlaced, joined, lemma_joined_empty, lemma_share_bounds, lemma_share_full,
    lemma_share_head, lemma_share_next, lemma_share_start, portion, round, share,
};
use crate::queue::move_front;

verus! {

/// The contents of the first `num` buffers.
pub open spec fn segments<T>(buffs: Seq<VecDeque<T>>, num: nat) -> Seq<Seq<T>> {
    Seq::new(num, |i: int| buffs[i]@)
}

/// Drains the first `num` buffers of `buffs` into `res`, interlaced: for
/// each sample of the head buffer, in order, that sample and then from each
/// other buffer as many samples as keep it level with the head in proportion
/// to its length. The braid ends when the head buffer is empty; what the
/// buffers still hold then follows in index order, which is everything
/// where the head buffer was empty from the start and nothing otherwise.
/// Buffers past the first `num` are left alone.
pub fn interlace<T>(buffs: &mut Vec<VecDeque<T>>, num: usize, res: &mut VecDeque<T>)
    requires
        1 <= num <= old(buffs).len(),
    ensures
        final(res)@ == old(res)@ + interlaced(segments(old(buffs)@, num as nat)),
        final(buffs).len() == old(buffs).len(),
        forall|i: int| 0 <= i < num ==> (#[trigger] final(buffs)[i])@.len() == 0,
        forall|i: int| num <= i < old(buffs).len() ==> #[trigger] final(buffs)[i] == old(buffs)[i],
{
    let ghost start = segments(buffs@, num as nat);
    let head: usize = buffs[0].len();

    // Each buffer's length over the head's, as a whole number and a
    // remainder, and the remainders carried from round to round.
    let mut whole: Vec<usize> = Vec::new();
    let mut part: Vec<usize> = Vec::new();
    let mut carry: Vec<usize> = Vec::new();
    let mut i: usize = 0;
    while i < num
        invariant
            i <= num <= buffs.len(),
            *buffs == *old(buffs),
            start == segments(old(buffs)@, num as nat),
            head == start[0].len(),
            whole.len() == i,
            part.len() == i,
            carry.len() == i,
            forall|j: int| 0 <= j < i ==> carry[j] == 0,
            head > 0 ==> forall|j: int|
                0 <= j < i ==> whole[j] == start[j].len() / (head as nat) && part[j]
                    == start[j].len() % (head as nat),
        decreases num - i,
    {
        let len: usize = buffs[i].len();
        if head > 0 {
            whole.push(len / head);
            part.push(len % head);
        } else {
            whole.push(0);
            part.push(0);
        }
        carry.push(0);
        i += 1;
    }

    let ghost mut rounds: nat = 0;
    proof {
        assert forall|j: int| 0 <= j < num implies (#[trigger] buffs[j])@ == start[j].skip(
            share(start[j].len(), head as nat, rounds) as int,
        ) by {
            lemma_share_start(start[j].len(), head as nat);
            assert(start[j].skip(0) =~= start[j]);
        }
        assert forall|j: int| 1 <= j < num && head > 0 implies carry[j] == (rounds * start[j].len())
            % (head as nat) by {
            assert(0 * start[j].len() == 0) by (nonlinear_arith);
        }
        assert(res@ =~= old(res)@ + braid(start, rounds));
    }
    loop
        invariant
            1 <= num <= buffs.len(),
            buffs.len() == old(buffs).len(),
            start == segments(old(buffs)@, num as nat),
            head == start[0].len(),
            rounds <= head,
            whole.len() == num,
            part.len() == num,
            carry.len() == num,
            forall|j: int| num <= j < buffs.len() ==> #[trigger] buffs[j] == old(buffs)[j],
            forall|j: int|
                0 <= j < num ==> (#[trigger] buffs[j])@ == start[j].skip(
                    share(start[j].len(), head as nat, rounds) as int,
                ),
            head > 0 ==> forall|j: int|
                1 <= j < num ==> whole[j] == start[j].len() / (head as nat) && part[j]
                    == start[j].len() % (head as nat) && carry[j] == (rounds * start[j].len()) % (
                head as nat),
            res@ == old(res)@ + braid(start, rounds),
        ensures
            1 <= num <= buffs.len(),
            buffs.len() == old(buffs).len(),
            start == segments(old(buffs)@, num as nat),
            head == start[0].len(),
            rounds == head,
            forall|j: int| num <= j < buffs.len() ==> #[trigger] buffs[j] == old(buffs)[j],
            forall|j: int|
                0 <= j < num ==> (#[trigger] buffs[j])@ == start[j].skip(
                    share(start[j].len(), head as nat, rounds) as int,
                ),
            res@ == old(res)@ + braid(start, rounds),
        decreases head - rounds,
    {
        proof {
            if head > 0 {
                lemma_share_head(head as nat, rounds);
            } else {
                lemma_share_start(0, 0);
            }
        }
        match buffs[0].pop_front() {
            Some(front) => {
                res.push_back(front);
            },
            None => {
                break ;
            },
        }
        proof {
            lemma_share_head(head as nat, rounds + 1);
            assert(portion(start, 0, rounds) =~= seq![start[0][rounds as int]]);
            assert(round(start, rounds, 1) =~= round(start, rounds, 0) + portion(start, 0, rounds));
            assert(res@ =~= old(res)@ + braid(start, rounds) + round(start, rounds, 1));
            assert(buffs[0]@ =~= start[0].skip(share(start[0].len(), head as nat, rounds + 1) as int));
        }
        let mut i: usize = 1;
        while i < num
            invariant
                1 <= i <= num <= buffs.len(),
                buffs.len() == old(buffs).len(),
                start == segments(old(buffs)@, num as nat),
                head == start[0].len(),
                rounds < head,
                whole.len() == num,
                part.len() == num,
                carry.len() == num,
                forall|j: int| num <= j < buffs.len() ==> #[trigger] buffs[j] == old(buffs)[j],
                forall|j: int|
                    0 <= j < i ==> (#[trigger] buffs[j])@ == start[j].skip(
                        share(start[j].len(), head as nat, rounds + 1) as int,
                    ),
                forall|j: int|
                    i <= j < num ==> (#[trigger] buffs[j])@ == start[j].skip(
                        share(start[j].len(), head as nat, rounds) as int,
                    ),
                forall|j: int|
                    1 <= j < num ==> whole[j] == start[j].len() / (head as nat) && part[j]
                        == start[j].len() % (head as nat),
                forall|j: int|
                    1 <= j < i ==> carry[j] == ((rounds + 1) * start[j].len()) % (head as nat),
                forall|j: int|
                    i <= j < num ==> carry[j] == (rounds * start[j].len()) % (head as nat),
                res@ == old(res)@ + braid(start, rounds) + round(start, rounds, i as nat),
            decreases num - i,
        {
            let ghost len = start[i as int].len();
            let ghost before = share(len, head as nat, rounds);
            let ghost after = share(len, head as nat, rounds + 1);
            proof {
                lemma_share_next(len, head as nat, rounds);
                lemma_share_bounds(len, head as nat, rounds);
                assert(len == old(buffs)[i as int].len());
            }
            let rest: usize = head - part[i];
            let count: usize = if carry[i] >= rest {
                carry[i] = carry[i] - rest;
                whole[i] + 1
            } else {
                carry[i] = carry[i] + part[i];
                whole[i]
            };
            assert(count == after - before);
            let ghost was = res@;
            // The buffer holds its share of every round up to the head's last.
            let complete = move_front(&mut buffs[i], count, res);
            proof {
                assert(complete);
                assert(start[i as int].skip(before as int).take(count as int) =~= portion(
                    start,
                    i as int,
                    rounds,
                ));
                assert(buffs[i as int]@ =~= start[i as int].skip(after as int));
                assert(res@ =~= old(res)@ + braid(start, rounds) + round(
                    start,
                    rounds,
                    (i + 1) as nat,
                ));
            }
            i += 1;
        }
        proof {
            assert(res@ =~= old(res)@ + braid(start, rounds + 1));
            rounds = rounds + 1;
        }
    }

    let ghost left = segments(buffs@, num as nat);
    let ghost braided = res@;
    let mut i: usize = 0;
    proof {
        assert(res@ =~= braided + joined(left, 0));
    }
    while i < num
        invariant
            i <= num <= buffs.len(),
            buffs.len() == old(buffs).len(),
            left.len() == num,
            forall|j: int| num <= j < buffs.len() ==> #[trigger] buffs[j] == old(buffs)[j],
            forall|j: int| 0 <= j < i ==> (#[trigger] buffs[j])@.len() == 0,
            forall|j: int| i <= j < num ==> (#[trigger] buffs[j])@ == left[j],
            res@ == braided + joined(left, i as nat),
        decreases num - i,
    {
        res.append(&mut buffs[i]);
        proof {
            assert(res@ =~= braided + joined(left, (i + 1) as nat));
        }
        i += 1;
    }
    proof {
        if head == 0 {
            assert(left =~= start) by {
                assert forall|j: int| 0 <= j < num implies left[j] == start[j] by {
                    lemma_share_start(start[j].len(), 0);
                    assert(start[j].skip(0) =~= start[j]);
                }
            }
            assert(braided =~= old(res)@);
        } else {
            assert forall|j: int| 0 <= j < num implies (#[trigger] left[j]).len() == 0 by {
                lemma_share_full(start[j].len(), head as nat);
            }
            lemma_joined_empty(left, num as nat);
            assert(res@ =~= old(res)@ + braid(start, head as nat));
        }
    }
}

} // verus!
