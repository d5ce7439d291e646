//! The interlaced order as mathematics: which sample of which buffer stands
//! where in the result.
//!
//! A buffer's proportion is the exact fraction of its length over the head
//! buffer's, so after `r` rounds a buffer of `len` samples has given
//! `r * len / head` of them, rounded down, and after `head` rounds all.

use vstd::prelude::*;
use vstd::arithmetic::div_mod::{lemma_fundamental_div_mod, lemma_fundamental_div_mod_converse};
use vstd::seq_lib::lemma_multiset_commutative;

verus! {

/// The first `count` buffers laid end to end.
pub open spec fn joined<T>(bufs: Seq<Seq<T>>, count: nat) -> Seq<T>
    decreases count,
{
    if count == 0 {
        Seq::empty()
    } else {
        joined(bufs, (count - 1) as nat) + bufs[count - 1]
    }
}

/// How many samples a buffer of `len` samples has given up once `rounds`
/// samples of a head buffer of `head` samples are out: `rounds` times the
/// ratio of the two lengths, rounded down.
pub open spec fn share(len: nat, head: nat, rounds: nat) -> nat {
    if head == 0 {
        0
    } else {
        (rounds * len) / head
    }
}

/// What buffer `i` gives to round `r`: the samples between its share before
/// the round and its share after.
pub open spec fn portion<T>(bufs: Seq<Seq<T>>, i: int, r: nat) -> Seq<T> {
    bufs[i].subrange(
        share(bufs[i].len(), bufs[0].len(), r) as int,
        share(bufs[i].len(), bufs[0].len(), r + 1) as int,
    )
}

/// Round `r` as far as the first `count` buffers make it up: one sample of
/// the head buffer, then each other buffer's portion, in index order.
pub open spec fn round<T>(bufs: Seq<Seq<T>>, r: nat, count: nat) -> Seq<T>
    decreases count,
{
    if count == 0 {
        Seq::empty()
    } else {
        round(bufs, r, (count - 1) as nat) + portion(bufs, count - 1, r)
    }
}

/// The first `rounds` rounds, one after the other.
pub open spec fn braid<T>(bufs: Seq<Seq<T>>, rounds: nat) -> Seq<T>
    decreases rounds,
{
    if rounds == 0 {
        Seq::empty()
    } else {
        braid(bufs, (rounds - 1) as nat) + round(bufs, (rounds - 1) as nat, bufs.len())
    }
}

/// The interlaced sequence of a set of buffers: one round for each sample of
/// the head buffer. With an empty head buffer no ratio exists and the
/// buffers follow one another unbraided.
pub open spec fn interlaced<T>(bufs: Seq<Seq<T>>) -> Seq<T> {
    if bufs.len() == 0 {
        Seq::empty()
    } else if bufs[0].len() == 0 {
        joined(bufs, bufs.len())
    } else {
        braid(bufs, bufs[0].len())
    }
}

/// The number of samples in the first `count` buffers.
pub open spec fn total<T>(bufs: Seq<Seq<T>>, count: nat) -> nat
    decreases count,
{
    if count == 0 {
        0
    } else {
        total(bufs, (count - 1) as nat) + bufs[count - 1].len()
    }
}

/// What each buffer has given once `rounds` rounds are out.
pub open spec fn given<T>(bufs: Seq<Seq<T>>, rounds: nat) -> Seq<Seq<T>> {
    Seq::new(
        bufs.len(),
        |i: int| bufs[i].take(share(bufs[i].len(), bufs[0].len(), rounds) as int),
    )
}

/// Before the first round no buffer has given anything.
pub proof fn lemma_share_start(len: nat, head: nat)
    ensures
        share(len, head, 0) == 0,
{
    if head > 0 {
        assert(0 * len == 0) by (nonlinear_arith);
        lemma_fundamental_div_mod_converse(0, head as int, 0, 0);
    }
}

/// The head buffer gives one sample to each round.
pub proof fn lemma_share_head(head: nat, rounds: nat)
    requires
        head > 0,
    ensures
        share(head, head, rounds) == rounds,
{
    lemma_fundamental_div_mod_converse((rounds * head) as int, head as int, rounds as int, 0);
}

/// After as many rounds as the head buffer has samples, every buffer has
/// given all of its own.
pub proof fn lemma_share_full(len: nat, head: nat)
    requires
        head > 0,
    ensures
        share(len, head, head) == len,
{
    assert(head * len == len * head) by (nonlinear_arith);
    lemma_fundamental_div_mod_converse((head * len) as int, head as int, len as int, 0);
}

/// A buffer's share is level with the head's: it is the largest count whose
/// proportion of the buffer does not exceed the proportion of the head that
/// is out.
pub proof fn lemma_share_proportional(len: nat, head: nat, rounds: nat)
    requires
        head > 0,
    ensures
        share(len, head, rounds) * head <= rounds * len < (share(len, head, rounds) + 1) * head,
{
    let x = (rounds * len) as int;
    let d = head as int;
    lemma_fundamental_div_mod(x, d);
    assert(d * (x / d) == (x / d) * d) by (nonlinear_arith);
    assert((x / d + 1) * d == (x / d) * d + d) by (nonlinear_arith);
}

/// One more round moves a buffer's share on by the whole part of the ratio,
/// and by one sample more whenever the fractional parts carry.
pub proof fn lemma_share_next(len: nat, head: nat, rounds: nat)
    requires
        head > 0,
    ensures
        ({
            let carried = (rounds * len) % head + len % head;
            if carried >= head {
                &&& share(len, head, rounds + 1) == share(len, head, rounds) + len / head + 1
                &&& ((rounds + 1) * len) % head == carried - head
            } else {
                &&& share(len, head, rounds + 1) == share(len, head, rounds) + len / head
                &&& ((rounds + 1) * len) % head == carried
            }
        }),
{
    let x = (rounds * len) as int;
    let d = head as int;
    let c = x / d;
    let a = x % d;
    let q = len as int / d;
    let m = len as int % d;
    lemma_fundamental_div_mod(x, d);
    lemma_fundamental_div_mod(len as int, d);
    let y = ((rounds + 1) * len) as int;
    assert(y == x + len) by (nonlinear_arith)
        requires
            x == rounds * len,
            y == (rounds + 1) * len,
    ;
    if a + m >= d {
        assert(y == (c + q + 1) * d + (a + m - d)) by (nonlinear_arith)
            requires
                y == x + len,
                x == d * c + a,
                len == d * q + m,
        ;
        lemma_fundamental_div_mod_converse(y, d, c + q + 1, a + m - d);
    } else {
        assert(y == (c + q) * d + (a + m)) by (nonlinear_arith)
            requires
                y == x + len,
                x == d * c + a,
                len == d * q + m,
        ;
        lemma_fundamental_div_mod_converse(y, d, c + q, a + m);
    }
}

/// A buffer's share never shrinks from one round to the next, and never
/// exceeds the buffer while rounds remain.
pub proof fn lemma_share_bounds(len: nat, head: nat, rounds: nat)
    requires
        head > 0,
        rounds < head,
    ensures
        share(len, head, rounds) <= share(len, head, rounds + 1) <= len,
{
    lemma_share_next(len, head, rounds);
    let d = head as int;
    let y = ((rounds + 1) * len) as int;
    lemma_fundamental_div_mod(y, d);
    let c = y / d;
    assert(c <= len) by (nonlinear_arith)
        requires
            y == d * c + y % d,
            0 <= y % d,
            y == (rounds + 1) * len,
            rounds + 1 <= d,
            0 < d,
            0 <= len,
    ;
}

/// Buffers that are all empty join to nothing.
pub proof fn lemma_joined_empty<T>(bufs: Seq<Seq<T>>, count: nat)
    requires
        count <= bufs.len(),
        forall|i: int| 0 <= i < count ==> (#[trigger] bufs[i]).len() == 0,
    ensures
        joined(bufs, count) =~= Seq::<T>::empty(),
    decreases count,
{
    if count > 0 {
        lemma_joined_empty(bufs, (count - 1) as nat);
    }
}

/// Buffers laid end to end hold as many samples as they hold one by one.
pub proof fn lemma_joined_len<T>(bufs: Seq<Seq<T>>, count: nat)
    ensures
        joined(bufs, count).len() == total(bufs, count),
    decreases count,
{
    if count > 0 {
        lemma_joined_len(bufs, (count - 1) as nat);
    }
}

/// A round holds exactly what the buffers give between its start and its
/// end.
proof fn lemma_round_gives<T>(bufs: Seq<Seq<T>>, r: nat, count: nat)
    requires
        0 < bufs.len(),
        count <= bufs.len(),
        r < bufs[0].len(),
    ensures
        joined(given(bufs, r + 1), count).to_multiset() =~= joined(
            given(bufs, r),
            count,
        ).to_multiset().add(round(bufs, r, count).to_multiset()),
    decreases count,
{
    if count > 0 {
        let i = count - 1;
        let head = bufs[0].len();
        let before = share(bufs[i].len(), head, r) as int;
        let after = share(bufs[i].len(), head, r + 1) as int;
        lemma_round_gives(bufs, r, (count - 1) as nat);
        lemma_share_bounds(bufs[i].len(), head, r);
        assert(bufs[i].take(after) =~= bufs[i].take(before) + portion(bufs, i, r));
        lemma_multiset_commutative(bufs[i].take(before), portion(bufs, i, r));
        lemma_multiset_commutative(joined(given(bufs, r + 1), i as nat), given(bufs, r + 1)[i]);
        lemma_multiset_commutative(joined(given(bufs, r), i as nat), given(bufs, r)[i]);
        lemma_multiset_commutative(round(bufs, r, i as nat), portion(bufs, i, r));
    } else {
        Seq::<T>::empty().to_multiset_ensures();
    }
}

/// The first rounds hold exactly each buffer's share: as many of its first
/// samples as are level with the head, and nothing else.
pub proof fn lemma_braid_gives<T>(bufs: Seq<Seq<T>>, rounds: nat)
    requires
        bufs.len() > 0,
        rounds <= bufs[0].len(),
    ensures
        braid(bufs, rounds).to_multiset() =~= joined(given(bufs, rounds), bufs.len()).to_multiset(),
    decreases rounds,
{
    if rounds == 0 {
        assert forall|i: int| 0 <= i < bufs.len() implies (#[trigger] given(bufs, 0)[i]).len()
            == 0 by {
            lemma_share_start(bufs[i].len(), bufs[0].len());
        }
        lemma_joined_empty(given(bufs, 0), bufs.len());
    } else {
        let r = (rounds - 1) as nat;
        lemma_braid_gives(bufs, r);
        lemma_round_gives(bufs, r, bufs.len());
        lemma_multiset_commutative(braid(bufs, r), round(bufs, r, bufs.len()));
    }
}

/// Laying buffers end to end looks at their contents only.
proof fn lemma_joined_same<T>(a: Seq<Seq<T>>, b: Seq<Seq<T>>, count: nat)
    requires
        count <= a.len(),
        count <= b.len(),
        forall|i: int| 0 <= i < count ==> a[i] == b[i],
    ensures
        joined(a, count) == joined(b, count),
    decreases count,
{
    if count > 0 {
        lemma_joined_same(a, b, (count - 1) as nat);
    }
}

/// Interlacing neither makes nor loses a sample: the result holds each
/// sample as often as the buffers together do, and so is as long as the
/// buffers are together.
pub proof fn lemma_interlaced_conserves<T>(bufs: Seq<Seq<T>>)
    ensures
        interlaced(bufs).to_multiset() == joined(bufs, bufs.len()).to_multiset(),
        interlaced(bufs).len() == total(bufs, bufs.len()),
{
    lemma_joined_len(bufs, bufs.len());
    if bufs.len() > 0 && bufs[0].len() > 0 {
        let head = bufs[0].len();
        lemma_braid_gives(bufs, head);
        assert forall|i: int| 0 <= i < bufs.len() implies given(bufs, head)[i] == bufs[i] by {
            lemma_share_full(bufs[i].len(), head);
            assert(bufs[i].take(bufs[i].len() as int) =~= bufs[i]);
        }
        lemma_joined_same(given(bufs, head), bufs, bufs.len());
        interlaced(bufs).to_multiset_ensures();
        joined(bufs, bufs.len()).to_multiset_ensures();
    }
}

/// With one buffer the rounds hand its samples out one by one, in order.
proof fn lemma_braid_single<T>(buf: Seq<T>, rounds: nat)
    requires
        rounds <= buf.len(),
    ensures
        braid(seq![buf], rounds) =~= buf.take(rounds as int),
    decreases rounds,
{
    if rounds > 0 {
        let r = (rounds - 1) as nat;
        let bufs = seq![buf];
        lemma_braid_single(buf, r);
        lemma_share_head(buf.len(), r);
        lemma_share_head(buf.len(), rounds);
        assert(round(bufs, r, 1) =~= round(bufs, r, 0) + portion(bufs, 0, r));
        assert(portion(bufs, 0, r) =~= seq![buf[r as int]]);
    }
}

/// A single buffer interlaces to itself: the same samples in the same
/// order.
pub proof fn lemma_interlaced_single<T>(buf: Seq<T>)
    ensures
        interlaced(seq![buf]) == buf,
{
    let bufs = seq![buf];
    if buf.len() == 0 {
        assert(joined(bufs, 1) =~= joined(bufs, 0) + bufs[0]);
        assert(interlaced(bufs) =~= buf);
    } else {
        lemma_braid_single(buf, buf.len());
        assert(buf.take(buf.len() as int) =~= buf);
    }
}

} // verus!
