//! The engine: segment accumulator and output queue of both channels, moved
//! on one sample at a time.
//!
//! Each detected crossing moves the active segment on. When the division
//! count is reached the segments are interlaced into the output queue, the
//! queue is trimmed to the latency cap and filling starts over at the first
//! segment. Whatever was detected, the incoming sample joins the active
//! segment and the oldest queued sample goes out.

use std::collections::VecDeque;
use rand_xoshiro::Xoshiro256Plus;
use vstd::prelude::*;
use crate::braid::{interlaced, lemma_interlaced_conserves, lemma_interlaced_single, total};
use crate::detector::{crosses, detect, detects, Sign};
use crate::interlacer::{interlace, segments};
use crate::noise::{draw, seeded, NOISE_SEED};
use crate::params::{division_count, segment_count, SEGMENTS};
use crate::queue::{front_or, pop_front_or, rest, trim_front, trimmed};

verus! {

/// The state of an engine as mathematics. The left segments are filled from
/// the right input and feed the left output, and the other way round.
pub struct EngineView<T> {
    pub left: Seq<Seq<T>>,
    pub right: Seq<Seq<T>>,
    pub out_left: Seq<T>,
    pub out_right: Seq<T>,
    pub active: nat,
    pub silence: T,
}

/// The left samples of a run of frames.
pub open spec fn left_samples<T>(frames: Seq<(T, T)>) -> Seq<T> {
    Seq::new(frames.len(), |k: int| frames[k].0)
}

/// The right samples of a run of frames.
pub open spec fn right_samples<T>(frames: Seq<(T, T)>) -> Seq<T> {
    Seq::new(frames.len(), |k: int| frames[k].1)
}

/// The buffers with the first `count` of them emptied.
pub open spec fn emptied<T>(bufs: Seq<Seq<T>>, count: nat) -> Seq<Seq<T>> {
    Seq::new(
        bufs.len(),
        |i: int|
            if i < count {
                Seq::empty()
            } else {
                bufs[i]
            },
    )
}

impl<T> EngineView<T> {
    /// An engine that has seen no sample yet.
    pub open spec fn fresh(silence: T) -> Self {
        EngineView {
            left: Seq::new(SEGMENTS as nat, |i: int| Seq::empty()),
            right: Seq::new(SEGMENTS as nat, |i: int| Seq::empty()),
            out_left: Seq::empty(),
            out_right: Seq::empty(),
            active: 0,
            silence,
        }
    }

    /// What holds of every engine: twelve segments a channel, the active one
    /// among them, and both channels in step.
    pub open spec fn wf(self) -> bool {
        &&& self.left.len() == SEGMENTS
        &&& self.right.len() == SEGMENTS
        &&& self.active < SEGMENTS
        &&& forall|i: int|
            0 <= i < SEGMENTS ==> (#[trigger] self.left[i]).len() == self.right[i].len()
        &&& self.out_left.len() == self.out_right.len()
    }

    /// The flush: the first `count` segments of each channel go interlaced
    /// to the back of that channel's queue, the queue keeps its newest
    /// `cap` samples, and the first segment becomes the active one.
    pub open spec fn flush(self, count: nat, cap: nat) -> Self {
        EngineView {
            left: emptied(self.left, count),
            right: emptied(self.right, count),
            out_left: trimmed(self.out_left + interlaced(self.left.take(count as int)), cap),
            out_right: trimmed(self.out_right + interlaced(self.right.take(count as int)), cap),
            active: 0,
            silence: self.silence,
        }
    }

    /// Takes note of what the detector decided: a crossing moves the active
    /// segment on, and flushes where that reaches the division count.
    pub open spec fn note(self, detected: bool, division: nat, cap: nat) -> Self {
        if !detected {
            self
        } else if self.active + 1 >= segment_count(division) {
            self.flush(segment_count(division), cap)
        } else {
            EngineView { active: self.active + 1, ..self }
        }
    }

    /// Appends one input frame to the active segments, channels crossed.
    pub open spec fn append(self, left_in: T, right_in: T) -> Self {
        EngineView {
            left: self.left.update(self.active as int, self.left[self.active as int].push(right_in)),
            right: self.right.update(
                self.active as int,
                self.right[self.active as int].push(left_in),
            ),
            ..self
        }
    }

    /// The frame that goes out next: the oldest queued sample of each
    /// channel, or silence.
    pub open spec fn output(self) -> (T, T) {
        (front_or(self.out_left, self.silence), front_or(self.out_right, self.silence))
    }

    /// The engine once that frame is out.
    pub open spec fn emit(self) -> Self {
        EngineView { out_left: rest(self.out_left), out_right: rest(self.out_right), ..self }
    }

    /// One whole step, given what the detector decided.
    pub open spec fn step(
        self,
        detected: bool,
        division: nat,
        cap: nat,
        left_in: T,
        right_in: T,
    ) -> Self {
        self.note(detected, division, cap).append(left_in, right_in).emit()
    }

    /// The frame that the step hands out.
    pub open spec fn step_output(
        self,
        detected: bool,
        division: nat,
        cap: nat,
        left_in: T,
        right_in: T,
    ) -> (T, T) {
        self.note(detected, division, cap).append(left_in, right_in).output()
    }

    /// The engine after a run of input frames, left sample first, in none of
    /// which a crossing was detected.
    pub open spec fn quiet_run(self, division: nat, cap: nat, frames: Seq<(T, T)>) -> Self
        decreases frames.len(),
    {
        if frames.len() == 0 {
            self
        } else {
            self.quiet_run(division, cap, frames.drop_last()).step(
                false,
                division,
                cap,
                frames.last().0,
                frames.last().1,
            )
        }
    }
}

/// The engine of one effect instance.
pub struct Engine<T> {
    left: Vec<VecDeque<T>>,
    right: Vec<VecDeque<T>>,
    out_left: VecDeque<T>,
    out_right: VecDeque<T>,
    active: usize,
    silence: T,
    noise: Xoshiro256Plus,
}

impl<T> View for Engine<T> {
    type V = EngineView<T>;

    closed spec fn view(&self) -> EngineView<T> {
        EngineView {
            left: segments(self.left@, self.left.len() as nat),
            right: segments(self.right@, self.right.len() as nat),
            out_left: self.out_left@,
            out_right: self.out_right@,
            active: self.active as nat,
            silence: self.silence,
        }
    }
}

/// Buffers of equal lengths hold equally many samples.
proof fn lemma_total_same<T>(a: Seq<Seq<T>>, b: Seq<Seq<T>>, count: nat)
    requires
        count <= a.len(),
        count <= b.len(),
        forall|i: int| 0 <= i < count ==> (#[trigger] a[i]).len() == b[i].len(),
    ensures
        total(a, count) == total(b, count),
    decreases count,
{
    if count > 0 {
        lemma_total_same(a, b, (count - 1) as nat);
    }
}

/// A step keeps an engine well formed.
pub proof fn lemma_step_wf<T>(
    v: EngineView<T>,
    detected: bool,
    division: nat,
    cap: nat,
    left_in: T,
    right_in: T,
)
    requires
        v.wf(),
    ensures
        v.step(detected, division, cap, left_in, right_in).wf(),
{
    let count = segment_count(division);
    let a = v.left.take(count as int);
    let b = v.right.take(count as int);
    assert forall|i: int| 0 <= i < count implies (#[trigger] a[i]).len() == b[i].len() by {
        assert(v.left[i].len() == v.right[i].len());
    }
    lemma_total_same(a, b, count);
    lemma_interlaced_conserves(a);
    lemma_interlaced_conserves(b);
    let noted = v.note(detected, division, cap);
    assert(noted.wf()) by {
        assert forall|i: int| 0 <= i < SEGMENTS implies (#[trigger] noted.left[i]).len()
            == noted.right[i].len() by {
            assert(v.left[i].len() == v.right[i].len());
        }
    }
    let appended = noted.append(left_in, right_in);
    assert(appended.wf()) by {
        assert forall|i: int| 0 <= i < SEGMENTS implies (#[trigger] appended.left[i]).len()
            == appended.right[i].len() by {
            assert(noted.left[i].len() == noted.right[i].len());
        }
    }
}

impl<T: Copy> Engine<T> {
    /// An engine with empty segments and an empty queue, which hands out
    /// `silence` while nothing is queued.
    pub fn new(silence: T) -> (engine: Self)
        ensures
            engine@ == EngineView::fresh(silence),
            engine@.wf(),
    {
        let mut left: Vec<VecDeque<T>> = Vec::new();
        let mut right: Vec<VecDeque<T>> = Vec::new();
        let mut i: usize = 0;
        while i < SEGMENTS
            invariant
                i <= SEGMENTS,
                left.len() == i,
                right.len() == i,
                forall|j: int| 0 <= j < i ==> (#[trigger] left[j])@ == Seq::<T>::empty(),
                forall|j: int| 0 <= j < i ==> (#[trigger] right[j])@ == Seq::<T>::empty(),
            decreases SEGMENTS - i,
        {
            left.push(VecDeque::with_capacity(1100));
            right.push(VecDeque::with_capacity(1100));
            i += 1;
        }
        let engine = Engine {
            left,
            right,
            out_left: VecDeque::with_capacity(1100),
            out_right: VecDeque::with_capacity(1100),
            active: 0,
            silence,
            noise: seeded(NOISE_SEED),
        };
        proof {
            assert(engine@.left =~= EngineView::fresh(silence).left);
            assert(engine@.right =~= EngineView::fresh(silence).right);
        }
        engine
    }

    /// Moves the engine on by one sample, given what the detector decided:
    /// takes note of the decision, appends the incoming frame to the active
    /// segments and hands out the next frame of the queue.
    pub fn advance(
        &mut self,
        detected: bool,
        division: usize,
        cap: usize,
        left_in: T,
        right_in: T,
    ) -> (out: (T, T))
        requires
            old(self)@.wf(),
        ensures
            final(self)@ == old(self)@.step(detected, division as nat, cap as nat, left_in, right_in),
            out == old(self)@.step_output(
                detected,
                division as nat,
                cap as nat,
                left_in,
                right_in,
            ),
            final(self)@.wf(),
    {
        proof {
            lemma_step_wf(old(self)@, detected, division as nat, cap as nat, left_in, right_in);
        }
        let count = division_count(division);
        if detected {
            if self.active + 1 >= count {
                interlace(&mut self.left, count, &mut self.out_left);
                interlace(&mut self.right, count, &mut self.out_right);
                trim_front(&mut self.out_left, cap);
                trim_front(&mut self.out_right, cap);
                self.active = 0;
                proof {
                    assert(segments(old(self).left@, count as nat) =~= old(self)@.left.take(
                        count as int,
                    ));
                    assert(segments(old(self).right@, count as nat) =~= old(self)@.right.take(
                        count as int,
                    ));
                    assert(self@.left =~~= emptied(old(self)@.left, count as nat));
                    assert(self@.right =~~= emptied(old(self)@.right, count as nat));
                }
            } else {
                self.active += 1;
            }
        }
        assert(self@ == old(self)@.note(detected, division as nat, cap as nat));
        let ghost noted = self@;
        let at = self.active;
        self.left[at].push_back(right_in);
        self.right[at].push_back(left_in);
        proof {
            assert(self@.left =~= noted.append(left_in, right_in).left);
            assert(self@.right =~= noted.append(left_in, right_in).right);
        }
        let left_out = pop_front_or(&mut self.out_left, self.silence);
        let right_out = pop_front_or(&mut self.out_right, self.silence);
        (left_out, right_out)
    }

    /// Hands out the next 64 bits of the engine's noise source. Segments,
    /// queue and active index stay as they are.
    pub fn next_draw(&mut self) -> (bits: u64)
        ensures
            final(self)@ == old(self)@,
    {
        draw(&mut self.noise)
    }

    /// Moves the engine on by one sample, given the sign of the sensing
    /// value and the sign of the biased previous one. A fresh draw of the
    /// noise source decides whether a crossing is suppressed; the engine
    /// then advances on what was decided. Where the signs do not cross, or the
    /// threshold is zero, the draw decides nothing.
    pub fn process(
        &mut self,
        now: Sign,
        reference: Sign,
        threshold: u64,
        division: usize,
        cap: usize,
        left_in: T,
        right_in: T,
    ) -> (out: (T, T))
        requires
            old(self)@.wf(),
        ensures
            exists|bits: u64|
                {
                    &&& final(self)@ == old(self)@.step(
                        #[trigger] detects(now, reference, bits, threshold),
                        division as nat,
                        cap as nat,
                        left_in,
                        right_in,
                    )
                    &&& out == old(self)@.step_output(
                        detects(now, reference, bits, threshold),
                        division as nat,
                        cap as nat,
                        left_in,
                        right_in,
                    )
                },
            !crosses(now, reference) || threshold == 0 ==> {
                &&& final(self)@ == old(self)@.step(
                    crosses(now, reference),
                    division as nat,
                    cap as nat,
                    left_in,
                    right_in,
                )
                &&& out == old(self)@.step_output(
                    crosses(now, reference),
                    division as nat,
                    cap as nat,
                    left_in,
                    right_in,
                )
            },
            final(self)@.wf(),
    {
        let bits = self.next_draw();
        let detected = detect(now, reference, bits, threshold);
        let out = self.advance(detected, division, cap, left_in, right_in);
        proof {
            assert(detected == detects(now, reference, bits, threshold));
        }
        out
    }

    /// The index of the segment that is being filled.
    pub fn active(&self) -> (index: usize)
        ensures
            index == self@.active,
    {
        self.active
    }

    /// The number of frames that wait in the output queue.
    pub fn queued(&self) -> (frames: usize)
        requires
            self@.wf(),
        ensures
            frames == self@.out_left.len(),
            frames == self@.out_right.len(),
    {
        self.out_left.len()
    }

    /// The number of frames in the segment at `index`.
    pub fn segment_len(&self, index: usize) -> (frames: usize)
        requires
            self@.wf(),
            index < SEGMENTS,
        ensures
            frames == self@.left[index as int].len(),
            frames == self@.right[index as int].len(),
    {
        proof {
            assert(self@.left[index as int].len() == self@.right[index as int].len());
        }
        self.left[index].len()
    }
}

/// After a flush neither queue holds more than the latency cap.
pub proof fn lemma_flush_capped<T>(v: EngineView<T>, count: nat, cap: nat)
    ensures
        v.flush(count, cap).out_left.len() <= cap,
        v.flush(count, cap).out_right.len() <= cap,
{
}

/// A step that flushes leaves no more than the latency cap in the queues,
/// and a step of any kind keeps queues within the cap that were within it.
pub proof fn lemma_queue_capped<T>(
    v: EngineView<T>,
    detected: bool,
    division: nat,
    cap: nat,
    left_in: T,
    right_in: T,
)
    ensures
        ({
            let next = v.step(detected, division, cap, left_in, right_in);
            &&& (detected && v.active + 1 >= segment_count(division)) ==> next.out_left.len() <= cap
                && next.out_right.len() <= cap
            &&& v.out_left.len() <= cap ==> next.out_left.len() <= cap
            &&& v.out_right.len() <= cap ==> next.out_right.len() <= cap
        }),
{
    lemma_flush_capped(v, segment_count(division), cap);
}

/// The active index counts the crossings since the last flush: a crossing
/// short of the division count moves it on by one, a crossing that reaches
/// the count sets it back to zero, and nothing else changes it.
pub proof fn lemma_active_index<T>(
    v: EngineView<T>,
    detected: bool,
    division: nat,
    cap: nat,
    left_in: T,
    right_in: T,
)
    ensures
        ({
            let next = v.step(detected, division, cap, left_in, right_in);
            &&& !detected ==> next.active == v.active
            &&& detected && v.active + 1 < segment_count(division) ==> next.active == v.active + 1
            &&& detected && v.active + 1 >= segment_count(division) ==> next.active == 0
        }),
{
}

/// Whatever the index does, the incoming frame ends up at the back of the
/// segments that are active after the step, channels crossed.
pub proof fn lemma_frame_joins_active<T>(
    v: EngineView<T>,
    detected: bool,
    division: nat,
    cap: nat,
    left_in: T,
    right_in: T,
)
    requires
        v.wf(),
    ensures
        ({
            let next = v.step(detected, division, cap, left_in, right_in);
            &&& next.left[next.active as int].len() > 0
            &&& next.left[next.active as int].last() == right_in
            &&& next.right[next.active as int].len() > 0
            &&& next.right[next.active as int].last() == left_in
        }),
{
    lemma_step_wf(v, detected, division, cap, left_in, right_in);
    let noted = v.note(detected, division, cap);
    assert(noted.active < SEGMENTS);
}

/// Without a crossing nothing is flushed: the incoming frame joins the
/// active segments, channels crossed, and an empty queue stays empty and
/// gives silence.
pub proof fn lemma_quiet_step<T>(v: EngineView<T>, division: nat, cap: nat, left_in: T, right_in: T)
    requires
        v.wf(),
    ensures
        ({
            let next = v.step(false, division, cap, left_in, right_in);
            let at = v.active as int;
            &&& next.left == v.left.update(at, v.left[at].push(right_in))
            &&& next.right == v.right.update(at, v.right[at].push(left_in))
            &&& v.out_left.len() == 0 ==> next.out_left.len() == 0 && v.step_output(
                false,
                division,
                cap,
                left_in,
                right_in,
            ) == (v.silence, v.silence)
        }),
{
}

/// A run without a crossing, on an engine whose queue is empty, gives
/// silence frame after frame: the queue stays empty, the active index stays
/// where it was, and the active segments take up every frame, channels
/// crossed.
pub proof fn lemma_quiet_run<T>(v: EngineView<T>, division: nat, cap: nat, frames: Seq<(T, T)>)
    requires
        v.wf(),
        v.out_left.len() == 0,
    ensures
        ({
            let end = v.quiet_run(division, cap, frames);
            let at = v.active as int;
            &&& end.wf()
            &&& end.out_left.len() == 0
            &&& end.out_right.len() == 0
            &&& end.active == v.active
            &&& end.silence == v.silence
            &&& end.left == v.left.update(at, v.left[at] + right_samples(frames))
            &&& end.right == v.right.update(at, v.right[at] + left_samples(frames))
            &&& frames.len() > 0 ==> v.quiet_run(division, cap, frames.drop_last()).step_output(
                false,
                division,
                cap,
                frames.last().0,
                frames.last().1,
            ) == (v.silence, v.silence)
        }),
    decreases frames.len(),
{
    let at = v.active as int;
    if frames.len() == 0 {
        assert(v.left[at] + right_samples(frames) =~= v.left[at]);
        assert(v.right[at] + left_samples(frames) =~= v.right[at]);
        assert(v.left.update(at, v.left[at]) =~= v.left);
        assert(v.right.update(at, v.right[at]) =~= v.right);
    } else {
        let before = frames.drop_last();
        let mid = v.quiet_run(division, cap, before);
        lemma_quiet_run(v, division, cap, before);
        lemma_step_wf(mid, false, division, cap, frames.last().0, frames.last().1);
        lemma_quiet_step(mid, division, cap, frames.last().0, frames.last().1);
        assert(right_samples(before).push(frames.last().1) =~= right_samples(frames));
        assert(left_samples(before).push(frames.last().0) =~= left_samples(frames));
        let end = v.quiet_run(division, cap, frames);
        assert(end.left =~= v.left.update(at, v.left[at] + right_samples(frames)));
        assert(end.right =~= v.right.update(at, v.right[at] + left_samples(frames)));
    }
}

/// With a division count of one, a crossing flushes the first segment as it
/// stands: its samples go to the back of the queue in their order, and the
/// queue keeps its newest `cap` samples.
pub proof fn lemma_single_flush<T>(v: EngineView<T>, cap: nat)
    requires
        v.wf(),
    ensures
        v.flush(1, cap).out_left == trimmed(v.out_left + v.left[0], cap),
        v.flush(1, cap).out_right == trimmed(v.out_right + v.right[0], cap),
{
    assert(v.left.take(1) =~= seq![v.left[0]]);
    assert(v.right.take(1) =~= seq![v.right[0]]);
    lemma_interlaced_single(v.left[0]);
    lemma_interlaced_single(v.right[0]);
}

} // verus!
