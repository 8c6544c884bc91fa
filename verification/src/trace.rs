//! What a session does from its beginning on, told by what it was told and
//! what it asked for.
//!
//! The laws here look at the events and the actions of a run alone, one sample
//! at a time, and not at what the session keeps.

use vstd::prelude::*;

use crate::layout::{block, lemma_place, lemma_place_of, place};
use crate::queue::{hop_front, joined, silent, uniform};
use crate::session::{hands_on, starts, step, Action, Event, Progress};

verus! {

/// A session from its beginning on. It begins with the first action; after
/// that every event is answered by one action.
pub struct Run<T> {
    /// The number of channels.
    pub n_ch: nat,
    /// The number of frames in a hop.
    pub hop: nat,
    /// The frames per second of the model.
    pub sr: nat,
    /// How many enhanced frames are left out at the start.
    pub skip: nat,
    /// How many frames are to be written.
    pub n_out: nat,
    /// The sample of silence.
    pub zero: T,
    /// The states of the session.
    pub states: Seq<Progress<T>>,
    /// What the session was told.
    pub events: Seq<Event<T>>,
    /// What the session asked for.
    pub actions: Seq<Action<T>>,
}

impl<T> Run<T> {
    /// This is a run of a session that was set up for these sizes.
    pub open spec fn made(self) -> bool {
        &&& self.n_ch > 0
        &&& self.hop > 0
        &&& self.states.len() == self.events.len() + 1
        &&& self.actions.len() == self.states.len()
        &&& starts(
            self.n_ch,
            self.hop,
            self.sr,
            self.skip,
            self.n_out,
            self.zero,
            self.states[0],
            self.actions[0],
        )
        &&& forall|i: int|
            0 <= i < self.events.len() ==> step(
                self.states[i],
                #[trigger] self.events[i],
                self.states[i + 1],
                self.actions[i + 1],
            )
        &&& forall|i: int| 0 <= i < self.states.len() ==> (#[trigger] self.states[i]).valid()
    }

    /// All audio of channel `c` that came for the model in the first `i`
    /// events.
    pub open spec fn came(self, c: int, i: int) -> Seq<T>
        decreases i,
    {
        if i <= 0 {
            Seq::empty()
        } else {
            match self.events[i - 1] {
                Event::ModelInput { b } => self.came(c, i - 1) + b[c],
                _ => self.came(c, i - 1),
            }
        }
    }

    /// The hops that came from the model in the first `i` events.
    pub open spec fn outputs(self, i: int) -> Seq<Seq<T>>
        decreases i,
    {
        if i <= 0 {
            Seq::empty()
        } else {
            match self.events[i - 1] {
                Event::ModelOutput { frame } => self.outputs(i - 1).push(frame),
                _ => self.outputs(i - 1),
            }
        }
    }

    /// All audio of channel `c` that came back in the first `i` events.
    pub open spec fn back(self, c: int, i: int) -> Seq<T>
        decreases i,
    {
        if i <= 0 {
            Seq::empty()
        } else {
            match self.events[i - 1] {
                Event::Resampled { b } => self.back(c, i - 1) + b[c],
                _ => self.back(c, i - 1),
            }
        }
    }

    /// How many frames the last read in the first `i` events gave, where there
    /// was one.
    pub open spec fn last_read(self, i: int) -> Option<usize>
        decreases i,
    {
        if i <= 0 {
            None
        } else {
            match self.events[i - 1] {
                Event::FramesRead { n } => Some(n),
                _ => self.last_read(i - 1),
            }
        }
    }

    /// The last read in the first `i` events gave less than a full block.
    pub open spec fn ended(self, i: int) -> bool {
        self.last_read(i) matches Some(n) && n < 4096
    }

    /// The hops that the model is given in the first `m` actions.
    pub open spec fn asked(self, m: int) -> Seq<Seq<T>>
        decreases m,
    {
        if m <= 0 {
            Seq::empty()
        } else {
            match self.actions[m - 1] {
                Action::Model { frame } => self.asked(m - 1).push(frame@),
                _ => self.asked(m - 1),
            }
        }
    }

    /// All audio of channel `c` that is handed out to be resampled back in the
    /// first `m` actions.
    pub open spec fn handed(self, c: int, m: int) -> Seq<T>
        decreases m,
    {
        if m <= 0 {
            Seq::empty()
        } else {
            match self.actions[m - 1] {
                Action::ResampleOut { block: v, flush } => self.handed(c, m - 1) + v@[c]@,
                _ => self.handed(c, m - 1),
            }
        }
    }

    /// All audio of channel `c` that is to be written in the first `m`
    /// actions.
    pub open spec fn written(self, c: int, m: int) -> Seq<T>
        decreases m,
    {
        if m <= 0 {
            Seq::empty()
        } else {
            match self.actions[m - 1] {
                Action::Write { block: v, frames } => self.written(c, m - 1) + v@[c]@.take(
                    frames as int,
                ),
                Action::Pad { block: v, frames, missing } => self.written(c, m - 1)
                    + v@[c]@.take(frames as int),
                _ => self.written(c, m - 1),
            }
        }
    }

    /// How often the resampler to the rate of the model is to be flushed in
    /// the first `m` actions.
    pub open spec fn flushes_in(self, m: int) -> nat
        decreases m,
    {
        if m <= 0 {
            0
        } else {
            match self.actions[m - 1] {
                Action::ResampleIn { frames, flush: true } => self.flushes_in(m - 1) + 1,
                _ => self.flushes_in(m - 1),
            }
        }
    }

    /// How often the resampler to the rate of the file is to be flushed in
    /// the first `m` actions.
    pub open spec fn flushes_out(self, m: int) -> nat
        decreases m,
    {
        if m <= 0 {
            0
        } else {
            match self.actions[m - 1] {
                Action::ResampleOut { block: v, flush: true } => self.flushes_out(m - 1) + 1,
                _ => self.flushes_out(m - 1),
            }
        }
    }

    /// Whether the last block handed out to be resampled back in the first
    /// `m` actions is the end of the audio.
    pub open spec fn last_flush(self, m: int) -> bool
        decreases m,
    {
        if m <= 0 {
            false
        } else {
            match self.actions[m - 1] {
                Action::ResampleOut { block: v, flush } => flush,
                _ => self.last_flush(m - 1),
            }
        }
    }

    /// How many hops had come from the model when the output was last to be
    /// checkpointed, up to the answer to event `i - 1`.
    pub open spec fn saved(self, i: int) -> nat
        decreases i,
    {
        if i <= 0 {
            0
        } else if self.actions[i] is Checkpoint {
            self.outputs(i).len()
        } else {
            self.saved(i - 1)
        }
    }

    /// What the session keeps agrees with what went in and out.
    spec fn told(self, i: int) -> bool {
        let p = self.states[i];
        let h = self.outputs(i).len();
        let asked = self.asked(i + 1);
        &&& p.n_ch == self.n_ch
        &&& p.hop == self.hop
        &&& p.sr == self.sr
        &&& p.skip == self.skip
        &&& p.n_out == self.n_out
        &&& p.zero == self.zero
        &&& forall|c: int|
            0 <= c < self.n_ch ==> (#[trigger] p.received[c]) == self.came(c, i)
        &&& forall|c: int|
            0 <= c < self.n_ch ==> (#[trigger] p.forwarded[c]) == self.handed(c, i + 1)
        &&& forall|c: int|
            0 <= c < self.n_ch ==> (#[trigger] p.resampled[c]) == self.back(c, i)
        &&& forall|c: int|
            0 <= c < self.n_ch ==> (#[trigger] p.emitted[c]) == self.written(c, i + 1)
        &&& p.eof == self.ended(i)
        &&& forall|j: int|
            0 <= j < h ==> (#[trigger] self.outputs(i)[j]).len() == self.n_ch * self.hop
        &&& p.done() <= h * self.hop
        &&& h > 0 ==> (h - 1) * self.hop < p.done()
        &&& p.done() < h * self.hop ==> p.eof && p.done() == p.total() && !(p.stage is ResampleIn)
        &&& forall|c: int, x: int|
            0 <= c < self.n_ch && 0 <= x < p.done() ==> (#[trigger] p.enhanced[c][x])
                == self.outputs(i)[x / (self.hop as int)][place(
                c,
                x % (self.hop as int),
                self.hop as int,
            )]
        &&& asked.len() == h + if p.stage is Model {
            1int
        } else {
            0int
        }
        &&& forall|j: int|
            0 <= j < asked.len() ==> (#[trigger] asked[j]).len() == self.n_ch * self.hop
        &&& forall|j: int, c: int, t: int|
            0 <= j < asked.len() && 0 <= c < self.n_ch && 0 <= t < self.hop ==> (
            #[trigger] asked[j][place(c, t, self.hop as int)]) == if place(
                j,
                t,
                self.hop as int,
            ) < p.total() {
                p.received[c][place(j, t, self.hop as int)]
            } else {
                self.zero
            }
        &&& asked.len() * self.hop > p.total() ==> p.eof && !(p.stage is ResampleIn)
        &&& p.flushed == self.saved(i) * self.hop
        &&& self.saved(i) <= h
        &&& self.flushes_in(i + 1) == if p.eof {
            1nat
        } else {
            0nat
        }
        &&& self.flushes_out(i + 1) == if p.eof && (p.stage is ResampleOut || p.stage is Write
            || p.stage is Finished) {
            1nat
        } else {
            0nat
        }
        &&& p.eof && (p.stage is ResampleOut || p.stage is Write || p.stage is Finished)
            ==> self.last_flush(i + 1)
    }

    /// As [`Run::told`], between event `i` and the action that answers it: `r`
    /// is what the session keeps when it decides who is next.
    spec fn between(self, i: int, r: Progress<T>) -> bool {
        let h = self.outputs(i + 1).len();
        let asked = self.asked(i + 1);
        &&& r.n_ch == self.n_ch
        &&& r.hop == self.hop
        &&& r.sr == self.sr
        &&& r.skip == self.skip
        &&& r.n_out == self.n_out
        &&& r.zero == self.zero
        &&& uniform(r.received, r.n_ch)
        &&& r.done() <= r.total()
        &&& forall|c: int|
            0 <= c < self.n_ch ==> (#[trigger] r.received[c]) == self.came(c, i + 1)
        &&& forall|c: int|
            0 <= c < self.n_ch ==> (#[trigger] r.forwarded[c]) == self.handed(c, i + 1)
        &&& forall|c: int|
            0 <= c < self.n_ch ==> (#[trigger] r.resampled[c]) == self.back(c, i + 1)
        &&& forall|c: int|
            0 <= c < self.n_ch ==> (#[trigger] r.emitted[c]) == self.written(c, i + 1)
        &&& r.eof == self.ended(i + 1)
        &&& forall|j: int|
            0 <= j < h ==> (#[trigger] self.outputs(i + 1)[j]).len() == self.n_ch * self.hop
        &&& r.done() <= h * self.hop
        &&& h > 0 ==> (h - 1) * self.hop < r.done()
        &&& r.done() < h * self.hop ==> r.eof && r.done() == r.total()
        &&& forall|c: int, x: int|
            0 <= c < self.n_ch && 0 <= x < r.done() ==> (#[trigger] r.enhanced[c][x])
                == self.outputs(i + 1)[x / (self.hop as int)][place(
                c,
                x % (self.hop as int),
                self.hop as int,
            )]
        &&& asked.len() == h
        &&& forall|j: int|
            0 <= j < asked.len() ==> (#[trigger] asked[j]).len() == self.n_ch * self.hop
        &&& forall|j: int, c: int, t: int|
            0 <= j < asked.len() && 0 <= c < self.n_ch && 0 <= t < self.hop ==> (
            #[trigger] asked[j][place(c, t, self.hop as int)]) == if place(
                j,
                t,
                self.hop as int,
            ) < r.total() {
                r.received[c][place(j, t, self.hop as int)]
            } else {
                self.zero
            }
        &&& asked.len() * self.hop > r.total() ==> r.eof
        &&& r.flushed == self.saved(i) * self.hop
        &&& self.saved(i) <= h
        &&& self.flushes_in(i + 1) == if r.eof {
            1nat
        } else {
            0nat
        }
        &&& self.flushes_out(i + 1) == 0
    }
}

/// A sample of a hop stands within it.
proof fn lemma_in_frame(c: int, t: int, n_ch: int, hop: int)
    requires
        0 <= c < n_ch,
        0 <= t < hop,
    ensures
        0 <= place(c, t, hop) < n_ch * hop,
{
    lemma_place(c, t, hop);
    assert(c * hop + hop <= n_ch * hop) by (nonlinear_arith)
        requires
            c + 1 <= n_ch,
            0 < hop,
    ;
}

proof fn lemma_begins<T>(run: Run<T>)
    requires
        run.made(),
    ensures
        run.told(0),
{
    let p = run.states[0];
    reveal_with_fuel(Run::asked, 2);
    reveal_with_fuel(Run::flushes_in, 2);
    reveal_with_fuel(Run::flushes_out, 2);
    assert forall|c: int| 0 <= c < run.n_ch implies (#[trigger] p.received[c]) == run.came(c, 0) by {
        assert(p.received[c] =~= run.came(c, 0));
    }
    assert forall|c: int| 0 <= c < run.n_ch implies (#[trigger] p.resampled[c]) == run.back(c, 0) by {
        assert(p.resampled[c] =~= run.back(c, 0));
    }
    assert forall|c: int| 0 <= c < run.n_ch implies (#[trigger] p.forwarded[c])
        == run.handed(c, 1) by {
        reveal_with_fuel(Run::handed, 2);
        assert(p.forwarded[c] =~= run.handed(c, 1));
    }
    assert forall|c: int| 0 <= c < run.n_ch implies (#[trigger] p.emitted[c])
        == run.written(c, 1) by {
        reveal_with_fuel(Run::written, 2);
        assert(p.emitted[c] =~= run.written(c, 1));
    }
}

proof fn lemma_moves<T>(run: Run<T>, i: int, r: Progress<T>)
    requires
        run.made(),
        0 <= i < run.events.len(),
        run.events[i] is ModelInput || run.events[i] is ModelOutput,
        run.between(i, r),
        r.moves_on(run.states[i + 1], run.actions[i + 1]),
        hands_on(run.states[i], run.states[i + 1], run.actions[i + 1]),
        r.forwarded == run.states[i].forwarded,
        run.states[i].n_ch == run.n_ch,
    ensures
        run.told(i + 1),
{
    let q = run.states[i + 1];
    let action = run.actions[i + 1];
    let hop = run.hop as int;
    let h = run.outputs(i + 1).len() as int;
    let before = run.asked(i + 1);
    let after = run.asked(i + 2);
    assert(q.valid());
    assert(run.ended(i + 1) == r.eof);
    assert(run.saved(i + 1) == run.saved(i));
    if r.hop_due() {
        let frame = action->Model_frame@;
        assert(after == before.push(frame));
        assert(r.done() == h * hop);
        assert((h + 1) * hop == h * hop + hop) by (nonlinear_arith);
        assert forall|c: int| 0 <= c < run.n_ch implies (#[trigger] q.forwarded[c])
            == run.handed(c, i + 2) by {
            assert(r.forwarded[c] == run.handed(c, i + 1));
        }
        assert forall|j: int, c: int, t: int|
            0 <= j < after.len() && 0 <= c < run.n_ch && 0 <= t < hop implies (
        #[trigger] after[j][place(c, t, hop)]) == if place(j, t, hop) < q.total() {
            q.received[c][place(j, t, hop)]
        } else {
            run.zero
        } by {
            if j < h {
                assert(after[j] == before[j]);
                assert(before[j][place(c, t, hop)] == after[j][place(c, t, hop)]);
            } else {
                lemma_in_frame(c, t, run.n_ch as int, hop);
                lemma_place(c, t, hop);
                assert(frame == r.next_hop());
                assert(r.received[c].len() == r.received[0].len());
            }
        }
        assert(frame.len() == run.n_ch * run.hop);
    } else {
        assert(action is ResampleOut);
        assert(after == before);
        assert forall|c: int| 0 <= c < run.n_ch implies (#[trigger] q.forwarded[c])
            == run.handed(c, i + 2) by {
            assert(r.forwarded[c] == run.handed(c, i + 1));
        }
    }
    assert forall|c: int| 0 <= c < run.n_ch implies (#[trigger] q.emitted[c])
        == run.written(c, i + 2) by {
        assert(r.emitted[c] == run.written(c, i + 1));
    }
}

proof fn lemma_after_input<T>(run: Run<T>, i: int)
    requires
        run.made(),
        0 <= i < run.events.len(),
        run.events[i] is ModelInput,
        run.told(i),
    ensures
        run.told(i + 1),
{
    let p = run.states[i];
    let hop = run.hop as int;
    let b = run.events[i]->ModelInput_b;
    let r = Progress { received: joined(p.received, b), ..p };
    let asked = run.asked(i + 1);
    assert(step(p, run.events[i], run.states[i + 1], run.actions[i + 1]));
    assert(p.valid());
    assert(run.outputs(i + 1) == run.outputs(i));
    assert(run.ended(i + 1) == run.ended(i));
    assert(r.received[0] == p.received[0] + b[0]);
    assert forall|c: int| 0 <= c < run.n_ch implies (#[trigger] r.received[c]).len()
        == r.received[0].len() by {
        assert(p.received[c].len() == p.received[0].len());
        assert(b[c].len() == b[0].len());
    }
    assert forall|c: int| 0 <= c < run.n_ch implies (#[trigger] r.received[c])
        == run.came(c, i + 1) by {
        assert(p.received[c] == run.came(c, i));
    }
    assert forall|c: int| 0 <= c < run.n_ch implies (#[trigger] r.resampled[c])
        == run.back(c, i + 1) by {
        assert(p.resampled[c] == run.back(c, i));
    }
    assert forall|c: int, x: int| 0 <= c < run.n_ch && 0 <= x < r.done() implies (
    #[trigger] r.enhanced[c][x]) == run.outputs(i + 1)[x / hop][place(c, x % hop, hop)] by {
        assert(p.enhanced[c][x] == run.outputs(i)[x / hop][place(c, x % hop, hop)]);
    }
    assert forall|j: int, c: int, t: int|
        0 <= j < asked.len() && 0 <= c < run.n_ch && 0 <= t < hop implies (
    #[trigger] asked[j][place(c, t, hop)]) == if place(j, t, hop) < r.total() {
        r.received[c][place(j, t, hop)]
    } else {
        run.zero
    } by {
        lemma_in_frame(j, t, asked.len() as int, hop);
        assert(p.received[c].len() == p.received[0].len());
        assert(r.received[c] == p.received[c] + b[c]);
    }
    lemma_moves(run, i, r);
}

proof fn lemma_after_output<T>(run: Run<T>, i: int)
    requires
        run.made(),
        0 <= i < run.events.len(),
        run.events[i] is ModelOutput,
        run.told(i),
    ensures
        run.told(i + 1),
{
    let p = run.states[i];
    let hop = run.hop as int;
    let frame = run.events[i]->ModelOutput_frame;
    let k = p.hop_len();
    let added = hop_front(frame, p.n_ch, k, p.hop);
    let r = Progress { enhanced: joined(p.enhanced, added), ..p };
    let h = run.outputs(i).len() as int;
    assert(step(p, run.events[i], run.states[i + 1], run.actions[i + 1]));
    assert(p.valid());
    assert(p.done() == h * hop);
    assert((h + 1) * hop == h * hop + hop) by (nonlinear_arith);
    assert(run.outputs(i + 1) == run.outputs(i).push(frame));
    assert(run.ended(i + 1) == run.ended(i));
    assert(r.enhanced[0] == p.enhanced[0] + added[0]);
    assert forall|c: int| 0 <= c < run.n_ch implies (#[trigger] r.received[c])
        == run.came(c, i + 1) by {
        assert(p.received[c] == run.came(c, i));
    }
    assert forall|c: int| 0 <= c < run.n_ch implies (#[trigger] r.resampled[c])
        == run.back(c, i + 1) by {
        assert(p.resampled[c] == run.back(c, i));
    }
    assert forall|c: int, x: int| 0 <= c < run.n_ch && 0 <= x < r.done() implies (
    #[trigger] r.enhanced[c][x]) == run.outputs(i + 1)[x / hop][place(c, x % hop, hop)] by {
        assert(p.enhanced[c].len() == p.enhanced[0].len());
        assert(r.enhanced[c] == p.enhanced[c] + added[c]);
        if x < p.done() {
            assert(p.enhanced[c][x] == run.outputs(i)[x / hop][place(c, x % hop, hop)]);
            lemma_place_of(x, hop);
            if x / hop >= h {
                assert((x / hop) * hop >= h * hop) by (nonlinear_arith)
                    requires
                        x / hop >= h,
                        hop > 0,
                ;
            }
        } else {
            lemma_place(h, x - p.done(), hop);
            assert(place(h, x - p.done(), hop) == x);
        }
    }
    lemma_moves(run, i, r);
}

proof fn lemma_after_others<T>(run: Run<T>, i: int)
    requires
        run.made(),
        0 <= i < run.events.len(),
        !(run.events[i] is ModelInput),
        !(run.events[i] is ModelOutput),
        run.told(i),
    ensures
        run.told(i + 1),
{
    let p = run.states[i];
    let q = run.states[i + 1];
    let action = run.actions[i + 1];
    let hop = run.hop as int;
    let asked = run.asked(i + 1);
    assert(step(p, run.events[i], q, action));
    assert(p.valid());
    assert(q.valid());
    assert(run.outputs(i + 1) == run.outputs(i));
    assert(run.asked(i + 2) == asked);
    assert forall|c: int| 0 <= c < run.n_ch implies (#[trigger] q.received[c])
        == run.came(c, i + 1) by {
        assert(p.received[c] == run.came(c, i));
    }
    assert forall|c: int| 0 <= c < run.n_ch implies (#[trigger] q.forwarded[c])
        == run.handed(c, i + 2) by {
        assert(p.forwarded[c] == run.handed(c, i + 1));
    }
    assert forall|c: int| 0 <= c < run.n_ch implies (#[trigger] q.resampled[c])
        == run.back(c, i + 1) by {
        assert(p.resampled[c] == run.back(c, i));
    }
    assert forall|c: int| 0 <= c < run.n_ch implies (#[trigger] q.emitted[c])
        == run.written(c, i + 2) by {
        assert(p.emitted[c] == run.written(c, i + 1));
        match action {
            Action::Write { block: v, frames } => {
                assert(block(v@)[c] == v@[c]@);
            },
            Action::Pad { block: v, frames, missing } => {
                assert(block(v@).len() == p.n_ch);
                assert(block(v@)[c] == v@[c]@);
                assert(v@[c]@.take(frames as int) =~= silent(
                    p.n_ch,
                    frames as nat,
                    p.zero,
                )[c]);
            },
            _ => {},
        }
    }
    assert forall|c: int, x: int| 0 <= c < run.n_ch && 0 <= x < q.done() implies (
    #[trigger] q.enhanced[c][x]) == run.outputs(i + 1)[x / hop][place(c, x % hop, hop)] by {
        assert(p.enhanced[c][x] == run.outputs(i)[x / hop][place(c, x % hop, hop)]);
    }
}

/// What the session keeps agrees with what went in and out, after every event.
proof fn lemma_told<T>(run: Run<T>, i: int)
    requires
        run.made(),
        0 <= i < run.states.len(),
    ensures
        run.told(i),
    decreases i,
{
    if i == 0 {
        lemma_begins(run);
    } else {
        lemma_told(run, i - 1);
        match run.events[i - 1] {
            Event::ModelInput { b } => lemma_after_input(run, i - 1),
            Event::ModelOutput { frame } => lemma_after_output(run, i - 1),
            _ => lemma_after_others(run, i - 1),
        }
    }
}

/// A run is asked to complete the output only once it is finished, and to
/// resample back only when that is due.
proof fn lemma_stages<T>(run: Run<T>, i: int)
    requires
        run.made(),
        0 <= i < run.actions.len(),
    ensures
        run.actions[i] is Read ==> run.states[i].stage is Read,
        run.actions[i] is Finalize ==> run.states[i].stage is Finished,
        run.actions[i] is ResampleOut ==> run.states[i].stage is ResampleOut,
        run.actions[i] is ResampleIn ==> run.states[i].stage is ResampleIn,
        run.actions[i] is Model ==> run.states[i].stage is Model,
        run.actions[i] is Write ==> run.states[i].stage is Write,
        run.actions[i] is Pad ==> run.states[i].stage is Write,
        run.actions[i] is Checkpoint ==> run.states[i].stage is Checkpoint,
{
    if i > 0 {
        let k = i - 1;
        assert(step(run.states[k], run.events[k], run.states[k + 1], run.actions[k + 1]));
    }
}

/// What the model is given: hop `j` holds in the row of channel `c` the frames
/// from `j * hop` on of all audio of channel `c` that came for it, and silence
/// beyond their end.
pub proof fn law_model_is_given_the_audio<T>(run: Run<T>, i: int, j: int, c: int, t: int)
    requires
        run.made(),
        0 <= i < run.actions.len(),
        0 <= j < run.asked(i + 1).len(),
        0 <= c < run.n_ch,
        0 <= t < run.hop,
    ensures
        run.asked(i + 1)[j].len() == run.n_ch * run.hop,
        run.asked(i + 1)[j][c * run.hop + t] == if j * run.hop + t < run.came(c, i).len() {
            run.came(c, i)[j * run.hop + t]
        } else {
            run.zero
        },
{
    lemma_told(run, i);
    let p = run.states[i];
    let hop = run.hop as int;
    assert(p.valid());
    assert(p.received[c] == run.came(c, i));
    assert(p.received[c].len() == p.received[0].len());
    assert(run.asked(i + 1)[j][place(c, t, hop)] == if place(j, t, hop) < p.total() {
        p.received[c][place(j, t, hop)]
    } else {
        run.zero
    });
}

/// How many hops the model is given: those that the audio that came for it
/// fills, and one more for the rest only where the file has ended. Once the
/// session is finished all audio was given to it.
pub proof fn law_model_is_given_whole_hops<T>(run: Run<T>, i: int, c: int)
    requires
        run.made(),
        0 <= i < run.actions.len(),
        0 <= c < run.n_ch,
    ensures
        run.came(c, i).len() == run.came(0, i).len(),
        run.outputs(i).len() <= run.asked(i + 1).len() <= run.outputs(i).len() + 1,
        run.asked(i + 1).len() * run.hop > run.came(c, i).len() ==> run.ended(i),
        run.asked(i + 1).len() * run.hop < run.came(c, i).len() + run.hop,
        run.actions[i] is ResampleOut ==> run.came(c, i).len() < run.asked(i + 1).len() * run.hop
            + run.hop,
        run.actions[i] is Finalize ==> {
            &&& run.outputs(i).len() == run.asked(i + 1).len()
            &&& run.came(c, i).len() <= run.asked(i + 1).len() * run.hop
        },
{
    lemma_told(run, i);
    lemma_stages(run, i);
    let p = run.states[i];
    let hop = run.hop as int;
    let h = run.outputs(i).len() as int;
    assert(p.valid());
    assert(p.received[0] == run.came(0, i));
    assert(p.received[c] == run.came(c, i));
    assert((h - 1) * hop == h * hop - hop) by (nonlinear_arith);
    assert((h + 1) * hop == h * hop + hop) by (nonlinear_arith);
}

/// What is handed out to be resampled back: in every channel the audio that
/// came from the model, from frame `skip` on, each frame once and in order.
pub proof fn law_enhanced_audio_is_handed_on<T>(run: Run<T>, i: int, c: int, x: int)
    requires
        run.made(),
        0 <= i < run.actions.len(),
        0 <= c < run.n_ch,
        0 <= x < run.handed(c, i + 1).len(),
    ensures
        0 <= (x + run.skip) / (run.hop as int) < run.outputs(i).len(),
        run.handed(c, i + 1)[x] == run.outputs(i)[(x + run.skip) / (run.hop as int)][c * run.hop
            + (x + run.skip) % (run.hop as int)],
{
    lemma_told(run, i);
    let p = run.states[i];
    let hop = run.hop as int;
    let h = run.outputs(i).len() as int;
    let y = x + run.skip;
    assert(p.valid());
    assert(p.forwarded[c] == run.handed(c, i + 1));
    assert(p.forwarded[c].len() == p.forwarded[0].len());
    assert(p.enhanced[c].len() == p.enhanced[0].len());
    assert(p.forwarded[c][x] == p.enhanced[c][y]);
    lemma_place_of(y, hop);
    if y / hop >= h {
        assert((y / hop) * hop >= h * hop) by (nonlinear_arith)
            requires
                y / hop >= h,
                hop > 0,
        ;
    }
    assert(p.enhanced[c][y] == run.outputs(i)[y / hop][place(c, y % hop, hop)]);
}

/// How much is handed out to be resampled back: with every block all that the
/// model has enhanced by then but the first `skip` frames. Where the file has
/// ended that is all audio but these; of the last hop no more is kept.
pub proof fn law_all_enhanced_audio_is_handed_on<T>(run: Run<T>, i: int, c: int)
    requires
        run.made(),
        0 <= i < run.actions.len(),
        0 <= c < run.n_ch,
    ensures
        run.actions[i] is ResampleOut && !run.ended(i) ==> run.handed(c, i + 1).len() == if run.skip
            <= run.outputs(i).len() * run.hop {
            run.outputs(i).len() * run.hop - run.skip
        } else {
            0
        },
        run.actions[i] is ResampleOut && run.ended(i) || run.actions[i] is Finalize ==> run.handed(
            c,
            i + 1,
        ).len() == if run.skip <= run.came(c, i).len() {
            run.came(c, i).len() - run.skip
        } else {
            0
        },
{
    lemma_told(run, i);
    lemma_stages(run, i);
    let p = run.states[i];
    assert(p.valid());
    assert(p.received[0] == run.came(0, i));
    assert(p.received[c] == run.came(c, i));
    assert(p.forwarded[0] == run.handed(0, i + 1));
    assert(p.forwarded[c] == run.handed(c, i + 1));
    assert(p.received[c].len() == p.received[0].len());
    assert(p.forwarded[c].len() == p.forwarded[0].len());
}

/// When the resamplers are flushed: just with the block after a read that gave
/// fewer frames than were asked for. After such a read nothing more is read.
pub proof fn law_resamplers_are_flushed_at_the_end<T>(run: Run<T>, i: int)
    requires
        run.made(),
        0 <= i < run.actions.len(),
    ensures
        run.actions[i] matches Action::Read { max_frames } ==> max_frames == 4096 && !run.ended(i),
        run.actions[i] matches Action::ResampleIn { frames, flush } ==> run.last_read(i) == Some(
            frames,
        ) && flush == (frames < 4096),
        run.actions[i] matches Action::ResampleOut { block: v, flush } ==> flush == run.ended(i),
        run.actions[i] is Checkpoint ==> !run.ended(i),
        run.actions[i] is Pad ==> run.ended(i),
        run.actions[i] is Finalize ==> run.ended(i),
{
    lemma_told(run, i);
    lemma_stages(run, i);
    let p = run.states[i];
    assert(p.valid());
    if i > 0 {
        let k = i - 1;
        lemma_told(run, k);
        assert(run.states[k].valid());
        assert(step(run.states[k], run.events[k], run.states[k + 1], run.actions[k + 1]));
    }
}

/// A finished run has flushed either resampler once, the one to the rate of
/// the file with the last block that was handed out.
pub proof fn law_resamplers_are_flushed_once<T>(run: Run<T>, i: int)
    requires
        run.made(),
        0 <= i < run.actions.len(),
    ensures
        run.flushes_in(i + 1) <= 1,
        run.flushes_out(i + 1) <= 1,
        run.actions[i] is Finalize ==> {
            &&& run.flushes_in(i + 1) == 1
            &&& run.flushes_out(i + 1) == 1
            &&& run.last_flush(i + 1)
        },
{
    lemma_told(run, i);
    lemma_stages(run, i);
    assert(run.states[i].valid());
}

/// What is written: in every channel the audio that came back at the rate of
/// the file, in order, and silence where it ended.
pub proof fn law_audio_that_came_back_is_written<T>(run: Run<T>, i: int, c: int, x: int)
    requires
        run.made(),
        0 <= i < run.actions.len(),
        0 <= c < run.n_ch,
        0 <= x < run.written(c, i + 1).len(),
    ensures
        run.written(c, i + 1)[x] == if x < run.back(c, i).len() {
            run.back(c, i)[x]
        } else {
            run.zero
        },
{
    lemma_told(run, i);
    let p = run.states[i];
    assert(p.valid());
    assert(p.emitted[c] == run.written(c, i + 1));
    assert(p.resampled[c] == run.back(c, i));
    assert(p.emitted[c].len() == p.emitted[0].len());
    assert(p.emitted[c] == p.target()[c].take(p.written() as int));
}

/// How much is written: all that came back, but never more than was planned.
/// Silence comes only once the file has ended, as much as is missing by then;
/// a finished run has written exactly what was planned.
pub proof fn law_planned_length_is_written<T>(run: Run<T>, i: int, c: int)
    requires
        run.made(),
        0 <= i < run.actions.len(),
        0 <= c < run.n_ch,
    ensures
        run.back(c, i).len() == run.back(0, i).len(),
        run.written(c, i + 1).len() <= run.n_out,
        run.written(c, i + 1).len() < run.n_out ==> run.back(c, i).len() <= run.written(
            c,
            i + 1,
        ).len(),
        run.written(c, i + 1).len() > run.back(c, i).len() ==> run.ended(i),
        run.actions[i] matches Action::Pad { block: v, frames, missing } ==> {
            &&& missing == run.n_out - run.written(c, i).len()
            &&& frames == if missing <= 4096 {
                missing
            } else {
                4096
            }
        },
        run.actions[i] is Finalize ==> run.written(c, i + 1).len() == run.n_out,
{
    lemma_told(run, i);
    lemma_stages(run, i);
    let p = run.states[i];
    assert(p.valid());
    assert(p.emitted[c] == run.written(c, i + 1));
    assert(p.resampled[c] == run.back(c, i));
    assert(p.resampled[0] == run.back(0, i));
    assert(p.emitted[c].len() == p.emitted[0].len());
    if i > 0 {
        let k = i - 1;
        lemma_told(run, k);
        assert(run.states[k].valid());
        assert(run.states[k].emitted[c] == run.written(c, i));
        assert(run.states[k].emitted[c].len() == run.states[k].emitted[0].len());
        assert(step(run.states[k], run.events[k], run.states[k + 1], run.actions[k + 1]));
    }
}

/// What follows a write. While the file goes on, a checkpoint where the model
/// has enhanced at least 30 seconds of audio since the last one, and else the
/// next read; once it has ended, silence while frames are missing, and then
/// the end.
pub proof fn law_what_follows_a_write<T>(run: Run<T>, i: int)
    requires
        run.made(),
        0 < i < run.actions.len(),
        run.events[i - 1] is WriteDone,
    ensures
        run.actions[i] is Checkpoint <==> !run.ended(i) && (run.outputs(i).len() - run.saved(i - 1))
            * run.hop >= 30 * run.sr,
        run.actions[i] is Read <==> !run.ended(i) && (run.outputs(i).len() - run.saved(i - 1))
            * run.hop < 30 * run.sr,
        run.actions[i] is Pad <==> run.ended(i) && run.written(0, i).len() < run.n_out,
        run.actions[i] is Finalize <==> run.ended(i) && run.written(0, i).len() == run.n_out,
{
    let k = i - 1;
    lemma_told(run, k);
    lemma_told(run, i);
    let p = run.states[k];
    assert(p.valid());
    assert(run.states[i].valid());
    assert(step(p, run.events[k], run.states[k + 1], run.actions[k + 1]));
    assert(p.emitted[0] == run.written(0, i));
    let h = run.outputs(i).len() as int;
    let s = run.saved(k) as int;
    let hop = run.hop as int;
    assert(run.outputs(i) == run.outputs(k));
    assert((h - s) * hop == h * hop - s * hop) by (nonlinear_arith);
    assert(run.sr * 30 == 30 * run.sr) by (nonlinear_arith);
}

/// How many frames a session says it has enhanced: those of the hops that came
/// from the model, without what filled up the last one.
pub proof fn law_enhanced_frames_are_counted<T>(run: Run<T>, i: int)
    requires
        run.made(),
        0 <= i < run.actions.len(),
    ensures
        run.states[i].done() == if run.outputs(i).len() * run.hop <= run.came(0, i).len() {
            run.outputs(i).len() * run.hop
        } else {
            run.came(0, i).len()
        },
{
    lemma_told(run, i);
    let p = run.states[i];
    assert(p.valid());
    assert(p.received[0] == run.came(0, i));
}

/// A model that gives back every hop as it is changes nothing: what a finished
/// run has handed out to be resampled back is the audio that came for the
/// model, in every channel, without its first `skip` frames.
pub proof fn law_unchanging_model_changes_nothing<T>(run: Run<T>, i: int, c: int)
    requires
        run.made(),
        0 <= i < run.actions.len(),
        run.actions[i] is Finalize,
        0 <= c < run.n_ch,
        forall|j: int|
            0 <= j < run.outputs(i).len() ==> (#[trigger] run.outputs(i)[j]) == run.asked(i + 1)[j],
    ensures
        run.skip <= run.came(c, i).len() ==> run.handed(c, i + 1) == run.came(c, i).skip(
            run.skip as int,
        ),
        run.skip > run.came(c, i).len() ==> run.handed(c, i + 1).len() == 0,
{
    law_all_enhanced_audio_is_handed_on(run, i, c);
    law_model_is_given_whole_hops(run, i, c);
    let got = run.handed(c, i + 1);
    let hop = run.hop as int;
    assert forall|x: int| 0 <= x < got.len() implies got[x] == run.came(c, i)[x + run.skip] by {
        let y = x + run.skip;
        law_enhanced_audio_is_handed_on(run, i, c, x);
        lemma_place_of(y, hop);
        law_model_is_given_the_audio(run, i, y / hop, c, y % hop);
        assert(run.outputs(i)[y / hop] == run.asked(i + 1)[y / hop]);
    }
    if run.skip <= run.came(c, i).len() {
        assert(got =~= run.came(c, i).skip(run.skip as int));
    }
}

/// Where neither the model nor the way back changes anything, the output of a
/// finished run is the audio that came for the model, from frame `skip` on,
/// cut off or filled up with silence to the planned length.
pub proof fn law_unchanged_audio_is_written<T>(run: Run<T>, i: int, c: int, x: int)
    requires
        run.made(),
        0 <= i < run.actions.len(),
        run.actions[i] is Finalize,
        0 <= c < run.n_ch,
        0 <= x < run.n_out,
        forall|j: int|
            0 <= j < run.outputs(i).len() ==> (#[trigger] run.outputs(i)[j]) == run.asked(i + 1)[j],
        run.back(c, i) == run.handed(c, i + 1),
    ensures
        run.written(c, i + 1).len() == run.n_out,
        run.written(c, i + 1)[x] == if x + run.skip < run.came(c, i).len() {
            run.came(c, i)[x + run.skip]
        } else {
            run.zero
        },
{
    law_planned_length_is_written(run, i, c);
    law_audio_that_came_back_is_written(run, i, c, x);
    law_unchanging_model_changes_nothing(run, i, c);
}

} // verus!
