//! The enhancement of one file, as a state machine.
//!
//! Audio goes through five hands: it is read, resampled to the rate of the
//! model, enhanced by the model one hop at a time, resampled back, and
//! written. A session holds the queues between them and decides who is next.
//! Each of its methods takes what the last hand made and returns the next
//! [`Action`]; whoever runs the session performs it.

use vstd::prelude::*;

#[allow(unused_imports)]
use crate::layout::{block, has_frames, lemma_place_of};
use crate::queue::{append_block, append_hop, drop_front, is_uniform, load_hop, silence, take_all};
#[allow(unused_imports)]
use crate::queue::{front, hop_front, joined, padded_hop, silent, uniform, without_front};

verus! {

/// Frames read per round. Large enough to amortize the cost of a read and of
/// a call of the resampler, small enough that memory stays independent of the
/// length of the file.
pub const READ_FRAMES: usize = 4096;

/// Seconds of audio between two checkpoints of the output.
pub const CHECKPOINT_SECONDS: usize = 30;

/// Who has the audio.
#[derive(Clone, Copy, Debug, PartialEq, Eq, Structural)]
pub enum Stage {
    /// A block is being read.
    Read,
    /// A block is being resampled to the rate of the model.
    ResampleIn,
    /// The model has a hop.
    Model,
    /// A block is being resampled to the rate of the file.
    ResampleOut,
    /// A block is being written.
    Write,
    /// The output is being checkpointed.
    Checkpoint,
    /// All is written.
    Finished,
}

/// What is to be done next.
#[derive(Debug)]
pub enum Action<T> {
    /// Read up to `max_frames` frames; report with `frames_read`.
    Read { max_frames: usize },
    /// Resample the `frames` frames that were read to the rate of the model,
    /// and flush the resampler if told to; report with `model_input`.
    ResampleIn { frames: usize, flush: bool },
    /// Run the model on a hop, one channel after the other; report with
    /// `model_output`.
    Model { frame: Vec<T> },
    /// Resample the block to the rate of the file, and flush the resampler if
    /// told to; report with `resampled`.
    ResampleOut { block: Vec<Vec<T>>, flush: bool },
    /// Write the first `frames` frames of the block; report with
    /// `write_done`.
    Write { block: Vec<Vec<T>>, frames: usize },
    /// As `Write`: the audio ended `missing` frames early, and the block is
    /// silence.
    Pad { block: Vec<Vec<T>>, frames: usize, missing: usize },
    /// Checkpoint the output; report with `checkpoint_done`.
    Checkpoint,
    /// Complete the output.
    Finalize,
}

/// What a session was set up with, and all audio that went through it so far.
#[verifier::ext_equal]
pub struct Progress<T> {
    /// The number of channels.
    pub n_ch: nat,
    /// The number of frames in a hop.
    pub hop: nat,
    /// The frames per second of the model.
    pub sr: nat,
    /// How many enhanced frames are left out at the start.
    pub skip: nat,
    /// How many frames are to be written.
    pub n_out: nat,
    /// The sample of silence.
    pub zero: T,
    /// Who has the audio.
    pub stage: Stage,
    /// The file has ended.
    pub eof: bool,
    /// How many frames were enhanced when the output was last checkpointed.
    pub flushed: nat,
    /// All audio that came for the model.
    pub received: Seq<Seq<T>>,
    /// All audio that came from the model.
    pub enhanced: Seq<Seq<T>>,
    /// All audio that was handed out to be resampled back.
    pub forwarded: Seq<Seq<T>>,
    /// All audio that came back from there.
    pub resampled: Seq<Seq<T>>,
    /// All audio that was handed out to be written.
    pub emitted: Seq<Seq<T>>,
}

/// A channel cut off or filled up with `zero` to `n` samples.
pub open spec fn fit<T>(s: Seq<T>, n: nat, zero: T) -> Seq<T> {
    Seq::new(
        n,
        |t: int|
            if t < s.len() {
                s[t]
            } else {
                zero
            },
    )
}

/// The smaller of two numbers.
pub open spec fn smaller(a: nat, b: nat) -> nat {
    if a <= b {
        a
    } else {
        b
    }
}

/// The difference of two numbers, or zero where the second is larger.
pub open spec fn beyond(a: nat, b: nat) -> nat {
    if a <= b {
        0
    } else {
        (a - b) as nat
    }
}

impl<T> Progress<T> {
    /// How many frames came for the model.
    pub open spec fn total(self) -> nat {
        self.received[0].len()
    }

    /// How many frames the model has enhanced.
    pub open spec fn done(self) -> nat {
        self.enhanced[0].len()
    }

    /// How many frames were handed out to be resampled back.
    pub open spec fn sent(self) -> nat {
        self.forwarded[0].len()
    }

    /// How many frames came back from there.
    pub open spec fn returned(self) -> nat {
        self.resampled[0].len()
    }

    /// How many frames were handed out to be written.
    pub open spec fn written(self) -> nat {
        self.emitted[0].len()
    }

    /// How many frames of the next hop are audio.
    pub open spec fn hop_len(self) -> nat {
        smaller((self.total() - self.done()) as nat, self.hop)
    }

    /// The model is due: there is a whole hop of audio for it, or the file
    /// has ended and there is any.
    pub open spec fn hop_due(self) -> bool {
        self.total() - self.done() >= self.hop || self.eof && self.done() < self.total()
    }

    /// The next hop: the audio that the model has not enhanced yet, filled up
    /// with silence.
    pub open spec fn next_hop(self) -> Seq<T> {
        padded_hop(self.received, self.done(), self.hop_len(), self.hop, self.zero)
    }

    /// What the output should be once all audio has come back: that audio,
    /// cut off or filled up with silence to the planned length.
    pub open spec fn target(self) -> Seq<Seq<T>> {
        Seq::new(self.n_ch, |c: int| fit(self.resampled[c], self.n_out, self.zero))
    }

    /// How the audio in the different hands is related, whoever is next.
    pub open spec fn coherent(self) -> bool {
        &&& self.n_ch > 0
        &&& self.hop > 0
        &&& uniform(self.received, self.n_ch)
        &&& uniform(self.enhanced, self.n_ch)
        &&& uniform(self.forwarded, self.n_ch)
        &&& uniform(self.resampled, self.n_ch)
        &&& uniform(self.emitted, self.n_ch)
        &&& self.done() <= self.total()
        &&& self.flushed <= self.done()
        &&& self.sent() <= beyond(self.done(), self.skip)
        &&& self.sent() > 0 ==> forall|c: int|
            0 <= c < self.n_ch ==> (#[trigger] self.forwarded[c]) == self.enhanced[c].subrange(
                self.skip as int,
                (self.skip + self.sent()) as int,
            )
        &&& smaller(self.returned(), self.n_out) <= self.written() <= self.n_out
        &&& forall|c: int|
            0 <= c < self.n_ch ==> (#[trigger] self.emitted[c]) == self.target()[c].take(
                self.written() as int,
            )
    }

    /// What holds of a session at every stage.
    pub open spec fn valid(self) -> bool {
        &&& self.coherent()
        &&& !(self.stage is Model) ==> self.sent() == beyond(self.done(), self.skip)
        &&& self.written() > smaller(self.returned(), self.n_out) ==> self.eof && (self.stage is Write
            || self.stage is Finished)
        &&& match self.stage {
            Stage::Read | Stage::Checkpoint => !self.eof && self.total() - self.done() < self.hop,
            Stage::ResampleIn => self.total() - self.done() < self.hop,
            Stage::Model => self.hop_due(),
            Stage::ResampleOut | Stage::Write => !self.hop_due(),
            Stage::Finished => self.eof && !self.hop_due() && self.written() == self.n_out,
        }
    }

    /// Who is next once there may be audio for the model: the model, where it
    /// is due, and else the way out, for all enhanced audio that was not sent
    /// yet and does not fall to the skip.
    pub open spec fn moves_on(self, after: Progress<T>, action: Action<T>) -> bool {
        if self.hop_due() {
            &&& after == Progress { stage: Stage::Model, ..self }
            &&& action matches Action::Model { frame } && frame@ == self.next_hop()
        } else {
            &&& after.forwarded == without_front(self.enhanced, smaller(self.skip, self.done()))
            &&& after == Progress {
                stage: Stage::ResampleOut,
                forwarded: after.forwarded,
                ..self
            }
            &&& action matches Action::ResampleOut { block: b, flush } && flush == self.eof && block(
                b@,
            ) == without_front(after.forwarded, self.sent())
        }
    }
}

/// What a session is told.
pub enum Event<T> {
    /// `n` frames were read.
    FramesRead { n: usize },
    /// A block came for the model.
    ModelInput { b: Seq<Seq<T>> },
    /// A hop came from the model.
    ModelOutput { frame: Seq<T> },
    /// A block came back at the rate of the file.
    Resampled { b: Seq<Seq<T>> },
    /// A block was written.
    WriteDone,
    /// The output was checkpointed.
    CheckpointDone,
}

/// A block can come for the model.
pub open spec fn accepts<T>(p: Progress<T>, b: Seq<Seq<T>>) -> bool {
    uniform(b, p.n_ch) && p.total() + b[0].len() <= usize::MAX
}

/// A block with all channels, each of them `n` frames long, can come for the
/// model as long as all frames can be counted, and no other block can.
pub proof fn law_accepted_input<T>(p: Progress<T>, b: Seq<Seq<T>>, n: nat)
    requires
        p.n_ch > 0,
    ensures
        b.len() == p.n_ch && has_frames(b, n) ==> (accepts(p, b) <==> p.total() + n <= usize::MAX),
        accepts(p, b) ==> b.len() == p.n_ch && has_frames(b, b[0].len()),
{
}

/// How a session for these sizes begins.
pub open spec fn starts<T>(
    n_ch: nat,
    hop: nat,
    sr: nat,
    skip: nat,
    n_out: nat,
    zero: T,
    p: Progress<T>,
    action: Action<T>,
) -> bool {
    &&& p.n_ch == n_ch
    &&& p.hop == hop
    &&& p.sr == sr
    &&& p.skip == skip
    &&& p.n_out == n_out
    &&& p.zero == zero
    &&& p.stage is Read
    &&& !p.eof
    &&& p.flushed == 0
    &&& p.received == silent(n_ch, 0, zero)
    &&& p.enhanced == silent(n_ch, 0, zero)
    &&& p.forwarded == silent(n_ch, 0, zero)
    &&& p.resampled == silent(n_ch, 0, zero)
    &&& p.emitted == silent(n_ch, 0, zero)
    &&& action == (Action::<T>::Read { max_frames: READ_FRAMES })
}

/// A block that is handed out to be resampled back goes behind all that was
/// handed out before it, channel by channel, and the resampler is flushed just
/// where the file has ended.
pub open spec fn hands_on<T>(p: Progress<T>, q: Progress<T>, action: Action<T>) -> bool {
    action matches Action::ResampleOut { block: v, flush } ==> {
        &&& flush == p.eof
        &&& v@.len() == p.n_ch
        &&& forall|c: int|
            0 <= c < p.n_ch ==> (#[trigger] q.forwarded[c]) == p.forwarded[c] + v@[c]@
    }
}

/// What a session does when it is told something.
pub open spec fn step<T>(p: Progress<T>, e: Event<T>, q: Progress<T>, action: Action<T>) -> bool {
    match e {
        Event::FramesRead { n } => {
            &&& p.stage is Read
            &&& q == Progress { stage: Stage::ResampleIn, eof: n < READ_FRAMES, ..p }
            &&& action == (Action::<T>::ResampleIn { frames: n, flush: n < READ_FRAMES })
        },
        Event::ModelInput { b } => {
            &&& p.stage is ResampleIn
            &&& uniform(b, p.n_ch)
            &&& (Progress { received: joined(p.received, b), ..p }).moves_on(q, action)
            &&& hands_on(p, q, action)
        },
        Event::ModelOutput { frame } => {
            &&& p.stage is Model
            &&& frame.len() == p.n_ch * p.hop
            &&& (Progress {
                enhanced: joined(p.enhanced, hop_front(frame, p.n_ch, p.hop_len(), p.hop)),
                ..p
            }).moves_on(q, action)
            &&& hands_on(p, q, action)
        },
        Event::Resampled { b } => {
            let w = smaller(b[0].len(), (p.n_out - p.written()) as nat);
            &&& p.stage is ResampleOut
            &&& uniform(b, p.n_ch)
            &&& q == Progress {
                stage: Stage::Write,
                resampled: joined(p.resampled, b),
                emitted: joined(p.emitted, front(b, w)),
                ..p
            }
            &&& action matches Action::Write { block: v, frames } && block(v@) == b && frames == w
        },
        Event::WriteDone => {
            let missing = (p.n_out - p.written()) as nat;
            let w = smaller(READ_FRAMES as nat, missing);
            &&& p.stage is Write
            &&& if p.eof && missing > 0 {
                &&& q == Progress { emitted: joined(p.emitted, silent(p.n_ch, w, p.zero)), ..p }
                &&& action matches Action::Pad { block: v, frames, missing: m }
                &&& block(v@) == silent(p.n_ch, READ_FRAMES as nat, p.zero)
                &&& frames == w
                &&& m == missing
            } else if p.eof {
                &&& q == Progress { stage: Stage::Finished, ..p }
                &&& action == Action::<T>::Finalize
            } else if p.done() - p.flushed >= p.sr * CHECKPOINT_SECONDS {
                &&& q == Progress { stage: Stage::Checkpoint, flushed: p.done(), ..p }
                &&& action == Action::<T>::Checkpoint
            } else {
                &&& q == Progress { stage: Stage::Read, ..p }
                &&& action == (Action::<T>::Read { max_frames: READ_FRAMES })
            }
        },
        Event::CheckpointDone => {
            &&& p.stage is Checkpoint
            &&& q == Progress { stage: Stage::Read, ..p }
            &&& action == (Action::<T>::Read { max_frames: READ_FRAMES })
        },
    }
}

/// The enhancement of one file.
pub struct Session<T> {
    n_ch: usize,
    hop: usize,
    sr: usize,
    n_out: usize,
    zero: T,
    stage: Stage,
    eof: bool,
    skip_remaining: usize,
    written: usize,
    frames_done: usize,
    last_flush: usize,
    consumed: usize,
    model_q: Vec<Vec<T>>,
    enh_q: Vec<Vec<T>>,
    progress: Ghost<Progress<T>>,
}

impl<T> Session<T> {
    /// What the session was set up with, and all audio that went through it.
    pub closed spec fn view(&self) -> Progress<T> {
        self.progress@
    }

    /// The numbers and queues of the session agree with its history.
    closed spec fn tied(&self) -> bool {
        let p = self.progress@;
        &&& self.n_ch == p.n_ch
        &&& self.hop == p.hop
        &&& self.sr == p.sr
        &&& self.n_out == p.n_out
        &&& self.zero == p.zero
        &&& self.stage == p.stage
        &&& self.eof == p.eof
        &&& self.n_ch * self.hop <= usize::MAX
        &&& self.sr * CHECKPOINT_SECONDS <= usize::MAX
        &&& p.total() <= usize::MAX
        &&& self.written == p.written()
        &&& self.frames_done == p.done()
        &&& self.last_flush == p.flushed
        &&& self.skip_remaining <= p.skip
        &&& self.skip_remaining > 0 ==> p.sent() == 0
        &&& self.consumed <= self.frames_done
        &&& self.model_q@.len() == p.n_ch
        &&& forall|c: int|
            0 <= c < p.n_ch ==> (#[trigger] self.model_q@[c])@ == p.received[c].skip(
                self.frames_done - self.consumed,
            )
        &&& self.enh_q@.len() == p.n_ch
        &&& p.skip - self.skip_remaining + p.sent() == self.frames_done - self.consumed
        &&& forall|c: int|
            0 <= c < p.n_ch ==> (#[trigger] self.enh_q@[c])@ == p.enhanced[c].skip(
                p.skip - self.skip_remaining + p.sent(),
            )
        &&& !(self.stage is Model) ==> self.consumed == 0
    }

    /// How many frames of channel `c` are queued for the model, the hops
    /// of the current block that it has enhanced counted in.
    pub closed spec fn waiting(&self, c: int) -> nat {
        self.model_q@[c]@.len()
    }

    /// How many enhanced frames of channel `c` are queued for the way out.
    pub closed spec fn ready(&self, c: int) -> nat {
        self.enh_q@[c]@.len()
    }

    /// The session is in order.
    pub closed spec fn wf(&self) -> bool {
        self.tied() && self@.valid()
    }

    /// Sets up a session for a file of `n_ch` channels: a model that takes
    /// hops of `hop` frames at `sr` frames per second, `skip` enhanced frames
    /// left out at the start, `n_out` frames to be written, and the sample of
    /// silence.
    pub fn new(n_ch: usize, hop: usize, sr: usize, skip: usize, n_out: usize, zero: T) -> (r: (
        Session<T>,
        Action<T>,
    ))
        requires
            n_ch > 0,
            hop > 0,
            n_ch * hop <= usize::MAX,
            sr * CHECKPOINT_SECONDS <= usize::MAX,
        ensures
            r.0.wf(),
            r.0@ == (Progress {
                n_ch: n_ch as nat,
                hop: hop as nat,
                sr: sr as nat,
                skip: skip as nat,
                n_out: n_out as nat,
                zero,
                stage: Stage::Read,
                eof: false,
                flushed: 0,
                received: silent(n_ch as nat, 0, zero),
                enhanced: silent(n_ch as nat, 0, zero),
                forwarded: silent(n_ch as nat, 0, zero),
                resampled: silent(n_ch as nat, 0, zero),
                emitted: silent(n_ch as nat, 0, zero),
            }),
            r.1 == (Action::<T>::Read { max_frames: READ_FRAMES }),
            starts(
                n_ch as nat,
                hop as nat,
                sr as nat,
                skip as nat,
                n_out as nat,
                zero,
                r.0@,
                r.1,
            ),
    {
        let ghost none: Seq<Seq<T>> = silent(n_ch as nat, 0, zero);
        let mut model_q: Vec<Vec<T>> = Vec::new();
        let mut enh_q: Vec<Vec<T>> = Vec::new();
        while model_q.len() < n_ch
            invariant
                model_q@.len() <= n_ch,
                enh_q@.len() == model_q@.len(),
                forall|c: int|
                    0 <= c < model_q@.len() ==> (#[trigger] model_q@[c])@ == Seq::<T>::empty(),
                forall|c: int|
                    0 <= c < enh_q@.len() ==> (#[trigger] enh_q@[c])@ == Seq::<T>::empty(),
            decreases n_ch - model_q@.len(),
        {
            model_q.push(Vec::new());
            enh_q.push(Vec::new());
        }
        let session = Session {
            n_ch,
            hop,
            sr,
            n_out,
            zero,
            stage: Stage::Read,
            eof: false,
            skip_remaining: skip,
            written: 0,
            frames_done: 0,
            last_flush: 0,
            consumed: 0,
            model_q,
            enh_q,
            progress: Ghost(
                Progress {
                    n_ch: n_ch as nat,
                    hop: hop as nat,
                    sr: sr as nat,
                    skip: skip as nat,
                    n_out: n_out as nat,
                    zero,
                    stage: Stage::Read,
                    eof: false,
                    flushed: 0,
                    received: none,
                    enhanced: none,
                    forwarded: none,
                    resampled: none,
                    emitted: none,
                },
            ),
        };
        proof {
            let p = session.progress@;
            assert forall|c: int| 0 <= c < p.n_ch implies (#[trigger] session.model_q@[c])@
                == p.received[c].skip(0) by {
                assert(session.model_q@[c]@ =~= p.received[c].skip(0));
            }
            assert forall|c: int| 0 <= c < p.n_ch implies (#[trigger] session.enh_q@[c])@
                == p.enhanced[c].skip(0) by {
                assert(session.enh_q@[c]@ =~= p.enhanced[c].skip(0));
            }
            assert forall|c: int| 0 <= c < p.n_ch implies (#[trigger] p.emitted[c])
                == p.target()[c].take(0) by {
                assert(p.emitted[c] =~= p.target()[c].take(0));
            }
        }
        (session, Action::Read { max_frames: READ_FRAMES })
    }
}

impl<T: Copy> Session<T> {
    /// Takes note that `n` frames were read; fewer than were asked for say
    /// that the file has ended.
    pub fn frames_read(&mut self, n: usize) -> (action: Action<T>)
        requires
            old(self).wf(),
            old(self)@.stage is Read,
        ensures
            final(self).wf(),
            final(self)@ == (Progress {
                stage: Stage::ResampleIn,
                eof: n < READ_FRAMES,
                ..old(self)@
            }),
            action == (Action::<T>::ResampleIn { frames: n, flush: n < READ_FRAMES }),
            step(old(self)@, Event::FramesRead { n }, final(self)@, action),
    {
        self.eof = n < READ_FRAMES;
        self.stage = Stage::ResampleIn;
        self.progress = Ghost(
            Progress { stage: Stage::ResampleIn, eof: n < READ_FRAMES, ..self.progress@ },
        );
        Action::ResampleIn { frames: n, flush: self.eof }
    }

    /// Whether a block can come for the model: it has all channels, equally
    /// long, and the frames can still be counted.
    pub fn takes_input(&self, b: &[Vec<T>]) -> (r: bool)
        requires
            self.wf(),
        ensures
            r == (uniform(block(b@), self@.n_ch) && self@.total() + block(b@)[0].len()
                <= usize::MAX),
            r == accepts(self@, block(b@)),
    {
        if !is_uniform(b, self.n_ch) {
            return false;
        }
        let queued = self.model_q[0].len();
        assert(self.model_q@[0]@ == self@.received[0].skip(self.frames_done - self.consumed));
        let before = self.frames_done - self.consumed;
        b[0].len() <= usize::MAX - (before + queued)
    }

    /// Takes a block that came for the model.
    pub fn model_input(&mut self, b: Vec<Vec<T>>) -> (action: Action<T>)
        requires
            old(self).wf(),
            old(self)@.stage is ResampleIn,
            uniform(block(b@), old(self)@.n_ch),
            old(self)@.total() + block(b@)[0].len() <= usize::MAX,
        ensures
            final(self).wf(),
            (Progress {
                received: joined(old(self)@.received, block(b@)),
                ..old(self)@
            }).moves_on(final(self)@, action),
            step(old(self)@, Event::ModelInput { b: block(b@) }, final(self)@, action),
            hands_on(old(self)@, final(self)@, action),
            forall|c: int|
                0 <= c < old(self)@.n_ch ==> (#[trigger] final(self).waiting(c)) < old(self)@.hop
                    + block(b@)[0].len(),
    {
        let ghost p = self.progress@;
        let ghost added = block(b@);
        let ghost q = Progress { received: joined(p.received, added), ..p };
        append_block(&mut self.model_q, b);
        self.progress = Ghost(q);
        proof {
            assert(q.received[0] == p.received[0] + added[0]);
            assert forall|c: int| 0 <= c < q.n_ch implies (#[trigger] q.received[c]).len()
                == q.received[0].len() by {
                assert(p.received[c].len() == p.received[0].len());
                assert(added[c].len() == added[0].len());
            }
            assert forall|c: int| 0 <= c < q.n_ch implies (#[trigger] self.model_q@[c])@
                == q.received[c].skip(self.frames_done as int) by {
                assert(old(self).model_q@[c]@ == p.received[c].skip(p.done() as int));
                assert(block(self.model_q@)[c] == block(old(self).model_q@)[c] + added[c]);
                assert(p.received[c].len() == p.received[0].len());
                assert(self.model_q@[c]@ =~= q.received[c].skip(p.done() as int));
            }
            assert(q.target() =~= p.target());
        }
        self.advance()
    }

    /// Takes the enhanced hop that came from the model. Of the last hop only
    /// what is audio is kept.
    pub fn model_output(&mut self, frame: Vec<T>) -> (action: Action<T>)
        requires
            old(self).wf(),
            old(self)@.stage is Model,
            frame@.len() == old(self)@.n_ch * old(self)@.hop,
        ensures
            final(self).wf(),
            (Progress {
                enhanced: joined(
                    old(self)@.enhanced,
                    hop_front(frame@, old(self)@.n_ch, old(self)@.hop_len(), old(self)@.hop),
                ),
                ..old(self)@
            }).moves_on(final(self)@, action),
            step(old(self)@, Event::ModelOutput { frame: frame@ }, final(self)@, action),
            hands_on(old(self)@, final(self)@, action),
            forall|c: int|
                0 <= c < old(self)@.n_ch ==> (#[trigger] final(self).waiting(c)) <= old(
                    self,
                ).waiting(c),
    {
        let ghost p = self.progress@;
        assert(self.model_q@[0]@ == p.received[0].skip(self.frames_done - self.consumed));
        let left = self.model_q[0].len() - self.consumed;
        let k = if left < self.hop {
            left
        } else {
            self.hop
        };
        let ghost added = hop_front(frame@, p.n_ch, p.hop_len(), p.hop);
        let ghost q = Progress { enhanced: joined(p.enhanced, added), ..p };
        append_hop(&mut self.enh_q, frame.as_slice(), k, self.hop);
        self.consumed += k;
        self.frames_done += k;
        self.progress = Ghost(q);
        proof {
            assert(k == p.hop_len());
            assert(q.enhanced[0] == p.enhanced[0] + added[0]);
            let sent = p.skip - self.skip_remaining + p.sent();
            assert forall|c: int| 0 <= c < q.n_ch implies (#[trigger] q.enhanced[c]).len()
                == q.enhanced[0].len() by {
                assert(p.enhanced[c].len() == p.enhanced[0].len());
            }
            assert forall|c: int| 0 <= c < q.n_ch implies (#[trigger] self.enh_q@[c])@
                == q.enhanced[c].skip(sent) by {
                assert(old(self).enh_q@[c]@ == p.enhanced[c].skip(sent));
                assert(block(self.enh_q@)[c] == block(old(self).enh_q@)[c] + added[c]);
                assert(p.enhanced[c].len() == p.enhanced[0].len());
                assert(self.enh_q@[c]@ =~= q.enhanced[c].skip(sent));
            }
            assert forall|c: int| 0 <= c < q.n_ch && q.sent() > 0 implies (
            #[trigger] q.forwarded[c]) == q.enhanced[c].subrange(
                q.skip as int,
                (q.skip + q.sent()) as int,
            ) by {
                assert(p.forwarded[c] == p.enhanced[c].subrange(
                    p.skip as int,
                    (p.skip + p.sent()) as int,
                ));
                assert(p.enhanced[c].len() == p.enhanced[0].len());
                assert(p.forwarded[c] =~= q.enhanced[c].subrange(
                    q.skip as int,
                    (q.skip + q.sent()) as int,
                ));
            }
            assert(q.target() =~= p.target());
        }
        self.advance()
    }

    /// Hands the next hop to the model, where it is due, and else all
    /// enhanced audio to the way out.
    fn advance(&mut self) -> (action: Action<T>)
        requires
            old(self).tied(),
            old(self)@.coherent(),
            old(self)@.stage is ResampleIn || old(self)@.stage is Model,
            old(self)@.written() == smaller(old(self)@.returned(), old(self)@.n_out),
        ensures
            final(self).wf(),
            old(self)@.moves_on(final(self)@, action),
            hands_on(old(self)@, final(self)@, action),
            forall|c: int|
                0 <= c < old(self)@.n_ch ==> (#[trigger] final(self).waiting(c)) <= old(
                    self,
                ).waiting(c),
    {
        let ghost p = self.progress@;
        assert(self.model_q@[0]@ == p.received[0].skip(self.frames_done - self.consumed));
        let avail = self.model_q[0].len();
        let left = avail - self.consumed;
        if left >= self.hop || (self.eof && self.consumed < avail) {
            let k = if left < self.hop {
                left
            } else {
                self.hop
            };
            proof {
                assert forall|c: int| 0 <= c < p.n_ch implies self.consumed + k <= (
                #[trigger] block(self.model_q@)[c]).len() by {
                    assert(self.model_q@[c]@ == p.received[c].skip(
                        self.frames_done - self.consumed,
                    ));
                    assert(p.received[c].len() == p.received[0].len());
                }
            }
            let frame = load_hop(
                self.model_q.as_slice(),
                self.consumed,
                k,
                self.hop,
                self.zero,
            );
            self.stage = Stage::Model;
            self.progress = Ghost(Progress { stage: Stage::Model, ..p });
            proof {
                assert(frame@ =~= p.next_hop()) by {
                    lemma_same_hop(
                        block(self.model_q@),
                        p.received,
                        self.consumed as nat,
                        p.done(),
                        k as nat,
                        p.hop,
                        p.zero,
                    );
                }
                assert(self.progress@.target() =~= p.target());
            }
            return Action::Model { frame };
        }
        proof {
            assert forall|c: int| 0 <= c < p.n_ch implies self.consumed <= (#[trigger] block(
                self.model_q@,
            )[c]).len() by {
                assert(self.model_q@[c]@ == p.received[c].skip(self.frames_done - self.consumed));
                assert(p.received[c].len() == p.received[0].len());
            }
        }
        let ghost was_consumed = self.consumed;
        drop_front(&mut self.model_q, self.consumed);
        self.consumed = 0;
        let ghost sent = p.skip - self.skip_remaining + p.sent();
        assert(self.enh_q@[0]@ == p.enhanced[0].skip(sent));
        let ready = self.enh_q[0].len();
        let s = if self.skip_remaining < ready {
            self.skip_remaining
        } else {
            ready
        };
        proof {
            assert forall|c: int| 0 <= c < p.n_ch implies s <= (#[trigger] block(
                self.enh_q@,
            )[c]).len() by {
                assert(self.enh_q@[c]@ == p.enhanced[c].skip(sent));
                assert(p.enhanced[c].len() == p.enhanced[0].len());
            }
        }
        let ghost enh_before = self.enh_q@;
        drop_front(&mut self.enh_q, s);
        self.skip_remaining -= s;
        let ghost rest = block(self.enh_q@);
        let b = take_all(&mut self.enh_q);
        self.stage = Stage::ResampleOut;
        let ghost q = Progress {
            stage: Stage::ResampleOut,
            forwarded: without_front(p.enhanced, smaller(p.skip, p.done())),
            ..p
        };
        self.progress = Ghost(q);
        proof {
            assert forall|c: int| 0 <= c < p.n_ch implies (#[trigger] self.model_q@[c])@
                == q.received[c].skip(self.frames_done as int) by {
                assert(old(self).model_q@[c]@ == p.received[c].skip(
                    self.frames_done - was_consumed,
                ));
                assert(p.received[c].len() == p.received[0].len());
                assert(block(self.model_q@)[c] == block(old(self).model_q@)[c].skip(
                    was_consumed as int,
                ));
                assert(self.model_q@[c]@ =~= q.received[c].skip(self.frames_done as int));
            }
            let d = smaller(p.skip, p.done());
            assert(q.forwarded[0] == p.enhanced[0].skip(d as int));
            assert(q.sent() == p.done() - d);
            assert forall|c: int| 0 <= c < p.n_ch implies (#[trigger] q.forwarded[c]).len()
                == q.forwarded[0].len() by {
                assert(p.enhanced[c].len() == p.enhanced[0].len());
            }
            assert forall|c: int| 0 <= c < p.n_ch && q.sent() > 0 implies (
            #[trigger] q.forwarded[c]) == q.enhanced[c].subrange(
                q.skip as int,
                (q.skip + q.sent()) as int,
            ) by {
                assert(p.enhanced[c].len() == p.enhanced[0].len());
                assert(q.forwarded[c] =~= q.enhanced[c].subrange(
                    q.skip as int,
                    (q.skip + q.sent()) as int,
                ));
            }
            assert(sent + s == d + p.sent());
            let out = without_front(q.forwarded, p.sent());
            assert forall|c: int| 0 <= c < p.n_ch implies (#[trigger] block(b@)[c]) == out[c] by {
                assert(enh_before[c]@ == p.enhanced[c].skip(sent));
                assert(rest[c] == block(enh_before)[c].skip(s as int));
                assert(p.enhanced[c].len() == p.enhanced[0].len());
                assert(block(b@)[c] =~= out[c]);
            }
            assert(block(b@) =~= out);
            assert forall|c: int| 0 <= c < p.n_ch implies (#[trigger] q.forwarded[c])
                == p.forwarded[c] + b@[c]@ by {
                assert(block(b@)[c] == q.forwarded[c].skip(p.sent() as int));
                assert(p.forwarded[c].len() == p.sent());
                assert(p.enhanced[c].len() == p.enhanced[0].len());
                if p.sent() > 0 {
                    assert(p.forwarded[c] == p.enhanced[c].subrange(
                        p.skip as int,
                        (p.skip + p.sent()) as int,
                    ));
                }
                assert(q.forwarded[c] =~= p.forwarded[c] + b@[c]@);
            }
            assert forall|c: int| 0 <= c < p.n_ch implies (#[trigger] self.enh_q@[c])@
                == q.enhanced[c].skip(q.skip - self.skip_remaining + q.sent()) by {
                assert(p.enhanced[c].len() == p.enhanced[0].len());
                assert(self.enh_q@[c]@ =~= q.enhanced[c].skip(
                    q.skip - self.skip_remaining + q.sent(),
                ));
            }
            assert(q.target() =~= p.target());
        }
        Action::ResampleOut { block: b, flush: self.eof }
    }
}

impl<T: Copy> Session<T> {
    /// Takes a block that came back at the rate of the file. As much of it is
    /// written as the output still lacks.
    pub fn resampled(&mut self, b: Vec<Vec<T>>) -> (action: Action<T>)
        requires
            old(self).wf(),
            old(self)@.stage is ResampleOut,
            uniform(block(b@), old(self)@.n_ch),
        ensures
            final(self).wf(),
            ({
                let p = old(self)@;
                let w = smaller(block(b@)[0].len(), (p.n_out - p.written()) as nat);
                &&& final(self)@ == (Progress {
                    stage: Stage::Write,
                    resampled: joined(p.resampled, block(b@)),
                    emitted: joined(p.emitted, front(block(b@), w)),
                    ..p
                })
                &&& action == (Action::<T>::Write { block: b, frames: w as usize })
            }),
            step(old(self)@, Event::Resampled { b: block(b@) }, final(self)@, action),
    {
        let ghost p = self.progress@;
        let ghost added = block(b@);
        let room = self.n_out - self.written;
        let w = if b[0].len() < room {
            b[0].len()
        } else {
            room
        };
        self.written += w;
        self.stage = Stage::Write;
        let ghost q = Progress {
            stage: Stage::Write,
            resampled: joined(p.resampled, added),
            emitted: joined(p.emitted, front(added, w as nat)),
            ..p
        };
        self.progress = Ghost(q);
        proof {
            assert(q.resampled[0] == p.resampled[0] + added[0]);
            assert(q.emitted[0] == p.emitted[0] + added[0].take(w as int));
            assert forall|c: int| 0 <= c < q.n_ch implies (#[trigger] q.resampled[c]).len()
                == q.resampled[0].len() by {
                assert(p.resampled[c].len() == p.resampled[0].len());
                assert(added[c].len() == added[0].len());
            }
            assert forall|c: int| 0 <= c < q.n_ch implies (#[trigger] q.emitted[c]).len()
                == q.emitted[0].len() by {
                assert(p.emitted[c].len() == p.emitted[0].len());
                assert(added[c].len() == added[0].len());
            }
            assert forall|c: int| 0 <= c < q.n_ch implies (#[trigger] q.emitted[c])
                == q.target()[c].take(q.written() as int) by {
                assert(p.emitted[c] == p.target()[c].take(p.written() as int));
                assert(p.resampled[c].len() == p.resampled[0].len());
                assert(added[c].len() == added[0].len());
                assert(q.emitted[c] =~= q.target()[c].take(q.written() as int));
            }
        }
        Action::Write { block: b, frames: w }
    }

    /// Takes note that a block was written. The next block is read, perhaps
    /// after a checkpoint; or, where the file has ended, what the output still
    /// lacks is filled up with silence.
    pub fn write_done(&mut self) -> (action: Action<T>)
        requires
            old(self).wf(),
            old(self)@.stage is Write,
        ensures
            final(self).wf(),
            ({
                let p = old(self)@;
                let missing = (p.n_out - p.written()) as nat;
                let w = smaller(READ_FRAMES as nat, missing);
                if p.eof && missing > 0 {
                    &&& final(self)@ == (Progress {
                        emitted: joined(p.emitted, silent(p.n_ch, w, p.zero)),
                        ..p
                    })
                    &&& action matches Action::Pad { block: b, frames, missing: m }
                    &&& block(b@) == silent(p.n_ch, READ_FRAMES as nat, p.zero)
                    &&& frames == w
                    &&& m == missing
                    &&& final(self)@.emitted == joined(p.emitted, front(block(b@), w))
                } else if p.eof {
                    &&& final(self)@ == (Progress { stage: Stage::Finished, ..p })
                    &&& action == Action::<T>::Finalize
                } else if p.done() - p.flushed >= p.sr * CHECKPOINT_SECONDS {
                    &&& final(self)@ == (Progress {
                        stage: Stage::Checkpoint,
                        flushed: p.done(),
                        ..p
                    })
                    &&& action == Action::<T>::Checkpoint
                } else {
                    &&& final(self)@ == (Progress { stage: Stage::Read, ..p })
                    &&& action == (Action::<T>::Read { max_frames: READ_FRAMES })
                }
            }),
            step(old(self)@, Event::WriteDone, final(self)@, action),
    {
        let ghost p = self.progress@;
        if self.eof {
            if self.written < self.n_out {
                let missing = self.n_out - self.written;
                let w = if READ_FRAMES < missing {
                    READ_FRAMES
                } else {
                    missing
                };
                let b = silence(self.n_ch, READ_FRAMES, self.zero);
                self.written += w;
                let ghost q = Progress {
                    emitted: joined(p.emitted, silent(p.n_ch, w as nat, p.zero)),
                    ..p
                };
                self.progress = Ghost(q);
                proof {
                    let cut = front(block(b@), w as nat);
                    assert forall|c: int| 0 <= c < q.n_ch implies (#[trigger] cut[c]) == silent(
                        p.n_ch,
                        w as nat,
                        p.zero,
                    )[c] by {
                        assert(cut[c] =~= silent(p.n_ch, w as nat, p.zero)[c]);
                    }
                    assert(cut =~= silent(p.n_ch, w as nat, p.zero));
                    assert forall|c: int| 0 <= c < q.n_ch implies (#[trigger] q.emitted[c]).len()
                        == q.emitted[0].len() by {
                        assert(p.emitted[c].len() == p.emitted[0].len());
                    }
                    assert forall|c: int| 0 <= c < q.n_ch implies (#[trigger] q.emitted[c])
                        == q.target()[c].take(q.written() as int) by {
                        assert(p.emitted[c] == p.target()[c].take(p.written() as int));
                        assert(p.resampled[c].len() == p.resampled[0].len());
                        assert(p.target() =~= q.target());
                        assert(q.emitted[c] =~= q.target()[c].take(q.written() as int));
                    }
                }
                return Action::Pad { block: b, frames: w, missing };
            }
            self.stage = Stage::Finished;
            self.progress = Ghost(Progress { stage: Stage::Finished, ..p });
            assert(self.progress@.target() =~= p.target());
            return Action::Finalize;
        }
        if self.frames_done - self.last_flush >= self.sr * CHECKPOINT_SECONDS {
            self.last_flush = self.frames_done;
            self.stage = Stage::Checkpoint;
            self.progress = Ghost(
                Progress { stage: Stage::Checkpoint, flushed: p.done(), ..p },
            );
            assert(self.progress@.target() =~= p.target());
            return Action::Checkpoint;
        }
        self.stage = Stage::Read;
        self.progress = Ghost(Progress { stage: Stage::Read, ..p });
        assert(self.progress@.target() =~= p.target());
        Action::Read { max_frames: READ_FRAMES }
    }

    /// Takes note that the output was checkpointed.
    pub fn checkpoint_done(&mut self) -> (action: Action<T>)
        requires
            old(self).wf(),
            old(self)@.stage is Checkpoint,
        ensures
            final(self).wf(),
            final(self)@ == (Progress { stage: Stage::Read, ..old(self)@ }),
            action == (Action::<T>::Read { max_frames: READ_FRAMES }),
            step(old(self)@, Event::CheckpointDone, final(self)@, action),
    {
        let ghost p = self.progress@;
        self.stage = Stage::Read;
        self.progress = Ghost(Progress { stage: Stage::Read, ..p });
        assert(self.progress@.target() =~= p.target());
        Action::Read { max_frames: READ_FRAMES }
    }

    /// Who has the audio.
    pub fn stage(&self) -> (stage: Stage)
        requires
            self.wf(),
        ensures
            stage == self@.stage,
    {
        self.stage
    }

    /// How many frames the model has enhanced so far.
    pub fn frames_done(&self) -> (n: usize)
        requires
            self.wf(),
        ensures
            n == self@.done(),
    {
        self.frames_done
    }
}

/// Two blocks that agree on `k` frames, each from a frame of its own on, have
/// the same hop there.
proof fn lemma_same_hop<T>(
    a: Seq<Seq<T>>,
    b: Seq<Seq<T>>,
    from_a: nat,
    from_b: nat,
    k: nat,
    hop: nat,
    zero: T,
)
    requires
        a.len() == b.len(),
        hop > 0,
        forall|c: int, j: int|
            0 <= c < a.len() && 0 <= j < k ==> (#[trigger] a[c][from_a + j]) == b[c][from_b + j],
    ensures
        padded_hop(a, from_a, k, hop, zero) == padded_hop(b, from_b, k, hop, zero),
{
    let x = padded_hop(a, from_a, k, hop, zero);
    let y = padded_hop(b, from_b, k, hop, zero);
    assert forall|i: int| 0 <= i < x.len() implies x[i] == y[i] by {
        lemma_place_of(i, hop as int);
        let c = i / (hop as int);
        let j = i % (hop as int);
        if j < k {
            if c >= a.len() {
                assert(c * hop >= a.len() * hop) by (nonlinear_arith)
                    requires
                        c >= a.len(),
                        hop > 0,
                ;
            }
            assert(a[c][from_a + j] == b[c][from_b + j]);
        }
    }
    assert(x =~= y);
}

/// Whatever a session was told, and whoever is next, its history is in order.
pub proof fn law_session_valid<T>(session: &Session<T>)
    requires
        session.wf(),
    ensures
        session@.valid(),
{
}

/// The output of a finished session has exactly the planned length in every
/// channel: it is the audio that came back at the rate of the file, cut off
/// or filled up with silence.
pub proof fn law_output_has_planned_length<T>(p: Progress<T>)
    requires
        p.valid(),
        p.stage is Finished,
    ensures
        p.written() == p.n_out,
        p.emitted == p.target(),
        has_frames(p.emitted, p.n_out),
{
    assert forall|c: int| 0 <= c < p.n_ch implies (#[trigger] p.emitted[c]) == p.target()[c] by {
        assert(p.emitted[c] =~= p.target()[c]);
    }
    assert(p.emitted =~= p.target());
}

/// What is written never exceeds the planned length, and is at every stage a
/// beginning of what the output should be.
pub proof fn law_output_is_never_too_long<T>(p: Progress<T>)
    requires
        p.valid(),
    ensures
        p.written() <= p.n_out,
        p.emitted == front(p.target(), p.written()),
{
    assert(p.emitted =~= front(p.target(), p.written()));
}

/// Once the session is finished, the model has enhanced all audio that came
/// for it, and all of that but the skip at the start went on to be resampled.
pub proof fn law_all_audio_is_enhanced<T>(p: Progress<T>)
    requires
        p.valid(),
        p.stage is Finished,
    ensures
        p.done() == p.total(),
        p.forwarded == without_front(p.enhanced, smaller(p.skip, p.total())),
{
    let want = without_front(p.enhanced, smaller(p.skip, p.total()));
    assert forall|c: int| 0 <= c < p.n_ch implies (#[trigger] p.forwarded[c]) == want[c] by {
        assert(p.enhanced[c].len() == p.enhanced[0].len());
        assert(p.forwarded[c].len() == p.forwarded[0].len());
        assert(p.forwarded[c] =~= want[c]);
    }
    assert(p.forwarded =~= want);
}

/// Between two blocks less than a hop waits for the model, and nothing waits
/// to be resampled: what is queued does not grow with the file.
pub proof fn law_queues_stay_short<T>(session: &Session<T>, c: int)
    requires
        session.wf(),
        0 <= c < session@.n_ch,
    ensures
        session.ready(c) <= session.waiting(c),
        session@.stage is Read ==> session.waiting(c) < session@.hop && session.ready(c) == 0,
{
    let p = session@;
    assert(session.model_q@[c]@ == p.received[c].skip(session.frames_done - session.consumed));
    assert(session.enh_q@[c]@ == p.enhanced[c].skip(
        p.skip - session.skip_remaining + p.sent(),
    ));
    assert(p.received[c].len() == p.received[0].len());
    assert(p.enhanced[c].len() == p.enhanced[0].len());
}

} // verus!
