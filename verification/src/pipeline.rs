//! What one encode reports, from the first line to the end of the run.
use crate::dct_backend::{ComputeBackend, DctAlgorithm};
use crate::media_backend::PipelineMsg;
use crate::text::push_decimal;
use vstd::prelude::*;

verus! {

/// How far a run has come.
#[derive(Debug, Clone, Copy, PartialEq, Eq, Structural)]
pub enum RunPhase {
    /// The compute backend is being set up.
    Opening,
    /// Frames are decoded, transformed and encoded.
    Running,
    /// The run has reported how it ended.
    Ended,
}

/// The frame numbers reported, in order.
pub open spec fn progress_of(sent: Seq<crate::media_backend::MsgView>) -> Seq<u64>
    decreases sent.len(),
{
    if sent.len() == 0 {
        seq![]
    } else {
        match sent.last() {
            crate::media_backend::MsgView::Progress { current, total } => progress_of(
                sent.drop_last(),
            ).push(current),
            _ => progress_of(sent.drop_last()),
        }
    }
}

/// What holds of the messages of a run at any time: it starts with the line that
/// says which backend is being set up, and says nothing more until that is done;
/// only its last message can be final, that is so exactly when it has ended, and
/// frames are reported one by one from 1.
pub open spec fn in_order(
    sent: Seq<crate::media_backend::MsgView>,
    phase: RunPhase,
    frames: u64,
) -> bool {
    &&& sent.len() > 0
    &&& is_opening(sent[0])
    &&& phase == RunPhase::Opening ==> sent.len() == 1
    &&& forall|i: int| 0 <= i < sent.len() - 1 ==> !(#[trigger] sent[i]).is_final()
    &&& phase == RunPhase::Ended <==> sent.last().is_final()
    &&& progress_of(sent) == Seq::new(frames as nat, |i: int| (i + 1) as u64)
}

/// The message is the first line of a run.
pub open spec fn is_opening(msg: crate::media_backend::MsgView) -> bool {
    exists|compute: ComputeBackend, algorithm: DctAlgorithm|
        msg == crate::media_backend::MsgView::Log(#[trigger] opening_line(compute, algorithm))
}

/// A run starts with a log line that begins with `initializing `.
pub proof fn law_a_run_says_what_it_initializes(
    sent: Seq<crate::media_backend::MsgView>,
    phase: RunPhase,
    frames: u64,
)
    requires
        in_order(sent, phase, frames),
    ensures
        sent[0] matches crate::media_backend::MsgView::Log(line) && crate::text::begins_with(
            line,
            "initializing "@,
        ),
{
    let (compute, algorithm) = choose|compute: ComputeBackend, algorithm: DctAlgorithm|
        sent[0] == crate::media_backend::MsgView::Log(#[trigger] opening_line(compute, algorithm));
    let line = opening_line(compute, algorithm);
    assert(line.take("initializing "@.len() as int) =~= "initializing "@);
}

/// What a run has reported once it is concluded: its result is its last message,
/// nothing is final before that, and it is an error exactly if the run failed. A
/// run whose compute backend could not be set up reports two messages, the line
/// that says what it initializes and the error.
pub proof fn law_a_run_ends_as_it_went(
    sent: Seq<crate::media_backend::MsgView>,
    phase: RunPhase,
    frames: u64,
    outcome: Result<(), Seq<char>>,
    output: Seq<char>,
    i: int,
)
    requires
        in_order(sent, phase, frames),
        phase != RunPhase::Ended,
        0 <= i < (sent + closing(frames, outcome, output)).len(),
    ensures
        ({
            let all = sent + closing(frames, outcome, output);
            &&& all[i].is_final() <==> i == all.len() - 1
            &&& all.last() is Error <==> outcome is Err
            &&& all.last() is Done <==> outcome is Ok
            &&& outcome matches Err(e) ==> {
                &&& all.last() == crate::media_backend::MsgView::Error(e)
                &&& phase == RunPhase::Opening ==> all.len() == 2 && all[0] == sent[0]
            }
        }),
{
    let all = sent + closing(frames, outcome, output);
    if i < sent.len() {
        assert(all[i] == sent[i]);
    }
}

/// A run that has ended reported its end once, as the last message; one that
/// has not, not at all.
pub proof fn law_a_run_ends_once(
    sent: Seq<crate::media_backend::MsgView>,
    phase: RunPhase,
    frames: u64,
    i: int,
)
    requires
        in_order(sent, phase, frames),
        0 <= i < sent.len(),
    ensures
        sent[i].is_final() <==> phase == RunPhase::Ended && i == sent.len() - 1,
{
}

/// One encode: what it has reported, and how many frames it has done.
pub struct EncodeRun {
    phase: RunPhase,
    frames: u64,
    total: u64,
    sent: Ghost<Seq<crate::media_backend::MsgView>>,
}

/// The first line of a run.
pub open spec fn opening_line(compute: ComputeBackend, algorithm: DctAlgorithm) -> Seq<char> {
    "initializing "@ + compute.name() + " DCT backend ("@ + algorithm.name() + ")..."@
}

/// The line that says what was written.
pub open spec fn wrote_line(frames: u64, output: Seq<char>) -> Seq<char> {
    "wrote "@ + crate::text::decimal(frames as nat) + " frames to "@ + output
}

/// What a run reports at its end: what was written and that it is done, or why it
/// failed.
pub open spec fn closing(
    frames: u64,
    outcome: Result<(), Seq<char>>,
    output: Seq<char>,
) -> Seq<crate::media_backend::MsgView> {
    match outcome {
        Ok(_) => seq![
            crate::media_backend::MsgView::Log(wrote_line(frames, output)),
            crate::media_backend::MsgView::Done,
        ],
        Err(e) => seq![crate::media_backend::MsgView::Error(e)],
    }
}

/// The messages, their texts as sequences of characters.
pub open spec fn msg_views(msgs: Seq<PipelineMsg>) -> Seq<crate::media_backend::MsgView> {
    Seq::new(msgs.len(), |i: int| msgs[i]@)
}

/// Runs an encode: the compute backend is built once, and then handed to the
/// media backend, which is not run at all if that failed.
pub fn run<B, F: FnOnce() -> Result<B, String>, G: FnOnce(B) -> Result<(), String>>(
    build: F,
    encode: G,
) -> (res: Result<(), String>)
    requires
        call_requires(build, ()),
        forall|backend: B| #[trigger]
            call_ensures(build, (), Ok::<B, String>(backend)) ==> call_requires(
                encode,
                (backend,),
            ),
    ensures
        exists|built: Result<B, String>|
            {
                &&& #[trigger] call_ensures(build, (), built)
                &&& match built {
                    Ok(backend) => call_ensures(encode, (backend,), res),
                    Err(e) => res matches Err(error) && error == e,
                }
            },
{
    match build() {
        Ok(backend) => encode(backend),
        Err(e) => Err(e),
    }
}

/// One message more.
proof fn lemma_sent(
    sent: Seq<crate::media_backend::MsgView>,
    phase: RunPhase,
    frames: u64,
    msg: crate::media_backend::MsgView,
)
    requires
        in_order(sent, phase, frames),
        phase != RunPhase::Ended,
    ensures
        ({
            let after = if msg.is_final() {
                RunPhase::Ended
            } else {
                RunPhase::Running
            };
            match msg {
                crate::media_backend::MsgView::Progress { current, total } => current == frames + 1
                    ==> in_order(sent.push(msg), after, current),
                _ => in_order(sent.push(msg), after, frames),
            }
        }),
{
    let longer = sent.push(msg);
    assert(longer.drop_last() =~= sent);
    assert(longer.last() == msg);
    assert(longer[0] == sent[0]);
    assert forall|i: int| 0 <= i < longer.len() - 1 implies !(#[trigger] longer[i]).is_final() by {
        assert(longer[i] == sent[i]);
    }
    if let crate::media_backend::MsgView::Progress { current, total } = msg {
        if current == frames + 1 {
            assert(progress_of(longer) =~= Seq::new(current as nat, |i: int| (i + 1) as u64));
        }
    }
}

impl EncodeRun {
    /// How far the run has come.
    pub closed spec fn phase(self) -> RunPhase {
        self.phase
    }

    /// How many frames are done.
    pub closed spec fn frames(self) -> u64 {
        self.frames
    }

    /// How many frames there are, as far as known; 0 while it is not.
    pub closed spec fn total(self) -> u64 {
        self.total
    }

    /// What the run has reported.
    pub closed spec fn sent(self) -> Seq<crate::media_backend::MsgView> {
        self.sent@
    }

    /// The messages are in order.
    #[verifier::type_invariant]
    spec fn well_formed(self) -> bool {
        in_order(self.sent@, self.phase, self.frames)
    }

    /// Starts a run, and gives its first message.
    pub fn start(compute: ComputeBackend, algorithm: DctAlgorithm) -> (res: (Self, PipelineMsg))
        ensures
            in_order(res.0.sent(), res.0.phase(), res.0.frames()),
            res.0.phase() == RunPhase::Opening,
            res.0.frames() == 0,
            res.0.total() == 0,
            res.0.sent() == seq![res.1@],
            res.1@ == crate::media_backend::MsgView::Log(opening_line(compute, algorithm)),
    {
        let mut line = "initializing ".to_owned();
        line.append(compute.label());
        line.append(" DCT backend (");
        line.append(algorithm.label());
        line.append(")...");
        let msg = PipelineMsg::Log(line);
        let ghost sent = seq![msg@];
        proof {
            assert(msg@ == crate::media_backend::MsgView::Log(opening_line(compute, algorithm)));
            assert(is_opening(sent[0]));
            assert(sent.drop_last() =~= seq![]);
            reveal_with_fuel(progress_of, 2);
            assert(progress_of(sent) =~= Seq::new(0, |i: int| (i + 1) as u64));
        }
        let run = EncodeRun {
            phase: RunPhase::Opening,
            frames: 0,
            total: 0,
            sent: Ghost(sent),
        };
        (run, msg)
    }

    /// The compute backend is up and the input is being opened. Nothing is
    /// reported, and nothing changes, once the run has left the opening phase.
    pub fn open_input(&mut self) -> (res: Option<PipelineMsg>)
        ensures
            in_order(final(self).sent(), final(self).phase(), final(self).frames()),
            match res {
                Some(msg) => {
                    &&& old(self).phase() == RunPhase::Opening
                    &&& msg@ == crate::media_backend::MsgView::Log("opening input..."@)
                    &&& final(self).phase() == RunPhase::Running
                    &&& final(self).sent() == old(self).sent().push(msg@)
                    &&& final(self).frames() == old(self).frames()
                    &&& final(self).total() == old(self).total()
                },
                None => old(self).phase() != RunPhase::Opening && *final(self) == *old(self),
            },
    {
        proof {
            use_type_invariant(&*self);
        }
        if self.phase != RunPhase::Opening {
            return None;
        }
        let msg = PipelineMsg::Log("opening input...".to_owned());
        proof {
            lemma_sent(self.sent@, self.phase, self.frames, msg@);
        }
        *self =
        EncodeRun {
            phase: RunPhase::Running,
            frames: self.frames,
            total: self.total,
            sent: Ghost(self.sent@.push(msg@)),
        };
        Some(msg)
    }

    /// A line for the log, while the run is running.
    pub fn log(&mut self, line: String) -> (res: Option<PipelineMsg>)
        ensures
            in_order(final(self).sent(), final(self).phase(), final(self).frames()),
            match res {
                Some(msg) => {
                    &&& old(self).phase() == RunPhase::Running
                    &&& msg@ == crate::media_backend::MsgView::Log(line@)
                    &&& final(self).phase() == RunPhase::Running
                    &&& final(self).sent() == old(self).sent().push(msg@)
                    &&& final(self).frames() == old(self).frames()
                    &&& final(self).total() == old(self).total()
                },
                None => old(self).phase() != RunPhase::Running && *final(self) == *old(self),
            },
    {
        proof {
            use_type_invariant(&*self);
        }
        if self.phase != RunPhase::Running {
            return None;
        }
        let msg = PipelineMsg::Log(line);
        proof {
            lemma_sent(self.sent@, self.phase, self.frames, msg@);
        }
        *self =
        EncodeRun {
            phase: RunPhase::Running,
            frames: self.frames,
            total: self.total,
            sent: Ghost(self.sent@.push(msg@)),
        };
        Some(msg)
    }

    /// The number of frames became known.
    pub fn set_total(&mut self, total: u64)
        ensures
            in_order(final(self).sent(), final(self).phase(), final(self).frames()),
            final(self).total() == total,
            final(self).phase() == old(self).phase(),
            final(self).frames() == old(self).frames(),
            final(self).sent() == old(self).sent(),
    {
        proof {
            use_type_invariant(&*self);
        }
        self.total = total;
    }

    /// One frame more is done.
    pub fn frame_done(&mut self) -> (res: Option<PipelineMsg>)
        requires
            old(self).frames() < u64::MAX,
        ensures
            in_order(final(self).sent(), final(self).phase(), final(self).frames()),
            match res {
                Some(msg) => {
                    &&& old(self).phase() == RunPhase::Running
                    &&& msg@ == (crate::media_backend::MsgView::Progress {
                        current: (old(self).frames() + 1) as u64,
                        total: old(self).total(),
                    })
                    &&& final(self).phase() == RunPhase::Running
                    &&& final(self).sent() == old(self).sent().push(msg@)
                    &&& final(self).frames() == old(self).frames() + 1
                    &&& final(self).total() == old(self).total()
                },
                None => old(self).phase() != RunPhase::Running && *final(self) == *old(self),
            },
    {
        proof {
            use_type_invariant(&*self);
        }
        if self.phase != RunPhase::Running {
            return None;
        }
        let current: u64 = self.frames + 1;
        let msg = PipelineMsg::Progress { current, total: self.total };
        proof {
            lemma_sent(self.sent@, self.phase, self.frames, msg@);
        }
        *self =
        EncodeRun {
            phase: RunPhase::Running,
            frames: current,
            total: self.total,
            sent: Ghost(self.sent@.push(msg@)),
        };
        Some(msg)
    }

    /// The run is over, and this is how it went. Only the first end of a run is
    /// reported.
    pub fn conclude(&mut self, outcome: Result<(), String>, output: &str) -> (msgs: Vec<PipelineMsg>)
        ensures
            in_order(final(self).sent(), final(self).phase(), final(self).frames()),
            final(self).phase() == RunPhase::Ended,
            final(self).sent() == old(self).sent() + msg_views(msgs@),
            final(self).frames() == old(self).frames(),
            final(self).total() == old(self).total(),
            msg_views(msgs@) == (if old(self).phase() == RunPhase::Ended {
                Seq::empty()
            } else {
                closing(
                    old(self).frames(),
                    match outcome {
                        Ok(_) => Ok(()),
                        Err(e) => Err(e@),
                    },
                    output@,
                )
            }),
    {
        proof {
            use_type_invariant(&*self);
        }
        let mut msgs: Vec<PipelineMsg> = Vec::new();
        if self.phase == RunPhase::Ended {
            assert(msg_views(msgs@) =~= Seq::empty());
            assert(self.sent@ + msg_views(msgs@) =~= self.sent@);
            return msgs;
        }
        let ghost before = self.sent@;
        let ghost mut after = before;
        match outcome {
            Ok(()) => {
                let mut line = "wrote ".to_owned();
                push_decimal(&mut line, self.frames);
                line.append(" frames to ");
                line.append(output);
                let wrote = PipelineMsg::Log(line);
                let done = PipelineMsg::Done;
                proof {
                    lemma_sent(before, self.phase, self.frames, wrote@);
                    lemma_sent(before.push(wrote@), RunPhase::Running, self.frames, done@);
                    after = before.push(wrote@).push(done@);
                }
                msgs.push(wrote);
                msgs.push(done);
            },
            Err(e) => {
                let failed = PipelineMsg::Error(e);
                proof {
                    lemma_sent(before, self.phase, self.frames, failed@);
                    after = before.push(failed@);
                }
                msgs.push(failed);
            },
        }
        proof {
            assert(msg_views(msgs@) =~= closing(
                self.frames,
                match outcome {
                    Ok(_) => Ok(()),
                    Err(e) => Err(e@),
                },
                output@,
            ));
            assert(after =~= before + msg_views(msgs@));
        }
        *self =
        EncodeRun {
            phase: RunPhase::Ended,
            frames: self.frames,
            total: self.total,
            sent: Ghost(after),
        };
        msgs
    }
}

} // verus!
