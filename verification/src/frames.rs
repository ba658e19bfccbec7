//! Two frames in flight: which slot a frame goes to, when it is taken back, and
//! in which order frames leave.
use crate::dct_backend::{DctBackend, RgbPlanes, TransformError};
use vstd::prelude::*;

verus! {

/// One call on a compute backend.
#[derive(Debug, Clone, Copy, PartialEq, Eq, Structural)]
pub enum SlotOp {
    /// Frame `frame` is handed to `slot`.
    Submit { slot: usize, frame: u64 },
    /// Frame `frame` is taken back from `slot`.
    Finish { slot: usize, frame: u64 },
}

/// What waits in the two slots.
pub ghost struct Slots {
    pub zero: Option<u64>,
    pub one: Option<u64>,
}

impl Slots {
    /// The frame in a slot.
    pub open spec fn at(self, slot: int) -> Option<u64> {
        if slot == 0 {
            self.zero
        } else {
            self.one
        }
    }

    /// The slots with another content in one of them.
    pub open spec fn with(self, slot: int, frame: Option<u64>) -> Slots {
        if slot == 0 {
            Slots { zero: frame, ..self }
        } else {
            Slots { one: frame, ..self }
        }
    }
}

/// The slots after a run of calls, or `None` if some call was out of place: a
/// frame handed to a slot in use, or taken from a slot that does not hold it.
pub open spec fn replay(ops: Seq<SlotOp>) -> Option<Slots>
    decreases ops.len(),
{
    if ops.len() == 0 {
        Some(Slots { zero: None, one: None })
    } else {
        match replay(ops.drop_last()) {
            None => None,
            Some(slots) => match ops.last() {
                SlotOp::Submit { slot, frame } => if slot < 2 && slots.at(slot as int) is None {
                    Some(slots.with(slot as int, Some(frame)))
                } else {
                    None
                },
                SlotOp::Finish { slot, frame } => if slot < 2 && slots.at(slot as int) == Some(
                    frame,
                ) {
                    Some(slots.with(slot as int, None))
                } else {
                    None
                },
            },
        }
    }
}

/// The frames handed over, in order.
pub open spec fn submits(ops: Seq<SlotOp>) -> Seq<u64>
    decreases ops.len(),
{
    if ops.len() == 0 {
        seq![]
    } else {
        match ops.last() {
            SlotOp::Submit { slot, frame } => submits(ops.drop_last()).push(frame),
            SlotOp::Finish { slot, frame } => submits(ops.drop_last()),
        }
    }
}

/// The frames taken back, in order.
pub open spec fn finishes(ops: Seq<SlotOp>) -> Seq<u64>
    decreases ops.len(),
{
    if ops.len() == 0 {
        seq![]
    } else {
        match ops.last() {
            SlotOp::Submit { slot, frame } => finishes(ops.drop_last()),
            SlotOp::Finish { slot, frame } => finishes(ops.drop_last()).push(frame),
        }
    }
}

/// The numbers `0`, `1` and so on, `n` of them.
pub open spec fn counted(n: nat) -> Seq<u64> {
    Seq::new(n, |i: int| i as u64)
}

/// One call more.
proof fn lemma_one_more(ops: Seq<SlotOp>, op: SlotOp)
    ensures
        ops.push(op).drop_last() == ops,
        ops.push(op).last() == op,
{
    assert(ops.push(op).drop_last() =~= ops);
}

/// How many of `n` frames handed over have been taken back: the first at once,
/// and then all but the last two.
pub open spec fn taken_of(n: int) -> int {
    if n <= 1 {
        n
    } else if n <= 3 {
        1
    } else {
        n - 2
    }
}

/// The calls for frame `n`: the first frame is handed over and taken back at
/// once; a later one goes to its slot after the frame that was there is taken
/// back.
pub open spec fn frame_ops(n: int) -> Seq<SlotOp> {
    let slot = (n % 2) as usize;
    if n == 0 {
        seq![SlotOp::Submit { slot: 0, frame: 0 }, SlotOp::Finish { slot: 0, frame: 0 }]
    } else if n < 3 {
        seq![SlotOp::Submit { slot, frame: n as u64 }]
    } else {
        seq![
            SlotOp::Finish { slot, frame: (n - 2) as u64 },
            SlotOp::Submit { slot, frame: n as u64 },
        ]
    }
}

/// The calls that take back what is left after `n` frames, oldest first.
pub open spec fn drain_ops(n: int) -> Seq<SlotOp> {
    if n <= 1 {
        seq![]
    } else if n == 2 {
        seq![SlotOp::Finish { slot: 1, frame: 1 }]
    } else {
        seq![
            SlotOp::Finish { slot: ((n - 2) % 2) as usize, frame: (n - 2) as u64 },
            SlotOp::Finish { slot: ((n - 1) % 2) as usize, frame: (n - 1) as u64 },
        ]
    }
}

/// All the calls for `n` frames, before anything is drained.
pub open spec fn all_ops(n: nat) -> Seq<SlotOp>
    decreases n,
{
    if n == 0 {
        seq![]
    } else {
        all_ops((n - 1) as nat) + frame_ops(n - 1)
    }
}

/// The frame that waits in a slot after `n` frames.
pub open spec fn waiting(n: int, slot: int) -> Option<u64> {
    if n >= 2 && (n - 1) % 2 == slot {
        Some((n - 1) as u64)
    } else if n >= 3 && (n - 2) % 2 == slot {
        Some((n - 2) as u64)
    } else {
        None
    }
}

/// Two more calls are one call and another.
proof fn lemma_two_more(ops: Seq<SlotOp>, a: SlotOp, b: SlotOp)
    ensures
        ops + seq![a, b] == ops.push(a).push(b),
        ops + seq![a] == ops.push(a),
{
    assert(ops + seq![a, b] =~= ops.push(a).push(b));
    assert(ops + seq![a] =~= ops.push(a));
}

/// After `n` frames the calls are all in place, the slots hold the last two
/// frames, and frames were handed over and taken back in order.
proof fn lemma_all_ops(n: nat)
    requires
        n <= u64::MAX,
    ensures
        replay(all_ops(n)) == Some(Slots { zero: waiting(n as int, 0), one: waiting(n as int, 1) }),
        submits(all_ops(n)) == counted(n),
        finishes(all_ops(n)) == counted(taken_of(n as int) as nat),
    decreases n,
{
    reveal_with_fuel(replay, 3);
    reveal_with_fuel(submits, 3);
    reveal_with_fuel(finishes, 3);
    if n == 0 {
        assert(counted(0) =~= seq![]);
    } else {
        let k = (n - 1) as nat;
        lemma_all_ops(k);
        let before = all_ops(k);
        let ops = frame_ops(k as int);
        if k == 0 {
            lemma_two_more(before, ops[0], ops[1]);
            assert(ops =~= seq![ops[0], ops[1]]);
            lemma_one_more(before, ops[0]);
            lemma_one_more(before.push(ops[0]), ops[1]);
            assert(counted(0).push(0) =~= counted(1));
        } else if k < 3 {
            lemma_two_more(before, ops[0], ops[0]);
            assert(ops =~= seq![ops[0]]);
            lemma_one_more(before, ops[0]);
            assert(counted(k).push(k as u64) =~= counted(n));
        } else {
            lemma_two_more(before, ops[0], ops[1]);
            assert(ops =~= seq![ops[0], ops[1]]);
            lemma_one_more(before, ops[0]);
            lemma_one_more(before.push(ops[0]), ops[1]);
            assert(counted(k).push(k as u64) =~= counted(n));
            assert(counted((k - 2) as nat).push((k - 2) as u64) =~= counted((k - 1) as nat));
        }
    }
}

/// No slot is ever handed a frame while it holds one, at most two frames are in
/// flight, and frames come back in the order they went out, each once.
pub proof fn law_frames_flow_in_order(n: nat)
    requires
        n <= u64::MAX,
    ensures
        replay(all_ops(n)) is Some,
        submits(all_ops(n)) == counted(n),
        finishes(all_ops(n)) == counted(taken_of(n as int) as nat),
        n - taken_of(n as int) <= 2,
{
    lemma_all_ops(n);
}

/// The first frame comes back before any other goes out: what comes behind the
/// transform gets its first frame at once.
pub proof fn law_first_frame_comes_back_at_once()
    ensures
        all_ops(1) == seq![
            SlotOp::Submit { slot: 0, frame: 0 },
            SlotOp::Finish { slot: 0, frame: 0 },
        ],
{
    reveal_with_fuel(all_ops, 2);
    assert(all_ops(1) =~= frame_ops(0));
}

/// Draining leaves nothing behind: every frame that went out has come back, in
/// order.
pub proof fn law_drain_returns_every_frame(n: nat)
    requires
        n <= u64::MAX,
    ensures
        replay(all_ops(n) + drain_ops(n as int)) == Some(Slots { zero: None, one: None }),
        finishes(all_ops(n) + drain_ops(n as int)) == counted(n),
        submits(all_ops(n) + drain_ops(n as int)) == counted(n),
{
    reveal_with_fuel(replay, 3);
    reveal_with_fuel(submits, 3);
    reveal_with_fuel(finishes, 3);
    lemma_all_ops(n);
    let before = all_ops(n);
    let ops = drain_ops(n as int);
    if n <= 1 {
        assert(before + ops =~= before);
    } else if n == 2 {
        lemma_two_more(before, ops[0], ops[0]);
        assert(ops =~= seq![ops[0]]);
        lemma_one_more(before, ops[0]);
        assert(counted(1).push(1) =~= counted(2));
    } else {
        lemma_two_more(before, ops[0], ops[1]);
        assert(ops =~= seq![ops[0], ops[1]]);
        lemma_one_more(before, ops[0]);
        lemma_one_more(before.push(ops[0]), ops[1]);
        assert(counted((n - 2) as nat).push((n - 2) as u64) =~= counted((n - 1) as nat));
        assert(counted((n - 1) as nat).push((n - 1) as u64) =~= counted(n));
    }
}

/// The calls for frame number `n`.
pub fn calls_for_frame(n: u64) -> (ops: Vec<SlotOp>)
    ensures
        ops@ == frame_ops(n as int),
{
    let slot: usize = (n % 2) as usize;
    let mut ops: Vec<SlotOp> = Vec::new();
    if n == 0 {
        ops.push(SlotOp::Submit { slot: 0, frame: 0 });
        ops.push(SlotOp::Finish { slot: 0, frame: 0 });
    } else {
        if n >= 3 {
            ops.push(SlotOp::Finish { slot, frame: n - 2 });
        }
        ops.push(SlotOp::Submit { slot, frame: n });
    }
    assert(ops@ =~= frame_ops(n as int));
    ops
}

/// The calls that take back what is left after `n` frames.
pub fn calls_to_drain(n: u64) -> (ops: Vec<SlotOp>)
    ensures
        ops@ == drain_ops(n as int),
{
    let mut ops: Vec<SlotOp> = Vec::new();
    if n >= 2 {
        if n >= 3 {
            ops.push(SlotOp::Finish { slot: ((n - 2) % 2) as usize, frame: n - 2 });
        }
        ops.push(SlotOp::Finish { slot: ((n - 1) % 2) as usize, frame: n - 1 });
    }
    assert(ops@ =~= drain_ops(n as int));
    ops
}

/// A transformed frame and the tag it came in with.
pub struct ComputedFrame<T, D> {
    pub planes: RgbPlanes<T>,
    pub tag: D,
}

/// The three planes of a frame that is to be transformed, and its size.
pub struct FramePlanes<'a, T> {
    pub r: &'a [T],
    pub g: &'a [T],
    pub b: &'a [T],
    pub width: u32,
    pub height: u32,
}

/// The tags of frames, in order.
pub open spec fn tags<T, D>(frames: Seq<ComputedFrame<T, D>>) -> Seq<D> {
    Seq::new(frames.len(), |i: int| frames[i].tag)
}

/// The compute stage between decoder and encoder: it keeps two frames in flight
/// on its backend, and gives frames back in the order they came, each with the
/// tag it came with.
pub struct ComputeStage<B: DctBackend, D: Copy> {
    backend: B,
    next: u64,
    tag_0: Option<D>,
    tag_1: Option<D>,
}

impl<B: DctBackend, D: Copy> ComputeStage<B, D> {
    /// How many frames have come in.
    pub closed spec fn frames(self) -> u64 {
        self.next
    }

    /// The tags of the frames in flight, oldest first.
    pub closed spec fn in_flight(self) -> Seq<D> {
        let n = self.next as int;
        if n <= 1 {
            seq![]
        } else if n == 2 {
            seq![self.tag_of(1)->Some_0]
        } else {
            seq![self.tag_of((n - 2) % 2)->Some_0, self.tag_of((n - 1) % 2)->Some_0]
        }
    }

    /// The tag in a slot.
    closed spec fn tag_of(self, slot: int) -> Option<D> {
        if slot == 0 {
            self.tag_0
        } else {
            self.tag_1
        }
    }

    /// The backend that frames are handed to.
    pub closed spec fn backend(self) -> B {
        self.backend
    }

    /// A tag waits in a slot exactly where a frame does.
    pub closed spec fn well_formed(self) -> bool {
        &&& self.tag_0 is Some <==> waiting(self.next as int, 0) is Some
        &&& self.tag_1 is Some <==> waiting(self.next as int, 1) is Some
    }

    /// A stage with nothing in flight.
    pub fn new(backend: B) -> (stage: Self)
        ensures
            stage.well_formed(),
            stage.frames() == 0,
            stage.in_flight() == Seq::<D>::empty(),
            stage.backend() == backend,
    {
        ComputeStage { backend, next: 0, tag_0: None, tag_1: None }
    }

    /// Hands a frame to a slot of the backend, as it is; its tag waits there.
    fn hand_over(
        &mut self,
        slot: usize,
        frame: &FramePlanes<B::Sample>,
        tag: D,
        cutoff: B::Cutoff,
    ) -> (res: Result<(), TransformError>)
        requires
            crate::dct_backend::rgb_error(
                frame.r@.len(),
                frame.g@.len(),
                frame.b@.len(),
                frame.width,
                frame.height,
            ) is None ==> crate::dct_backend::basis_fits(frame.width, frame.height),
        ensures
            final(self).next == old(self).next,
            exists|m: &mut B|
                {
                    &&& *m == old(self).backend
                    &&& *final(m) == final(self).backend
                    &&& #[trigger] call_ensures(
                        B::submit_rgb,
                        (
                            m,
                            slot,
                            frame.r,
                            frame.g,
                            frame.b,
                            frame.width,
                            frame.height,
                            cutoff,
                        ),
                        res,
                    )
                },
            res is Ok ==> if slot == 0 {
                final(self).tag_0 == Some(tag) && final(self).tag_1 == old(self).tag_1
            } else {
                final(self).tag_1 == Some(tag) && final(self).tag_0 == old(self).tag_0
            },
    {
        let res = self.backend.submit_rgb(
            slot,
            frame.r,
            frame.g,
            frame.b,
            frame.width,
            frame.height,
            cutoff,
        );
        if res.is_ok() {
            if slot == 0 {
                self.tag_0 = Some(tag);
            } else {
                self.tag_1 = Some(tag);
            }
        }
        res
    }

    /// Takes back what waits in a slot of the backend, with its tag.
    fn take_back(&mut self, slot: usize) -> (res: Result<
        ComputedFrame<B::Sample, D>,
        TransformError,
    >)
        requires
            old(self).tag_of(slot as int) is Some,
        ensures
            final(self).next == old(self).next,
            exists|m: &mut B, finished: Result<RgbPlanes<B::Sample>, TransformError>|
                {
                    &&& *m == old(self).backend
                    &&& *final(m) == final(self).backend
                    &&& #[trigger] call_ensures(B::finish_rgb, (m, slot), finished)
                    &&& match finished {
                        Ok(planes) => res matches Ok(computed) && computed == (ComputedFrame {
                            planes,
                            tag: old(self).tag_of(slot as int)->Some_0,
                        }),
                        Err(e) => res matches Err(error) && error == e,
                    }
                },
            res is Ok ==> if slot == 0 {
                final(self).tag_0 is None && final(self).tag_1 == old(self).tag_1
            } else {
                final(self).tag_1 is None && final(self).tag_0 == old(self).tag_0
            },
    {
        let planes = match self.backend.finish_rgb(slot) {
            Ok(planes) => planes,
            Err(e) => return Err(e),
        };
        let held = if slot == 0 {
            self.tag_0.take()
        } else {
            self.tag_1.take()
        };
        Ok(ComputedFrame { planes, tag: held.unwrap() })
    }

    /// Takes a frame in, and gives back the frame that leaves for it, if any:
    /// the first frame itself, none for the next two, and from then on the
    /// oldest in flight. Every frame is handed to the backend as it came, and
    /// leaves as the backend gave it back. A call that fails ends the work on
    /// the frame with the backend's own error.
    pub fn push(
        &mut self,
        frame: &FramePlanes<B::Sample>,
        tag: D,
        cutoff: B::Cutoff,
    ) -> (res: Result<Vec<ComputedFrame<B::Sample, D>>, TransformError>) where B::Cutoff: Copy
        requires
            old(self).well_formed(),
            old(self).frames() < u64::MAX,
            crate::dct_backend::rgb_error(
                frame.r@.len(),
                frame.g@.len(),
                frame.b@.len(),
                frame.width,
                frame.height,
            ) is None ==> crate::dct_backend::basis_fits(frame.width, frame.height),
        ensures
            res matches Ok(out) ==> {
                &&& final(self).well_formed()
                &&& final(self).frames() == old(self).frames() + 1
                &&& tags(out@) + final(self).in_flight() == old(self).in_flight().push(tag)
                &&& final(self).in_flight().len() == final(self).frames() - taken_of(
                    final(self).frames() as int,
                )
            },
            old(self).frames() == 0 ==> exists|m: &mut B, submitted: Result<(), TransformError>|
                {
                    &&& *m == old(self).backend()
                    &&& #[trigger] call_ensures(
                            B::submit_rgb,
                            (
                                m,
                                0usize,
                                frame.r,
                                frame.g,
                                frame.b,
                                frame.width,
                                frame.height,
                                cutoff,
                            ),
                            submitted,
                        )
                    &&& match submitted {
                        Err(e) => res matches Err(error) && error == e,
                        Ok(_) => exists|k: &mut B, finished: Result<RgbPlanes<B::Sample>, TransformError>|
                            {
                                &&& *k == *final(m)
                                &&& *final(k) == final(self).backend()
                                &&& #[trigger] call_ensures(B::finish_rgb, (k, 0usize), finished)
                                &&& match finished {
                                    Err(e) => res matches Err(error) && error == e,
                                    Ok(planes) => res matches Ok(out) && out@ == seq![
                                        ComputedFrame { planes, tag },
                                    ],
                                }
                            },
                    }
                },
            0 < old(self).frames() < 3 ==> exists|m: &mut B, submitted: Result<(), TransformError>|
                {
                    &&& *m == old(self).backend()
                    &&& *final(m) == final(self).backend()
                    &&& #[trigger] call_ensures(
                            B::submit_rgb,
                            (
                                m,
                                (old(self).frames() % 2) as usize,
                                frame.r,
                                frame.g,
                                frame.b,
                                frame.width,
                                frame.height,
                                cutoff,
                            ),
                            submitted,
                        )
                    &&& match submitted {
                        Err(e) => res matches Err(error) && error == e,
                        Ok(_) => res matches Ok(out) && out@.len() == 0,
                    }
                },
            old(self).frames() >= 3 ==> exists|
                m: &mut B,
                finished: Result<RgbPlanes<B::Sample>, TransformError>,
            |
                {
                    &&& *m == old(self).backend()
                    &&& #[trigger] call_ensures(
                        B::finish_rgb,
                        (m, (old(self).frames() % 2) as usize),
                        finished,
                    )
                    &&& match finished {
                        Err(e) => res matches Err(error) && error == e,
                        Ok(planes) => exists|k: &mut B, submitted: Result<(), TransformError>|
                            {
                                &&& *k == *final(m)
                                &&& *final(k) == final(self).backend()
                                &&& #[trigger] call_ensures(
                                        B::submit_rgb,
                                        (
                                            k,
                                            (old(self).frames() % 2) as usize,
                                            frame.r,
                                            frame.g,
                                            frame.b,
                                            frame.width,
                                            frame.height,
                                            cutoff,
                                        ),
                                        submitted,
                                    )
                                &&& match submitted {
                                    Err(e) => res matches Err(error) && error == e,
                                    Ok(_) => res matches Ok(out) && out@ == seq![
                                        ComputedFrame { planes, tag: old(self).in_flight()[0] },
                                    ],
                                }
                            },
                    }
                },
    {
        let ops = calls_for_frame(self.next);
        let mut out: Vec<ComputedFrame<B::Sample, D>> = Vec::new();
        match ops[0] {
            SlotOp::Submit { slot, frame: _ } => match self.hand_over(slot, frame, tag, cutoff) {
                Ok(()) => {},
                Err(e) => return Err(e),
            },
            SlotOp::Finish { slot, frame: _ } => match self.take_back(slot) {
                Ok(computed) => out.push(computed),
                Err(e) => return Err(e),
            },
        }
        if ops.len() > 1 {
            match ops[1] {
                SlotOp::Submit { slot, frame: _ } => match self.hand_over(
                    slot,
                    frame,
                    tag,
                    cutoff,
                ) {
                    Ok(()) => {},
                    Err(e) => return Err(e),
                },
                SlotOp::Finish { slot, frame: _ } => match self.take_back(slot) {
                    Ok(computed) => out.push(computed),
                    Err(e) => return Err(e),
                },
            }
        }
        self.next = self.next + 1;
        proof {
            assert(tags(out@) + self.in_flight() =~= old(self).in_flight().push(tag));
        }
        Ok(out)
    }

    /// Ends the stage: gives back every frame still in flight, oldest first,
    /// each as the backend gave it back.
    pub fn drain(self) -> (res: Result<Vec<ComputedFrame<B::Sample, D>>, TransformError>)
        requires
            self.well_formed(),
        ensures
            res matches Ok(out) ==> tags(out@) == self.in_flight(),
            self.in_flight().len() == 0 ==> res is Ok,
            self.in_flight().len() == 1 ==> exists|
                m: &mut B,
                finished: Result<RgbPlanes<B::Sample>, TransformError>,
            |
                {
                    &&& *m == self.backend()
                    &&& #[trigger] call_ensures(B::finish_rgb, (m, 1usize), finished)
                    &&& match finished {
                        Err(e) => res matches Err(error) && error == e,
                        Ok(planes) => res matches Ok(out) && out@[0].planes == planes,
                    }
                },
            self.in_flight().len() == 2 ==> exists|
                m: &mut B,
                first: Result<RgbPlanes<B::Sample>, TransformError>,
            |
                {
                    &&& *m == self.backend()
                    &&& #[trigger] call_ensures(
                        B::finish_rgb,
                        (m, (self.frames() % 2) as usize),
                        first,
                    )
                    &&& match first {
                        Err(e) => res matches Err(error) && error == e,
                        Ok(planes) => exists|
                            k: &mut B,
                            second: Result<RgbPlanes<B::Sample>, TransformError>,
                        |
                            {
                                &&& *k == *final(m)
                                &&& #[trigger] call_ensures(
                                    B::finish_rgb,
                                    (k, ((self.frames() + 1) % 2) as usize),
                                    second,
                                )
                                &&& match second {
                                    Err(e) => res matches Err(error) && error == e,
                                    Ok(last) => res matches Ok(out) && out@[0].planes == planes
                                        && out@[1].planes == last,
                                }
                            },
                    }
                },
    {
        let mut stage = self;
        let ops = calls_to_drain(stage.next);
        proof {
            let n = self.next as int;
            if n >= 3 {
                assert(((n - 2) % 2) as usize == (self.frames() % 2) as usize);
                assert(((n - 1) % 2) as usize == ((self.frames() + 1) % 2) as usize);
            }
        }
        let mut out: Vec<ComputedFrame<B::Sample, D>> = Vec::new();
        if ops.len() > 0 {
            if let SlotOp::Finish { slot, frame: _ } = ops[0] {
                match stage.take_back(slot) {
                    Ok(computed) => out.push(computed),
                    Err(e) => return Err(e),
                }
            }
        }
        if ops.len() > 1 {
            if let SlotOp::Finish { slot, frame: _ } = ops[1] {
                match stage.take_back(slot) {
                    Ok(computed) => out.push(computed),
                    Err(e) => return Err(e),
                }
            }
        }
        assert(tags(out@) =~= self.in_flight());
        Ok(out)
    }
}

} // verus!
