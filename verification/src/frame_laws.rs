//! Which calls a frame takes, by its number.
use crate::dct_backend::{DctBackend, RgbPlanes, TransformError};
use crate::frames::{ComputeStage, ComputedFrame, FramePlanes, SlotOp};
use vstd::prelude::*;

verus! {

/// The calls for frame `n`: it is handed over once, to the slot of its parity. The
/// first frame is taken back at once; from the fourth on, the frame before last is
/// taken back first, from the very slot that is about to be used; and no other
/// frame is.
pub proof fn law_calls_for_a_frame(n: u64, ops: Vec<SlotOp>)
    requires
        call_ensures(crate::frames::calls_for_frame, (n,), ops),
    ensures
        ops@.len() == (if 1 <= n <= 2 {
            1int
        } else {
            2
        }),
        n == 0 ==> ops@[0] == (SlotOp::Submit { slot: 0, frame: 0 }) && ops@[1] == (
        SlotOp::Finish { slot: 0, frame: 0 }),
        n > 0 ==> ops@.last() is Submit && ops@.last()->Submit_frame == n
            && ops@.last()->Submit_slot == n % 2,
        n >= 3 ==> ops@[0] is Finish && ops@[0]->Finish_frame == n - 2 && ops@[0]->Finish_slot == n
            % 2,
{
    assert(ops@ == crate::frames::frame_ops(n as int));
}

/// What is left after `n` frames is taken back oldest first: the last two frames,
/// or the second alone, or nothing where the first came back at once.
pub proof fn law_calls_to_drain(n: u64, ops: Vec<SlotOp>)
    requires
        call_ensures(crate::frames::calls_to_drain, (n,), ops),
    ensures
        ops@.len() == (if n <= 1 {
            0int
        } else if n == 2 {
            1
        } else {
            2
        }),
        forall|i: int|
            #![trigger ops@[i]]
            0 <= i < ops@.len() ==> ops@[i] is Finish && ops@[i]->Finish_frame == n - ops@.len() + i
                && ops@[i]->Finish_slot == ops@[i]->Finish_frame % 2,
{
    assert(ops@ == crate::frames::drain_ops(n as int));
}

/// Two frames are in flight from the third on: with one fewer, nothing would
/// overlap.
pub proof fn law_two_frames_are_in_flight(n: nat)
    requires
        n <= u64::MAX,
    ensures
        ({
            let ops = crate::frames::all_ops(n);
            let in_flight = crate::frames::submits(ops).len() - crate::frames::finishes(ops).len();
            &&& n <= 1 ==> in_flight == 0
            &&& n == 2 ==> in_flight == 1
            &&& n >= 3 ==> in_flight == 2
        }),
{
    crate::frames::law_frames_flow_in_order(n);
}

/// A frame that was taken in was handed to the backend as it came, its red, green
/// and blue plane each as that, with its own size and cutoff, in the slot of its
/// parity.
pub proof fn law_frames_are_handed_over_as_they_come<B: DctBackend, D: Copy>(
    frame: &FramePlanes<B::Sample>,
    tag: D,
    cutoff: B::Cutoff,
    res: Result<Vec<ComputedFrame<B::Sample, D>>, TransformError>,
) where B::Cutoff: Copy
    ensures
        forall|stage: &mut ComputeStage<B, D>|
            #[trigger] call_ensures(
                ComputeStage::<B, D>::push,
                (stage, frame, tag, cutoff),
                res,
            ) && res is Ok ==> exists|m: &mut B, taken: Result<(), TransformError>|
                #[trigger] call_ensures(
                    B::submit_rgb,
                    (
                        m,
                        ((*stage).frames() % 2) as usize,
                        frame.r,
                        frame.g,
                        frame.b,
                        frame.width,
                        frame.height,
                        cutoff,
                    ),
                    taken,
                ) && taken is Ok,
{
}

/// What comes out is what the backend gave back from the slot that the frame goes
/// to, under the tag that has waited longest: the first frame's own, none for the
/// second and third frame, and then that of the frame before last.
pub proof fn law_frames_come_out_as_the_backend_gave_them<B: DctBackend, D: Copy>(
    frame: &FramePlanes<B::Sample>,
    tag: D,
    cutoff: B::Cutoff,
    res: Result<Vec<ComputedFrame<B::Sample, D>>, TransformError>,
) where B::Cutoff: Copy
    ensures
        forall|stage: &mut ComputeStage<B, D>|
            #[trigger] call_ensures(
                ComputeStage::<B, D>::push,
                (stage, frame, tag, cutoff),
                res,
            ) && res is Ok ==> {
                let (n, out) = ((*stage).frames(), res->Ok_0@);
                &&& n == 1 || n == 2 ==> out.len() == 0
                &&& n == 0 || n >= 3 ==> out.len() == 1 && exists|
                    k: &mut B,
                    given: Result<RgbPlanes<B::Sample>, TransformError>,
                |
                    #[trigger] call_ensures(B::finish_rgb, (k, (n % 2) as usize), given)
                        && given is Ok && given->Ok_0 == out[0].planes
                &&& n == 0 ==> out[0].tag == tag
                &&& n >= 3 ==> out[0].tag == (*stage).in_flight()[0]
            },
{
}

/// Ending a stage gives back every frame in flight, oldest first, each under its
/// own tag: what the backend gave back from the slot of the older one, and then
/// from the other.
pub proof fn law_drained_frames_come_out_oldest_first<B: DctBackend, D: Copy>(
    stage: ComputeStage<B, D>,
    res: Result<Vec<ComputedFrame<B::Sample, D>>, TransformError>,
    i: int,
)
    requires
        stage.well_formed(),
        call_ensures(ComputeStage::<B, D>::drain, (stage,), res),
    ensures
        stage.in_flight().len() == 0 ==> res is Ok,
        res is Ok ==> {
            let out = res->Ok_0@;
            &&& out.len() == stage.in_flight().len()
            &&& 0 <= i < out.len() ==> out[i].tag == stage.in_flight()[i]
            &&& out.len() == 2 ==> exists|k: &mut B, given: Result<RgbPlanes<B::Sample>, TransformError>|
                #[trigger] call_ensures(
                    B::finish_rgb,
                    (k, (stage.frames() % 2) as usize),
                    given,
                ) && given is Ok && given->Ok_0 == out[0].planes
            &&& out.len() == 2 ==> exists|k: &mut B, given: Result<RgbPlanes<B::Sample>, TransformError>|
                #[trigger] call_ensures(
                    B::finish_rgb,
                    (k, ((stage.frames() + 1) % 2) as usize),
                    given,
                ) && given is Ok && given->Ok_0 == out[1].planes
            &&& out.len() == 1 ==> exists|k: &mut B, given: Result<RgbPlanes<B::Sample>, TransformError>|
                #[trigger] call_ensures(B::finish_rgb, (k, 1usize), given) && given is Ok
                    && given->Ok_0 == out[0].planes
        },
{
    if let Ok(v) = res {
        let t = crate::frames::tags(v@);
        assert(t == stage.in_flight());
        assert(t.len() == v@.len());
        if 0 <= i < v@.len() {
            assert(t[i] == v@[i].tag);
        }
    }
}

} // verus!
