use wavefold::dct_backend::{DctBackend, RgbPlanes, TransformError};
use wavefold::frames::{calls_for_frame, calls_to_drain, ComputeStage, FramePlanes, SlotOp};

/// A backend that records its calls and gives frames back as they came.
struct Recorder {
    calls: std::sync::Arc<std::sync::Mutex<Vec<(char, usize)>>>,
    slots: [Option<Vec<u8>>; 2],
    fail_on: Option<u8>,
}

impl DctBackend for Recorder {
    type Sample = u8;
    type Cutoff = u8;

    fn process_rgb(
        &mut self,
        r: &[u8],
        g: &[u8],
        b: &[u8],
        _width: u32,
        _height: u32,
        _cutoff: u8,
    ) -> Result<RgbPlanes<u8>, TransformError> {
        Ok(RgbPlanes { r: r.to_vec(), g: g.to_vec(), b: b.to_vec() })
    }

    fn submit_rgb(
        &mut self,
        slot: usize,
        r: &[u8],
        _g: &[u8],
        _b: &[u8],
        _width: u32,
        _height: u32,
        _cutoff: u8,
    ) -> Result<(), TransformError> {
        if self.fail_on == Some(r[0]) {
            return Err(TransformError::Device("lost".to_string()));
        }
        assert!(self.slots[slot].is_none(), "slot {slot} is in use");
        self.calls.lock().unwrap().push(('s', slot));
        self.slots[slot] = Some(r.to_vec());
        Ok(())
    }

    fn finish_rgb(&mut self, slot: usize) -> Result<RgbPlanes<u8>, TransformError> {
        self.calls.lock().unwrap().push(('f', slot));
        let r = self.slots[slot].take().ok_or(TransformError::NothingStashed)?;
        Ok(RgbPlanes { g: r.clone(), b: r.clone(), r })
    }
}

fn run(frames: u8) -> (Vec<u8>, Vec<u8>, Vec<(char, usize)>) {
    let calls = std::sync::Arc::new(std::sync::Mutex::new(Vec::new()));
    let backend = Recorder { calls: calls.clone(), slots: [None, None], fail_on: None };
    let mut stage: ComputeStage<Recorder, u8> = ComputeStage::new(backend);
    let mut tags = Vec::new();
    let mut data = Vec::new();
    for i in 0..frames {
        let plane = [i];
        let planes = FramePlanes { r: &plane, g: &plane, b: &plane, width: 1, height: 1 };
        let Ok(out) = stage.push(&planes, i + 100, 0) else { panic!("failed") };
        let expected = if i == 0 || i >= 3 { 1 } else { 0 };
        assert_eq!(out.len(), expected, "frame {i}");
        for f in out {
            tags.push(f.tag);
            data.extend(f.planes.r);
        }
    }
    let Ok(rest) = stage.drain() else { panic!("failed") };
    for f in rest {
        tags.push(f.tag);
        data.extend(f.planes.r);
    }
    let calls = calls.lock().unwrap().clone();
    (tags, data, calls)
}

#[test]
fn frames_leave_in_the_order_they_came() {
    for n in 0..9u8 {
        let (tags, data, _) = run(n);
        assert_eq!(tags, (100..100 + n).collect::<Vec<u8>>());
        assert_eq!(data, (0..n).collect::<Vec<u8>>());
    }
}

#[test]
fn the_first_frame_is_not_held_back() {
    let (_, _, calls) = run(5);
    assert_eq!(
        calls,
        vec![
            ('s', 0),
            ('f', 0),
            ('s', 1),
            ('s', 0),
            ('f', 1),
            ('s', 1),
            ('f', 0),
            ('s', 0),
            ('f', 1),
            ('f', 0),
        ]
    );
}

#[test]
fn calls_of_single_frames() {
    assert_eq!(
        calls_for_frame(0),
        vec![SlotOp::Submit { slot: 0, frame: 0 }, SlotOp::Finish { slot: 0, frame: 0 }]
    );
    assert_eq!(calls_for_frame(1), vec![SlotOp::Submit { slot: 1, frame: 1 }]);
    assert_eq!(calls_for_frame(2), vec![SlotOp::Submit { slot: 0, frame: 2 }]);
    assert_eq!(
        calls_for_frame(7),
        vec![SlotOp::Finish { slot: 1, frame: 5 }, SlotOp::Submit { slot: 1, frame: 7 }]
    );
    assert_eq!(calls_to_drain(0), vec![]);
    assert_eq!(calls_to_drain(1), vec![]);
    assert_eq!(calls_to_drain(2), vec![SlotOp::Finish { slot: 1, frame: 1 }]);
    assert_eq!(
        calls_to_drain(5),
        vec![SlotOp::Finish { slot: 1, frame: 3 }, SlotOp::Finish { slot: 0, frame: 4 }]
    );
}

#[test]
fn a_failing_backend_stops_the_stage() {
    let calls = std::sync::Arc::new(std::sync::Mutex::new(Vec::new()));
    let backend = Recorder { calls, slots: [None, None], fail_on: Some(1) };
    let mut stage: ComputeStage<Recorder, u8> = ComputeStage::new(backend);
    let push = |stage: &mut ComputeStage<Recorder, u8>, i: u8| {
        let plane = [i];
        let planes = FramePlanes { r: &plane, g: &plane, b: &plane, width: 1, height: 1 };
        stage.push(&planes, i, 0).map(|out| out.len())
    };
    assert!(matches!(push(&mut stage, 0), Ok(1)));
    let Err(e) = push(&mut stage, 1) else { panic!("taken") };
    assert_eq!(e.message(), "lost");
}
