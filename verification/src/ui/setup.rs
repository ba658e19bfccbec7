//! The page on which an encode is set up.
use crate::codec::Codec;
use crate::dct_backend::ComputeBackend;
use vstd::prelude::*;

verus! {

/// The cutoff a fresh page shows, 0.6, as an IEEE 754 single-precision bit
/// pattern.
pub const DEFAULT_CUTOFF_BITS: u32 = 0x3F19_999A;

/// The page. `P` is the type of a file path; the cutoff is carried as a bit
/// pattern.
pub struct State<P> {
    pub input: Option<P>,
    pub output: Option<P>,
    pub cutoff_bits: u32,
    pub encoder: Codec,
    pub backend: ComputeBackend,
}

/// What happens on the page.
pub enum Message<P> {
    PickInput,
    InputPicked(Option<P>),
    PickOutput,
    OutputPicked(Option<P>),
    CutoffChanged(u32),
    EncoderSelected(Codec),
    BackendSelected(ComputeBackend),
    Start,
}

/// Everything an encode is started with.
pub struct Job<P> {
    pub input: P,
    pub output: P,
    pub cutoff_bits: u32,
    pub encoder: Codec,
    pub backend: ComputeBackend,
}

/// What is to be done after a message: nothing here, a file to be picked, or an
/// encode to be started, which leaves the page.
pub enum Action<P> {
    Nothing,
    PickInput,
    PickOutput,
    Start(Job<P>),
}

/// The page as a client sees it.
pub struct Snapshot<P> {
    pub input: Option<P>,
    pub output: Option<P>,
    pub cutoff_bits: u32,
    pub encoder: Codec,
    pub backend: ComputeBackend,
}

/// What a message makes of the page. A dialog that was cancelled changes
/// nothing.
pub open spec fn after<P>(s: State<P>, message: Message<P>) -> State<P> {
    match message {
        Message::InputPicked(Some(path)) => State { input: Some(path), ..s },
        Message::OutputPicked(Some(path)) => State { output: Some(path), ..s },
        Message::CutoffChanged(cutoff_bits) => State { cutoff_bits, ..s },
        Message::EncoderSelected(encoder) => State { encoder, ..s },
        Message::BackendSelected(backend) => State { backend, ..s },
        _ => s,
    }
}

/// A copy of an optional path.
pub open spec fn same_path<P: Clone>(a: Option<P>, b: Option<P>) -> bool {
    match (a, b) {
        (None, None) => true,
        (Some(p), Some(q)) => cloned(p, q),
        _ => false,
    }
}

/// Copies an optional path.
pub fn copy_path<P: Clone>(path: &Option<P>) -> (r: Option<P>)
    ensures
        same_path(*path, r),
{
    match path {
        Some(p) => Some(p.clone()),
        None => None,
    }
}

impl<P: Clone> State<P> {
    /// Nothing has been picked or changed yet.
    pub open spec fn is_fresh(self) -> bool {
        &&& self.input is None
        &&& self.output is None
        &&& self.cutoff_bits == DEFAULT_CUTOFF_BITS
        &&& self.encoder == Codec::H264
        &&& self.backend == ComputeBackend::Gpu
    }

    /// A fresh page.
    pub fn new() -> (s: Self)
        ensures
            s.is_fresh(),
    {
        State {
            input: None,
            output: None,
            cutoff_bits: DEFAULT_CUTOFF_BITS,
            encoder: Codec::H264,
            backend: ComputeBackend::Gpu,
        }
    }

    /// Whether an encode can be started: both files are picked.
    pub open spec fn ready(self) -> bool {
        self.input is Some && self.output is Some
    }

    /// Whether an encode can be started.
    pub fn can_start(&self) -> (r: bool)
        ensures
            r == self.ready(),
    {
        self.input.is_some() && self.output.is_some()
    }

    /// Takes a message. `Start` does nothing until both files are picked.
    pub fn update(&mut self, message: Message<P>) -> (action: Action<P>)
        ensures
            *final(self) == after(*old(self), message),
            match message {
                Message::PickInput => action is PickInput,
                Message::PickOutput => action is PickOutput,
                Message::Start => match action {
                    Action::Start(job) => {
                        &&& old(self).ready()
                        &&& cloned(old(self).input->Some_0, job.input)
                        &&& cloned(old(self).output->Some_0, job.output)
                        &&& job.cutoff_bits == old(self).cutoff_bits
                        &&& job.encoder == old(self).encoder
                        &&& job.backend == old(self).backend
                    },
                    _ => action is Nothing && !old(self).ready(),
                },
                _ => action is Nothing,
            },
    {
        match message {
            Message::PickInput => Action::PickInput,
            Message::InputPicked(path) => {
                if path.is_some() {
                    self.input = path;
                }
                Action::Nothing
            },
            Message::PickOutput => Action::PickOutput,
            Message::OutputPicked(path) => {
                if path.is_some() {
                    self.output = path;
                }
                Action::Nothing
            },
            Message::CutoffChanged(cutoff_bits) => {
                self.cutoff_bits = cutoff_bits;
                Action::Nothing
            },
            Message::EncoderSelected(encoder) => {
                self.encoder = encoder;
                Action::Nothing
            },
            Message::BackendSelected(backend) => {
                self.backend = backend;
                Action::Nothing
            },
            Message::Start => match (&self.input, &self.output) {
                (Some(input), Some(output)) => Action::Start(
                    Job {
                        input: input.clone(),
                        output: output.clone(),
                        cutoff_bits: self.cutoff_bits,
                        encoder: self.encoder,
                        backend: self.backend,
                    },
                ),
                _ => Action::Nothing,
            },
        }
    }

    /// The snapshot shows this page.
    pub open spec fn shown_by(self, snapshot: Snapshot<P>) -> bool {
        &&& same_path(self.input, snapshot.input)
        &&& same_path(self.output, snapshot.output)
        &&& snapshot.cutoff_bits == self.cutoff_bits
        &&& snapshot.encoder == self.encoder
        &&& snapshot.backend == self.backend
    }

    /// The page as a client sees it.
    pub fn snapshot(&self) -> (r: Snapshot<P>)
        ensures
            self.shown_by(r),
    {
        Snapshot {
            input: copy_path(&self.input),
            output: copy_path(&self.output),
            cutoff_bits: self.cutoff_bits,
            encoder: self.encoder,
            backend: self.backend,
        }
    }
}

/// A picked file stays picked: no message takes it away.
pub proof fn law_picked_files_stay<P: Clone>(s: State<P>, message: Message<P>)
    ensures
        s.ready() ==> after(s, message).ready(),
        s.input is Some ==> after(s, message).input is Some,
        s.output is Some ==> after(s, message).output is Some,
{
}

} // verus!
