//! Which decode/encode implementation runs an encode, and what it reports.
use vstd::prelude::*;

verus! {

/// What a running encode reports, in order.
#[derive(Debug, Clone)]
pub enum PipelineMsg {
    /// `current` frames are done, of `total` (0 while that is unknown).
    Progress { current: u64, total: u64 },
    /// A line for the log.
    Log(String),
    /// The encode is complete.
    Done,
    /// The encode failed.
    Error(String),
}

/// A message with its texts as sequences of characters.
pub ghost enum MsgView {
    Progress { current: u64, total: u64 },
    Log(Seq<char>),
    Done,
    Error(Seq<char>),
}

impl MsgView {
    /// Whether the message ends a run.
    pub open spec fn is_final(self) -> bool {
        self is Done || self is Error
    }
}

impl View for PipelineMsg {
    type V = MsgView;

    open spec fn view(&self) -> MsgView {
        match *self {
            PipelineMsg::Progress { current, total } => MsgView::Progress { current, total },
            PipelineMsg::Log(line) => MsgView::Log(line@),
            PipelineMsg::Done => MsgView::Done,
            PipelineMsg::Error(e) => MsgView::Error(e@),
        }
    }
}

/// User-selectable media backend: which decode/encode implementation to use,
/// as opposed to which codec and which DCT compute implementation. GStreamer
/// runs everywhere but on Windows, Media Foundation only there.
#[derive(Debug, Clone, Copy, PartialEq, Eq, Structural)]
pub enum MediaBackendChoice {
    Gstreamer,
    MediaFoundation,
}

impl MediaBackendChoice {
    /// The backends a platform offers: exactly one.
    pub fn all(on_windows: bool) -> (r: [MediaBackendChoice; 1])
        ensures
            r[0] == (if on_windows {
                MediaBackendChoice::MediaFoundation
            } else {
                MediaBackendChoice::Gstreamer
            }),
    {
        if on_windows {
            [MediaBackendChoice::MediaFoundation]
        } else {
            [MediaBackendChoice::Gstreamer]
        }
    }

    /// The name shown to the user.
    pub open spec fn name(self) -> Seq<char> {
        match self {
            MediaBackendChoice::Gstreamer => "GStreamer"@,
            MediaBackendChoice::MediaFoundation => "Media Foundation"@,
        }
    }

    /// The name shown to the user.
    pub fn label(self) -> (r: &'static str)
        ensures
            r@ == self.name(),
    {
        match self {
            MediaBackendChoice::Gstreamer => "GStreamer",
            MediaBackendChoice::MediaFoundation => "Media Foundation",
        }
    }
}

} // verus!
