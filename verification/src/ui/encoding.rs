//! The page that follows a running encode.
use crate::media_backend::PipelineMsg;
use crate::text::{joined, push_decimal};
use vstd::prelude::*;

verus! {

/// The page: how far the encode is, its log, and whether it still runs.
pub struct State {
    pub progress_current: u64,
    pub progress_total: u64,
    pub log: Vec<String>,
    pub running: bool,
}

/// What happens on the page.
pub enum Message {
    /// The encode reported something.
    Pipeline(PipelineMsg),
    /// The encode's messages are over.
    WorkerDone,
    /// Back to the setup page.
    BackToSetup,
}

/// What is to be done after a message.
#[derive(Debug, Clone, Copy, PartialEq, Eq, Structural)]
pub enum Action {
    Nothing,
    BackToSetup,
}

/// The page as a client sees it.
pub struct Snapshot {
    pub progress_current: u64,
    pub progress_total: u64,
    pub log: Vec<String>,
    pub running: bool,
}

/// How progress is shown.
pub enum ProgressView {
    /// A bar at `current / total`, and a text under it.
    Bar { current: u64, total: u64, text: String },
    /// A text alone, while the number of frames is unknown.
    Text(String),
    /// Nothing: the encode is over, and how long it was never became known.
    Nothing,
}

/// The texts of a log.
pub open spec fn texts(log: Seq<String>) -> Seq<Seq<char>> {
    Seq::new(log.len(), |i: int| log[i]@)
}

/// The line a message adds to the log, if it adds one.
pub open spec fn log_line(msg: crate::media_backend::MsgView) -> Option<Seq<char>> {
    match msg {
        crate::media_backend::MsgView::Progress { current, total } => None,
        crate::media_backend::MsgView::Log(line) => Some(line),
        crate::media_backend::MsgView::Done => Some("done."@),
        crate::media_backend::MsgView::Error(e) => Some("ERROR: "@ + e),
    }
}

/// What a message makes of the page.
pub open spec fn stepped(before: State, message: Message, after: State) -> bool {
    &&& after.running == (before.running && !(message is WorkerDone))
    &&& match message {
        Message::Pipeline(msg) => {
            &&& match msg@ {
                crate::media_backend::MsgView::Progress { current, total } => {
                    &&& after.progress_current == current
                    &&& after.progress_total == total
                },
                _ => {
                    &&& after.progress_current == before.progress_current
                    &&& after.progress_total == before.progress_total
                },
            }
            &&& texts(after.log@) == match log_line(msg@) {
                Some(line) => texts(before.log@).push(line),
                None => texts(before.log@),
            }
        },
        _ => {
            &&& after.progress_current == before.progress_current
            &&& after.progress_total == before.progress_total
            &&& after.log == before.log
        },
    }
}

impl State {
    /// An encode has just been started.
    pub open spec fn is_fresh(self) -> bool {
        &&& self.progress_current == 0
        &&& self.progress_total == 0
        &&& self.log@.len() == 0
        &&& self.running
    }

    /// The page when an encode has just been started.
    pub fn start() -> (s: Self)
        ensures
            s.is_fresh(),
    {
        State { progress_current: 0, progress_total: 0, log: Vec::new(), running: true }
    }

    /// Takes a message.
    pub fn update(&mut self, message: Message) -> (action: Action)
        ensures
            action == (if message is BackToSetup {
                Action::BackToSetup
            } else {
                Action::Nothing
            }),
            stepped(*old(self), message, *final(self)),
    {
        match message {
            Message::Pipeline(msg) => {
                match msg {
                    PipelineMsg::Progress { current, total } => {
                        self.progress_current = current;
                        self.progress_total = total;
                    },
                    PipelineMsg::Log(line) => {
                        self.log.push(line);
                    },
                    PipelineMsg::Done => {
                        self.log.push("done.".to_owned());
                    },
                    PipelineMsg::Error(e) => {
                        self.log.push(joined("ERROR: ", e.as_str()));
                    },
                }
                assert(texts(self.log@) =~= match log_line(msg@) {
                    Some(line) => texts(old(self).log@).push(line),
                    None => texts(old(self).log@),
                });
                Action::Nothing
            },
            Message::WorkerDone => {
                self.running = false;
                Action::Nothing
            },
            Message::BackToSetup => Action::BackToSetup,
        }
    }

    /// How progress is shown.
    pub fn progress(&self) -> (view: ProgressView)
        ensures
            match view {
                ProgressView::Bar { current, total, text } => {
                    &&& self.progress_total > 0
                    &&& current == self.progress_current
                    &&& total == self.progress_total
                    &&& text@ == crate::text::decimal(current as nat) + "/"@ + crate::text::decimal(
                        total as nat,
                    )
                },
                ProgressView::Text(text) => {
                    &&& self.progress_total == 0
                    &&& self.running
                    &&& text@ == "frame "@ + crate::text::decimal(self.progress_current as nat)
                        + " (total unknown)"@
                },
                ProgressView::Nothing => self.progress_total == 0 && !self.running,
            },
    {
        if self.progress_total > 0 {
            let mut text = String::new();
            push_decimal(&mut text, self.progress_current);
            text.append("/");
            push_decimal(&mut text, self.progress_total);
            assert(text@ =~= crate::text::decimal(self.progress_current as nat) + "/"@
                + crate::text::decimal(self.progress_total as nat));
            ProgressView::Bar { current: self.progress_current, total: self.progress_total, text }
        } else if self.running {
            let mut text = "frame ".to_owned();
            push_decimal(&mut text, self.progress_current);
            text.append(" (total unknown)");
            ProgressView::Text(text)
        } else {
            ProgressView::Nothing
        }
    }

    /// Whether the user may leave the page: only once the encode is over.
    pub fn can_go_back(&self) -> (r: bool)
        ensures
            r == !self.running,
    {
        !self.running
    }

    /// The snapshot shows this page.
    pub open spec fn shown_by(self, snapshot: Snapshot) -> bool {
        &&& snapshot.progress_current == self.progress_current
        &&& snapshot.progress_total == self.progress_total
        &&& texts(snapshot.log@) == texts(self.log@)
        &&& snapshot.running == self.running
    }

    /// The page as a client sees it.
    pub fn snapshot(&self) -> (r: Snapshot)
        ensures
            self.shown_by(r),
    {
        let mut log: Vec<String> = Vec::with_capacity(self.log.len());
        let mut i: usize = 0;
        while i < self.log.len()
            invariant
                i <= self.log@.len(),
                log@.len() == i,
                forall|k: int| 0 <= k < i ==> #[trigger] log@[k]@ == self.log@[k]@,
            decreases self.log@.len() - i,
        {
            log.push(self.log[i].clone());
            i = i + 1;
        }
        assert(texts(log@) =~= texts(self.log@));
        Snapshot {
            progress_current: self.progress_current,
            progress_total: self.progress_total,
            log,
            running: self.running,
        }
    }
}

} // verus!
