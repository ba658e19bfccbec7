//! What a headless encode prints, and how it exits.
use crate::media_backend::PipelineMsg;
use crate::text::push_decimal;
use vstd::prelude::*;

verus! {

/// The stream a text is printed to.
#[derive(Debug, Clone, Copy, PartialEq, Eq, Structural)]
pub enum Stream {
    Stdout,
    Stderr,
}

/// A text to print as it is, line ends included.
pub struct Printed {
    pub stream: Stream,
    pub text: String,
}

/// What is printed for a message: progress over the same line, everything else
/// on lines of its own, errors to the error stream.
pub open spec fn printed_for(msg: crate::media_backend::MsgView) -> (Stream, Seq<char>) {
    match msg {
        crate::media_backend::MsgView::Progress { current, total } => (
            Stream::Stdout,
            if total > 0 {
                "\rframe "@ + crate::text::decimal(current as nat) + "/"@ + crate::text::decimal(
                    total as nat,
                )
            } else {
                "\rframe "@ + crate::text::decimal(current as nat) + " (total unknown)"@
            },
        ),
        crate::media_backend::MsgView::Log(line) => (Stream::Stdout, "\n"@ + line + "\n"@),
        crate::media_backend::MsgView::Done => (Stream::Stdout, "\ndone\n"@),
        crate::media_backend::MsgView::Error(e) => (Stream::Stderr, "\nerror: "@ + e + "\n"@),
    }
}

/// A headless encode as its messages come in.
pub struct Report {
    had_error: bool,
}

/// Whether some message of a run is an error.
pub open spec fn any_error(msgs: Seq<crate::media_backend::MsgView>) -> bool {
    exists|i: int| 0 <= i < msgs.len() && #[trigger] msgs[i] is Error
}

impl Report {
    /// Whether an error came in.
    pub closed spec fn failed(self) -> bool {
        self.had_error
    }

    /// A report that nothing came in for yet.
    pub fn new() -> (r: Self)
        ensures
            !r.failed(),
    {
        Report { had_error: false }
    }

    /// What to print for a message.
    pub fn show(&mut self, msg: &PipelineMsg) -> (p: Printed)
        ensures
            (p.stream, p.text@) == printed_for(msg@),
            final(self).failed() == (old(self).failed() || msg@ is Error),
    {
        match msg {
            PipelineMsg::Progress { current, total } => {
                let mut text = "\rframe ".to_owned();
                push_decimal(&mut text, *current);
                if *total > 0 {
                    text.append("/");
                    push_decimal(&mut text, *total);
                } else {
                    text.append(" (total unknown)");
                }
                Printed { stream: Stream::Stdout, text }
            },
            PipelineMsg::Log(line) => {
                let mut text = "\n".to_owned();
                text.append(line.as_str());
                text.append("\n");
                Printed { stream: Stream::Stdout, text }
            },
            PipelineMsg::Done => Printed { stream: Stream::Stdout, text: "\ndone\n".to_owned() },
            PipelineMsg::Error(e) => {
                self.had_error = true;
                let mut text = "\nerror: ".to_owned();
                text.append(e.as_str());
                text.append("\n");
                Printed { stream: Stream::Stderr, text }
            },
        }
    }

    /// The exit code: 1 after an error, else 0.
    pub fn exit_code(&self) -> (r: i32)
        ensures
            r == (if self.failed() {
                1int
            } else {
                0
            }),
    {
        if self.had_error {
            1
        } else {
            0
        }
    }
}

/// Whether the reports of a run of messages say that it failed.
pub open spec fn failed_after(before: bool, msgs: Seq<crate::media_backend::MsgView>) -> bool
    decreases msgs.len(),
{
    if msgs.len() == 0 {
        before
    } else {
        failed_after(before, msgs.drop_last()) || msgs.last() is Error
    }
}

/// A run exits with an error exactly if some message was one.
pub proof fn law_exit_tells_of_errors(msgs: Seq<crate::media_backend::MsgView>)
    ensures
        failed_after(false, msgs) <==> any_error(msgs),
    decreases msgs.len(),
{
    if msgs.len() > 0 {
        let head = msgs.drop_last();
        law_exit_tells_of_errors(head);
        if any_error(head) {
            let i = choose|i: int| 0 <= i < head.len() && #[trigger] head[i] is Error;
            assert(msgs[i] is Error);
        }
        if any_error(msgs) {
            let i = choose|i: int| 0 <= i < msgs.len() && #[trigger] msgs[i] is Error;
            if i < head.len() {
                assert(head[i] is Error);
            }
        }
        if msgs.last() is Error {
            assert(msgs[msgs.len() - 1] is Error);
        }
    }
}

} // verus!
