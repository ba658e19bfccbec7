//! What messages make of the pages, field by field, and how requests from outside
//! are answered.
use crate::ui::automation::{Board, Client, ClientEvent, ClientStep};
use crate::ui::{encoding, setup};
use vstd::prelude::*;

verus! {

/// A message changes the field it is about, to what it says, and no other: a file
/// that was picked, the cutoff, the encoder or the backend. A dialog that was
/// cancelled changes nothing, and neither does asking for one, or starting.
pub proof fn law_message_sets_its_field<P: Clone>(
    message: setup::Message<P>,
    action: setup::Action<P>,
)
    ensures
        forall|s: &mut setup::State<P>|
            #[trigger] call_ensures(setup::State::<P>::update, (s, message), action) ==> {
                let (before, after) = (*s, *final(s));
                &&& message is InputPicked && message->InputPicked_0 is Some ==> after.input
                    == message->InputPicked_0
                &&& !(message is InputPicked && message->InputPicked_0 is Some) ==> after.input
                    == before.input
                &&& message is OutputPicked && message->OutputPicked_0 is Some ==> after.output
                    == message->OutputPicked_0
                &&& !(message is OutputPicked && message->OutputPicked_0 is Some) ==> after.output
                    == before.output
                &&& message is CutoffChanged ==> after.cutoff_bits == message->CutoffChanged_0
                &&& !(message is CutoffChanged) ==> after.cutoff_bits == before.cutoff_bits
                &&& message is EncoderSelected ==> after.encoder == message->EncoderSelected_0
                &&& !(message is EncoderSelected) ==> after.encoder == before.encoder
                &&& message is BackendSelected ==> after.backend == message->BackendSelected_0
                &&& !(message is BackendSelected) ==> after.backend == before.backend
            },
{
}

/// An encode starts exactly if it is asked for with both files picked, and then
/// with what the page shows; a dialog opens exactly if it is asked for.
pub proof fn law_encode_starts_with_what_is_shown<P: Clone>(
    message: setup::Message<P>,
    action: setup::Action<P>,
)
    ensures
        forall|s: &mut setup::State<P>|
            #[trigger] call_ensures(setup::State::<P>::update, (s, message), action) ==> {
                &&& action is Start <==> message is Start && (*s).input is Some && (*s).output is Some
                &&& action is PickInput <==> message is PickInput
                &&& action is PickOutput <==> message is PickOutput
                &&& action is Start ==> {
                    let job = action->Start_0;
                    &&& cloned((*s).input->Some_0, job.input)
                    &&& cloned((*s).output->Some_0, job.output)
                    &&& job.cutoff_bits == (*s).cutoff_bits
                    &&& job.encoder == (*s).encoder
                    &&& job.backend == (*s).backend
                }
            },
{
}

/// A fresh page has no files, a cutoff of 0.6 as a single-precision number,
/// software H.264 and the GPU; and it can be started only once both files are
/// there. What a client sees of it is what it holds.
pub proof fn law_fresh_setup_page<P: Clone>(
    fresh: setup::State<P>,
    s: &setup::State<P>,
    can_start: bool,
    snapshot: setup::Snapshot<P>,
)
    requires
        call_ensures(setup::State::<P>::new, (), fresh),
        call_ensures(setup::State::<P>::can_start, (s,), can_start),
        call_ensures(setup::State::<P>::snapshot, (s,), snapshot),
    ensures
        fresh.input is None,
        fresh.output is None,
        fresh.cutoff_bits == 0x3F19_999A,
        fresh.encoder is H264,
        fresh.backend is Gpu,
        can_start <==> s.input is Some && s.output is Some,
        snapshot.cutoff_bits == s.cutoff_bits,
        snapshot.encoder == s.encoder,
        snapshot.backend == s.backend,
        snapshot.input is Some <==> s.input is Some,
        snapshot.output is Some <==> s.output is Some,
        s.input is Some ==> cloned(s.input->Some_0, snapshot.input->Some_0),
        s.output is Some ==> cloned(s.output->Some_0, snapshot.output->Some_0),
{
}

/// The page of a running encode: progress is what was last reported, every other
/// report adds one line to the log, behind the lines that are there, and only the
/// end of the worker ends the run.
pub proof fn law_reports_reach_the_page(message: encoding::Message, action: encoding::Action)
    ensures
        forall|s: &mut encoding::State|
            #[trigger] call_ensures(encoding::State::update, (s, message), action) ==> {
                let (before, after) = (*s, *final(s));
                let reported = message is Pipeline && message->Pipeline_0 is Progress;
                let added = message is Pipeline && !(message->Pipeline_0 is Progress);
                &&& action is BackToSetup <==> message is BackToSetup
                &&& after.running <==> before.running && !(message is WorkerDone)
                &&& reported ==> after.progress_current == message->Pipeline_0->current
                    && after.progress_total == message->Pipeline_0->total
                &&& !reported ==> after.progress_current == before.progress_current
                    && after.progress_total == before.progress_total
                &&& after.log@.len() == before.log@.len() + (if added {
                    1int
                } else {
                    0
                })
            },
{
    assert forall|s: &mut encoding::State|
        #[trigger] call_ensures(encoding::State::update, (s, message), action) implies (*final(s)).log@.len() == (*s).log@.len() + (if message is Pipeline && !(
    message->Pipeline_0 is Progress) {
        1int
    } else {
        0
    }) by {
        let (before, after) = (encoding::texts((*s).log@), encoding::texts((*final(s)).log@));
        assert(before.len() == (*s).log@.len());
        assert(after.len() == (*final(s)).log@.len());
    }
}

/// The lines of the log: those that were there stay as they were, and the one that
/// is added is the line that was reported, `done.` at the end, or the error behind
/// `ERROR: `.
pub proof fn law_log_grows_by_what_was_said(
    message: encoding::Message,
    action: encoding::Action,
    i: int,
)
    ensures
        forall|s: &mut encoding::State|
            #[trigger] call_ensures(encoding::State::update, (s, message), action) ==> {
                let (before, after) = (*s, *final(s));
                &&& 0 <= i < before.log@.len() ==> after.log@[i]@ == before.log@[i]@
                &&& message is Pipeline ==> {
                    let last = after.log@[before.log@.len() as int]@;
                    let said = message->Pipeline_0;
                    &&& said is Log ==> last == said->Log_0@
                    &&& said is Done ==> last == "done."@
                    &&& said is Error ==> last == "ERROR: "@ + said->Error_0@
                }
            },
{
    assert forall|s: &mut encoding::State|
        #[trigger] call_ensures(encoding::State::update, (s, message), action) implies {
        let (before, after) = (*s, *final(s));
        &&& 0 <= i < before.log@.len() ==> after.log@[i]@ == before.log@[i]@
        &&& message is Pipeline ==> {
            let last = after.log@[before.log@.len() as int]@;
            let said = message->Pipeline_0;
            &&& said is Log ==> last == said->Log_0@
            &&& said is Done ==> last == "done."@
            &&& said is Error ==> last == "ERROR: "@ + said->Error_0@
        }
    } by {
        let (b, a) = ((*s).log@, (*final(s)).log@);
        let (before, after) = (encoding::texts(b), encoding::texts(a));
        assert(before.len() == b.len() && after.len() == a.len());
        if 0 <= i < b.len() {
            assert(before[i] == b[i]@);
            assert(after[i] == a[i]@);
        }
        if b.len() < a.len() {
            assert(after[b.len() as int] == a[b.len() as int]@);
        }
    }
}

/// How progress is shown: a bar exactly once the total is known, at what was
/// reported; before that a text while the encode runs, and nothing once it is
/// over. The page can be left exactly once the encode is over.
pub proof fn law_progress_is_shown_as_known(
    s: &encoding::State,
    view: encoding::ProgressView,
    back: bool,
    fresh: encoding::State,
)
    requires
        call_ensures(encoding::State::progress, (s,), view),
        call_ensures(encoding::State::can_go_back, (s,), back),
        call_ensures(encoding::State::start, (), fresh),
    ensures
        view is Bar <==> s.progress_total > 0,
        view is Text <==> s.progress_total == 0 && s.running,
        view is Nothing <==> s.progress_total == 0 && !s.running,
        view is Bar ==> view->current == s.progress_current && view->total == s.progress_total,
        back <==> !s.running,
        fresh.running,
        fresh.progress_current == 0,
        fresh.progress_total == 0,
        fresh.log@.len() == 0,
{
}

/// The text under a bar is the two numbers with a stroke between them, and reads
/// back as them; the text without a bar names the frame.
pub proof fn law_progress_text_reads_back(s: &encoding::State, view: encoding::ProgressView)
    requires
        call_ensures(encoding::State::progress, (s,), view),
    ensures
        view is Bar ==> exists|c: Seq<char>, t: Seq<char>|
            {
                &&& view->text@ == #[trigger] (c + "/"@ + t)
                &&& crate::text_laws::read_decimal(c) == s.progress_current
                &&& crate::text_laws::read_decimal(t) == s.progress_total
            },
        view is Text ==> exists|c: Seq<char>|
            {
                &&& view->Text_0@ == #[trigger] ("frame "@ + c) + " (total unknown)"@
                &&& crate::text_laws::read_decimal(c) == s.progress_current
            },
{
    let (c, t) = (
        crate::text::decimal(s.progress_current as nat),
        crate::text::decimal(s.progress_total as nat),
    );
    crate::text_laws::law_decimal_reads_back(s.progress_current as nat);
    crate::text_laws::law_decimal_reads_back(s.progress_total as nat);
    if view is Bar {
        assert(view->text@ == c + "/"@ + t);
    }
    if view is Text {
        assert(view->Text_0@ == ("frame "@ + c) + " (total unknown)"@);
    }
}

/// What a client sees of a running encode is what the page holds.
pub proof fn law_encoding_snapshot_is_the_page(
    s: &encoding::State,
    snapshot: encoding::Snapshot,
    i: int,
)
    requires
        call_ensures(encoding::State::snapshot, (s,), snapshot),
    ensures
        snapshot.progress_current == s.progress_current,
        snapshot.progress_total == s.progress_total,
        snapshot.running == s.running,
        snapshot.log@.len() == s.log@.len(),
        0 <= i < s.log@.len() ==> snapshot.log@[i]@ == s.log@[i]@,
{
    let (a, b) = (encoding::texts(snapshot.log@), encoding::texts(s.log@));
    assert(a.len() == snapshot.log@.len() && b.len() == s.log@.len());
    if 0 <= i < s.log@.len() {
        assert(a[i] == snapshot.log@[i]@ && b[i] == s.log@[i]@);
    }
}

/// What a board shows is what was last published, under the number it was
/// published for, and the count of publications grows by one.
pub proof fn law_board_shows_the_last_publication<S>(
    number: Option<u64>,
    snapshot: S,
    initial: S,
    fresh: Board<S>,
    board: &Board<S>,
    shown: &S,
    count: u64,
)
    requires
        call_ensures(Board::<S>::new, (initial,), fresh),
        call_ensures(Board::<S>::snapshot, (board,), shown),
        call_ensures(Board::<S>::generation, (board,), count),
    ensures
        *shown == board.latest(),
        count == board.published(),
        fresh.latest() == initial,
        fresh.answers() is None,
        fresh.published() == 0,
        forall|b: &mut Board<S>|
            #[trigger] call_ensures(Board::<S>::publish, (b, number, snapshot), ()) ==> {
                &&& (*final(b)).latest() == snapshot
                &&& (*final(b)).answers() == number
                &&& (*b).published() < u64::MAX ==> (*final(b)).published() == (*b).published() + 1
            },
{
}

/// A path is copied where there is one, and a fresh client waits for nothing and
/// numbers its messages from where it is told to.
pub proof fn law_copies_and_fresh_clients<P: Clone>(
    path: &Option<P>,
    copy: Option<P>,
    first: u64,
    client: Client,
)
    requires
        call_ensures(setup::copy_path::<P>, (path,), copy),
        call_ensures(Client::new, (first,), client),
    ensures
        copy is Some <==> *path is Some,
        *path is Some ==> cloned((*path)->Some_0, copy->Some_0),
        client.waits_for() is None,
        client.next_number() == first,
        client.requests() == 0,
        client.replies() == 0,
{
}

/// A client that waits goes on waiting until the message it injected has been
/// applied, or took too long; nothing else that happens is an answer, and no line
/// is read meanwhile.
pub proof fn law_waiting_ends_with_its_own_answer(event: ClientEvent, r: ClientStep)
    ensures
        forall|c: &mut Client|
            (*c).waits_for() is Some && #[trigger] call_ensures(Client::step, (c, event), r) ==> {
                let mine = event is Published && event->Published_0 == (*c).waits_for();
                let over = event is Closed || event is AppGone;
                &&& r is ReplySnapshot <==> mine || event is TimedOut
                &&& (*final(c)).waits_for() is None <==> mine || event is TimedOut
                &&& r is Drop <==> over
                &&& r is Wait <==> !mine && !(event is TimedOut) && !over
                &&& (*final(c)).next_number() == (*c).next_number()
            },
{
}

/// A client that does not wait is answered at once: a request for the screen with
/// the screen, a line that is no request with why; an injected message gets the
/// next number, and is waited for. Anything else is not answered.
pub proof fn law_requests_are_answered_at_once(event: ClientEvent, r: ClientStep)
    ensures
        forall|c: &mut Client|
            (*c).waits_for() is None && #[trigger] call_ensures(Client::step, (c, event), r) ==> {
                &&& r is ReplySnapshot <==> event is SnapshotRequest
                &&& r is ReplyError <==> event is Malformed
                &&& event is Malformed ==> r->ReplyError_0 == event->Malformed_0
                &&& r is Inject <==> event is InjectRequest
                &&& r is Drop <==> event is Closed || event is AppGone
                &&& event is InjectRequest ==> {
                    &&& r->Inject_0 == (*c).next_number()
                    &&& (*final(c)).waits_for() == Some((*c).next_number())
                    &&& (*c).next_number() < u64::MAX ==> (*final(c)).next_number()
                        == (*c).next_number() + 1
                }
                &&& !(event is InjectRequest) ==> (*final(c)).waits_for() is None && (*final(c)).next_number() == (*c).next_number()
            },
{
}

/// A message of the app has no number, an injected one the number it was injected
/// under, and both are passed on as they are.
pub proof fn law_envelopes_carry_their_number<P>(
    id: u64,
    message: crate::ui::Message<P>,
    own: crate::ui::Envelope<P>,
    injected: crate::ui::Envelope<P>,
)
    requires
        call_ensures(crate::ui::Envelope::<P>::from_app, (message,), own),
        call_ensures(crate::ui::Envelope::<P>::from_automation, (id, message), injected),
    ensures
        own.number() is None,
        injected.number() == Some(id),
        own.content() == message,
        injected.content() == message,
        crate::ui::automation::PORT == 47624,
        crate::ui::automation::INJECT_TIMEOUT_SECS == 5,
{
}

/// A client sees the page that is shown; the app starts on a setup page with
/// nothing picked.
pub proof fn law_client_sees_the_page_shown<P: Clone>(
    screen: &crate::ui::Screen<P>,
    snapshot: crate::ui::automation::Snapshot<P>,
    app: crate::ui::App<P>,
)
    requires
        call_ensures(crate::ui::Screen::<P>::snapshot, (screen,), snapshot),
        call_ensures(crate::ui::App::<P>::new, (), app),
    ensures
        snapshot is Setup <==> screen is Setup,
        screen is Setup ==> screen->Setup_0.shown_by(snapshot->Setup_0),
        screen is Encoding ==> screen->Encoding_0.shown_by(snapshot->Encoding_0),
        app.shown() is Setup,
        app.shown()->Setup_0.input is None,
        app.shown()->Setup_0.output is None,
{
}

/// The app: a message for the page that is not shown goes nowhere. Starting leaves
/// the setup page for a fresh encoding page, going back leaves that for a fresh
/// setup page, and nothing else changes pages. The screen is published exactly if
/// a message went somewhere and a client listens, under the number of the message.
pub proof fn law_pages_change_by_start_and_back<P: Clone>(
    envelope: crate::ui::Envelope<P>,
    has_subscribers: bool,
    r: crate::ui::Update<P>,
)
    ensures
        forall|app: &mut crate::ui::App<P>|
            #[trigger] call_ensures(
                crate::ui::App::<P>::update,
                (app, envelope, has_subscribers),
                r,
            ) ==> {
                let (before, after) = ((*app).shown(), (*final(app)).shown());
                let message = envelope.content();
                let meant = before is Setup && message is Setup || before is Encoding
                    && message is Encoding;
                let started = before is Setup && message is Setup && message->Setup_0 is Start
                    && before->Setup_0.input is Some && before->Setup_0.output is Some;
                let back = before is Encoding && message is Encoding
                    && message->Encoding_0 is BackToSetup;
                &&& !meant ==> after == before && r.effect is Nothing && r.publish is None
                &&& r.publish is Some <==> meant && has_subscribers
                &&& r.publish is Some ==> (r.publish->Some_0).0 == envelope.number()
                &&& r.effect is Encode <==> started
                &&& started ==> after is Encoding
                &&& back ==> after is Setup
                &&& !started && !back ==> (after is Setup <==> before is Setup)
            },
{
}

} // verus!
