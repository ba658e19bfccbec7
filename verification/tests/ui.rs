use wavefold::codec::Codec;
use wavefold::dct_backend::ComputeBackend;
use wavefold::media_backend::PipelineMsg;
use wavefold::ui::automation::{Board, Client, ClientEvent, ClientStep, Snapshot};
use wavefold::ui::encoding::{self, ProgressView};
use wavefold::ui::setup::{self, DEFAULT_CUTOFF_BITS};
use wavefold::ui::{App, Effect, Envelope, Message, Screen};

fn setup_msg(app: &mut App<String>, m: setup::Message<String>) -> Effect<String> {
    app.update(Envelope::from_app(Message::Setup(m)), false).effect
}

fn pipeline_msg(app: &mut App<String>, m: PipelineMsg) {
    let m = Message::Encoding(encoding::Message::Pipeline(m));
    app.update(Envelope::from_app(m), false);
}

#[test]
fn the_default_cutoff_is_six_tenths() {
    assert_eq!(f32::from_bits(DEFAULT_CUTOFF_BITS), 0.6);
}

#[test]
fn an_encode_starts_once_both_files_are_picked() {
    let mut app: App<String> = App::new();
    assert!(matches!(setup_msg(&mut app, setup::Message::PickInput), Effect::PickInput));
    assert!(matches!(setup_msg(&mut app, setup::Message::PickOutput), Effect::PickOutput));
    assert!(matches!(setup_msg(&mut app, setup::Message::Start), Effect::Nothing));
    setup_msg(&mut app, setup::Message::InputPicked(Some("in.mov".to_string())));
    setup_msg(&mut app, setup::Message::InputPicked(None));
    assert!(matches!(setup_msg(&mut app, setup::Message::Start), Effect::Nothing));
    setup_msg(&mut app, setup::Message::OutputPicked(Some("out.mp4".to_string())));
    setup_msg(&mut app, setup::Message::CutoffChanged(1.5f32.to_bits()));
    setup_msg(&mut app, setup::Message::EncoderSelected(Codec::Av1));
    setup_msg(&mut app, setup::Message::BackendSelected(ComputeBackend::Cpu));
    let Screen::Setup(page) = app.screen() else { panic!("left the page") };
    assert!(page.can_start());
    let Effect::Encode(job) = setup_msg(&mut app, setup::Message::Start) else {
        panic!("not started")
    };
    assert_eq!((job.input.as_str(), job.output.as_str()), ("in.mov", "out.mp4"));
    assert_eq!(f32::from_bits(job.cutoff_bits), 1.5);
    assert_eq!((job.encoder, job.backend), (Codec::Av1, ComputeBackend::Cpu));
    assert!(matches!(app.screen(), Screen::Encoding(_)));
}

fn encoding_app() -> App<String> {
    let mut app: App<String> = App::new();
    setup_msg(&mut app, setup::Message::InputPicked(Some("a".to_string())));
    setup_msg(&mut app, setup::Message::OutputPicked(Some("b".to_string())));
    setup_msg(&mut app, setup::Message::Start);
    app
}

#[test]
fn the_encoding_page_follows_the_run() {
    let mut app = encoding_app();
    let Screen::Encoding(page) = app.screen() else { panic!("wrong page") };
    assert!(!page.can_go_back());
    let ProgressView::Text(t) = page.progress() else { panic!("wrong view") };
    assert_eq!(t, "frame 0 (total unknown)");
    pipeline_msg(&mut app, PipelineMsg::Log("opening input...".to_string()));
    pipeline_msg(&mut app, PipelineMsg::Progress { current: 3, total: 12 });
    pipeline_msg(&mut app, PipelineMsg::Done);
    pipeline_msg(&mut app, PipelineMsg::Error("bad".to_string()));
    let Screen::Encoding(page) = app.screen() else { panic!("wrong page") };
    assert_eq!(page.log, vec!["opening input...", "done.", "ERROR: bad"]);
    let ProgressView::Bar { current, total, text } = page.progress() else { panic!("no bar") };
    assert_eq!((current, total, text.as_str()), (3, 12, "3/12"));
    app.update(Envelope::from_app(Message::Encoding(encoding::Message::WorkerDone)), false);
    let Screen::Encoding(page) = app.screen() else { panic!("wrong page") };
    assert!(page.can_go_back());
    app.update(Envelope::from_app(Message::Encoding(encoding::Message::BackToSetup)), false);
    let Screen::Setup(page) = app.screen() else { panic!("wrong page") };
    assert!(page.input.is_none() && page.output.is_none() && !page.can_start());
}

#[test]
fn nothing_is_shown_of_a_run_that_never_got_going() {
    let mut app = encoding_app();
    app.update(Envelope::from_app(Message::Encoding(encoding::Message::WorkerDone)), false);
    let Screen::Encoding(page) = app.screen() else { panic!("wrong page") };
    assert!(matches!(page.progress(), ProgressView::Nothing));
}

#[test]
fn only_applied_messages_are_published() {
    let mut app: App<String> = App::new();
    let cutoff = |bits: u32| Message::Setup(setup::Message::CutoffChanged(bits));
    // Nobody listens.
    assert!(app.update(Envelope::from_app(cutoff(1)), false).publish.is_none());
    // A message of the app itself has no number.
    let (number, shown) = app.update(Envelope::from_app(cutoff(2)), true).publish.unwrap();
    assert_eq!(number, None);
    let Snapshot::Setup(s) = shown else { panic!("wrong screen") };
    assert_eq!((s.cutoff_bits, s.encoder), (2, Codec::H264));
    let (number, _) = app.update(Envelope::from_automation(9, cutoff(3)), true).publish.unwrap();
    assert_eq!(number, Some(9));
    // A message for the other page changes nothing and is not published.
    let stray = Message::Encoding(encoding::Message::WorkerDone);
    let update = app.update(Envelope::from_automation(10, stray), true);
    assert!(update.publish.is_none());
    assert!(matches!(update.effect, Effect::Nothing));
    // The page an encode starts on is published as it is then.
    let mut app = encoding_app();
    let log = encoding::Message::Pipeline(PipelineMsg::Log("x".to_string()));
    let (_, shown) =
        app.update(Envelope::from_app(Message::Encoding(log)), true).publish.unwrap();
    let Snapshot::Encoding(s) = shown else { panic!("wrong screen") };
    assert_eq!((s.log, s.running, s.progress_current, s.progress_total), (vec!["x".to_string()], true, 0, 0));
}

#[test]
fn the_board_counts_publications() {
    let mut board = Board::new("start");
    assert_eq!((*board.snapshot(), board.generation()), ("start", 0));
    board.publish(None, "one");
    board.publish(Some(4), "two");
    assert_eq!((*board.snapshot(), board.generation()), ("two", 2));
}

#[test]
fn every_request_is_answered_once() {
    let mut client = Client::new(5);
    assert!(matches!(client.step(ClientEvent::BlankLine), ClientStep::Read));
    assert!(matches!(client.step(ClientEvent::SnapshotRequest), ClientStep::ReplySnapshot));
    let ClientStep::ReplyError(e) = client.step(ClientEvent::Malformed("eof".to_string())) else {
        panic!("no answer")
    };
    assert_eq!(e, "eof");
    assert!(matches!(client.step(ClientEvent::InjectRequest), ClientStep::Inject(5)));
    // Publications of other messages do not answer this one.
    assert!(matches!(client.step(ClientEvent::Published(None)), ClientStep::Wait));
    assert!(matches!(client.step(ClientEvent::Published(Some(4))), ClientStep::Wait));
    assert!(matches!(client.step(ClientEvent::Published(Some(5))), ClientStep::ReplySnapshot));
    assert!(matches!(client.step(ClientEvent::Published(Some(5))), ClientStep::Read));
    assert!(matches!(client.step(ClientEvent::InjectRequest), ClientStep::Inject(6)));
    assert!(matches!(client.step(ClientEvent::TimedOut), ClientStep::ReplySnapshot));
    assert!(matches!(client.step(ClientEvent::TimedOut), ClientStep::Read));
    // The late answer to the message that took too long answers no other.
    assert!(matches!(client.step(ClientEvent::InjectRequest), ClientStep::Inject(7)));
    assert!(matches!(client.step(ClientEvent::Published(Some(6))), ClientStep::Wait));
    assert!(matches!(client.step(ClientEvent::Published(Some(7))), ClientStep::ReplySnapshot));
    assert!(matches!(client.step(ClientEvent::AppGone), ClientStep::Drop));
    assert!(matches!(client.step(ClientEvent::Closed), ClientStep::Drop));
}
