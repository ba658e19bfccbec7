//! The app: which page is shown, and where messages go.
use vstd::prelude::*;

pub mod automation;
pub mod encoding;
pub mod page_laws;
pub mod setup;

verus! {

/// The page that is shown.
pub enum Screen<P> {
    Setup(setup::State<P>),
    Encoding(encoding::State),
}

/// A message for one of the pages.
pub enum Message<P> {
    Setup(setup::Message<P>),
    Encoding(encoding::Message),
}

/// A message, and the number it was injected under if a client injected it.
/// Messages of the app itself have none.
pub struct Envelope<P> {
    correlation_id: Option<u64>,
    message: Message<P>,
}

impl<P> Envelope<P> {
    /// The number the message was injected under.
    pub closed spec fn number(self) -> Option<u64> {
        self.correlation_id
    }

    /// The message itself.
    pub closed spec fn content(self) -> Message<P> {
        self.message
    }

    /// A message of the app itself.
    pub fn from_app(message: Message<P>) -> (e: Self)
        ensures
            e.number() is None,
            e.content() == message,
    {
        Envelope { correlation_id: None, message }
    }

    /// A message that a client injected.
    pub fn from_automation(correlation_id: u64, message: Message<P>) -> (e: Self)
        ensures
            e.number() == Some(correlation_id),
            e.content() == message,
    {
        Envelope { correlation_id: Some(correlation_id), message }
    }
}

impl<P: Clone> Screen<P> {
    /// The snapshot shows this screen.
    pub open spec fn shown_by(self, snapshot: automation::Snapshot<P>) -> bool {
        match (self, snapshot) {
            (Screen::Setup(state), automation::Snapshot::Setup(s)) => state.shown_by(s),
            (Screen::Encoding(state), automation::Snapshot::Encoding(s)) => state.shown_by(s),
            _ => false,
        }
    }

    /// The screen as a client sees it.
    pub fn snapshot(&self) -> (r: automation::Snapshot<P>)
        ensures
            self.shown_by(r),
    {
        match self {
            Screen::Setup(state) => automation::Snapshot::Setup(state.snapshot()),
            Screen::Encoding(state) => automation::Snapshot::Encoding(state.snapshot()),
        }
    }
}

/// What is left to do outside after a message.
pub enum Effect<P> {
    Nothing,
    /// Ask for an input file; the answer is an `InputPicked`.
    PickInput,
    /// Ask for an output file; the answer is an `OutputPicked`.
    PickOutput,
    /// Start an encode, whose messages go to the encoding page.
    Encode(setup::Job<P>),
}

/// What an update leaves to do: an effect, and a screen to publish.
pub struct Update<P> {
    pub effect: Effect<P>,
    pub publish: Option<(Option<u64>, automation::Snapshot<P>)>,
}

/// The app.
pub struct App<P> {
    screen: Screen<P>,
}

/// Whether a message is for the page that is shown.
pub open spec fn addressed<P>(screen: Screen<P>, message: Message<P>) -> bool {
    match (screen, message) {
        (Screen::Setup(_), Message::Setup(_)) => true,
        (Screen::Encoding(_), Message::Encoding(_)) => true,
        _ => false,
    }
}

/// Whether a message leaves the setup page for the encoding page.
pub open spec fn starts<P: Clone>(screen: Screen<P>, message: Message<P>) -> bool {
    match (screen, message) {
        (Screen::Setup(state), Message::Setup(setup::Message::Start)) => state.ready(),
        _ => false,
    }
}

impl<P: Clone> App<P> {
    /// The page that is shown.
    pub closed spec fn shown(self) -> Screen<P> {
        self.screen
    }

    /// The app as it starts: a fresh setup page.
    pub fn new() -> (app: Self)
        ensures
            app.shown() matches Screen::Setup(state) && state.is_fresh(),
    {
        App { screen: Screen::Setup(setup::State::new()) }
    }

    /// The page that is shown.
    pub fn screen(&self) -> (r: &Screen<P>)
        ensures
            *r == self.shown(),
    {
        &self.screen
    }

    /// Takes a message to its page. A message for a page that is no longer shown
    /// goes nowhere. The screen is published only after a message that went
    /// somewhere, and only if a client listens.
    pub fn update(&mut self, envelope: Envelope<P>, has_subscribers: bool) -> (r: Update<P>)
        ensures
            !addressed(old(self).shown(), envelope.content()) ==> {
                &&& final(self).shown() == old(self).shown()
                &&& r.effect is Nothing
                &&& r.publish is None
            },
            addressed(old(self).shown(), envelope.content()) ==> {
                &&& r.publish is Some <==> has_subscribers
                &&& r.publish matches Some((number, snapshot)) ==> number == envelope.number()
                    && final(self).shown().shown_by(snapshot)
            },
            match (old(self).shown(), envelope.content()) {
                (Screen::Setup(state), Message::Setup(message)) => match r.effect {
                    Effect::Encode(job) => {
                        &&& starts(old(self).shown(), envelope.content())
                        &&& final(self).shown() matches Screen::Encoding(page) && page.is_fresh()
                        &&& cloned(state.input->Some_0, job.input)
                        &&& cloned(state.output->Some_0, job.output)
                        &&& job.cutoff_bits == state.cutoff_bits
                        &&& job.encoder == state.encoder
                        &&& job.backend == state.backend
                    },
                    _ => {
                        &&& !starts(old(self).shown(), envelope.content())
                        &&& final(self).shown() == Screen::Setup(setup::after(state, message))
                        &&& r.effect is PickInput <==> message is PickInput
                        &&& r.effect is PickOutput <==> message is PickOutput
                    },
                },
                (Screen::Encoding(state), Message::Encoding(message)) => {
                    &&& r.effect is Nothing
                    &&& message is BackToSetup <==> final(self).shown() is Setup
                    &&& final(self).shown() matches Screen::Setup(page) ==> page.is_fresh()
                    &&& final(self).shown() matches Screen::Encoding(page) ==> encoding::stepped(
                        state,
                        message,
                        page,
                    )
                },
                _ => true,
            },
    {
        let number: Option<u64> = envelope.correlation_id;
        let mut effect: Effect<P> = Effect::Nothing;
        let mut next: Option<Screen<P>> = None;
        let mut dispatched: bool = true;
        match (&mut self.screen, envelope.message) {
            (Screen::Setup(state), Message::Setup(message)) => match state.update(message) {
                setup::Action::Nothing => {},
                setup::Action::PickInput => {
                    effect = Effect::PickInput;
                },
                setup::Action::PickOutput => {
                    effect = Effect::PickOutput;
                },
                setup::Action::Start(job) => {
                    effect = Effect::Encode(job);
                    next = Some(Screen::Encoding(encoding::State::start()));
                },
            },
            (Screen::Encoding(state), Message::Encoding(message)) => match state.update(message) {
                encoding::Action::Nothing => {},
                encoding::Action::BackToSetup => {
                    next = Some(Screen::Setup(setup::State::new()));
                },
            },
            _ => {
                dispatched = false;
            },
        }
        if let Some(screen) = next {
            self.screen = screen;
        }
        let publish = if dispatched && has_subscribers {
            Some((number, self.screen.snapshot()))
        } else {
            None
        };
        Update { effect, publish }
    }
}

} // verus!
