//! Driving the app from outside: what is published, and how one client's
//! requests are answered, one line each.
use crate::ui::{encoding, setup};
use vstd::prelude::*;

verus! {

/// The local port clients connect to.
pub const PORT: u16 = 47624;

/// How long an injected message is waited for, in seconds.
pub const INJECT_TIMEOUT_SECS: u64 = 5;

/// The screen as a client sees it.
pub enum Snapshot<P> {
    Setup(setup::Snapshot<P>),
    Encoding(encoding::Snapshot),
}

/// What was last published, and how often anything was.
pub struct Board<S> {
    snapshot: S,
    generation: u64,
    correlation: Option<u64>,
}

impl<S> Board<S> {
    /// What was last published.
    pub closed spec fn latest(self) -> S {
        self.snapshot
    }

    /// How often anything was published, modulo 2^64.
    pub closed spec fn published(self) -> u64 {
        self.generation
    }

    /// The injected message that the last publication answers, if any.
    pub closed spec fn answers(self) -> Option<u64> {
        self.correlation
    }

    /// A board that shows the screen the app starts with.
    pub fn new(initial: S) -> (b: Self)
        ensures
            b.latest() == initial,
            b.published() == 0,
            b.answers() is None,
    {
        Board { snapshot: initial, generation: 0, correlation: None }
    }

    /// Publishes the screen after a message, `correlation` telling which
    /// injected message it was, if it was one.
    pub fn publish(&mut self, correlation: Option<u64>, snapshot: S)
        ensures
            final(self).latest() == snapshot,
            final(self).answers() == correlation,
            final(self).published() == (old(self).published() + 1) % 0x1_0000_0000_0000_0000,
    {
        self.snapshot = snapshot;
        self.correlation = correlation;
        self.generation = self.generation.wrapping_add(1);
    }

    /// What was last published.
    pub fn snapshot(&self) -> (r: &S)
        ensures
            *r == self.latest(),
    {
        &self.snapshot
    }

    /// How often anything was published.
    pub fn generation(&self) -> (r: u64)
        ensures
            r == self.published(),
    {
        self.generation
    }
}

/// Something that happened to a client's connection.
pub enum ClientEvent {
    /// A line with nothing on it.
    BlankLine,
    /// A request to see the screen.
    SnapshotRequest,
    /// A request to inject a message.
    InjectRequest,
    /// A line that is no request, and why.
    Malformed(String),
    /// A publication that answers the injected message `Some(id)`, or none.
    Published(Option<u64>),
    /// The wait for an injected message took too long.
    TimedOut,
    /// The connection is closed or broken.
    Closed,
    /// The app is shutting down.
    AppGone,
}

/// What to do about it.
pub enum ClientStep {
    /// Read the next line.
    Read,
    /// Inject the message under this number, and wait.
    Inject(u64),
    /// Go on waiting.
    Wait,
    /// Answer with the screen, then read the next line.
    ReplySnapshot,
    /// Answer with an error, then read the next line.
    ReplyError(String),
    /// Drop the connection.
    Drop,
}

/// One client's connection.
pub struct Client {
    next_id: u64,
    waiting: Option<u64>,
    requests: Ghost<nat>,
    replies: Ghost<nat>,
}

impl Client {
    /// The injected message that is waited for.
    pub closed spec fn waits_for(self) -> Option<u64> {
        self.waiting
    }

    /// The number the next injected message gets.
    pub closed spec fn next_number(self) -> u64 {
        self.next_id
    }

    /// How many requests came in.
    pub closed spec fn requests(self) -> nat {
        self.requests@
    }

    /// How many answers went out.
    pub closed spec fn replies(self) -> nat {
        self.replies@
    }

    /// Every request but the one that is waited for has been answered.
    pub open spec fn balanced(self) -> bool {
        self.requests() == self.replies() + (if self.waits_for() is Some {
            1nat
        } else {
            0nat
        })
    }

    /// A fresh connection, whose injected messages are numbered from `first_id`.
    pub fn new(first_id: u64) -> (c: Self)
        ensures
            c.balanced(),
            c.waits_for() is None,
            c.next_number() == first_id,
            c.requests() == 0,
    {
        Client { next_id: first_id, waiting: None, requests: Ghost(0), replies: Ghost(0) }
    }

    /// Decides what to do about an event. Every request is answered once: at
    /// once, or when the message it injected has been applied, or when that took
    /// too long. Lines are read only while nothing is waited for.
    pub fn step(&mut self, event: ClientEvent) -> (r: ClientStep)
        requires
            old(self).balanced(),
        ensures
            final(self).balanced(),
            match event {
                ClientEvent::BlankLine => if old(self).waits_for() is None {
                    r is Read && *final(self) == *old(self)
                } else {
                    r is Wait && *final(self) == *old(self)
                },
                ClientEvent::SnapshotRequest => if old(self).waits_for() is None {
                    &&& r is ReplySnapshot
                    &&& final(self).waits_for() is None
                    &&& final(self).next_number() == old(self).next_number()
                    &&& final(self).requests() == old(self).requests() + 1
                    &&& final(self).replies() == old(self).replies() + 1
                } else {
                    r is Wait && *final(self) == *old(self)
                },
                ClientEvent::InjectRequest => if old(self).waits_for() is None {
                    &&& r matches ClientStep::Inject(id) && id == old(self).next_number()
                    &&& final(self).waits_for() == Some(old(self).next_number())
                    &&& final(self).next_number() == (old(self).next_number() + 1)
                        % 0x1_0000_0000_0000_0000
                    &&& final(self).requests() == old(self).requests() + 1
                    &&& final(self).replies() == old(self).replies()
                } else {
                    r is Wait && *final(self) == *old(self)
                },
                ClientEvent::Malformed(why) => if old(self).waits_for() is None {
                    &&& r matches ClientStep::ReplyError(text) && text == why
                    &&& final(self).waits_for() is None
                    &&& final(self).next_number() == old(self).next_number()
                    &&& final(self).requests() == old(self).requests() + 1
                    &&& final(self).replies() == old(self).replies() + 1
                } else {
                    r is Wait && *final(self) == *old(self)
                },
                ClientEvent::Published(id) => if old(self).waits_for() is None {
                    r is Read && *final(self) == *old(self)
                } else if id == old(self).waits_for() {
                    &&& r is ReplySnapshot
                    &&& final(self).waits_for() is None
                    &&& final(self).next_number() == old(self).next_number()
                    &&& final(self).requests() == old(self).requests()
                    &&& final(self).replies() == old(self).replies() + 1
                } else {
                    r is Wait && *final(self) == *old(self)
                },
                ClientEvent::TimedOut => if old(self).waits_for() is None {
                    r is Read && *final(self) == *old(self)
                } else {
                    &&& r is ReplySnapshot
                    &&& final(self).waits_for() is None
                    &&& final(self).next_number() == old(self).next_number()
                    &&& final(self).requests() == old(self).requests()
                    &&& final(self).replies() == old(self).replies() + 1
                },
                ClientEvent::Closed | ClientEvent::AppGone => r is Drop && *final(self) == *old(
                    self,
                ),
            },
    {
        match self.waiting {
            None => match event {
                ClientEvent::BlankLine => ClientStep::Read,
                ClientEvent::SnapshotRequest => {
                    self.requests = Ghost(self.requests@ + 1);
                    self.replies = Ghost(self.replies@ + 1);
                    ClientStep::ReplySnapshot
                },
                ClientEvent::InjectRequest => {
                    let id: u64 = self.next_id;
                    self.next_id = id.wrapping_add(1);
                    self.waiting = Some(id);
                    self.requests = Ghost(self.requests@ + 1);
                    ClientStep::Inject(id)
                },
                ClientEvent::Malformed(why) => {
                    self.requests = Ghost(self.requests@ + 1);
                    self.replies = Ghost(self.replies@ + 1);
                    ClientStep::ReplyError(why)
                },
                ClientEvent::Published(_) => ClientStep::Read,
                ClientEvent::TimedOut => ClientStep::Read,
                ClientEvent::Closed => ClientStep::Drop,
                ClientEvent::AppGone => ClientStep::Drop,
            },
            Some(waiting) => match event {
                ClientEvent::Published(id) => {
                    let answered: bool = match id {
                        Some(n) => n == waiting,
                        None => false,
                    };
                    if answered {
                        self.waiting = None;
                        self.replies = Ghost(self.replies@ + 1);
                        ClientStep::ReplySnapshot
                    } else {
                        ClientStep::Wait
                    }
                },
                ClientEvent::TimedOut => {
                    self.waiting = None;
                    self.replies = Ghost(self.replies@ + 1);
                    ClientStep::ReplySnapshot
                },
                ClientEvent::Closed => ClientStep::Drop,
                ClientEvent::AppGone => ClientStep::Drop,
                _ => ClientStep::Wait,
            },
        }
    }
}

} // verus!
