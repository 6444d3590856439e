//! Talking to the portal for shortcuts: what is asked next after each reply.

use vstd::prelude::*;

use crate::config::settings;
use crate::platform::hotkeys;
use crate::platform::hotkeys::{
    check_configure_version, check_query_version, check_session_version, fatal_configure_error,
    own_trigger, Hotkeys, LinuxHotkeyManager, PortalFault,
};
use crate::platform::registry::HotkeyAction;
use crate::text;

verus! {

/// What the portal is talked to for.
#[derive(Debug, Clone, Copy, PartialEq, Eq, Structural)]
pub enum Purpose {
    /// To bind the shortcuts and to listen for them.
    Listen,
    /// To ask for the trigger.
    Query,
    /// To let the user choose the trigger.
    Configure,
}

/// The reply that is waited for.
#[derive(Debug, Clone, Copy, PartialEq, Eq, Structural)]
pub enum Phase {
    Connecting,
    Creating,
    Binding,
    Configuring,
    Listing,
    Subscribing,
    Listening,
    Done,
}

/// What the portal replied. Lists hold identifiers and triggers.
#[derive(Debug)]
pub enum Reply {
    /// The connection stands; the version of the portal.
    Connected(u32),
    NotConnected(String),
    Created,
    NotCreated(String),
    Bound(Vec<(String, String)>),
    BindTimedOut,
    NotBound(String),
    NoBindAnswer(String),
    Configured,
    NotConfigured(String),
    Listed(Vec<(String, String)>),
    NotListed(String),
    NoListAnswer(String),
    Subscribed,
    NotSubscribed(String),
    /// A shortcut with an identifier was pressed.
    Activated(String),
    /// No more shortcuts will be reported.
    StreamEnded,
    ShutDown,
}

/// What to ask the portal next, or how the talk ended.
#[derive(Debug)]
pub enum Request {
    CreateSession,
    Bind,
    Configure,
    List,
    Subscribe,
    /// The listener has just become ready: say so, and wait.
    Ready,
    /// Wait for the next shortcut.
    Wait,
    /// Pass an action on, and wait.
    Forward(HotkeyAction),
    /// The trigger that was asked for.
    Found(Option<String>),
    Failed(PortalFault),
    End,
}

/// A talk with the portal.
#[derive(Debug, Clone, Copy, PartialEq, Eq, Structural)]
pub struct Conversation {
    pub purpose: Purpose,
    /// There are shortcuts to be bound.
    pub has_entries: bool,
    pub phase: Phase,
}

/// A reply is one of those that are waited for.
pub open spec fn fits(c: Conversation, reply: Reply) -> bool {
    match c.phase {
        Phase::Connecting => reply is Connected || reply is NotConnected,
        Phase::Creating => reply is Created || reply is NotCreated,
        Phase::Binding => {
            ||| reply is Bound
            ||| reply is NotBound
            ||| reply is NoBindAnswer
            ||| (c.purpose == Purpose::Listen && reply is BindTimedOut)
        },
        Phase::Configuring => reply is Configured || reply is NotConfigured,
        Phase::Listing => reply is Listed || reply is NotListed || reply is NoListAnswer,
        Phase::Subscribing => reply is Subscribed || reply is NotSubscribed,
        Phase::Listening => reply is Activated || reply is StreamEnded || reply is ShutDown,
        Phase::Done => false,
    }
}

/// The fault of a portal with a version that is too old for a purpose.
pub open spec fn version_fault(purpose: Purpose, version: u32) -> Option<PortalFault> {
    match purpose {
        Purpose::Listen => if version == 0 {
            Some(PortalFault::NotSupportedByBackend)
        } else {
            None
        },
        Purpose::Query => if version == 0 {
            Some(PortalFault::NotSupported)
        } else {
            None
        },
        Purpose::Configure => if version < 2 {
            Some(PortalFault::TooOld(version))
        } else {
            None
        },
    }
}

/// The phase after a reply, and what is asked then.
pub open spec fn answers(c: Conversation, reply: Reply, phase: Phase, r: Request) -> bool {
    match reply {
        Reply::Connected(version) => match version_fault(c.purpose, version) {
            Some(fault) => phase == Phase::Done && r == Request::Failed(fault),
            None => phase == Phase::Creating && r == Request::CreateSession,
        },
        Reply::NotConnected(e) => phase == Phase::Done && r == Request::Failed(
            if c.purpose == Purpose::Listen {
                PortalFault::ConnectSession(e)
            } else {
                PortalFault::Connect(e)
            },
        ),
        Reply::Created => if c.purpose == Purpose::Query && !c.has_entries {
            phase == Phase::Listing && r == Request::List
        } else {
            phase == Phase::Binding && r == Request::Bind
        },
        Reply::NotCreated(e) => phase == Phase::Done && r == Request::Failed(
            PortalFault::CreateSession(e),
        ),
        Reply::Bound(list) => match c.purpose {
            Purpose::Listen => match hotkeys::first_without_trigger(settings::pairs(list@)) {
                Some(id) => phase == Phase::Done && (r matches Request::Failed(
                    PortalFault::NoTrigger(t),
                ) && t@ == id),
                None => phase == Phase::Listing && r == Request::List,
            },
            Purpose::Query => phase == Phase::Listing && r == Request::List,
            Purpose::Configure => phase == Phase::Configuring && r == Request::Configure,
        },
        Reply::BindTimedOut => phase == Phase::Done && r == Request::Failed(
            PortalFault::BindTimeout,
        ),
        Reply::NotBound(e) => phase == Phase::Done && r == Request::Failed(PortalFault::Bind(e)),
        Reply::NoBindAnswer(e) => phase == Phase::Done && r == Request::Failed(
            if c.purpose == Purpose::Listen {
                PortalFault::BindResponseError(e)
            } else {
                PortalFault::BindResponse(e)
            },
        ),
        Reply::Configured => phase == Phase::Listing && r == Request::List,
        Reply::NotConfigured(e) => if text::holds(e@, "RequiresVersion"@) {
            phase == Phase::Done && r == Request::Failed(PortalFault::Configure(e))
        } else {
            phase == Phase::Listing && r == Request::List
        },
        Reply::Listed(list) => if c.purpose == Purpose::Listen {
            phase == Phase::Subscribing && r == Request::Subscribe
        } else {
            phase == Phase::Done && (r matches Request::Found(t) && text::maybe(t)
                == hotkeys::listed_trigger(settings::pairs(list@)))
        },
        Reply::NotListed(e) => if c.purpose == Purpose::Listen {
            phase == Phase::Subscribing && r == Request::Subscribe
        } else {
            phase == Phase::Done && r == Request::Failed(PortalFault::List(e))
        },
        Reply::NoListAnswer(e) => if c.purpose == Purpose::Listen {
            phase == Phase::Subscribing && r == Request::Subscribe
        } else {
            phase == Phase::Done && r == Request::Failed(PortalFault::ListResponse(e))
        },
        Reply::Subscribed => phase == Phase::Listening && r == Request::Ready,
        Reply::NotSubscribed(e) => phase == Phase::Done && r == Request::Failed(
            PortalFault::Receive(e),
        ),
        Reply::Activated(id) => phase == Phase::Listening && r == match HotkeyAction::of_id(id@) {
            Some(action) => Request::Forward(action),
            None => Request::Wait,
        },
        Reply::StreamEnded | Reply::ShutDown => phase == Phase::Done && r == Request::End,
    }
}

/// What a reply tells of the shortcuts: a session that listens remembers the triggers in lists.
pub open spec fn told(c: Conversation, reply: Reply, before: Hotkeys) -> Hotkeys {
    if c.purpose != Purpose::Listen {
        before
    } else {
        match reply {
            Reply::Bound(list) => {
                let l = settings::pairs(list@);
                if hotkeys::first_without_trigger(l) is Some {
                    before
                } else {
                    match hotkeys::last_own(l) {
                        Some(trigger) => Hotkeys { trigger: Some(trigger), error: None, ..before },
                        None => before,
                    }
                }
            },
            Reply::Listed(list) => before.after_list(settings::pairs(list@)),
            _ => before,
        }
    }
}

impl Conversation {
    /// The talk begins with connecting.
    pub fn new(purpose: Purpose, has_entries: bool) -> (r: Self)
        ensures
            r == (Conversation { purpose, has_entries, phase: Phase::Connecting }),
    {
        Conversation { purpose, has_entries, phase: Phase::Connecting }
    }

    fn ends(&mut self, fault: PortalFault) -> (r: Request)
        ensures
            r == Request::Failed(fault),
            *final(self) == (Conversation { phase: Phase::Done, ..*old(self) }),
    {
        self.phase = Phase::Done;
        Request::Failed(fault)
    }

    fn asks(&mut self, phase: Phase, request: Request) -> (r: Request)
        ensures
            r == request,
            *final(self) == (Conversation { phase, ..*old(self) }),
    {
        self.phase = phase;
        request
    }

    fn check_version(&self, version: u32) -> (r: Result<(), PortalFault>)
        ensures
            r == match version_fault(self.purpose, version) {
                Some(fault) => Err::<(), _>(fault),
                None => Ok(()),
            },
    {
        match self.purpose {
            Purpose::Listen => check_session_version(version),
            Purpose::Query => check_query_version(version),
            Purpose::Configure => check_configure_version(version),
        }
    }

    /// Takes a reply of the portal, tells the manager what it says, and gives what to ask next.
    pub fn reply(&mut self, manager: &mut LinuxHotkeyManager, reply: Reply) -> (r: Request)
        requires
            fits(*old(self), reply),
            old(manager).valid(),
        ensures
            final(manager).valid(),
            final(manager).action_tx == old(manager).action_tx,
            final(manager)@ == told(*old(self), reply, old(manager)@),
            *final(self) == (Conversation { phase: final(self).phase, ..*old(self) }),
            answers(*old(self), reply, final(self).phase, r),
    {
        match reply {
            Reply::Connected(version) => match self.check_version(version) {
                Ok(()) => self.asks(Phase::Creating, Request::CreateSession),
                Err(fault) => self.ends(fault),
            },
            Reply::NotConnected(e) => match self.purpose {
                Purpose::Listen => self.ends(PortalFault::ConnectSession(e)),
                _ => self.ends(PortalFault::Connect(e)),
            },
            Reply::Created => {
                if self.purpose == Purpose::Query && !self.has_entries {
                    self.asks(Phase::Listing, Request::List)
                } else {
                    self.asks(Phase::Binding, Request::Bind)
                }
            },
            Reply::NotCreated(e) => self.ends(PortalFault::CreateSession(e)),
            Reply::Bound(list) => match self.purpose {
                Purpose::Listen => match manager.bound(&list) {
                    Ok(()) => self.asks(Phase::Listing, Request::List),
                    Err(fault) => self.ends(fault),
                },
                Purpose::Query => self.asks(Phase::Listing, Request::List),
                Purpose::Configure => self.asks(Phase::Configuring, Request::Configure),
            },
            Reply::BindTimedOut => self.ends(PortalFault::BindTimeout),
            Reply::NotBound(e) => self.ends(PortalFault::Bind(e)),
            Reply::NoBindAnswer(e) => match self.purpose {
                Purpose::Listen => self.ends(PortalFault::BindResponseError(e)),
                _ => self.ends(PortalFault::BindResponse(e)),
            },
            Reply::Configured => self.asks(Phase::Listing, Request::List),
            Reply::NotConfigured(e) => {
                if fatal_configure_error(e.as_str()) {
                    self.ends(PortalFault::Configure(e))
                } else {
                    self.asks(Phase::Listing, Request::List)
                }
            },
            Reply::Listed(list) => match self.purpose {
                Purpose::Listen => {
                    manager.listed(&list);
                    self.asks(Phase::Subscribing, Request::Subscribe)
                },
                _ => self.asks(Phase::Done, Request::Found(own_trigger(&list))),
            },
            Reply::NotListed(e) => match self.purpose {
                Purpose::Listen => self.asks(Phase::Subscribing, Request::Subscribe),
                _ => self.ends(PortalFault::List(e)),
            },
            Reply::NoListAnswer(e) => match self.purpose {
                Purpose::Listen => self.asks(Phase::Subscribing, Request::Subscribe),
                _ => self.ends(PortalFault::ListResponse(e)),
            },
            Reply::Subscribed => self.asks(Phase::Listening, Request::Ready),
            Reply::NotSubscribed(e) => self.ends(PortalFault::Receive(e)),
            Reply::Activated(id) => match HotkeyAction::from_id(id.as_str()) {
                Some(action) => self.asks(Phase::Listening, Request::Forward(action)),
                None => self.asks(Phase::Listening, Request::Wait),
            },
            Reply::StreamEnded => self.asks(Phase::Done, Request::End),
            Reply::ShutDown => self.asks(Phase::Done, Request::End),
        }
    }
}

/// How far a talk has come.
pub open spec fn progress(phase: Phase) -> int {
    match phase {
        Phase::Connecting => 0,
        Phase::Creating => 1,
        Phase::Binding => 2,
        Phase::Configuring => 3,
        Phase::Listing => 4,
        Phase::Subscribing => 5,
        Phase::Listening => 6,
        Phase::Done => 7,
    }
}

/// Every reply brings the talk further, but for the shortcuts that are listened for: so a talk
/// comes to its end, or to listening, after at most six replies.
pub proof fn law_talk_advances(c: Conversation, reply: Reply, phase: Phase, r: Request)
    requires
        fits(c, reply),
        answers(c, reply, phase, r),
    ensures
        progress(phase) > progress(c.phase) || (c.phase == Phase::Listening && phase
            == Phase::Listening),
{
}

/// A session is reported as ready only when it has begun to listen, and listens only after the
/// portal said so.
pub proof fn law_ready_means_listening(c: Conversation, reply: Reply, phase: Phase, r: Request)
    requires
        fits(c, reply),
        answers(c, reply, phase, r),
    ensures
        r is Ready <==> reply is Subscribed,
        r is Ready ==> phase == Phase::Listening,
        (phase == Phase::Listening && c.phase != Phase::Listening) ==> r is Ready,
{
}

/// A session that listens goes on after binding only if every shortcut has a trigger.
pub proof fn law_bound_means_triggered(
    c: Conversation,
    list: Vec<(String, String)>,
    phase: Phase,
    r: Request,
)
    requires
        c.purpose == Purpose::Listen,
        c.phase == Phase::Binding,
        answers(c, Reply::Bound(list), phase, r),
        phase != Phase::Done,
    ensures
        forall|i: int| 0 <= i < list@.len() ==> (#[trigger] list@[i]).1@.len() > 0,
{
    let l = settings::pairs(list@);
    lemma_all_triggered(l);
    assert forall|i: int| 0 <= i < list@.len() implies (#[trigger] list@[i]).1@.len() > 0 by {
        assert(l[i] == (list@[i].0@, list@[i].1@));
    }
}

proof fn lemma_all_triggered(l: Seq<(Seq<char>, Seq<char>)>)
    requires
        hotkeys::first_without_trigger(l) is None,
    ensures
        forall|i: int| 0 <= i < l.len() ==> (#[trigger] l[i]).1.len() > 0,
    decreases l.len(),
{
    if l.len() > 0 {
        lemma_all_triggered(l.drop_first());
        assert forall|i: int| 0 <= i < l.len() implies (#[trigger] l[i]).1.len() > 0 by {
            if i > 0 {
                assert(l.drop_first()[i - 1] == l[i]);
            }
        }
    }
}

} // verus!
