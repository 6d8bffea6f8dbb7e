//! Satellites that receive messages from a ground station through a mailbox.
use vstd::prelude::*;

verus! {

/// The messages waiting for a satellite, the latest last.
#[derive(Debug)]
pub struct Mailbox {
    messages: Vec<String>,
}

impl Mailbox {
    pub closed spec fn view_messages(&self) -> Seq<String> {
        self.messages@
    }

    /// An empty mailbox.
    pub fn new() -> (r: Mailbox)
        ensures
            r.view_messages() == Seq::<String>::empty(),
    {
        Mailbox { messages: Vec::new() }
    }
}

/// A satellite and its mailbox.
#[derive(Debug)]
pub struct CubeSat {
    pub id: u64,
    mailbox: Mailbox,
}

impl CubeSat {
    pub closed spec fn sat_id(&self) -> u64 {
        self.id
    }

    /// The messages waiting, the latest last.
    pub closed spec fn inbox(&self) -> Seq<String> {
        self.mailbox.view_messages()
    }

    /// A satellite with an empty mailbox.
    pub fn new(id: u64) -> (r: CubeSat)
        ensures
            r.sat_id() == id,
            r.inbox() == Seq::<String>::empty(),
    {
        CubeSat { id, mailbox: Mailbox::new() }
    }

    /// Takes the latest message out of the mailbox, if there is one.
    pub fn recv(&mut self) -> (r: Option<String>)
        ensures
            final(self).sat_id() == old(self).sat_id(),
            old(self).inbox().len() == 0 ==> r is None && final(self).inbox() == old(self).inbox(),
            old(self).inbox().len() > 0 ==> r == Some(old(self).inbox().last())
                && final(self).inbox() == old(self).inbox().drop_last(),
    {
        self.mailbox.messages.pop()
    }
}

/// The station that sends messages up.
pub struct GroundStation;

impl GroundStation {
    /// Puts `msg` into the mailbox of `to`.
    pub fn send(&self, to: &mut CubeSat, msg: String)
        ensures
            final(to).sat_id() == old(to).sat_id(),
            final(to).inbox() == old(to).inbox().push(msg),
    {
        to.mailbox.messages.push(msg);
    }
}

/// A satellite's status.
#[derive(Debug, Clone, Copy, PartialEq, Eq, Structural)]
pub enum StatusMessage {
    Okay,
}

/// The status of a satellite: every satellite reports that it is fine.
pub fn check_status(_sat: &CubeSat) -> (r: StatusMessage)
    ensures
        r == StatusMessage::Okay,
{
    StatusMessage::Okay
}

} // verus!
