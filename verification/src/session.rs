//! The per-connection state machine: bitfield, interested, choke and
//! unchoke.  The session decides; the caller does the talking.

use vstd::prelude::*;

use crate::bytes20::Bytes20;
use crate::message::{MessageView, PeerMessage};

verus! {

/// Where a session stands since its handshake.
#[derive(Clone, Copy, Debug, PartialEq, Eq, Structural)]
pub enum SessionPhase {
    /// Nothing heard yet; waiting for the remote bitfield.
    AfterHandshake,
    /// Bitfield seen, interest declared, remote end still choking.
    Choked,
    /// Unchoked: block requests may flow.
    Ready,
}

/// What the caller should send in response to an inbound message.
#[derive(Clone, Copy, Debug, PartialEq, Eq, Structural)]
pub enum SessionAction {
    /// Nothing to send.
    DoNothing,
    /// Declare interest, now that the bitfield arrived.
    SendInterested,
}

/// One peer connection's protocol state.
pub struct Session {
    peer_id: Bytes20,
    phase: SessionPhase,
    remote_has_bitfield: bool,
    ext_ut_metadata_id: Option<u8>,
}

impl Session {
    /// The phase the session is in.
    pub closed spec fn phase_spec(&self) -> SessionPhase {
        self.phase
    }

    /// Whether a bitfield has been recorded.
    pub closed spec fn has_bitfield_spec(&self) -> bool {
        self.remote_has_bitfield
    }

    /// The remote end's `ut_metadata` message number, once learned.
    pub closed spec fn metadata_id_spec(&self) -> Option<u8> {
        self.ext_ut_metadata_id
    }

    /// The remote peer's identifier.
    pub closed spec fn peer_id_spec(&self) -> Seq<u8> {
        self.peer_id@
    }

    /// A session right after a successful handshake.
    pub fn new(peer_id: Bytes20) -> (r: Session)
        ensures
            r.phase_spec() == SessionPhase::AfterHandshake,
            r.has_bitfield_spec() == false,
            r.metadata_id_spec() is None,
            r.peer_id_spec() == peer_id@,
    {
        Session {
            peer_id,
            phase: SessionPhase::AfterHandshake,
            remote_has_bitfield: false,
            ext_ut_metadata_id: None,
        }
    }

    /// The remote peer's identifier.
    pub fn peer_id(&self) -> (r: Bytes20)
        ensures
            r@ == self.peer_id_spec(),
    {
        self.peer_id
    }

    /// Whether block requests may flow.
    pub fn is_ready(&self) -> (r: bool)
        ensures
            r == (self.phase_spec() == SessionPhase::Ready),
    {
        matches!(self.phase, SessionPhase::Ready)
    }

    /// Takes one inbound peer message.  A first bitfield moves the
    /// session to `Choked` and asks the caller to declare interest; a
    /// first `Have` does the same for peers that never send a bitfield,
    /// which then counts as all-zero; an unchoke while choked makes the
    /// session `Ready`; a choke while ready makes it `Choked` again.
    /// Everything else changes nothing.
    pub fn on_peer_message(&mut self, msg: &PeerMessage) -> (act: SessionAction)
        ensures
            final(self).peer_id_spec() == old(self).peer_id_spec(),
            final(self).metadata_id_spec() == old(self).metadata_id_spec(),
            ({
                let was = old(self).phase_spec();
                let now = final(self).phase_spec();
                match msg@ {
                    MessageView::Bitfield(_) => if was == SessionPhase::AfterHandshake {
                        &&& now == SessionPhase::Choked
                        &&& final(self).has_bitfield_spec() == true
                        &&& act == SessionAction::SendInterested
                    } else {
                        &&& now == was
                        &&& final(self).has_bitfield_spec() == true
                        &&& act == SessionAction::DoNothing
                    },
                    MessageView::Have(_) => if was == SessionPhase::AfterHandshake {
                        &&& now == SessionPhase::Choked
                        &&& final(self).has_bitfield_spec() == old(self).has_bitfield_spec()
                        &&& act == SessionAction::SendInterested
                    } else {
                        &&& now == was
                        &&& final(self).has_bitfield_spec() == old(self).has_bitfield_spec()
                        &&& act == SessionAction::DoNothing
                    },
                    MessageView::Unchoke => {
                        &&& now == if was == SessionPhase::Choked {
                            SessionPhase::Ready
                        } else {
                            was
                        }
                        &&& final(self).has_bitfield_spec() == old(self).has_bitfield_spec()
                        &&& act == SessionAction::DoNothing
                    },
                    MessageView::Choke => {
                        &&& now == if was == SessionPhase::Ready {
                            SessionPhase::Choked
                        } else {
                            was
                        }
                        &&& final(self).has_bitfield_spec() == old(self).has_bitfield_spec()
                        &&& act == SessionAction::DoNothing
                    },
                    _ => {
                        &&& now == was
                        &&& final(self).has_bitfield_spec() == old(self).has_bitfield_spec()
                        &&& act == SessionAction::DoNothing
                    },
                }
            }),
    {
        match msg {
            PeerMessage::Bitfield(_) => {
                self.remote_has_bitfield = true;
                if matches!(self.phase, SessionPhase::AfterHandshake) {
                    self.phase = SessionPhase::Choked;
                    SessionAction::SendInterested
                } else {
                    SessionAction::DoNothing
                }
            },
            PeerMessage::Have(_) => {
                if matches!(self.phase, SessionPhase::AfterHandshake) {
                    self.phase = SessionPhase::Choked;
                    SessionAction::SendInterested
                } else {
                    SessionAction::DoNothing
                }
            },
            PeerMessage::Unchoke => {
                if matches!(self.phase, SessionPhase::Choked) {
                    self.phase = SessionPhase::Ready;
                }
                SessionAction::DoNothing
            },
            PeerMessage::Choke => {
                if matches!(self.phase, SessionPhase::Ready) {
                    self.phase = SessionPhase::Choked;
                }
                SessionAction::DoNothing
            },
            _ => SessionAction::DoNothing,
        }
    }

    /// Records the remote end's `ut_metadata` number from its extension
    /// handshake; anything without one changes nothing.
    pub fn on_extension_handshake(&mut self, id: Option<u8>)
        ensures
            final(self).peer_id_spec() == old(self).peer_id_spec(),
            final(self).phase_spec() == old(self).phase_spec(),
            final(self).has_bitfield_spec() == old(self).has_bitfield_spec(),
            final(self).metadata_id_spec() == if id is Some {
                id
            } else {
                old(self).metadata_id_spec()
            },
    {
        match id {
            Some(v) => {
                self.ext_ut_metadata_id = Some(v);
            },
            None => {},
        }
    }

    /// The remote end's `ut_metadata` number, once learned.
    pub fn metadata_id(&self) -> (r: Option<u8>)
        ensures
            r == self.metadata_id_spec(),
    {
        self.ext_ut_metadata_id
    }
}

} // verus!
