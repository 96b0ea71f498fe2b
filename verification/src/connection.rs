//! The per-peer connection state machine: a handshake, an authorization,
//! then a loop that forwards jobs outward and validates submissions inward.
//! Every exit to `Closed` hands the hub exactly one disconnect notice, and a
//! closed connection neither sends nor notifies again.

use vstd::prelude::*;

use crate::message::{IdV, MessageId, MsgV, ResponseElem, ResponseParams, StratumMessage};
use crate::util::le_u64;

verus! {

broadcast use vstd::seq::group_seq_axioms;

/// Everything the outside puzzle library decided about a submit frame, and
/// the address check for an authorize frame. The library takes these as
/// given and is verified for every value of them.
pub struct ExtChecks {
    pub address_ok: bool,
    pub commitment_ok: bool,
    pub proof_ok: bool,
}

/// What the underlying puzzle scheme must answer about opaque blobs. The
/// caller implements this with the chain's own library; nothing is assumed
/// of the answers.
pub trait SolutionVerifier {
    /// Whether the bytes deserialize as a commitment.
    fn parse_commitment(&self, bytes: &Vec<u8>) -> bool;

    /// Whether the bytes deserialize as a proof.
    fn parse_proof(&self, bytes: &Vec<u8>) -> bool;

    /// Whether the text is a valid account address.
    fn parse_address(&self, addr: &Vec<u8>) -> bool;
}

/// What a bundle of hex digits stands for: two digits for each byte; an odd
/// count or a stray character is refused.
pub open spec fn hex_decode_spec(s: Seq<u8>) -> Option<Seq<u8>>
    decreases s.len(),
{
    if s.len() == 0 {
        Some(Seq::<u8>::empty())
    } else if s.len() == 1 {
        None
    } else {
        match (crate::json::hex_val(s[0]), crate::json::hex_val(s[1])) {
            (Some(h), Some(l)) => match hex_decode_spec(s.subrange(2, s.len() as int)) {
                Some(rest) => Some(seq![(h * 16 + l) as u8] + rest),
                None => None,
            },
            _ => None,
        }
    }
}

/// Relies on hex::decode: each pair of hex digits, of either case, becomes
/// one byte; an odd length or a character outside the hex set is refused.
#[verifier::external_body]
pub fn hex_decode(s: &Vec<u8>) -> (r: Option<Vec<u8>>)
    ensures
        match r {
            Some(b) => hex_decode_spec(s@) == Some(b@),
            None => hex_decode_spec(s@) is None,
        },
{
    hex::decode(s).ok()
}

/// The semantic version a text parses as: major, minor, patch, and whether
/// the pre-release part is empty.
pub uninterp spec fn semver_of(s: Seq<u8>) -> Option<(u64, u64, u64, bool)>;

/// Relies on semver::Version::parse: the result is a function of the text
/// alone; build metadata is ignored, and the boolean tells whether the
/// pre-release part is empty.
#[verifier::external_body]
pub fn parse_semver(s: &Vec<u8>) -> (r: Option<(u64, u64, u64, bool)>)
    ensures
        r == semver_of(s@),
{
    match std::str::from_utf8(s) {
        Ok(t) => match semver::Version::parse(t) {
            Ok(v) => Some((v.major, v.minor, v.patch, v.pre.is_empty())),
            Err(_) => None,
        },
        Err(_) => None,
    }
}

/// The protocol name every peer must announce.
pub open spec fn protocol_name() -> Seq<u8> {
    // "AleoStratum"
    seq![0x41u8, 0x6cu8, 0x65u8, 0x6fu8, 0x53u8, 0x74u8, 0x72u8, 0x61u8, 0x74u8, 0x75u8, 0x6du8]
}

pub open spec fn lex_le(a: (u64, u64, u64), b: (u64, u64, u64)) -> bool {
    a.0 < b.0 || (a.0 == b.0 && (a.1 < b.1 || (a.1 == b.1 && a.2 <= b.2)))
}

pub open spec fn lex_lt(a: (u64, u64, u64), b: (u64, u64, u64)) -> bool {
    lex_le(a, b) && a != b
}

/// Whether a parsed version falls in the closed supported range. A
/// pre-release of the lower bound itself sorts below it and is refused.
pub open spec fn version_accepted(
    vo: Option<(u64, u64, u64, bool)>,
    min: (u64, u64, u64),
    max: (u64, u64, u64),
) -> bool {
    match vo {
        None => false,
        Some((ma, mi, pa, pre_empty)) => {
            let t = (ma, mi, pa);
            (lex_lt(min, t) || (t == min && pre_empty)) && lex_le(t, max)
        },
    }
}

/// Whether a protocol version string is acceptable: the protocol name, one
/// slash, and a supported semantic version.
pub open spec fn protocol_ok(pv: Seq<u8>, min: (u64, u64, u64), max: (u64, u64, u64)) -> bool {
    exists|i: int|
        0 <= i < pv.len() && #[trigger] pv[i] == 0x2f && (forall|j: int|
            0 <= j < pv.len() && j != i ==> pv[j] != 0x2f) && pv.subrange(0, i) == protocol_name()
            && version_accepted(semver_of(pv.subrange(i + 1, pv.len() as int)), min, max)
}

fn name_check(pv: &Vec<u8>, upto: usize) -> (r: bool)
    requires
        upto <= pv@.len(),
    ensures
        r == (pv@.subrange(0, upto as int) == protocol_name()),
{
    if upto != 11 {
        proof {
            assert(pv@.subrange(0, upto as int).len() != protocol_name().len());
        }
        return false;
    }
    let ok = pv[0] == 0x41 && pv[1] == 0x6c && pv[2] == 0x65 && pv[3] == 0x6f && pv[4] == 0x53
        && pv[5] == 0x74 && pv[6] == 0x72 && pv[7] == 0x61 && pv[8] == 0x74 && pv[9] == 0x75
        && pv[10] == 0x6d;
    proof {
        if ok {
            assert(pv@.subrange(0, 11) =~= protocol_name());
        } else {
            if pv@.subrange(0, 11) == protocol_name() {
                assert(forall|j: int|
                    0 <= j < 11 ==> #[trigger] pv@[j] == pv@.subrange(0, 11)[j]);
            }
        }
    }
    ok
}

/// Check a protocol version string against the supported range.
#[verifier::loop_isolation(false)]
pub fn check_protocol(pv: &Vec<u8>, min: (u64, u64, u64), max: (u64, u64, u64)) -> (r: bool)
    ensures
        r == protocol_ok(pv@, min, max),
{
    // find the first slash
    let mut i: usize = 0;
    while i < pv.len() && pv[i] != 0x2f
        invariant
            i <= pv@.len(),
            forall|j: int| 0 <= j < i ==> pv@[j] != 0x2f,
        decreases pv@.len() - i,
    {
        i = i + 1;
    }
    if i == pv.len() {
        proof {
            assert(!protocol_ok(pv@, min, max)) by {
                assert(forall|k: int| 0 <= k < pv@.len() ==> #[trigger] pv@[k] != 0x2f);
            }
        }
        return false;
    }
    // no second slash
    let mut j: usize = i + 1;
    while j < pv.len() && pv[j] != 0x2f
        invariant
            i < j <= pv@.len(),
            forall|k: int| i < k < j ==> pv@[k] != 0x2f,
        decreases pv@.len() - j,
    {
        j = j + 1;
    }
    if j < pv.len() {
        proof {
            assert(!protocol_ok(pv@, min, max)) by {
                assert forall|c: int|
                    !(0 <= c < pv@.len() && #[trigger] pv@[c] == 0x2f && (forall|k: int|
                        0 <= k < pv@.len() && k != c ==> pv@[k] != 0x2f) && pv@.subrange(0, c)
                        == protocol_name() && version_accepted(
                        semver_of(pv@.subrange(c + 1, pv@.len() as int)),
                        min,
                        max,
                    )) by {
                    if 0 <= c < pv@.len() && pv@[c] == 0x2f {
                        if c == i as int {
                            assert(pv@[j as int] == 0x2f && j as int != c);
                        } else {
                            assert(pv@[i as int] == 0x2f && i as int != c);
                        }
                    }
                }
            }
        }
        return false;
    }
    // the name before the slash
    if !name_check(pv, i) {
        proof {
            assert(!protocol_ok(pv@, min, max)) by {
                assert forall|c: int|
                    !(0 <= c < pv@.len() && #[trigger] pv@[c] == 0x2f && (forall|k: int|
                        0 <= k < pv@.len() && k != c ==> pv@[k] != 0x2f) && pv@.subrange(0, c)
                        == protocol_name() && version_accepted(
                        semver_of(pv@.subrange(c + 1, pv@.len() as int)),
                        min,
                        max,
                    )) by {
                    if 0 <= c < pv@.len() && pv@[c] == 0x2f && c != i as int {
                        assert(pv@[i as int] == 0x2f && i as int != c);
                    }
                }
            }
        }
        return false;
    }
    // the version after the slash
    let tail = crate::util::bytes_slice(pv, i + 1, pv.len());
    let vo = parse_semver(&tail);
    let accepted: bool = match vo {
        None => false,
        Some((ma, mi, pa, pre_empty)) => {
            let lower = (min.0 < ma || (min.0 == ma && (min.1 < mi || (min.1 == mi && min.2
                < pa)))) || (ma == min.0 && mi == min.1 && pa == min.2 && pre_empty);
            let upper = ma < max.0 || (ma == max.0 && (mi < max.1 || (mi == max.1 && pa
                <= max.2)));
            lower && upper
        },
    };
    proof {
        if accepted {
            assert(protocol_ok(pv@, min, max)) by {
                assert(pv@[i as int] == 0x2f && (forall|k: int|
                    0 <= k < pv@.len() && k != i as int ==> pv@[k] != 0x2f) && pv@.subrange(
                    0,
                    i as int,
                ) == protocol_name() && version_accepted(
                    semver_of(pv@.subrange(i as int + 1, pv@.len() as int)),
                    min,
                    max,
                ));
            }
        } else {
            assert(!protocol_ok(pv@, min, max)) by {
                assert forall|c: int|
                    !(0 <= c < pv@.len() && #[trigger] pv@[c] == 0x2f && (forall|k: int|
                        0 <= k < pv@.len() && k != c ==> pv@[k] != 0x2f) && pv@.subrange(0, c)
                        == protocol_name() && version_accepted(
                        semver_of(pv@.subrange(c + 1, pv@.len() as int)),
                        min,
                        max,
                    )) by {
                    if 0 <= c < pv@.len() && pv@[c] == 0x2f && c != i as int {
                        assert(pv@[i as int] == 0x2f && i as int != c);
                    }
                }
            }
        }
    }
    accepted
}

/// The 32-bit value read from four little-endian bytes.
pub open spec fn le_u32(b: Seq<u8>) -> u32
    recommends
        b.len() == 4,
{
    (b[0] as u32) | ((b[1] as u32) << 8) | ((b[2] as u32) << 16) | ((b[3] as u32) << 24)
}

fn read_u32_le(b: &Vec<u8>) -> (r: u32)
    requires
        b@.len() == 4,
    ensures
        r == le_u32(b@),
{
    (b[0] as u32) | ((b[1] as u32) << 8) | ((b[2] as u32) << 16) | ((b[3] as u32) << 24)
}

fn read_u64_le8(b: &Vec<u8>) -> (r: u64)
    requires
        b@.len() == 8,
    ensures
        r == le_u64(b@),
{
    crate::util::read_u64_le(b, 0)
}

/// How long a peer may stay silent, in milliseconds.
pub const PEER_COMM_TIMEOUT_MS: u64 = 180000;

/// Where a connection stands.
#[derive(Clone, Copy, PartialEq, Eq, Structural, Debug)]
pub enum ConnState {
    Opened,
    Subscribed,
    Active,
    Closed,
}

/// What the driver observed: a frame, a read failure, the peer leaving, a
/// message from the hub to forward, or the hub closing the channel.
pub enum ConnEvent {
    Frame(StratumMessage),
    FrameError,
    PeerClosed,
    Outbound(StratumMessage),
    OutboundClosed,
}

/// What the driver must do next: write a frame, tell the hub, or both.
pub enum ConnAction {
    Send(StratumMessage),
    NotifyAuthenticated(Vec<u8>),
    /// id, epoch number, nonce, commitment bytes, proof bytes.
    NotifySubmit(MessageId, u32, u64, Vec<u8>, Vec<u8>),
    NotifyDisconnected,
}

/// One peer's connection.
pub struct Connection {
    pub state: ConnState,
    pub user_agent: Vec<u8>,
    pub address: Option<Vec<u8>>,
    pub version: (u64, u64, u64),
    pub last_received: u64,
}

impl Connection {
    /// A freshly opened connection.
    pub fn init() -> (c: Connection)
        ensures
            c.state is Opened,
            c.address is None,
    {
        Connection {
            state: ConnState::Opened,
            user_agent: Vec::new(),
            address: None,
            version: (0, 0, 0),
            last_received: 0,
        }
    }

    /// Drive the state machine by one event. Every transition to `Closed`
    /// yields exactly one disconnect notice as its last action, and a closed
    /// connection does nothing at all — so after a refused subscribe nothing
    /// further is ever sent and the hub hears of the disconnect exactly once.
    #[verifier::loop_isolation(false)]
    #[verifier::rlimit(100)]
    pub fn step(
        &mut self,
        event: ConnEvent,
        checks: ExtChecks,
        pool_address: &Vec<u8>,
        min_version: (u64, u64, u64),
        max_version: (u64, u64, u64),
        now: u64,
    ) -> (actions: Vec<ConnAction>)
        ensures
            // a closed connection is inert
            old(self).state is Closed ==> *final(self) == *old(self) && actions@.len() == 0,
            // every path either keeps the connection open or closes it with
            // exactly one trailing disconnect notice
            !(old(self).state is Closed) ==> (final(self).state is Closed <==> (actions@.len()
                > 0 && actions@.last() is NotifyDisconnected)),
            !(old(self).state is Closed) && final(self).state is Closed ==> forall|i: int|
                0 <= i < actions@.len() - 1 ==> !((#[trigger] actions@[i]) is NotifyDisconnected)
                    && !(actions@[i] is Send),
            // a subscribe with an unsupported protocol version is refused:
            // the connection closes, nothing is sent
            (old(self).state is Opened && (event matches ConnEvent::Frame(m) && m@ matches
                MsgV::Subscribe(id, ua, pv, sess) && !protocol_ok(
                pv,
                min_version,
                max_version,
            ))) ==> (final(self).state is Closed && actions@.len() == 1 && actions@[0]
                is NotifyDisconnected),
            // a subscribe with a supported version is answered with the
            // session-less greeting that names the pool address
            (old(self).state is Opened && (event matches ConnEvent::Frame(m) && m@ matches
                MsgV::Subscribe(id, ua, pv, sess) && protocol_ok(pv, min_version, max_version)))
                ==> (final(self).state is Subscribed && actions@.len() == 1 && (actions@[0]
                matches ConnAction::Send(resp) && resp@ == MsgV::Response(
                (event->Frame_0)@->Subscribe_0,
                Some(
                    crate::message::ParamsV::Array(
                        seq![
                            crate::message::ElemV::Null,
                            crate::message::ElemV::Null,
                            crate::message::ElemV::Str(pool_address@),
                        ],
                    ),
                ),
                None,
            )) && final(self).user_agent@ == (event->Frame_0)@->Subscribe_1),
            // an authorize with a valid address is acknowledged and the hub
            // told; the worker name becomes the account address
            (old(self).state is Subscribed && (event matches ConnEvent::Frame(m) && m@ matches
                MsgV::Authorize(id, w, p)) && checks.address_ok) ==> (final(self).state is Active
                && actions@.len() == 2 && (actions@[0] matches ConnAction::Send(resp) && resp@
                == MsgV::Response((event->Frame_0)@->Authorize_0, Some(
                crate::message::ParamsV::Bool(true),
            ), None)) && (actions@[1] matches ConnAction::NotifyAuthenticated(a) && a@ == (
            event->Frame_0)@->Authorize_1) && final(self).last_received == now),
            // an authorize whose address does not parse closes the connection
            (old(self).state is Subscribed && (event matches ConnEvent::Frame(m) && m@ matches
                MsgV::Authorize(id, w, p)) && !checks.address_ok) ==> (final(self).state
                is Closed && actions@.len() == 1 && actions@[0] is NotifyDisconnected),
            // an active submit whose fields all validate is handed to the hub
            // with the epoch and nonce read as little-endian numbers
            (old(self).state is Active && (event matches ConnEvent::Frame(m) && m@ matches
                MsgV::Submit(id, w, j, n, cm, pr) && valid_submit(j, n, cm, pr, checks))) ==> ({
                let j = (event->Frame_0)@->Submit_2;
                let n = (event->Frame_0)@->Submit_3;
                let cm = (event->Frame_0)@->Submit_4;
                let pr = (event->Frame_0)@->Submit_5;
                &&& final(self).state is Active
                &&& final(self).last_received == now
                &&& actions@.len() == 1
                &&& (actions@[0] matches ConnAction::NotifySubmit(id, epoch, nonce, cb, pb)
                    && id@ == (event->Frame_0)@->Submit_0 && epoch == le_u32(
                    hex_decode_spec(j).unwrap(),
                ) && nonce == le_u64(hex_decode_spec(n).unwrap()) && cb@ == hex_decode_spec(
                    cm,
                ).unwrap() && pb@ == hex_decode_spec(pr).unwrap())
            }),
            // an active submit that fails any validation closes the
            // connection with no credit
            (old(self).state is Active && (event matches ConnEvent::Frame(m) && m@ matches
                MsgV::Submit(id, w, j, n, cm, pr) && !valid_submit(j, n, cm, pr, checks))) ==> (
            final(self).state is Closed && actions@.len() == 1 && actions@[0]
                is NotifyDisconnected),
            // any other inbound frame on an active connection closes it
            (old(self).state is Active && (event matches ConnEvent::Frame(m) && !(m@ matches
                MsgV::Submit(id, w, j, n, cm, pr)))) ==> final(self).state is Closed,
            // a hub message is forwarded while the peer is alive, and the
            // connection closes instead once the peer has been silent too long
            (old(self).state is Active && (event matches ConnEvent::Outbound(m)) && now - old(
                self,
            ).last_received <= PEER_COMM_TIMEOUT_MS) ==> (final(self).state is Active
                && actions@.len() == 1 && (actions@[0] matches ConnAction::Send(f) && f@ == (
            event->Outbound_0)@)),
            (old(self).state is Active && (event matches ConnEvent::Outbound(m)) && now - old(
                self,
            ).last_received > PEER_COMM_TIMEOUT_MS) ==> (final(self).state is Closed
                && actions@.len() == 1 && actions@[0] is NotifyDisconnected),
            // read failures, the peer leaving, and the hub closing the
            // channel all close the connection
            (!(old(self).state is Closed) && (event is FrameError || event is PeerClosed || event
                is OutboundClosed)) ==> (final(self).state is Closed && actions@.len() == 1
                && actions@[0] is NotifyDisconnected),
    {
        let mut actions: Vec<ConnAction> = Vec::new();
        match self.state {
            ConnState::Closed => {
                return actions;
            },
            ConnState::Opened => {
                match event {
                    ConnEvent::Frame(msg) => match msg {
                        StratumMessage::Subscribe(id, ua, pv, _sess) => {
                            if check_protocol(&pv, min_version, max_version) {
                                let mut elems: Vec<ResponseElem> = Vec::new();
                                elems.push(ResponseElem::Null);
                                elems.push(ResponseElem::Null);
                                elems.push(ResponseElem::Str(crate::util::bytes_dup(
                                    pool_address,
                                )));
                                let resp = StratumMessage::Response(
                                    id,
                                    Some(ResponseParams::Array(elems)),
                                    None,
                                );
                                proof {
                                    assert((resp@->Response_1)->0->Array_0 =~= seq![
                                        crate::message::ElemV::Null,
                                        crate::message::ElemV::Null,
                                        crate::message::ElemV::Str(pool_address@),
                                    ]);
                                }
                                actions.push(ConnAction::Send(resp));
                                self.state = ConnState::Subscribed;
                                self.user_agent = ua;
                            } else {
                                actions.push(ConnAction::NotifyDisconnected);
                                self.state = ConnState::Closed;
                            }
                        },
                        _ => {
                            actions.push(ConnAction::NotifyDisconnected);
                            self.state = ConnState::Closed;
                        },
                    },
                    _ => {
                        actions.push(ConnAction::NotifyDisconnected);
                        self.state = ConnState::Closed;
                    },
                }
            },
            ConnState::Subscribed => {
                match event {
                    ConnEvent::Frame(msg) => match msg {
                        StratumMessage::Authorize(id, worker, _pw) => {
                            if checks.address_ok {
                                let resp = StratumMessage::Response(
                                    id,
                                    Some(ResponseParams::Bool(true)),
                                    None,
                                );
                                actions.push(ConnAction::Send(resp));
                                let addr_copy = crate::util::bytes_dup(&worker);
                                actions.push(ConnAction::NotifyAuthenticated(addr_copy));
                                self.address = Some(worker);
                                self.state = ConnState::Active;
                                self.last_received = now;
                            } else {
                                actions.push(ConnAction::NotifyDisconnected);
                                self.state = ConnState::Closed;
                            }
                        },
                        _ => {
                            actions.push(ConnAction::NotifyDisconnected);
                            self.state = ConnState::Closed;
                        },
                    },
                    _ => {
                        actions.push(ConnAction::NotifyDisconnected);
                        self.state = ConnState::Closed;
                    },
                }
            },
            ConnState::Active => {
                match event {
                    ConnEvent::Frame(msg) => match msg {
                        StratumMessage::Submit(id, _worker, job, nonce, commitment, proof) => {
                            let jb = hex_decode(&job);
                            let nb = hex_decode(&nonce);
                            let cb = hex_decode(&commitment);
                            let pb = hex_decode(&proof);
                            let mut ok = true;
                            let mut epoch: u32 = 0;
                            let mut nval: u64 = 0;
                            match &jb {
                                Some(b) => {
                                    if b.len() == 4 {
                                        epoch = read_u32_le(b);
                                    } else {
                                        ok = false;
                                    }
                                },
                                None => {
                                    ok = false;
                                },
                            }
                            match &nb {
                                Some(b) => {
                                    if b.len() == 8 {
                                        nval = read_u64_le8(b);
                                    } else {
                                        ok = false;
                                    }
                                },
                                None => {
                                    ok = false;
                                },
                            }
                            let (cbv, pbv) = match (cb, pb) {
                                (Some(c), Some(p)) => {
                                    if !(checks.commitment_ok && checks.proof_ok) {
                                        ok = false;
                                    }
                                    (c, p)
                                },
                                (c, _) => {
                                    ok = false;
                                    (Vec::new(), Vec::new())
                                },
                            };
                            if ok {
                                actions.push(
                                    ConnAction::NotifySubmit(id, epoch, nval, cbv, pbv),
                                );
                                self.last_received = now;
                            } else {
                                actions.push(ConnAction::NotifyDisconnected);
                                self.state = ConnState::Closed;
                            }
                        },
                        _ => {
                            actions.push(ConnAction::NotifyDisconnected);
                            self.state = ConnState::Closed;
                        },
                    },
                    ConnEvent::Outbound(msg) => {
                        if now >= self.last_received && now - self.last_received
                            > PEER_COMM_TIMEOUT_MS {
                            actions.push(ConnAction::NotifyDisconnected);
                            self.state = ConnState::Closed;
                        } else {
                            actions.push(ConnAction::Send(msg));
                        }
                    },
                    _ => {
                        actions.push(ConnAction::NotifyDisconnected);
                        self.state = ConnState::Closed;
                    },
                }
            },
        }
        actions
    }
}

/// Whether a submit frame's binary fields all validate: the job id is four
/// hex-coded bytes, the nonce eight, and the commitment and proof hex-decode
/// and satisfy the puzzle library.
pub open spec fn valid_submit(
    j: Seq<u8>,
    n: Seq<u8>,
    cm: Seq<u8>,
    pr: Seq<u8>,
    checks: ExtChecks,
) -> bool {
    &&& (hex_decode_spec(j) matches Some(b) && b.len() == 4)
    &&& (hex_decode_spec(n) matches Some(b) && b.len() == 8)
    &&& hex_decode_spec(cm) is Some
    &&& hex_decode_spec(pr) is Some
    &&& checks.commitment_ok
    &&& checks.proof_ok
}

} // verus!