//! What to do with the frames that neighbours send.

use crate::gossip::{coord_taken, filter_taken, CoordCheck};
use crate::lookup::{negative_taken, Distances};
use crate::onion::{parse_onion, OnionPacket};
use crate::onionkeys::key_announce_taken;
use crate::packet::{
    parse_announce, parse_coord_announce, parse_cuckoo_msg, parse_hole_punch,
    parse_onion_key_announce, parse_path_broken, parse_path_lookup, parse_path_negative,
    parse_path_notify, parse_reputation_report, parse_sig_req, parse_sig_res, parse_traffic,
    path_encodable, routing_tag, tag_of, Announce, CoordAnnounce, CuckooMsg, HolePunch,
    OnionKeyAnnounce, PathBroken, PathLookup, PathNegative, PathNotify, ReputationReport, SigReq,
    SigRes, Traffic, ANNOUNCE, CUCKOO_FILTER, KEEP_ALIVE, PATH_BROKEN, PATH_LOOKUP, PATH_NOTIFY,
    SIG_REQ, SIG_RES, TRAFFIC, TYPE_COORD_ANNOUNCE, TYPE_HOLE_PUNCH, TYPE_ONION,
    TYPE_ONION_KEY_ANNOUNCE, TYPE_PATH_NEGATIVE, TYPE_REPUTATION_REPORT,
};
use crate::paths::{broken_taken, lookup_taken, notify_taken, punch_taken};
use crate::pings::{answer_taken, ping_answered};
use crate::reputation::report_taken;
use crate::router::{routing_tag_eq, PeerId, MAX_INFLIGHT_FORWARDS};
use crate::state::{touched, RouterState};
use crate::traffic::{onion_handled, onion_sent_on, traffic_handled, Delivery};
use crate::tree::announce_taken;
use vstd::prelude::*;

verus! {

broadcast use vstd::array::group_array_axioms;

/// What a frame says. Frames that say nothing, that are of a type unknown here,
/// or that cannot be read are ignored.
#[derive(Debug)]
pub enum Inbound {
    Ignored,
    KeepAlive,
    SigReq(SigReq),
    SigRes(SigRes),
    Announce(Announce),
    Cuckoo(CuckooMsg),
    PathLookup(PathLookup),
    PathNotify(PathNotify),
    PathBroken(PathBroken),
    Traffic(Traffic),
    Coord(CoordAnnounce),
    OnionKey(OnionKeyAnnounce),
    Reputation(ReputationReport),
    HolePunch(HolePunch),
    PathNegative(PathNegative),
    Onion(OnionPacket),
}

/// What a frame has for the node itself, or the layers above it.
#[derive(Debug)]
pub enum Arrival {
    Nothing,
    /// A packet holds something for this node.
    Packet(Delivery),
    /// The node that was looked for has been found.
    Found(PeerId),
    /// A node asks for a direct connection to an address.
    Punch(PeerId, Vec<u8>),
}

/// What else a frame is judged by.
pub struct Context {
    /// Of a monotonic clock, in microseconds.
    pub now: u64,
    /// Since the Unix epoch, in milliseconds.
    pub now_ms: u64,
    /// The distances to the node that the frame is for; see
    /// [`Inbound::towards`].
    pub distances: Option<Distances>,
    /// How an announced coordinate compares to what follows from its depth.
    pub coord: CoordCheck,
}

/// `msg` is what the frame says.
pub open spec fn says(frame: Seq<u8>, msg: Inbound) -> bool {
    let data = frame.skip(1);
    if frame.len() == 0 {
        msg is Ignored
    } else if frame[0] == KEEP_ALIVE {
        msg is KeepAlive
    } else if frame[0] == SIG_REQ {
        match parse_sig_req(data) {
            Ok(v) => msg matches Inbound::SigReq(m) && m@ == v,
            Err(_) => msg is Ignored,
        }
    } else if frame[0] == SIG_RES {
        match parse_sig_res(data) {
            Ok(v) => msg matches Inbound::SigRes(m) && m@ == v,
            Err(_) => msg is Ignored,
        }
    } else if frame[0] == ANNOUNCE {
        match parse_announce(data) {
            Ok(v) => msg matches Inbound::Announce(m) && m@ == v,
            Err(_) => msg is Ignored,
        }
    } else if frame[0] == CUCKOO_FILTER {
        match parse_cuckoo_msg(data) {
            Ok(v) => msg matches Inbound::Cuckoo(m) && m@ == v,
            Err(_) => msg is Ignored,
        }
    } else if frame[0] == PATH_LOOKUP {
        match parse_path_lookup(data) {
            Ok(v) => msg matches Inbound::PathLookup(m) && m@ == v,
            Err(_) => msg is Ignored,
        }
    } else if frame[0] == PATH_NOTIFY {
        match parse_path_notify(data) {
            Ok(v) => msg matches Inbound::PathNotify(m) && m@ == v,
            Err(_) => msg is Ignored,
        }
    } else if frame[0] == PATH_BROKEN {
        match parse_path_broken(data) {
            Ok(v) => msg matches Inbound::PathBroken(m) && m@ == v,
            Err(_) => msg is Ignored,
        }
    } else if frame[0] == TRAFFIC {
        match parse_traffic(data) {
            Ok(v) => msg matches Inbound::Traffic(m) && m@ == v,
            Err(_) => msg is Ignored,
        }
    } else if frame[0] == TYPE_COORD_ANNOUNCE {
        match parse_coord_announce(data) {
            Ok(v) => msg matches Inbound::Coord(m) && m@ == v,
            Err(_) => msg is Ignored,
        }
    } else if frame[0] == TYPE_ONION_KEY_ANNOUNCE {
        match parse_onion_key_announce(data) {
            Ok(v) => msg matches Inbound::OnionKey(m) && m@ == v,
            Err(_) => msg is Ignored,
        }
    } else if frame[0] == TYPE_REPUTATION_REPORT {
        match parse_reputation_report(data) {
            Ok(v) => msg matches Inbound::Reputation(m) && m@ == v,
            Err(_) => msg is Ignored,
        }
    } else if frame[0] == TYPE_HOLE_PUNCH {
        match parse_hole_punch(data) {
            Ok(v) => msg matches Inbound::HolePunch(m) && m@ == v,
            Err(_) => msg is Ignored,
        }
    } else if frame[0] == TYPE_PATH_NEGATIVE {
        match parse_path_negative(data) {
            Ok(v) => msg matches Inbound::PathNegative(m) && m@ == v,
            Err(_) => msg is Ignored,
        }
    } else if frame[0] == TYPE_ONION {
        match parse_onion(data) {
            Ok(v) => msg matches Inbound::Onion(m) && m@ == v,
            Err(_) => msg is Ignored,
        }
    } else {
        msg is Ignored
    }
}

impl Inbound {
    /// The paths in the message have a wire form, as those of every message
    /// that was read have.
    pub open spec fn wf(&self) -> bool {
        match self {
            Inbound::PathLookup(m) => path_encodable(m.path@),
            Inbound::PathNotify(m) => path_encodable(m.path@),
            Inbound::Traffic(m) => path_encodable(m.path@),
            _ => true,
        }
    }

    /// What a frame says.
    pub fn read(frame: &[u8]) -> (msg: Inbound)
        ensures
            says(frame@, msg),
            msg.wf(),
    {
        if frame.len() == 0 {
            return Inbound::Ignored;
        }
        let kind: u8 = frame[0];
        let data: &[u8] = &frame[1..frame.len()];
        assert(data@ =~= frame@.skip(1));
        if kind == KEEP_ALIVE {
            return Inbound::KeepAlive;
        }
        if kind == SIG_REQ {
            return match SigReq::decode(data) {
                Ok(m) => Inbound::SigReq(m),
                Err(_) => Inbound::Ignored,
            };
        }
        if kind == SIG_RES {
            return match SigRes::decode(data) {
                Ok(m) => Inbound::SigRes(m),
                Err(_) => Inbound::Ignored,
            };
        }
        if kind == ANNOUNCE {
            return match Announce::decode(data) {
                Ok(m) => Inbound::Announce(m),
                Err(_) => Inbound::Ignored,
            };
        }
        if kind == CUCKOO_FILTER {
            return match CuckooMsg::decode(data) {
                Ok(m) => Inbound::Cuckoo(m),
                Err(_) => Inbound::Ignored,
            };
        }
        if kind == PATH_LOOKUP {
            return match PathLookup::decode(data) {
                Ok(m) => Inbound::PathLookup(m),
                Err(_) => Inbound::Ignored,
            };
        }
        if kind == PATH_NOTIFY {
            return match PathNotify::decode(data) {
                Ok(m) => Inbound::PathNotify(m),
                Err(_) => Inbound::Ignored,
            };
        }
        if kind == PATH_BROKEN {
            return match PathBroken::decode(data) {
                Ok(m) => Inbound::PathBroken(m),
                Err(_) => Inbound::Ignored,
            };
        }
        if kind == TRAFFIC {
            return match Traffic::decode(data) {
                Ok(m) => Inbound::Traffic(m),
                Err(_) => Inbound::Ignored,
            };
        }
        if kind == TYPE_COORD_ANNOUNCE {
            return match CoordAnnounce::decode(data) {
                Ok(m) => Inbound::Coord(m),
                Err(_) => Inbound::Ignored,
            };
        }
        if kind == TYPE_ONION_KEY_ANNOUNCE {
            return match OnionKeyAnnounce::decode(data) {
                Ok(m) => Inbound::OnionKey(m),
                Err(_) => Inbound::Ignored,
            };
        }
        if kind == TYPE_REPUTATION_REPORT {
            return match ReputationReport::decode(data) {
                Ok(m) => Inbound::Reputation(m),
                Err(_) => Inbound::Ignored,
            };
        }
        if kind == TYPE_HOLE_PUNCH {
            return match HolePunch::decode(data) {
                Ok(m) => Inbound::HolePunch(m),
                Err(_) => Inbound::Ignored,
            };
        }
        if kind == TYPE_PATH_NEGATIVE {
            return match PathNegative::decode(data) {
                Ok(m) => Inbound::PathNegative(m),
                Err(_) => Inbound::Ignored,
            };
        }
        if kind == TYPE_ONION {
            return match OnionPacket::decode(data) {
                Ok(m) => Inbound::Onion(m),
                Err(_) => Inbound::Ignored,
            };
        }
        Inbound::Ignored
    }

    /// The node that the message is sent on to by its key, if it is sent on
    /// that way.
    pub fn towards(&self) -> (r: Option<PeerId>)
        ensures
            r == match *self {
                Inbound::PathNotify(m) => Some(m.source),
                Inbound::PathBroken(m) => Some(m.source),
                Inbound::HolePunch(m) => Some(m.target),
                _ => None,
            },
    {
        match self {
            Inbound::PathNotify(m) => Some(m.source),
            Inbound::PathBroken(m) => Some(m.source),
            Inbound::HolePunch(m) => Some(m.target),
            _ => None,
        }
    }
}

/// A packet is for the node with the key `own`.
pub open spec fn for_node(own: PeerId, msg: Inbound) -> bool {
    match msg {
        Inbound::Traffic(t) => t.routing_tag@ == tag_of(own@),
        Inbound::Onion(p) => p.routing_tag@ == tag_of(own@),
        _ => true,
    }
}

/// What a message makes of `before`, and what it has for the node.
pub open spec fn dispatched(
    before: RouterState,
    from: PeerId,
    msg: Inbound,
    ctx: Context,
    after: RouterState,
    r: Arrival,
) -> bool {
    match msg {
        Inbound::Ignored => after == before && r is Nothing,
        Inbound::KeepAlive => {
            &&& after == (RouterState { peers: after.peers, ..before })
            &&& after.peers@ == touched(before.peers@, from, ctx.now)
            &&& r is Nothing
        },
        Inbound::SigReq(m) => ping_answered(before, from, m, ctx.now, ctx.now_ms, after)
            && r is Nothing,
        Inbound::SigRes(m) => answer_taken(before, from, m, ctx.now, after) && r is Nothing,
        Inbound::Announce(m) => announce_taken(before, from, m, ctx.now, after) && r is Nothing,
        Inbound::Cuckoo(m) => filter_taken(before, from, m, ctx.now, after) && r is Nothing,
        Inbound::PathLookup(m) => lookup_taken(before, from, m, ctx.now, after) && r is Nothing,
        Inbound::PathNotify(m) => exists|found: Option<PeerId>| #[trigger]
            notify_taken(before, from, m, ctx.distances, ctx.now, found, after) && match found {
                Some(k) => r == Arrival::Found(k),
                None => r is Nothing,
            },
        Inbound::PathBroken(m) => broken_taken(before, from, m, ctx.distances, ctx.now, after)
            && r is Nothing,
        Inbound::Traffic(m) => r matches Arrival::Packet(p) && traffic_handled(
            before,
            from,
            m.routing_tag,
            m@,
            ctx.now,
            after,
            p@,
        ),
        Inbound::Coord(m) => coord_taken(before, from, m, ctx.coord, after) && r is Nothing,
        Inbound::OnionKey(m) => key_announce_taken(before, from, m, ctx.now, ctx.now_ms, after)
            && r is Nothing,
        Inbound::Reputation(m) => report_taken(before, from, m, ctx.now, ctx.now_ms, after)
            && r is Nothing,
        Inbound::HolePunch(m) => exists|p: Option<(PeerId, Vec<u8>)>| #[trigger]
            punch_taken(before, m, ctx.distances, ctx.now_ms, p, after) && match p {
                Some(q) => r == Arrival::Punch(q.0, q.1),
                None => r is Nothing,
            },
        Inbound::PathNegative(m) => negative_taken(before, from, m, ctx.now, after)
            && r is Nothing,
        Inbound::Onion(m) => if m.routing_tag@ == tag_of(before.pub_key@) {
            r matches Arrival::Packet(p) && onion_handled(
                before,
                from,
                m@,
                ctx.now,
                after,
                p@,
            )
        } else {
            onion_sent_on(before, from, m.routing_tag, m@, ctx.now, after) && r is Nothing
        },
    }
}

/// Whether a message is taken at all, while `in_flight` packets for other nodes
/// are held back. Where there are too many, one more is dropped.
pub fn admit_forward(in_flight: usize, for_us: bool) -> (r: bool)
    ensures
        r == (for_us || in_flight < MAX_INFLIGHT_FORWARDS),
        r == (for_us || in_flight < 4096),
{
    for_us || in_flight < MAX_INFLIGHT_FORWARDS
}

/// How long a packet for another node is held back, in milliseconds, from a
/// number drawn at random.
pub fn forward_pause_ms(drawn: u64) -> (ms: u64)
    ensures
        ms == drawn % 50,
        ms < 50,
{
    drawn % 50
}

impl RouterState {
    /// Whether the message is handled at once. A packet for another node is
    /// held back for a moment, so that its way is harder to follow.
    pub fn is_for_us(&self, msg: &Inbound) -> (r: bool)
        ensures
            r == for_node(self.pub_key, *msg),
    {
        match msg {
            Inbound::Traffic(t) => {
                let tag: [u8; 16] = routing_tag(&self.pub_key);
                routing_tag_eq(&t.routing_tag, &tag)
            },
            Inbound::Onion(p) => {
                let tag: [u8; 16] = routing_tag(&self.pub_key);
                routing_tag_eq(&p.routing_tag, &tag)
            },
            _ => true,
        }
    }

    /// Handle a message of the neighbour `from`.
    pub fn dispatch(&mut self, from: PeerId, msg: Inbound, ctx: &Context) -> (r: Arrival)
        requires
            old(self).wf(),
            msg.wf(),
        ensures
            final(self).wf(),
            dispatched(*old(self), from, msg, *ctx, *final(self), r),
    {
        let here: bool = self.is_for_us(&msg);
        match msg {
            Inbound::Ignored => Arrival::Nothing,
            Inbound::KeepAlive => {
                self.touch(&from, ctx.now);
                Arrival::Nothing
            },
            Inbound::SigReq(m) => {
                self.handle_sig_req(from, m, ctx.now, ctx.now_ms);
                Arrival::Nothing
            },
            Inbound::SigRes(m) => {
                self.handle_sig_res(from, m, ctx.now);
                Arrival::Nothing
            },
            Inbound::Announce(m) => {
                self.handle_announce(from, m, ctx.now);
                Arrival::Nothing
            },
            Inbound::Cuckoo(m) => {
                self.handle_cuckoo(from, m, ctx.now);
                Arrival::Nothing
            },
            Inbound::PathLookup(m) => {
                self.handle_path_lookup(from, m, ctx.now);
                Arrival::Nothing
            },
            Inbound::PathNotify(m) => {
                let ghost msg = m;
                let found: Option<PeerId> = self.handle_path_notify(
                    from,
                    m,
                    &ctx.distances,
                    ctx.now,
                );
                assert(notify_taken(
                    *old(self),
                    from,
                    msg,
                    ctx.distances,
                    ctx.now,
                    found,
                    *self,
                ));
                match found {
                    Some(k) => Arrival::Found(k),
                    None => Arrival::Nothing,
                }
            },
            Inbound::PathBroken(m) => {
                self.handle_path_broken(from, m, &ctx.distances, ctx.now);
                Arrival::Nothing
            },
            Inbound::Traffic(m) => {
                let p: Delivery = self.handle_traffic(from, m, ctx.now);
                Arrival::Packet(p)
            },
            Inbound::Coord(m) => {
                self.handle_coord_announce(from, m, ctx.coord);
                Arrival::Nothing
            },
            Inbound::OnionKey(m) => {
                self.handle_onion_key_announce(from, m, ctx.now, ctx.now_ms);
                Arrival::Nothing
            },
            Inbound::Reputation(m) => {
                self.handle_reputation_report(from, m, ctx.now, ctx.now_ms);
                Arrival::Nothing
            },
            Inbound::HolePunch(m) => {
                let ghost msg = m;
                let p: Option<(PeerId, Vec<u8>)> = self.handle_hole_punch(
                    m,
                    &ctx.distances,
                    ctx.now_ms,
                );
                assert(punch_taken(*old(self), msg, ctx.distances, ctx.now_ms, p, *self));
                match p {
                    Some(q) => Arrival::Punch(q.0, q.1),
                    None => Arrival::Nothing,
                }
            },
            Inbound::PathNegative(m) => {
                self.handle_path_negative(from, m, ctx.now);
                Arrival::Nothing
            },
            Inbound::Onion(m) => {
                if here {
                    let p: Delivery = self.handle_onion(from, m, ctx.now);
                    Arrival::Packet(p)
                } else {
                    self.forward_onion(from, m, ctx.now);
                    Arrival::Nothing
                }
            },
        }
    }
}

/// What one node writes another reads: a frame that carries a packet says that packet, and
/// is handled as such. Here for the packets by which neighbours know each other and their
/// trees.
pub proof fn frames_of_neighbours_are_read(
    frame: Seq<u8>,
    msg: Inbound,
    a: crate::packet::AnnounceView,
    c: crate::packet::CuckooMsgView,
    q: crate::packet::SigReqView,
    r: crate::packet::SigResView,
    o: crate::packet::CoordAnnounceView,
)
    requires
        says(frame, msg),
    ensures
        a.wf() && frame == seq![ANNOUNCE] + a.wire() ==> (msg matches Inbound::Announce(m) && m@
            == a),
        c.wf() && frame == seq![CUCKOO_FILTER] + c.wire() ==> (msg matches Inbound::Cuckoo(m) && m@
            == c),
        q.wf() && frame == seq![SIG_REQ] + q.wire() ==> (msg matches Inbound::SigReq(m) && m@ == q),
        r.wf() && frame == seq![SIG_RES] + r.wire() ==> (msg matches Inbound::SigRes(m) && m@ == r),
        o.wf() && frame == seq![TYPE_COORD_ANNOUNCE] + o.wire() ==> (msg matches Inbound::Coord(m)
            && m@ == o),
        frame == seq![KEEP_ALIVE] ==> msg is KeepAlive,
        frame.len() > 0 && frame[0] == crate::packet::DUMMY ==> msg is Ignored,
{
    let none = Seq::<u8>::empty();
    let data = frame.skip(1);
    if a.wf() && frame == seq![ANNOUNCE] + a.wire() {
        crate::packet::announce_round_trip(a, none);
        assert(data =~= a.wire() + none);
    }
    if c.wf() && frame == seq![CUCKOO_FILTER] + c.wire() {
        crate::packet::cuckoo_msg_round_trip(c, none);
        assert(data =~= c.wire() + none);
    }
    if q.wf() && frame == seq![SIG_REQ] + q.wire() {
        crate::packet::sig_req_round_trip(q, none);
        assert(data =~= q.wire() + none);
    }
    if r.wf() && frame == seq![SIG_RES] + r.wire() {
        crate::packet::sig_res_round_trip(r, none);
        assert(data =~= r.wire() + none);
    }
    if o.wf() && frame == seq![TYPE_COORD_ANNOUNCE] + o.wire() {
        crate::packet::coord_announce_round_trip(o, none);
        assert(data =~= o.wire() + none);
    }
}

/// What one node writes another reads. Here for the packets that travel further.
pub proof fn frames_of_others_are_read(
    frame: Seq<u8>,
    msg: Inbound,
    l: crate::packet::PathLookupView,
    n: crate::packet::PathNotifyView,
    b: crate::packet::PathBrokenView,
    t: crate::packet::TrafficView,
    k: crate::packet::OnionKeyAnnounceView,
)
    requires
        says(frame, msg),
    ensures
        l.wf() && frame == seq![PATH_LOOKUP] + l.wire() ==> (msg matches Inbound::PathLookup(m) && m@
            == l),
        n.wf() && frame == seq![PATH_NOTIFY] + n.wire() ==> (msg matches Inbound::PathNotify(m) && m@
            == n),
        b.wf() && frame == seq![PATH_BROKEN] + b.wire() ==> (msg matches Inbound::PathBroken(m) && m@
            == b),
        t.wf() && frame == seq![TRAFFIC] + t.wire() ==> (msg matches Inbound::Traffic(m) && m@
            == t),
        k.wf() && frame == seq![TYPE_ONION_KEY_ANNOUNCE] + k.wire() ==> (
        msg matches Inbound::OnionKey(m) && m@ == k),
{
    let none = Seq::<u8>::empty();
    let data = frame.skip(1);
    if l.wf() && frame == seq![PATH_LOOKUP] + l.wire() {
        crate::packet::path_lookup_round_trip(l, none);
        assert(data =~= l.wire() + none);
    }
    if n.wf() && frame == seq![PATH_NOTIFY] + n.wire() {
        crate::packet::path_notify_round_trip(n, none);
        assert(data =~= n.wire() + none);
    }
    if b.wf() && frame == seq![PATH_BROKEN] + b.wire() {
        crate::packet::path_broken_round_trip(b, none);
        assert(data =~= b.wire() + none);
    }
    if t.wf() && frame == seq![TRAFFIC] + t.wire() {
        crate::packet::traffic_round_trip(t, none);
        assert(data =~= t.wire() + none);
    }
    if k.wf() && frame == seq![TYPE_ONION_KEY_ANNOUNCE] + k.wire() {
        crate::packet::onion_key_announce_round_trip(k, none);
        assert(data =~= k.wire() + none);
    }
}

/// What one node writes another reads. Here for reports, requests, notices and onions.
pub proof fn frames_with_notices_are_read(
    frame: Seq<u8>,
    msg: Inbound,
    r: crate::packet::ReputationReportView,
    h: crate::packet::HolePunchView,
    n: crate::packet::PathNegativeView,
    p: crate::onion::OnionView,
)
    requires
        says(frame, msg),
    ensures
        r.wf() && frame == seq![TYPE_REPUTATION_REPORT] + r.wire() ==> (
        msg matches Inbound::Reputation(m) && m@ == r),
        h.wf() && frame == seq![TYPE_HOLE_PUNCH] + h.wire() ==> (msg matches Inbound::HolePunch(m)
            && m@ == h),
        n.wf() && frame == seq![TYPE_PATH_NEGATIVE] + n.wire() ==> (
        msg matches Inbound::PathNegative(m) && m@ == n),
        p.wf() && p.aead_payload.len() <= crate::onion::ONION_CELL_SIZE && frame == p.cell() ==> (
        msg matches Inbound::Onion(m) && m@ == p),
{
    let none = Seq::<u8>::empty();
    let data = frame.skip(1);
    if r.wf() && frame == seq![TYPE_REPUTATION_REPORT] + r.wire() {
        crate::packet::reputation_report_round_trip(r, none);
        assert(data =~= r.wire() + none);
    }
    if h.wf() && frame == seq![TYPE_HOLE_PUNCH] + h.wire() {
        crate::packet::hole_punch_round_trip(h, none);
        assert(data =~= h.wire() + none);
    }
    if n.wf() && frame == seq![TYPE_PATH_NEGATIVE] + n.wire() {
        crate::packet::path_negative_round_trip(n, none);
        assert(data =~= n.wire() + none);
    }
    if p.wf() && p.aead_payload.len() <= crate::onion::ONION_CELL_SIZE && frame == p.cell() {
        crate::onion::onion_round_trip(p, none);
    }
}

/// Each kind of message leads to what it is for, whatever the node's state: none is
/// dropped, and none is taken for another.
pub proof fn every_message_is_acted_on(
    before: RouterState,
    from: PeerId,
    msg: Inbound,
    ctx: Context,
    after: RouterState,
    r: Arrival,
)
    requires
        dispatched(before, from, msg, ctx, after, r),
    ensures
        msg is Ignored ==> after == before && r is Nothing,
        msg is KeepAlive ==> after.peers@ == touched(before.peers@, from, ctx.now) && after.outbox
            == before.outbox,
        msg matches Inbound::SigReq(m) ==> ping_answered(
            before,
            from,
            m,
            ctx.now,
            ctx.now_ms,
            after,
        ),
        msg matches Inbound::SigRes(m) ==> answer_taken(before, from, m, ctx.now, after),
        msg matches Inbound::Announce(m) ==> announce_taken(before, from, m, ctx.now, after),
        msg matches Inbound::Cuckoo(m) ==> filter_taken(before, from, m, ctx.now, after),
        msg matches Inbound::PathLookup(m) ==> lookup_taken(before, from, m, ctx.now, after),
        msg matches Inbound::PathNotify(m) ==> (m.source == before.pub_key ==> r == Arrival::Found(
            m.target,
        )) && exists|found: Option<PeerId>|
            notify_taken(before, from, m, ctx.distances, ctx.now, found, after),
        msg matches Inbound::PathBroken(m) ==> broken_taken(
            before,
            from,
            m,
            ctx.distances,
            ctx.now,
            after,
        ),
        msg matches Inbound::Traffic(m) ==> (r matches Arrival::Packet(p) && traffic_handled(
            before,
            from,
            m.routing_tag,
            m@,
            ctx.now,
            after,
            p@,
        )),
        msg matches Inbound::Coord(m) ==> coord_taken(before, from, m, ctx.coord, after),
        msg matches Inbound::OnionKey(m) ==> key_announce_taken(
            before,
            from,
            m,
            ctx.now,
            ctx.now_ms,
            after,
        ),
        msg matches Inbound::Reputation(m) ==> report_taken(
            before,
            from,
            m,
            ctx.now,
            ctx.now_ms,
            after,
        ),
        msg matches Inbound::HolePunch(m) ==> exists|p: Option<(PeerId, Vec<u8>)>| #[trigger]
            punch_taken(before, m, ctx.distances, ctx.now_ms, p, after) && (p is Some
                ==> r is Punch),
        msg matches Inbound::PathNegative(m) ==> negative_taken(before, from, m, ctx.now, after),
        msg matches Inbound::Onion(m) ==> if m.routing_tag@ == tag_of(before.pub_key@) {
            r matches Arrival::Packet(p) && onion_handled(before, from, m@, ctx.now, after, p@)
        } else {
            onion_sent_on(before, from, m.routing_tag, m@, ctx.now, after)
        },
{
    if let Inbound::PathNotify(m) = msg {
        let found = choose|found: Option<PeerId>| #[trigger]
            notify_taken(before, from, m, ctx.distances, ctx.now, found, after) && match found {
                Some(k) => r == Arrival::Found(k),
                None => r is Nothing,
            };
        assert(notify_taken(before, from, m, ctx.distances, ctx.now, found, after));
    }
}

/// Only packets on their way to another node are held back: all other messages, and packets
/// with the tag of this node, are for this node.
pub proof fn only_packets_for_others_are_held_back(own: PeerId, msg: Inbound)
    ensures
        !for_node(own, msg) ==> (msg is Traffic || msg is Onion),
        msg matches Inbound::Traffic(t) ==> (for_node(own, msg) <==> t.routing_tag@ == tag_of(
            own@,
        )),
        msg matches Inbound::Onion(p) ==> (for_node(own, msg) <==> p.routing_tag@ == tag_of(own@)),
{
}

} // verus!
