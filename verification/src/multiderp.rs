//! The relays: which regions are connected, and when.
//!
//! Every region of the relay map has a runner. The home region's connection is kept alive, so that
//! peers can always reach this node through it; the others connect when there is something to send
//! and close after a time without traffic. Frames of the path-discovery protocol that come through
//! a relay go to the direct socket, where there is one; everything else goes to the dataplane.
//!
//! Instants are nanoseconds of a monotonic clock.

use std::collections::HashMap;

use vstd::prelude::*;

use crate::addr::{IpAddr, Ipv4Addr, SocketAddr};
use crate::node::{NodeKey, PeerId};
use crate::peer_db::{DbView, KeyView, PeerDb, PeerKey};
use crate::search::{first_where_is, first_where_is_first};

verus! {

broadcast use vstd::std_specs::hash::group_hash_axioms;

/// The number of a region.
pub type RegionId = u32;

/// The number of an underlay transport of the dataplane.
pub type TransportId = u64;

/// How many nanoseconds a connection outlives its last traffic, away from home.
pub const INACTIVITY_TIMEOUT: u64 = 10_000_000_000;

/// How many milliseconds pass before a connection that failed is tried again.
pub const RETRY_DELAY_MS: u64 = 500;

/// How many frames of the path-discovery protocol wait for a region's connection; further ones are
/// dropped.
pub const DISCO_QUEUE: usize = 8;

/// How a server's IPv4 address is found.
#[derive(Clone, Copy, Debug, PartialEq, Eq, Structural)]
pub enum IpUsage {
    /// It is this one.
    FixedAddr(Ipv4Addr),
    /// By resolving the server's name.
    UseDns,
    /// It is not to be used.
    Disable,
}

/// A relay server.
#[derive(Clone, Copy, Debug, PartialEq, Eq, Structural)]
pub struct DerpServer {
    pub ipv4: IpUsage,
    pub stun_port: Option<u16>,
}

/// A region of the relay map.
#[derive(Debug)]
pub struct DerpRegion {
    pub servers: Vec<DerpServer>,
}

/// The address that `server` is probed at, if it is.
pub open spec fn stun_addr(server: DerpServer) -> Option<SocketAddr> {
    match (server.ipv4, server.stun_port) {
        (IpUsage::FixedAddr(ip), Some(port)) => Some(SocketAddr { ip: IpAddr::V4(ip), port }),
        _ => None,
    }
}

/// The addresses that `servers` are probed at.
pub open spec fn stun_addrs(servers: Seq<DerpServer>) -> Seq<SocketAddr>
    decreases servers.len(),
{
    if servers.len() == 0 {
        Seq::empty()
    } else {
        let before = stun_addrs(servers.drop_last());
        match stun_addr(servers.last()) {
            Some(addr) => before.push(addr),
            None => before,
        }
    }
}

/// The addresses that the servers of `regions` are probed at.
pub open spec fn region_addrs(regions: Seq<DerpRegion>) -> Seq<SocketAddr>
    decreases regions.len(),
{
    if regions.len() == 0 {
        Seq::empty()
    } else {
        region_addrs(regions.drop_last()) + stun_addrs(regions.last().servers@)
    }
}

fn push_stun_addrs(out: &mut Vec<SocketAddr>, region: &DerpRegion)
    ensures
        final(out)@ == old(out)@ + stun_addrs(region.servers@),
{
    let ghost before = out@;
    let ghost servers = region.servers@;
    let mut i: usize = 0;
    assert(servers.take(0) =~= Seq::<DerpServer>::empty());
    assert(out@ =~= before + stun_addrs(servers.take(0)));
    while i < region.servers.len()
        invariant
            i <= region.servers@.len(),
            servers == region.servers@,
            out@ == before + stun_addrs(servers.take(i as int)),
        decreases region.servers@.len() - i,
    {
        assert(servers.take(i + 1).drop_last() =~= servers.take(i as int));
        let server = region.servers[i];
        match server.stun_port {
            Some(port) => match server.ipv4 {
                IpUsage::FixedAddr(ip) => {
                    out.push(SocketAddr { ip: IpAddr::V4(ip), port });
                },
                _ => {},
            },
            None => {},
        }
        assert(out@ =~= before + stun_addrs(servers.take(i + 1)));
        i = i + 1;
    }
    assert(servers.take(servers.len() as int) =~= servers);
}

/// Lists the addresses that servers are probed at: only those with a fixed IPv4 address and a port
/// for it. To resolve a server's name would be a query that leaves this node by another way.
pub fn stun_servers_from_regions(regions: &Vec<DerpRegion>) -> (r: Vec<SocketAddr>)
    ensures
        r@ == region_addrs(regions@),
{
    let mut out: Vec<SocketAddr> = Vec::new();
    let mut i: usize = 0;
    assert(regions@.take(0) =~= Seq::<DerpRegion>::empty());
    while i < regions.len()
        invariant
            i <= regions@.len(),
            out@ == region_addrs(regions@.take(i as int)),
        decreases regions@.len() - i,
    {
        assert(regions@.take(i + 1).drop_last() =~= regions@.take(i as int));
        push_stun_addrs(&mut out, &regions[i]);
        i = i + 1;
    }
    assert(regions@.take(regions@.len() as int) =~= regions@);
    out
}

/// The addresses that servers are probed at are exactly those with a fixed IPv4 address and a port.
pub proof fn only_fixed_ipv4_servers_are_probed(servers: Seq<DerpServer>, addr: SocketAddr)
    ensures
        stun_addrs(servers).contains(addr) <==> exists|i: int|
            0 <= i < servers.len() && stun_addr(#[trigger] servers[i]) == Some(addr),
    decreases servers.len(),
{
    if servers.len() > 0 {
        let short = servers.drop_last();
        let before = stun_addrs(short);
        let all = stun_addrs(servers);
        only_fixed_ipv4_servers_are_probed(short, addr);
        if all.contains(addr) {
            let k = choose|k: int| 0 <= k < all.len() && all[k] == addr;
            if k < before.len() {
                assert(before[k] == addr);
                let i = choose|i: int|
                    0 <= i < short.len() && stun_addr(#[trigger] short[i]) == Some(addr);
                assert(stun_addr(servers[i]) == Some(addr));
            } else {
                assert(stun_addr(servers[servers.len() - 1]) == Some(addr));
            }
        }
        if exists|i: int| 0 <= i < servers.len() && stun_addr(#[trigger] servers[i]) == Some(addr) {
            let i = choose|i: int|
                0 <= i < servers.len() && stun_addr(#[trigger] servers[i]) == Some(addr);
            if i < short.len() {
                assert(stun_addr(short[i]) == Some(addr));
                let k = choose|k: int| 0 <= k < before.len() && before[k] == addr;
                assert(all[k] == addr);
            } else {
                assert(all[before.len() as int] == addr);
            }
        }
    }
}

/// A region that has a runner.
#[derive(Clone, Copy, Debug, PartialEq, Eq, Structural)]
pub struct RegionEntry {
    /// The dataplane's transport for the region.
    pub transport_id: TransportId,
    /// Whether the runner is told that this is the home region.
    pub home: bool,
}

/// The addresses that the servers of `regions` are probed at, region by region in the order `ids`.
pub open spec fn addrs_in_order(
    regions: Map<RegionId, DerpRegion>,
    ids: Seq<RegionId>,
) -> Seq<SocketAddr>
    decreases ids.len(),
{
    if ids.len() == 0 {
        Seq::empty()
    } else {
        addrs_in_order(regions, ids.drop_last()) + stun_addrs(regions[ids.last()].servers@)
    }
}

/// The runners once every one of them is told whether its region is `home`.
pub open spec fn told_of_home(
    derps: Map<RegionId, RegionEntry>,
    home: Option<RegionId>,
) -> Map<RegionId, RegionEntry> {
    Map::new(
        |id: RegionId| derps.contains_key(id),
        |id: RegionId| RegionEntry { home: home == Some(id), ..derps[id] },
    )
}

/// What the dataplane says when it is asked for a transport.
#[derive(Clone, Copy, Debug, PartialEq, Eq, Structural)]
pub enum DataplaneReply {
    /// This one.
    Transport(TransportId),
    /// It has stopped.
    Stopped,
    /// Not now.
    Failed,
}

/// Where a frame of the path-discovery protocol goes.
#[derive(Clone, Copy, Debug, PartialEq, Eq, Structural)]
pub enum DiscoRoute {
    /// Nowhere: the region is not on the relay map.
    UnknownRegion,
    /// Nowhere yet: the region has no runner. Where none can be had, the frame is dropped.
    NotEstablished,
    /// To the region's runner.
    Relay,
}

/// The relays.
pub struct Multiderp {
    /// The regions that have a runner.
    pub derps: HashMap<RegionId, RegionEntry>,
    /// The regions of the relay map, old ones among them.
    pub regions: HashMap<RegionId, DerpRegion>,
    /// The home region.
    pub current_home_derp: Option<RegionId>,
}

impl Multiderp {
    /// The home region's runner is told so, and no other.
    pub open spec fn wf(&self) -> bool {
        forall|id: RegionId| #[trigger]
            self.derps@.contains_key(id) ==> (self.derps@[id].home <==> self.current_home_derp
                == Some(id))
    }

    /// No relays.
    pub fn new() -> (r: Self)
        ensures
            r.wf(),
            r.derps@ == Map::<RegionId, RegionEntry>::empty(),
            r.regions@ == Map::<RegionId, DerpRegion>::empty(),
            r.current_home_derp is None,
    {
        Multiderp { derps: HashMap::new(), regions: HashMap::new(), current_home_derp: None }
    }

    /// The transport of a region that has a runner.
    pub fn transport_id_for_region(&self, id: RegionId) -> (r: Option<TransportId>)
        ensures
            r == (if self.derps@.contains_key(id) {
                Some(self.derps@[id].transport_id)
            } else {
                None
            }),
    {
        match self.derps.get(&id) {
            Some(entry) => Some(entry.transport_id),
            None => None,
        }
    }

    /// The addresses that the servers of the relay map are probed at: those of every region once,
    /// in some order of the regions.
    pub fn stun_servers_v4(&self) -> (r: Vec<SocketAddr>)
        ensures
            exists|ids: Seq<RegionId>|
                ids.no_duplicates() && ids.to_set() == self.regions@.dom() && r@
                    == #[trigger] addrs_in_order(self.regions@, ids),
    {
        let mut out: Vec<SocketAddr> = Vec::new();
        let ghost mut seen: Seq<RegionId> = Seq::empty();
        for id in it: self.regions.keys()
            invariant
                seen == it.seq().unref().take(it.index()),
                it.seq().no_duplicates(),
                it.seq().unref().to_set() == self.regions@.dom(),
                it.index() == it.seq().len() ==> seen == it.seq().unref(),
                it.index() == it.seq().len() ==> seen.to_set() == self.regions@.dom(),
                it.index() == it.seq().len() ==> seen.no_duplicates(),
                out@ == addrs_in_order(self.regions@, seen),
        {
            assert(it.seq().unref().to_set().contains(it.seq().unref()[it.index()]));
            match self.regions.get(id) {
                Some(region) => {
                    push_stun_addrs(&mut out, region);
                },
                None => {},
            }
            let ghost before = seen;
            proof {
                seen = seen.push(*id);
            }
            assert(seen.drop_last() =~= before);
            assert(it.index() + 1 == it.seq().len() ==> seen =~= it.seq().unref());
        }
        assert(out@ == addrs_in_order(self.regions@, seen));
        out
    }

    /// Takes a region of the relay map, and says whether a transport is needed for it: whether the
    /// dataplane is to be asked, and the answer given to [`Multiderp::ensure_region`].
    pub fn learn_region(&mut self, id: RegionId, region: DerpRegion) -> (r: bool)
        ensures
            final(self).regions@ == old(self).regions@.insert(id, region),
            final(self).derps@ == old(self).derps@,
            final(self).current_home_derp == old(self).current_home_derp,
            old(self).wf() ==> final(self).wf(),
            r == !old(self).derps@.contains_key(id),
    {
        self.regions.insert(id, region);
        !self.derps.contains_key(&id)
    }

    /// Gives a region without a runner one, where the dataplane gave a transport for it. Says
    /// whether a runner is to be started. That the dataplane stops is a fault, unless this node is
    /// shutting down; that it has nothing to give now leaves the region as it is, to be tried again.
    pub fn ensure_region(
        &mut self,
        id: RegionId,
        reply: DataplaneReply,
        shutting_down: bool,
    ) -> (r: bool)
        requires
            reply is Stopped ==> shutting_down,
        ensures
            final(self).regions@ == old(self).regions@,
            final(self).current_home_derp == old(self).current_home_derp,
            old(self).wf() ==> final(self).wf(),
            r == (!old(self).derps@.contains_key(id) && reply is Transport),
            final(self).derps@ == (if r {
                old(self).derps@.insert(
                    id,
                    RegionEntry {
                        transport_id: reply->Transport_0,
                        home: old(self).current_home_derp == Some(id),
                    },
                )
            } else {
                old(self).derps@
            }),
    {
        if self.derps.contains_key(&id) {
            return false;
        }
        match reply {
            DataplaneReply::Transport(transport_id) => {
                let home = match self.current_home_derp {
                    Some(h) => h == id,
                    None => false,
                };
                self.derps.insert(id, RegionEntry { transport_id, home });
                true
            },
            DataplaneReply::Stopped => false,
            DataplaneReply::Failed => false,
        }
    }

    /// Says where a frame of the path-discovery protocol goes that is to be relayed through
    /// `region`.
    pub fn disco_route(&self, region: RegionId) -> (r: DiscoRoute)
        ensures
            r == (if !self.regions@.contains_key(region) {
                DiscoRoute::UnknownRegion
            } else if !self.derps@.contains_key(region) {
                DiscoRoute::NotEstablished
            } else {
                DiscoRoute::Relay
            }),
    {
        if !self.regions.contains_key(&region) {
            return DiscoRoute::UnknownRegion;
        }
        if !self.derps.contains_key(&region) {
            return DiscoRoute::NotEstablished;
        }
        DiscoRoute::Relay
    }

    fn tell(&mut self, id: RegionId, home: bool)
        ensures
            final(self).regions@ == old(self).regions@,
            final(self).current_home_derp == old(self).current_home_derp,
            final(self).derps@ == (if old(self).derps@.contains_key(id) {
                old(self).derps@.insert(id, RegionEntry { home, ..old(self).derps@[id] })
            } else {
                old(self).derps@
            }),
    {
        let entry: RegionEntry = match self.derps.get(&id) {
            Some(entry) => *entry,
            None => {
                return ;
            },
        };
        self.derps.insert(id, RegionEntry { home, ..entry });
    }

    /// Takes the region with the least latency, if one was measured: it is the home region now. Its
    /// runner is told so, and that of the region that was home before is told that it is not.
    pub fn measured(&mut self, best: Option<RegionId>)
        requires
            old(self).wf(),
        ensures
            final(self).wf(),
            final(self).regions@ == old(self).regions@,
            final(self).current_home_derp == (match best {
                Some(id) => Some(id),
                None => old(self).current_home_derp,
            }),
            final(self).derps@ == told_of_home(old(self).derps@, final(self).current_home_derp),
    {
        let id = match best {
            Some(id) => id,
            None => {
                assert(self.derps@ =~= told_of_home(self.derps@, self.current_home_derp));
                return ;
            },
        };
        match self.current_home_derp {
            Some(home) => {
                self.tell(home, false);
            },
            None => {},
        }
        self.current_home_derp = Some(id);
        self.tell(id, true);
        assert(self.derps@ =~= told_of_home(old(self).derps@, Some(id)));
    }
}

/// A measurement that finds the home region again changes nothing: the region stays home, and its
/// runner, where it has one, stays told so.
pub proof fn measuring_home_again_changes_nothing(relays: Multiderp, home: RegionId)
    requires
        relays.wf(),
        relays.current_home_derp == Some(home),
    ensures
        told_of_home(relays.derps@, Some(home)) == relays.derps@,
        relays.derps@.contains_key(home) ==> relays.derps@[home].home,
{
    assert(told_of_home(relays.derps@, Some(home)) =~= relays.derps@);
}

/// Packets for a peer.
#[derive(Debug)]
pub struct Outbound {
    pub peer: PeerId,
    pub packets: Vec<Vec<u8>>,
}

/// A frame of the path-discovery protocol for a node.
#[derive(Debug)]
pub struct DiscoFrame {
    pub to: NodeKey,
    pub frame: Vec<u8>,
}

/// How far a runner is.
#[derive(Debug)]
pub enum Phase {
    /// It waits for something to send.
    Idle,
    /// It connects, to send what is queued.
    Connecting { packets: Option<Outbound>, disco: Option<DiscoFrame> },
    /// It is connected, and there was traffic at this instant.
    Connected { last_activity: u64 },
}

/// What a runner does.
#[derive(Debug)]
pub enum RunnerStep {
    /// Wait for the next event.
    Wait,
    /// Connect.
    Connect,
    /// Send packets.
    SendPackets(Outbound),
    /// Send a frame of the path-discovery protocol.
    SendDisco(DiscoFrame),
    /// Close the connection.
    Close,
}

/// The connection of one region.
#[derive(Debug)]
pub struct DerpRunner {
    /// Whether this is the home region.
    pub home: bool,
    pub phase: Phase,
}

/// How far a runner without a connection is: at home it connects, away it waits.
pub open spec fn resting(home: bool) -> Phase {
    if home {
        Phase::Connecting { packets: None, disco: None }
    } else {
        Phase::Idle
    }
}

fn rest(home: bool) -> (r: Phase)
    ensures
        r == resting(home),
{
    if home {
        Phase::Connecting { packets: None, disco: None }
    } else {
        Phase::Idle
    }
}

impl DerpRunner {
    /// At home the runner never just waits, and the end of the time without traffic is an instant.
    pub open spec fn wf(&self) -> bool {
        &&& self.home ==> !(self.phase is Idle)
        &&& self.phase is Connected ==> self.phase->last_activity + INACTIVITY_TIMEOUT <= u64::MAX
    }

    /// A runner before its first connection.
    pub fn new(home: bool) -> (r: Self)
        ensures
            r.wf(),
            r.home == home,
            r.phase == resting(home),
    {
        DerpRunner { home, phase: rest(home) }
    }

    /// Takes what the runner is told of being home.
    pub fn home_changed(&mut self, home: bool) -> (r: RunnerStep)
        requires
            old(self).wf(),
        ensures
            final(self).wf(),
            final(self).home == home,
            old(self).phase is Idle ==> final(self).phase == resting(home),
            !(old(self).phase is Idle) ==> final(self).phase == old(self).phase,
            r == (if old(self).phase is Idle && home {
                RunnerStep::Connect
            } else {
                RunnerStep::Wait
            }),
    {
        self.home = home;
        match self.phase {
            Phase::Idle => {
                if home {
                    self.phase = rest(home);
                    return RunnerStep::Connect;
                }
                RunnerStep::Wait
            },
            _ => RunnerStep::Wait,
        }
    }

    /// Takes packets to send, or that none will come any more. A runner that waits connects, and
    /// one that is connected sends them. Where none will come any more, the connection is closed.
    pub fn outbound(&mut self, packets: Option<Outbound>, now: u64) -> (r: RunnerStep)
        requires
            old(self).wf(),
            !(old(self).phase is Connecting),
            now + INACTIVITY_TIMEOUT <= u64::MAX,
        ensures
            final(self).wf(),
            final(self).home == old(self).home,
            old(self).phase is Idle ==> r is Connect && final(self).phase == (Phase::Connecting {
                packets,
                disco: None,
            }),
            old(self).phase is Connected ==> match packets {
                Some(p) => r == RunnerStep::SendPackets(p) && final(self).phase
                    == (Phase::Connected { last_activity: now }),
                None => r is Close && final(self).phase == resting(old(self).home),
            },
    {
        match self.phase {
            Phase::Idle => {
                self.phase = Phase::Connecting { packets, disco: None };
                RunnerStep::Connect
            },
            _ => match packets {
                Some(p) => {
                    self.phase = Phase::Connected { last_activity: now };
                    RunnerStep::SendPackets(p)
                },
                None => {
                    self.phase = rest(self.home);
                    RunnerStep::Close
                },
            },
        }
    }

    /// Takes a frame of the path-discovery protocol to send, or that none will come any more, as
    /// [`DerpRunner::outbound`] takes packets.
    pub fn disco(&mut self, frame: Option<DiscoFrame>, now: u64) -> (r: RunnerStep)
        requires
            old(self).wf(),
            !(old(self).phase is Connecting),
            now + INACTIVITY_TIMEOUT <= u64::MAX,
        ensures
            final(self).wf(),
            final(self).home == old(self).home,
            old(self).phase is Idle ==> r is Connect && final(self).phase == (Phase::Connecting {
                packets: None,
                disco: frame,
            }),
            old(self).phase is Connected ==> match frame {
                Some(f) => r == RunnerStep::SendDisco(f) && final(self).phase
                    == (Phase::Connected { last_activity: now }),
                None => r is Close && final(self).phase == resting(old(self).home),
            },
    {
        match self.phase {
            Phase::Idle => {
                self.phase = Phase::Connecting { packets: None, disco: frame };
                RunnerStep::Connect
            },
            _ => match frame {
                Some(f) => {
                    self.phase = Phase::Connected { last_activity: now };
                    RunnerStep::SendDisco(f)
                },
                None => {
                    self.phase = rest(self.home);
                    RunnerStep::Close
                },
            },
        }
    }

    /// Hands out what is queued, to be sent over the new connection: first the packets, then the
    /// frame.
    pub fn queued(&mut self) -> (r: (Option<Outbound>, Option<DiscoFrame>))
        requires
            old(self).wf(),
            old(self).phase is Connecting,
        ensures
            final(self).wf(),
            final(self).home == old(self).home,
            final(self).phase == (Phase::Connecting { packets: None, disco: None }),
            old(self).phase == (Phase::Connecting { packets: r.0, disco: r.1 }),
    {
        let mut phase = Phase::Connecting { packets: None, disco: None };
        std::mem::swap(&mut phase, &mut self.phase);
        match phase {
            Phase::Connecting { packets, disco } => (packets, disco),
            _ => (None, None),
        }
    }

    /// Takes note that the connection stands, with nothing left in the queue.
    pub fn connected(&mut self, now: u64)
        requires
            old(self).wf(),
            old(self).phase == (Phase::Connecting { packets: None, disco: None }),
            now + INACTIVITY_TIMEOUT <= u64::MAX,
        ensures
            final(self).wf(),
            final(self).home == old(self).home,
            final(self).phase == (Phase::Connected { last_activity: now }),
    {
        self.phase = Phase::Connected { last_activity: now };
    }

    /// Takes note that something came in.
    pub fn received(&mut self, now: u64)
        requires
            old(self).wf(),
            old(self).phase is Connected,
            now + INACTIVITY_TIMEOUT <= u64::MAX,
        ensures
            final(self).wf(),
            final(self).home == old(self).home,
            final(self).phase == (Phase::Connected { last_activity: now }),
    {
        self.phase = Phase::Connected { last_activity: now };
    }

    /// When the connection is closed if there is no more traffic: never at home.
    pub fn deadline(&self) -> (r: Option<u64>)
        requires
            self.wf(),
        ensures
            r == (if self.phase is Connected && !self.home {
                Some((self.phase->last_activity + INACTIVITY_TIMEOUT) as u64)
            } else {
                None
            }),
    {
        match self.phase {
            Phase::Connected { last_activity } => if self.home {
                None
            } else {
                Some(last_activity + INACTIVITY_TIMEOUT)
            },
            _ => None,
        }
    }

    /// Takes note that the instant of [`DerpRunner::deadline`] has come, where `home` is what the
    /// runner is told of being home by then.
    pub fn timed_out(&mut self, home: bool) -> (r: RunnerStep)
        requires
            old(self).wf(),
            old(self).phase is Connected,
        ensures
            final(self).wf(),
            final(self).home == home,
            final(self).phase == (if home {
                old(self).phase
            } else {
                Phase::Idle
            }),
            r == (if home {
                RunnerStep::Wait
            } else {
                RunnerStep::Close
            }),
    {
        self.home = home;
        if home {
            return RunnerStep::Wait;
        }
        self.phase = Phase::Idle;
        RunnerStep::Close
    }

    /// Takes note that connecting or sending failed. What was queued is lost.
    pub fn failed(&mut self)
        ensures
            final(self).wf(),
            final(self).home == old(self).home,
            final(self).phase == resting(old(self).home),
    {
        self.phase = rest(self.home);
    }
}

/// Whether a region's runner goes on after a connection has ended: not once this node shuts down,
/// nor once the dataplane has closed one of the channels.
pub fn goes_on(shutdown: bool, up_closed: bool, down_closed: bool) -> (r: bool)
    ensures
        r == !(shutdown || up_closed || down_closed),
{
    !shutdown && !up_closed && !down_closed
}

/// A frame that came through a relay.
#[derive(Debug)]
pub struct RelayedFrame {
    pub bytes: Vec<u8>,
    /// Whether it looks like one of the path-discovery protocol.
    pub looks_like_disco: bool,
    /// Whether the direct socket took it; only frames that look like one of the path-discovery
    /// protocol are offered to it, and only where there is one.
    pub taken: bool,
}

/// The frames that go to the dataplane.
pub open spec fn for_dataplane(frames: Seq<RelayedFrame>, sock_bound: bool) -> Seq<Vec<u8>>
    decreases frames.len(),
{
    if frames.len() == 0 {
        Seq::empty()
    } else {
        let before = for_dataplane(frames.drop_last(), sock_bound);
        let last = frames.last();
        if last.looks_like_disco && sock_bound && last.taken {
            before
        } else {
            before.push(last.bytes)
        }
    }
}

/// Takes the frames that the direct socket took out of a batch; everything else goes to the
/// dataplane, and without a direct socket everything does.
pub fn demux_relayed_disco(frames: Vec<RelayedFrame>, sock_bound: bool) -> (r: Vec<Vec<u8>>)
    ensures
        r@ == for_dataplane(frames@, sock_bound),
{
    let mut data: Vec<Vec<u8>> = Vec::new();
    let ghost all = frames@;
    assert(all.take(0) =~= Seq::<RelayedFrame>::empty());
    for frame in it: frames.into_iter()
        invariant
            it.seq() == all,
            data@ == for_dataplane(all.take(it.index()), sock_bound),
    {
        assert(all.take(it.index() + 1).drop_last() =~= all.take(it.index()));
        if !(frame.looks_like_disco && sock_bound && frame.taken) {
            data.push(frame.bytes);
        }
    }
    assert(all.take(all.len() as int) =~= all);
    data
}

/// Without a direct socket every frame goes to the dataplane, in order.
pub proof fn without_a_socket_every_frame_is_forwarded(frames: Seq<RelayedFrame>)
    ensures
        for_dataplane(frames, false) == frames.map_values(|f: RelayedFrame| f.bytes),
    decreases frames.len(),
{
    let all = frames.map_values(|f: RelayedFrame| f.bytes);
    if frames.len() > 0 {
        without_a_socket_every_frame_is_forwarded(frames.drop_last());
        assert(for_dataplane(frames, false) =~= all);
    } else {
        assert(for_dataplane(frames, false) =~= all);
    }
}

/// What does not look like a frame of the path-discovery protocol always goes to the dataplane.
pub proof fn data_frames_are_never_taken(frames: Seq<RelayedFrame>, sock_bound: bool, i: int)
    requires
        0 <= i < frames.len(),
        !frames[i].looks_like_disco,
    ensures
        for_dataplane(frames, sock_bound).contains(frames[i].bytes),
    decreases frames.len(),
{
    let short = frames.drop_last();
    let before = for_dataplane(short, sock_bound);
    let all = for_dataplane(frames, sock_bound);
    if i < short.len() {
        assert(short[i] == frames[i]);
        data_frames_are_never_taken(short, sock_bound, i);
        let k = choose|k: int| 0 <= k < before.len() && before[k] == frames[i].bytes;
        assert(all[k] == frames[i].bytes);
    } else {
        assert(all[before.len() as int] == frames[i].bytes);
    }
}

/// The key of the node that the peer `id` is.
pub open spec fn key_of(db: Option<DbView>, id: PeerId) -> Option<NodeKey> {
    match db {
        Some(d) => match d.find(KeyView::Id(id)) {
            Some(entry) => Some(entry.node.node_key),
            None => None,
        },
        None => None,
    }
}

/// The peer whose node has the key `key`.
pub open spec fn peer_of(db: Option<DbView>, key: NodeKey) -> Option<PeerId> {
    match db {
        Some(d) => match d.find(KeyView::NodeKey(key)) {
            Some(entry) => Some(entry.id),
            None => None,
        },
        None => None,
    }
}

/// The model of an optional database.
pub open spec fn db_view(db: Option<&PeerDb>) -> Option<DbView> {
    match db {
        Some(d) => Some(d@),
        None => None,
    }
}

/// Looks up the key that packets for a peer are relayed to.
pub fn lookup_node_key(db: Option<&PeerDb>, id: PeerId) -> (r: Option<NodeKey>)
    ensures
        r == key_of(db_view(db), id),
{
    match db {
        Some(d) => match d.get(PeerKey::Id(id)) {
            Some(entry) => Some(entry.node.node_key),
            None => None,
        },
        None => None,
    }
}

/// Looks up the peer that packets from a key come from.
pub fn lookup_peer_id(db: Option<&PeerDb>, key: NodeKey) -> (r: Option<PeerId>)
    ensures
        r == peer_of(db_view(db), key),
{
    match db {
        Some(d) => d.has(PeerKey::NodeKey(key)),
        None => None,
    }
}

/// What comes from a key is answered to that key.
pub proof fn lookups_agree(db: DbView, key: NodeKey)
    requires
        db.wf(),
        peer_of(Some(db), key) is Some,
    ensures
        key_of(Some(db), peer_of(Some(db), key)->0) == Some(key),
{
    let by_key = KeyView::NodeKey(key);
    let p = |i: int| by_key.selects(db.entries[i]);
    let n = db.entries.len() as int;
    first_where_is_first(p, n);
    let i = db.index_of(by_key)->0;
    let id = db.entries[i].id;
    let by_id = KeyView::Id(id);
    let q = |i: int| by_id.selects(db.entries[i]);
    assert(q(i));
    assert forall|j: int| 0 <= j < i implies !#[trigger] q(j) by {
        assert(db.entries[j].id != db.entries[i].id);
    }
    first_where_is(q, n, i);
}

/// Once home, a region is never left waiting without a connection, whatever it is told next but
/// that it is home no more.
pub proof fn home_is_always_on(runner: DerpRunner)
    requires
        runner.wf(),
        runner.home,
    ensures
        runner.phase is Connecting || runner.phase is Connected,
{
}

} // verus!
