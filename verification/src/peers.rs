//! The server's peer map: inner IP address to outer UDP return path.
//!
//! The server learns, from every valid inbound packet, that the inner
//! source address lives behind the outer UDP address the datagram came
//! from; outbound packets are routed by looking their inner destination
//! up.  Collisions overwrite — the last writer wins — and nothing ages
//! out.

use vstd::prelude::*;

verus! {

/// An inner address: the IPv4 or IPv6 address inside a tunnelled packet,
/// as the big-endian value of its bytes.
#[derive(Clone, Copy, PartialEq, Eq, Structural, Debug)]
pub enum IpKey {
    V4(u32),
    V6(u128),
}

/// An outer UDP return path: the peer's IPv4 address (big-endian value)
/// and port on the real network.
#[derive(Clone, Copy, PartialEq, Eq, Structural, Debug)]
pub struct OuterAddr {
    pub ip: u32,
    pub port: u16,
}

/// One learned entry of the peer map.
#[derive(Clone, Copy)]
pub struct PeerEntry {
    pub key: IpKey,
    pub addr: OuterAddr,
}

/// The mathematical content of an entry list: later entries win.
pub open spec fn map_of(entries: Seq<PeerEntry>) -> Map<IpKey, OuterAddr>
    decreases entries.len(),
{
    if entries.len() == 0 {
        Map::empty()
    } else {
        map_of(entries.drop_last()).insert(entries.last().key, entries.last().addr)
    }
}

/// The lookup a backwards scan of the list performs.
pub open spec fn seq_lookup(entries: Seq<PeerEntry>, k: IpKey) -> Option<OuterAddr>
    decreases entries.len(),
{
    if entries.len() == 0 {
        None
    } else if entries.last().key == k {
        Some(entries.last().addr)
    } else {
        seq_lookup(entries.drop_last(), k)
    }
}

/// Scanning backwards finds exactly what the map holds.
proof fn lemma_seq_lookup_is_map(entries: Seq<PeerEntry>, k: IpKey)
    ensures
        map_of(entries).dom().contains(k) <==> seq_lookup(entries, k) is Some,
        map_of(entries).dom().contains(k) ==> seq_lookup(entries, k) == Some(
            map_of(entries)[k],
        ),
    decreases entries.len(),
{
    if entries.len() > 0 {
        lemma_seq_lookup_is_map(entries.drop_last(), k);
    }
}

/// The peer map, held as the list of learned entries.
pub struct PeerMap {
    pub entries: Vec<PeerEntry>,
}

impl View for PeerMap {
    type V = Map<IpKey, OuterAddr>;

    open spec fn view(&self) -> Map<IpKey, OuterAddr> {
        map_of(self.entries@)
    }
}

impl PeerMap {
    /// An empty map: nothing has been learned.
    pub fn new() -> (r: PeerMap)
        ensures
            r@ == Map::<IpKey, OuterAddr>::empty(),
    {
        PeerMap { entries: Vec::new() }
    }

    /// Records that inner address `k` lives behind outer address `a`,
    /// overwriting whatever was known for `k`.
    pub fn insert(&mut self, k: IpKey, a: OuterAddr)
        ensures
            final(self)@ == old(self)@.insert(k, a),
    {
        self.entries.push(PeerEntry { key: k, addr: a });
        proof {
            assert(self.entries@.drop_last() =~= old(self).entries@);
        }
    }

    /// Looks the inner address `k` up: the outer address last recorded
    /// for it, or nothing if it was never seen.
    pub fn get(&self, k: IpKey) -> (r: Option<OuterAddr>)
        ensures
            r is Some <==> self@.dom().contains(k),
            r is Some ==> r == Some(self@[k]),
    {
        proof {
            lemma_seq_lookup_is_map(self.entries@, k);
        }
        let mut i: usize = self.entries.len();
        proof {
            assert(self.entries@.take(i as int) =~= self.entries@);
        }
        while i > 0
        invariant
            0 <= i <= self.entries@.len(),
            seq_lookup(self.entries@.take(i as int), k) == seq_lookup(self.entries@, k),
        decreases i,
        {
            let e = self.entries[i - 1];
            proof {
                lemma_seq_lookup_is_map(self.entries@, k);
                assert(self.entries@.take(i as int).last() == self.entries@[i - 1]);
                assert(self.entries@.take(i as int).drop_last() =~= self.entries@.take(i - 1));
            }
            if e.key == k {
                return Some(e.addr);
            }
            i = i - 1;
        }
        assert(self.entries@.take(0) =~= Seq::<PeerEntry>::empty());
        None
    }
}

/// What the map promises the router: after any packet from outer address
/// `a` whose inner source is `x` has been learned, a lookup of `x` finds
/// `a`; an address never learned finds nothing.
pub proof fn lemma_peer_map_learning(m: Map<IpKey, OuterAddr>, x: IpKey, a: OuterAddr, y: IpKey)
    ensures
        m.insert(x, a)[x] == a,
        m.insert(x, a).dom().contains(x),
        !m.dom().contains(y) && y != x ==> !m.insert(x, a).dom().contains(y),
{
}

} // verus!
