use vstd::prelude::*;
use crate::command::Command;
use crate::tile::Tile;

verus! {

/// How many distinct client handles fit in a one-byte short ID.
pub const MAX_HANDLES: usize = 256;

/// A tile already stands at the requested position of the region.
#[derive(Clone, Copy, Debug, PartialEq, Eq, Structural)]
pub struct TileExists;

/// Every one-byte short ID has been handed out.
#[derive(Clone, Copy, Debug, PartialEq, Eq, Structural)]
pub struct RegistryFull;

/// A stored blob does not describe a valid world.
#[derive(Clone, Copy, Debug, PartialEq, Eq, Structural)]
pub enum PersistenceError {
    Corrupt,
}

/// The shared world.
///
/// `map` holds every placed tile with its region key, in order of placement;
/// the tiles of one region, in that order, are that region's tile list.
/// `id_map` holds the known client handles: the short ID of a handle is its
/// index. `peers` holds the keys of the connections now live.
pub struct State {
    pub peers: Vec<u64>,
    pub id_map: Vec<u64>,
    pub map: Vec<(i32, Tile)>,
}

/// Whether two entries stand at the same position of the same region.
pub open spec fn same_spot(a: (i32, Tile), b: (i32, Tile)) -> bool {
    a.0 == b.0 && a.1.at(b.1.x, b.1.y, b.1.z)
}

/// Whether a tile stands at `(x, y, z)` of `region` in `m`.
pub open spec fn occupied(m: Seq<(i32, Tile)>, region: i32, x: i32, y: i32, z: i32) -> bool {
    exists|i: int| 0 <= i < m.len() && m[i].0 == region && #[trigger] m[i].1.at(x, y, z)
}

/// No two stored tiles stand at the same spot of the same region.
pub open spec fn no_two_on_one_spot(m: Seq<(i32, Tile)>) -> bool {
    forall|i: int, j: int| 0 <= i < j < m.len() ==> !same_spot(#[trigger] m[i], #[trigger] m[j])
}

/// No value occurs twice in `s`.
pub open spec fn distinct(s: Seq<u64>) -> bool {
    forall|i: int, j: int| 0 <= i < j < s.len() ==> #[trigger] s[i] != #[trigger] s[j]
}

/// The tiles of `region`, in order of placement.
pub open spec fn region_spec(m: Seq<(i32, Tile)>, region: i32) -> Seq<Tile> {
    m.filter(in_region(region)).map_values(tile_of())
}

/// Whether an entry belongs to `region`.
pub open spec fn in_region(region: i32) -> spec_fn((i32, Tile)) -> bool {
    |e: (i32, Tile)| e.0 == region
}

/// The tile of an entry.
pub open spec fn tile_of() -> spec_fn((i32, Tile)) -> Tile {
    |e: (i32, Tile)| e.1
}

/// One delivery of `message` to each connection of `peers`, in order.
pub open spec fn deliveries_spec(peers: Seq<u64>, message: Command) -> Seq<(u64, Command)> {
    peers.map_values(|a: u64| (a, message))
}

/// The frame that tells a client of one stored tile.
pub open spec fn update_of(e: (i32, Tile)) -> Command {
    Command::UpdateTile(e.1.player, e.0, e.1.x, e.1.y, e.1.z)
}

/// The frames that replay the whole world, one per stored tile.
pub open spec fn replay_spec(m: Seq<(i32, Tile)>) -> Seq<Command> {
    m.map_values(|e: (i32, Tile)| update_of(e))
}

/// Relies on chrono's `Utc::now` and `DateTime::timestamp`: the current
/// time in whole seconds since the Unix epoch. Nothing is promised of it.
#[verifier::external_body]
fn now_secs() -> (r: i64) {
    chrono::Utc::now().timestamp()
}

impl State {
    /// Tiles are unique per spot, handles are distinct and fit a one-byte
    /// short ID, and each live connection is listed once.
    pub open spec fn wf(&self) -> bool {
        &&& no_two_on_one_spot(self.map@)
        &&& distinct(self.id_map@)
        &&& self.id_map@.len() <= MAX_HANDLES
        &&& distinct(self.peers@)
    }

    /// An empty world with no peers.
    pub fn new() -> (r: State)
        ensures
            r.wf(),
            r.peers@.len() == 0,
            r.id_map@.len() == 0,
            r.map@.len() == 0,
    {
        State { peers: Vec::new(), id_map: Vec::new(), map: Vec::new() }
    }

    /// Whether a tile stands at `(x, y, z)` of `region`.
    pub fn is_occupied(&self, region: i32, x: i32, y: i32, z: i32) -> (r: bool)
        ensures
            r == occupied(self.map@, region, x, y, z),
    {
        let mut i: usize = 0;
        while i < self.map.len()
            invariant
                i <= self.map@.len(),
                forall|k: int| 0 <= k < i ==> !(self.map@[k].0 == region && #[trigger] self.map@[k].1.at(x, y, z)),
            decreases self.map@.len() - i,
        {
            let e = &self.map[i];
            if e.0 == region && e.1.x == x && e.1.y == y && e.1.z == z {
                assert(self.map@[i as int].1.at(x, y, z));
                return true;
            }
            i = i + 1;
        }
        false
    }

    /// Places a tile stamped with `timestamp`, unless one already stands at
    /// `(x, y, z)` of `region`; then the world is left as it was.
    pub fn insert_tile_at(
        &mut self,
        player: u8,
        region_id: i32,
        x: i32,
        y: i32,
        z: i32,
        timestamp: i64,
    ) -> (r: Result<(), TileExists>)
        requires
            old(self).wf(),
        ensures
            final(self).wf(),
            r is Err <==> occupied(old(self).map@, region_id, x, y, z),
            r is Err ==> final(self).map@ == old(self).map@,
            r is Ok ==> final(self).map@ == old(self).map@.push(
                (region_id, Tile { x, y, z, player, timestamp }),
            ),
            final(self).id_map@ == old(self).id_map@,
            final(self).peers@ == old(self).peers@,
    {
        if self.is_occupied(region_id, x, y, z) {
            return Err(TileExists);
        }
        let t = Tile { x, y, z, player, timestamp };
        self.map.push((region_id, t));
        proof {
            let m = self.map@;
            assert forall|i: int, j: int| 0 <= i < j < m.len() implies !same_spot(
                #[trigger] m[i],
                #[trigger] m[j],
            ) by {
                if j == m.len() - 1 {
                    assert(!(old(self).map@[i].0 == region_id && old(self).map@[i].1.at(x, y, z)));
                }
            }
        }
        Ok(())
    }

    /// Places a tile stamped with the current time, unless one already
    /// stands at `(x, y, z)` of `region`; then the world is left as it was.
    pub fn insert_tile(&mut self, player: u8, region_id: i32, x: i32, y: i32, z: i32) -> (r: Result<
        (),
        TileExists,
    >)
        requires
            old(self).wf(),
        ensures
            final(self).wf(),
            r is Err <==> occupied(old(self).map@, region_id, x, y, z),
            r is Err ==> final(self).map@ == old(self).map@,
            r is Ok ==> exists|ts: i64|
                final(self).map@ == old(self).map@.push(
                    (region_id, Tile { x, y, z, player, timestamp: ts }),
                ),
            final(self).id_map@ == old(self).id_map@,
            final(self).peers@ == old(self).peers@,
    {
        let ts = now_secs();
        self.insert_tile_at(player, region_id, x, y, z, ts)
    }

    /// The tiles of `region`, in order of placement.
    pub fn region_tiles(&self, region: i32) -> (r: Vec<Tile>)
        ensures
            r@ == region_spec(self.map@, region),
    {
        let mut out: Vec<Tile> = Vec::new();
        let mut i: usize = 0;
        while i < self.map.len()
            invariant
                i <= self.map@.len(),
                out@ == region_spec(self.map@.take(i as int), region),
            decreases self.map@.len() - i,
        {
            let e = self.map[i];
            proof {
                assert(self.map@.take(i + 1) =~= self.map@.take(i as int).push(e));
                self.map@.take(i as int).lemma_filter_push(e, in_region(region));
            }
            if e.0 == region {
                out.push(e.1);
            }
            proof {
                let prev = self.map@.take(i as int).filter(in_region(region));
                if e.0 == region {
                    assert(prev.push(e).map_values(tile_of()) =~= prev.map_values(tile_of()).push(
                        e.1,
                    ));
                }
            }
            i = i + 1;
        }
        assert(self.map@.take(self.map@.len() as int) =~= self.map@);
        out
    }

    /// A copy of every stored tile with its region, in order of placement.
    pub fn snapshot_tiles(&self) -> (r: Vec<(i32, Tile)>)
        ensures
            r@ == self.map@,
    {
        let mut out: Vec<(i32, Tile)> = Vec::new();
        let mut i: usize = 0;
        while i < self.map.len()
            invariant
                i <= self.map@.len(),
                out@ == self.map@.take(i as int),
            decreases self.map@.len() - i,
        {
            out.push(self.map[i]);
            assert(self.map@.take(i + 1) =~= self.map@.take(i as int).push(self.map@[i as int]));
            i = i + 1;
        }
        assert(self.map@.take(self.map@.len() as int) =~= self.map@);
        out
    }

    /// One UpdateTile frame per stored tile, in order of placement.
    pub fn replay(&self) -> (r: Vec<Command>)
        ensures
            r@ == replay_spec(self.map@),
    {
        let mut out: Vec<Command> = Vec::new();
        let mut i: usize = 0;
        while i < self.map.len()
            invariant
                i <= self.map@.len(),
                out@ == replay_spec(self.map@.take(i as int)),
            decreases self.map@.len() - i,
        {
            let e = self.map[i];
            out.push(Command::UpdateTile(e.1.player, e.0, e.1.x, e.1.y, e.1.z));
            proof {
                assert(self.map@.take(i + 1) =~= self.map@.take(i as int).push(e));
                assert(replay_spec(self.map@.take(i + 1)) =~= replay_spec(
                    self.map@.take(i as int),
                ).push(update_of(e)));
            }
            i = i + 1;
        }
        assert(self.map@.take(self.map@.len() as int) =~= self.map@);
        out
    }

    /// Looks up the short ID of handle `h`, giving it the next free one when
    /// it is new. Short IDs are never reused or reassigned.
    pub fn register_handle(&mut self, h: u64) -> (r: Result<u8, RegistryFull>)
        requires
            old(self).wf(),
        ensures
            final(self).wf(),
            r == short_id_spec(old(self).id_map@, h),
            final(self).id_map@ == registered_spec(old(self).id_map@, h),
            final(self).map@ == old(self).map@,
            final(self).peers@ == old(self).peers@,
    {
        let mut i: usize = 0;
        while i < self.id_map.len()
            invariant
                self.wf(),
                i <= self.id_map@.len(),
                forall|k: int| 0 <= k < i ==> self.id_map@[k] != h,
            decreases self.id_map@.len() - i,
        {
            if self.id_map[i] == h {
                proof {
                    let ids = self.id_map@;
                    assert(ids.contains(h));
                    let c = choose|j: int| 0 <= j < ids.len() && ids[j] == h;
                    assert(c == i) by {
                        if c < i {
                            assert(ids[c] != ids[i as int]);
                        } else if c > i {
                            assert(ids[i as int] != ids[c]);
                        }
                    }
                }
                return Ok(i as u8);
            }
            i = i + 1;
        }
        if self.id_map.len() >= MAX_HANDLES {
            return Err(RegistryFull);
        }
        let id = self.id_map.len() as u8;
        self.id_map.push(h);
        Ok(id)
    }

    /// Adds a live connection to the registry.
    pub fn add_peer(&mut self, addr: u64)
        requires
            old(self).wf(),
        ensures
            final(self).wf(),
            final(self).peers@ == (if old(self).peers@.contains(addr) {
                old(self).peers@
            } else {
                old(self).peers@.push(addr)
            }),
            final(self).map@ == old(self).map@,
            final(self).id_map@ == old(self).id_map@,
    {
        let mut i: usize = 0;
        while i < self.peers.len()
            invariant
                self.wf(),
                i <= self.peers@.len(),
                forall|k: int| 0 <= k < i ==> self.peers@[k] != addr,
            decreases self.peers@.len() - i,
        {
            if self.peers[i] == addr {
                assert(self.peers@[i as int] == addr);
                return;
            }
            i = i + 1;
        }
        self.peers.push(addr);
    }

    /// Removes a connection from the registry.
    pub fn remove_peer(&mut self, addr: u64)
        requires
            old(self).wf(),
        ensures
            final(self).wf(),
            final(self).peers@ == old(self).peers@.filter(other_than(addr)),
            !final(self).peers@.contains(addr),
            final(self).map@ == old(self).map@,
            final(self).id_map@ == old(self).id_map@,
    {
        let ghost before = self.peers@;
        let mut kept: Vec<u64> = Vec::new();
        let mut i: usize = 0;
        while i < self.peers.len()
            invariant
                self.peers@ == before,
                distinct(before),
                i <= before.len(),
                kept@ == before.take(i as int).filter(other_than(addr)),
            decreases before.len() - i,
        {
            let a = self.peers[i];
            proof {
                assert(before.take(i + 1) =~= before.take(i as int).push(a));
                before.take(i as int).lemma_filter_push(a, other_than(addr));
            }
            if a != addr {
                kept.push(a);
            }
            i = i + 1;
        }
        proof {
            assert(before.take(before.len() as int) =~= before);
            let f = before.filter(other_than(addr));
            broadcast use vstd::seq_lib::group_filter_ensures;
            assert forall|x: int, y: int| 0 <= x < y < f.len() implies #[trigger] f[x] != #[trigger] f[y] by {
                lemma_filter_distinct(before, other_than(addr));
            }
        }
        self.peers = kept;
    }

    /// A world restored from its durable parts, with no live connections.
    /// Parts that break the world's invariants are refused as corrupt.
    pub fn from_parts(id_map: Vec<u64>, map: Vec<(i32, Tile)>) -> (r: Result<State, PersistenceError>)
        ensures
            r is Ok <==> (distinct(id_map@) && id_map@.len() <= MAX_HANDLES && no_two_on_one_spot(
                map@,
            )),
            r matches Ok(s) ==> s.wf() && s.id_map@ == id_map@ && s.map@ == map@ && s.peers@.len()
                == 0,
    {
        if id_map.len() > MAX_HANDLES {
            return Err(PersistenceError::Corrupt);
        }
        let mut i: usize = 0;
        while i < id_map.len()
            invariant
                i <= id_map@.len(),
                forall|a: int, b: int| 0 <= a < b < id_map@.len() && a < i ==> #[trigger] id_map@[a] != #[trigger] id_map@[b],
            decreases id_map@.len() - i,
        {
            let mut j: usize = i + 1;
            while j < id_map.len()
                invariant
                    i < id_map@.len(),
                    i + 1 <= j <= id_map@.len(),
                    forall|b: int| i < b < j ==> id_map@[i as int] != #[trigger] id_map@[b],
                decreases id_map@.len() - j,
            {
                if id_map[i] == id_map[j] {
                    return Err(PersistenceError::Corrupt);
                }
                j = j + 1;
            }
            i = i + 1;
        }
        let mut i: usize = 0;
        while i < map.len()
            invariant
                i <= map@.len(),
                forall|a: int, b: int| 0 <= a < b < map@.len() && a < i ==> !same_spot(#[trigger] map@[a], #[trigger] map@[b]),
            decreases map@.len() - i,
        {
            let mut j: usize = i + 1;
            while j < map.len()
                invariant
                    i < map@.len(),
                    i + 1 <= j <= map@.len(),
                    forall|b: int| i < b < j ==> !same_spot(map@[i as int], #[trigger] map@[b]),
                decreases map@.len() - j,
            {
                let a = map[i];
                let b = map[j];
                if a.0 == b.0 && a.1.x == b.1.x && a.1.y == b.1.y && a.1.z == b.1.z {
                    assert(same_spot(map@[i as int], map@[j as int]));
                    return Err(PersistenceError::Corrupt);
                }
                j = j + 1;
            }
            i = i + 1;
        }
        Ok(State { peers: Vec::new(), id_map, map })
    }

    /// One delivery of `message` to each live connection.
    pub fn broadcast_all(&self, message: Command) -> (r: Vec<(u64, Command)>)
        ensures
            r@ == deliveries_spec(self.peers@, message),
    {
        let mut out: Vec<(u64, Command)> = Vec::new();
        let mut i: usize = 0;
        while i < self.peers.len()
            invariant
                i <= self.peers@.len(),
                out@ == deliveries_spec(self.peers@.take(i as int), message),
            decreases self.peers@.len() - i,
        {
            out.push((self.peers[i], message));
            proof {
                assert(self.peers@.take(i + 1) =~= self.peers@.take(i as int).push(
                    self.peers@[i as int],
                ));
                assert(deliveries_spec(self.peers@.take(i + 1), message)
                    =~= deliveries_spec(self.peers@.take(i as int), message).push(
                    (self.peers@[i as int], message),
                ));
            }
            i = i + 1;
        }
        assert(self.peers@.take(self.peers@.len() as int) =~= self.peers@);
        out
    }
}

/// The short ID that registering `h` against `ids` hands back.
pub open spec fn short_id_spec(ids: Seq<u64>, h: u64) -> Result<u8, RegistryFull> {
    if ids.contains(h) {
        Ok((choose|i: int| 0 <= i < ids.len() && ids[i] == h) as u8)
    } else if ids.len() < MAX_HANDLES {
        Ok(ids.len() as u8)
    } else {
        Err(RegistryFull)
    }
}

/// The known handles after registering `h` against `ids`.
pub open spec fn registered_spec(ids: Seq<u64>, h: u64) -> Seq<u64> {
    if !ids.contains(h) && ids.len() < MAX_HANDLES {
        ids.push(h)
    } else {
        ids
    }
}

/// Whether a connection key is not `addr`.
pub open spec fn other_than(addr: u64) -> spec_fn(u64) -> bool {
    |a: u64| a != addr
}

proof fn lemma_filter_distinct(s: Seq<u64>, p: spec_fn(u64) -> bool)
    requires
        distinct(s),
    ensures
        distinct(s.filter(p)),
    decreases s.len(),
{
    if s.len() > 0 {
        let init = s.drop_last();
        assert(s =~= init.push(s.last()));
        lemma_filter_distinct(init, p);
        init.lemma_filter_push(s.last(), p);
        if p(s.last()) {
            assert forall|x: int| 0 <= x < init.filter(p).len() implies #[trigger] init.filter(p)[x]
                != s.last() by {
                broadcast use vstd::seq_lib::group_filter_ensures;
                if init.filter(p)[x] == s.last() {
                    assert(init.filter(p).contains(s.last()));
                    init.lemma_filter_contains_rev(p, s.last());
                    let k = choose|k: int| 0 <= k < init.len() && init[k] == s.last();
                    assert(s[k] == s[s.len() - 1]);
                }
            }
        }
    }
}

/// Once a tile stands at a spot of a region, the spot is taken: a second
/// placement there is refused and leaves the world as it was.
pub proof fn lemma_second_insert_refused(
    m: Seq<(i32, Tile)>,
    region: i32,
    x: i32,
    y: i32,
    z: i32,
    player: u8,
    timestamp: i64,
)
    ensures
        occupied(m.push((region, Tile { x, y, z, player, timestamp })), region, x, y, z),
{
    let m1 = m.push((region, Tile { x, y, z, player, timestamp }));
    assert(m1[m.len() as int].1.at(x, y, z));
}

/// Registering a handle that got a short ID again gives the same short ID
/// and changes nothing.
pub proof fn lemma_register_twice(ids: Seq<u64>, h: u64)
    requires
        distinct(ids),
        ids.len() <= MAX_HANDLES,
        short_id_spec(ids, h) is Ok,
    ensures
        registered_spec(registered_spec(ids, h), h) == registered_spec(ids, h),
        short_id_spec(registered_spec(ids, h), h) == short_id_spec(ids, h),
{
    let ids1 = registered_spec(ids, h);
    if !ids.contains(h) {
        assert(ids1[ids.len() as int] == h);
        assert(ids1.contains(h));
        let c = choose|i: int| 0 <= i < ids1.len() && ids1[i] == h;
        if c < ids.len() {
            assert(ids.contains(h));
        }
    }
}

/// The known handles after registering each of `hs` in turn.
pub open spec fn registered_all(ids: Seq<u64>, hs: Seq<u64>) -> Seq<u64>
    decreases hs.len(),
{
    if hs.len() == 0 {
        ids
    } else {
        registered_spec(registered_all(ids, hs.drop_last()), hs.last())
    }
}

/// Registering distinct handles in turn on a fresh world gives them the
/// short IDs 0, 1, 2, ... in that order.
pub proof fn lemma_register_dense(hs: Seq<u64>)
    requires
        distinct(hs),
        hs.len() <= MAX_HANDLES,
    ensures
        forall|k: int|
            0 <= k < hs.len() ==> short_id_spec(registered_all(Seq::empty(), hs.take(k)), hs[k])
                == Ok::<u8, RegistryFull>(k as u8),
{
    assert forall|k: int| 0 <= k < hs.len() implies short_id_spec(
        registered_all(Seq::empty(), hs.take(k)),
        hs[k],
    ) == Ok::<u8, RegistryFull>(k as u8) by {
        lemma_registered_prefix(hs, k);
        if hs.take(k).contains(hs[k]) {
            let c = choose|i: int| 0 <= i < k && #[trigger] hs.take(k)[i] == hs[k];
            assert(hs[c] == hs[k]);
        }
    }
}

proof fn lemma_registered_prefix(hs: Seq<u64>, k: int)
    requires
        distinct(hs),
        hs.len() <= MAX_HANDLES,
        0 <= k <= hs.len(),
    ensures
        registered_all(Seq::empty(), hs.take(k)) == hs.take(k),
    decreases k,
{
    if k > 0 {
        lemma_registered_prefix(hs, k - 1);
        assert(hs.take(k).drop_last() =~= hs.take(k - 1));
        assert(hs.take(k).last() == hs[k - 1]);
        if hs.take(k - 1).contains(hs[k - 1]) {
            let c = choose|i: int| 0 <= i < k - 1 && #[trigger] hs.take(k - 1)[i] == hs[k - 1];
            assert(hs[c] == hs[k - 1]);
        }
        assert(hs.take(k - 1).push(hs[k - 1]) =~= hs.take(k));
    }
}

/// The replay of a world holds one frame per stored tile, the frame of
/// that tile, and no frame twice.
pub proof fn lemma_replay_complete(m: Seq<(i32, Tile)>)
    requires
        no_two_on_one_spot(m),
    ensures
        replay_spec(m).len() == m.len(),
        forall|i: int| 0 <= i < m.len() ==> #[trigger] replay_spec(m)[i] == update_of(m[i]),
        forall|i: int, j: int|
            0 <= i < j < m.len() ==> #[trigger] replay_spec(m)[i] != #[trigger] replay_spec(m)[j],
{
    assert forall|i: int, j: int| 0 <= i < j < m.len() implies #[trigger] replay_spec(m)[i]
        != #[trigger] replay_spec(m)[j] by {
        assert(!same_spot(m[i], m[j]));
    }
}

/// A broadcast reaches each live connection exactly once, with the message.
pub proof fn lemma_fan_out(peers: Seq<u64>, message: Command)
    requires
        distinct(peers),
    ensures
        deliveries_spec(peers, message).len() == peers.len(),
        forall|i: int|
            0 <= i < peers.len() ==> #[trigger] deliveries_spec(peers, message)[i] == (
            peers[i],
            message,
        ),
        forall|i: int, j: int|
            0 <= i < j < peers.len() ==> #[trigger] deliveries_spec(peers, message)[i].0
                != #[trigger] deliveries_spec(peers, message)[j].0,
{
}

/// Once a connection leaves the registry, no broadcast is addressed to it.
pub proof fn lemma_closed_gets_no_broadcast(peers: Seq<u64>, addr: u64, message: Command)
    ensures
        forall|i: int|
            0 <= i < peers.filter(other_than(addr)).len() ==> (#[trigger] deliveries_spec(peers.filter(
                other_than(addr),
            ), message)[i]).0 != addr,
{
    assert forall|i: int| 0 <= i < peers.filter(other_than(addr)).len() implies (
    #[trigger] deliveries_spec(peers.filter(other_than(addr)), message)[i]).0 != addr by {
        broadcast use vstd::seq_lib::group_filter_ensures;
    }
}

} // verus!
