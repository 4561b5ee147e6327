use vstd::prelude::*;
use crate::command::{decode_client_spec, Command, Status, VERSION};
use crate::peer::Peer;
use crate::state::{deliveries_spec, lemma_replay_complete, occupied, other_than, update_of, registered_spec, replay_spec, short_id_spec, State};
use crate::tile::Tile;

verus! {

/// The session's own fields other than its queue are as they were.
pub open spec fn same_session(a: Peer, b: Peer) -> bool {
    a.uid == b.uid && a.id == b.id && a.addr == b.addr
}

/// What the handshake `Handshake(ver, h)` does to a session and the world.
pub open spec fn handshake_spec(
    ver: u8,
    h: u64,
    p0: Peer,
    p1: Peer,
    s0: State,
    s1: State,
) -> bool {
    if ver != VERSION {
        same_session(p0, p1) && p1.outbox@ == p0.outbox@.push(
            Command::Response(Status::VersionMismatch),
        ) && s1.id_map@ == s0.id_map@
    } else if p0.uid.is_some() {
        same_session(p0, p1) && p1.outbox@ == p0.outbox@.push(Command::Response(Status::ERR))
            && s1.id_map@ == s0.id_map@
    } else {
        s1.id_map@ == registered_spec(s0.id_map@, h) && match short_id_spec(s0.id_map@, h) {
            Ok(id) => p1.uid == Some(h) && p1.id == Some(id) && p1.addr == p0.addr && p1.outbox@
                == p0.outbox@ + seq![Command::Handshaken(Status::OK, id)] + replay_spec(s0.map@),
            Err(_) => same_session(p0, p1) && p1.outbox@ == p0.outbox@.push(
                Command::Response(Status::ERR),
            ),
        }
    }
}

/// A client that completes a handshake is sent, after `Handshaken`, exactly
/// one UpdateTile frame per stored tile, and no frame twice.
pub proof fn lemma_handshake_replays_every_tile(h: u64, p0: Peer, p1: Peer, s0: State, s1: State)
    requires
        s0.wf(),
        p0.uid.is_none(),
        short_id_spec(s0.id_map@, h) is Ok,
        handshake_spec(VERSION, h, p0, p1, s0, s1),
    ensures
        p1.outbox@.len() == p0.outbox@.len() + 1 + s0.map@.len(),
        p1.outbox@[p0.outbox@.len() as int] == Command::Handshaken(
            Status::OK,
            p1.id.unwrap(),
        ),
        forall|i: int|
            0 <= i < s0.map@.len() ==> #[trigger] p1.outbox@[p0.outbox@.len() + 1 + i]
                == update_of(s0.map@[i]),
        forall|i: int, j: int|
            0 <= i < j < s0.map@.len() ==> #[trigger] p1.outbox@[p0.outbox@.len() + 1 + i]
                != #[trigger] p1.outbox@[p0.outbox@.len() + 1 + j],
{
    lemma_replay_complete(s0.map@);
    let n = p0.outbox@.len() as int;
    assert forall|i: int| 0 <= i < s0.map@.len() implies #[trigger] p1.outbox@[n + 1 + i]
        == replay_spec(s0.map@)[i] by {}
}

/// What `PlaceTile(region, x, y, z)` does: a registered session places the
/// tile and every live connection is told of it; otherwise nothing happens.
pub open spec fn place_spec(
    region: i32,
    x: i32,
    y: i32,
    z: i32,
    p0: Peer,
    s0: State,
    s1: State,
    out: Seq<(u64, Command)>,
) -> bool {
    match p0.id {
        Some(id) => if occupied(s0.map@, region, x, y, z) {
            s1.map@ == s0.map@ && out.len() == 0
        } else {
            (exists|ts: i64|
                s1.map@ == s0.map@.push((region, Tile { x, y, z, player: id, timestamp: ts })))
                && out == deliveries_spec(s0.peers@, Command::UpdateTile(id, region, x, y, z))
        },
        None => s1.map@ == s0.map@ && out.len() == 0,
    }
}

/// What applying `c` does: from session `p0` and world `s0` to `p1` and
/// `s1`, with `out` the frames pushed to live connections.
pub open spec fn step_spec(c: Command, p0: Peer, s0: State, p1: Peer, s1: State, out: Seq<
    (u64, Command),
>) -> bool {
    &&& p1.addr == p0.addr
    &&& s1.peers@ == s0.peers@
    &&& match c {
        Command::Handshake(ver, h) => out.len() == 0 && s1.map@ == s0.map@ && handshake_spec(
            ver,
            h,
            p0,
            p1,
            s0,
            s1,
        ),
        Command::PlaceTile(region, x, y, z) => {
            &&& same_session(p0, p1)
            &&& p1.outbox@ == p0.outbox@
            &&& s1.id_map@ == s0.id_map@
            &&& place_spec(region, x, y, z, p0, s0, s1, out)
        },
        _ => {
            &&& out.len() == 0
            &&& unchanged(p0, s0, p1, s1)
        },
    }
}

/// Session and world are as they were.
pub open spec fn unchanged(p0: Peer, s0: State, p1: Peer, s1: State) -> bool {
    &&& same_session(p0, p1)
    &&& p1.outbox@ == p0.outbox@
    &&& s1.map@ == s0.map@
    &&& s1.id_map@ == s0.id_map@
    &&& s1.peers@ == s0.peers@
}

/// What applying `cs` in order does: from `p0` and `s0` to `p1` and `s1`,
/// with `out` the frames pushed to live connections, command after command.
pub open spec fn run_spec(cs: Seq<Command>, p0: Peer, s0: State, p1: Peer, s1: State, out: Seq<
    (u64, Command),
>) -> bool
    decreases cs.len(),
{
    if cs.len() == 0 {
        out.len() == 0 && unchanged(p0, s0, p1, s1)
    } else {
        exists|pm: Peer, sm: State, k: int|
            #![trigger step_spec(cs.last(), pm, sm, p1, s1, out.subrange(k, out.len() as int))]
            0 <= k <= out.len() && run_spec(cs.drop_last(), p0, s0, pm, sm, out.subrange(0, k))
                && step_spec(cs.last(), pm, sm, p1, s1, out.subrange(k, out.len() as int))
    }
}

proof fn lemma_run_step(
    cs: Seq<Command>,
    c: Command,
    p0: Peer,
    s0: State,
    pm: Peer,
    sm: State,
    p1: Peer,
    s1: State,
    o1: Seq<(u64, Command)>,
    o2: Seq<(u64, Command)>,
)
    requires
        run_spec(cs, p0, s0, pm, sm, o1),
        step_spec(c, pm, sm, p1, s1, o2),
    ensures
        run_spec(cs.push(c), p0, s0, p1, s1, o1 + o2),
{
    let cs2 = cs.push(c);
    let out = o1 + o2;
    assert(cs2.drop_last() =~= cs);
    assert(cs2.last() == c);
    assert(out.subrange(0, o1.len() as int) =~= o1);
    assert(out.subrange(o1.len() as int, out.len() as int) =~= o2);
    assert(step_spec(cs2.last(), pm, sm, p1, s1, out.subrange(o1.len() as int, out.len() as int)));
}

/// Applies one command from the client of `peer`. Replies are queued on the
/// session; the result lists the frames to push to live connections.
pub fn handle_command(command: Command, peer: &mut Peer, state: &mut State) -> (r: Vec<
    (u64, Command),
>)
    requires
        old(state).wf(),
        old(peer).wf(),
    ensures
        final(state).wf(),
        final(peer).wf(),
        final(peer).addr == old(peer).addr,
        final(state).peers@ == old(state).peers@,
        step_spec(command, *old(peer), *old(state), *final(peer), *final(state), r@),
{
    match command {
        Command::Handshake(ver, h) => {
            if ver != VERSION {
                peer.send(Command::Response(Status::VersionMismatch));
                return Vec::new();
            }
            if peer.is_registered() {
                peer.send(Command::Response(Status::ERR));
                return Vec::new();
            }
            match peer.register(h, state) {
                Ok(()) => {},
                Err(_) => {
                    peer.send(Command::Response(Status::ERR));
                    return Vec::new();
                },
            }
            let id = match peer.id {
                Some(id) => id,
                None => {
                    return Vec::new();
                },
            };
            peer.send(Command::Handshaken(Status::OK, id));
            let frames = state.replay();
            let ghost base = peer.outbox@;
            let mut i: usize = 0;
            while i < frames.len()
                invariant
                    i <= frames@.len(),
                    peer.outbox@ == base + frames@.take(i as int),
                    peer.uid == Some(h),
                    peer.id == Some(id),
                    peer.addr == old(peer).addr,
                decreases frames@.len() - i,
            {
                peer.send(frames[i]);
                assert(frames@.take(i + 1) =~= frames@.take(i as int).push(frames@[i as int]));
                i = i + 1;
            }
            assert(frames@.take(frames@.len() as int) =~= frames@);
            assert(peer.outbox@ =~= old(peer).outbox@ + seq![Command::Handshaken(Status::OK, id)]
                + replay_spec(old(state).map@));
            Vec::new()
        },
        Command::PlaceTile(region, x, y, z) => {
            let id = match peer.id {
                Some(id) => id,
                None => {
                    return Vec::new();
                },
            };
            match state.insert_tile(id, region, x, y, z) {
                Ok(()) => state.broadcast_all(Command::UpdateTile(id, region, x, y, z)),
                Err(_) => Vec::new(),
            }
        },
        _ => Vec::new(),
    }
}

/// What one network read of a connection led to.
pub struct ReadOutcome {
    /// Frames to push to live connections, each with the connection's key.
    pub deliveries: Vec<(u64, Command)>,
    /// The client said Disconnect: the connection is over.
    pub closed: bool,
}

/// Takes the connection of `peer` out of the live registry.
pub fn close_session(peer: &Peer, state: &mut State)
    requires
        old(state).wf(),
    ensures
        final(state).wf(),
        !final(state).peers@.contains(peer.addr),
        final(state).peers@ == old(state).peers@.filter(crate::state::other_than(peer.addr)),
        final(state).map@ == old(state).map@,
        final(state).id_map@ == old(state).id_map@,
{
    state.remove_peer(peer.addr);
}

/// The commands that one read carries from `pos` on: frame after frame, up
/// to the first that does not decode, and none after a Disconnect.
pub open spec fn read_frames(s: Seq<u8>, pos: int) -> Seq<Command>
    decreases s.len() - pos,
{
    match decode_client_spec(s, pos) {
        Ok((c, n)) => if c == Command::Disconnect || n <= pos {
            seq![c]
        } else {
            seq![c] + read_frames(s, n)
        },
        Err(_) => Seq::empty(),
    }
}

/// Decodes and applies, in order, the frames of one network read. A frame
/// that does not decode ends the read: the bytes after it are dropped and
/// the connection stays open. A Disconnect takes the connection out of the
/// registry and ends it; nothing after it is applied.
pub fn process_frames(buf: &[u8], peer: &mut Peer, state: &mut State) -> (r: ReadOutcome)
    requires
        old(state).wf(),
        old(peer).wf(),
    ensures
        final(state).wf(),
        final(peer).wf(),
        r.closed <==> read_frames(buf@, 0).contains(Command::Disconnect),
        !r.closed ==> run_spec(
            read_frames(buf@, 0),
            *old(peer),
            *old(state),
            *final(peer),
            *final(state),
            r.deliveries@,
        ),
        r.closed ==> read_frames(buf@, 0).last() == Command::Disconnect,
        r.closed ==> !final(state).peers@.contains(final(peer).addr),
        r.closed ==> exists|sm: State|
            #![trigger run_spec(read_frames(buf@, 0).drop_last(), *old(peer), *old(state), *final(peer), sm, r.deliveries@)]
            run_spec(
                read_frames(buf@, 0).drop_last(),
                *old(peer),
                *old(state),
                *final(peer),
                sm,
                r.deliveries@,
            ) && final(state).map@ == sm.map@ && final(state).id_map@ == sm.id_map@
                && final(state).peers@ == sm.peers@.filter(other_than(final(peer).addr)),
{
    let ghost p0 = *peer;
    let ghost s0 = *state;
    let mut deliveries: Vec<(u64, Command)> = Vec::new();
    let mut pos: usize = 0;
    let ghost done: Seq<Command> = Seq::empty();
    while pos < buf.len()
        invariant
            p0 == *old(peer),
            s0 == *old(state),
            state.wf(),
            peer.wf(),
            pos <= buf@.len(),
            done + read_frames(buf@, pos as int) == read_frames(buf@, 0),
            !done.contains(Command::Disconnect),
            run_spec(done, p0, s0, *peer, *state, deliveries@),
        ensures
            read_frames(buf@, pos as int).len() == 0,
        decreases buf@.len() - pos,
    {
        let (command, next) = match Command::decode(buf, pos) {
            Ok(d) => d,
            Err(_) => {
                break;
            },
        };
        let ghost rest = read_frames(buf@, next as int);
        if let Command::Disconnect = command {
            let ghost sm = *state;
            close_session(peer, state);
            proof {
                let all = read_frames(buf@, 0);
                assert(read_frames(buf@, pos as int) == seq![command]);
                assert(all =~= done.push(Command::Disconnect));
                assert(all.drop_last() =~= done);
                assert(all[done.len() as int] == Command::Disconnect);
                assert(all.contains(Command::Disconnect));
                assert(run_spec(all.drop_last(), p0, s0, *peer, sm, deliveries@));
                assert(state.map@ == sm.map@ && state.id_map@ == sm.id_map@ && state.peers@
                    == sm.peers@.filter(other_than(peer.addr)));
            }
            let res = ReadOutcome { deliveries, closed: true };
            proof {
                let all = read_frames(buf@, 0);
                assert(res.deliveries@ == deliveries@);
                assert(run_spec(all.drop_last(), *old(peer), *old(state), *peer, sm, res.deliveries@));
            }
            return res;
        }
        assert(read_frames(buf@, pos as int) == seq![command] + rest);
        let ghost pm = *peer;
        let ghost sm = *state;
        let ghost dm = deliveries@;
        let out = handle_command(command, peer, state);
        let mut k: usize = 0;
        while k < out.len()
            invariant
                k <= out@.len(),
                deliveries@ == dm + out@.take(k as int),
            decreases out@.len() - k,
        {
            deliveries.push(out[k]);
            assert(out@.take(k + 1) =~= out@.take(k as int).push(out@[k as int]));
            k = k + 1;
        }
        proof {
            assert(out@.take(out@.len() as int) =~= out@);
            let done2 = done.push(command);
            assert(done2 + rest =~= done + (seq![command] + rest));
            assert(done2.drop_last() =~= done);
            assert(done2.last() == command);
            assert(run_spec(done2.drop_last(), p0, s0, pm, sm, dm));
            assert(step_spec(done2.last(), pm, sm, *peer, *state, out@));
            assert(deliveries@ == dm + out@);
            assert(run_spec(done2.drop_last(), p0, s0, pm, sm, dm) && step_spec(
                done2.last(),
                pm,
                sm,
                *peer,
                *state,
                out@,
            ) && deliveries@ == dm + out@);
            lemma_run_step(done, command, p0, s0, pm, sm, *peer, *state, dm, out@);
            assert(run_spec(done2, p0, s0, *peer, *state, deliveries@));
            assert(!done2.contains(Command::Disconnect)) by {
                if done2.contains(Command::Disconnect) {
                    let j = choose|j: int| 0 <= j < done2.len() && done2[j] == Command::Disconnect;
                    if j < done.len() {
                        assert(done.contains(Command::Disconnect));
                    }
                }
            }
            done = done2;
        }
        pos = next;
    }
    proof {
        let all = read_frames(buf@, 0);
        assert(done =~= all);
    }
    ReadOutcome { deliveries, closed: false }
}

} // verus!
