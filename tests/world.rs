use tilesync::command::{Command, Status};
use tilesync::peer::Peer;
use tilesync::session::{close_session, handle_command, process_frames};
use tilesync::state::{PersistenceError, RegistryFull, State, TileExists};
use tilesync::tile::Tile;

fn tile(x: i32, y: i32, z: i32, player: u8, timestamp: i64) -> Tile {
    Tile { x, y, z, player, timestamp }
}

fn frame(c: Command) -> Vec<u8> {
    let mut buf = Vec::new();
    c.into_bytes(&mut buf);
    buf
}

#[test]
fn second_insert_on_same_spot_is_refused() {
    let mut s = State::new();
    assert_eq!(s.insert_tile(0, 1, 2, 3, 4), Ok(()));
    assert_eq!(s.region_tiles(1).len(), 1);
    assert_eq!(s.insert_tile(5, 1, 2, 3, 4), Err(TileExists));
    assert_eq!(s.region_tiles(1).len(), 1);
    assert_eq!(s.region_tiles(1)[0].player, 0);
    // the same coordinates in another region are a different spot
    assert_eq!(s.insert_tile(0, 2, 2, 3, 4), Ok(()));
    assert_eq!(s.map.len(), 2);
}

#[test]
fn insert_tile_at_records_the_tile() {
    let mut s = State::new();
    assert_eq!(s.insert_tile_at(3, -7, 1, 2, 3, 1000), Ok(()));
    assert_eq!(s.map, vec![(-7, tile(1, 2, 3, 3, 1000))]);
    assert!(s.is_occupied(-7, 1, 2, 3));
    assert!(!s.is_occupied(-7, 1, 2, 4));
}

#[test]
fn insert_tile_stamps_current_time() {
    let mut s = State::new();
    assert_eq!(s.insert_tile(0, 0, 0, 0, 0), Ok(()));
    // any time after 2020-01-01
    assert!(s.map[0].1.timestamp > 1_577_836_800);
}

#[test]
fn region_tiles_keep_insertion_order() {
    let mut s = State::new();
    s.insert_tile_at(0, 1, 5, 0, 0, 10).unwrap();
    s.insert_tile_at(0, 2, 6, 0, 0, 11).unwrap();
    s.insert_tile_at(1, 1, 7, 0, 0, 12).unwrap();
    assert_eq!(s.region_tiles(1), vec![tile(5, 0, 0, 0, 10), tile(7, 0, 0, 1, 12)]);
    assert_eq!(s.region_tiles(2), vec![tile(6, 0, 0, 0, 11)]);
    assert_eq!(s.region_tiles(3), vec![]);
    assert_eq!(s.snapshot_tiles().len(), 3);
}

#[test]
fn same_handle_gets_same_short_id() {
    let mut s = State::new();
    assert_eq!(s.register_handle(42), Ok(0));
    assert_eq!(s.register_handle(42), Ok(0));
    assert_eq!(s.id_map, vec![42]);
}

#[test]
fn distinct_handles_get_dense_ids() {
    let mut s = State::new();
    for k in 0..10u64 {
        assert_eq!(s.register_handle(1000 + k), Ok(k as u8));
    }
    assert_eq!(s.register_handle(1003), Ok(3));
}

#[test]
fn registry_full_after_256_handles() {
    let mut s = State::new();
    for k in 0..256u64 {
        assert_eq!(s.register_handle(k * 3), Ok(k as u8));
    }
    assert_eq!(s.register_handle(1), Err(RegistryFull));
    assert_eq!(s.register_handle(255 * 3), Ok(255));
    assert_eq!(s.id_map.len(), 256);
}

#[test]
fn handshake_replays_every_tile() {
    let mut s = State::new();
    let n = 7;
    for k in 0..n {
        s.insert_tile_at(1, k % 3, k, 0, 0, 5).unwrap();
    }
    let mut p = Peer::new(&mut s, 1);
    let out = handle_command(Command::Handshake(0, 99), &mut p, &mut s);
    assert!(out.is_empty());
    assert_eq!(p.outbox.len(), 1 + n as usize);
    assert_eq!(p.outbox[0], Command::Handshaken(Status::OK, 0));
    let mut seen = p.outbox[1..].to_vec();
    seen.sort_by_key(|c| match c {
        Command::UpdateTile(_, _, x, _, _) => *x,
        _ => -1,
    });
    for k in 0..n {
        assert_eq!(seen[k as usize], Command::UpdateTile(1, k % 3, k, 0, 0));
    }
}

#[test]
fn placement_reaches_every_peer() {
    let mut s = State::new();
    let mut peers: Vec<Peer> = (10..15u64).map(|a| Peer::new(&mut s, a)).collect();
    handle_command(Command::Handshake(0, 5), &mut peers[0], &mut s);
    let out = handle_command(Command::PlaceTile(3, 1, 1, 1), &mut peers[0], &mut s);
    assert_eq!(out.len(), 5);
    let mut addrs: Vec<u64> = out.iter().map(|d| d.0).collect();
    addrs.sort();
    assert_eq!(addrs, vec![10, 11, 12, 13, 14]);
    for d in &out {
        assert_eq!(d.1, Command::UpdateTile(0, 3, 1, 1, 1));
    }
    assert_eq!(s.broadcast_all(Command::Disconnect).len(), 5);
}

#[test]
fn closed_peer_gets_no_broadcast() {
    let mut s = State::new();
    let mut a = Peer::new(&mut s, 1);
    let mut b = Peer::new(&mut s, 2);
    let mut c = Peer::new(&mut s, 3);
    handle_command(Command::Handshake(0, 100), &mut a, &mut s);
    let r = process_frames(&frame(Command::Disconnect), &mut b, &mut s);
    assert!(r.closed);
    assert!(r.deliveries.is_empty());
    close_session(&c, &mut s);
    assert_eq!(s.peers, vec![1]);
    let out = handle_command(Command::PlaceTile(0, 0, 0, 0), &mut a, &mut s);
    assert_eq!(out, vec![(1, Command::UpdateTile(0, 0, 0, 0, 0))]);
    let _ = &mut c;
}

#[test]
fn handshake_then_place_scenario() {
    let mut s = State::new();
    let mut p = Peer::new(&mut s, 7);
    let mut other = Peer::new(&mut s, 8);
    let r = process_frames(&frame(Command::Handshake(0, 42)), &mut p, &mut s);
    assert!(!r.closed);
    assert!(r.deliveries.is_empty());
    assert_eq!(p.outbox, vec![Command::Handshaken(Status::OK, 0)]);
    assert!(p.is_registered());
    let r = process_frames(&frame(Command::PlaceTile(1, 0, 0, 0)), &mut p, &mut s);
    assert_eq!(
        r.deliveries,
        vec![(7, Command::UpdateTile(0, 1, 0, 0, 0)), (8, Command::UpdateTile(0, 1, 0, 0, 0))]
    );
    let r = process_frames(&frame(Command::PlaceTile(1, 0, 0, 0)), &mut p, &mut s);
    assert!(r.deliveries.is_empty());
    assert_eq!(s.region_tiles(1).len(), 1);
    assert!(!other.is_registered());
    let _ = &mut other;
}

#[test]
fn version_mismatch_scenario() {
    let mut s = State::new();
    let mut p = Peer::new(&mut s, 7);
    let r = process_frames(&frame(Command::Handshake(1, 42)), &mut p, &mut s);
    assert!(!r.closed);
    assert!(r.deliveries.is_empty());
    assert_eq!(p.outbox, vec![Command::Response(Status::VersionMismatch)]);
    assert!(!p.is_registered());
    assert_eq!(p.id, None);
    assert_eq!(s.peers, vec![7]);
    assert!(s.id_map.is_empty());
}

#[test]
fn second_handshake_is_an_error() {
    let mut s = State::new();
    let mut p = Peer::new(&mut s, 7);
    handle_command(Command::Handshake(0, 42), &mut p, &mut s);
    handle_command(Command::Handshake(0, 43), &mut p, &mut s);
    assert_eq!(
        p.outbox,
        vec![Command::Handshaken(Status::OK, 0), Command::Response(Status::ERR)]
    );
    assert_eq!(p.uid, Some(42));
    assert_eq!(s.id_map, vec![42]);
}

#[test]
fn unregistered_placement_is_ignored() {
    let mut s = State::new();
    let mut p = Peer::new(&mut s, 7);
    let out = handle_command(Command::PlaceTile(1, 2, 3, 4), &mut p, &mut s);
    assert!(out.is_empty());
    assert!(s.map.is_empty());
    assert!(p.outbox.is_empty());
}

#[test]
fn bad_frame_drops_rest_of_read() {
    let mut s = State::new();
    let mut p = Peer::new(&mut s, 7);
    let mut buf = frame(Command::Handshake(0, 1));
    buf.push(9);
    buf.extend(frame(Command::PlaceTile(0, 0, 0, 0)));
    let r = process_frames(&buf, &mut p, &mut s);
    assert!(!r.closed);
    assert!(s.map.is_empty());
    assert_eq!(p.outbox, vec![Command::Handshaken(Status::OK, 0)]);
    assert_eq!(s.peers, vec![7]);
}

#[test]
fn several_frames_in_one_read() {
    let mut s = State::new();
    let mut p = Peer::new(&mut s, 7);
    let mut buf = frame(Command::Handshake(0, 1));
    buf.extend(frame(Command::PlaceTile(0, 1, 0, 0)));
    buf.extend(frame(Command::PlaceTile(0, 2, 0, 0)));
    buf.extend(frame(Command::Disconnect));
    buf.extend(frame(Command::PlaceTile(0, 3, 0, 0)));
    let r = process_frames(&buf, &mut p, &mut s);
    assert!(r.closed);
    assert_eq!(r.deliveries.len(), 2);
    assert_eq!(s.map.len(), 2);
    assert!(s.peers.is_empty());
}

#[test]
fn restore_from_parts() {
    let ok = State::from_parts(vec![5, 6], vec![(1, tile(0, 0, 0, 0, 1)), (2, tile(0, 0, 0, 1, 2))]);
    let s = ok.unwrap();
    assert_eq!(s.id_map, vec![5, 6]);
    assert_eq!(s.map.len(), 2);
    assert!(s.peers.is_empty());
    assert!(matches!(State::from_parts(vec![5, 5], vec![]), Err(PersistenceError::Corrupt)));
    assert!(matches!(
        State::from_parts(vec![], vec![(1, tile(0, 0, 0, 0, 1)), (1, tile(0, 0, 0, 1, 2))]),
        Err(PersistenceError::Corrupt)
    ));
    assert!(matches!(State::from_parts((0..257).collect(), vec![]), Err(PersistenceError::Corrupt)));
}

#[test]
fn peer_registry_add_and_remove() {
    let mut s = State::new();
    s.add_peer(1);
    s.add_peer(2);
    s.add_peer(1);
    assert_eq!(s.peers, vec![1, 2]);
    s.remove_peer(1);
    assert_eq!(s.peers, vec![2]);
    s.remove_peer(9);
    assert_eq!(s.peers, vec![2]);
}
