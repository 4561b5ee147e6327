use tilesync::command::{Command, CommandMap, ProtocolError, Status};

fn encode(c: Command) -> Vec<u8> {
    let mut buf = Vec::new();
    let n = c.into_bytes(&mut buf);
    assert_eq!(n, buf.len());
    buf
}

fn all_variants() -> Vec<Command> {
    vec![
        Command::Response(Status::OK),
        Command::Response(Status::ERR),
        Command::Response(Status::VersionMismatch),
        Command::Handshake(0, 42),
        Command::Handshake(255, u64::MAX),
        Command::Handshake(7, 0x0102_0304_0506_0708),
        Command::PlaceTile(1, 0, 0, 0),
        Command::PlaceTile(i32::MIN, -1, i32::MAX, 123456),
        Command::UpdateTile(0, 1, 0, 0, 0),
        Command::UpdateTile(255, -5, i32::MIN, 77, i32::MAX),
        Command::Disconnect,
        Command::Handshaken(Status::OK, 0),
        Command::Handshaken(Status::VersionMismatch, 200),
    ]
}

#[test]
fn round_trip_every_variant() {
    for c in all_variants() {
        let bytes = encode(c);
        assert_eq!(Command::decode_any(&bytes, 0), Ok((c, bytes.len())));
    }
}

#[test]
fn round_trip_back_to_back_frames() {
    let cs = all_variants();
    let mut buf = Vec::new();
    for c in &cs {
        buf.extend(encode(*c));
    }
    let mut pos = 0;
    for c in &cs {
        let (d, next) = Command::decode_any(&buf, pos).unwrap();
        assert_eq!(d, *c);
        pos = next;
    }
    assert_eq!(pos, buf.len());
}

#[test]
fn frame_sizes() {
    assert_eq!(encode(Command::Response(Status::OK)).len(), 2);
    assert_eq!(encode(Command::Handshake(0, 1)).len(), 10);
    assert_eq!(encode(Command::PlaceTile(1, 2, 3, 4)).len(), 17);
    assert_eq!(encode(Command::UpdateTile(1, 2, 3, 4, 5)).len(), 18);
    assert_eq!(encode(Command::Disconnect).len(), 1);
    assert_eq!(encode(Command::Handshaken(Status::OK, 3)).len(), 3);
}

#[test]
fn encoding_is_big_endian() {
    assert_eq!(
        encode(Command::Handshake(0, 0x0102_0304_0506_0708)),
        vec![1, 0, 1, 2, 3, 4, 5, 6, 7, 8]
    );
    assert_eq!(
        encode(Command::PlaceTile(1, -1, 256, 0x7f00_0001)),
        vec![2, 0, 0, 0, 1, 255, 255, 255, 255, 0, 0, 1, 0, 0x7f, 0, 0, 1]
    );
    assert_eq!(
        encode(Command::UpdateTile(9, 0, 0, 0, 2)),
        vec![3, 9, 0, 0, 0, 0, 0, 0, 0, 0, 0, 0, 0, 0, 0, 0, 0, 2]
    );
    assert_eq!(encode(Command::Response(Status::VersionMismatch)), vec![0, 2]);
    assert_eq!(encode(Command::Handshaken(Status::ERR, 4)), vec![5, 1, 4]);
    assert_eq!(encode(Command::Disconnect), vec![4]);
}

#[test]
fn encoding_overwrites_from_start() {
    let mut buf = vec![9u8, 9, 9];
    let n = Command::Disconnect.into_bytes(&mut buf);
    assert_eq!(n, 1);
    assert_eq!(buf, vec![4, 9, 9]);
    let mut buf = vec![9u8, 9, 9];
    let n = Command::Response(Status::VersionMismatch).into_bytes(&mut buf);
    assert_eq!(n, 2);
    assert_eq!(buf, vec![0, 2, 9]);
    let mut buf = vec![9u8, 9];
    let n = Command::Handshaken(Status::OK, 7).into_bytes(&mut buf);
    assert_eq!(n, 3);
    assert_eq!(buf, vec![5, 0, 7]);
}

#[test]
fn client_frames_decode() {
    let bytes = vec![1, 0, 0, 0, 0, 0, 0, 0, 0, 42];
    assert_eq!(Command::decode(&bytes, 0), Ok((Command::Handshake(0, 42), 10)));
    let bytes = vec![2, 0, 0, 0, 1, 0, 0, 0, 0, 255, 255, 255, 254, 0, 0, 0, 3];
    assert_eq!(Command::decode(&bytes, 0), Ok((Command::PlaceTile(1, 0, -2, 3), 17)));
    assert_eq!(Command::decode(&[4], 0), Ok((Command::Disconnect, 1)));
}

#[test]
fn unknown_tag_is_refused() {
    assert_eq!(Command::decode(&[6], 0), Err(ProtocolError::UnknownCommand));
    assert_eq!(Command::decode(&[200, 1, 2], 0), Err(ProtocolError::UnknownCommand));
    assert_eq!(Command::decode_any(&[9], 0), Err(ProtocolError::UnknownCommand));
}

#[test]
fn truncated_frames_are_refused() {
    assert_eq!(Command::decode(&[], 0), Err(ProtocolError::Truncated));
    assert_eq!(Command::decode(&[1, 0, 0, 0], 0), Err(ProtocolError::Truncated));
    assert_eq!(Command::decode(&[2, 0, 0, 0, 1, 0, 0], 0), Err(ProtocolError::Truncated));
    assert_eq!(Command::decode(&[4], 1), Err(ProtocolError::Truncated));
    assert_eq!(Command::decode_any(&[5, 0], 0), Err(ProtocolError::Truncated));
}

#[test]
fn server_frames_from_client_are_refused() {
    assert_eq!(Command::decode(&[0, 0], 0), Err(ProtocolError::IllegalDirection));
    assert_eq!(
        Command::decode(&encode(Command::UpdateTile(0, 1, 0, 0, 0)), 0),
        Err(ProtocolError::IllegalDirection)
    );
    assert_eq!(Command::decode(&[5, 0, 0], 0), Err(ProtocolError::IllegalDirection));
    assert_eq!(Command::decode(&[3], 0), Err(ProtocolError::IllegalDirection));
}

#[test]
fn bad_status_byte_is_refused() {
    assert_eq!(Command::decode_any(&[0, 3], 0), Err(ProtocolError::UnknownStatus));
    assert_eq!(Command::decode_any(&[5, 9, 0], 0), Err(ProtocolError::UnknownStatus));
}

#[test]
fn tags_and_status_bytes() {
    assert_eq!(CommandMap::from_tag(0), Ok(CommandMap::Response));
    assert_eq!(CommandMap::from_tag(5), Ok(CommandMap::Handshaken));
    assert_eq!(CommandMap::from_tag(6), Err(ProtocolError::UnknownCommand));
    assert_eq!(CommandMap::PlaceTile.tag(), 2);
    assert_eq!(Status::VersionMismatch.to_byte(), 2);
    assert_eq!(Status::from_byte(1), Some(Status::ERR));
    assert_eq!(Status::from_byte(3), None);
}
