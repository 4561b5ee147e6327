use vstd::prelude::*;

verus! {

/// The protocol version this server speaks.
pub const VERSION: u8 = 0;

/// Outcome carried by `Response` and `Handshaken` frames.
#[derive(Clone, Copy, Debug, PartialEq, Eq, Structural)]
pub enum Status {
    OK,
    ERR,
    VersionMismatch,
}

/// The wire tag of each command.
#[derive(Clone, Copy, Debug, PartialEq, Eq, Structural)]
pub enum CommandMap {
    Response,
    Handshake,
    PlaceTile,
    UpdateTile,
    Disconnect,
    Handshaken,
}

/// One frame of the protocol.
#[derive(Clone, Copy, Debug, PartialEq, Eq, Structural)]
pub enum Command {
    Response(Status),
    Handshake(u8, u64),
    PlaceTile(i32, i32, i32, i32),
    UpdateTile(u8, i32, i32, i32, i32),
    Disconnect,
    Handshaken(Status, u8),
}

/// Why a frame could not be decoded.
#[derive(Clone, Copy, Debug, PartialEq, Eq, Structural)]
pub enum ProtocolError {
    /// The tag byte names no command.
    UnknownCommand,
    /// Fewer bytes remain than the frame needs.
    Truncated,
    /// A server-to-client frame arrived from a client.
    IllegalDirection,
    /// A status byte names no status.
    UnknownStatus,
}

impl Status {
    /// The ordinal byte of the status.
    pub open spec fn byte_spec(self) -> u8 {
        match self {
            Status::OK => 0,
            Status::ERR => 1,
            Status::VersionMismatch => 2,
        }
    }

    /// The status with ordinal byte `b`, if any.
    pub open spec fn from_byte_spec(b: u8) -> Option<Status> {
        if b == 0 {
            Some(Status::OK)
        } else if b == 1 {
            Some(Status::ERR)
        } else if b == 2 {
            Some(Status::VersionMismatch)
        } else {
            None
        }
    }

    /// The status's ordinal byte.
    pub fn to_byte(self) -> (r: u8)
        ensures
            r == self.byte_spec(),
    {
        match self {
            Status::OK => 0,
            Status::ERR => 1,
            Status::VersionMismatch => 2,
        }
    }

    /// The status whose ordinal is `b`, if any.
    pub fn from_byte(b: u8) -> (r: Option<Status>)
        ensures
            r == Status::from_byte_spec(b),
    {
        if b == 0 {
            Some(Status::OK)
        } else if b == 1 {
            Some(Status::ERR)
        } else if b == 2 {
            Some(Status::VersionMismatch)
        } else {
            None
        }
    }
}

impl CommandMap {
    /// The wire tag of the command kind.
    pub open spec fn tag_spec(self) -> u8 {
        match self {
            CommandMap::Response => 0,
            CommandMap::Handshake => 1,
            CommandMap::PlaceTile => 2,
            CommandMap::UpdateTile => 3,
            CommandMap::Disconnect => 4,
            CommandMap::Handshaken => 5,
        }
    }

    /// The command kind with wire tag `num`, or `UnknownCommand`.
    pub open spec fn from_tag_spec(num: u8) -> Result<CommandMap, ProtocolError> {
        if num == 0 {
            Ok(CommandMap::Response)
        } else if num == 1 {
            Ok(CommandMap::Handshake)
        } else if num == 2 {
            Ok(CommandMap::PlaceTile)
        } else if num == 3 {
            Ok(CommandMap::UpdateTile)
        } else if num == 4 {
            Ok(CommandMap::Disconnect)
        } else if num == 5 {
            Ok(CommandMap::Handshaken)
        } else {
            Err(ProtocolError::UnknownCommand)
        }
    }

    /// Frames with this tag travel only from server to client.
    pub open spec fn server_only(self) -> bool {
        self == CommandMap::Response || self == CommandMap::UpdateTile || self
            == CommandMap::Handshaken
    }

    /// Number of payload bytes that follow the tag byte.
    pub open spec fn payload_len(self) -> nat {
        match self {
            CommandMap::Response => 1,
            CommandMap::Handshake => 9,
            CommandMap::PlaceTile => 16,
            CommandMap::UpdateTile => 17,
            CommandMap::Disconnect => 0,
            CommandMap::Handshaken => 2,
        }
    }

    /// The tag byte of this command kind.
    pub fn tag(self) -> (r: u8)
        ensures
            r == self.tag_spec(),
    {
        match self {
            CommandMap::Response => 0,
            CommandMap::Handshake => 1,
            CommandMap::PlaceTile => 2,
            CommandMap::UpdateTile => 3,
            CommandMap::Disconnect => 4,
            CommandMap::Handshaken => 5,
        }
    }

    /// The command kind with wire tag `num`; an unknown tag is an error.
    pub fn from_tag(num: u8) -> (r: Result<CommandMap, ProtocolError>)
        ensures
            r == CommandMap::from_tag_spec(num),
            r matches Ok(m) ==> m.tag_spec() == num,
    {
        if num == 0 {
            Ok(CommandMap::Response)
        } else if num == 1 {
            Ok(CommandMap::Handshake)
        } else if num == 2 {
            Ok(CommandMap::PlaceTile)
        } else if num == 3 {
            Ok(CommandMap::UpdateTile)
        } else if num == 4 {
            Ok(CommandMap::Disconnect)
        } else if num == 5 {
            Ok(CommandMap::Handshaken)
        } else {
            Err(ProtocolError::UnknownCommand)
        }
    }
}

/// Big-endian bytes of a 32-bit value.
pub open spec fn be_u32(u: u32) -> Seq<u8> {
    seq![
        ((u >> 24u32) & 0xffu32) as u8,
        ((u >> 16u32) & 0xffu32) as u8,
        ((u >> 8u32) & 0xffu32) as u8,
        (u & 0xffu32) as u8,
    ]
}

/// Big-endian bytes of a 64-bit value.
pub open spec fn be_u64(u: u64) -> Seq<u8> {
    be_u32((u >> 32u64) as u32) + be_u32((u & 0xffff_ffffu64) as u32)
}

/// The 32-bit value held big-endian in `s[i..i+4]`.
pub open spec fn read_u32(s: Seq<u8>, i: int) -> u32 {
    ((s[i] as u32) << 24u32) | ((s[i + 1] as u32) << 16u32) | ((s[i + 2] as u32) << 8u32) | (
    s[i + 3] as u32)
}

/// The 64-bit value held big-endian in `s[i..i+8]`.
pub open spec fn read_u64(s: Seq<u8>, i: int) -> u64 {
    ((read_u32(s, i) as u64) << 32u64) | (read_u32(s, i + 4) as u64)
}

/// The signed 32-bit value held big-endian in `s[i..i+4]`.
pub open spec fn read_i32(s: Seq<u8>, i: int) -> i32 {
    read_u32(s, i) as i32
}

/// Big-endian bytes of a signed 32-bit value, in two's complement.
pub open spec fn be_i32(v: i32) -> Seq<u8> {
    be_u32(v as u32)
}

impl Command {
    /// The tag under which this command travels.
    pub open spec fn kind(self) -> CommandMap {
        match self {
            Command::Response(_) => CommandMap::Response,
            Command::Handshake(_, _) => CommandMap::Handshake,
            Command::PlaceTile(_, _, _, _) => CommandMap::PlaceTile,
            Command::UpdateTile(_, _, _, _, _) => CommandMap::UpdateTile,
            Command::Disconnect => CommandMap::Disconnect,
            Command::Handshaken(_, _) => CommandMap::Handshaken,
        }
    }

    /// The frame of this command: its tag byte, then its fields in order.
    pub open spec fn encode_spec(self) -> Seq<u8> {
        seq![self.kind().tag_spec()] + match self {
            Command::Response(s) => seq![s.byte_spec()],
            Command::Handshake(v, h) => seq![v] + be_u64(h),
            Command::PlaceTile(r, x, y, z) => be_i32(r) + be_i32(x) + be_i32(y) + be_i32(z),
            Command::UpdateTile(id, r, x, y, z) => seq![id] + be_i32(r) + be_i32(x) + be_i32(y)
                + be_i32(z),
            Command::Disconnect => Seq::empty(),
            Command::Handshaken(s, id) => seq![s.byte_spec(), id],
        }
    }
}

/// The command of kind `m` whose payload starts at `s[p]`; `None` when a
/// status byte there names no status.
pub open spec fn payload_spec(m: CommandMap, s: Seq<u8>, p: int) -> Option<Command> {
    match m {
        CommandMap::Response => match Status::from_byte_spec(s[p]) {
            Some(st) => Some(Command::Response(st)),
            None => None,
        },
        CommandMap::Handshake => Some(Command::Handshake(s[p], read_u64(s, p + 1))),
        CommandMap::PlaceTile => Some(
            Command::PlaceTile(
                read_i32(s, p),
                read_i32(s, p + 4),
                read_i32(s, p + 8),
                read_i32(s, p + 12),
            ),
        ),
        CommandMap::UpdateTile => Some(
            Command::UpdateTile(
                s[p],
                read_i32(s, p + 1),
                read_i32(s, p + 5),
                read_i32(s, p + 9),
                read_i32(s, p + 13),
            ),
        ),
        CommandMap::Disconnect => Some(Command::Disconnect),
        CommandMap::Handshaken => match Status::from_byte_spec(s[p]) {
            Some(st) => Some(Command::Handshaken(st, s[p + 1])),
            None => None,
        },
    }
}

/// Decoding of the frame at `s[pos]`: the command and the position just
/// past the frame, or why there is none.
pub open spec fn decode_spec(s: Seq<u8>, pos: int) -> Result<(Command, int), ProtocolError> {
    if pos >= s.len() {
        Err(ProtocolError::Truncated)
    } else {
        match CommandMap::from_tag_spec(s[pos]) {
            Err(e) => Err(e),
            Ok(m) => if pos + 1 + m.payload_len() > s.len() {
                Err(ProtocolError::Truncated)
            } else {
                match payload_spec(m, s, pos + 1) {
                    Some(c) => Ok((c, pos + 1 + m.payload_len())),
                    None => Err(ProtocolError::UnknownStatus),
                }
            },
        }
    }
}

/// Decoding of a frame sent by a client: server-only tags are refused
/// before anything else is read.
pub open spec fn decode_client_spec(s: Seq<u8>, pos: int) -> Result<
    (Command, int),
    ProtocolError,
> {
    if pos < s.len() && (CommandMap::from_tag_spec(s[pos]) matches Ok(m) && m.server_only()) {
        Err(ProtocolError::IllegalDirection)
    } else {
        decode_spec(s, pos)
    }
}

fn put_u32(buf: &mut Vec<u8>, u: u32)
    ensures
        final(buf)@ == old(buf)@ + be_u32(u),
{
    buf.push(((u >> 24u32) & 0xffu32) as u8);
    buf.push(((u >> 16u32) & 0xffu32) as u8);
    buf.push(((u >> 8u32) & 0xffu32) as u8);
    buf.push((u & 0xffu32) as u8);
    assert(buf@ =~= old(buf)@ + be_u32(u));
}

fn put_u64(buf: &mut Vec<u8>, u: u64)
    ensures
        final(buf)@ == old(buf)@ + be_u64(u),
{
    put_u32(buf, (u >> 32u64) as u32);
    put_u32(buf, (u & 0xffff_ffffu64) as u32);
    assert(buf@ =~= old(buf)@ + be_u64(u));
}

fn get_u32(buf: &[u8], i: usize) -> (r: u32)
    requires
        i + 4 <= buf@.len(),
    ensures
        r == read_u32(buf@, i as int),
{
    ((buf[i] as u32) << 24u32) | ((buf[i + 1] as u32) << 16u32) | ((buf[i + 2] as u32) << 8u32)
        | (buf[i + 3] as u32)
}

fn get_u64(buf: &[u8], i: usize) -> (r: u64)
    requires
        i + 8 <= buf@.len(),
    ensures
        r == read_u64(buf@, i as int),
{
    let hi = get_u32(buf, i);
    // the slice's length fits in usize, so `i + 4` does not overflow
    let _n: usize = buf.len();
    let lo = get_u32(buf, i + 4);
    ((hi as u64) << 32u64) | (lo as u64)
}

fn get_i32(buf: &[u8], i: usize) -> (r: i32)
    requires
        i + 4 <= buf@.len(),
    ensures
        r == read_i32(buf@, i as int),
{
    get_u32(buf, i) as i32
}

impl Command {
    /// Writes this command's frame into `buf` from index 0 and returns its
    /// length. Bytes of `buf` past the frame are kept; `buf` grows only
    /// where the frame is longer than it.
    pub fn into_bytes(&self, buf: &mut Vec<u8>) -> (r: usize)
        ensures
            r == self.encode_spec().len(),
            final(buf)@.len() == (if old(buf)@.len() > r { old(buf)@.len() } else { r as nat }),
            final(buf)@.subrange(0, r as int) == self.encode_spec(),
            forall|k: int| r <= k < old(buf)@.len() ==> final(buf)@[k] == old(buf)@[k],
    {
        let mut frame: Vec<u8> = Vec::new();
        let n = self.append_frame(&mut frame);
        assert(frame@ =~= self.encode_spec());
        let mut i: usize = 0;
        while i < n
            invariant
                n == frame@.len(),
                i <= n,
                buf@.len() == (if old(buf)@.len() > i { old(buf)@.len() } else { i as nat }),
                forall|k: int| 0 <= k < i ==> buf@[k] == frame@[k],
                forall|k: int| i <= k < old(buf)@.len() ==> buf@[k] == old(buf)@[k],
            decreases n - i,
        {
            if i < buf.len() {
                buf.set(i, frame[i]);
            } else {
                buf.push(frame[i]);
            }
            i = i + 1;
        }
        assert(buf@.subrange(0, n as int) =~= frame@);
        n
    }

    /// Appends this command's frame to `buf` and returns its length.
    fn append_frame(&self, buf: &mut Vec<u8>) -> (r: usize)
        ensures
            final(buf)@ == old(buf)@ + self.encode_spec(),
            r == self.encode_spec().len(),
    {
        match *self {
            Command::Response(status) => {
                buf.push(0u8);
                buf.push(status.to_byte());
                assert(buf@ =~= old(buf)@ + self.encode_spec());
                2
            },
            Command::Handshake(v, h) => {
                buf.push(1u8);
                buf.push(v);
                put_u64(buf, h);
                assert(buf@ =~= old(buf)@ + self.encode_spec());
                10
            },
            Command::PlaceTile(r, x, y, z) => {
                buf.push(2u8);
                put_u32(buf, r as u32);
                put_u32(buf, x as u32);
                put_u32(buf, y as u32);
                put_u32(buf, z as u32);
                assert(buf@ =~= old(buf)@ + self.encode_spec());
                17
            },
            Command::UpdateTile(id, r, x, y, z) => {
                buf.push(3u8);
                buf.push(id);
                put_u32(buf, r as u32);
                put_u32(buf, x as u32);
                put_u32(buf, y as u32);
                put_u32(buf, z as u32);
                assert(buf@ =~= old(buf)@ + self.encode_spec());
                18
            },
            Command::Disconnect => {
                buf.push(4u8);
                assert(buf@ =~= old(buf)@ + self.encode_spec());
                1
            },
            Command::Handshaken(status, id) => {
                buf.push(5u8);
                buf.push(status.to_byte());
                buf.push(id);
                assert(buf@ =~= old(buf)@ + self.encode_spec());
                3
            },
        }
    }

    /// Decodes the frame that starts at `buf[pos]`, whatever its direction.
    /// On success returns the command and the position just past its frame.
    pub fn decode_any(buf: &[u8], pos: usize) -> (r: Result<(Command, usize), ProtocolError>)
        ensures
            r matches Ok((c, n)) ==> decode_spec(buf@, pos as int) == Ok::<(Command, int), ProtocolError>((c, n as int)),
            r matches Ok((c, n)) ==> pos < n <= buf@.len(),
            r matches Err(e) ==> decode_spec(buf@, pos as int) == Err::<(Command, int), ProtocolError>(e),
    {
        if pos >= buf.len() {
            return Err(ProtocolError::Truncated);
        }
        let m = match CommandMap::from_tag(buf[pos]) {
            Ok(m) => m,
            Err(e) => {
                return Err(e);
            },
        };
        let p = pos + 1;
        let need: usize = match m {
            CommandMap::Response => 1,
            CommandMap::Handshake => 9,
            CommandMap::PlaceTile => 16,
            CommandMap::UpdateTile => 17,
            CommandMap::Disconnect => 0,
            CommandMap::Handshaken => 2,
        };
        if need > buf.len() - p {
            return Err(ProtocolError::Truncated);
        }
        let c = match m {
            CommandMap::Response => match Status::from_byte(buf[p]) {
                Some(st) => Command::Response(st),
                None => {
                    return Err(ProtocolError::UnknownStatus);
                },
            },
            CommandMap::Handshake => Command::Handshake(buf[p], get_u64(buf, p + 1)),
            CommandMap::PlaceTile => Command::PlaceTile(
                get_i32(buf, p),
                get_i32(buf, p + 4),
                get_i32(buf, p + 8),
                get_i32(buf, p + 12),
            ),
            CommandMap::UpdateTile => Command::UpdateTile(
                buf[p],
                get_i32(buf, p + 1),
                get_i32(buf, p + 5),
                get_i32(buf, p + 9),
                get_i32(buf, p + 13),
            ),
            CommandMap::Disconnect => Command::Disconnect,
            CommandMap::Handshaken => match Status::from_byte(buf[p]) {
                Some(st) => Command::Handshaken(st, buf[p + 1]),
                None => {
                    return Err(ProtocolError::UnknownStatus);
                },
            },
        };
        Ok((c, p + need))
    }

    /// Decodes a frame sent by a client, starting at `buf[pos]`. Frames
    /// that only a server sends are refused with `IllegalDirection`.
    pub fn decode(buf: &[u8], pos: usize) -> (r: Result<(Command, usize), ProtocolError>)
        ensures
            r matches Ok((c, n)) ==> decode_client_spec(buf@, pos as int) == Ok::<(Command, int), ProtocolError>((c, n as int)),
            r matches Ok((c, n)) ==> pos < n <= buf@.len(),
            r matches Err(e) ==> decode_client_spec(buf@, pos as int) == Err::<(Command, int), ProtocolError>(e),
    {
        if pos < buf.len() {
            match CommandMap::from_tag(buf[pos]) {
                Ok(CommandMap::Response) | Ok(CommandMap::UpdateTile) | Ok(
                    CommandMap::Handshaken,
                ) => {
                    return Err(ProtocolError::IllegalDirection);
                },
                _ => {},
            }
        }
        Command::decode_any(buf, pos)
    }
}

proof fn lemma_u32_bytes(u: u32)
    by (bit_vector)
    ensures
        ((((u >> 24u32) & 0xffu32) as u8 as u32) << 24u32) | ((((u >> 16u32) & 0xffu32) as u8 as u32)
            << 16u32) | ((((u >> 8u32) & 0xffu32) as u8 as u32) << 8u32) | ((u & 0xffu32) as u8 as u32)
            == u,
{
}

proof fn lemma_u64_halves(u: u64)
    by (bit_vector)
    ensures
        ((((u >> 32u64) as u32) as u64) << 32u64) | (((u & 0xffff_ffffu64) as u32) as u64) == u,
{
}

proof fn lemma_read_u32(s: Seq<u8>, i: int, u: u32)
    requires
        0 <= i,
        i + 4 <= s.len(),
        s.subrange(i, i + 4) == be_u32(u),
    ensures
        read_u32(s, i) == u,
{
    assert(s[i] == s.subrange(i, i + 4)[0]);
    assert(s[i + 1] == s.subrange(i, i + 4)[1]);
    assert(s[i + 2] == s.subrange(i, i + 4)[2]);
    assert(s[i + 3] == s.subrange(i, i + 4)[3]);
    lemma_u32_bytes(u);
}

proof fn lemma_read_i32(s: Seq<u8>, i: int, v: i32)
    requires
        0 <= i,
        i + 4 <= s.len(),
        s.subrange(i, i + 4) =~= be_i32(v),
    ensures
        read_i32(s, i) == v,
{
    lemma_read_u32(s, i, v as u32);
    lemma_i32_u32(v);
}

proof fn lemma_i32_u32(v: i32)
    by (bit_vector)
    ensures
        (v as u32) as i32 == v,
{
}

proof fn lemma_read_u64(s: Seq<u8>, i: int, u: u64)
    requires
        0 <= i,
        i + 8 <= s.len(),
        s.subrange(i, i + 8) =~= be_u64(u),
    ensures
        read_u64(s, i) == u,
{
    let hi = be_u32((u >> 32u64) as u32);
    let lo = be_u32((u & 0xffff_ffffu64) as u32);
    let w = s.subrange(i, i + 8);
    assert(w == hi + lo);
    assert(forall|k: int| 0 <= k < 4 ==> s[i + k] == #[trigger] w[k]);
    assert(forall|k: int| 0 <= k < 4 ==> s[i + 4 + k] == #[trigger] w[4 + k]);
    assert(forall|k: int| 0 <= k < 4 ==> #[trigger] lo[k] == (hi + lo)[4 + k]);
    assert(s.subrange(i, i + 4) =~= hi);
    assert(s.subrange(i + 4, i + 8) =~= lo);
    lemma_read_u32(s, i, (u >> 32u64) as u32);
    lemma_read_u32(s, i + 4, (u & 0xffff_ffffu64) as u32);
    lemma_u64_halves(u);
}

/// Decoding the frame of any command gives the command back, and ends
/// just past the frame, whatever bytes stand before and after it.
pub proof fn lemma_round_trip(c: Command, pre: Seq<u8>, post: Seq<u8>)
    ensures
        decode_spec(pre + c.encode_spec() + post, pre.len() as int) == Ok::<(Command, int), ProtocolError>(
            (c, (pre.len() + c.encode_spec().len()) as int),
        ),
{
    let e = c.encode_spec();
    let s = pre + e + post;
    let p = pre.len() as int;
    assert(s[p] == e[0]);
    assert(forall|k: int| 0 <= k < e.len() ==> s[p + k] == e[k]);
    match c {
        Command::Response(st) => {
            assert(s[p + 1] == e[1]);
        },
        Command::Handshake(v, h) => {
            assert(s[p + 1] == e[1]);
            assert(s.subrange(p + 2, p + 10) =~= be_u64(h));
            lemma_read_u64(s, p + 2, h);
        },
        Command::PlaceTile(r, x, y, z) => {
            assert(s.subrange(p + 1, p + 5) =~= be_i32(r));
            assert(s.subrange(p + 5, p + 9) =~= be_i32(x));
            assert(s.subrange(p + 9, p + 13) =~= be_i32(y));
            assert(s.subrange(p + 13, p + 17) =~= be_i32(z));
            lemma_read_i32(s, p + 1, r);
            lemma_read_i32(s, p + 5, x);
            lemma_read_i32(s, p + 9, y);
            lemma_read_i32(s, p + 13, z);
        },
        Command::UpdateTile(id, r, x, y, z) => {
            assert(s[p + 1] == e[1]);
            assert(s.subrange(p + 2, p + 6) =~= be_i32(r));
            assert(s.subrange(p + 6, p + 10) =~= be_i32(x));
            assert(s.subrange(p + 10, p + 14) =~= be_i32(y));
            assert(s.subrange(p + 14, p + 18) =~= be_i32(z));
            lemma_read_i32(s, p + 2, r);
            lemma_read_i32(s, p + 6, x);
            lemma_read_i32(s, p + 10, y);
            lemma_read_i32(s, p + 14, z);
        },
        Command::Disconnect => {},
        Command::Handshaken(st, id) => {
            assert(s[p + 1] == e[1]);
            assert(s[p + 2] == e[2]);
        },
    }
}

/// A frame that a client may send decodes, on the server's side, to the
/// command it was made from.
pub proof fn lemma_client_round_trip(c: Command, pre: Seq<u8>, post: Seq<u8>)
    requires
        !c.kind().server_only(),
    ensures
        decode_client_spec(pre + c.encode_spec() + post, pre.len() as int) == Ok::<
            (Command, int),
            ProtocolError,
        >((c, (pre.len() + c.encode_spec().len()) as int)),
{
    lemma_round_trip(c, pre, post);
    let s = pre + c.encode_spec() + post;
    assert(s[pre.len() as int] == c.encode_spec()[0]);
}

} // verus!
