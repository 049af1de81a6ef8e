//! The chat of a live room: the packets that the server sends, what of it is recorded, and
//! where to connect.

use crate::flv::{append_bytes, copy_range};
use crate::json::{
    field, fields_view, integer_at, lemma_field_at, lemma_no_field, lemma_object_view, or_number,
    text_at, text_or_empty, Json, JsonView,
};
use crate::outside::{bytes_result, inflate, inflated, json_text, unbrotli, unbrotlied, write_json};
use crate::session::opt_text;
use crate::settings::LiveSettings;
use crate::text::{
    concat2, copy_text, decimal, extend, extend_text, i64_digits, i64_value, parse_i64, text_eq,
    texts, to_chars, to_text, trim, trim_text,
};
use vstd::prelude::*;
use vstd::utf8::encode_utf8;

verus! {

/// The length of the header of a packet.
pub const PACKET_HEADER_LEN: usize = 16;

/// The operation of a packet that carries a chat event.
pub const OP_EVENT: u32 = 5;

/// The operation of the packet that opens a session.
pub const OP_AUTH: u32 = 7;

/// The operation of a heartbeat.
pub const OP_HEARTBEAT: u32 = 2;

/// A packet of the chat protocol.
pub struct DanmakuPacket {
    pub op: u32,
    pub version: u16,
    pub body: Vec<u8>,
}

/// What a packet holds.
pub ghost struct PacketView {
    pub op: int,
    pub version: int,
    pub body: Seq<u8>,
}

impl DanmakuPacket {
    /// What a packet holds.
    pub open spec fn view(&self) -> PacketView {
        PacketView { op: self.op as int, version: self.version as int, body: self.body@ }
    }
}

/// The views of a list of packets.
pub open spec fn packet_views(v: Seq<DanmakuPacket>) -> Seq<PacketView> {
    Seq::new(v.len(), |i: int| v[i]@)
}

/// The number that two bytes spell in big endian order.
pub open spec fn be16(data: Seq<u8>, at: int) -> int {
    data[at] * 0x100 + data[at + 1]
}

/// The number that four bytes spell in big endian order.
pub open spec fn be32(data: Seq<u8>, at: int) -> int {
    data[at] * 0x100_0000 + data[at + 1] * 0x1_0000 + data[at + 2] * 0x100 + data[at + 3]
}

fn read_be16(data: &[u8], at: usize) -> (r: u16)
    requires
        at + 2 <= data@.len(),
        at + 2 <= usize::MAX,
    ensures
        r == be16(data@, at as int),
{
    (data[at] as u16) * 0x100 + (data[at + 1] as u16)
}

fn read_be32(data: &[u8], at: usize) -> (r: u32)
    requires
        at + 4 <= data@.len(),
        at + 4 <= usize::MAX,
    ensures
        r == be32(data@, at as int),
{
    (data[at] as u32) * 0x100_0000 + (data[at + 1] as u32) * 0x1_0000 + (data[at + 2] as u32)
        * 0x100 + (data[at + 3] as u32)
}

/// The length of the packet that the bytes begin with.
pub open spec fn packet_len(data: Seq<u8>) -> int {
    be32(data, 0)
}

/// The length of the header of the packet that the bytes begin with.
pub open spec fn header_len(data: Seq<u8>) -> int {
    be16(data, 4)
}

/// Tells whether the bytes begin with a whole packet.
pub open spec fn has_packet(data: Seq<u8>) -> bool {
    data.len() >= PACKET_HEADER_LEN && packet_len(data) <= data.len() && header_len(data)
        <= data.len()
}

/// Tells whether the packet that the bytes begin with has room for its own header.
pub open spec fn sound_packet(data: Seq<u8>) -> bool {
    header_len(data) <= packet_len(data)
}

/// The body of the packet that the bytes begin with.
pub open spec fn body_of(data: Seq<u8>) -> Seq<u8> {
    data.subrange(header_len(data), packet_len(data))
}

/// Packets behind others; what is wrong with the later ones is wrong with all.
pub open spec fn behind(
    first: Seq<PacketView>,
    rest: Option<Result<Seq<PacketView>, Seq<char>>>,
) -> Option<Result<Seq<PacketView>, Seq<char>>> {
    match rest {
        Some(Ok(packets)) => Some(Ok(first + packets)),
        other => other,
    }
}

/// The packets in the bytes. A packet of version two or three holds further packets in
/// compressed form. There is no result where a packet is unsound or has no length, unless
/// something is wrong with its content, or where packets are nested deeper than `depth`.
pub open spec fn unpacked(data: Seq<u8>, depth: nat) -> Option<
    Result<Seq<PacketView>, Seq<char>>,
>
    decreases depth, data.len(),
{
    let len = packet_len(data);
    if !has_packet(data) {
        Some(Ok(Seq::empty()))
    } else if !sound_packet(data) {
        None
    } else {
        let rest = data.skip(len);
        let version = be16(data, 6);
        if version == 2 || version == 3 {
            let content = if version == 2 {
                inflated(body_of(data))
            } else {
                unbrotlied(body_of(data))
            };
            match content {
                Ok(inner) => if depth == 0 {
                    None
                } else {
                    match unpacked(inner, (depth - 1) as nat) {
                        Some(Ok(packets)) => if len == 0 {
                            None
                        } else {
                            behind(packets, unpacked(rest, depth))
                        },
                        other => other,
                    }
                },
                Err(message) => Some(
                    Err(
                        (if version == 2 {
                            "zlib 解压失败: "@
                        } else {
                            "brotli 解压失败: "@
                        }) + message,
                    ),
                ),
            }
        } else if len == 0 {
            None
        } else {
            behind(
                seq![PacketView { op: be32(data, 8), version, body: body_of(data) }],
                unpacked(rest, depth),
            )
        }
    }
}

/// The views of a list of packets or an error.
pub open spec fn packets_result(r: Option<Result<Vec<DanmakuPacket>, String>>) -> Option<
    Result<Seq<PacketView>, Seq<char>>,
> {
    match r {
        Some(Ok(packets)) => Some(Ok(packet_views(packets@))),
        Some(Err(message)) => Some(Err(message@)),
        None => None,
    }
}

/// What a compressed body holds.
pub fn decompress_zlib(data: &[u8]) -> (r: Result<Vec<u8>, String>)
    ensures
        bytes_result(r) == (match inflated(data@) {
            Ok(bytes) => Ok::<Seq<u8>, Seq<char>>(bytes),
            Err(message) => Err("zlib 解压失败: "@ + message),
        }),
{
    match inflate(data) {
        Ok(bytes) => Ok(bytes),
        Err(message) => Err(concat2("zlib 解压失败: ", message.as_str())),
    }
}

/// What a compressed body holds.
pub fn decompress_brotli(data: &[u8]) -> (r: Result<Vec<u8>, String>)
    ensures
        bytes_result(r) == (match unbrotlied(data@) {
            Ok(bytes) => Ok::<Seq<u8>, Seq<char>>(bytes),
            Err(message) => Err("brotli 解压失败: "@ + message),
        }),
{
    match unbrotli(data) {
        Ok(bytes) => Ok(bytes),
        Err(message) => Err(concat2("brotli 解压失败: ", message.as_str())),
    }
}

/// The packets in the bytes, down to the given depth of nesting. There is no result where a
/// packet has no room for its own header or no length, or where packets are nested deeper.
pub fn parse_danmaku_packets(data: &[u8], depth: usize) -> (r: Option<
    Result<Vec<DanmakuPacket>, String>,
>)
    ensures
        packets_result(r) == unpacked(data@, depth as nat),
    decreases depth,
{
    let len: usize = data.len();
    let mut packets: Vec<DanmakuPacket> = Vec::new();
    let mut offset: usize = 0;
    assert(data@.skip(0) =~= data@);
    assert(packet_views(packets@) =~= Seq::<PacketView>::empty());
    proof {
        lemma_behind_nothing(unpacked(data@, depth as nat));
    }
    while len - offset >= PACKET_HEADER_LEN
        invariant
            offset <= len,
            len == data@.len(),
            behind(packet_views(packets@), unpacked(data@.skip(offset as int), depth as nat))
                == unpacked(data@, depth as nat),
        ensures
            !has_packet(data@.skip(offset as int)),
        decreases len - offset,
    {
        let ghost left = data@.skip(offset as int);
        let ghost before = packet_views(packets@);
        let packet_size: usize = read_be32(data, offset) as usize;
        let header_size: usize = read_be16(data, offset + 4) as usize;
        let version: u16 = read_be16(data, offset + 6);
        let op: u32 = read_be32(data, offset + 8);
        assert(packet_size == packet_len(left));
        assert(header_size == header_len(left));
        assert(version == be16(left, 6));
        assert(op == be32(left, 8));
        if packet_size > len - offset || header_size > len - offset {
            break ;
        }
        if header_size > packet_size {
            return None;
        }
        let body = copy_range(data, offset + header_size, offset + packet_size);
        assert(body@ =~= body_of(left));
        assert(left.skip(packet_size as int) =~= data@.skip(offset + packet_size));
        let ghost rest = unpacked(data@.skip(offset + packet_size), depth as nat);
        if version == 2 || version == 3 {
            let content = if version == 2 {
                decompress_zlib(body.as_slice())
            } else {
                decompress_brotli(body.as_slice())
            };
            match content {
                Ok(inner) => {
                    if depth == 0 {
                        return None;
                    }
                    match parse_danmaku_packets(inner.as_slice(), depth - 1) {
                        Some(Ok(more)) => {
                            let ghost added = packet_views(more@);
                            let mut more = more;
                            packets.append(&mut more);
                            assert(packet_views(packets@) =~= before + added);
                            proof {
                                lemma_behind_twice(before, added, rest);
                            }
                        },
                        Some(Err(message)) => {
                            return Some(Err(message));
                        },
                        None => {
                            return None;
                        },
                    }
                },
                Err(message) => {
                    return Some(Err(message));
                },
            }
        } else {
            packets.push(DanmakuPacket { op, version, body });
            let ghost added = seq![
                PacketView { op: op as int, version: version as int, body: body_of(left) },
            ];
            assert(packet_views(packets@) =~= before + added);
            proof {
                lemma_behind_twice(before, added, rest);
            }
        }
        if packet_size == 0 {
            return None;
        }
        offset += packet_size;
    }
    proof {
        assert(packet_views(packets@) + Seq::<PacketView>::empty() =~= packet_views(packets@));
    }
    Some(Ok(packets))
}

proof fn lemma_behind_nothing(rest: Option<Result<Seq<PacketView>, Seq<char>>>)
    ensures
        behind(Seq::empty(), rest) == rest,
{
    if let Some(Ok(packets)) = rest {
        assert(Seq::<PacketView>::empty() + packets =~= packets);
    }
}

proof fn lemma_behind_twice(
    a: Seq<PacketView>,
    b: Seq<PacketView>,
    rest: Option<Result<Seq<PacketView>, Seq<char>>>,
)
    ensures
        behind(a, behind(b, rest)) == behind(a + b, rest),
{
    if let Some(Ok(packets)) = rest {
        assert(a + (b + packets) =~= (a + b) + packets);
    }
}

// ---------------------------------------------------------------------------
// Building packets

/// The two bytes of a number in big endian order.
pub open spec fn bytes16(n: int) -> Seq<u8> {
    seq![(n / 0x100 % 0x100) as u8, (n % 0x100) as u8]
}

/// The four bytes of a number in big endian order.
pub open spec fn bytes32(n: int) -> Seq<u8> {
    seq![
        (n / 0x100_0000 % 0x100) as u8,
        (n / 0x1_0000 % 0x100) as u8,
        (n / 0x100 % 0x100) as u8,
        (n % 0x100) as u8,
    ]
}

/// The bytes of a packet: its length, the length of its header, the version one, its
/// operation, the number one and its body.
pub open spec fn packet_bytes(op: int, body: Seq<u8>) -> Seq<u8> {
    bytes32(PACKET_HEADER_LEN + body.len()) + bytes16(PACKET_HEADER_LEN as int) + bytes16(1)
        + bytes32(op) + bytes32(1) + body
}

fn push32(out: &mut Vec<u8>, n: u32)
    ensures
        final(out)@ == old(out)@ + bytes32(n as int),
{
    out.push((n / 0x100_0000 % 0x100) as u8);
    out.push((n / 0x1_0000 % 0x100) as u8);
    out.push((n / 0x100 % 0x100) as u8);
    out.push((n % 0x100) as u8);
    assert(out@ =~= old(out)@ + bytes32(n as int));
}

fn push16(out: &mut Vec<u8>, n: u16)
    ensures
        final(out)@ == old(out)@ + bytes16(n as int),
{
    out.push((n / 0x100 % 0x100) as u8);
    out.push((n % 0x100) as u8);
    assert(out@ =~= old(out)@ + bytes16(n as int));
}

/// The bytes of a packet.
pub fn build_danmaku_packet(op: u32, body: Vec<u8>) -> (r: Vec<u8>)
    requires
        PACKET_HEADER_LEN + body@.len() <= u32::MAX,
    ensures
        r@ == packet_bytes(op as int, body@),
{
    let mut out: Vec<u8> = Vec::new();
    push32(&mut out, PACKET_HEADER_LEN as u32 + body.len() as u32);
    push16(&mut out, PACKET_HEADER_LEN as u16);
    push16(&mut out, 1);
    push32(&mut out, op);
    push32(&mut out, 1);
    append_bytes(&mut out, body.as_slice());
    assert(out@ =~= packet_bytes(op as int, body@));
    out
}

/// Reading back what was built gives the operation and the body, and the packets behind it
/// are read on.
pub proof fn law_packet_round_trip(op: u32, body: Seq<u8>, rest: Seq<u8>, depth: nat)
    requires
        PACKET_HEADER_LEN + body.len() <= u32::MAX,
    ensures
        unpacked(packet_bytes(op as int, body) + rest, depth) == behind(
            seq![PacketView { op: op as int, version: 1, body }],
            unpacked(rest, depth),
        ),
{
    let n = (PACKET_HEADER_LEN + body.len()) as u32;
    let p = packet_bytes(op as int, body);
    let data = p + rest;
    assert(p.len() == n);
    lemma_bytes32(n);
    lemma_bytes32(op);
    assert(data[0] == bytes32(n as int)[0] && data[1] == bytes32(n as int)[1] && data[2] == bytes32(
        n as int,
    )[2] && data[3] == bytes32(n as int)[3]);
    assert(packet_len(data) == n);
    assert(data[4] == 0 && data[5] == 16);
    assert(header_len(data) == 16);
    assert(data[6] == 0 && data[7] == 1);
    assert(data[8] == bytes32(op as int)[0] && data[9] == bytes32(op as int)[1] && data[10]
        == bytes32(op as int)[2] && data[11] == bytes32(op as int)[3]);
    assert(be32(data, 8) == op);
    assert(body_of(data) =~= body);
    assert(data.skip(n as int) =~= rest);
}

proof fn lemma_bytes32(n: u32)
    ensures
        be32(bytes32(n as int), 0) == n,
{
}

/// A packet alone is read back as itself.
pub proof fn law_single_packet(op: u32, body: Seq<u8>, depth: nat)
    requires
        PACKET_HEADER_LEN + body.len() <= u32::MAX,
    ensures
        unpacked(packet_bytes(op as int, body), depth) == Some(
            Ok::<Seq<PacketView>, Seq<char>>(seq![PacketView { op: op as int, version: 1, body }]),
        ),
{
    let p = packet_bytes(op as int, body);
    law_packet_round_trip(op, body, Seq::empty(), depth);
    assert(p + Seq::<u8>::empty() =~= p);
    let one = seq![PacketView { op: op as int, version: 1, body }];
    assert(one + Seq::<PacketView>::empty() =~= one);
}

// ---------------------------------------------------------------------------
// What is recorded

/// Tells whether anything of the chat is recorded.
pub fn should_record_danmaku(settings: &LiveSettings) -> (r: bool)
    ensures
        r == settings.records_danmaku(),
{
    settings.record_danmaku || settings.record_danmaku_raw || settings.record_danmaku_superchat
        || settings.record_danmaku_gift || settings.record_danmaku_guard
}

/// Tells whether an event with the given command is recorded.
pub open spec fn wanted(cmd: Seq<char>, settings: LiveSettings) -> bool {
    ||| settings.record_danmaku_raw
    ||| (cmd == "DANMU_MSG"@ && settings.record_danmaku)
    ||| ((cmd == "SUPER_CHAT_MESSAGE"@ || cmd == "SUPER_CHAT_MESSAGE_JPN"@)
        && settings.record_danmaku_superchat)
    ||| (cmd == "SEND_GIFT"@ && settings.record_danmaku_gift)
    ||| ((cmd == "GUARD_BUY"@ || cmd == "USER_TOAST_MSG"@) && settings.record_danmaku_guard)
}

/// Tells whether an event with the given command is recorded.
pub fn danmaku_wanted(cmd: &str, settings: &LiveSettings) -> (r: bool)
    ensures
        r == wanted(cmd@, *settings),
{
    settings.record_danmaku_raw || (text_eq(cmd, "DANMU_MSG") && settings.record_danmaku) || ((
    text_eq(cmd, "SUPER_CHAT_MESSAGE") || text_eq(cmd, "SUPER_CHAT_MESSAGE_JPN"))
        && settings.record_danmaku_superchat) || (text_eq(cmd, "SEND_GIFT")
        && settings.record_danmaku_gift) || ((text_eq(cmd, "GUARD_BUY") || text_eq(
        cmd,
        "USER_TOAST_MSG",
    )) && settings.record_danmaku_guard)
}

/// An event is recorded only if something of the chat is.
pub proof fn law_wanted_is_recorded(cmd: Seq<char>, settings: LiveSettings)
    requires
        wanted(cmd, settings),
    ensures
        settings.records_danmaku(),
{
}

// ---------------------------------------------------------------------------
// Connecting

/// The address of a chat server: as configured, else the safest transport that it offers.
pub open spec fn server_address(
    transport: i64,
    host: Seq<char>,
    wss_port: i64,
    ws_port: i64,
    tcp_port: i64,
) -> Seq<char> {
    if transport == 1 || (transport != 2 && transport != 3 && wss_port <= 0 && ws_port <= 0) {
        "tcp://"@ + host + ":"@ + decimal(tcp_port as int)
    } else if transport == 2 || (transport != 3 && wss_port <= 0) {
        "ws://"@ + host + ":"@ + decimal(ws_port as int) + "/sub"@
    } else {
        "wss://"@ + host + ":"@ + decimal(wss_port as int) + "/sub"@
    }
}

/// The address of a chat server.
pub fn danmaku_url(
    transport: i64,
    host: &str,
    wss_port: i64,
    ws_port: i64,
    tcp_port: i64,
) -> (r: String)
    ensures
        r@ == server_address(transport, host@, wss_port, ws_port, tcp_port),
{
    let tcp: bool = transport == 1 || (transport != 2 && transport != 3 && wss_port <= 0 && ws_port
        <= 0);
    let ws: bool = transport == 2 || (transport != 3 && wss_port <= 0);
    let mut out = if tcp {
        to_chars("tcp://")
    } else if ws {
        to_chars("ws://")
    } else {
        to_chars("wss://")
    };
    extend_text(&mut out, host);
    extend_text(&mut out, ":");
    let port: i64 = if tcp {
        tcp_port
    } else if ws {
        ws_port
    } else {
        wss_port
    };
    let digits = i64_digits(port);
    extend(&mut out, digits.as_slice());
    if !tcp {
        extend_text(&mut out, "/sub");
    }
    to_text(out.as_slice())
}

/// The message that opens a session with a chat server. A room that is no number is zero.
pub open spec fn auth_message(
    room_id: Seq<char>,
    token: Seq<char>,
    uid: i64,
    buvid3: Option<Seq<char>>,
) -> JsonView {
    let fields = seq![
        ("uid"@, JsonView::Number(uid as int)),
        ("roomid"@, JsonView::Number(or_number(i64_value(room_id), 0) as int)),
        ("protover"@, JsonView::Number(3)),
        ("platform"@, JsonView::Str("web"@)),
        ("type"@, JsonView::Number(2)),
        ("key"@, JsonView::Str(token)),
    ];
    JsonView::Object(
        match buvid3 {
            Some(buvid) => fields.push(("buvid"@, JsonView::Str(buvid))),
            None => fields,
        },
    )
}

/// The bytes of the message that opens a session with a chat server: it is sent as JSON.
pub fn build_danmaku_auth_payload(
    room_id: &str,
    token: &str,
    uid: i64,
    buvid3: Option<String>,
) -> (r: Vec<u8>)
    ensures
        r@ == encode_utf8(json_text(auth_message(room_id@, token@, uid, opt_text(buvid3)))),
{
    let room = to_chars(room_id);
    let roomid: i64 = match parse_i64(room.as_slice()) {
        Some(n) => n,
        None => 0,
    };
    let ghost given = opt_text(buvid3);
    let mut fields: Vec<(String, Json)> = vec![
        (copy_text("uid"), Json::Int(uid)),
        (copy_text("roomid"), Json::Int(roomid)),
        (copy_text("protover"), Json::Int(3)),
        (copy_text("platform"), Json::Str(copy_text("web"))),
        (copy_text("type"), Json::Int(2)),
        (copy_text("key"), Json::Str(copy_text(token))),
    ];
    if let Some(buvid) = buvid3 {
        fields.push((copy_text("buvid"), Json::Str(buvid)));
    }
    proof {
        lemma_object_view(fields);
        assert(fields_view(fields@) =~= auth_message(room_id@, token@, uid, given)->Object_0);
    }
    let text = write_json(&Json::Object(fields));
    let bytes = text.as_str().as_bytes();
    copy_range(bytes, 0, bytes.len())
}

/// The line by which an event is recorded.
pub open spec fn event_line(event: JsonView, timestamp: Seq<char>) -> Seq<char> {
    json_text(
        JsonView::Object(
            seq![
                ("cmd"@, JsonView::Str(text_or_empty(event, "cmd"@))),
                ("data"@, event),
                ("timestamp"@, JsonView::Str(timestamp)),
            ],
        ),
    )
}

/// The line by which the text of an event is recorded, where it is. `event` is the value of the
/// text, where it is JSON; another text is recorded as it stands, where everything is.
pub fn recorded_line(text: &str, event: Option<Json>, settings: &LiveSettings, timestamp: &str) -> (r:
    Option<String>)
    ensures
        opt_text(r) == (match event {
            Some(e) => if wanted(text_or_empty(e@, "cmd"@), *settings) {
                Some(event_line(e@, timestamp@))
            } else {
                None
            },
            None => if settings.record_danmaku_raw {
                Some(text@)
            } else {
                None
            },
        }),
{
    match event {
        Some(e) => {
            let cmd = e.get_text_or_empty("cmd");
            if !danmaku_wanted(cmd.as_str(), settings) {
                return None;
            }
            let ghost value = e@;
            let ghost name = cmd@;
            let fields: Vec<(String, Json)> = vec![
                (copy_text("cmd"), Json::Str(cmd)),
                (copy_text("data"), e),
                (copy_text("timestamp"), Json::Str(copy_text(timestamp))),
            ];
            proof {
                lemma_object_view(fields);
                assert(fields_view(fields@) =~= seq![
                    ("cmd"@, JsonView::Str(name)),
                    ("data"@, value),
                    ("timestamp"@, JsonView::Str(timestamp@)),
                ]);
            }
            Some(write_json(&Json::Object(fields)))
        },
        None => if settings.record_danmaku_raw {
            Some(copy_text(text))
        } else {
            None
        },
    }
}

// ---------------------------------------------------------------------------
// Reading and storing

/// The length that the header of a packet gives for its body; none where the header is short
/// or counts more bytes than the packet.
pub open spec fn body_length(header: Seq<u8>) -> Option<int> {
    if header.len() < PACKET_HEADER_LEN {
        None
    } else {
        let all = header[0] * 0x1000000 + header[1] * 0x10000 + header[2] * 0x100 + header[3];
        let head = header[4] * 0x100 + header[5];
        if head <= all {
            Some(all - head)
        } else {
            None
        }
    }
}

/// The length that the header of a packet gives for its body.
pub fn packet_body_len(header: &[u8]) -> (r: Option<u32>)
    ensures
        body_length(header@) == (match r {
            Some(n) => Some(n as int),
            None => None,
        }),
{
    if header.len() < PACKET_HEADER_LEN {
        return None;
    }
    let all: u32 = header[0] as u32 * 0x1000000 + header[1] as u32 * 0x10000 + header[2] as u32
        * 0x100 + header[3] as u32;
    let head: u32 = header[4] as u32 * 0x100 + header[5] as u32;
    if head <= all {
        Some(all - head)
    } else {
        None
    }
}

/// The recordings beside which chat may be stored, best first: the one that runs, then the
/// one that chat was begun for. Blank paths are none, and no path comes twice.
pub open spec fn storage_paths(current: Option<Seq<char>>, fallback: Seq<char>) -> Seq<Seq<char>> {
    let first = match current {
        Some(path) => if trim(path).len() > 0 {
            seq![path]
        } else {
            Seq::empty()
        },
        None => Seq::empty(),
    };
    if trim(fallback).len() == 0 || first == seq![fallback] {
        first
    } else {
        first.push(fallback)
    }
}

/// The recordings beside which chat may be stored, best first.
pub fn danmaku_targets(current: &Option<String>, fallback: &str) -> (r: Vec<String>)
    ensures
        texts(r@) == storage_paths(opt_text(*current), fallback@),
{
    let mut r: Vec<String> = Vec::new();
    let mut same = false;
    if let Some(path) = current {
        if trim_text(path.as_str()).as_str().unicode_len() > 0 {
            same = text_eq(path.as_str(), fallback);
            r.push(copy_text(path.as_str()));
        }
    }
    let ghost first = texts(r@);
    proof {
        if r@.len() > 0 {
            assert(first =~= seq![r@[0]@]);
            assert(seq![fallback@][0] == fallback@);
            assert(same == (first == seq![fallback@])) by {
                if first == seq![fallback@] {
                    assert(first[0] == fallback@);
                } else if same {
                    assert(first =~= seq![fallback@]);
                }
            }
        } else {
            assert(first =~= Seq::<Seq<char>>::empty());
            assert(seq![fallback@].len() == 1);
        }
    }
    if !same && trim_text(fallback).as_str().unicode_len() > 0 {
        r.push(copy_text(fallback));
        assert(texts(r@) =~= first.push(fallback@));
    }
    r
}

// ---------------------------------------------------------------------------
// What the protocol amounts to

/// The bytes of packets one behind the other, each given by its operation and its body.
pub open spec fn stream_of(list: Seq<(u32, Seq<u8>)>) -> Seq<u8>
    decreases list.len(),
{
    if list.len() == 0 {
        Seq::empty()
    } else {
        packet_bytes(list[0].0 as int, list[0].1) + stream_of(list.drop_first())
    }
}

/// The packets of a list of operations and bodies.
pub open spec fn packets_of(list: Seq<(u32, Seq<u8>)>) -> Seq<PacketView> {
    Seq::new(
        list.len(),
        |i: int| PacketView { op: list[i].0 as int, version: 1, body: list[i].1 },
    )
}

/// Tells whether every body of a list fits in a packet.
pub open spec fn bodies_fit(list: Seq<(u32, Seq<u8>)>) -> bool {
    forall|i: int| 0 <= i < list.len() ==> 16 + (#[trigger] list[i]).1.len() <= u32::MAX
}

/// Packets that were built one behind the other are all read back, in their order, and what is
/// behind them is read on.
pub proof fn law_packets_round_trip(list: Seq<(u32, Seq<u8>)>, rest: Seq<u8>, depth: nat)
    requires
        bodies_fit(list),
    ensures
        match unpacked(rest, depth) {
            Some(Ok(more)) => unpacked(stream_of(list) + rest, depth) == Some(
                Ok::<Seq<PacketView>, Seq<char>>(packets_of(list) + more),
            ),
            other => unpacked(stream_of(list) + rest, depth) == other,
        },
    decreases list.len(),
{
    if list.len() == 0 {
        assert(stream_of(list) + rest =~= rest);
        if let Some(Ok(more)) = unpacked(rest, depth) {
            assert(packets_of(list) + more =~= more);
        }
    } else {
        let tail = list.drop_first();
        assert forall|i: int| 0 <= i < tail.len() implies 16 + (#[trigger] tail[i]).1.len()
            <= u32::MAX by {
            assert(tail[i] == list[i + 1]);
        }
        assert(16 + list[0].1.len() <= u32::MAX);
        law_packets_round_trip(tail, rest, depth);
        law_packet_round_trip(list[0].0, list[0].1, stream_of(tail) + rest, depth);
        assert(stream_of(list) + rest =~= packet_bytes(list[0].0 as int, list[0].1) + (stream_of(
            tail,
        ) + rest));
        if let Some(Ok(more)) = unpacked(rest, depth) {
            let one = seq![PacketView { op: list[0].0 as int, version: 1, body: list[0].1 }];
            assert(one + (packets_of(tail) + more) =~= packets_of(list) + more);
        }
    }
}

/// Tells whether bytes begin with a packet of a version, an operation and a body, with the bytes
/// behind it: the length of all in the first four bytes, the most significant one first, then the
/// length of the header, the version and the operation.
pub open spec fn begins_with(
    data: Seq<u8>,
    version: int,
    op: int,
    body: Seq<u8>,
    rest: Seq<u8>,
) -> bool {
    &&& data.len() == 16 + body.len() + rest.len()
    &&& data[0] * 0x100_0000 + data[1] * 0x1_0000 + data[2] * 0x100 + data[3] == 16 + body.len()
    &&& data[4] == 0 && data[5] == 16
    &&& data[6] * 0x100 + data[7] == version
    &&& data[8] * 0x100_0000 + data[9] * 0x1_0000 + data[10] * 0x100 + data[11] == op
    &&& data.subrange(16, 16 + body.len() as int) == body
    &&& data.skip(16 + body.len() as int) == rest
}

/// A packet that is not compressed is read as its operation, its version and its body, and the
/// packets behind it follow.
pub proof fn law_plain_packet_read(
    data: Seq<u8>,
    version: int,
    op: int,
    body: Seq<u8>,
    rest: Seq<u8>,
    depth: nat,
)
    requires
        begins_with(data, version, op, body, rest),
        version != 2,
        version != 3,
    ensures
        match unpacked(rest, depth) {
            Some(Ok(more)) => unpacked(data, depth) == Some(
                Ok::<Seq<PacketView>, Seq<char>>(
                    seq![PacketView { op, version, body }] + more,
                ),
            ),
            other => unpacked(data, depth) == other,
        },
{
    assert(body_of(data) =~= body);
}

/// A compressed packet stands for all that it holds: where its body decompresses to packets, all of
/// them are read, in their order, then those of what follows them in the body, then those behind
/// the packet.
pub proof fn law_compressed_packet_read(
    data: Seq<u8>,
    version: int,
    op: int,
    body: Seq<u8>,
    rest: Seq<u8>,
    list: Seq<(u32, Seq<u8>)>,
    tail: Seq<u8>,
    depth: nat,
)
    requires
        begins_with(data, version, op, body, rest),
        version == 2 || version == 3,
        version == 2 ==> inflated(body) == Ok::<Seq<u8>, Seq<char>>(stream_of(list) + tail),
        version == 3 ==> unbrotlied(body) == Ok::<Seq<u8>, Seq<char>>(stream_of(list) + tail),
        bodies_fit(list),
        depth > 0,
    ensures
        match (unpacked(tail, (depth - 1) as nat), unpacked(rest, depth)) {
            (Some(Ok(a)), Some(Ok(b))) => unpacked(data, depth) == Some(
                Ok::<Seq<PacketView>, Seq<char>>(packets_of(list) + a + b),
            ),
            (Some(Ok(_)), other) => unpacked(data, depth) == other,
            (other, _) => unpacked(data, depth) == other,
        },
{
    assert(body_of(data) =~= body);
    law_packets_round_trip(list, tail, (depth - 1) as nat);
}

/// A body that cannot be decompressed is an error that tells by which way and why; nothing that was
/// read before it is given.
pub proof fn law_broken_packet_told(
    data: Seq<u8>,
    version: int,
    op: int,
    body: Seq<u8>,
    rest: Seq<u8>,
    message: Seq<char>,
    list: Seq<(u32, Seq<u8>)>,
    depth: nat,
)
    requires
        begins_with(data, version, op, body, rest),
        version == 2 || version == 3,
        version == 2 ==> inflated(body) == Err::<Seq<u8>, Seq<char>>(message),
        version == 3 ==> unbrotlied(body) == Err::<Seq<u8>, Seq<char>>(message),
        bodies_fit(list),
    ensures
        unpacked(stream_of(list) + data, depth) matches Some(Err(told)) && crate::text::ends_with(
            told,
            message,
        ) && crate::text::starts_with(
            told,
            if version == 2 {
                "zlib"@
            } else {
                "brotli"@
            },
        ),
{
    assert(body_of(data) =~= body);
    law_packets_round_trip(list, data, depth);
    let head = if version == 2 {
        "zlib 解压失败: "@
    } else {
        "brotli 解压失败: "@
    };
    let told = head + message;
    reveal_strlit("zlib");
    reveal_strlit("brotli");
    reveal_strlit("zlib 解压失败: ");
    reveal_strlit("brotli 解压失败: ");
    assert(told.subrange(told.len() - message.len(), told.len() as int) =~= message);
    assert(told.subrange(0, 4) =~= head.subrange(0, 4));
    if version == 2 {
        assert(told.subrange(0, 4) =~= "zlib"@);
    } else {
        assert(told.subrange(0, 6) =~= "brotli"@);
    }
}

/// Bytes that are no whole packet are left: there is nothing in them, whatever they are.
pub proof fn law_short_bytes_hold_nothing(data: Seq<u8>, depth: nat)
    requires
        data.len() < 16 || data[0] * 0x100_0000 + data[1] * 0x1_0000 + data[2] * 0x100 + data[3]
            > data.len(),
    ensures
        unpacked(data, depth) == Some(Ok::<Seq<PacketView>, Seq<char>>(Seq::empty())),
{
}

/// A packet that is built is laid out as the server reads it: its whole length first, the most
/// significant byte first, sixteen bytes of header, the version one, the operation, and its body
/// behind the header. A header that is read alone gives the length of the body.
pub proof fn law_packet_layout(op: u32, body: Seq<u8>)
    requires
        16 + body.len() <= u32::MAX,
    ensures
        begins_with(packet_bytes(op as int, body), 1, op as int, body, Seq::empty()),
        body_length(packet_bytes(op as int, body).take(16)) == Some(body.len() as int),
{
    let p = packet_bytes(op as int, body);
    let n = (16 + body.len()) as u32;
    lemma_bytes32(n);
    lemma_bytes32(op);
    let a = bytes32(n as int);
    let b = bytes32(op as int);
    assert(p[0] == a[0] && p[1] == a[1] && p[2] == a[2] && p[3] == a[3]);
    assert(p[4] == 0 && p[5] == 16 && p[6] == 0 && p[7] == 1);
    assert(p[8] == b[0] && p[9] == b[1] && p[10] == b[2] && p[11] == b[3]);
    assert(p.subrange(16, 16 + body.len() as int) =~= body);
    assert(p.skip(16 + body.len() as int) =~= Seq::<u8>::empty());
    let head = p.take(16);
    assert(head[0] == a[0] && head[1] == a[1] && head[2] == a[2] && head[3] == a[3]);
    assert(head[4] == 0 && head[5] == 16);
}

/// What is recorded goes by the kind of the event: each kind by its own setting, everything where
/// everything is wanted, and nothing else.
pub proof fn law_each_kind_by_its_setting(cmd: Seq<char>, settings: LiveSettings)
    ensures
        wanted("DANMU_MSG"@, settings) == (settings.record_danmaku_raw || settings.record_danmaku),
        wanted("SUPER_CHAT_MESSAGE"@, settings) == (settings.record_danmaku_raw
            || settings.record_danmaku_superchat),
        wanted("SUPER_CHAT_MESSAGE_JPN"@, settings) == (settings.record_danmaku_raw
            || settings.record_danmaku_superchat),
        wanted("SEND_GIFT"@, settings) == (settings.record_danmaku_raw
            || settings.record_danmaku_gift),
        wanted("GUARD_BUY"@, settings) == (settings.record_danmaku_raw
            || settings.record_danmaku_guard),
        wanted("USER_TOAST_MSG"@, settings) == (settings.record_danmaku_raw
            || settings.record_danmaku_guard),
        cmd != "DANMU_MSG"@ && cmd != "SUPER_CHAT_MESSAGE"@ && cmd != "SUPER_CHAT_MESSAGE_JPN"@
            && cmd != "SEND_GIFT"@ && cmd != "GUARD_BUY"@ && cmd != "USER_TOAST_MSG"@ ==> wanted(
            cmd,
            settings,
        ) == settings.record_danmaku_raw,
        settings.records_danmaku() == (wanted("DANMU_MSG"@, settings) || wanted(
            "SUPER_CHAT_MESSAGE"@,
            settings,
        ) || wanted("SEND_GIFT"@, settings) || wanted("GUARD_BUY"@, settings)),
{
    reveal_strlit("DANMU_MSG");
    reveal_strlit("SUPER_CHAT_MESSAGE");
    reveal_strlit("SUPER_CHAT_MESSAGE_JPN");
    reveal_strlit("SEND_GIFT");
    reveal_strlit("GUARD_BUY");
    reveal_strlit("USER_TOAST_MSG");
    assert("DANMU_MSG"@[0] == 'D' && "SEND_GIFT"@[0] == 'S' && "GUARD_BUY"@[0] == 'G');
    assert("DANMU_MSG"@.len() == 9 && "SEND_GIFT"@.len() == 9 && "GUARD_BUY"@.len() == 9);
    assert("SUPER_CHAT_MESSAGE"@.len() == 18 && "SUPER_CHAT_MESSAGE_JPN"@.len() == 22
        && "USER_TOAST_MSG"@.len() == 14);
}

/// A server is reached by the transport that is set, and else by the safest one that it offers: an
/// encrypted socket, then a plain one, then a bare connection.
pub proof fn law_safest_transport(
    transport: i64,
    host: Seq<char>,
    wss_port: i64,
    ws_port: i64,
    tcp_port: i64,
)
    ensures
        ({
            let url = server_address(transport, host, wss_port, ws_port, tcp_port);
            let tcp = "tcp://"@ + host + ":"@ + decimal(tcp_port as int);
            let ws = "ws://"@ + host + ":"@ + decimal(ws_port as int) + "/sub"@;
            let wss = "wss://"@ + host + ":"@ + decimal(wss_port as int) + "/sub"@;
            &&& transport == 1 ==> url == tcp
            &&& transport == 2 ==> url == ws
            &&& transport == 3 ==> url == wss
            &&& !(1 <= transport <= 3) && wss_port > 0 ==> url == wss
            &&& !(1 <= transport <= 3) && wss_port <= 0 && ws_port > 0 ==> url == ws
            &&& !(1 <= transport <= 3) && wss_port <= 0 && ws_port <= 0 ==> url == tcp
        }),
{
}

/// A session is opened for the room and the account at hand, with the key that was given, and asks
/// for the version in which packets are compressed best.
pub proof fn law_session_is_opened_for_room(
    room: i64,
    token: Seq<char>,
    uid: i64,
    buvid3: Option<Seq<char>>,
)
    ensures
        ({
            let message = auth_message(decimal(room as int), token, uid, buvid3);
            &&& integer_at(message, "roomid"@) == Some(room)
            &&& integer_at(message, "uid"@) == Some(uid)
            &&& text_at(message, "key"@) == Some(token)
            &&& integer_at(message, "protover"@) == Some(3i64)
            &&& text_at(message, "buvid"@) == buvid3
        }),
{
    crate::text::lemma_decimal_round_trip(room);
    let message = auth_message(decimal(room as int), token, uid, buvid3);
    let fields = message->Object_0;
    reveal_strlit("uid");
    reveal_strlit("roomid");
    reveal_strlit("protover");
    reveal_strlit("platform");
    reveal_strlit("type");
    reveal_strlit("key");
    reveal_strlit("buvid");
    assert("uid"@[0] == 'u' && "key"@[0] == 'k');
    assert("protover"@[1] == 'r' && "platform"@[1] == 'l');
    assert("roomid"@.len() == 6 && "type"@.len() == 4 && "uid"@.len() == 3 && "key"@.len() == 3
        && "buvid"@.len() == 5 && "protover"@.len() == 8 && "platform"@.len() == 8);
    lemma_field_at(fields, 0);
    lemma_field_at(fields, 1);
    lemma_field_at(fields, 2);
    lemma_field_at(fields, 5);
    if buvid3 is Some {
        lemma_field_at(fields, 6);
    } else {
        lemma_no_field(fields, "buvid"@);
    }
}

/// The recordings beside which chat is stored: the one that runs comes first, the one that chat was
/// begun for is always among them, no path is blank, and none comes twice.
pub proof fn law_storage_paths(current: Option<Seq<char>>, fallback: Seq<char>, i: int, j: int)
    ensures
        ({
            let paths = storage_paths(current, fallback);
            &&& current is Some && trim(current->0).len() > 0 ==> paths.len() > 0 && paths[0]
                == current->0
            &&& trim(fallback).len() > 0 ==> paths.contains(fallback)
            &&& 0 <= i < paths.len() ==> trim(paths[i]).len() > 0 && (paths[i] == fallback
                || current == Some(paths[i]))
            &&& 0 <= i < j < paths.len() ==> paths[i] != paths[j]
        }),
{
    let paths = storage_paths(current, fallback);
    let first = match current {
        Some(path) => if trim(path).len() > 0 {
            seq![path]
        } else {
            Seq::empty()
        },
        None => Seq::empty(),
    };
    if trim(fallback).len() > 0 {
        if first == seq![fallback] {
            assert(paths[0] == fallback);
        } else {
            assert(paths[first.len() as int] == fallback);
        }
    }
    if 0 <= i < j < paths.len() {
        if paths[i] == paths[j] {
            assert(first =~= seq![fallback]);
        }
    }
}

/// The header of a packet tells the length of the whole and its own, and the body has the rest; a
/// header that is short, or longer than the whole, tells none.
pub proof fn law_body_is_the_rest(header: Seq<u8>)
    ensures
        header.len() < 16 ==> body_length(header) is None,
        header.len() >= 16 ==> ({
            let all = header[0] * 0x1000000 + header[1] * 0x10000 + header[2] * 0x100 + header[3];
            let own = header[4] * 0x100 + header[5];
            &&& own <= all ==> body_length(header) == Some(all - own)
            &&& own > all ==> body_length(header) is None
        }),
{
}

/// The line of an event holds the event whole, its command and its time, each under its key.
pub proof fn law_line_holds_event(event: JsonView, timestamp: Seq<char>) -> (line: JsonView)
    ensures
        event_line(event, timestamp) == json_text(line),
        field(line, "data"@) == Some(event),
        text_at(line, "timestamp"@) == Some(timestamp),
        text_at(event, "cmd"@) is Some ==> text_at(line, "cmd"@) == text_at(event, "cmd"@),
        text_at(event, "cmd"@) is None ==> text_at(line, "cmd"@) == Some(Seq::<char>::empty()),
{
    let fields = seq![
        ("cmd"@, JsonView::Str(text_or_empty(event, "cmd"@))),
        ("data"@, event),
        ("timestamp"@, JsonView::Str(timestamp)),
    ];
    reveal_strlit("cmd");
    reveal_strlit("data");
    reveal_strlit("timestamp");
    assert("cmd"@.len() == 3 && "data"@.len() == 4 && "timestamp"@.len() == 9);
    lemma_field_at(fields, 0);
    lemma_field_at(fields, 1);
    lemma_field_at(fields, 2);
    JsonView::Object(fields)
}

} // verus!
