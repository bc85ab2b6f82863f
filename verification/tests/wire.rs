//! Wire-format and engine-edge behaviors: header codec, boundary
//! datagrams, and each error the engine reports.

use kcp_mux::codec::{encode_segment, get_conv, parse_segment, WireSeg, CMD_ACK, CMD_PUSH};
use kcp_mux::engine::Kcp;
use kcp_mux::KcpErr;
use kcp_mux::KCP_OVERHEAD;

fn header_only(conv: u32, cmd: u8) -> Vec<u8> {
    let seg = WireSeg {
        conv,
        cmd,
        frg: 0,
        wnd: 128,
        ts: 0,
        sn: 0,
        una: 0,
        data: Vec::new(),
    };
    encode_segment(&seg)
}

fn push_segment(conv: u32, frg: u8, sn: u32, data: &[u8]) -> Vec<u8> {
    let seg = WireSeg {
        conv,
        cmd: CMD_PUSH,
        frg,
        wnd: 128,
        ts: 0,
        sn,
        una: 0,
        data: data.to_vec(),
    };
    encode_segment(&seg)
}

#[test]
fn header_roundtrip() {
    let seg = WireSeg {
        conv: 0x12345678,
        cmd: CMD_PUSH,
        frg: 3,
        wnd: 521,
        ts: 0xAABBCCDD,
        sn: 42,
        una: 7,
        data: vec![1, 2, 3, 4, 5],
    };
    let bytes = encode_segment(&seg);
    assert_eq!(bytes.len(), KCP_OVERHEAD + 5);
    let (parsed, next) = parse_segment(&bytes, 0).unwrap();
    assert_eq!(next, bytes.len());
    assert_eq!(parsed.conv, 0x12345678);
    assert_eq!(parsed.cmd, CMD_PUSH);
    assert_eq!(parsed.frg, 3);
    assert_eq!(parsed.wnd, 521);
    assert_eq!(parsed.ts, 0xAABBCCDD);
    assert_eq!(parsed.sn, 42);
    assert_eq!(parsed.una, 7);
    assert_eq!(parsed.data, vec![1, 2, 3, 4, 5]);
}

#[test]
fn get_conv_little_endian() {
    let mut bytes = vec![0x78, 0x56, 0x34, 0x12];
    bytes.resize(KCP_OVERHEAD, 0);
    assert_eq!(get_conv(&bytes), 0x12345678);
}

#[test]
fn header_only_datagram_accepted() {
    // a bare acknowledgment: exactly KCP_OVERHEAD bytes
    let mut kcp = Kcp::new(9);
    let dgram = header_only(9, CMD_ACK);
    assert_eq!(dgram.len(), KCP_OVERHEAD);
    assert_eq!(kcp.input(&dgram), Ok(KCP_OVERHEAD));
}

#[test]
fn short_datagram_rejected_without_mutation() {
    let mut kcp = Kcp::new(9);
    let dgram = vec![0u8; KCP_OVERHEAD - 1];
    assert_eq!(kcp.input(&dgram), Err(KcpErr::MalformedPacket));
    assert_eq!(kcp.wait_snd(), 0);
    assert_eq!(kcp.peeksize(), Err(KcpErr::RecvQueueEmpty));
}

#[test]
fn oversize_length_field_rejected() {
    let mut kcp = Kcp::new(9);
    let mut dgram = header_only(9, CMD_PUSH);
    // claim 100 payload bytes that are not there
    dgram[20] = 100;
    assert_eq!(kcp.input(&dgram), Err(KcpErr::MalformedPacket));
}

#[test]
fn conv_mismatch_rejected() {
    let mut kcp = Kcp::new(9);
    let dgram = header_only(10, CMD_ACK);
    assert_eq!(kcp.input(&dgram), Err(KcpErr::ConvInconsistent));
}

#[test]
fn unknown_command_rejected() {
    let mut kcp = Kcp::new(9);
    let dgram = header_only(9, 99);
    assert_eq!(kcp.input(&dgram), Err(KcpErr::MalformedPacket));
}

#[test]
fn send_queue_full_on_oversized_message() {
    let mut kcp = Kcp::new(9);
    let big = vec![0u8; 400_000];
    assert_eq!(kcp.send(&big), Err(KcpErr::SendQueueFull));
    assert_eq!(kcp.wait_snd(), 0);
}

#[test]
fn recv_queue_empty_error() {
    let mut kcp = Kcp::new(9);
    assert_eq!(kcp.peeksize(), Err(KcpErr::RecvQueueEmpty));
    assert_eq!(kcp.recv(1500).unwrap_err(), KcpErr::RecvQueueEmpty);
}

#[test]
fn expecting_fragment_error() {
    let mut kcp = Kcp::new(9);
    // first fragment of a two-fragment message; the closer never comes
    let dgram = push_segment(9, 1, 0, b"partial");
    assert_eq!(kcp.input(&dgram), Ok(dgram.len()));
    assert_eq!(kcp.peeksize(), Err(KcpErr::ExpectingFragment));
}

#[test]
fn user_buf_too_small_error() {
    let mut kcp = Kcp::new(9);
    let dgram = push_segment(9, 0, 0, b"twelve bytes");
    assert_eq!(kcp.input(&dgram), Ok(dgram.len()));
    assert_eq!(kcp.peeksize(), Ok(12));
    assert_eq!(kcp.recv(5).unwrap_err(), KcpErr::UserBufTooSmall);
    // a big enough buffer still gets the whole message afterwards
    assert_eq!(kcp.recv(12).unwrap(), b"twelve bytes".to_vec());
}

#[test]
fn duplicate_segment_delivered_once() {
    let mut kcp = Kcp::new(9);
    let dgram = push_segment(9, 0, 0, b"only once");
    assert_eq!(kcp.input(&dgram), Ok(dgram.len()));
    assert_eq!(kcp.input(&dgram), Ok(dgram.len()));
    assert_eq!(kcp.recv(1500).unwrap(), b"only once".to_vec());
    assert_eq!(kcp.peeksize(), Err(KcpErr::RecvQueueEmpty));
}

#[test]
fn out_of_order_segments_reordered() {
    let mut kcp = Kcp::new(9);
    let d1 = push_segment(9, 0, 1, b" world");
    let d0 = push_segment(9, 0, 0, b"hello");
    assert_eq!(kcp.input(&d1), Ok(d1.len()));
    assert_eq!(kcp.peeksize(), Err(KcpErr::RecvQueueEmpty));
    assert_eq!(kcp.input(&d0), Ok(d0.len()));
    assert_eq!(kcp.recv(1500).unwrap(), b"hello".to_vec());
    assert_eq!(kcp.recv(1500).unwrap(), b" world".to_vec());
}

#[test]
fn newest_suspender_replaces_older() {
    let mut s = kcp_mux::registry::Session::<u32>::new(9, None);
    // two reads suspend in turn; only the newest handle is kept
    assert!(matches!(
        s.kcore.poll_read(64, 1u32),
        kcp_mux::session::Poll::Pending
    ));
    assert!(matches!(
        s.kcore.poll_read(64, 2u32),
        kcp_mux::session::Poll::Pending
    ));
    let dgram = push_segment(9, 0, 0, b"wake");
    let (res, wake) = s.input(&dgram);
    assert!(res.is_ok());
    assert_eq!(wake, Some(2));
    // the slot is empty now: a further wake hands out nothing
    assert_eq!(s.kcore.try_wake_read(), None);
}

#[test]
fn lock_error_on_absent_close() {
    let mut li = kcp_mux::registry::KcpListener::<u32>::bind();
    assert_eq!(li.finish_close(5, 5), Err(KcpErr::Lock));
}

#[test]
fn emitted_datagrams_accepted_by_peer() {
    // everything one engine's update emits, a peer of the same
    // conversation accepts whole, and the payload comes out intact
    let mut a = Kcp::new(5);
    assert_eq!(a.send(b"payload"), Ok(7));
    let out = a.update(1);
    assert!(!out.is_empty());
    let mut b = Kcp::new(5);
    for d in &out {
        assert_eq!(b.input(d), Ok(d.len()));
    }
    assert_eq!(b.recv(100).unwrap(), b"payload".to_vec());
}

#[test]
fn two_segments_in_one_datagram() {
    let mut kcp = Kcp::new(9);
    let mut dgram = push_segment(9, 0, 0, b"one");
    dgram.extend_from_slice(&push_segment(9, 0, 1, b"two"));
    assert_eq!(kcp.input(&dgram), Ok(dgram.len()));
    assert_eq!(kcp.recv(1500).unwrap(), b"one".to_vec());
    assert_eq!(kcp.recv(1500).unwrap(), b"two".to_vec());
}
