//! End-to-end scenarios over an in-memory loopback: two registries
//! exchange datagrams directly, driven by an explicit clock.

use kcp_mux::registry::{Dispatch, Increment, KcpConnector, KcpListener, KcpStream, Session};
use kcp_mux::session::Poll;

/// The listener's combined registry key for a peer/conversation pair.
fn lkey(pk: u64, conv: u32) -> u128 {
    (pk as u128) * 0x1_0000_0000u128 + conv as u128
}

/// One round of ticks on both sides, delivering every datagram.
fn pump(
    li: &mut KcpListener<u32>,
    pk: u64,
    conn: &mut KcpConnector<u32>,
    conv: u32,
    now: &mut u64,
) {
    *now += 20;
    let out = {
        let s = conn.sessions.get_mut(&conv).unwrap();
        s.kcore.kcp_update(*now)
    };
    for d in out.datagrams {
        li.dispatch(pk, &d);
    }
    let key = lkey(pk, conv);
    if let Some(srv) = li.manager.get_mut(&key) {
        let out2 = srv.kcore.kcp_update(*now);
        for d in out2.datagrams {
            conn.dispatch(&d);
        }
    }
}

/// Reads whatever is ready on the server side, up to `buf_len` bytes.
fn server_read(li: &mut KcpListener<u32>, pk: u64, conv: u32, buf_len: usize) -> Option<Vec<u8>> {
    let srv = li.manager.get_mut(&lkey(pk, conv)).unwrap();
    match srv.kcore.poll_read(buf_len, 0u32) {
        Poll::Ready(Ok(m)) => Some(m),
        Poll::Ready(Err(e)) => panic!("server read failed: {:?}", e),
        Poll::Pending => None,
    }
}

/// Reads whatever is ready on the client side, up to `buf_len` bytes.
fn client_read(conn: &mut KcpConnector<u32>, conv: u32, buf_len: usize) -> Option<Vec<u8>> {
    let s = conn.sessions.get_mut(&conv).unwrap();
    match s.kcore.poll_read(buf_len, 0u32) {
        Poll::Ready(Ok(m)) => Some(m),
        Poll::Ready(Err(e)) => panic!("client read failed: {:?}", e),
        Poll::Pending => None,
    }
}

fn setup() -> (KcpListener<u32>, KcpConnector<u32>, u32, u64) {
    let li = KcpListener::<u32>::bind();
    let mut conn = KcpConnector::<u32>::new();
    let conv = conn.connect().unwrap();
    let pk: u64 = 0x1234_5678;
    (li, conn, conv, pk)
}

#[test]
pub fn test_kcp_server() {
    let (mut li, mut conn, conv, pk) = setup();
    let mut now: u64 = 1;
    {
        let s = conn.sessions.get_mut(&conv).unwrap();
        match s.kcore.poll_write(b"hello world") {
            Poll::Ready(Ok(n)) => assert_eq!(n, 11),
            _ => panic!("write not accepted"),
        }
    }
    let mut got: Option<Vec<u8>> = None;
    for _ in 0..20 {
        pump(&mut li, pk, &mut conn, conv, &mut now);
        if li.manager.contains_key(&lkey(pk, conv)) {
            if let Some(m) = server_read(&mut li, pk, conv, 1500) {
                got = Some(m);
                break;
            }
        }
    }
    let m = got.expect("server never received the message");
    assert_eq!(m, b"hello world".to_vec());
    // echo it back
    {
        let srv = li.manager.get_mut(&lkey(pk, conv)).unwrap();
        match srv.kcore.poll_write(&m) {
            Poll::Ready(Ok(n)) => assert_eq!(n, 11),
            _ => panic!("echo write not accepted"),
        }
    }
    let mut back: Option<Vec<u8>> = None;
    for _ in 0..20 {
        pump(&mut li, pk, &mut conn, conv, &mut now);
        if let Some(m) = client_read(&mut conn, conv, 1500) {
            back = Some(m);
            break;
        }
    }
    assert_eq!(back.expect("client never got the echo"), b"hello world".to_vec());
}

#[test]
pub fn test_kcp_client() {
    let (mut li, mut conn, conv, pk) = setup();
    let mut now: u64 = 1;
    {
        let s = conn.sessions.get_mut(&conv).unwrap();
        assert!(matches!(s.kcore.poll_write(b"ping"), Poll::Ready(Ok(4))));
    }
    let mut seen: Option<Vec<u8>> = None;
    for _ in 0..20 {
        pump(&mut li, pk, &mut conn, conv, &mut now);
        if li.manager.contains_key(&lkey(pk, conv)) {
            if let Some(m) = server_read(&mut li, pk, conv, 1500) {
                seen = Some(m);
                break;
            }
        }
    }
    assert_eq!(seen.unwrap(), b"ping".to_vec());
}

#[test]
fn fragmented_message() {
    let (mut li, mut conn, conv, pk) = setup();
    let mut now: u64 = 1;
    let pattern: Vec<u8> = (0..4096u32).map(|i| (i % 251) as u8).collect();
    {
        let s = conn.sessions.get_mut(&conv).unwrap();
        match s.kcore.poll_write(&pattern) {
            Poll::Ready(Ok(n)) => assert_eq!(n, 4096),
            _ => panic!("write not accepted"),
        }
    }
    let mut assembled: Vec<u8> = Vec::new();
    for _ in 0..200 {
        pump(&mut li, pk, &mut conn, conv, &mut now);
        if li.manager.contains_key(&lkey(pk, conv)) {
            while assembled.len() < 4096 {
                match server_read(&mut li, pk, conv, 512) {
                    Some(m) => assembled.extend_from_slice(&m),
                    None => break,
                }
            }
        }
        if assembled.len() >= 4096 {
            break;
        }
    }
    assert_eq!(assembled, pattern);
}

#[test]
fn small_buffer_delivery() {
    let (mut li, mut conn, conv, pk) = setup();
    let mut now: u64 = 1;
    // open the session with one datagram first, then write from the server
    {
        let s = conn.sessions.get_mut(&conv).unwrap();
        assert!(matches!(s.kcore.poll_write(b"x"), Poll::Ready(Ok(1))));
    }
    for _ in 0..20 {
        pump(&mut li, pk, &mut conn, conv, &mut now);
        if li.manager.contains_key(&lkey(pk, conv)) && server_read(&mut li, pk, conv, 8).is_some()
        {
            break;
        }
    }
    let payload: Vec<u8> = (0..100u32).map(|i| i as u8).collect();
    {
        let srv = li.manager.get_mut(&lkey(pk, conv)).unwrap();
        match srv.kcore.poll_write(&payload) {
            Poll::Ready(Ok(n)) => assert_eq!(n, 100),
            _ => panic!("server write not accepted"),
        }
    }
    let mut chunks: Vec<Vec<u8>> = Vec::new();
    for _ in 0..50 {
        pump(&mut li, pk, &mut conn, conv, &mut now);
        while chunks.iter().map(|c| c.len()).sum::<usize>() < 100 {
            match client_read(&mut conn, conv, 40) {
                Some(m) => chunks.push(m),
                None => break,
            }
        }
        if chunks.iter().map(|c| c.len()).sum::<usize>() >= 100 {
            break;
        }
    }
    let counts: Vec<usize> = chunks.iter().map(|c| c.len()).collect();
    assert_eq!(counts, vec![40, 40, 20]);
    let joined: Vec<u8> = chunks.concat();
    assert_eq!(joined, payload);
}

#[test]
fn window_capacity_round_trip() {
    let (mut li, mut conn, conv, pk) = setup();
    let mut now: u64 = 1;
    let big: Vec<u8> = (0..300_000u32).map(|i| (i % 253) as u8).collect();
    {
        let s = conn.sessions.get_mut(&conv).unwrap();
        match s.kcore.poll_write(&big) {
            Poll::Ready(Ok(n)) => assert_eq!(n, big.len()),
            _ => panic!("write not accepted"),
        }
    }
    let mut assembled: Vec<u8> = Vec::new();
    for _ in 0..500 {
        pump(&mut li, pk, &mut conn, conv, &mut now);
        if li.manager.contains_key(&lkey(pk, conv)) {
            while assembled.len() < big.len() {
                match server_read(&mut li, pk, conv, 65536) {
                    Some(m) => assembled.extend_from_slice(&m),
                    None => break,
                }
            }
        }
        if assembled.len() >= big.len() {
            break;
        }
    }
    assert_eq!(assembled.len(), big.len());
    assert_eq!(assembled, big);
}

#[test]
fn wait_snd_zero_after_ack() {
    let (mut li, mut conn, conv, pk) = setup();
    let mut now: u64 = 1;
    {
        let s = conn.sessions.get_mut(&conv).unwrap();
        assert!(matches!(s.kcore.poll_write(b"abc"), Poll::Ready(Ok(3))));
        assert_eq!(s.kcore.kcp.wait_snd(), 1);
    }
    for _ in 0..20 {
        pump(&mut li, pk, &mut conn, conv, &mut now);
        let s = conn.sessions.get_mut(&conv).unwrap();
        if s.kcore.kcp.wait_snd() == 0 {
            return;
        }
    }
    panic!("send was never fully acknowledged");
}

#[test]
fn close_idempotent() {
    let (mut li, mut conn, conv, pk) = setup();
    let mut now: u64 = 1;
    {
        let s = conn.sessions.get_mut(&conv).unwrap();
        assert!(matches!(s.kcore.poll_write(b"bye"), Poll::Ready(Ok(3))));
        // with bytes still unacknowledged, close suspends
        assert!(matches!(s.kcore.poll_close(7u32), Poll::Pending));
    }
    let mut woken = false;
    for _ in 0..20 {
        now += 20;
        let out = {
            let s = conn.sessions.get_mut(&conv).unwrap();
            s.kcore.kcp_update(now)
        };
        for d in out.datagrams {
            li.dispatch(pk, &d);
        }
        if let Some(srv) = li.manager.get_mut(&lkey(pk, conv)) {
            let out2 = srv.kcore.kcp_update(now);
            for d in out2.datagrams {
                conn.dispatch(&d);
            }
        }
        let out3 = {
            let s = conn.sessions.get_mut(&conv).unwrap();
            s.kcore.kcp_update(now)
        };
        if out3.wake_close == Some(7u32) {
            woken = true;
            break;
        }
    }
    assert!(woken, "close-suspended task was never woken");
    let s = conn.sessions.get_mut(&conv).unwrap();
    assert!(matches!(s.kcore.poll_close(8u32), Poll::Ready(Ok(()))));
    let dead1 = s.kcore.kcp.is_dead_link();
    let wait1 = s.kcore.kcp.wait_snd();
    // closing again yields the same observable state
    assert!(matches!(s.kcore.poll_close(9u32), Poll::Ready(Ok(()))));
    assert_eq!(s.kcore.kcp.is_dead_link(), dead1);
    assert_eq!(s.kcore.kcp.wait_snd(), wait1);
}

#[test]
fn flush_is_noop() {
    let (_li, mut conn, conv, _pk) = setup();
    let s = conn.sessions.get_mut(&conv).unwrap();
    assert!(matches!(s.kcore.poll_write(b"data"), Poll::Ready(Ok(4))));
    let wait_before = s.kcore.kcp.wait_snd();
    let dead_before = s.kcore.kcp.is_dead_link();
    assert!(matches!(s.kcore.poll_flush(), Poll::Ready(Ok(()))));
    assert_eq!(s.kcore.kcp.wait_snd(), wait_before);
    assert_eq!(s.kcore.kcp.is_dead_link(), dead_before);
}

#[test]
fn dead_link_terminates() {
    let (_li, mut conn, conv, _pk) = setup();
    let mut now: u64 = 1;
    {
        let s = conn.sessions.get_mut(&conv).unwrap();
        assert!(matches!(s.kcore.poll_write(b"lost"), Poll::Ready(Ok(4))));
    }
    // the network path is blocked: datagrams are dropped, acks never come
    let mut died = false;
    for _ in 0..40 {
        now += 120_000;
        let out = {
            let s = conn.sessions.get_mut(&conv).unwrap();
            s.kcore.kcp_update(now)
        };
        drop(out.datagrams);
        if out.dead {
            died = true;
            break;
        }
    }
    assert!(died, "link never declared dead");
    // teardown removes the session from the registry
    conn.enqueue_close(conv);
    conn.drain_closes();
    assert!(!conn.sessions.contains_key(&conv));
}

#[test]
fn multiplexing_two_connectors() {
    let mut li = KcpListener::<u32>::bind();
    let mut conn1 = KcpConnector::<u32>::new();
    let mut conn2 = KcpConnector::<u32>::new();
    conn2.increment = Increment::new(100);
    let conv1 = conn1.connect().unwrap();
    let conv2 = conn2.connect().unwrap();
    assert_ne!(conv1, conv2);
    let pk1: u64 = 11;
    let pk2: u64 = 22;
    let mut now: u64 = 1;
    {
        let s = conn1.sessions.get_mut(&conv1).unwrap();
        assert!(matches!(s.kcore.poll_write(b"first"), Poll::Ready(Ok(5))));
    }
    {
        let s = conn2.sessions.get_mut(&conv2).unwrap();
        assert!(matches!(s.kcore.poll_write(b"second"), Poll::Ready(Ok(6))));
    }
    let mut got1: Option<Vec<u8>> = None;
    let mut got2: Option<Vec<u8>> = None;
    for _ in 0..20 {
        pump(&mut li, pk1, &mut conn1, conv1, &mut now);
        pump(&mut li, pk2, &mut conn2, conv2, &mut now);
        if got1.is_none() && li.manager.contains_key(&lkey(pk1, conv1)) {
            got1 = server_read(&mut li, pk1, conv1, 1500);
        }
        if got2.is_none() && li.manager.contains_key(&lkey(pk2, conv2)) {
            got2 = server_read(&mut li, pk2, conv2, 1500);
        }
        if got1.is_some() && got2.is_some() {
            break;
        }
    }
    assert_eq!(got1.unwrap(), b"first".to_vec());
    assert_eq!(got2.unwrap(), b"second".to_vec());
    // exactly two sessions, under distinct keys
    assert_eq!(li.manager.len(), 2);
}

#[test]
fn close_drains_registry() {
    let (mut li, mut conn, conv, pk) = setup();
    let mut now: u64 = 1;
    {
        let s = conn.sessions.get_mut(&conv).unwrap();
        assert!(matches!(s.kcore.poll_write(b"open"), Poll::Ready(Ok(4))));
    }
    for _ in 0..20 {
        pump(&mut li, pk, &mut conn, conv, &mut now);
        if li.manager.contains_key(&lkey(pk, conv)) {
            break;
        }
    }
    assert!(li.manager.contains_key(&lkey(pk, conv)));
    // dropping the stream enqueues a close; one accepter poll drains it
    li.enqueue_close(pk, conv);
    li.drain_closes();
    assert!(!li.manager.contains_key(&lkey(pk, conv)));
    assert!(li.close_queue.is_empty());
}

#[test]
fn conv_counter_wrap() {
    let mut inc = Increment::new(0xFFFF_FFFE);
    assert_eq!(inc.current(), 0xFFFF_FFFE);
    assert_eq!(inc.next(), 0xFFFF_FFFF);
    assert_eq!(inc.next(), 0);
    assert_eq!(inc.next(), 1);
}

#[test]
fn conv_allocation_skips_in_use() {
    let mut conn = KcpConnector::<u32>::new();
    let c1 = conn.connect().unwrap();
    assert_eq!(c1, 1);
    // the counter still rests on 1, which is now taken
    let c2 = conn.connect().unwrap();
    assert_eq!(c2, 2);
    assert_ne!(c1, c2);
    assert!(conn.sessions.contains_key(&c1));
    assert!(conn.sessions.contains_key(&c2));
}

#[test]
fn stream_constructors_keep_the_core() {
    let s = Session::<u32>::new(77, Some(5));
    assert_eq!(s.conv, 77);
    let mut stream = s.new_server();
    assert_eq!(stream.conv, 77);
    assert!(matches!(stream.kcore.poll_write(b"hi"), Poll::Ready(Ok(2))));
    let c = Session::<u32>::new(78, None);
    let stream2 = KcpStream::new_client(c.conv, c.kcore);
    assert_eq!(stream2.conv, 78);
}

#[test]
fn closed_session_is_recreated_fresh() {
    let (mut li, mut conn, conv, pk) = setup();
    let mut now: u64 = 1;
    {
        let s = conn.sessions.get_mut(&conv).unwrap();
        assert!(matches!(s.kcore.poll_write(b"first life"), Poll::Ready(Ok(10))));
    }
    for _ in 0..20 {
        pump(&mut li, pk, &mut conn, conv, &mut now);
        if li.manager.contains_key(&lkey(pk, conv)) {
            break;
        }
    }
    assert!(li.manager.contains_key(&lkey(pk, conv)));
    li.finish_close(pk, conv).unwrap();
    assert!(!li.manager.contains_key(&lkey(pk, conv)));
    // the same pair arriving again opens a brand-new session
    {
        let s = conn.sessions.get_mut(&conv).unwrap();
        assert!(matches!(s.kcore.poll_write(b"second life"), Poll::Ready(Ok(11))));
    }
    let mut opened = false;
    for _ in 0..20 {
        pump(&mut li, pk, &mut conn, conv, &mut now);
        if li.manager.contains_key(&lkey(pk, conv)) {
            opened = true;
            break;
        }
    }
    assert!(opened, "a fresh session was never created");
}

#[test]
fn listener_drops_short_datagram() {
    let mut li = KcpListener::<u32>::bind();
    let short = vec![0u8; kcp_mux::KCP_OVERHEAD - 1];
    let (d, w) = li.dispatch(99, &short);
    assert!(matches!(d, Dispatch::TooShort));
    assert!(w.is_none());
    assert_eq!(li.manager.len(), 0);
}
