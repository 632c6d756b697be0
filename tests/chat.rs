use streamchat::chat::{outbound_step, OutboundAction, Receiver, Role};
use streamchat::cipher::{make_streams, xor_with_keystream, Lcg};
use streamchat::dh::{handshake_message, handshake_secret, KeyPair};
use streamchat::net::{decode_be, encode_be, encode_frame, frame_len, ExactReader, RecvError};

/// One direction of an in-memory connection that hands out at most `chunk`
/// bytes per read and reports end of stream once drained.
struct Pipe {
    data: Vec<u8>,
    pos: usize,
    chunk: usize,
}

impl Pipe {
    fn new(chunk: usize) -> Pipe {
        Pipe { data: Vec::new(), pos: 0, chunk }
    }

    fn write(&mut self, bytes: &[u8]) {
        self.data.extend_from_slice(bytes);
    }

    fn read(&mut self, max: usize) -> Vec<u8> {
        let n = max.min(self.chunk).min(self.data.len() - self.pos);
        let out = self.data[self.pos..self.pos + n].to_vec();
        self.pos += n;
        out
    }
}

fn recv_exact(pipe: &mut Pipe, len: usize) -> Result<Vec<u8>, RecvError> {
    let mut reader = ExactReader::new(len);
    while !reader.is_complete() {
        let chunk = pipe.read(reader.remaining());
        reader.on_read(&chunk)?;
    }
    Ok(reader.into_bytes())
}

/// Runs the inbound loop until the pipe is drained, collecting surfaced messages.
fn drain(pipe: &mut Pipe, rx: &mut Receiver) -> Vec<Vec<u8>> {
    let mut out = Vec::new();
    while let Ok(bytes) = recv_exact(pipe, rx.wanted()) {
        if let Some(msg) = rx.on_bytes(&bytes) {
            out.push(msg);
        }
    }
    out
}

#[test]
fn recv_exact_gathers_hello_in_pieces() {
    let mut pipe = Pipe::new(2);
    pipe.write(b"hello");
    assert_eq!(recv_exact(&mut pipe, 5).unwrap(), b"hello".to_vec());
}

#[test]
fn recv_exact_fails_when_stream_closes_early() {
    let mut pipe = Pipe::new(16);
    pipe.write(b"abc");
    assert_eq!(recv_exact(&mut pipe, 5), Err(RecvError::ConnectionClosed));
}

#[test]
fn exact_reader_reports_closed_not_short_success() {
    let mut r = ExactReader::new(5);
    assert_eq!(r.on_read(b"abc"), Ok(()));
    assert_eq!(r.remaining(), 2);
    assert!(!r.is_complete());
    assert_eq!(r.on_read(b""), Err(RecvError::ConnectionClosed));
    assert!(!r.is_complete());
    assert_eq!(r.on_read(b"de"), Ok(()));
    assert!(r.is_complete());
    assert_eq!(r.into_bytes(), b"abcde".to_vec());
}

#[test]
fn exact_reader_of_zero_bytes_is_complete() {
    let r = ExactReader::new(0);
    assert!(r.is_complete());
    assert_eq!(r.remaining(), 0);
}

#[test]
fn big_endian_encoding_and_decoding() {
    assert_eq!(encode_be(0x0102_0304, 4), vec![1, 2, 3, 4]);
    assert_eq!(encode_be(0x0102_0304_0506_0708, 8), vec![1, 2, 3, 4, 5, 6, 7, 8]);
    assert_eq!(encode_be(0x1_0000_0005, 4), vec![0, 0, 0, 5]);
    assert_eq!(decode_be(&[1, 2, 3, 4]), 0x0102_0304);
    assert_eq!(decode_be(&[0xFF; 8]), u64::MAX);
    assert_eq!(decode_be(&[]), 0);
}

#[test]
fn frame_is_length_prefix_then_payload() {
    assert_eq!(encode_frame(b"abc"), vec![0, 0, 0, 3, b'a', b'b', b'c']);
    assert_eq!(encode_frame(&[]), vec![0, 0, 0, 0]);
    assert_eq!(frame_len(&[0, 0, 1, 2]), 258);
    assert_eq!(frame_len(&[0xFF, 0xFF, 0xFF, 0xFF]), u32::MAX);
}

#[test]
fn frames_arrive_in_order_and_empty_frames_are_silent() {
    let secret = 42u64;
    let (mut send, _) = make_streams(secret, Role::Server);
    let (_, recv) = make_streams(secret, Role::Client);
    let payloads: Vec<Vec<u8>> = vec![vec![], vec![1, 2, 3], vec![], vec![4, 5, 6, 7, 8]];
    let mut pipe = Pipe::new(3);
    for p in &payloads {
        let c = xor_with_keystream(p, &mut send);
        pipe.write(&encode_frame(&c));
    }
    let mut rx = Receiver::new(recv);
    let got = drain(&mut pipe, &mut rx);
    assert_eq!(got, vec![vec![1, 2, 3], vec![4, 5, 6, 7, 8]]);
}

#[test]
fn receiver_header_then_payload() {
    let mut rx = Receiver::new(Lcg::new(0));
    assert_eq!(rx.wanted(), 4);
    assert_eq!(rx.on_bytes(&[0, 0, 0, 0]), None);
    assert_eq!(rx.wanted(), 4);
    assert_eq!(rx.on_bytes(&[0, 0, 0, 2]), None);
    assert_eq!(rx.wanted(), 2);
    assert_eq!(rx.on_bytes(&[57, 126]), Some(vec![0, 0]));
    assert_eq!(rx.wanted(), 4);
}

#[test]
fn outbound_skips_empty_lines() {
    let mut ks = Lcg::new(5);
    assert!(matches!(outbound_step(b"", &mut ks), OutboundAction::Skip));
    assert!(matches!(outbound_step(b"\r\n", &mut ks), OutboundAction::Skip));
    assert!(matches!(outbound_step(b"\n\n", &mut ks), OutboundAction::Skip));
    let mut fresh = Lcg::new(5);
    assert_eq!(ks.next_byte(), fresh.next_byte());
}

#[test]
fn outbound_quit_sends_nothing() {
    let mut ks = Lcg::new(5);
    assert!(matches!(outbound_step(b"/quit\n", &mut ks), OutboundAction::Quit));
    assert!(matches!(outbound_step(b"/quit", &mut ks), OutboundAction::Quit));
    let mut fresh = Lcg::new(5);
    assert_eq!(ks.next_byte(), fresh.next_byte());
    assert!(matches!(outbound_step(b"/quit!", &mut ks), OutboundAction::Send(_)));
}

#[test]
fn outbound_encrypts_trimmed_line_into_a_frame() {
    let mut ks = Lcg::new(0);
    match outbound_step(b"ab\r\n", &mut ks) {
        OutboundAction::Send(frame) => {
            assert_eq!(frame, vec![0, 0, 0, 2, b'a' ^ 57, b'b' ^ 126]);
        }
        other => panic!("expected a frame, got {:?}", other),
    }
    assert_eq!(ks.next_byte(), 223);
}

#[test]
fn end_to_end_session_over_memory_pipes() {
    let mut to_client = Pipe::new(3);
    let mut to_server = Pipe::new(5);

    let server_kp = KeyPair::generate();
    let client_kp = KeyPair::generate();
    assert!(Role::Server.sends_first());
    assert!(!Role::Client.sends_first());
    to_client.write(&handshake_message(&server_kp));
    let server_public = recv_exact(&mut to_client, 8).unwrap();
    to_server.write(&handshake_message(&client_kp));
    let client_public = recv_exact(&mut to_server, 8).unwrap();
    let client_secret = handshake_secret(&client_kp, &server_public);
    let server_secret = handshake_secret(&server_kp, &client_public);
    assert_eq!(client_secret, server_secret);

    let (mut server_send, server_recv) = make_streams(server_secret, Role::Server);
    let (mut client_send, client_recv) = make_streams(client_secret, Role::Client);
    let mut server_rx = Receiver::new(server_recv);
    let mut client_rx = Receiver::new(client_recv);

    match outbound_step(b"hello\n", &mut server_send) {
        OutboundAction::Send(frame) => to_client.write(&frame),
        other => panic!("expected a frame, got {:?}", other),
    }
    assert_eq!(drain(&mut to_client, &mut client_rx), vec![b"hello".to_vec()]);

    match outbound_step(b"hi!\n", &mut client_send) {
        OutboundAction::Send(frame) => to_server.write(&frame),
        other => panic!("expected a frame, got {:?}", other),
    }
    assert_eq!(drain(&mut to_server, &mut server_rx), vec![b"hi!".to_vec()]);

    let before = to_client.data.len();
    assert!(matches!(outbound_step(b"/quit\n", &mut server_send), OutboundAction::Quit));
    assert_eq!(to_client.data.len(), before);
}
