use bytes::{Bytes, BytesMut};
use std::collections::{HashMap, VecDeque};
use utp::addr::SocketAddr;
use utp::listener::UtpListener;
use utp::packet::{Packet, PacketType};
use utp::socket::packet_receiver::ReceiverAction;
use utp::socket::{UtpSocket, MAX_DATAGRAM_SIZE};
use utp::stream::{
    FlushOutcome, ReadAction, ReadOutcome, UtpStream, WriteAction, MAX_DATA_SEGMENT_SIZE,
};
use utp::time::{current_micros, last_32_bits, timestamp};

fn addr(port: u16) -> SocketAddr {
    SocketAddr::V4 { ip: 0x7f00_0001, port }
}

fn get_packet() -> Packet {
    Packet::new(PacketType::State, 1, 2, 3, 4, 5, 6, 7, vec![], Bytes::new())
}

/// Connects two sockets.
fn get_connection_pair(
    socket_1: &mut UtpSocket,
    socket_2: &mut UtpSocket,
    mailbox: u64,
) -> (UtpStream, UtpStream) {
    let (connecting, syn) =
        UtpStream::connect(socket_1, socket_2.local_addr(), mailbox, 1_000_000).unwrap();
    let id = connecting.connection_id_recv;
    assert_eq!(socket_1.mailbox(id, socket_2.local_addr()), Some(mailbox));
    let listener = UtpListener::new(socket_2);
    let syn = Packet::try_from(syn.to_bytes()).unwrap();
    assert!(!socket_2.has_connection(id.wrapping_add(1), socket_1.local_addr()));
    let (conn_2, syn_ack) = listener.accept(socket_2, &syn, socket_1.local_addr(), mailbox);
    let syn_ack = Packet::try_from(syn_ack.to_bytes()).unwrap();
    assert_eq!(socket_1.mailbox(syn_ack.connection_id, socket_2.local_addr()), Some(mailbox));
    let conn_1 = connecting.finish(&syn_ack);
    (conn_1, conn_2)
}

fn get_streams() -> (UtpStream, UtpStream) {
    let mut socket_1 = UtpSocket::new(addr(1));
    let mut socket_2 = UtpSocket::new(addr(2));
    get_connection_pair(&mut socket_1, &mut socket_2, 1)
}

/// A connection that sends with the first sequence number and expects the packet after the
/// second.
fn stream_at(seq_number: u16, ack_number: u16) -> UtpStream {
    UtpStream::new(
        addr(1),
        10,
        11,
        addr(2),
        seq_number,
        ack_number,
        HashMap::new(),
        BytesMut::new(),
        VecDeque::new(),
    )
}

/// Writes a buffer, and gives the packets that are sent.
fn write_all(stream: &mut UtpStream, buf: &[u8]) -> Vec<Packet> {
    let mut packets = vec![];
    let mut written = 0;
    loop {
        match stream.poll_write_at(buf, written, 1000 + packets.len() as u32) {
            WriteAction::Done(n) => {
                assert_eq!(n, buf.len());
                return packets;
            }
            WriteAction::Send(packet, data) => {
                written += data.len();
                stream.data_sent(data);
                packets.push(packet);
            }
        }
    }
}

fn take(stream: &mut UtpStream, packets: Vec<Packet>) {
    stream.process_packets_at(packets.into_iter().map(|packet| (packet, 5000)).collect(), false);
}

/// Reads at most so many bytes, and gives the acknowledgement that is sent.
fn read(stream: &mut UtpStream, capacity: usize) -> (Option<Vec<u8>>, Packet) {
    assert!(stream.assembly_fits());
    let ack = match stream.poll_read_at(false, 9000) {
        ReadAction::SendAck(packet) => packet,
        ReadAction::Eof => panic!("more packets can come"),
    };
    match stream.finish_read(true, capacity) {
        ReadOutcome::Data(chunk) => (Some(chunk.to_vec()), ack),
        ReadOutcome::Pending => (None, ack),
        ReadOutcome::AckFailed => panic!("the acknowledgement was sent"),
    }
}

#[test]
fn basic_connection_test() {
    let mut socket_1 = UtpSocket::new(addr(1));
    let mut socket_2 = UtpSocket::new(addr(2));
    let (conn_1, conn_2) = get_connection_pair(&mut socket_1, &mut socket_2, 1);

    assert_eq!(conn_1.connection_id_send(), conn_2.connection_id_recv());
    assert_eq!(conn_1.connection_id_recv(), conn_2.connection_id_send());
    assert_eq!(conn_1.seq_number, conn_2.ack_number.wrapping_add(1));
    assert_eq!(conn_2.seq_number, conn_1.ack_number.wrapping_add(1));
    assert_eq!(conn_1.local_addr(), socket_1.local_addr());
    assert_eq!(conn_1.remote_addr(), socket_2.local_addr());
    assert_eq!(conn_2.local_addr(), socket_2.local_addr());
    assert_eq!(conn_2.remote_addr(), socket_1.local_addr());
    assert!(socket_2.has_connection(conn_2.connection_id_recv(), socket_1.local_addr()));
}

#[test]
fn routing_test() {
    let mut local_socket = UtpSocket::new(addr(1));
    let remote_addr = addr(2);

    const MAX_CONNS: usize = 200;

    let mut local_conns = vec![];
    for i in 0..MAX_CONNS {
        let id = local_socket.register_connection(remote_addr, i as u64, 1_000_000).unwrap();
        local_conns.push(id);
    }
    for (i, connection_id_recv) in local_conns.into_iter().enumerate() {
        let packet = Packet::new(
            PacketType::State,
            1,
            connection_id_recv,
            20,
            0,
            30,
            1,
            0,
            vec![],
            Bytes::new(),
        );
        let packet = Packet::try_from(packet.to_bytes()).unwrap();
        match local_socket.dispatch(packet, remote_addr) {
            ReceiverAction::Deliver { mailbox, packet, .. } => {
                assert_eq!(mailbox, i as u64);
                assert_eq!(packet.connection_id, connection_id_recv);
            }
            _ => panic!("not delivered"),
        }
    }
}

#[test]
fn async_read_and_write_test() {
    let (mut stream_1, mut stream_2) = get_streams();

    // Send/receive 1 packet of data
    let message = [1_u8; MAX_DATA_SEGMENT_SIZE];
    let packets = write_all(&mut stream_1, &message);
    assert_eq!(packets.len(), 1);
    take(&mut stream_2, packets);
    let (buf, ack) = read(&mut stream_2, MAX_DATA_SEGMENT_SIZE);
    assert_eq!(buf.unwrap(), message);
    take(&mut stream_1, vec![ack]);
    assert_eq!(stream_1.poll_flush(), FlushOutcome::Flushed);

    // Send/receive multiple packets of data
    const NUM_PACKETS: usize = 25;
    // Extra amount of bytes to force a smaller packet to be sent
    const LEFTOVER: usize = 512;
    let large_message = [1_u8; MAX_DATA_SEGMENT_SIZE * NUM_PACKETS + LEFTOVER];
    let packets = write_all(&mut stream_1, &large_message);
    assert_eq!(packets.len(), NUM_PACKETS + 1);
    assert_eq!(stream_1.poll_flush(), FlushOutcome::Pending);
    take(&mut stream_2, packets);
    let (buf, ack) = read(&mut stream_2, large_message.len());
    assert_eq!(buf.unwrap(), large_message);
    take(&mut stream_1, vec![ack]);
    assert_eq!(stream_1.poll_flush(), FlushOutcome::Flushed);
}

#[test]
fn accept_test() {
    let mut receiver = UtpSocket::new(addr(2));
    let sender = addr(1);
    let listener = UtpListener::new(&receiver);

    let mut packet = get_packet();
    packet.packet_type = PacketType::Syn;

    let (stream, syn_ack) = listener.accept(&mut receiver, &packet, sender, 9);
    assert_eq!(stream.connection_id_send(), packet.connection_id);
    assert_eq!(stream.connection_id_recv(), packet.connection_id.wrapping_add(1));
    assert_eq!(stream.local_addr(), receiver.local_addr());
    assert_eq!(stream.remote_addr(), sender);

    // SYN-ACK should have been sent
    assert_eq!(syn_ack.packet_type, PacketType::State);
    assert_eq!(syn_ack.connection_id, stream.connection_id_send());
    assert_eq!(syn_ack.ack_number, packet.seq_number);
    assert_eq!(stream.seq_number, syn_ack.seq_number.wrapping_add(1));
    assert_eq!(receiver.mailbox(stream.connection_id_recv(), sender), Some(9));
}

#[test]
fn accept_with_test() {
    let mut receiver = UtpSocket::new(addr(2));
    let listener = UtpListener::new(&receiver);
    let mut syn = get_packet();
    syn.packet_type = PacketType::Syn;
    syn.connection_id = u16::MAX;
    let (stream, syn_ack) = listener.accept_with(&mut receiver, &syn, addr(1), 9, u16::MAX);
    assert_eq!(stream.connection_id_recv(), 0);
    assert_eq!(stream.connection_id_send(), u16::MAX);
    assert_eq!(stream.seq_number, 0);
    assert_eq!(stream.ack_number, 6);
    let expected = Packet::new(
        PacketType::State,
        1,
        u16::MAX,
        0,
        0,
        0,
        u16::MAX,
        6,
        vec![],
        Bytes::new(),
    );
    assert_eq!(syn_ack, expected);
}

#[test]
fn accept_draws_at_random_test() {
    let mut numbers: Vec<u16> = vec![];
    for id in 0..64 {
        let mut socket = UtpSocket::new(addr(2));
        let listener = UtpListener::new(&socket);
        let mut syn = get_packet();
        syn.connection_id = id;
        numbers.push(listener.accept(&mut socket, &syn, addr(1), 1).1.seq_number);
    }
    numbers.sort();
    numbers.dedup();
    assert!(numbers.len() > 1);
}

#[test]
fn connect_test() {
    let (connecting, syn) = UtpStream::connect_with(addr(1), addr(2), u16::MAX);
    let expected =
        Packet::new(PacketType::Syn, 1, u16::MAX, 0, 0, 0, 1, 0, vec![], Bytes::new());
    assert_eq!(syn, expected);
    let mut response = get_packet();
    response.seq_number = 500;
    let stream = connecting.finish(&response);
    assert_eq!(stream.connection_id_recv(), u16::MAX);
    assert_eq!(stream.connection_id_send(), 0);
    assert_eq!(stream.seq_number, 2);
    assert_eq!(stream.ack_number, 500);
    assert!(!stream.is_shutdown);
}

#[test]
fn connect_registers_test() {
    let mut socket = UtpSocket::new(addr(1));
    for id in 0..u16::MAX {
        assert_eq!(socket.insert_connection(id, addr(2), 1), Ok(()));
    }
    let (connecting, syn) = UtpStream::connect(&mut socket, addr(2), 5, 3).unwrap();
    assert_eq!(connecting.connection_id_recv, u16::MAX);
    assert_eq!(connecting.local_addr, addr(1));
    assert_eq!(connecting.remote_addr, addr(2));
    assert_eq!(syn.connection_id, u16::MAX);
    assert_eq!(socket.mailbox(u16::MAX, addr(2)), Some(5));
    assert!(UtpStream::connect(&mut socket, addr(2), 6, 3).is_none());
}

#[test]
fn any_order_test() {
    let (mut stream_1, mut stream_2) = get_streams();
    let mut message = vec![];
    for i in 0..MAX_DATA_SEGMENT_SIZE * 4 + 1 {
        message.push((i % 251) as u8);
    }
    let packets = write_all(&mut stream_1, &message);
    assert_eq!(packets.len(), 5);
    // Backwards, and each packet twice.
    for i in [4, 4, 3, 2, 3, 2, 1] {
        take(&mut stream_2, vec![packets[i].clone()]);
        let (data, ack) = read(&mut stream_2, 100_000);
        assert_eq!(data, None);
        assert_eq!(ack.ack_number, packets[0].seq_number.wrapping_sub(1));
    }
    take(&mut stream_2, vec![packets[0].clone()]);
    let (data, ack) = read(&mut stream_2, 100_000);
    assert_eq!(data.unwrap(), message);
    assert_eq!(ack.ack_number, packets[4].seq_number);
}

#[test]
fn wrap_around_test() {
    let mut stream_1 = stream_at(65534, 0);
    let mut stream_2 = stream_at(0, 65533);
    let message = vec![7; MAX_DATA_SEGMENT_SIZE * 4];
    let packets = write_all(&mut stream_1, &message);
    let numbers: Vec<u16> = packets.iter().map(|packet| packet.seq_number).collect();
    assert_eq!(numbers, vec![65534, 65535, 0, 1]);
    assert_eq!(stream_1.seq_number, 2);
    take(&mut stream_2, packets);
    let (data, ack) = read(&mut stream_2, 100_000);
    assert_eq!(data.unwrap(), message);
    assert_eq!(ack.ack_number, 1);
    // The numbers in flight before the wrap are higher than the one that is acknowledged.
    take(&mut stream_1, vec![ack]);
    assert_eq!(stream_1.unacked_data.len(), 0);
    assert_eq!(stream_1.poll_flush(), FlushOutcome::Flushed);
}

#[test]
fn ack_across_wrap_test() {
    // 65535 and 0 are in flight.
    let mut stream = stream_at(65535, 0);
    stream.data_sent(Bytes::from_static(&[1]));
    stream.data_sent(Bytes::from_static(&[2]));
    let mut packet = get_packet();
    packet.ack_number = 65535;
    stream.handle_packet(packet.clone());
    let left: Vec<u16> = stream.unacked_data.iter().map(|entry| entry.0).collect();
    assert_eq!(left, vec![0]);
    packet.ack_number = 0;
    stream.handle_packet(packet);
    assert!(stream.unacked_data.is_empty());
}

#[test]
fn stale_ack_after_wrap_test() {
    // 0 and 1 are in flight, and 65535 was acknowledged before.
    let mut stream = stream_at(0, 0);
    stream.data_sent(Bytes::from_static(&[1]));
    stream.data_sent(Bytes::from_static(&[2]));
    let mut packet = get_packet();
    packet.ack_number = 65535;
    assert!(!stream.is_suspicious(&packet));
    take(&mut stream, vec![packet]);
    assert_eq!(stream.unacked_data.len(), 2);
    assert_eq!(stream.poll_flush(), FlushOutcome::Pending);
}

#[test]
fn long_transfer_test() {
    // More packets than may be ahead, each of them read before the next comes in.
    let (mut stream_1, mut stream_2) = get_streams();
    let mut message = vec![];
    for i in 0..MAX_DATA_SEGMENT_SIZE * 300 {
        message.push((i % 253) as u8);
    }
    let mut received = vec![];
    for packet in write_all(&mut stream_1, &message) {
        take(&mut stream_2, vec![packet]);
        received.extend(read(&mut stream_2, 2000).0.unwrap());
    }
    assert_eq!(received, message);
    assert!(stream_2.inbound_data.is_empty());
}

#[test]
fn read_in_pieces_test() {
    let (mut stream_1, mut stream_2) = get_streams();
    let packets = write_all(&mut stream_1, &[1, 2, 3, 4, 5]);
    take(&mut stream_2, packets);
    assert_eq!(read(&mut stream_2, 2).0, Some(vec![1, 2]));
    assert_eq!(read(&mut stream_2, 2).0, Some(vec![3, 4]));
    assert_eq!(read(&mut stream_2, 0).0, Some(vec![]));
    assert_eq!(read(&mut stream_2, 2).0, Some(vec![5]));
    assert_eq!(read(&mut stream_2, 2).0, None);
}

#[test]
fn failed_ack_test() {
    let (mut stream_1, mut stream_2) = get_streams();
    let packets = write_all(&mut stream_1, &[1, 2, 3]);
    take(&mut stream_2, packets);
    assert!(matches!(stream_2.poll_read_at(false, 0), ReadAction::SendAck(_)));
    assert!(matches!(stream_2.finish_read(false, 10), ReadOutcome::AckFailed));
    // The data is still there.
    assert_eq!(read(&mut stream_2, 10).0, Some(vec![1, 2, 3]));
}

#[test]
fn packets_test() {
    let mut stream = stream_at(100, 200);
    let packets = write_all(&mut stream, &[9; MAX_DATA_SEGMENT_SIZE + 3]);
    let expected = Packet::new(
        PacketType::Data,
        1,
        11,
        1000,
        0,
        0,
        100,
        200,
        vec![],
        Bytes::from(vec![9; MAX_DATA_SEGMENT_SIZE]),
    );
    assert_eq!(packets[0], expected);
    assert_eq!(packets[0].to_bytes().len(), MAX_DATAGRAM_SIZE);
    let expected = Packet::new(
        PacketType::Data,
        1,
        11,
        1001,
        0,
        0,
        101,
        200,
        vec![],
        Bytes::from_static(&[9, 9, 9]),
    );
    assert_eq!(packets[1], expected);
    let ack = stream.send_ack(5);
    let expected = Packet::new(PacketType::State, 1, 11, 5, 0, 0, 102, 200, vec![], Bytes::new());
    assert_eq!(ack, expected);
    let data = stream.send_data(Bytes::from_static(&[1, 2]), 7);
    assert_eq!(data.data.to_vec(), vec![1, 2]);
    assert_eq!(data.seq_number, 102);
    assert_eq!(stream.unacked_data.len(), 2);
}

#[test]
fn empty_write_test() {
    let mut stream = stream_at(1, 1);
    assert_eq!(write_all(&mut stream, &[]).len(), 0);
    assert_eq!(stream.poll_flush(), FlushOutcome::Flushed);
}

#[test]
fn suspicious_data_test() {
    let stream = stream_at(1, 1000);
    let mut packet = get_packet();
    packet.packet_type = PacketType::Data;
    for (seq_number, suspicious) in
        [(1000, false), (1128, false), (1129, true), (872, false), (871, true), (40000, true)]
    {
        packet.seq_number = seq_number;
        assert_eq!(stream.is_suspicious(&packet), suspicious);
    }
    let stream = stream_at(1, 65500);
    for (seq_number, suspicious) in [(0, false), (92, false), (93, true), (65372, false)] {
        packet.seq_number = seq_number;
        assert_eq!(stream.is_suspicious(&packet), suspicious);
    }
}

#[test]
fn suspicious_ack_test() {
    let mut stream = stream_at(10, 0);
    let mut packet = get_packet();
    // Nothing is in flight.
    for (ack_number, suspicious) in
        [(9, false), (7, false), (6, true), (10, true), (11, true), (5, true)]
    {
        packet.ack_number = ack_number;
        assert_eq!(stream.is_suspicious(&packet), suspicious);
    }
    stream.data_sent(Bytes::from_static(&[1]));
    stream.data_sent(Bytes::from_static(&[2]));
    // Two packets are in flight, and the next has the number 12.
    for (ack_number, suspicious) in [(11, false), (7, false), (6, true), (12, true)] {
        packet.ack_number = ack_number;
        assert_eq!(stream.is_suspicious(&packet), suspicious);
    }
}

#[test]
fn suspicious_packets_are_ignored_test() {
    let mut stream = stream_at(10, 0);
    stream.data_sent(Bytes::from_static(&[1]));
    let mut packet = get_packet();
    packet.ack_number = 11;
    assert!(!stream.poll_read_packet(&packet, 50));
    take(&mut stream, vec![packet.clone()]);
    assert_eq!(stream.unacked_data.len(), 1);
    assert!(stream.congestion_controller.local_delay_samples.is_empty());
    packet.ack_number = 10;
    assert!(stream.poll_read_packet(&packet, 50));
    assert_eq!(stream.congestion_controller.local_delay_samples, vec![0]);
    stream.handle_packet(packet);
    assert_eq!(stream.unacked_data.len(), 0);
}

#[test]
fn ack_ahead_test() {
    // The packet with the number 5 is in flight.
    let mut stream = stream_at(5, 0);
    stream.data_sent(Bytes::from_static(&[1]));
    let mut packet = get_packet();
    packet.ack_number = 9;
    assert!(stream.is_suspicious(&packet));
    take(&mut stream, vec![packet.clone()]);
    assert_eq!(stream.unacked_data.len(), 1);
    // It is not asked whether the packet is suspicious when it is to be handled.
    packet.ack_number = 0;
    stream.handle_packet(packet.clone());
    assert_eq!(stream.unacked_data.len(), 1);
    packet.ack_number = 9;
    stream.handle_packet(packet);
    assert_eq!(stream.unacked_data.len(), 0);
}

#[test]
fn partial_ack_test() {
    let mut stream = stream_at(10, 0);
    for i in 0..4 {
        stream.data_sent(Bytes::from(vec![i]));
    }
    let mut packet = get_packet();
    packet.ack_number = 11;
    take(&mut stream, vec![packet.clone()]);
    let left: Vec<u16> = stream.unacked_data.iter().map(|entry| entry.0).collect();
    assert_eq!(left, vec![12, 13]);
    assert_eq!(stream.poll_flush(), FlushOutcome::Pending);
    // An old acknowledgement changes nothing.
    packet.ack_number = 10;
    take(&mut stream, vec![packet.clone()]);
    assert_eq!(stream.unacked_data.len(), 2);
    packet.ack_number = 13;
    take(&mut stream, vec![packet]);
    assert_eq!(stream.poll_flush(), FlushOutcome::Flushed);
}

#[test]
fn shut_down_test() {
    let mut stream = stream_at(10, 0);
    stream.shut_down();
    assert!(matches!(stream.poll_write(&[1, 2, 3], 0), Some(WriteAction::Done(0))));
    assert_eq!(stream.poll_flush(), FlushOutcome::Flushed);

    let mut stream = stream_at(10, 0);
    assert!(stream.process_packets(VecDeque::new(), true));
    assert!(stream.is_shutdown);
    assert!(matches!(stream.poll_read(true), Some(ReadAction::Eof)));
}

#[test]
fn congestion_test() {
    let mut stream = stream_at(10, 0);
    assert_eq!(stream.congestion_controller.current_window, 0);
    assert_eq!(stream.congestion_controller.local_receive_window, 1024 * 1024);
    assert_eq!(stream.congestion_controller.remote_receive_window, 1500);
    assert_eq!(stream.congestion_controller.local_base_delay, u32::MAX);
    let mut packet = get_packet();
    packet.packet_type = PacketType::Data;
    packet.seq_number = 1;
    for (sent, received, delta, window) in
        [(100, 150, 9, 70), (u32::MAX - 9, 20, 4, 80), (0, 60, 6, 90)]
    {
        packet.timestamp_micros = sent;
        packet.timestamp_delta_micros = delta;
        packet.window_size = window;
        stream.process_packets_at(VecDeque::from([(packet.clone(), received)]), false);
    }
    let controller = &stream.congestion_controller;
    assert_eq!(controller.local_delay_samples, vec![0, 0, 30]);
    assert_eq!(controller.remote_delay_samples, vec![0, 0, 2]);
    assert_eq!(controller.local_base_delay, 30);
    assert_eq!(controller.remote_base_delay, 4);
    assert_eq!(controller.remote_receive_window, 90);
}

#[test]
fn current_micros_test() {
    assert_eq!(last_32_bits(0x1_2345_6789_abcd), 0x6789_abcd);
    assert_eq!(last_32_bits(7), 7);
    assert_eq!(last_32_bits(0x1_0000_0000), 0);
    assert_eq!(timestamp(Some(0x1_2345_6789_abcd)), Some(0x6789_abcd));
    assert_eq!(timestamp(None), None);
    // The clock moves on.
    let start = current_micros().unwrap();
    let mut turns: u64 = 0;
    while current_micros().unwrap() == start && turns < 100_000_000 {
        turns += 1;
    }
    assert_ne!(current_micros().unwrap(), start);
}

#[test]
fn clock_test() {
    let (mut stream_1, mut stream_2) = get_streams();
    // Times that are less than a minute apart.
    let close = |earlier: u32, later: u32| later.wrapping_sub(earlier) < 60_000_000;
    let start = current_micros().unwrap();
    let packet = match stream_1.poll_write(&[1, 2, 3], 0) {
        Some(WriteAction::Send(packet, data)) => {
            stream_1.data_sent(data);
            packet
        }
        _ => panic!("there is data to send"),
    };
    assert!(close(start, packet.timestamp_micros));
    assert!(matches!(stream_1.poll_write(&[1, 2, 3], 3), Some(WriteAction::Done(3))));
    assert!(stream_2.process_packets(VecDeque::from([packet]), false));
    assert_eq!(stream_2.congestion_controller.local_delay_samples.len(), 1);
    assert!(close(0, stream_2.congestion_controller.local_base_delay));
    match stream_2.poll_read(false) {
        Some(ReadAction::SendAck(ack)) => {
            assert!(close(start, ack.timestamp_micros));
            assert_eq!(ack.ack_number, 2);
            assert!(stream_1.process_packets(VecDeque::from([ack]), false));
        }
        _ => panic!("more packets can come"),
    }
    assert!(matches!(stream_2.finish_read(true, 10), ReadOutcome::Data(data) if data.len() == 3));
    assert_eq!(stream_1.poll_flush(), FlushOutcome::Flushed);
}
