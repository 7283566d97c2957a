use bytes::Bytes;
use utp::addr::SocketAddr;
use utp::error::ConnectionError;
use utp::listener::UtpListener;
use utp::packet::{Packet, PacketType};
use utp::socket::packet_receiver::{PacketReceiver, ReceiverAction, ReceiverEvent};
use utp::socket::packet_sender::{PacketSender, SenderAction, SenderEvent};
use utp::socket::UtpSocket;

fn addr(last: u32, port: u16) -> SocketAddr {
    SocketAddr::V4 { ip: 0x7f00_0000 + last, port }
}

fn get_packet() -> Packet {
    Packet::new(PacketType::State, 1, 2, 3, 4, 5, 6, 7, vec![], Bytes::new())
}

/// Sends a packet from one address, and tells what the task that receives it is to do.
fn travel(packet: Packet, from: SocketAddr, to: SocketAddr) -> ReceiverAction {
    let mut sender = PacketSender::new();
    assert!(matches!(sender.poll(SenderEvent::Woken), SenderAction::PollQueue));
    assert!(matches!(sender.poll(SenderEvent::Queued(packet, to)), SenderAction::PollQueue));
    assert!(matches!(sender.poll(SenderEvent::QueueEmpty), SenderAction::CheckSocket));
    let payload = match sender.poll(SenderEvent::SocketChecked { alive: true }) {
        SenderAction::Send(payload, remote_addr) => {
            assert_eq!(remote_addr, to);
            payload
        }
        _ => panic!("nothing is sent"),
    };
    assert!(matches!(sender.poll(SenderEvent::Sent), SenderAction::Sleep));
    PacketReceiver::poll(ReceiverEvent::Received { payload, remote_addr: from })
}

#[test]
fn socket_local_addr_test() {
    let socket = UtpSocket::new(addr(1, 4000));
    assert_eq!(socket.local_addr(), addr(1, 4000));
}

#[test]
fn listener_local_addr_test() {
    let socket = UtpSocket::new(addr(1, 4000));
    let listener = UtpListener::new(&socket);
    assert_eq!(listener.local_addr(), socket.local_addr());
}

#[test]
fn send_and_recv_test() {
    let socket_1 = UtpSocket::new(addr(1, 1000));
    let mut socket_2 = UtpSocket::new(addr(1, 2000));
    let connection_id = socket_2.register_connection(socket_1.local_addr(), 77, 10).unwrap();

    let mut packet = get_packet();
    packet.connection_id = connection_id;

    match travel(packet.clone(), socket_1.local_addr(), socket_2.local_addr()) {
        ReceiverAction::Route(received, from) => match socket_2.dispatch(received, from) {
            ReceiverAction::Deliver { mailbox, packet: delivered, remote_addr } => {
                assert_eq!(mailbox, 77);
                assert_eq!(delivered, packet);
                assert_eq!(remote_addr, socket_1.local_addr());
            }
            _ => panic!("not delivered"),
        },
        _ => panic!("not routed"),
    }
}

#[test]
fn init_connection_test() {
    let mut socket = UtpSocket::new(addr(1, 4000));
    let (connection_id, remote_addr) = (1, addr(2, 8080));

    assert_eq!(socket.insert_connection(connection_id, remote_addr, 5), Ok(()));
    assert_eq!(socket.mailbox(connection_id, remote_addr), Some(5));

    assert_eq!(
        socket.insert_connection(connection_id, remote_addr, 6),
        Err(ConnectionError::AlreadyExists(connection_id, remote_addr))
    );
    assert_eq!(socket.mailbox(connection_id, remote_addr), Some(5));
}

#[test]
fn register_connection_test() {
    let mut socket = UtpSocket::new(addr(1, 4000));
    let remote_addr = addr(1, 8080);
    let id_1 = socket.register_connection(remote_addr, 1, 1000).unwrap();
    let id_2 = socket.register_connection(remote_addr, 2, 1000).unwrap();

    assert_ne!(id_1, id_2);

    // A packet for one connection does not go to the other.
    let mut packet = get_packet();
    packet.connection_id = id_1;
    match socket.dispatch(packet, remote_addr) {
        ReceiverAction::Deliver { mailbox, .. } => assert_eq!(mailbox, 1),
        _ => panic!("not delivered"),
    }
    assert_eq!(socket.mailbox(id_2, remote_addr), Some(2));
}

#[test]
fn random_ids_test() {
    // Were every random ID the same, only one connection could be registered.
    let mut socket = UtpSocket::new(addr(1, 4000));
    for mailbox in 0..100 {
        assert!(socket.register_connection(addr(1, 8080), mailbox, 1000).is_some());
    }
}

#[test]
fn no_draws_test() {
    // Without a draw the lowest ID that is free is used.
    let mut socket = UtpSocket::new(addr(1, 4000));
    for id in 0..3 {
        assert_eq!(socket.register_connection(addr(1, 8080), id as u64, 0), Some(id));
    }
    socket.remove_connection(1, addr(1, 8080));
    assert_eq!(socket.register_connection(addr(1, 8080), 9, 0), Some(1));
    assert_eq!(socket.mailbox(1, addr(1, 8080)), Some(9));
}

#[test]
fn full_table_test() {
    let mut socket = UtpSocket::new(addr(1, 4000));
    for id in 0..=u16::MAX {
        assert_eq!(socket.insert_connection(id, addr(1, 8080), id as u64), Ok(()));
    }
    assert_eq!(socket.register_connection(addr(1, 8080), 1, 50), None);
    assert!(socket.register_connection(addr(1, 8081), 1, 1).is_some());
}

#[test]
fn last_free_id_test() {
    let mut socket = UtpSocket::new(addr(1, 4000));
    for id in 0..=u16::MAX {
        if id != 43210 {
            assert_eq!(socket.insert_connection(id, addr(1, 8080), 7), Ok(()));
        }
    }
    assert_eq!(socket.register_connection(addr(1, 8080), 8, 1), Some(43210));
    assert_eq!(socket.mailbox(43210, addr(1, 8080)), Some(8));
    assert_eq!(socket.register_connection(addr(1, 8080), 9, 1), None);
}

#[test]
fn connections_are_separate_test() {
    let mut socket = UtpSocket::new(addr(1, 4000));
    let v6 = SocketAddr::V6 { ip: 1, port: 8080, flowinfo: 0, scope_id: 0 };
    let v6_scoped = SocketAddr::V6 { ip: 1, port: 8080, flowinfo: 0, scope_id: 3 };
    let v6_flow = SocketAddr::V6 { ip: 1, port: 8080, flowinfo: 4, scope_id: 0 };
    let peers = [addr(1, 8080), addr(1, 8081), addr(2, 8080), v6, v6_scoped, v6_flow];
    let mut mailbox = 0;
    for peer in peers {
        for id in [7, 8] {
            assert!(!socket.has_connection(id, peer));
            assert_eq!(socket.insert_connection(id, peer, mailbox), Ok(()));
            mailbox += 1;
        }
    }
    socket.remove_connection(7, addr(2, 8080));
    let mut mailbox = 0;
    for peer in peers {
        for id in [7, 8] {
            if id == 7 && peer == addr(2, 8080) {
                assert_eq!(socket.mailbox(id, peer), None);
            } else {
                assert_eq!(socket.mailbox(id, peer), Some(mailbox));
            }
            mailbox += 1;
        }
    }
}

#[test]
fn stale_connection_test() {
    let mut socket = UtpSocket::new(addr(1, 4000));
    let peer = addr(2, 8080);
    assert_eq!(socket.insert_connection(2, peer, 9), Ok(()));
    assert!(matches!(socket.delivered(2, peer, true), ReceiverAction::PollReady));
    assert!(socket.has_connection(2, peer));
    assert!(matches!(socket.delivered(2, peer, false), ReceiverAction::PollReady));
    assert!(!socket.has_connection(2, peer));
    match socket.dispatch(get_packet(), peer) {
        ReceiverAction::NoConnection(packet, from) => {
            assert_eq!(packet, get_packet());
            assert_eq!(from, peer);
        }
        _ => panic!("there is no connection"),
    }
}

#[test]
fn receiver_test() {
    let action = PacketReceiver::poll(ReceiverEvent::Woken { socket_alive: true });
    assert!(matches!(action, ReceiverAction::PollReady));
    let action = PacketReceiver::poll(ReceiverEvent::Woken { socket_alive: false });
    assert!(matches!(action, ReceiverAction::ShutDown));
    assert!(matches!(PacketReceiver::poll(ReceiverEvent::Ready), ReceiverAction::PollReceive));
    assert!(matches!(PacketReceiver::poll(ReceiverEvent::ReadyFailed), ReceiverAction::ShutDown));
    assert!(matches!(PacketReceiver::poll(ReceiverEvent::ReadyPending), ReceiverAction::Sleep));
    assert!(matches!(
        PacketReceiver::poll(ReceiverEvent::ReceiveFailed),
        ReceiverAction::PollReady
    ));
    assert!(matches!(PacketReceiver::poll(ReceiverEvent::ReceivePending), ReceiverAction::Sleep));
    assert!(matches!(PacketReceiver::poll(ReceiverEvent::Dropped), ReceiverAction::PollReady));
    assert!(matches!(PacketReceiver::poll(ReceiverEvent::SynSaved), ReceiverAction::PollReady));
    assert!(matches!(
        PacketReceiver::poll(ReceiverEvent::SynQueueClosed),
        ReceiverAction::ShutDown
    ));
    assert!(matches!(
        PacketReceiver::poll(ReceiverEvent::RoutingTableGone),
        ReceiverAction::ShutDown
    ));
    let action = PacketReceiver::poll(ReceiverEvent::Received {
        payload: Bytes::from_static(&[1, 2, 3]),
        remote_addr: addr(1, 1),
    });
    assert!(matches!(action, ReceiverAction::Discard(_)));
}

#[test]
fn syn_travels_test() {
    let mut packet = get_packet();
    packet.packet_type = PacketType::Syn;
    match travel(packet.clone(), addr(1, 1), addr(1, 2)) {
        ReceiverAction::SaveSyn(received, from) => {
            assert_eq!(received, packet);
            assert_eq!(from, addr(1, 1));
        }
        _ => panic!("not saved"),
    }
}

#[test]
fn sent_in_order_test() {
    let mut sender = PacketSender::new();
    let mut sent: Vec<u16> = vec![];
    for number in 0..5 {
        let mut packet = get_packet();
        packet.seq_number = number;
        let action = sender.poll(SenderEvent::Queued(packet, addr(3, number)));
        assert!(matches!(action, SenderAction::PollQueue));
    }
    assert!(matches!(sender.poll(SenderEvent::QueueEmpty), SenderAction::CheckSocket));
    let mut action = sender.poll(SenderEvent::SocketChecked { alive: true });
    // The first packet fails once, and the third has to wait.
    let mut tries = 0;
    while let SenderAction::Send(payload, to) = action {
        let packet = Packet::try_from(payload).unwrap();
        assert_eq!(to, addr(3, packet.seq_number));
        tries += 1;
        if tries == 1 {
            action = sender.poll(SenderEvent::SendFailed);
        } else if tries == 4 {
            assert!(matches!(sender.poll(SenderEvent::SendPending), SenderAction::Sleep));
            assert!(matches!(sender.poll(SenderEvent::Woken), SenderAction::PollQueue));
            assert!(matches!(sender.poll(SenderEvent::QueueEmpty), SenderAction::CheckSocket));
            action = sender.poll(SenderEvent::SocketChecked { alive: true });
        } else {
            sent.push(packet.seq_number);
            action = sender.poll(SenderEvent::Sent);
        }
    }
    assert!(matches!(action, SenderAction::Sleep));
    assert_eq!(sent, vec![0, 1, 2, 3, 4]);
    assert_eq!(tries, 7);
}

#[test]
fn sender_shuts_down_test() {
    let mut sender = PacketSender::new();
    assert!(matches!(sender.poll(SenderEvent::QueueClosed), SenderAction::ShutDown));
    let action = sender.poll(SenderEvent::SocketChecked { alive: false });
    assert!(matches!(action, SenderAction::ShutDown));
}

#[test]
fn reception_test() {
    // Two connections to one peer. The mailbox of the second disappears after its first packet.
    let mut socket = UtpSocket::new(addr(1, 4000));
    let peer = addr(2, 8080);
    assert_eq!(socket.insert_connection(2, peer, 20), Ok(()));
    assert_eq!(socket.insert_connection(3, peer, 30), Ok(()));
    let mut mail: Vec<(u64, u16)> = vec![];
    let mut syns: Vec<u16> = vec![];
    let arrivals = [
        (2, PacketType::Data, peer),
        (3, PacketType::State, peer),
        (2, PacketType::Syn, peer),
        (2, PacketType::State, addr(3, 8080)),
        (3, PacketType::Data, peer),
        (2, PacketType::Data, peer),
        (3, PacketType::Data, peer),
        (9, PacketType::Syn, addr(3, 8080)),
    ];
    for (number, (connection_id, packet_type, from)) in arrivals.into_iter().enumerate() {
        let mut packet = get_packet();
        packet.connection_id = connection_id;
        packet.packet_type = packet_type;
        packet.seq_number = number as u16;
        match travel(packet, from, socket.local_addr()) {
            ReceiverAction::SaveSyn(packet, _) => syns.push(packet.seq_number),
            ReceiverAction::Route(packet, from) => {
                if let ReceiverAction::Deliver { mailbox, packet, remote_addr } =
                    socket.dispatch(packet, from)
                {
                    let accepted = mailbox == 20 || number < 2;
                    if accepted {
                        mail.push((mailbox, packet.seq_number));
                    }
                    let action = socket.delivered(packet.connection_id, remote_addr, accepted);
                    assert!(matches!(action, ReceiverAction::PollReady));
                }
            }
            _ => panic!("every datagram is a packet"),
        }
    }
    assert_eq!(mail, vec![(20, 0), (30, 1), (20, 5)]);
    assert_eq!(syns, vec![2, 7]);
    assert!(socket.has_connection(2, peer));
    assert!(!socket.has_connection(3, peer));
}
