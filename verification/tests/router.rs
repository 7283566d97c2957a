use bytes::Bytes;
use dashmap::DashMap;
use std::collections::HashMap;
use utp::addr::SocketAddr;
use utp::connection::{Connection, ConnectionAction, ConnectionEvent};
use utp::connection_manager::ConnectionManager;
use utp::error::ConnectionError;
use utp::packet::{Packet, PacketType};
use utp::router::Router;
use utp::util::resolve;

fn addr(port: u16) -> SocketAddr {
    SocketAddr::V4 { ip: 0x7f00_0001, port }
}

fn packet(packet_type: PacketType, connection_id: u16) -> Packet {
    Packet::new(packet_type, 1, connection_id, 3, 4, 5, 6, 7, vec![], Bytes::new())
}

#[test]
fn lowest_free_id_test() {
    let mut router = Router::new(HashMap::from([(0, 10), (1, 11), (3, 13)]), None);
    assert_eq!(router.register_channel(20), Ok(2));
    assert_eq!(router.register_channel(21), Ok(4));
    assert_eq!(router.connection_states[&2], 20);
    assert_eq!(router.connection_states[&3], 13);
}

#[test]
fn too_many_test() {
    let mut states = HashMap::new();
    for id in 0..u16::MAX {
        states.insert(id, 1);
    }
    let mut router = Router::new(states, None);
    assert_eq!(router.register_channel(2), Ok(u16::MAX));
    assert_eq!(router.register_channel(3), Err(ConnectionError::TooMany));
    assert!(matches!(
        Connection::generate(&mut router, 4, addr(1)),
        Err(ConnectionError::TooMany)
    ));
}

#[test]
fn set_channel_test() {
    let mut router = Router::new(HashMap::new(), None);
    assert!(router.set_channel(9, 1));
    assert!(!router.set_channel(9, 2));
    assert_eq!(router.connection_states[&9], 1);
}

#[test]
fn route_test() {
    let mut router = Router::new(HashMap::new(), Some(50));
    assert!(router.set_channel(9, 1));
    // A known ID decides, even for a packet that asks for a connection.
    for packet_type in [PacketType::Data, PacketType::Syn] {
        assert_eq!(
            router.route(packet(packet_type, 9), addr(3)),
            Some((1, packet(packet_type, 9), addr(3)))
        );
    }
    assert_eq!(
        router.route(packet(PacketType::Syn, 8), addr(4)),
        Some((50, packet(PacketType::Syn, 8), addr(4)))
    );
    assert_eq!(router.route(packet(PacketType::State, 8), addr(4)), None);
    router.syn_packet_tx = None;
    assert_eq!(router.route(packet(PacketType::Syn, 8), addr(4)), None);
}

#[test]
fn connection_manager_test() {
    let states = DashMap::new();
    states.insert(3, 30);
    let mut manager = ConnectionManager::new(states, 1);
    assert_eq!(manager.get_state(3), Some(30));
    assert_eq!(manager.get_state(4), None);
    assert!(!manager.set_state(3, 31));
    assert!(manager.set_state(4, 40));
    assert_eq!(manager.get_state(3), Some(30));
    assert_eq!(manager.get_state(4), Some(40));
}

#[test]
fn resolve_test() {
    assert_eq!(resolve(&[addr(1), addr(2)]), Ok(addr(1)));
    assert_eq!(resolve(&[]), Err(ConnectionError::NoAddress));
}

#[test]
fn generate_test() {
    let mut router = Router::new(HashMap::from([(0, 10)]), None);
    let mut connection = match Connection::generate(&mut router, 5, addr(1)) {
        Ok(connection) => connection,
        Err(_) => panic!("there is room"),
    };
    assert_eq!(connection.connection_id(), 1);
    assert_eq!(connection.remote_addr, addr(1));
    assert_eq!(router.connection_states[&1], 5);
    let action = connection.poll_next(ConnectionEvent::Polled);
    assert!(matches!(action, ConnectionAction::TryReceive));
}

#[test]
fn own_packet_test() {
    let mut connection = Connection::new(7, addr(1), false, false, false);
    let action = connection.poll_next(ConnectionEvent::Polled);
    assert!(matches!(action, ConnectionAction::TryReceive));
    let action = connection
        .poll_next(ConnectionEvent::Received(packet(PacketType::Data, 7), addr(1)));
    assert!(matches!(action, ConnectionAction::Message));
}

#[test]
fn foreign_packet_test() {
    let mut connection = Connection::new(7, addr(1), false, false, false);
    let action = connection.poll_next(ConnectionEvent::NothingReceived);
    assert!(matches!(action, ConnectionAction::StartRead));
    assert!(connection.read_pending);
    match connection.poll_next(ConnectionEvent::ReadDone(packet(PacketType::Data, 8), addr(2))) {
        ConnectionAction::StartRoute(foreign, from) => {
            assert_eq!(foreign, packet(PacketType::Data, 8));
            assert_eq!(from, addr(2));
        }
        _ => panic!("the packet is for another connection"),
    }
    assert!(!connection.read_pending);
    // There is no answer until the packet is on its way.
    let action = connection.poll_next(ConnectionEvent::RouteStarted { done: false });
    assert!(matches!(action, ConnectionAction::Sleep));
    let action = connection.poll_next(ConnectionEvent::Polled);
    assert!(matches!(action, ConnectionAction::PollRoute));
    let action = connection.poll_next(ConnectionEvent::RoutePolled { done: false });
    assert!(matches!(action, ConnectionAction::Sleep));
    let action = connection.poll_next(ConnectionEvent::RoutePolled { done: true });
    assert!(matches!(action, ConnectionAction::TryReceive));
    assert!(!connection.route_pending);
}

#[test]
fn routed_at_once_test() {
    let mut connection = Connection::new(7, addr(1), false, false, false);
    let action = connection
        .poll_next(ConnectionEvent::Received(packet(PacketType::Data, 8), addr(1)));
    assert!(matches!(action, ConnectionAction::StartRoute(..)));
    let action = connection.poll_next(ConnectionEvent::RouteStarted { done: true });
    assert!(matches!(action, ConnectionAction::Sleep));
    assert!(!connection.route_pending);
}

#[test]
fn pending_read_and_write_test() {
    let mut connection = Connection::new(7, addr(1), false, true, false);
    let action = connection.poll_next(ConnectionEvent::Polled);
    assert!(matches!(action, ConnectionAction::PollWrite));
    let action = connection.poll_next(ConnectionEvent::WritePolled { done: false });
    assert!(matches!(action, ConnectionAction::Sleep));
    let action = connection.poll_next(ConnectionEvent::WritePolled { done: true });
    assert!(matches!(action, ConnectionAction::TryReceive));

    let mut connection = Connection::new(7, addr(1), true, false, false);
    let action = connection.poll_next(ConnectionEvent::Polled);
    assert!(matches!(action, ConnectionAction::PollRead));
    let action = connection.poll_next(ConnectionEvent::ReadPending);
    assert!(matches!(action, ConnectionAction::Sleep));
    let action = connection.poll_next(ConnectionEvent::ReadFailed);
    assert!(matches!(action, ConnectionAction::Error));
    assert!(!connection.read_pending);
}
