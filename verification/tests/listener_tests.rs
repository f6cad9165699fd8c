use ssh_knock::config::{KnockStep, Protocol};
use ssh_knock::server::{
    echo_buffer_len, echo_payload_size, listener_plan, receive_buffer_len, ListenerError,
};

#[test]
fn listens_once_per_port_and_protocol() {
    let plan = listener_plan(&vec![
        KnockStep { protocol: Protocol::Udp, port: Some(7002), size: 1 },
        KnockStep { protocol: Protocol::Tcp, port: Some(7002), size: 2 },
        KnockStep { protocol: Protocol::Udp, port: Some(7001), size: 3 },
        KnockStep { protocol: Protocol::Udp, port: Some(7002), size: 4 },
        KnockStep { protocol: Protocol::Icmp, port: None, size: 5 },
    ])
    .unwrap();
    assert_eq!(plan.udp_ports, vec![7002, 7001]);
    assert_eq!(plan.tcp_ports, vec![7002]);
    assert!(plan.ping);
}

#[test]
fn a_step_without_a_port_has_no_listener() {
    let err = listener_plan(&vec![
        KnockStep { protocol: Protocol::Icmp, port: None, size: 5 },
        KnockStep { protocol: Protocol::Tcp, port: None, size: 2 },
    ])
    .unwrap_err();
    assert_eq!(err, ListenerError::MissingTcpPort);
    assert_eq!(err.message(), "validated tcp step has port");
}

#[test]
fn receive_buffers_leave_room_to_see_oversized_payloads() {
    assert_eq!(receive_buffer_len(512), 513);
    assert_eq!(receive_buffer_len(usize::MAX), usize::MAX);
    assert_eq!(echo_buffer_len(512), 521);
    assert_eq!(echo_buffer_len(usize::MAX - 3), usize::MAX);
}

#[test]
fn echo_payload_excludes_the_echo_header() {
    assert_eq!(echo_payload_size(24), 16);
    assert_eq!(echo_payload_size(8), 0);
    assert_eq!(echo_payload_size(5), 0);
}
