use ssh_knock::config::{KnockStep, Protocol};
use ssh_knock::knock::{KnockOutcome, KnockPacket, KnockTracker};
use ssh_knock::net::IpAddress;

fn tracker() -> KnockTracker {
    KnockTracker::new(
        vec![
            KnockStep { protocol: Protocol::Udp, port: Some(40101), size: 64 },
            KnockStep { protocol: Protocol::Udp, port: Some(40102), size: 128 },
            KnockStep { protocol: Protocol::Udp, port: Some(40103), size: 96 },
        ],
        5_000 * MS,
        10_000 * MS,
        512,
    )
}

fn packet(port: u16, size: usize) -> KnockPacket {
    KnockPacket {
        source_ip: IpAddress::v4(1, 2, 3, 4),
        protocol: Protocol::Udp,
        port: Some(port),
        payload_size: size,
    }
}

const NOW: u64 = 1_000_000;

/// One millisecond, in the nanoseconds the library counts time in.
const MS: u64 = 1_000_000;

#[test]
fn accepts_valid_sequence_because_matching_clients_need_temporary_ssh_access() {
    let mut tracker = tracker();
    let now = NOW;
    assert_eq!(tracker.process(packet(40101, 64), now), KnockOutcome::Progress { next_step: 1 });
    assert_eq!(
        tracker.process(packet(40102, 128), now + 1_000 * MS),
        KnockOutcome::Progress { next_step: 2 }
    );
    assert_eq!(tracker.process(packet(40103, 96), now + 2_000 * MS), KnockOutcome::Accepted);
}

#[test]
fn rejects_wrong_order_because_sequence_order_is_the_shared_secret() {
    let mut tracker = tracker();
    let now = NOW;
    assert_eq!(tracker.process(packet(40102, 128), now), KnockOutcome::Rejected);
}

#[test]
fn resets_after_wrong_size_because_partial_state_must_not_survive_bad_knocks() {
    let mut tracker = tracker();
    let now = NOW;
    assert_eq!(tracker.process(packet(40101, 64), now), KnockOutcome::Progress { next_step: 1 });
    assert_eq!(tracker.process(packet(40102, 127), now + 1_000 * MS), KnockOutcome::Rejected);
    assert_eq!(tracker.process(packet(40103, 96), now + 2_000 * MS), KnockOutcome::Rejected);
}

#[test]
fn rejects_expired_sequence_because_access_windows_must_be_short() {
    let mut tracker = tracker();
    let now = NOW;
    assert_eq!(tracker.process(packet(40101, 64), now), KnockOutcome::Progress { next_step: 1 });
    assert_eq!(tracker.process(packet(40102, 128), now + 6_000 * MS), KnockOutcome::Rejected);
}

#[test]
fn rejects_oversized_packet_because_large_payloads_must_not_drive_expensive_work() {
    let mut tracker = tracker();
    let now = NOW;
    assert_eq!(tracker.process(packet(40101, 513), now), KnockOutcome::Oversized);
}

#[test]
fn first_step_after_a_wrong_packet_starts_again() {
    let mut tracker = tracker();
    assert_eq!(tracker.process(packet(40101, 64), NOW), KnockOutcome::Progress { next_step: 1 });
    assert_eq!(tracker.process(packet(40101, 64), NOW + 100 * MS), KnockOutcome::Progress { next_step: 1 });
    assert_eq!(tracker.len(), 1);
    assert_eq!(tracker.process(packet(40102, 128), NOW + 200 * MS), KnockOutcome::Progress { next_step: 2 });
    assert_eq!(tracker.process(packet(40103, 96), NOW + 300 * MS), KnockOutcome::Accepted);
    assert!(tracker.is_empty());
}

#[test]
fn capacity_limits_new_sources_only() {
    let mut tracker = KnockTracker::new_with_capacity(
        vec![
            KnockStep { protocol: Protocol::Udp, port: Some(40101), size: 64 },
            KnockStep { protocol: Protocol::Udp, port: Some(40102), size: 128 },
            KnockStep { protocol: Protocol::Udp, port: Some(40103), size: 96 },
        ],
        5_000 * MS,
        10_000 * MS,
        1,
        512,
    );
    assert_eq!(tracker.process(packet(40101, 64), NOW), KnockOutcome::Progress { next_step: 1 });
    let other = KnockPacket { source_ip: IpAddress::v4(5, 6, 7, 8), ..packet(40101, 64) };
    assert_eq!(tracker.process(other, NOW), KnockOutcome::Rejected);
    assert_eq!(tracker.len(), 1);
    assert_eq!(tracker.process(packet(40102, 128), NOW + 1 * MS), KnockOutcome::Progress { next_step: 2 });
}

#[test]
fn idle_partial_state_expires() {
    let mut tracker = tracker();
    assert_eq!(tracker.process(packet(40101, 64), NOW), KnockOutcome::Progress { next_step: 1 });
    tracker.expire(NOW + 5_000 * MS);
    assert_eq!(tracker.len(), 1);
    tracker.expire(NOW + 5_001 * MS);
    assert!(tracker.is_empty());
}

#[test]
fn oversized_packet_clears_progress() {
    let mut tracker = tracker();
    assert_eq!(tracker.process(packet(40101, 64), NOW), KnockOutcome::Progress { next_step: 1 });
    assert_eq!(tracker.process(packet(40102, 600), NOW + 1 * MS), KnockOutcome::Oversized);
    assert!(tracker.is_empty());
}

#[test]
fn sources_progress_independently() {
    let mut tracker = tracker();
    let other = |port: u16, size: usize| KnockPacket { source_ip: IpAddress::V6(1), ..packet(port, size) };
    assert_eq!(tracker.process(packet(40101, 64), NOW), KnockOutcome::Progress { next_step: 1 });
    assert_eq!(tracker.process(other(40101, 64), NOW + 1 * MS), KnockOutcome::Progress { next_step: 1 });
    assert_eq!(tracker.process(other(40103, 96), NOW + 2 * MS), KnockOutcome::Rejected);
    assert_eq!(tracker.process(packet(40102, 128), NOW + 3 * MS), KnockOutcome::Progress { next_step: 2 });
    assert_eq!(tracker.process(packet(40103, 96), NOW + 4 * MS), KnockOutcome::Accepted);
    assert_eq!(tracker.len(), 0);
}

#[test]
fn steps_sent_in_time_are_accepted_whatever_other_sources_do() {
    let mut tracker = tracker();
    let other = |port: u16, size: usize| KnockPacket {
        source_ip: IpAddress::v4(9, 9, 9, 9),
        protocol: Protocol::Udp,
        port: Some(port),
        payload_size: size,
    };
    assert_eq!(tracker.process(packet(40102, 128), NOW), KnockOutcome::Rejected);
    assert_eq!(tracker.process(packet(40101, 64), NOW + 100 * MS), KnockOutcome::Progress { next_step: 1 });
    tracker.process(other(40101, 64), NOW + 200 * MS);
    tracker.process(other(40103, 1), NOW + 300 * MS);
    assert_eq!(tracker.process(packet(40102, 128), NOW + 4_000 * MS), KnockOutcome::Progress { next_step: 2 });
    tracker.process(other(40101, 64), NOW + 4_500 * MS);
    assert_eq!(tracker.process(packet(40103, 96), NOW + 5_100 * MS), KnockOutcome::Accepted);
}

#[test]
fn window_is_measured_to_the_nanosecond() {
    let mut on_time = tracker();
    assert_eq!(on_time.process(packet(40101, 64), NOW), KnockOutcome::Progress { next_step: 1 });
    assert_eq!(
        on_time.process(packet(40102, 128), NOW + 5_000 * MS),
        KnockOutcome::Progress { next_step: 2 }
    );
    let mut late = tracker();
    assert_eq!(late.process(packet(40101, 64), NOW), KnockOutcome::Progress { next_step: 1 });
    assert_eq!(late.process(packet(40102, 128), NOW + 5_000 * MS + 1), KnockOutcome::Rejected);
}
