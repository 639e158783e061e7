use cellgrid::events::{UserJoined, UserLeft};
use cellgrid::gateway::{Frame, Gateway, Notice, Phase, Reaction};
use cellgrid::registry::SessionRegistry;

#[test]
fn broadcast_skips_the_excluded_session() {
    let mut reg: SessionRegistry<&str> = SessionRegistry::new();
    reg.register(1, "one");
    reg.register(2, "two");
    assert_eq!(reg.recipients(Some(1)), vec![2]);
    assert_eq!(reg.channel(2), Some(&"two"));
    assert_eq!(reg.recipients(None), vec![1, 2]);
}

#[test]
fn deregistering_an_absent_session_is_a_no_op() {
    let mut reg: SessionRegistry<u8> = SessionRegistry::new();
    reg.deregister(7);
    assert_eq!(reg.len(), 0);
    reg.register(1, 10);
    reg.deregister(7);
    assert_eq!(reg.len(), 1);
    assert!(reg.contains(1));
}

#[test]
fn fifty_registrations_each_appear_once() {
    let mut reg: SessionRegistry<u32> = SessionRegistry::new();
    for i in 0..50u32 {
        reg.register(1000 + i as u128, i);
    }
    assert_eq!(reg.len(), 50);
    for i in 0..50u32 {
        assert!(reg.contains(1000 + i as u128));
        assert_eq!(reg.channel(1000 + i as u128), Some(&i));
    }
    assert_eq!(reg.recipients(None).len(), 50);
}

#[test]
fn registering_again_overwrites_in_place() {
    let mut reg: SessionRegistry<&str> = SessionRegistry::new();
    reg.register(1, "old");
    reg.register(2, "two");
    reg.register(1, "new");
    assert_eq!(reg.len(), 2);
    assert_eq!(reg.channel(1), Some(&"new"));
    assert_eq!(reg.recipients(None), vec![1, 2]);
}

#[test]
fn deregister_removes_only_that_session() {
    let mut reg: SessionRegistry<&str> = SessionRegistry::new();
    reg.register(1, "a");
    reg.register(2, "b");
    reg.register(3, "c");
    reg.deregister(2);
    assert_eq!(reg.recipients(None), vec![1, 3]);
    assert_eq!(reg.channel(2), None);
}

#[test]
fn opening_registers_and_announces() {
    let mut reg: SessionRegistry<&str> = SessionRegistry::new();
    reg.register(5, "other");
    let mut g = Gateway::new(0);
    let r = g.open(&mut reg, "mine");
    assert_eq!(g.phase, Phase::Active);
    assert!(reg.contains(0));
    assert_eq!(
        r,
        Reaction::Broadcast(
            Notice::Joined(UserJoined {
                user_id: "00000000-0000-0000-0000-000000000000".to_string()
            }),
            vec![5]
        )
    );
}

#[test]
fn session_label_is_hyphenated_hex() {
    let mut reg: SessionRegistry<()> = SessionRegistry::new();
    let mut g = Gateway::new(0x0123456789abcdef0123456789abcdef);
    match g.open(&mut reg, ()) {
        Reaction::Broadcast(Notice::Joined(j), to) => {
            assert_eq!(j.user_id, "01234567-89ab-cdef-0123-456789abcdef");
            assert!(to.is_empty());
        }
        other => panic!("unexpected {:?}", other),
    }
}

#[test]
fn open_twice_does_nothing_more() {
    let mut reg: SessionRegistry<u8> = SessionRegistry::new();
    let mut g = Gateway::new(3);
    g.open(&mut reg, 1);
    assert_eq!(g.open(&mut reg, 2), Reaction::Nothing);
    assert_eq!(reg.channel(3), Some(&1));
}

#[test]
fn active_session_answers_and_relays() {
    let mut reg: SessionRegistry<u8> = SessionRegistry::new();
    let mut a = Gateway::new(1);
    let mut b = Gateway::new(2);
    a.open(&mut reg, 1);
    b.open(&mut reg, 2);
    assert_eq!(a.receive(&reg, Frame::Ping), Reaction::Pong);
    assert_eq!(a.receive(&reg, Frame::Text(true)), Reaction::Broadcast(Notice::Relay, vec![2]));
    assert_eq!(a.receive(&reg, Frame::Text(false)), Reaction::Nothing);
    assert_eq!(a.receive(&reg, Frame::Binary), Reaction::Nothing);
    assert_eq!(a.receive(&reg, Frame::Other), Reaction::Nothing);
}

#[test]
fn unopened_session_ignores_frames() {
    let reg: SessionRegistry<u8> = SessionRegistry::new();
    let g = Gateway::new(1);
    assert_eq!(g.receive(&reg, Frame::Ping), Reaction::Nothing);
    assert_eq!(g.receive(&reg, Frame::Text(true)), Reaction::Nothing);
}

#[test]
fn closing_deregisters_and_says_goodbye() {
    let mut reg: SessionRegistry<u8> = SessionRegistry::new();
    let mut a = Gateway::new(1);
    let mut b = Gateway::new(2);
    a.open(&mut reg, 1);
    b.open(&mut reg, 2);
    let r = a.close(&mut reg);
    assert_eq!(a.phase, Phase::Closed);
    assert!(!reg.contains(1));
    assert_eq!(
        r,
        Reaction::Broadcast(
            Notice::Left(UserLeft { user_id: "00000000-0000-0000-0000-000000000001".to_string() }),
            vec![2]
        )
    );
    assert_eq!(a.close(&mut reg), Reaction::Nothing);
    assert_eq!(a.receive(&reg, Frame::Ping), Reaction::Nothing);
}

#[test]
fn closing_before_opening_announces_nothing() {
    let mut reg: SessionRegistry<u8> = SessionRegistry::new();
    let mut g = Gateway::new(4);
    assert_eq!(g.close(&mut reg), Reaction::Nothing);
    assert_eq!(g.phase, Phase::Closed);
    assert_eq!(g.open(&mut reg, 1), Reaction::Nothing);
    assert_eq!(reg.len(), 0);
}

#[test]
fn fresh_connections_get_distinct_version_four_ids() {
    let a = Gateway::connect();
    let b = Gateway::connect();
    assert_eq!(a.phase, Phase::Connecting);
    assert_ne!(a.id, b.id);
    assert_eq!((a.id >> 76) & 0xF, 4);
}

#[test]
fn fresh_ids_carry_the_rfc_variant() {
    for _ in 0..8 {
        let g = Gateway::connect();
        assert_eq!((g.id >> 76) & 0xF, 4);
        assert_eq!((g.id >> 62) & 0x3, 2);
    }
}
