use bevy::ecs::entity::Entity;
use bevy_badnet::context::NetContext;
use bevy_badnet::messages::DisconnectReason;
use bevy_badnet::session::Session;

fn entity(n: u32) -> Entity {
    Entity::from_raw_u32(n).unwrap()
}

#[test]
fn disconnect_of_unknown_session_is_ignored() {
    let mut ctx = NetContext::new();
    let s = Session::from_halves(1, 1);
    assert!(ctx.disconnect(s, DisconnectReason::Timeout));
    assert!(ctx.take_disconnect_requests().is_empty());
}

#[test]
fn disconnect_reports_repeated_requests() {
    let mut ctx = NetContext::new();
    let s = Session::from_halves(1, 2);
    ctx.on_connected(s, entity(5));
    assert_eq!(ctx.entity_of(s), Some(entity(5)));
    assert!(!ctx.disconnect(s, DisconnectReason::Kicked { reason: "spam".to_string() }));
    assert!(ctx.disconnect(s, DisconnectReason::ServerShutdown));
    let done = ctx.take_disconnect_requests();
    assert_eq!(done.len(), 1);
    assert_eq!(done[0].0, s);
    assert_eq!(done[0].1, entity(5));
    assert_eq!(done[0].2, DisconnectReason::ServerShutdown);
    assert_eq!(ctx.entity_of(s), None);
    assert!(ctx.take_disconnect_requests().is_empty());
    assert!(ctx.disconnect(s, DisconnectReason::Timeout));
}

#[test]
fn requests_for_sessions_gone_meanwhile_are_dropped() {
    let mut ctx = NetContext::new();
    let a = Session::from_halves(1, 0);
    let b = Session::from_halves(2, 0);
    ctx.on_connected(a, entity(1));
    ctx.on_connected(b, entity(2));
    assert!(!ctx.disconnect(a, DisconnectReason::Quit));
    assert!(!ctx.disconnect(b, DisconnectReason::Banned { reason: "x".to_string(), duration: None }));
    assert_eq!(ctx.on_disconnected(a), Some(entity(1)));
    assert_eq!(ctx.on_disconnected(a), None);
    let done = ctx.take_disconnect_requests();
    assert_eq!(done.len(), 1);
    assert_eq!(done[0].0, b);
    assert_eq!(done[0].1, entity(2));
}

#[test]
fn each_connected_requested_session_is_taken_once() {
    let mut ctx = NetContext::new();
    let mut sessions = Vec::new();
    for i in 0..20u32 {
        let s = Session::from_halves(i as u64 + 100, 7);
        ctx.on_connected(s, entity(i));
        sessions.push(s);
        if i % 2 == 0 {
            ctx.disconnect(s, DisconnectReason::Timeout);
        }
    }
    let mut done: Vec<u32> = ctx.take_disconnect_requests().iter().map(|d| d.1.index()).collect();
    done.sort();
    assert_eq!(done, (0..20u32).filter(|i| i % 2 == 0).collect::<Vec<_>>());
    for (i, s) in sessions.iter().enumerate() {
        assert_eq!(ctx.entity_of(*s).is_some(), i % 2 == 1);
    }
}
