use signal_broker::queue::{Queue, QueueError};

fn id(s: &str) -> Vec<u8> {
    s.as_bytes().to_vec()
}

#[test]
fn join_empty_queue_promotes_immediately() {
    let mut q = Queue::new();
    let st = q.join_queue(id("alice"), 0).unwrap();
    assert_eq!(st.position, 0);
    assert_eq!(st.estimated_wait_secs, 0);
    assert_eq!(q.active_user(), Some(id("alice")));
    assert!(q.waiting_users().is_empty());
    assert!(q.has_pending_users());
}

#[test]
fn second_join_waits_behind_active() {
    let mut q = Queue::new();
    q.join_queue(id("alice"), 0).unwrap();
    let st = q.join_queue(id("bob"), 1).unwrap();
    assert_eq!(st.position, 1);
    assert_eq!(st.estimated_wait_secs, 600);
    assert_eq!(q.active_user(), Some(id("alice")));
    assert_eq!(q.waiting_users(), vec![id("bob")]);
}

#[test]
fn leave_of_active_promotes_next() {
    let mut q = Queue::new();
    q.join_queue(id("alice"), 0).unwrap();
    q.join_queue(id("bob"), 1).unwrap();
    q.leave_queue(&id("alice"), 2).unwrap();
    assert_eq!(q.active_user(), Some(id("bob")));
    assert!(q.waiting_users().is_empty());
}

#[test]
fn fifo_order_of_promotion() {
    let mut q = Queue::new();
    q.join_queue(id("alice"), 0).unwrap();
    q.join_queue(id("bob"), 1).unwrap();
    q.join_queue(id("carol"), 2).unwrap();
    assert_eq!(q.waiting_users(), vec![id("bob"), id("carol")]);
    q.leave_queue(&id("alice"), 3).unwrap();
    assert_eq!(q.active_user(), Some(id("bob")));
    q.leave_queue(&id("bob"), 4).unwrap();
    assert_eq!(q.active_user(), Some(id("carol")));
}

#[test]
fn rejoin_is_rejected_while_waiting_or_active() {
    let mut q = Queue::new();
    q.join_queue(id("alice"), 0).unwrap();
    assert_eq!(q.join_queue(id("alice"), 1), Err(QueueError::AlreadyQueued));
    q.join_queue(id("bob"), 2).unwrap();
    assert_eq!(q.join_queue(id("bob"), 3), Err(QueueError::AlreadyQueued));
    // the failed joins disturbed nothing
    assert_eq!(q.active_user(), Some(id("alice")));
    assert_eq!(q.waiting_users(), vec![id("bob")]);
}

#[test]
fn leave_of_waiting_user_keeps_active() {
    let mut q = Queue::new();
    q.join_queue(id("alice"), 0).unwrap();
    q.join_queue(id("bob"), 1).unwrap();
    q.join_queue(id("carol"), 2).unwrap();
    q.leave_queue(&id("bob"), 3).unwrap();
    assert_eq!(q.active_user(), Some(id("alice")));
    assert_eq!(q.waiting_users(), vec![id("carol")]);
}

#[test]
fn leave_of_unknown_user_is_a_noop() {
    let mut q = Queue::new();
    q.join_queue(id("alice"), 0).unwrap();
    q.leave_queue(&id("mallory"), 1).unwrap();
    assert_eq!(q.active_user(), Some(id("alice")));
}

#[test]
fn touch_only_for_active_session() {
    let mut q = Queue::new();
    assert_eq!(q.update_activity(&id("alice"), 0), Err(QueueError::NoActiveSession));
    q.join_queue(id("alice"), 0).unwrap();
    assert_eq!(q.update_activity(&id("alice"), 5), Ok(()));
    q.join_queue(id("bob"), 6).unwrap();
    assert_eq!(q.update_activity(&id("bob"), 7), Err(QueueError::NoActiveSession));
}

#[test]
fn reap_without_elapsed_time_changes_nothing() {
    let mut q = Queue::new();
    q.join_queue(id("alice"), 0).unwrap();
    q.join_queue(id("bob"), 0).unwrap();
    q.cleanup_stale_sessions(0).unwrap();
    q.cleanup_stale_sessions(0).unwrap();
    q.cleanup_stale_sessions(0).unwrap();
    assert_eq!(q.active_user(), Some(id("alice")));
    assert_eq!(q.waiting_users(), vec![id("bob")]);
}

#[test]
fn reap_reclaims_overlong_session_and_promotes() {
    let mut q = Queue::new();
    q.join_queue(id("alice"), 0).unwrap();
    q.join_queue(id("bob"), 1).unwrap();
    // keep alice lively so only the duration budget can expire
    q.update_activity(&id("alice"), 600_000).unwrap();
    q.cleanup_stale_sessions(600_001).unwrap();
    assert_eq!(q.active_user(), Some(id("bob")));
    assert!(q.waiting_users().is_empty());
}

#[test]
fn reap_reclaims_idle_session() {
    let mut q = Queue::new();
    q.join_queue(id("alice"), 0).unwrap();
    q.cleanup_stale_sessions(60_001).unwrap();
    assert_eq!(q.active_user(), None);
    assert!(!q.has_pending_users());
}

#[test]
fn activity_ping_defers_idle_reclamation() {
    let mut q = Queue::new();
    q.join_queue(id("alice"), 0).unwrap();
    q.update_activity(&id("alice"), 50_000).unwrap();
    q.cleanup_stale_sessions(100_000).unwrap();
    assert_eq!(q.active_user(), Some(id("alice")));
}

#[test]
fn reap_just_inside_budgets_keeps_session() {
    let mut q = Queue::new();
    q.join_queue(id("alice"), 0).unwrap();
    q.update_activity(&id("alice"), 540_000).unwrap();
    q.cleanup_stale_sessions(600_000).unwrap();
    assert_eq!(q.active_user(), Some(id("alice")));
}

#[test]
fn subscribers_receive_queue_snapshots() {
    let mut q = Queue::new();
    q.join_queue(id("alice"), 0).unwrap();
    let mut rx = q.subscribe_to_updates();
    q.join_queue(id("bob"), 1).unwrap();
    let st = rx.try_recv().unwrap();
    assert_eq!(st.position, 1);
    assert_eq!(st.estimated_wait_secs, 600);
}

#[test]
fn late_subscriber_sees_no_history() {
    let mut q = Queue::new();
    q.join_queue(id("alice"), 0).unwrap();
    q.join_queue(id("bob"), 1).unwrap();
    let mut rx = q.subscribe_to_updates();
    assert!(rx.try_recv().is_err());
}
