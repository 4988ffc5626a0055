use helix_plugin::{
    Capabilities, DrainPolicy, EntryPoint, LoadAttempt, PendingQueue, Plugins,
    SubmitError,
};

fn caps(channel: bool, deinit: bool, commands: bool) -> Capabilities {
    Capabilities {
        init: true,
        deinit,
        list_commands: commands,
        register_callback_channel: channel,
        render: false,
    }
}

fn loaded(name: &str, handle: u32, c: Capabilities) -> LoadAttempt<u32> {
    LoadAttempt::Loaded { name: name.to_string(), handle, capabilities: c }
}

fn failed(name: &str) -> LoadAttempt<u32> {
    LoadAttempt::Failed { name: name.to_string(), reason: "not found".to_string() }
}

fn three(policy: DrainPolicy) -> Plugins<u32, &'static str> {
    let attempts = vec![
        loaded("a", 10, caps(true, true, true)),
        loaded("b", 20, caps(true, false, false)),
        loaded("c", 30, caps(false, true, true)),
    ];
    let (p, f) = Plugins::new(attempts, policy);
    assert!(f.is_empty());
    p
}

#[test]
fn loads_every_valid_extension_in_order() {
    let p = three(DrainPolicy::Lifo);
    assert_eq!(p.len(), 3);
    assert_eq!(p.name(0), "a");
    assert_eq!(p.name(1), "b");
    assert_eq!(p.name(2), "c");
    assert_eq!(*p.handle(2), 30);
    assert_eq!(p.capabilities(1), caps(true, false, false));
}

#[test]
fn failed_extension_does_not_stop_siblings() {
    let attempts = vec![
        loaded("a", 1, caps(true, true, true)),
        failed("broken"),
        loaded("c", 3, caps(true, true, true)),
    ];
    let (p, f): (Plugins<u32, u8>, _) = Plugins::new(attempts, DrainPolicy::Lifo);
    assert_eq!(p.len(), 2);
    assert_eq!(p.name(0), "a");
    assert_eq!(p.name(1), "c");
    assert_eq!(f.len(), 1);
    assert_eq!(f[0].name, "broken");
    assert_eq!(f[0].reason, "not found");
}

#[test]
fn commands_follow_registration_then_declaration_order() {
    let p = three(DrainPolicy::Lifo);
    assert_eq!(p.plan_for(EntryPoint::ListCommands), vec![0, 2]);
    let merged = p.get_commands(vec![vec!["a1", "a2"], vec!["ignored"], vec!["c1"]]);
    assert_eq!(merged, vec!["a1", "a2", "c1"]);
    let merged = p.get_commands(vec![vec![], vec![], vec!["c1", "c2"]]);
    assert_eq!(merged, vec!["c1", "c2"]);
    let (e, _): (Plugins<u32, u8>, _) = Plugins::new(vec![], DrainPolicy::Lifo);
    assert_eq!(e.get_commands::<u8>(vec![]), Vec::<u8>::new());
}

#[test]
fn callback_delivered_exactly_once() {
    let mut p = three(DrainPolicy::Lifo);
    assert_eq!(p.submit(1, "x"), Ok(()));
    assert_eq!(p.pending_count(1), 1);
    assert_eq!(p.next_callback(), Some("x"));
    assert_eq!(p.next_callback(), None);
    assert_eq!(p.pending_count(1), 0);
}

#[test]
fn lifo_drains_last_submitted_first() {
    let mut p = three(DrainPolicy::Lifo);
    assert_eq!(p.policy(), DrainPolicy::Lifo);
    p.submit(0, "A").unwrap();
    p.submit(0, "B").unwrap();
    assert_eq!(p.next_callback(), Some("B"));
    assert_eq!(p.next_callback(), Some("A"));
    assert_eq!(p.next_callback(), None);
}

#[test]
fn lifo_registry_is_not_fifo() {
    let mut p = three(DrainPolicy::Lifo);
    p.submit(1, "A").unwrap();
    p.submit(1, "B").unwrap();
    assert_ne!(p.next_callback(), Some("A"));
}

#[test]
fn fifo_drains_first_submitted_first() {
    let mut p = three(DrainPolicy::Fifo);
    p.submit(1, "A").unwrap();
    p.submit(1, "B").unwrap();
    assert_eq!(p.next_callback(), Some("A"));
    assert_eq!(p.next_callback(), Some("B"));
    assert_eq!(p.next_callback(), None);
}

#[test]
fn earlier_extension_drains_first() {
    let mut p = three(DrainPolicy::Lifo);
    p.submit(1, "late").unwrap();
    p.submit(0, "early").unwrap();
    assert_eq!(p.next_callback(), Some("early"));
    assert_eq!(p.next_callback(), Some("late"));
}

#[test]
fn deinit_plan_lists_every_offering_extension_once() {
    let p = three(DrainPolicy::Lifo);
    assert_eq!(p.deinit_hook(), vec![0, 2]);
    let (e, _): (Plugins<u32, u8>, _) = Plugins::new(vec![], DrainPolicy::Lifo);
    assert_eq!(e.deinit_hook(), Vec::<usize>::new());
}

#[test]
fn idle_drain_returns_none() {
    let mut p = three(DrainPolicy::Lifo);
    assert_eq!(p.next_callback(), None);
    let (mut e, _): (Plugins<u32, u8>, _) = Plugins::new(vec![], DrainPolicy::Fifo);
    assert_eq!(e.next_callback(), None);
}

#[test]
fn extension_without_channel_never_has_work() {
    let mut p = three(DrainPolicy::Lifo);
    assert_eq!(p.submit(2, "spurious"), Err(SubmitError::NoChannel));
    assert_eq!(p.pending_count(2), 0);
    assert_eq!(p.next_callback(), None);
    assert_eq!(p.submit(3, "nowhere"), Err(SubmitError::UnknownExtension));
}

#[test]
fn register_appends_with_empty_queue() {
    let mut p: Plugins<u32, u8> = Plugins::empty(DrainPolicy::Lifo);
    assert_eq!(p.register("x".to_string(), 5, caps(true, false, false)), 0);
    assert_eq!(p.register("y".to_string(), 6, caps(false, false, false)), 1);
    assert_eq!(p.len(), 2);
    assert_eq!(p.pending_count(0), 0);
}

#[test]
fn capability_query() {
    let c = caps(true, false, true);
    assert!(c.offers(EntryPoint::Init));
    assert!(!c.offers(EntryPoint::Deinit));
    assert!(c.offers(EntryPoint::ListCommands));
    assert!(c.offers(EntryPoint::RegisterCallbackChannel));
    assert!(!c.offers(EntryPoint::Render));
}

#[test]
fn pending_queue_policies() {
    let mut q = PendingQueue::new();
    q.push(1);
    q.push(2);
    q.push(3);
    assert_eq!(q.len(), 3);
    assert_eq!(q.take(DrainPolicy::Lifo), Some(3));
    assert_eq!(q.take(DrainPolicy::Fifo), Some(1));
    assert_eq!(q.take(DrainPolicy::Lifo), Some(2));
    assert_eq!(q.take(DrainPolicy::Fifo), None);
}

#[test]
fn failed_init_marks_only_that_extension() {
    let mut p = three(DrainPolicy::Lifo);
    assert!(!p.init_failed(0));
    p.record_init_failure(1);
    assert!(!p.init_failed(0));
    assert!(p.init_failed(1));
    assert!(!p.init_failed(2));
    assert_eq!(p.len(), 3);
    assert_eq!(p.name(2), "c");
    p.submit(0, "still works").unwrap();
    assert_eq!(p.next_callback(), Some("still works"));
}
