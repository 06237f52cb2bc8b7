use mbus::camera::Camera;
use mbus::kernel::{Kernel, RegistrationError, ServiceState};
use mbus::messages::Message;
use mbus::registry::Registry;

#[test]
fn subscribe_is_idempotent() {
    let mut reg = Registry::new();
    let topic = "/camera".to_string();
    reg.record_subscribe(7, &topic);
    let once = reg.subscribers_of(&topic);
    reg.record_subscribe(7, &topic);
    let twice = reg.subscribers_of(&topic);
    assert_eq!(once, vec![7]);
    assert_eq!(twice, vec![7]);
}

#[test]
fn unsubscribe_undoes_subscribe() {
    let mut reg = Registry::new();
    let topic = "/camera".to_string();
    reg.record_subscribe(7, &topic);
    reg.record_unsubscribe(7, &topic);
    assert_eq!(reg.subscribers_of(&topic), Vec::<u64>::new());
    // Unsubscribing again, or for a pair never present, is a no-op.
    reg.record_unsubscribe(7, &topic);
    reg.record_unsubscribe(9, &topic);
    assert_eq!(reg.subscribers_of(&topic), Vec::<u64>::new());
}

#[test]
fn unsubscribe_of_stranger_keeps_others() {
    let mut reg = Registry::new();
    let topic = "/camera".to_string();
    reg.record_subscribe(1, &topic);
    reg.record_unsubscribe(2, &topic);
    assert_eq!(reg.subscribers_of(&topic), vec![1]);
}

#[test]
fn forget_removes_sid_from_every_topic() {
    let mut reg = Registry::new();
    let cam = "/camera".to_string();
    let frames = "/frames".to_string();
    reg.record_subscribe(5, &cam);
    reg.record_subscribe(5, &frames);
    reg.record_subscribe(6, &frames);
    reg.forget(5);
    assert_eq!(reg.subscribers_of(&cam), Vec::<u64>::new());
    assert_eq!(reg.subscribers_of(&frames), vec![6]);
}

#[test]
fn forget_of_unknown_sid_is_safe() {
    let mut reg = Registry::new();
    reg.forget(42);
    let cam = "/camera".to_string();
    reg.record_subscribe(1, &cam);
    reg.forget(42);
    assert_eq!(reg.subscribers_of(&cam), vec![1]);
}

#[test]
fn events_stay_inside_their_topic() {
    let mut k = Kernel::new();
    let frames_only = k.register("FramesViewer".to_string()).unwrap();
    k.dispatch(&Message::Subscribe(frames_only, "/frames".to_string()));
    let targets = k.dispatch(&Message::Event("/camera".to_string(), "GET_FRAME".to_string()));
    assert!(!targets.contains(&frames_only));
    assert_eq!(targets, Vec::<u64>::new());
}

#[test]
fn publisher_receives_its_own_events_when_subscribed() {
    let mut k = Kernel::new();
    let a = k.register("A".to_string()).unwrap();
    k.dispatch(&Message::Subscribe(a, "/t".to_string()));
    let targets = k.dispatch(&Message::Event("/t".to_string(), "v".to_string()));
    assert!(targets.contains(&a));
}

#[test]
fn both_events_of_a_pair_reach_the_subscriber() {
    let mut k = Kernel::new();
    let b = k.register("B".to_string()).unwrap();
    k.dispatch(&Message::Subscribe(b, "/t".to_string()));
    let first = k.dispatch(&Message::Event("/t".to_string(), "v1".to_string()));
    let second = k.dispatch(&Message::Event("/t".to_string(), "v2".to_string()));
    assert_eq!(first, vec![b]);
    assert_eq!(second, vec![b]);
}

#[test]
fn control_messages_are_never_forwarded() {
    let mut k = Kernel::new();
    let a = k.register("A".to_string()).unwrap();
    let subscribe_targets = k.dispatch(&Message::Subscribe(a, "/t".to_string()));
    assert_eq!(subscribe_targets, Vec::<u64>::new());
    let unsubscribe_targets = k.dispatch(&Message::Unsubscribe(a, "/t".to_string()));
    assert_eq!(unsubscribe_targets, Vec::<u64>::new());
}

#[test]
fn camera_scenario() {
    let mut k = Kernel::new();
    let camera = Camera::new();
    let sid = k.register("Camera".to_string()).unwrap();
    assert_eq!(sid, 1);

    // The camera announces its interest; the kernel records it, forwards nothing.
    let hello = camera.initial_message(sid);
    match &hello {
        Message::Subscribe(s, t) => {
            assert_eq!(*s, 1);
            assert_eq!(t.as_str(), "/camera");
        }
        _ => panic!("the camera's first message must be a subscription"),
    }
    assert_eq!(k.dispatch(&hello), Vec::<u64>::new());

    // A frame request published on the camera's topic reaches exactly the camera.
    let request = Message::Event("/camera".to_string(), "GET_FRAME".to_string());
    assert_eq!(k.subscribers_of(&"/camera".to_string()), vec![1]);
    assert_eq!(k.dispatch(&request), vec![1]);

    // The camera answers with a frame on the frames topic.
    let answer = camera.on_message(&request).unwrap();
    match &answer {
        Message::Event(t, d) => {
            assert_eq!(t.as_str(), "/frames");
            assert_eq!(d.as_str(), "[A FRAME OF VIDEO]");
        }
        _ => panic!("the camera must answer a request with an event"),
    }

    // Nobody subscribed to the frames topic: the frame is dropped and counted.
    assert_eq!(k.dispatch(&answer), Vec::<u64>::new());
    assert_eq!(k.undeliverable_events(), 1);
}

#[test]
fn camera_ignores_control_messages() {
    let camera = Camera::new();
    assert_eq!(camera.name(), "Camera");
    assert!(camera.on_message(&Message::Subscribe(2, "/camera".to_string())).is_none());
    assert!(camera.on_message(&Message::Unsubscribe(2, "/camera".to_string())).is_none());
}

#[test]
fn blocked_subscriber_does_not_stop_the_healthy_one() {
    let mut k = Kernel::new();
    let blocked = k.register("B".to_string()).unwrap();
    let healthy = k.register("C".to_string()).unwrap();
    k.dispatch(&Message::Subscribe(blocked, "/t".to_string()));
    k.dispatch(&Message::Subscribe(healthy, "/t".to_string()));

    let targets = k.dispatch(&Message::Event("/t".to_string(), "v".to_string()));
    assert!(targets.contains(&blocked));
    assert!(targets.contains(&healthy));

    // B's inbound channel is full: its copy is dropped and counted, and the
    // next event still targets C.
    k.note_undeliverable();
    assert_eq!(k.undeliverable_events(), 1);
    let again = k.dispatch(&Message::Event("/t".to_string(), "w".to_string()));
    assert!(again.contains(&healthy));
}

#[test]
fn duplicate_names_are_rejected() {
    let mut k = Kernel::new();
    assert_eq!(k.register("Camera".to_string()), Ok(1));
    assert_eq!(k.register("Camera".to_string()), Err(RegistrationError::DuplicateName));
    assert_eq!(k.register("Logger".to_string()), Ok(2));
}

#[test]
fn services_are_discoverable_by_name() {
    let mut k = Kernel::new();
    let cam = k.register("Camera".to_string()).unwrap();
    let log = k.register("Logger".to_string()).unwrap();
    assert_eq!(k.lookup_by_name(&"Camera".to_string()), Some(cam));
    assert_eq!(k.lookup_by_name(&"Logger".to_string()), Some(log));
    assert_eq!(k.lookup_by_name(&"Mixer".to_string()), None);
}

#[test]
fn lifecycle_runs_starting_running_stopping_stopped() {
    let mut k = Kernel::new();
    let sid = k.register("Camera".to_string()).unwrap();
    assert_eq!(k.state_query(sid), Some(ServiceState::Starting));

    assert!(k.mark_running(sid));
    assert_eq!(k.state_query(sid), Some(ServiceState::Running));
    // Marking an already-running service again is refused, harmlessly.
    assert!(!k.mark_running(sid));

    assert!(k.begin_stop(sid));
    assert_eq!(k.state_query(sid), Some(ServiceState::Stopping));
    assert!(!k.all_stopped());

    k.dispatch(&Message::Subscribe(sid, "/camera".to_string()));
    assert!(k.mark_stopped(sid));
    assert_eq!(k.state_query(sid), Some(ServiceState::Stopped));
    // A stopped service is forgotten from every topic.
    assert_eq!(k.subscribers_of(&"/camera".to_string()), Vec::<u64>::new());
    assert!(k.all_stopped());
}

#[test]
fn stopping_a_service_forgets_only_its_subscriptions() {
    let mut k = Kernel::new();
    let a = k.register("A".to_string()).unwrap();
    let b = k.register("B".to_string()).unwrap();
    k.dispatch(&Message::Subscribe(a, "/t".to_string()));
    k.dispatch(&Message::Subscribe(b, "/t".to_string()));
    k.mark_stopped(a);
    assert_eq!(k.subscribers_of(&"/t".to_string()), vec![b]);
}

#[test]
fn stop_all_reaches_every_live_service() {
    let mut k = Kernel::new();
    let a = k.register("A".to_string()).unwrap();
    let b = k.register("B".to_string()).unwrap();
    let c = k.register("C".to_string()).unwrap();
    k.mark_running(a);
    k.mark_stopped(c);
    k.begin_stop_all();
    assert_eq!(k.state_query(a), Some(ServiceState::Stopping));
    assert_eq!(k.state_query(b), Some(ServiceState::Stopping));
    assert_eq!(k.state_query(c), Some(ServiceState::Stopped));
    assert!(!k.all_stopped());
    k.mark_stopped(a);
    k.mark_stopped(b);
    assert!(k.all_stopped());
}

#[test]
fn unknown_sids_are_handled_without_effect() {
    let mut k = Kernel::new();
    assert!(!k.mark_running(9));
    assert!(!k.begin_stop(9));
    assert!(!k.mark_stopped(9));
    assert_eq!(k.state_query(9), None);
}

#[test]
fn events_with_no_subscriber_are_counted() {
    let mut k = Kernel::new();
    k.dispatch(&Message::Event("/frames".to_string(), "a".to_string()));
    k.dispatch(&Message::Event("/frames".to_string(), "b".to_string()));
    assert_eq!(k.undeliverable_events(), 2);
}
