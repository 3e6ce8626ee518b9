use tiny_tokio_actor::{EventBus, Message, SystemEvent};

#[derive(Clone, Debug, PartialEq)]
struct TestEvent(String);

impl SystemEvent for TestEvent {}

#[derive(Clone, Debug)]
struct TestMessage(usize);

impl Message for TestMessage {
    type Response = usize;
}

#[test]
fn send_without_receivers_hands_the_event_back() {
    let bus = EventBus::<TestEvent>::new(1000);
    let result = bus.send(TestEvent("lost".to_string()));
    match result {
        Err(err) => assert_eq!(err.0, TestEvent("lost".to_string())),
        Ok(_) => panic!("no receiver was subscribed"),
    }
}

#[test]
fn subscribers_receive_events() {
    let bus = EventBus::<TestEvent>::new(16);
    let mut first = bus.subscribe();
    let mut second = bus.clone().subscribe();
    assert_eq!(bus.send(TestEvent("hello".to_string())).unwrap(), 2);
    assert_eq!(first.try_recv().unwrap(), TestEvent("hello".to_string()));
    assert_eq!(second.try_recv().unwrap(), TestEvent("hello".to_string()));
    assert!(first.try_recv().is_err());
}

#[test]
fn late_subscribers_miss_earlier_events() {
    let bus = EventBus::<TestEvent>::new(4);
    let _keep = bus.subscribe();
    bus.send(TestEvent("early".to_string())).unwrap();
    let mut late = bus.subscribe();
    bus.send(TestEvent("late".to_string())).unwrap();
    assert_eq!(late.try_recv().unwrap(), TestEvent("late".to_string()));
}

#[test]
fn message_declares_its_response() {
    fn response_of<M: Message>(_msg: &M, r: M::Response) -> M::Response {
        r
    }
    assert_eq!(response_of(&TestMessage(1), 11), 11);
}
