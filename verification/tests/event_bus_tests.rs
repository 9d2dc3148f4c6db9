use archetype_ecs::error::{EcsError, Result};
use archetype_ecs::event_bus::{Event, EventBus, EventSubscriber};
use archetype_ecs::event_subscriber::StatisticsSubscriber;
use archetype_ecs::event_types::{Collision, GameState, GameStateChanged};
use std::any::TypeId;
use std::sync::{Arc, Mutex};

struct TestEvent;
impl Event for TestEvent {
    fn event_type_id(&self) -> TypeId {
        TypeId::of::<Self>()
    }
}

struct OtherEvent;
impl Event for OtherEvent {
    fn event_type_id(&self) -> TypeId {
        TypeId::of::<Self>()
    }
}

struct TestSubscriber {
    call_count: Arc<Mutex<usize>>,
}

impl EventSubscriber for TestSubscriber {
    fn on_event(&mut self, _event: &dyn Event) -> Result<()> {
        *self.call_count.lock().unwrap() += 1;
        Ok(())
    }
}

struct FailingSubscriber;

impl EventSubscriber for FailingSubscriber {
    fn on_event(&mut self, _event: &dyn Event) -> Result<()> {
        Err(EcsError::EventQueueOverflow)
    }
}

#[test]
fn test_publish_and_process() {
    let mut bus = EventBus::new();
    let count = Arc::new(Mutex::new(0));

    let subscriber = TestSubscriber {
        call_count: count.clone(),
    };

    bus.subscribe::<TestEvent>(Box::new(subscriber));
    bus.publish_event(TestEvent).unwrap();

    assert_eq!(bus.queue_size(), 1);
    bus.process_events().unwrap();

    assert_eq!(*count.lock().unwrap(), 1);
}

#[test]
fn test_multiple_subscribers() {
    let mut bus = EventBus::new();
    let count1 = Arc::new(Mutex::new(0));
    let count2 = Arc::new(Mutex::new(0));

    bus.subscribe::<TestEvent>(Box::new(TestSubscriber {
        call_count: count1.clone(),
    }));

    bus.subscribe::<TestEvent>(Box::new(TestSubscriber {
        call_count: count2.clone(),
    }));

    bus.publish_event(TestEvent).unwrap();
    bus.process_events().unwrap();

    assert_eq!(*count1.lock().unwrap(), 1);
    assert_eq!(*count2.lock().unwrap(), 1);
}

#[test]
fn processing_empties_queues_and_counts_events() {
    let mut bus = EventBus::default();
    bus.publish_event(TestEvent).unwrap();
    bus.publish_event(TestEvent).unwrap();
    bus.publish_event(OtherEvent).unwrap();
    assert_eq!(bus.queue_size(), 3);
    assert_eq!(bus.processed_count(), 0);
    bus.process_events().unwrap();
    assert_eq!(bus.queue_size(), 0);
    assert_eq!(bus.processed_count(), 3);
    bus.publish_event(OtherEvent).unwrap();
    bus.process_events().unwrap();
    assert_eq!(bus.processed_count(), 4);
}

#[test]
fn subscribers_only_see_their_type_and_wildcards_see_all() {
    let mut bus = EventBus::new();
    let typed = Arc::new(Mutex::new(0));
    let all = Arc::new(Mutex::new(0));
    bus.subscribe::<TestEvent>(Box::new(TestSubscriber { call_count: typed.clone() }));
    bus.subscribe_all(Box::new(TestSubscriber { call_count: all.clone() }));
    bus.publish_event(TestEvent).unwrap();
    bus.publish_event(OtherEvent).unwrap();
    bus.publish_event(OtherEvent).unwrap();
    bus.process_events().unwrap();
    assert_eq!(*typed.lock().unwrap(), 1);
    assert_eq!(*all.lock().unwrap(), 3);
}

#[test]
fn subscriber_counts_by_type() {
    let mut bus = EventBus::new();
    let c = Arc::new(Mutex::new(0));
    bus.subscribe::<TestEvent>(Box::new(TestSubscriber { call_count: c.clone() }));
    bus.subscribe::<TestEvent>(Box::new(TestSubscriber { call_count: c.clone() }));
    bus.subscribe::<OtherEvent>(Box::new(TestSubscriber { call_count: c.clone() }));
    assert_eq!(bus.subscriber_count(TypeId::of::<TestEvent>()), 2);
    assert_eq!(bus.subscriber_count(TypeId::of::<OtherEvent>()), 1);
    assert_eq!(bus.subscriber_count(TypeId::of::<u8>()), 0);
    assert_eq!(bus.total_subscribers(), 3);
    bus.clear_subscribers();
    assert_eq!(bus.total_subscribers(), 0);
    assert_eq!(bus.subscriber_count(TypeId::of::<TestEvent>()), 0);
}

#[test]
fn clear_queue_drops_events_without_counting() {
    let mut bus = EventBus::new();
    bus.publish_event(TestEvent).unwrap();
    bus.publish_boxed(TypeId::of::<TestEvent>(), Box::new(TestEvent));
    assert_eq!(bus.queue_size(), 2);
    bus.clear_queue();
    assert_eq!(bus.queue_size(), 0);
    bus.process_events().unwrap();
    assert_eq!(bus.processed_count(), 0);
}

#[test]
fn failing_subscriber_stops_processing_with_its_error() {
    let mut bus = EventBus::new();
    bus.subscribe::<TestEvent>(Box::new(FailingSubscriber));
    bus.publish_event(TestEvent).unwrap();
    let r = bus.process_events();
    assert!(matches!(r, Err(EcsError::EventQueueOverflow)));
    assert_eq!(bus.queue_size(), 1);
    assert_eq!(bus.processed_count(), 0);
}

#[test]
fn statistics_subscriber_counts_per_type() {
    let mut stats = StatisticsSubscriber::new();
    stats.on_event(&TestEvent).unwrap();
    stats.on_event(&TestEvent).unwrap();
    stats.on_event(&OtherEvent).unwrap();
    assert_eq!(stats.event_count, 3);
    assert_eq!(stats.event_types.len(), 2);
    assert_eq!(stats.event_types[0], (TypeId::of::<TestEvent>(), 2));
    assert_eq!(stats.event_types[1], (TypeId::of::<OtherEvent>(), 1));
    assert_eq!(stats.name(), "StatisticsSubscriber");
    stats.reset();
    assert_eq!(stats.event_count, 0);
    assert!(stats.event_types.is_empty());
}

#[test]
fn default_names_and_validation() {
    struct Quiet;
    impl EventSubscriber for Quiet {
        fn on_event(&mut self, _event: &dyn Event) -> Result<()> {
            Ok(())
        }
    }
    let q = Quiet;
    assert_eq!(q.name(), "UnnamedSubscriber");
    assert!(q.can_handle(TypeId::of::<TestEvent>()));
    assert_eq!(TestEvent.event_name(), "UnnamedEvent");
    assert!(TestEvent.validate().is_ok());
}

#[test]
fn game_events_are_named_after_their_type() {
    let e = GameStateChanged { old_state: GameState::Menu, new_state: GameState::Playing };
    assert_eq!(e.event_name(), "GameStateChanged");
    assert_eq!(e.event_type_id(), TypeId::of::<GameStateChanged>());
    assert_ne!(e.old_state, e.new_state);
    let id = archetype_ecs::entity::EntityId::from(slotmap::KeyData::from_ffi(1));
    let c = Collision { entity_a: id, entity_b: id };
    assert_eq!(c.event_name(), "Collision");
    let mut stats = StatisticsSubscriber::default();
    stats.on_event(&c).unwrap();
    stats.on_event(&e).unwrap();
    assert_eq!(stats.event_types[0].0, TypeId::of::<Collision>());
}

struct Recorder {
    name: &'static str,
    log: Arc<Mutex<Vec<(&'static str, bool)>>>,
}

impl EventSubscriber for Recorder {
    fn on_event(&mut self, event: &dyn Event) -> Result<()> {
        let is_test = event.event_type_id() == TypeId::of::<TestEvent>();
        self.log.lock().unwrap().push((self.name, is_test));
        Ok(())
    }
}

#[test]
fn type_subscribers_then_wildcard_subscribers_receive_each_event_once() {
    let log = Arc::new(Mutex::new(Vec::new()));
    let mut bus = EventBus::new();
    bus.subscribe_all(Box::new(Recorder { name: "all", log: log.clone() }));
    assert_eq!(bus.subscriber_count(TypeId::of::<()>()), 1);
    bus.subscribe::<TestEvent>(Box::new(Recorder { name: "t1", log: log.clone() }));
    bus.subscribe::<TestEvent>(Box::new(Recorder { name: "t2", log: log.clone() }));
    bus.publish_event(TestEvent).unwrap();
    bus.publish_event(TestEvent).unwrap();
    assert!(log.lock().unwrap().is_empty());
    bus.process_events().unwrap();
    assert_eq!(
        *log.lock().unwrap(),
        vec![("t1", true), ("t2", true), ("t1", true), ("t2", true), ("all", true), ("all", true)]
    );
    assert_eq!(bus.queue_size(), 0);
    assert_eq!(bus.processed_count(), 2);
    bus.process_events().unwrap();
    assert_eq!(log.lock().unwrap().len(), 6);
}

#[test]
fn a_failing_subscriber_stops_delivery_at_that_call() {
    let log = Arc::new(Mutex::new(Vec::new()));
    let mut bus = EventBus::new();
    bus.subscribe::<TestEvent>(Box::new(Recorder { name: "t1", log: log.clone() }));
    bus.subscribe::<TestEvent>(Box::new(FailingSubscriber));
    bus.subscribe_all(Box::new(Recorder { name: "all", log: log.clone() }));
    bus.publish_event(TestEvent).unwrap();
    bus.publish_event(TestEvent).unwrap();
    assert!(matches!(bus.process_events(), Err(EcsError::EventQueueOverflow)));
    assert_eq!(*log.lock().unwrap(), vec![("t1", true)]);
    assert_eq!(bus.queue_size(), 2);
    assert_eq!(bus.processed_count(), 0);
}
