use rust4d::{EventBus, HandlerId};
use std::any::{Any, TypeId};
use std::sync::atomic::{AtomicU32, Ordering};
use std::sync::{Arc, Mutex};

type Handler = Box<dyn Fn(&dyn Any) + Send + Sync>;
type Payload = Box<dyn Any + Send + Sync>;
type Bus = EventBus<Handler, Payload>;

fn on<T: 'static>(bus: &mut Bus, f: impl Fn(&T) + Send + Sync + 'static) -> HandlerId {
    bus.on(
        TypeId::of::<T>(),
        Box::new(move |any: &dyn Any| {
            if let Some(event) = any.downcast_ref::<T>() {
                f(event);
            }
        }),
    )
}

fn emit<T: Any + Send + Sync>(bus: &mut Bus, event: T) {
    bus.emit(TypeId::of::<T>(), Box::new(event));
}

fn dispatch(bus: &mut Bus) -> usize {
    bus.dispatch(|h: &Handler, p: &Payload| h(p.as_ref())).len()
}

#[derive(Debug, Clone)]
struct DamageEvent {
    amount: u32,
}

#[derive(Debug, Clone)]
struct HealEvent {
    amount: u32,
}

#[test]
fn test_emit_and_dispatch_delivers_events() {
    let mut bus = Bus::new();
    let received = Arc::new(Mutex::new(Vec::new()));

    let received_clone = received.clone();
    on::<DamageEvent>(&mut bus, move |event| {
        received_clone.lock().unwrap().push(event.amount);
    });

    emit(&mut bus, DamageEvent { amount: 10 });
    emit(&mut bus, DamageEvent { amount: 20 });

    assert_eq!(bus.queued_count(), 2);
    dispatch(&mut bus);
    assert_eq!(bus.queued_count(), 0);

    let received = received.lock().unwrap();
    assert_eq!(received.len(), 2);
    assert_eq!(received[0], 10);
    assert_eq!(received[1], 20);
}

#[test]
fn test_multiple_handlers_for_same_type() {
    let mut bus = Bus::new();
    let count1 = Arc::new(AtomicU32::new(0));
    let count2 = Arc::new(AtomicU32::new(0));

    let c1 = count1.clone();
    on::<DamageEvent>(&mut bus, move |event| {
        c1.fetch_add(event.amount, Ordering::Relaxed);
    });

    let c2 = count2.clone();
    on::<DamageEvent>(&mut bus, move |event| {
        c2.fetch_add(event.amount * 2, Ordering::Relaxed);
    });

    emit(&mut bus, DamageEvent { amount: 5 });
    dispatch(&mut bus);

    assert_eq!(count1.load(Ordering::Relaxed), 5);
    assert_eq!(count2.load(Ordering::Relaxed), 10);
}

#[test]
fn test_events_of_different_types_dont_cross() {
    let mut bus = Bus::new();
    let damage_received = Arc::new(Mutex::new(Vec::new()));
    let heal_received = Arc::new(Mutex::new(Vec::new()));

    let dr = damage_received.clone();
    on::<DamageEvent>(&mut bus, move |event| {
        dr.lock().unwrap().push(event.amount);
    });

    let hr = heal_received.clone();
    on::<HealEvent>(&mut bus, move |event| {
        hr.lock().unwrap().push(event.amount);
    });

    emit(&mut bus, DamageEvent { amount: 10 });
    emit(&mut bus, HealEvent { amount: 25 });
    emit(&mut bus, DamageEvent { amount: 5 });
    assert_eq!(dispatch(&mut bus), 3);

    let damage = damage_received.lock().unwrap();
    assert_eq!(damage.len(), 2);
    assert_eq!(damage[0], 10);
    assert_eq!(damage[1], 5);

    let heal = heal_received.lock().unwrap();
    assert_eq!(heal.len(), 1);
    assert_eq!(heal[0], 25);
}

#[test]
fn test_clear_removes_queued_events() {
    let mut bus = Bus::new();
    let count = Arc::new(AtomicU32::new(0));

    let c = count.clone();
    on::<DamageEvent>(&mut bus, move |_| {
        c.fetch_add(1, Ordering::Relaxed);
    });

    emit(&mut bus, DamageEvent { amount: 10 });
    emit(&mut bus, DamageEvent { amount: 20 });
    assert_eq!(bus.queued_count(), 2);

    bus.clear();
    assert_eq!(bus.queued_count(), 0);

    dispatch(&mut bus);
    assert_eq!(
        count.load(Ordering::Relaxed),
        0,
        "No events should have been dispatched after clear"
    );
}

#[test]
fn test_dispatch_without_handlers() {
    let mut bus = Bus::new();

    emit(&mut bus, DamageEvent { amount: 10 });
    assert_eq!(dispatch(&mut bus), 0);
}

#[test]
fn test_dispatch_clears_queue() {
    let mut bus = Bus::new();
    let count = Arc::new(AtomicU32::new(0));

    let c = count.clone();
    on::<DamageEvent>(&mut bus, move |_| {
        c.fetch_add(1, Ordering::Relaxed);
    });

    emit(&mut bus, DamageEvent { amount: 10 });
    dispatch(&mut bus);
    assert_eq!(count.load(Ordering::Relaxed), 1);

    dispatch(&mut bus);
    assert_eq!(count.load(Ordering::Relaxed), 1);
}

#[test]
fn events_test_default() {
    let bus = Bus::default();
    assert_eq!(bus.queued_count(), 0);
}

#[test]
fn test_on_returns_handler_id() {
    let mut bus = Bus::new();
    let id1 = on::<DamageEvent>(&mut bus, |_| {});
    let id2 = on::<DamageEvent>(&mut bus, |_| {});

    assert_ne!(id1, id2);
}

#[test]
fn test_off_removes_handler() {
    let mut bus = Bus::new();
    let count = Arc::new(AtomicU32::new(0));

    let c = count.clone();
    let id = on::<DamageEvent>(&mut bus, move |_| {
        c.fetch_add(1, Ordering::Relaxed);
    });

    assert_eq!(bus.handler_count(TypeId::of::<DamageEvent>()), 1);

    let removed = bus.off(id);
    assert!(removed, "Handler should be found and removed");
    assert_eq!(bus.handler_count(TypeId::of::<DamageEvent>()), 0);

    emit(&mut bus, DamageEvent { amount: 10 });
    dispatch(&mut bus);
    assert_eq!(
        count.load(Ordering::Relaxed),
        0,
        "Removed handler should not be called"
    );
}

#[test]
fn test_off_returns_false_for_unknown_id() {
    let mut bus = Bus::new();
    let id = on::<DamageEvent>(&mut bus, |_| {});

    assert!(bus.off(id));
    assert!(!bus.off(id));
}

#[test]
fn test_off_only_removes_target_handler() {
    let mut bus = Bus::new();
    let count1 = Arc::new(AtomicU32::new(0));
    let count2 = Arc::new(AtomicU32::new(0));

    let c1 = count1.clone();
    let id1 = on::<DamageEvent>(&mut bus, move |_| {
        c1.fetch_add(1, Ordering::Relaxed);
    });

    let c2 = count2.clone();
    let _id2 = on::<DamageEvent>(&mut bus, move |_| {
        c2.fetch_add(1, Ordering::Relaxed);
    });

    bus.off(id1);
    assert_eq!(bus.handler_count(TypeId::of::<DamageEvent>()), 1);

    emit(&mut bus, DamageEvent { amount: 10 });
    dispatch(&mut bus);

    assert_eq!(
        count1.load(Ordering::Relaxed),
        0,
        "Removed handler should not fire"
    );
    assert_eq!(
        count2.load(Ordering::Relaxed),
        1,
        "Remaining handler should fire"
    );
}

#[test]
fn test_handlers_cannot_emit_during_dispatch() {
    let mut bus = Bus::new();
    let was_called = Arc::new(AtomicU32::new(0));

    let wc = was_called.clone();
    on::<DamageEvent>(&mut bus, move |_event| {
        wc.fetch_add(1, Ordering::Relaxed);
    });

    emit(&mut bus, DamageEvent { amount: 10 });
    dispatch(&mut bus);

    assert_eq!(was_called.load(Ordering::Relaxed), 1);
}

#[test]
fn test_event_bus_is_send_sync() {
    fn assert_send_sync<T: Send + Sync>() {}
    assert_send_sync::<Bus>();
}

#[test]
fn dispatch_results_follow_emission_then_registration_order() {
    let mut bus: EventBus<u32, u32> = EventBus::new();
    let a = TypeId::of::<DamageEvent>();
    let b = TypeId::of::<HealEvent>();
    bus.on(a, 1);
    bus.on(b, 2);
    bus.on(a, 3);
    bus.emit(b, 10);
    bus.emit(a, 20);
    let calls = bus.dispatch(|h: &u32, e: &u32| (*h, *e));
    assert_eq!(calls, vec![(2, 10), (1, 20), (3, 20)]);
    assert_eq!(bus.queued_count(), 0);
    assert_eq!(bus.handler_count(a), 2);
    assert_eq!(bus.handler_count(b), 1);
}

#[test]
fn handler_ids_count_up_from_zero() {
    let mut bus: EventBus<(), ()> = EventBus::new();
    let a = TypeId::of::<DamageEvent>();
    let b = TypeId::of::<HealEvent>();
    let id0 = bus.on(a, ());
    let id1 = bus.on(b, ());
    assert_eq!(id0.id, 0);
    assert_eq!(id1.id, 1);
    assert_eq!(id1.type_id, b);
    // an id under the wrong type is not found
    assert!(!bus.off(HandlerId { type_id: b, id: 0 }));
    assert!(bus.off(id0));
}
