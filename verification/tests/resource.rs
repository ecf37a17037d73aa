use bifrostlink::resource::{
    drop_notifier, receive, register_parked, with_decode, with_encode, DecodeContext,
    EncodeContext, OnDrop, Resource, ResourceError, ResourceId, ResourceIds,
};
use bifrostlink::internal_handlers::{Body, RESOURCE_DROPPED};
use bifrostlink::packet::OpaquePacketWrapper;
use std::sync::atomic::{AtomicBool, Ordering};
use std::sync::Arc;

/// Runs the cleanup when it goes out of scope.
struct Scoped<F: FnOnce()>(OnDrop<F>);

impl<F: FnOnce()> Drop for Scoped<F> {
    fn drop(&mut self) {
        self.0.release();
    }
}

#[test]
fn local_drop_runs_cleanup() {
    let flag = Arc::new(AtomicBool::new(false));
    let f = flag.clone();
    {
        let r = Resource::new((), move || f.store(true, Ordering::SeqCst));
        let (_, on_drop) = r.into_parts();
        let _r = Scoped(on_drop);
        assert!(!flag.load(Ordering::SeqCst));
    }
    assert!(flag.load(Ordering::SeqCst));
}

#[test]
fn into_inner_disarms() {
    let flag = Arc::new(AtomicBool::new(false));
    let f = flag.clone();
    let res = Resource::new(123u64, move || f.store(true, Ordering::SeqCst));
    assert_eq!(res.get_and_leak(), 123);
    assert!(!flag.load(Ordering::SeqCst), "cleanup must not run");
}

#[test]
fn close_runs_and_returns() {
    let flag = Arc::new(AtomicBool::new(false));
    let f = flag.clone();
    let res = Resource::new(123u64, move || f.store(true, Ordering::SeqCst));
    assert_eq!(res.get_and_drop(), 123);
    assert!(flag.load(Ordering::SeqCst));
}

#[test]
fn serialize_outside_context_errors() {
    let mut res = Resource::new(1u64, || {});
    let mut context = EncodeContext::new();
    let mut ids = ResourceIds::new();
    assert!(
        res.park(&mut context, &mut ids).is_err(),
        "serialize without encode context must fail"
    );
    assert!(
        res.park(&mut context, &mut ids).is_err(),
        "still fails, still armed"
    );
    let (_, parked) = with_encode(&mut context, |context| {
        assert_eq!(res.park(context, &mut ids), Ok(ResourceId(1)));
    });
    assert_eq!(parked.len(), 1);
}

#[test]
fn double_serialize_errors() {
    let mut res = Resource::new(1u64, || {});
    let mut context = EncodeContext::new();
    let mut ids = ResourceIds::new();
    let (results, _parked) = with_encode(&mut context, |context| {
        let first = res.park(context, &mut ids);
        let second = res.park(context, &mut ids);
        (first, second)
    });
    assert!(results.0.is_ok(), "first serialize ok");
    assert!(results.1.is_err(), "second serialize must error");
    assert_eq!(results.1, Err(ResourceError::AlreadySerialized));
}

#[test]
fn released_resources_cannot_be_serialized() {
    let mut res = Resource::new(1u64, || {});
    res.release();
    let mut context = EncodeContext::new();
    context.enter();
    let mut ids = ResourceIds::new();
    assert_eq!(res.park(&mut context, &mut ids), Err(ResourceError::AlreadySerialized));
    assert!(context.leave().is_empty());
}

#[test]
fn resource_numbers_start_at_one_and_differ() {
    let mut ids = ResourceIds::new();
    assert_eq!(ids.fetch(), ResourceId(1));
    assert_eq!(ids.fetch(), ResourceId(2));
    assert_eq!(ids.fetch(), ResourceId(3));
}

#[test]
fn each_message_starts_empty() {
    let mut first = Resource::new(1u64, || {});
    let mut second = Resource::new(2u64, || {});
    let mut context = EncodeContext::new();
    let mut ids = ResourceIds::new();
    let (_, parked) = with_encode(&mut context, |context| first.park(context, &mut ids));
    assert_eq!(parked.len(), 1);
    assert!(!context.is_active());
    let mut third = OnDrop::armed(|| {});
    let mut other = EncodeContext::new();
    assert_eq!(third.park(&mut other, &mut ids), Err(ResourceError::SerializedOutsideMessage));
    assert!(third.take().is_some());
    let mut context = EncodeContext::new();
    let (_, parked) = with_encode(&mut context, |context| second.park(context, &mut ids));
    assert_eq!(parked.len(), 1);
    assert_eq!(parked[0].0, ResourceId(2));
    let (_, parked) = with_encode(&mut context, |_| ());
    assert!(parked.is_empty());
}

#[test]
fn broken_off_messages_leave_nothing_behind() {
    let runs = Arc::new(AtomicBool::new(false));
    let ran = runs.clone();
    let mut res = Resource::new(1u64, move || ran.store(true, Ordering::SeqCst));
    let mut context = EncodeContext::new();
    let mut ids = ResourceIds::new();
    context.enter();
    assert!(res.park(&mut context, &mut ids).is_ok());
    context.abandon();
    assert!(!context.is_active());
    assert!(!runs.load(Ordering::SeqCst), "dropped, not run");
    assert_eq!(res.park(&mut context, &mut ids), Err(ResourceError::SerializedOutsideMessage));
    context.enter();
    assert!(context.leave().is_empty());
}

#[test]
fn leaving_without_a_message_hands_out_nothing() {
    let mut context: EncodeContext<u8> = EncodeContext::new();
    assert!(context.leave().is_empty());
}

#[test]
fn values_can_be_changed() {
    let mut res = Resource::new(5u64, || {});
    *res.deref_mut() += 1;
    assert_eq!(*res.deref(), 6);
    assert_eq!(res.get_and_leak(), 6);
}

#[test]
fn cleanups_run_once_when_released_twice() {
    let mut runs = 0;
    let mut on_drop = OnDrop::armed(|| runs += 1);
    on_drop.release();
    on_drop.release();
    assert!(on_drop.take().is_none());
    drop(on_drop);
    assert_eq!(runs, 1);
}

#[test]
fn received_resources_notify_their_owner() {
    let notifier = drop_notifier(7u32, 8u32);
    let mut context = DecodeContext::new();
    let res = with_decode(
        &mut context,
        move |id: ResourceId| notifier.notice(id),
        |context| receive(context, ResourceId(4), "value").ok().unwrap(),
    );
    assert!(context.make.is_none());
    assert_eq!(*res.deref(), "value");
    let packet = res.into_parts().1.take().unwrap();
    match packet.headers {
        OpaquePacketWrapper::Request { sender, receiver, request, response } => {
            assert_eq!((sender, receiver, request), (7, 8, RESOURCE_DROPPED));
            assert!(response.is_none());
        }
        _ => panic!("expected a notification"),
    }
    assert!(matches!(packet.body, Body::ResourceDropped(dropped) if dropped.id == ResourceId(4)));
}

#[test]
fn deserialize_outside_context_errors() {
    let context: DecodeContext<fn(ResourceId) -> u8> = DecodeContext::new();
    match receive(&context, ResourceId(4), 1u64) {
        Err(e) => assert_eq!(e, ResourceError::DeserializedOutsideMessage),
        Ok(_) => panic!("expected an error"),
    }
}

#[test]
fn nothing_is_registered_for_messages_without_resources() {
    assert!(register_parked(3u32, Vec::<(ResourceId, u8)>::new()).is_none());
    let register = register_parked(3u32, vec![(ResourceId(1), 9u8)]).unwrap();
    assert_eq!(register.holder, 3);
    assert_eq!(register.items, [(ResourceId(1), 9)]);
}

#[test]
fn poisoned_cleanups_are_reported_inside_messages() {
    let mut context: EncodeContext<u8> = EncodeContext::new();
    assert!(!context.is_active());
    assert_eq!(context.poisoned(), ResourceError::SerializedOutsideMessage);
    context.enter();
    assert!(context.is_active());
    assert_eq!(context.poisoned(), ResourceError::LockPoisoned);
}

#[test]
fn resources_can_be_taken_apart_and_put_together() {
    let mut runs = 0;
    let (payload, on_drop) = Resource::new(3u64, || runs += 1).into_parts();
    assert_eq!(Resource::from_parts(payload, on_drop).get_and_drop(), 3);
    assert_eq!(runs, 1);
}

#[test]
fn resource_errors_have_texts() {
    assert_eq!(
        ResourceError::SerializedOutsideMessage.text(),
        "Resource can only be serialized inside a bifrostlink message"
    );
    assert_eq!(ResourceError::LockPoisoned.text(), "Resource cleanup lock poisoned");
    assert_eq!(
        ResourceError::AlreadySerialized.text(),
        "Resource already serialized or dropped"
    );
    assert_eq!(
        ResourceError::DeserializedOutsideMessage.text(),
        "Resource can only be deserialized inside a bifrostlink message"
    );
}
