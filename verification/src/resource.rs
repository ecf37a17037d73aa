//! Resources: values with a cleanup that runs once, here or at the node that owns the resource.

use crate::address::{copy_of, AddressT};
use crate::internal_handlers::{Body, ResourceDropped, RESOURCE_DROPPED};
use crate::packet::{Header, OpaquePacketWrapper, Packet, PacketView};
use vstd::prelude::*;

verus! {

/// The number of a resource, unique per node.
#[derive(Clone, Copy, PartialEq, Eq, Structural, Debug, Hash)]
pub struct ResourceId(pub u64);

/// The number that is given out after `id`.
pub open spec fn next_id(id: u64) -> u64 {
    if id == u64::MAX {
        0
    } else {
        (id + 1) as u64
    }
}

/// Gives out the numbers of resources.
pub struct ResourceIds {
    next: u64,
}

impl View for ResourceIds {
    type V = u64;

    closed spec fn view(&self) -> u64 {
        self.next
    }
}

impl ResourceIds {
    /// The first number is one.
    pub fn new() -> (r: Self)
        ensures
            r@ == 1,
    {
        ResourceIds { next: 1 }
    }

    /// Gives out a number.
    pub fn fetch(&mut self) -> (r: ResourceId)
        ensures
            r == ResourceId(old(self)@),
            final(self)@ == next_id(old(self)@),
    {
        let id = self.next;
        self.next = if id == u64::MAX {
            0
        } else {
            id + 1
        };
        ResourceId(id)
    }
}

/// The number that is given out `n` numbers after `first`.
pub open spec fn nth_id(first: u64, n: nat) -> u64
    decreases n,
{
    if n == 0 {
        first
    } else {
        next_id(nth_id(first, (n - 1) as nat))
    }
}

proof fn lemma_nth_id(first: u64, n: nat)
    ensures
        nth_id(first, n) == (first + n) % 0x1_0000_0000_0000_0000,
    decreases n,
{
    if n > 0 {
        lemma_nth_id(first, (n - 1) as nat);
    }
}

/// A node gives no number to two resources, as long as it gives out no more numbers than there
/// are.
pub proof fn ids_are_unique(first: u64, i: nat, j: nat)
    requires
        i < j < i + 0x1_0000_0000_0000_0000,
    ensures
        nth_id(first, i) != nth_id(first, j),
{
    lemma_nth_id(first, i);
    lemma_nth_id(first, j);
}

/// Why a resource could not be put in a message, or taken out of one.
#[derive(Clone, Copy, PartialEq, Eq, Structural, Debug)]
pub enum ResourceError {
    SerializedOutsideMessage,
    LockPoisoned,
    AlreadySerialized,
    DeserializedOutsideMessage,
}

impl ResourceError {
    /// The text of the error.
    pub open spec fn spec_text(self) -> Seq<char> {
        match self {
            ResourceError::SerializedOutsideMessage =>
                "Resource can only be serialized inside a bifrostlink message"@,
            ResourceError::LockPoisoned => "Resource cleanup lock poisoned"@,
            ResourceError::AlreadySerialized => "Resource already serialized or dropped"@,
            ResourceError::DeserializedOutsideMessage =>
                "Resource can only be deserialized inside a bifrostlink message"@,
        }
    }

    /// The text of the error.
    pub fn text(self) -> (r: String)
        ensures
            r@ == self.spec_text(),
    {
        match self {
            ResourceError::SerializedOutsideMessage =>
                "Resource can only be serialized inside a bifrostlink message".to_owned(),
            ResourceError::LockPoisoned => "Resource cleanup lock poisoned".to_owned(),
            ResourceError::AlreadySerialized => "Resource already serialized or dropped".to_owned(),
            ResourceError::DeserializedOutsideMessage =>
                "Resource can only be deserialized inside a bifrostlink message".to_owned(),
        }
    }
}

/// The resources that were put in the message that is being encoded, if one is: their numbers, and
/// the cleanups that are still to run.
pub struct EncodeContext<F> {
    parked: Option<Vec<(ResourceId, F)>>,
}

impl<F> View for EncodeContext<F> {
    type V = Option<Seq<(ResourceId, F)>>;

    closed spec fn view(&self) -> Option<Seq<(ResourceId, F)>> {
        match self.parked {
            Some(parked) => Some(parked@),
            None => None,
        }
    }
}

impl<F> EncodeContext<F> {
    /// What was put in the message that is being encoded; nothing, if none is.
    pub open spec fn spec_parked(self) -> Seq<(ResourceId, F)> {
        match self@ {
            Some(parked) => parked,
            None => Seq::empty(),
        }
    }

    /// No message is being encoded.
    pub fn new() -> (r: Self)
        ensures
            r@ is None,
    {
        EncodeContext { parked: None }
    }

    /// Whether a message is being encoded.
    pub fn is_active(&self) -> (r: bool)
        ensures
            r == (self@ is Some),
    {
        self.parked.is_some()
    }

    /// Why a resource cannot be put in the message when its cleanup cannot be got at.
    pub fn poisoned(&self) -> (r: ResourceError)
        ensures
            r == (if self@ is None {
                ResourceError::SerializedOutsideMessage
            } else {
                ResourceError::LockPoisoned
            }),
    {
        if self.is_active() {
            ResourceError::LockPoisoned
        } else {
            ResourceError::SerializedOutsideMessage
        }
    }

    /// A message begins to be encoded.
    pub fn enter(&mut self)
        requires
            old(self)@ is None,
        ensures
            final(self)@ == Some(Seq::<(ResourceId, F)>::empty()),
    {
        self.parked = Some(Vec::new());
    }

    /// The message has been encoded. Returns what was put in it.
    pub fn leave(&mut self) -> (r: Vec<(ResourceId, F)>)
        ensures
            final(self)@ is None,
            r@ == (*old(self)).spec_parked(),
    {
        let parked = self.parked.take();
        match parked {
            Some(parked) => parked,
            None => Vec::new(),
        }
    }

    /// Breaks off the message that is being encoded, as where encoding it panicked. What was put
    /// in it is dropped: no cleanup runs.
    pub fn abandon(&mut self)
        ensures
            final(self)@ is None,
    {
        self.parked = None;
    }
}

/// Encodes a message by `f`, and returns next to its result what was put in the message.
pub fn with_encode<F, R>(
    context: &mut EncodeContext<F>,
    f: impl FnOnce(&mut EncodeContext<F>) -> R,
) -> (r: (R, Vec<(ResourceId, F)>))
    requires
        old(context)@ is None,
        forall|c: &mut EncodeContext<F>|
            (*c)@ == Some(Seq::<(ResourceId, F)>::empty()) ==> call_requires(f, (c,)),
    ensures
        final(context)@ is None,
        exists|c: &mut EncodeContext<F>| #[trigger]
            call_ensures(f, (c,), r.0) && (*c)@ == Some(Seq::<(ResourceId, F)>::empty()) && r.1@
                == (*final(c)).spec_parked(),
{
    context.enter();
    let r = f(context);
    let ghost after = *context;
    let ghost c = choose|c: &mut EncodeContext<F>| #[trigger]
        call_ensures(f, (c,), r) && (*c)@ == Some(Seq::<(ResourceId, F)>::empty()) && *final(c)
            == after;
    let parked = context.leave();
    let encoded = (r, parked);
    assert(call_ensures(f, (c,), encoded.0));
    encoded
}

/// What happens to a cleanup, to the message that is being encoded and to the next number when a
/// resource is put in the message.
pub open spec fn parking<F>(
    cleanup: Option<F>,
    context: Option<Seq<(ResourceId, F)>>,
    next: u64,
) -> (Option<F>, Option<Seq<(ResourceId, F)>>, u64, Result<ResourceId, ResourceError>) {
    match (context, cleanup) {
        (None, _) => (cleanup, context, next, Err(ResourceError::SerializedOutsideMessage)),
        (Some(_), None) => (cleanup, context, next, Err(ResourceError::AlreadySerialized)),
        (Some(parked), Some(f)) => (
            None,
            Some(parked.push((ResourceId(next), f))),
            next_id(next),
            Ok(ResourceId(next)),
        ),
    }
}

/// The cleanup of a resource, as long as it is here and has not run.
pub struct OnDrop<F> {
    cleanup: Option<F>,
}

impl<F> View for OnDrop<F> {
    type V = Option<F>;

    closed spec fn view(&self) -> Option<F> {
        self.cleanup
    }
}

impl<F> OnDrop<F> {
    /// A cleanup that is still to run.
    pub fn armed(cleanup: F) -> (r: Self)
        ensures
            r@ == Some(cleanup),
    {
        OnDrop { cleanup: Some(cleanup) }
    }

    /// Takes the cleanup out.
    pub fn take(&mut self) -> (r: Option<F>)
        ensures
            r == old(self)@,
            final(self)@ is None,
    {
        self.cleanup.take()
    }

    /// Puts the resource in the message that is being encoded: its cleanup moves there, under a
    /// new number.
    pub fn park(&mut self, context: &mut EncodeContext<F>, ids: &mut ResourceIds) -> (r: Result<
        ResourceId,
        ResourceError,
    >)
        ensures
            (final(self)@, final(context)@, final(ids)@, r) == parking(
                old(self)@,
                old(context)@,
                old(ids)@,
            ),
    {
        match context.parked.take() {
            None => Err(ResourceError::SerializedOutsideMessage),
            Some(mut parked) => {
                let r = match self.cleanup.take() {
                    None => Err(ResourceError::AlreadySerialized),
                    Some(cleanup) => {
                        let id = ids.fetch();
                        parked.push((id, cleanup));
                        Ok(id)
                    },
                };
                context.parked = Some(parked);
                r
            },
        }
    }
}

impl<F: FnOnce()> OnDrop<F> {
    /// Runs the cleanup, unless it has run or moved away.
    pub fn release(&mut self)
        requires
            old(self)@ matches Some(f) ==> call_requires(f, ()),
        ensures
            final(self)@ is None,
            old(self)@ matches Some(f) ==> call_ensures(f, (), ()),
    {
        if let Some(f) = self.cleanup.take() {
            f();
        }
    }
}

/// A handle to a resource owned elsewhere (or here, until it is put in a message).
///
/// Releasing it runs the cleanup, which might be remote.
pub struct Resource<T, F> {
    payload: T,
    on_drop: OnDrop<F>,
}

impl<T, F> Resource<T, F> {
    /// The value.
    pub closed spec fn spec_payload(self) -> T {
        self.payload
    }

    /// The cleanup, as long as it is here and has not run.
    pub closed spec fn cleanup(self) -> Option<F> {
        self.on_drop@
    }

    /// A resource whose cleanup is still to run.
    pub fn new(payload: T, cleanup: F) -> (r: Self)
        ensures
            r.spec_payload() == payload,
            r.cleanup() == Some(cleanup),
    {
        Resource { payload, on_drop: OnDrop::armed(cleanup) }
    }

    /// Puts a resource together.
    pub fn from_parts(payload: T, on_drop: OnDrop<F>) -> (r: Self)
        ensures
            r.spec_payload() == payload,
            r.cleanup() == on_drop@,
    {
        Resource { payload, on_drop }
    }

    /// Takes a resource apart.
    pub fn into_parts(self) -> (r: (T, OnDrop<F>))
        ensures
            r.0 == self.spec_payload(),
            r.1@ == self.cleanup(),
    {
        (self.payload, self.on_drop)
    }

    /// Returns the value. The cleanup never runs.
    pub fn get_and_leak(self) -> (r: T)
        ensures
            r == self.spec_payload(),
    {
        self.payload
    }

    /// The value.
    pub fn deref(&self) -> (r: &T)
        ensures
            *r == self.spec_payload(),
    {
        &self.payload
    }

    /// The value, for changing it.
    pub fn deref_mut(&mut self) -> (r: &mut T)
        ensures
            *r == old(self).spec_payload(),
            final(self).spec_payload() == *final(r),
            final(self).cleanup() == old(self).cleanup(),
    {
        &mut self.payload
    }

    /// Puts the resource in the message that is being encoded. The value stays.
    pub fn park(&mut self, context: &mut EncodeContext<F>, ids: &mut ResourceIds) -> (r: Result<
        ResourceId,
        ResourceError,
    >)
        ensures
            final(self).spec_payload() == old(self).spec_payload(),
            (final(self).cleanup(), final(context)@, final(ids)@, r) == parking(
                old(self).cleanup(),
                old(context)@,
                old(ids)@,
            ),
    {
        self.on_drop.park(context, ids)
    }
}

impl<T, F: FnOnce()> Resource<T, F> {
    /// Runs the cleanup, unless it has run or moved away, and returns the value.
    pub fn get_and_drop(self) -> (r: T)
        requires
            self.cleanup() matches Some(f) ==> call_requires(f, ()),
        ensures
            r == self.spec_payload(),
            self.cleanup() matches Some(f) ==> call_ensures(f, (), ()),
    {
        let mut me = self;
        me.on_drop.release();
        me.payload
    }

    /// Runs the cleanup, unless it has run or moved away.
    pub fn release(&mut self)
        requires
            old(self).cleanup() matches Some(f) ==> call_requires(f, ()),
        ensures
            final(self).spec_payload() == old(self).spec_payload(),
            final(self).cleanup() is None,
            old(self).cleanup() matches Some(f) ==> call_ensures(f, (), ()),
    {
        self.on_drop.release();
    }
}

/// A resource goes in one message only: where it could be put in a message, it cannot be put in a
/// message again, and trying to changes nothing.
pub proof fn parks_once<F>(cleanup: Option<F>, context: Option<Seq<(ResourceId, F)>>, next: u64)
    requires
        parking(cleanup, context, next).3 is Ok,
    ensures
        ({
            let (cleanup1, context1, next1, _) = parking(cleanup, context, next);
            &&& cleanup1 is None
            &&& parking(cleanup1, context1, next1) == (
                cleanup1,
                context1,
                next1,
                Err::<ResourceId, ResourceError>(ResourceError::AlreadySerialized),
            )
        }),
{
}

/// Outside a message a resource cannot be put in one, as often as it is tried, and keeps its
/// cleanup.
pub proof fn stays_armed_outside<F>(cleanup: Option<F>, next: u64)
    ensures
        parking(cleanup, None, next) == (
            cleanup,
            None::<Seq<(ResourceId, F)>>,
            next,
            Err::<ResourceId, ResourceError>(ResourceError::SerializedOutsideMessage),
        ),
{
}

/// Makes the notice that a handle to a resource was dropped.
pub struct DropNotifier<A> {
    pub me: A,
    pub owner: A,
}

/// The notice of `me` to `owner` that its handle to a resource was dropped.
pub open spec fn drop_notice<A>(me: A, owner: A, id: ResourceId) -> PacketView<A> {
    PacketView {
        header: Header::notification(me, owner, RESOURCE_DROPPED),
        body: Body::ResourceDropped(ResourceDropped { id }),
    }
}

/// Notices from `me` to the node that a message came from.
pub fn drop_notifier<A>(me: A, owner: A) -> (r: DropNotifier<A>)
    ensures
        r.me == me,
        r.owner == owner,
{
    DropNotifier { me, owner }
}

impl<A: AddressT> DropNotifier<A> {
    /// The notice that the handle to the resource `id` was dropped.
    pub fn notice(&self, id: ResourceId) -> (r: Packet<A>)
        ensures
            r@ == drop_notice(self.me, self.owner, id),
    {
        Packet {
            headers: OpaquePacketWrapper::Request {
                sender: copy_of(&self.me),
                receiver: copy_of(&self.owner),
                request: RESOURCE_DROPPED,
                response: None,
            },
            body: Body::ResourceDropped(ResourceDropped { id }),
        }
    }
}

/// What makes the cleanups of the resources in the message that is being decoded, if one is.
pub struct DecodeContext<M> {
    pub make: Option<M>,
}

impl<M> DecodeContext<M> {
    /// No message is being decoded.
    pub fn new() -> (r: Self)
        ensures
            r.make is None,
    {
        DecodeContext { make: None }
    }
}

/// Decodes a message by `f`. Meanwhile `make` makes the cleanups of the resources in it.
pub fn with_decode<M, R>(
    context: &mut DecodeContext<M>,
    make: M,
    f: impl FnOnce(&mut DecodeContext<M>) -> R,
) -> (r: R)
    requires
        forall|c: &mut DecodeContext<M>| (*c).make == Some(make) ==> call_requires(f, (c,)),
    ensures
        final(context).make is None,
        exists|c: &mut DecodeContext<M>| #[trigger]
            call_ensures(f, (c,), r) && (*c).make == Some(make),
{
    context.make = Some(make);
    let r = f(context);
    context.make = None;
    r
}

/// Takes a resource out of the message that is being decoded.
pub fn receive<T, F, M: Fn(ResourceId) -> F>(
    context: &DecodeContext<M>,
    id: ResourceId,
    payload: T,
) -> (r: Result<Resource<T, F>, ResourceError>)
    requires
        context.make matches Some(make) ==> call_requires(make, (id,)),
    ensures
        match context.make {
            None => r == Err::<Resource<T, F>, _>(ResourceError::DeserializedOutsideMessage),
            Some(make) => {
                &&& r matches Ok(resource)
                &&& resource.spec_payload() == payload
                &&& resource.cleanup() matches Some(cleanup)
                &&& call_ensures(make, (id,), cleanup)
            },
        },
{
    match &context.make {
        None => Err(ResourceError::DeserializedOutsideMessage),
        Some(make) => Ok(Resource::new(payload, make(id))),
    }
}

/// Resources that went to `holder` in a message, with the cleanups to run when it lets go of them.
pub struct RegisterResources<Address, F> {
    pub holder: Address,
    pub items: Vec<(ResourceId, F)>,
}

/// What there is to register after a message to `holder` was encoded.
pub fn register_parked<A, F>(holder: A, parked: Vec<(ResourceId, F)>) -> (r: Option<
    RegisterResources<A, F>,
>)
    ensures
        r is None <==> parked@.len() == 0,
        r matches Some(register) ==> register.holder == holder && register.items == parked,
{
    if parked.len() == 0 {
        return None;
    }
    Some(RegisterResources { holder, items: parked })
}

} // verus!
