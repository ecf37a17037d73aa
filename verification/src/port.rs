//! Length-prefixed framing: how a message is laid out on a byte stream.
//!
//! Every transport puts four bytes that hold the length of the message in front of it. They
//! differ in the order of those four bytes.

use crate::message::{as_slice, buffered, contents, freeze, message_len, zeroed};
use bytes::{Bytes, BytesMut};
use vstd::prelude::*;

verus! {

/// The order in which the four length bytes stand.
#[derive(Clone, Copy, PartialEq, Eq, Structural, Debug)]
pub enum ByteOrder {
    Big,
    Little,
}

/// The number of bytes of a length prefix.
pub const SIZE_LEN: usize = 4;

/// The bytes of `n`, the most significant first.
pub open spec fn big_endian(n: int) -> Seq<u8> {
    seq![
        (n / 0x100_0000 % 0x100) as u8,
        (n / 0x1_0000 % 0x100) as u8,
        (n / 0x100 % 0x100) as u8,
        (n % 0x100) as u8,
    ]
}

/// The four bytes that stand for the length `n`.
pub open spec fn size_prefix(order: ByteOrder, n: int) -> Seq<u8> {
    match order {
        ByteOrder::Big => big_endian(n),
        ByteOrder::Little => big_endian(n).reverse(),
    }
}

/// The length that four bytes stand for.
pub open spec fn prefix_value(order: ByteOrder, size: Seq<u8>) -> int {
    match order {
        ByteOrder::Big => size[0] * 0x100_0000 + size[1] * 0x1_0000 + size[2] * 0x100 + size[3],
        ByteOrder::Little => size[3] * 0x100_0000 + size[2] * 0x1_0000 + size[1] * 0x100 + size[0],
    }
}

/// `prefix_value` reads back what `size_prefix` wrote.
pub proof fn prefix_roundtrip(order: ByteOrder, n: int)
    requires
        0 <= n <= u32::MAX,
    ensures
        size_prefix(order, n).len() == SIZE_LEN,
        prefix_value(order, size_prefix(order, n)) == n,
{
    let b3 = n / 0x100_0000;
    let b2 = n / 0x1_0000;
    let b1 = n / 0x100;
    assert(b1 / 0x100 == b2);
    assert(b2 / 0x100 == b3);
    assert(n == b1 * 0x100 + n % 0x100);
    assert(b1 == b2 * 0x100 + b1 % 0x100);
    assert(b2 == b3 * 0x100 + b2 % 0x100);
    assert(b3 % 0x100 == b3);
    let size = size_prefix(order, n);
    match order {
        ByteOrder::Big => {
            assert(size == big_endian(n));
        },
        ByteOrder::Little => {
            assert(size[0] == big_endian(n)[3] && size[1] == big_endian(n)[2]);
            assert(size[2] == big_endian(n)[1] && size[3] == big_endian(n)[0]);
        },
    }
}

/// Lays a length out as four bytes.
pub fn size_bytes(order: ByteOrder, n: u32) -> (r: [u8; 4])
    ensures
        r@ == size_prefix(order, n as int),
{
    let b3 = (n / 0x100_0000 % 0x100) as u8;
    let b2 = (n / 0x1_0000 % 0x100) as u8;
    let b1 = (n / 0x100 % 0x100) as u8;
    let b0 = (n % 0x100) as u8;
    match order {
        ByteOrder::Big => [b3, b2, b1, b0],
        ByteOrder::Little => [b0, b1, b2, b3],
    }
}

/// Reads a length from four bytes.
pub fn size_value(order: ByteOrder, size: &[u8]) -> (r: u32)
    requires
        size@.len() == SIZE_LEN,
    ensures
        r == prefix_value(order, size@),
{
    let (b3, b2, b1, b0) = match order {
        ByteOrder::Big => (size[0], size[1], size[2], size[3]),
        ByteOrder::Little => (size[3], size[2], size[1], size[0]),
    };
    (b3 as u32) * 0x100_0000 + (b2 as u32) * 0x1_0000 + (b1 as u32) * 0x100 + (b0 as u32)
}

/// `u32::to_ne_bytes` returns the bytes of `n` in the order of the machine, the least or the most
/// significant first. Which of the two it is, is left to the machine.
#[verifier::external_body]
fn native_bytes(n: u32) -> (r: [u8; 4])
    ensures
        r@ == size_prefix(ByteOrder::Big, n as int) || r@ == size_prefix(
            ByteOrder::Little,
            n as int,
        ),
{
    u32::to_ne_bytes(n)
}

/// Whether the bytes are what `u32::to_ne_bytes` can return for `n` on this machine.
pub closed spec fn laid_out(n: u32, bytes: [u8; 4]) -> bool {
    call_ensures(native_bytes, (n,), bytes)
}

/// The order in which the bytes of the number one were laid out.
pub fn order_of(one: [u8; 4]) -> (r: ByteOrder)
    requires
        one@ == size_prefix(ByteOrder::Big, 1) || one@ == size_prefix(ByteOrder::Little, 1),
    ensures
        one@ == size_prefix(r, 1),
{
    if one[0] == 1 {
        ByteOrder::Little
    } else {
        ByteOrder::Big
    }
}

/// The byte order of the machine that this runs on: the one in which it laid out the number one.
pub fn native_order() -> (r: ByteOrder)
    ensures
        exists|one: [u8; 4]| #[trigger] laid_out(1, one) && one@ == size_prefix(r, 1),
{
    let one = native_bytes(1);
    assert(laid_out(1, one));
    order_of(one)
}

/// A kind of byte stream that messages travel over.
#[derive(Clone, Copy, PartialEq, Eq, Structural, Debug)]
pub enum Transport {
    /// The standard streams of this process.
    Stdio,
    /// A unix socket.
    Socket,
    /// The standard streams of this process, as a browser talks to a native host.
    NativeMessaging,
    /// The standard streams of a native host that this process started.
    NativeExtension,
}

impl Transport {
    /// The order of the length bytes in front of a message.
    pub open spec fn spec_order(self, native: ByteOrder) -> ByteOrder {
        if self is NativeMessaging || self is NativeExtension {
            native
        } else {
            ByteOrder::Big
        }
    }

    /// The bytes that sending a message puts on the stream: its length, then the message.
    pub open spec fn sent(self, native: ByteOrder, message: Seq<u8>) -> Seq<u8> {
        size_prefix(self.spec_order(native), message.len() as int) + message
    }

    /// The order of the length bytes in front of a message.
    pub fn order(self, native: ByteOrder) -> (r: ByteOrder)
        ensures
            r == self.spec_order(native),
    {
        match self {
            Transport::Stdio | Transport::Socket => ByteOrder::Big,
            Transport::NativeMessaging | Transport::NativeExtension => native,
        }
    }

    /// Decides what is written to send a message. A message whose length does not fit in four
    /// bytes is not sent.
    pub fn plan_write(self, native: ByteOrder, message: &Bytes) -> (r: Result<WritePlan, TooLarge>)
        ensures
            r is Ok <==> contents(*message).len() <= u32::MAX,
            r matches Ok(plan) ==> {
                &&& plan.size@ + contents(*message) == self.sent(native, contents(*message))
                &&& plan.flush == (self is Stdio || self is NativeMessaging)
            },
    {
        let len: usize = message_len(message);
        if len > 0xffff_ffff {
            return Err(TooLarge);
        }
        let flush = match self {
            Transport::Stdio | Transport::NativeMessaging => true,
            Transport::Socket | Transport::NativeExtension => false,
        };
        Ok(WritePlan { size: size_bytes(self.order(native), len as u32), flush })
    }
}

/// What is written to send one message: first the length, then the message itself; then, if
/// `flush` says so, the stream is flushed.
pub struct WritePlan {
    pub size: [u8; 4],
    pub flush: bool,
}

/// The message is too long for its length to fit in four bytes.
#[derive(Clone, Copy, PartialEq, Eq, Structural, Debug)]
pub struct TooLarge;

impl TooLarge {
    /// The text that is logged.
    pub fn text(self) -> (r: String)
        ensures
            r@ == "message shouldn't be larger than 4GB"@,
    {
        "message shouldn't be larger than 4GB".to_owned()
    }
}

/// What a [`FrameReader`] waits for next.
pub enum Awaited {
    /// The four length bytes.
    Size,
    /// A message of the given length.
    Body(u32),
}

impl Awaited {
    /// The number of bytes that are waited for.
    pub open spec fn spec_wanted(self) -> int {
        match self {
            Awaited::Size => SIZE_LEN as int,
            Awaited::Body(n) => n as int,
        }
    }

    /// What is waited for after `chunk` came, and the message that it completed.
    pub open spec fn after(self, order: ByteOrder, chunk: Seq<u8>) -> (Awaited, Option<Seq<u8>>) {
        match self {
            Awaited::Size => (Awaited::Body(prefix_value(order, chunk) as u32), None),
            Awaited::Body(_) => (Awaited::Size, Some(chunk)),
        }
    }
}

/// Cuts a byte stream into messages.
pub struct FrameReader {
    pub order: ByteOrder,
    pub awaited: Awaited,
}

impl FrameReader {
    /// A reader at the start of a stream.
    pub fn new(order: ByteOrder) -> (r: FrameReader)
        ensures
            r.order == order,
            r.awaited == Awaited::Size,
    {
        FrameReader { order, awaited: Awaited::Size }
    }

    /// A buffer of as many zero bytes as have to be read next.
    pub fn buffer(&self) -> (r: BytesMut)
        requires
            self.awaited.spec_wanted() <= isize::MAX,
        ensures
            buffered(r) == Seq::new(self.awaited.spec_wanted() as nat, |i: int| 0u8),
    {
        match self.awaited {
            Awaited::Size => zeroed(SIZE_LEN),
            Awaited::Body(n) => zeroed(n as usize),
        }
    }

    /// Takes in the buffer once it has been filled, and returns the message if that completed one.
    pub fn feed(&mut self, chunk: BytesMut) -> (r: Option<Bytes>)
        requires
            buffered(chunk).len() == old(self).awaited.spec_wanted(),
        ensures
            final(self).order == old(self).order,
            (final(self).awaited, (match r {
                Some(message) => Some(contents(message)),
                None => None,
            })) == old(self).awaited.after(old(self).order, buffered(chunk)),
    {
        match self.awaited {
            Awaited::Size => {
                self.awaited = Awaited::Body(size_value(self.order, as_slice(&chunk)));
                None
            },
            Awaited::Body(_) => {
                self.awaited = Awaited::Size;
                Some(freeze(chunk))
            },
        }
    }
}

/// What a stream holds after messages were sent over it one after the other.
pub open spec fn stream_of(
    transport: Transport,
    native: ByteOrder,
    messages: Seq<Seq<u8>>,
) -> Seq<u8>
    decreases messages.len(),
{
    if messages.len() == 0 {
        Seq::empty()
    } else {
        transport.sent(native, messages[0]) + stream_of(transport, native, messages.drop_first())
    }
}

/// The messages that a reader makes of a stream: it is fed as many bytes as it waits for, as long
/// as the stream has them.
pub open spec fn messages_of(order: ByteOrder, awaited: Awaited, stream: Seq<u8>) -> Seq<Seq<u8>>
    decreases stream.len(), (if awaited is Size { 0int } else { 1int }),
{
    let wanted = awaited.spec_wanted();
    if stream.len() < wanted {
        Seq::empty()
    } else {
        let (next, message) = awaited.after(order, stream.take(wanted));
        let rest = messages_of(order, next, stream.skip(wanted));
        match message {
            Some(m) => seq![m] + rest,
            None => rest,
        }
    }
}

/// What was sent is what is received: the reader at the other end makes of the stream the messages
/// that were sent, in their order and with nothing lost or added. The other end of a native
/// extension is native messaging, which reads in the same order.
pub proof fn received_is_sent(transport: Transport, native: ByteOrder, messages: Seq<Seq<u8>>)
    requires
        forall|i: int| 0 <= i < messages.len() ==> #[trigger] messages[i].len() <= u32::MAX,
    ensures
        messages_of(
            transport.spec_order(native),
            Awaited::Size,
            stream_of(transport, native, messages),
        ) == messages,
        (Transport::NativeExtension).spec_order(native) == (Transport::NativeMessaging).spec_order(
            native,
        ),
    decreases messages.len(),
{
    let order = transport.spec_order(native);
    let stream = stream_of(transport, native, messages);
    if messages.len() == 0 {
        assert(messages_of(order, Awaited::Size, stream) =~= messages);
    } else {
        let m = messages[0];
        let n = m.len() as int;
        let tail = stream_of(transport, native, messages.drop_first());
        prefix_roundtrip(order, n);
        assert(stream == size_prefix(order, n) + m + tail);
        assert(stream.take(4) =~= size_prefix(order, n));
        let body = stream.skip(4);
        assert(body =~= m + tail);
        assert(body.take(n) =~= m);
        assert(body.skip(n) =~= tail);
        assert forall|i: int| 0 <= i < messages.drop_first().len() implies
            #[trigger] messages.drop_first()[i].len() <= u32::MAX by {
            assert(messages.drop_first()[i] == messages[i + 1]);
        }
        received_is_sent(transport, native, messages.drop_first());
        assert(messages_of(order, Awaited::Body(n as u32), body) == seq![m] + messages_of(
            order,
            Awaited::Size,
            tail,
        ));
        assert(messages_of(order, Awaited::Size, stream) == messages_of(
            order,
            Awaited::Body(n as u32),
            body,
        ));
        assert(seq![m] + messages.drop_first() =~= messages);
    }
}

/// What is sent of a message are four bytes and then the message itself. The four bytes are the
/// length of the message in base 256, the most significant first, or last where the order is the
/// other one.
pub proof fn lengths_stand_before_messages(
    transport: Transport,
    native: ByteOrder,
    message: Seq<u8>,
)
    requires
        message.len() <= u32::MAX,
    ensures
        ({
            let sent = transport.sent(native, message);
            let n = message.len();
            &&& sent.len() == 4 + n
            &&& sent.skip(4) == message
            &&& match transport.spec_order(native) {
                ByteOrder::Big => ((sent[0] * 0x100 + sent[1]) * 0x100 + sent[2]) * 0x100 + sent[3]
                    == n,
                ByteOrder::Little => ((sent[3] * 0x100 + sent[2]) * 0x100 + sent[1]) * 0x100
                    + sent[0] == n,
            }
        }),
{
    let n = message.len() as int;
    let order = transport.spec_order(native);
    let size = size_prefix(order, n);
    let sent = transport.sent(native, message);
    prefix_roundtrip(order, n);
    assert(sent == size + message);
    assert(sent.skip(4) =~= message);
    assert(sent[0] == size[0] && sent[1] == size[1] && sent[2] == size[2] && sent[3] == size[3]);
}

/// Between a native host and what started it the order is that of the machine; elsewhere the most
/// significant byte comes first on every machine.
pub proof fn only_native_hosts_follow_the_machine(transport: Transport, native: ByteOrder)
    ensures
        transport is NativeMessaging || transport is NativeExtension ==> transport.spec_order(
            native,
        ) == native,
        transport is Stdio || transport is Socket ==> transport.spec_order(native)
            == ByteOrder::Big,
{
}

/// A message that has not come in full yet does not come out, and does not change what came before
/// it.
pub proof fn unfinished_messages_wait(
    transport: Transport,
    native: ByteOrder,
    messages: Seq<Seq<u8>>,
    last: Seq<u8>,
    cut: int,
)
    requires
        forall|i: int| 0 <= i < messages.len() ==> #[trigger] messages[i].len() <= u32::MAX,
        last.len() <= u32::MAX,
        0 <= cut < transport.sent(native, last).len(),
    ensures
        messages_of(
            transport.spec_order(native),
            Awaited::Size,
            stream_of(transport, native, messages) + transport.sent(native, last).take(cut),
        ) == messages,
    decreases messages.len(),
{
    let order = transport.spec_order(native);
    let part = transport.sent(native, last).take(cut);
    let stream = stream_of(transport, native, messages) + part;
    if messages.len() == 0 {
        assert(stream =~= part);
        if cut >= 4 {
            let n = last.len() as int;
            prefix_roundtrip(order, n);
            assert(stream.take(4) =~= size_prefix(order, n));
            assert(stream.skip(4).len() < n);
            assert(messages_of(order, Awaited::Body(n as u32), stream.skip(4)) =~= Seq::empty());
        }
        assert(messages_of(order, Awaited::Size, stream) =~= messages);
    } else {
        let m = messages[0];
        let n = m.len() as int;
        let tail = stream_of(transport, native, messages.drop_first()) + part;
        prefix_roundtrip(order, n);
        assert(stream =~= size_prefix(order, n) + m + tail);
        assert(stream.take(4) =~= size_prefix(order, n));
        let body = stream.skip(4);
        assert(body =~= m + tail);
        assert(body.take(n) =~= m);
        assert(body.skip(n) =~= tail);
        assert forall|i: int| 0 <= i < messages.drop_first().len() implies
            #[trigger] messages.drop_first()[i].len() <= u32::MAX by {
            assert(messages.drop_first()[i] == messages[i + 1]);
        }
        unfinished_messages_wait(transport, native, messages.drop_first(), last, cut);
        assert(messages_of(order, Awaited::Body(n as u32), body) == seq![m] + messages_of(
            order,
            Awaited::Size,
            tail,
        ));
        assert(messages_of(order, Awaited::Size, stream) == messages_of(
            order,
            Awaited::Body(n as u32),
            body,
        ));
        assert(seq![m] + messages.drop_first() =~= messages);
    }
}

} // verus!
