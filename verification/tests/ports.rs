use bifrostlink::port::{
    native_order, order_of, size_bytes, size_value, Awaited, ByteOrder, FrameReader, TooLarge,
    Transport,
};
use bytes::Bytes;

#[test]
fn sizes_are_laid_out_in_order() {
    assert_eq!(size_bytes(ByteOrder::Big, 0x0102_0304), [1, 2, 3, 4]);
    assert_eq!(size_bytes(ByteOrder::Little, 0x0102_0304), [4, 3, 2, 1]);
}

#[test]
fn sizes_are_read_back() {
    for order in [ByteOrder::Big, ByteOrder::Little] {
        for n in [0, 1, 255, 256, 65535, 0x0102_0304, u32::MAX] {
            assert_eq!(size_value(order, &size_bytes(order, n)), n);
        }
    }
    assert_eq!(size_value(ByteOrder::Big, &[0, 0, 1, 2]), 258);
    assert_eq!(size_value(ByteOrder::Little, &[0, 0, 1, 2]), 33619968);
}

#[test]
fn native_order_is_that_of_the_machine() {
    assert_eq!(size_bytes(native_order(), 0x0102_0304), u32::to_ne_bytes(0x0102_0304));
    assert_eq!(order_of([0, 0, 0, 1]), ByteOrder::Big);
    assert_eq!(order_of([1, 0, 0, 0]), ByteOrder::Little);
}

/// What a transport writes for a message.
fn written(transport: Transport, native: ByteOrder, message: &'static [u8]) -> Vec<u8> {
    let message = Bytes::from_static(message);
    let plan = transport.plan_write(native, &message).unwrap_or_else(|_| panic!("too large"));
    let mut out = plan.size.to_vec();
    out.extend_from_slice(&message);
    out
}

/// The messages that a reader makes of a stream.
fn read(order: ByteOrder, mut stream: &[u8]) -> Vec<Bytes> {
    let mut reader = FrameReader::new(order);
    let mut messages = Vec::new();
    loop {
        let mut chunk = reader.buffer();
        if stream.len() < chunk.len() {
            return messages;
        }
        let (now, later) = stream.split_at(chunk.len());
        chunk.copy_from_slice(now);
        stream = later;
        if let Some(message) = reader.feed(chunk) {
            messages.push(message);
        }
    }
}

#[test]
fn messages_are_framed() {
    assert_eq!(written(Transport::Stdio, ByteOrder::Little, b"abc"), b"\0\0\0\x03abc");
    assert_eq!(written(Transport::Socket, ByteOrder::Little, b"abc"), b"\0\0\0\x03abc");
    assert_eq!(written(Transport::NativeMessaging, ByteOrder::Little, b"abc"), b"\x03\0\0\0abc");
    assert_eq!(written(Transport::NativeMessaging, ByteOrder::Big, b"abc"), b"\0\0\0\x03abc");
    assert_eq!(written(Transport::NativeExtension, ByteOrder::Little, b"abc"), b"\x03\0\0\0abc");
    assert_eq!(written(Transport::NativeExtension, ByteOrder::Big, b"abc"), b"\0\0\0\x03abc");
}

#[test]
fn standard_streams_are_flushed() {
    let message = Bytes::from_static(b"x");
    let flush = |transport: Transport| {
        transport.plan_write(ByteOrder::Little, &message).ok().unwrap().flush
    };
    assert!(flush(Transport::Stdio));
    assert!(flush(Transport::NativeMessaging));
    assert!(!flush(Transport::Socket));
    assert!(!flush(Transport::NativeExtension));
}

#[test]
fn received_messages_are_the_sent_ones() {
    for transport in [
        Transport::Stdio,
        Transport::Socket,
        Transport::NativeMessaging,
        Transport::NativeExtension,
    ] {
        for native in [ByteOrder::Big, ByteOrder::Little] {
            let mut stream = Vec::new();
            for message in [b"first".as_slice(), b"", b"third one"] {
                stream.extend(written(transport, native, message));
            }
            let messages = read(transport.order(native), &stream);
            assert_eq!(messages, ["first", "", "third one"]);
        }
    }
}

#[test]
fn native_hosts_talk_in_native_order() {
    for native in [ByteOrder::Big, ByteOrder::Little] {
        assert_eq!(Transport::NativeExtension.order(native), native);
        assert_eq!(Transport::NativeMessaging.order(native), native);
        assert_eq!(Transport::Stdio.order(native), ByteOrder::Big);
        assert_eq!(Transport::Socket.order(native), ByteOrder::Big);
    }
}

#[test]
fn native_extensions_receive_what_is_sent_to_them() {
    let native = native_order();
    let mut stream = Vec::new();
    for message in [b"one".as_slice(), b"", b"three"] {
        stream.extend(written(Transport::NativeExtension, native, message));
    }
    let child = Transport::NativeMessaging.order(native);
    assert_eq!(read(child, &stream), ["one", "", "three"]);
    assert_eq!(stream[..4], u32::to_ne_bytes(3));
}

#[test]
fn unfinished_messages_are_kept_back() {
    assert!(read(ByteOrder::Big, b"\0\0\0").is_empty());
    assert!(read(ByteOrder::Big, b"\0\0\0\x03ab").is_empty());
    assert_eq!(read(ByteOrder::Big, b"\0\0\0\x03abc\0\0"), ["abc"]);
}

#[test]
fn buffers_are_zeroed() {
    let mut reader = FrameReader::new(ByteOrder::Big);
    let mut size = reader.buffer();
    assert_eq!(size, [0, 0, 0, 0].as_slice());
    size.copy_from_slice(&[0, 0, 0, 2]);
    assert!(reader.feed(size).is_none());
    assert!(matches!(reader.awaited, Awaited::Body(2)));
    assert_eq!(reader.buffer(), [0, 0].as_slice());
}

#[test]
fn too_large_messages_have_a_text() {
    assert_eq!(TooLarge.text(), "message shouldn't be larger than 4GB");
}
