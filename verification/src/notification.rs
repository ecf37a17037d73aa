//! Notifications: messages that want no response.

use vstd::prelude::*;

verus! {

/// A message that wants no response.
pub trait Notification {
    /// The number by which the receiver finds the handler.
    fn name() -> u16;
}

/// A notification that can be sent.
pub trait OutgoingNotification: Notification {

}

impl<N: Notification> OutgoingNotification for N {

}

/// A notification that can be received.
pub trait IncomingNotification: Notification {

}

impl<N: Notification> IncomingNotification for N {

}

impl<T> Notification for &T where T: Notification {
    /// A reference goes by the name of what it refers to.
    fn name() -> (r: u16)
        ensures
            call_ensures(T::name, (), r),
    {
        T::name()
    }
}

} // verus!
