//! Component for initializing DriverMutex instances.
use crate::driver_mutex::{DriverMutex, MutexNumber, MutexView, State};
use vstd::prelude::*;

verus! {

/// A mutex for so many clients that nobody has registered with yet.
pub open spec fn fresh(id: usize, clients: nat) -> MutexView {
    MutexView {
        id,
        clients: Seq::new(clients, |i: int| None),
        queue: Seq::empty(),
        room: clients,
        state: State::Free,
        deferred: false,
    }
}

/// Component helper interface used to initialize a [`DriverMutex`] instance.
///
/// The `C` parameter controls the number of clients that will be supported by the `DriverMutex`,
/// and `Q` controls the size of the internal queue buffer. `Q` must be exactly 1 greater than `C`,
/// since one place of the queue's ring buffer stays empty.
pub struct DriverMutexComponent<T, const C: usize, const Q: usize> {
    resource: T,
}

impl<T, const C: usize, const Q: usize> DriverMutexComponent<T, C, Q> {
    /// The resource that the mutex will guard.
    pub closed spec fn resource(self) -> T {
        self.resource
    }

    /// Constructs and returns a new instance of [`DriverMutexComponent`].
    ///
    /// `resource` is the underlying resource whose access is being guarded.
    pub fn new(resource: T) -> (component: Self)
        requires
            C + 1 == Q,
        ensures
            component.resource() == resource,
    {
        DriverMutexComponent { resource }
    }

    /// Builds the mutex, with `id` as its identity. All of its clients may wait at once.
    pub fn finalize(self, id: MutexNumber) -> (mutex: DriverMutex<T>)
        requires
            C + 1 == Q,
        ensures
            mutex@.wf(),
            mutex@ == fresh(id@, C as nat),
            mutex.guarded() == self.resource(),
    {
        DriverMutex::new(id, self.resource, C, Q)
    }
}

} // verus!
