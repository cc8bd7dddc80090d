//! A mutex that guards one driver shared by several clients.
//!
//! Even though the kernel is single-threaded, it is highly concurrent, and several components may
//! want the same driver at once. A [`DriverMutex`] owns the driver and hands it to one client at
//! a time, first come, first served.
//!
//! Access goes through guards: [`DriverMutexAny`] and [`DriverMutexRef`]. A guard is given back
//! with [`DriverMutex::release`]; when the last guard of the active client has come back, the
//! resource is free again, and the next waiting client is served from a deferred call.
use crate::error::ErrorCode;
use crate::hil::trace::Observed;
use crate::nrf5x::ccm::Ccm;
use crate::nrf5x::ecb::Ecb;
use crate::stm32u5::hash;
use crate::stm32u5::pka::Pka;
use crate::sw::cbc::SoftwareCbc;
use crate::sw::ccm::SoftwareCcm;
use crate::sw::ctr::SoftwareCtr;
use crate::sw::gcm::SoftwareGcm;
use core::marker::PhantomData;
use vstd::prelude::*;

verus! {

/// What tells types apart: the number of a type, and the number of the type that it is built over,
/// zero if there is none.
#[derive(Clone, Copy, Debug, PartialEq, Eq, Structural)]
pub struct Kind {
    pub number: u64,
    pub over: u64,
}

/// A type that can stand behind a [`DriverMutex`], with a kind that tells it from others.
///
/// Types cannot be compared in contracts, so each type states its kind, and whoever adds one picks a
/// number that none has yet.
pub trait Resource {
    /// The kind of this type.
    spec fn kind() -> Kind;

    /// Return the kind of this type.
    fn resource_kind() -> (kind: Kind)
        ensures
            kind == Self::kind(),
    ;
}

/// Handle representing an individual client registration.
///
/// A handle produced by one `DriverMutex` cannot be used with any other: doing so makes
/// [`DriverMutex::request`] return `INVAL`.
#[derive(Clone, Copy, Debug, PartialEq, Eq, Structural)]
pub struct DriverMutexHandle {
    /// Index of the client registration within the mutex's client slots.
    client_index: usize,
    /// Identity of the mutex, so that handles aren't confused between different mutexes.
    mutex: usize,
}

impl DriverMutexHandle {
    /// The slot that this handle stands for.
    pub closed spec fn index(self) -> usize {
        self.client_index
    }

    /// The mutex that issued this handle.
    pub closed spec fn owner(self) -> usize {
        self.mutex
    }

    /// A handle is its slot and its mutex.
    pub broadcast proof fn lemma_handle_extensional(a: Self, b: Self)
        requires
            #[trigger] a.index() == #[trigger] b.index(),
            a.owner() == b.owner(),
        ensures
            a == b,
    {
    }
}

/// The identity of one mutex. It cannot be copied, so no two mutexes are made with it.
pub struct MutexNumber {
    number: usize,
}

impl View for MutexNumber {
    type V = usize;

    closed spec fn view(&self) -> usize {
        self.number
    }
}

/// Where the identities of mutexes come from. A board has one.
pub struct MutexNumbers {
    next: usize,
}

impl View for MutexNumbers {
    type V = nat;

    /// How many identities were drawn. Those that were drawn are below it, the others are not.
    closed spec fn view(&self) -> nat {
        self.next as nat
    }
}

impl MutexNumbers {
    /// A source from which nothing was drawn.
    pub fn new() -> (numbers: Self)
        ensures
            numbers@ == 0,
    {
        MutexNumbers { next: 0 }
    }

    /// Draws an identity that was not drawn before. There are `usize::MAX` of them.
    pub fn draw(&mut self) -> (number: Option<MutexNumber>)
        ensures
            number is Some <==> old(self)@ < usize::MAX,
            number matches Some(number) ==> number@ == old(self)@ && final(self)@ == old(self)@ + 1,
            number is None ==> final(self)@ == old(self)@,
    {
        if self.next == usize::MAX {
            return None;
        }
        let number: usize = self.next;
        self.next = number + 1;
        Some(MutexNumber { number })
    }
}

/// State of a driver mutex.
#[derive(Clone, Copy, Debug, PartialEq, Eq, Structural)]
pub enum State {
    /// Resource is not in use.
    Free,
    /// Resource is actively locked by a client.
    Locked {
        /// Handle of the client which currently holds the lock.
        handle: DriverMutexHandle,
        /// Counts the number of references held by the client.
        ref_count: usize,
        /// Whether the current client has requested another ready callback.
        pending: bool,
    },
}

/// Everything about a mutex but the resource it guards.
#[verifier::ext_equal]
pub struct MutexView {
    /// Identity of the mutex.
    pub id: usize,
    /// Registered clients, one slot each.
    pub clients: Seq<Option<usize>>,
    /// Slots of the clients that wait, oldest request first.
    pub queue: Seq<usize>,
    /// The number of requests that may wait.
    pub room: nat,
    /// Who holds the resource.
    pub state: State,
    /// Whether a deferred call is scheduled.
    pub deferred: bool,
}

impl MutexView {
    /// `handle` was issued by this mutex.
    pub open spec fn issued(self, handle: DriverMutexHandle) -> bool {
        &&& handle.owner() == self.id
        &&& handle.index() < self.clients.len()
        &&& self.clients[handle.index() as int] is Some
    }

    /// `handle` was issued by this mutex or belongs to another one.
    pub open spec fn admits(self, handle: DriverMutexHandle) -> bool {
        handle.owner() == self.id ==> self.issued(handle)
    }

    /// The slot that `client` has or would get: the first that it holds or that is empty.
    pub open spec fn is_slot_of(self, client: usize, slot: int) -> bool {
        &&& 0 <= slot < self.clients.len()
        &&& self.clients[slot] matches Some(other) ==> other == client
        &&& forall|i: int|
            0 <= i < slot ==> (#[trigger] self.clients[i]) is Some && self.clients[i] != Some(client)
    }

    /// The mutex after `client` got `slot`.
    pub open spec fn added(self, client: usize, slot: int) -> MutexView {
        MutexView { clients: self.clients.update(slot, Some(client)), ..self }
    }

    /// `handle` is the active client.
    pub open spec fn is_active(self, handle: DriverMutexHandle) -> bool {
        self.state matches State::Locked { handle: active, .. } && active == handle
    }

    /// The answer to a request.
    pub open spec fn request_result(self, handle: DriverMutexHandle) -> Result<(), ErrorCode> {
        if handle.owner() != self.id {
            Err(ErrorCode::INVAL)
        } else if self.queue.contains(handle.index()) {
            Err(ErrorCode::ALREADY)
        } else if self.is_active(handle) {
            if self.state->pending {
                Err(ErrorCode::ALREADY)
            } else {
                Ok(())
            }
        } else if self.queue.len() >= self.room {
            Err(ErrorCode::FAIL)
        } else {
            Ok(())
        }
    }

    /// The mutex after a request.
    pub open spec fn requested(self, handle: DriverMutexHandle) -> MutexView {
        if self.request_result(handle) is Err {
            self
        } else {
            match self.state {
                State::Free => MutexView {
                    queue: self.queue.push(handle.index()),
                    deferred: true,
                    ..self
                },
                State::Locked { handle: active, ref_count, .. } => if active == handle {
                    MutexView {
                        state: State::Locked { handle, ref_count, pending: true },
                        deferred: true,
                        ..self
                    }
                } else {
                    MutexView { queue: self.queue.push(handle.index()), ..self }
                },
            }
        }
    }

    /// Whether a deferred call has a client to serve.
    pub open spec fn serves(self) -> bool {
        match self.state {
            State::Free => self.queue.len() > 0,
            State::Locked { pending, .. } => pending,
        }
    }

    /// The slot that a deferred call serves.
    pub open spec fn next_slot(self) -> usize {
        match self.state {
            State::Free => self.queue[0],
            State::Locked { handle, .. } => handle.index(),
        }
    }

    /// `later` is this mutex after a deferred call.
    pub open spec fn is_served(self, later: MutexView) -> bool {
        if !self.serves() {
            later == (MutexView { deferred: false, ..self })
        } else {
            match (self.state, later.state) {
                (
                    State::Free,
                    State::Locked { handle, ref_count, pending },
                ) => {
                    &&& handle.index() == self.queue[0]
                    &&& handle.owner() == self.id
                    &&& ref_count == 1
                    &&& !pending
                    &&& later == (MutexView {
                        queue: self.queue.drop_first(),
                        state: later.state,
                        deferred: false,
                        ..self
                    })
                },
                (
                    State::Locked { handle: active, ref_count: held, .. },
                    State::Locked { handle, ref_count, pending },
                ) => {
                    &&& handle == active
                    &&& ref_count == held + 1
                    &&& !pending
                    &&& later == (MutexView { state: later.state, deferred: false, ..self })
                },
                _ => false,
            }
        }
    }

    /// The number of guards that are out.
    pub open spec fn guards(self) -> nat {
        match self.state {
            State::Free => 0,
            State::Locked { ref_count, .. } => ref_count as nat,
        }
    }

    /// The mutex after a guard came back.
    pub open spec fn released(self) -> MutexView {
        match self.state {
            State::Free => self,
            State::Locked { handle, ref_count, pending } => if ref_count == 1 && !pending {
                MutexView {
                    state: State::Free,
                    deferred: self.deferred || self.queue.len() > 0,
                    ..self
                }
            } else {
                MutexView {
                    state: State::Locked { handle, ref_count: (ref_count - 1) as usize, pending },
                    ..self
                }
            },
        }
    }

    /// The invariant of a mutex: no client waits twice or waits while it is active; every waiting
    /// slot is taken; whoever can be served has a deferred call scheduled; a locked mutex has a
    /// guard out or a callback pending; clients fill the slots from the front, each once.
    pub open spec fn wf(self) -> bool {
        &&& self.queue.len() <= self.room
        &&& self.queue.no_duplicates()
        &&& forall|i: int|
            0 <= i < self.queue.len() ==> #[trigger] self.queue[i] < self.clients.len()
                && self.clients[self.queue[i] as int] is Some
        &&& self.serves() ==> self.deferred
        &&& self.state matches State::Locked { handle, ref_count, pending } ==> {
            &&& self.issued(handle)
            &&& !self.queue.contains(handle.index())
            &&& ref_count > 0 || pending
        }
        &&& forall|i: int, j: int|
            0 <= i < j < self.clients.len() && (#[trigger] self.clients[j]) is Some ==> (
            #[trigger] self.clients[i]) is Some && self.clients[i] != self.clients[j]
    }
}

/// Specialized mutex used to guard driver implementations.
///
/// ## Queuing
///
/// Multiple clients can request access to the underlying resource, and they are given access on a
/// first-come first-served basis. The length of the queue is fixed at construction.
///
/// ## Reference counting
///
/// The same client may request access again while it holds guards. Instead of being added to the
/// queue, its ready callback is scheduled again. The mutex counts the guards that are out and is
/// free only when none is left and no callback is pending, so a client that drops all its guards
/// before a callback that it asked for keeps the resource until that callback.
///
/// A client may have only one request outstanding.
pub struct DriverMutex<T> {
    id: usize,
    resource: T,
    clients: Vec<Option<usize>>,
    queue: Vec<usize>,
    room: usize,
    state: State,
    deferred: bool,
}

impl<T> View for DriverMutex<T> {
    type V = MutexView;

    closed spec fn view(&self) -> MutexView {
        MutexView {
            id: self.id,
            clients: self.clients@,
            queue: self.queue@,
            room: self.room as nat,
            state: self.state,
            deferred: self.deferred,
        }
    }
}

impl<T> DriverMutex<T> {
    /// The guarded resource.
    pub closed spec fn guarded(&self) -> T {
        self.resource
    }

    /// Creates a new `DriverMutex` with the identity `id`, which no other mutex has.
    ///
    /// There is one slot for each of `client_count` clients. A ring buffer of `queue_len` slots
    /// holds the waiting requests; one of its slots always stays empty.
    pub fn new(id: MutexNumber, resource: T, client_count: usize, queue_len: usize) -> (mutex: Self)
        requires
            queue_len > 0,
        ensures
            mutex@.wf(),
            mutex.guarded() == resource,
            mutex@ == (MutexView {
                id: id@,
                clients: Seq::new(client_count as nat, |i: int| None),
                queue: Seq::empty(),
                room: (queue_len - 1) as nat,
                state: State::Free,
                deferred: false,
            }),
    {
        let clients: Vec<Option<usize>> = vec![None; client_count];
        let mutex = DriverMutex {
            id: id.number,
            resource,
            clients,
            queue: Vec::new(),
            room: queue_len - 1,
            state: State::Free,
            deferred: false,
        };
        assert(mutex.clients@ =~= Seq::new(client_count as nat, |i: int| None));
        mutex
    }

    /// Registers a client with this `DriverMutex`.
    ///
    /// A client that was added before gets the handle that it got then. Returns `None` if there
    /// is no room for another client.
    pub fn add_client(&mut self, client: usize) -> (handle: Option<DriverMutexHandle>)
        requires
            old(self)@.wf(),
        ensures
            final(self)@.wf(),
            final(self).guarded() == old(self).guarded(),
            handle matches Some(handle) ==> {
                &&& old(self)@.is_slot_of(client, handle.index() as int)
                &&& handle.owner() == old(self)@.id
                &&& final(self)@ == old(self)@.added(client, handle.index() as int)
                &&& final(self)@.issued(handle)
            },
            handle is None ==> final(self)@ == old(self)@ && forall|slot: int|
                !old(self)@.is_slot_of(client, slot),
            forall|other: DriverMutexHandle|
                old(self)@.issued(other) ==> #[trigger] final(self)@.issued(other),
    {
        let mut i: usize = 0;
        while i < self.clients.len()
            invariant
                *self == *old(self),
                self@.wf(),
                i <= self.clients@.len(),
                forall|j: int|
                    0 <= j < i ==> (#[trigger] self@.clients[j]) is Some && self@.clients[j] != Some(
                        client,
                    ),
            decreases self.clients@.len() - i,
        {
            match self.clients[i] {
                Some(other) => {
                    if other != client {
                        i = i + 1;
                        continue;
                    }
                },
                None => {
                    self.clients[i] = Some(client);
                },
            }
            proof {
                assert(old(self)@.is_slot_of(client, i as int));
                assert(self@.clients =~= old(self)@.clients.update(i as int, Some(client)));
                assert(self@ =~= old(self)@.added(client, i as int));
            }
            return Some(DriverMutexHandle { client_index: i, mutex: self.id });
        }
        assert forall|slot: int| !old(self)@.is_slot_of(client, slot) by {
            if 0 <= slot < self.clients@.len() {
                assert(self@.clients[slot] is Some);
            }
        }
        None
    }

    /// Requests access to the underlying resource.
    ///
    /// When the resource becomes available, the client is served by
    /// [`DriverMutex::handle_deferred_call`], never from within this call.
    ///
    /// # Errors
    ///
    /// Returns `ALREADY` if the client is already waiting, `INVAL` if `handle` was created by a
    /// different `DriverMutex`, and `FAIL` if the queue is full.
    pub fn request(&mut self, handle: DriverMutexHandle) -> (result: Result<(), ErrorCode>)
        requires
            old(self)@.wf(),
            old(self)@.admits(handle),
        ensures
            final(self)@.wf(),
            final(self).guarded() == old(self).guarded(),
            result == old(self)@.request_result(handle),
            final(self)@ == old(self)@.requested(handle),
    {
        broadcast use DriverMutexHandle::lemma_handle_extensional;

        if handle.mutex != self.id {
            return Err(ErrorCode::INVAL);
        }
        if self.queue_contains(handle.client_index) {
            return Err(ErrorCode::ALREADY);
        }
        match self.state {
            State::Free => {
                if self.queue.len() >= self.room {
                    return Err(ErrorCode::FAIL);
                }
                self.queue.push(handle.client_index);
                self.deferred = true;
            },
            State::Locked { handle: active, ref_count, pending } => {
                if active == handle {
                    if pending {
                        return Err(ErrorCode::ALREADY);
                    }
                    self.state = State::Locked { handle: active, ref_count, pending: true };
                    self.deferred = true;
                } else {
                    if self.queue.len() >= self.room {
                        return Err(ErrorCode::FAIL);
                    }
                    self.queue.push(handle.client_index);
                }
            },
        }
        Ok(())
    }

    fn queue_contains(&self, index: usize) -> (found: bool)
        ensures
            found == self@.queue.contains(index),
    {
        let mut i: usize = 0;
        while i < self.queue.len()
            invariant
                i <= self.queue@.len(),
                forall|j: int| 0 <= j < i ==> self.queue@[j] != index,
            decreases self.queue@.len() - i,
        {
            if self.queue[i] == index {
                return true;
            }
            i = i + 1;
        }
        false
    }

    /// Whether a deferred call is scheduled.
    pub fn deferred_call_is_set(&self) -> (set: bool)
        ensures
            set == self@.deferred,
    {
        self.deferred
    }

    /// Called when a guard is dropped. Decrements the reference count. When no references remain
    /// and no callback is pending from the same client, frees the mutex and schedules a callback
    /// for the next queued client.
    fn ref_dropped(&mut self)
        requires
            old(self)@.wf(),
            old(self)@.guards() > 0,
        ensures
            final(self)@.wf(),
            final(self).guarded() == old(self).guarded(),
            final(self)@ == old(self)@.released(),
    {
        if let State::Locked { handle, ref_count, pending } = self.state {
            if ref_count == 1 && !pending {
                self.state = State::Free;
                if self.queue.len() > 0 {
                    self.deferred = true;
                }
            } else {
                self.state = State::Locked { handle, ref_count: ref_count - 1, pending };
            }
        }
    }

    /// Drops a guard.
    pub fn release(&mut self, guard: DriverMutexRef<T>)
        requires
            old(self)@.wf(),
            old(self)@.guards() > 0,
            guard.owner() == old(self)@.id,
        ensures
            final(self)@.wf(),
            final(self).guarded() == old(self).guarded(),
            final(self)@ == old(self)@.released(),
    {
        self.ref_dropped();
    }

    /// Drops a guard whose type was not recovered.
    pub fn release_any(&mut self, guard: DriverMutexAny)
        requires
            old(self)@.wf(),
            old(self)@.guards() > 0,
            guard.owner() == old(self)@.id,
        ensures
            final(self)@.wf(),
            final(self).guarded() == old(self).guarded(),
            final(self)@ == old(self)@.released(),
    {
        self.ref_dropped();
    }

    /// Whether this mutex handed out the guard.
    pub fn handed_out(&self, guard: &DriverMutexAny) -> (own: bool)
        ensures
            own == (guard.owner() == self@.id),
    {
        guard.mutex == self.id
    }

    /// Gives access to the resource to whoever shows a guard of this mutex.
    pub fn resource(&mut self, guard: &DriverMutexRef<T>) -> (resource: &mut T)
        requires
            guard.owner() == old(self)@.id,
        ensures
            *resource == old(self).guarded(),
            final(self).guarded() == *final(resource),
            final(self)@ == old(self)@,
    {
        &mut self.resource
    }

    /// Gives access to the resource to the chip, which handles the interrupts of the resource
    /// whoever holds it.
    pub fn serviced(&mut self) -> (resource: &mut T)
        ensures
            *resource == old(self).guarded(),
            final(self).guarded() == *final(resource),
            final(self)@ == old(self)@,
    {
        &mut self.resource
    }
}

impl<T: Resource> DriverMutex<T> {
    /// Serves the next client: the one that waits longest if the mutex is free, or the active
    /// client if it has asked for another reference. Returns that client with a new guard for
    /// its ready callback, or `None` if there is nobody to serve.
    pub fn handle_deferred_call(&mut self) -> (served: Option<(usize, DriverMutexAny)>)
        requires
            old(self)@.wf(),
            old(self)@.guards() < usize::MAX,
        ensures
            final(self)@.wf(),
            final(self).guarded() == old(self).guarded(),
            old(self)@.is_served(final(self)@),
            served is Some <==> old(self)@.serves(),
            served matches Some((client, guard)) ==> {
                &&& final(self)@.clients[old(self)@.next_slot() as int] == Some(client)
                &&& guard.owner() == final(self)@.id
                &&& guard.kind() == T::kind()
            },
    {
        self.deferred = false;
        let index: usize;
        match self.state {
            State::Free => {
                if self.queue.len() == 0 {
                    return None;
                }
                let ghost waiting = self.queue@;
                index = self.queue.remove(0);
                proof {
                    assert(waiting[0] == index);
                    assert(self.queue@ =~= waiting.drop_first());
                    assert forall|i: int| 0 <= i < self.queue@.len() implies self.queue@[i]
                        == waiting[i + 1] by {}
                }
                let handle = DriverMutexHandle { client_index: index, mutex: self.id };
                self.state = State::Locked { handle, ref_count: 1, pending: false };
            },
            State::Locked { handle, ref_count, pending } => {
                if !pending {
                    return None;
                }
                self.state = State::Locked { handle, ref_count: ref_count + 1, pending: false };
                index = handle.client_index;
            },
        }
        let guard = DriverMutexAny { mutex: self.id, kind: T::resource_kind() };
        match self.clients[index] {
            Some(client) => Some((client, guard)),
            None => None,
        }
    }
}

/// What a registration with a mutex does.
pub open spec fn joined(
    before: Option<DriverMutexHandle>,
    after: Option<DriverMutexHandle>,
    mutex: MutexView,
    later: MutexView,
    client: usize,
    result: Result<(), ErrorCode>,
) -> bool {
    if before is Some {
        &&& result == Err::<(), ErrorCode>(ErrorCode::ALREADY)
        &&& after == before
        &&& later == mutex
    } else if exists|slot: int| mutex.is_slot_of(client, slot) {
        &&& result is Ok
        &&& after matches Some(handle)
        &&& mutex.is_slot_of(client, handle.index() as int)
        &&& later == mutex.added(client, handle.index() as int)
        &&& later.issued(handle)
    } else {
        &&& result == Err::<(), ErrorCode>(ErrorCode::NOMEM)
        &&& after == before
        &&& later == mutex
    }
}

/// A client of a [`DriverMutex`].
pub trait DriverMutexClient: Observed {
    /// What is to be done next.
    type Next;

    /// Called when the resource is available.
    ///
    /// The client may keep the guard for as long as it needs the resource, and drops it when it is
    /// done.
    fn ready(&mut self, resource: DriverMutexAny) -> (next: Self::Next)
        requires
            old(self).valid(),
        ensures
            final(self).valid(),
            final(self).log() == old(self).log(),
    ;
}

/// A type-erased reference to a resource guarded by a [`DriverMutex`].
///
/// A client that waits for several mutexes tells their resources apart with
/// [`DriverMutexAny::downcast`].
pub struct DriverMutexAny {
    mutex: usize,
    kind: Kind,
}

impl DriverMutexAny {
    /// The mutex that handed out this guard.
    pub closed spec fn owner(self) -> usize {
        self.mutex
    }

    /// The kind of resource behind this guard.
    pub closed spec fn kind(self) -> Kind {
        self.kind
    }

    /// Recovers the type of the resource, or gives the guard back if it is of another type.
    pub fn downcast<T: Resource>(self) -> (typed: Result<DriverMutexRef<T>, Self>)
        ensures
            typed is Ok <==> self.kind() == T::kind(),
            typed matches Ok(guard) ==> guard.owner() == self.owner(),
            typed matches Err(guard) ==> guard == self,
    {
        if self.kind == T::resource_kind() {
            Ok(DriverMutexRef { mutex: self.mutex, marker: PhantomData })
        } else {
            Err(self)
        }
    }
}

/// A smart pointer to a resource guarded by a [`DriverMutex`].
pub struct DriverMutexRef<T> {
    mutex: usize,
    marker: PhantomData<T>,
}

impl<T> DriverMutexRef<T> {
    /// The mutex that handed out this guard.
    pub closed spec fn owner(self) -> usize {
        self.mutex
    }
}

/// The drivers of this library have different kinds, so a guard for one of them is never taken for a
/// guard for another. A mode in software is told from the same mode over a block cipher driver with
/// another number.
pub proof fn law_drivers_are_told_apart<E: Resource, F: Resource>()
    ensures
        E::kind().number != F::kind().number ==> {
            &&& SoftwareCbc::<E>::kind() != SoftwareCbc::<F>::kind()
            &&& SoftwareCcm::<E>::kind() != SoftwareCcm::<F>::kind()
            &&& SoftwareCtr::<E>::kind() != SoftwareCtr::<F>::kind()
            &&& SoftwareGcm::<E>::kind() != SoftwareGcm::<F>::kind()
        },
        seq![
            Pka::kind(),
            hash::Hash::kind(),
            Ecb::kind(),
            Ccm::kind(),
            SoftwareCbc::<E>::kind(),
            SoftwareCcm::<E>::kind(),
            SoftwareCtr::<E>::kind(),
            SoftwareGcm::<E>::kind(),
        ].no_duplicates(),
{
}

/// A mutex whose queue has room for all its clients never refuses a request with `FAIL`.
pub proof fn law_request_never_fails(mutex: MutexView, handle: DriverMutexHandle)
    requires
        mutex.wf(),
        mutex.admits(handle),
        mutex.clients.len() <= mutex.room,
    ensures
        mutex.request_result(handle) != Err::<(), ErrorCode>(ErrorCode::FAIL),
{
    if handle.owner() == mutex.id && !mutex.queue.contains(handle.index()) {
        let slots = mutex.queue.push(handle.index());
        let numbers = slots.map_values(|slot: usize| slot as int);
        assert(numbers.no_duplicates()) by {
            assert forall|i: int, j: int|
                0 <= i < numbers.len() && 0 <= j < numbers.len() && i != j implies numbers[i]
                != numbers[j] by {
                assert(slots[i] != slots[j]) by {
                    if i == mutex.queue.len() {
                        assert(mutex.queue.contains(slots[j]));
                    } else if j == mutex.queue.len() {
                        assert(mutex.queue.contains(slots[i]));
                    }
                }
            }
        }
        numbers.unique_seq_to_set();
        let bound = vstd::set_lib::set_int_range(0, mutex.clients.len() as int);
        vstd::set_lib::lemma_int_range(0, mutex.clients.len() as int);
        assert(numbers.to_set().subset_of(bound)) by {
            assert forall|n: int| numbers.to_set().contains(n) implies bound.contains(n) by {
                let i = choose|i: int| 0 <= i < numbers.len() && numbers[i] == n;
                if i < mutex.queue.len() {
                    assert(slots[i] == mutex.queue[i]);
                }
            }
        }
        vstd::set_lib::lemma_len_subset(numbers.to_set(), bound);
    }
}

/// A handle that was issued by one mutex is refused as invalid by every mutex whose identity was
/// drawn later, and the other way round, and changes nothing there.
pub proof fn law_handles_are_not_confused(
    drawn: nat,
    first: MutexView,
    second: MutexView,
    of_first: DriverMutexHandle,
    of_second: DriverMutexHandle,
)
    requires
        first.id < drawn,
        second.id >= drawn,
        first.issued(of_first),
        second.issued(of_second),
    ensures
        second.request_result(of_first) == Err::<(), ErrorCode>(ErrorCode::INVAL),
        second.requested(of_first) == second,
        first.request_result(of_second) == Err::<(), ErrorCode>(ErrorCode::INVAL),
        first.requested(of_second) == first,
{
}

/// Requests of clients that are not active wait in the order in which they came, and the one that
/// waits longest is served first once the mutex is free.
pub proof fn law_first_come_first_served(
    mutex: MutexView,
    first: DriverMutexHandle,
    second: DriverMutexHandle,
    later: MutexView,
)
    requires
        mutex.wf(),
        mutex.admits(first),
        mutex.admits(second),
        !mutex.is_active(first),
        !mutex.is_active(second),
        mutex.request_result(first) is Ok,
        mutex.requested(first).request_result(second) is Ok,
        mutex.requested(first).requested(second).is_served(later),
    ensures
        ({
            let waiting = mutex.requested(first).requested(second);
            &&& waiting.queue == mutex.queue.push(first.index()).push(second.index())
            &&& waiting.state is Free ==> waiting.next_slot() == waiting.queue[0] && later.queue
                == waiting.queue.drop_first()
            &&& waiting.state is Free && mutex.queue.len() == 0 ==> waiting.next_slot()
                == first.index() && later.queue == seq![second.index()]
            &&& waiting.state is Locked ==> later.queue == waiting.queue
        }),
{
    let waiting = mutex.requested(first).requested(second);
    if mutex.queue.len() == 0 {
        assert(waiting.queue.drop_first() =~= seq![second.index()]);
    }
}

/// While the active client has a guard out or a callback pending, nobody else is served and the
/// client stays active.
pub proof fn law_mutual_exclusion(mutex: MutexView, active: DriverMutexHandle, later: MutexView)
    requires
        mutex.wf(),
        mutex.is_active(active),
        mutex.is_served(later),
    ensures
        later.is_active(active),
        mutex.serves() ==> mutex.next_slot() == active.index(),
        later.queue == mutex.queue,
{
}

/// The mutex becomes free exactly when its last guard comes back and no callback is pending;
/// whoever waits then has a deferred call scheduled.
pub proof fn law_released_when_unused(mutex: MutexView)
    requires
        mutex.wf(),
        mutex.guards() > 0,
    ensures
        mutex.released().state is Free <==> mutex.guards() == 1 && !mutex.state->pending,
        mutex.released().state is Free && mutex.queue.len() > 0 ==> mutex.released().deferred,
        mutex.released().guards() == mutex.guards() - 1,
{
}

/// A client that asks again before it drops its last guard keeps the resource until its callback.
pub proof fn law_pending_callback_keeps_lock(
    mutex: MutexView,
    active: DriverMutexHandle,
    later: MutexView,
)
    requires
        mutex.wf(),
        mutex.is_active(active),
        mutex.guards() == 1,
        mutex.request_result(active) is Ok,
        mutex.requested(active).released().is_served(later),
    ensures
        mutex.requested(active).released().is_active(active),
        mutex.requested(active).released().next_slot() == active.index(),
        later.is_active(active),
        later.guards() == 1,
{
}

/// A client that is added again gets its first handle again, and two clients never share a slot.
pub proof fn law_one_slot_per_client(
    mutex: MutexView,
    client: usize,
    slot: int,
    other: usize,
    other_slot: int,
)
    requires
        mutex.wf(),
        mutex.is_slot_of(client, slot),
        mutex.added(client, slot).is_slot_of(other, other_slot),
    ensures
        other == client <==> other_slot == slot,
{
    let later = mutex.added(client, slot);
    assert(later.clients[slot] == Some(client));
    if other == client {
        if slot < other_slot {
            assert(later.clients[slot] is Some);
        } else if other_slot < slot {
            assert(mutex.clients[other_slot] is Some);
            assert(later.clients[other_slot] == mutex.clients[other_slot]);
        }
    }
}

} // verus!
