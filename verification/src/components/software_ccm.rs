//! Component for a mutex-protected software AES-128 CCM implementation.
use crate::components::driver_mutex;
use crate::components::driver_mutex::DriverMutexComponent;
use crate::driver_mutex::{DriverMutex, MutexNumber};
use crate::hil::trace::Observed;
use crate::sw::bytes;
use crate::sw::ccm::SoftwareCcm;
use crate::sw::session::SessionView;
use vstd::prelude::*;

verus! {

/// The number by which the ECB mutex knows the CCM implementation.
pub const CCM_CLIENT: usize = 0;

/// Construct `DriverMutex<Ecb> -> SoftwareCcm -> DriverMutex<SoftwareCcm>`.
///
/// `C` is the number of clients supported by the outer CCM mutex, `Q` must be exactly 1 greater, and
/// `W` is the maximum payload-plus-tag size accepted by the software implementation.
pub struct SoftwareCcmComponent<E, const C: usize, const Q: usize, const W: usize> {
    ecb: E,
}

impl<E, const C: usize, const Q: usize, const W: usize> SoftwareCcmComponent<E, C, Q, W> {
    /// The block cipher driver.
    pub closed spec fn ecb(self) -> E {
        self.ecb
    }

    /// A component over a block cipher driver.
    pub fn new(ecb: E) -> (component: Self)
        requires
            C + 1 == Q,
        ensures
            component.ecb() == ecb,
    {
        SoftwareCcmComponent { ecb }
    }

    /// Builds both mutexes: the one of the block cipher driver, whose only client is the CCM
    /// implementation, and the one of the CCM implementation.
    pub fn finalize(self, ecb_id: MutexNumber, ccm_id: MutexNumber) -> (mutexes: (
        DriverMutex<E>,
        DriverMutex<SoftwareCcm<E>>,
    ))
        requires
            C + 1 == Q,
        ensures
            mutexes.0@.wf(),
            mutexes.0@ == driver_mutex::fresh(ecb_id@, 1).added(CCM_CLIENT, 0),
            mutexes.0.guarded() == self.ecb(),
            mutexes.1@.wf(),
            mutexes.1@ == driver_mutex::fresh(ccm_id@, C as nat),
            mutexes.1.guarded().valid(),
            mutexes.1.guarded()@.state is Idle,
            mutexes.1.guarded()@.workspace == bytes::zeros(W as nat),
            is_registered(mutexes.1.guarded()@.session, CCM_CLIENT, ecb_id@, 0),
    {
        let mut ecb_mutex = DriverMutexComponent::<E, 1, 2>::new(self.ecb).finalize(ecb_id);
        let mut software_ccm = SoftwareCcm::new(CCM_CLIENT, bytes::zero_bytes(W));
        proof {
            assert(ecb_mutex@.is_slot_of(CCM_CLIENT, 0));
        }
        let _ = software_ccm.register(&mut ecb_mutex);
        let ccm_mutex = DriverMutexComponent::<SoftwareCcm<E>, C, Q>::new(software_ccm).finalize(
            ccm_id,
        );
        (ecb_mutex, ccm_mutex)
    }
}

/// A mode's session is fresh but for its registration with the mutex `id`, in `slot`.
pub open spec fn is_registered(session: SessionView, client: usize, id: usize, slot: nat) -> bool {
    &&& session.handle matches Some(handle) && handle.index() == slot && handle.owner() == id
    &&& session == (SessionView { handle: session.handle, ..SessionView::fresh(client) })
}

} // verus!
