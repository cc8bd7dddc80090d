//! Component for software AES-128 modes sharing one ECB implementation.
use crate::capsules::aes::ModeMutexes;
use crate::components::driver_mutex;
use crate::components::driver_mutex::DriverMutexComponent;
use crate::components::software_ccm;
use crate::driver_mutex::{DriverMutexHandle, MutexNumber, MutexView};
use crate::error::ErrorCode;
use crate::hil::trace::Observed;
use crate::sw::bytes;
use crate::sw::cbc::SoftwareCbc;
use crate::sw::ccm::SoftwareCcm;
use crate::sw::ctr::SoftwareCtr;
use crate::sw::gcm::SoftwareGcm;
use vstd::prelude::*;

verus! {

/// The number by which the ECB mutex knows the CBC implementation.
pub const CBC_CLIENT: usize = 0;

/// The number by which the ECB mutex knows the CCM implementation.
pub const CCM_CLIENT: usize = 1;

/// The number by which the ECB mutex knows the CTR implementation.
pub const CTR_CLIENT: usize = 2;

/// The number by which the ECB mutex knows the GCM implementation.
pub const GCM_CLIENT: usize = 3;

/// Mutex-protected software AES-128 modes built over one ECB implementation.
pub type SoftwareAes128Modes<E> = ModeMutexes<
    SoftwareCbc<E>,
    SoftwareCcm<E>,
    SoftwareCtr<E>,
    E,
    SoftwareGcm<E>,
>;

/// The identities of the five mutexes.
pub struct MutexIds {
    pub ecb: MutexNumber,
    pub cbc: MutexNumber,
    pub ccm: MutexNumber,
    pub ctr: MutexNumber,
    pub gcm: MutexNumber,
}

/// Construct CBC, CCM, CTR, and GCM over a shared mutex-protected ECB driver.
///
/// `C` is the number of clients of each mode's mutex, `Q` must be exactly 1 greater, and `W` is the
/// size of each mode's workspace.
pub struct SoftwareAes128Component<E, const C: usize, const Q: usize, const W: usize> {
    ecb: E,
}

/// The mutex of the block cipher driver once the four modes are its clients. One place is left, for
/// a client that uses ECB itself.
pub open spec fn shared(id: usize) -> MutexView {
    driver_mutex::fresh(id, 5).added(CBC_CLIENT, 0).added(CCM_CLIENT, 1).added(
        CTR_CLIENT,
        2,
    ).added(GCM_CLIENT, 3)
}

impl<E, const C: usize, const Q: usize, const W: usize> SoftwareAes128Component<E, C, Q, W> {
    /// The block cipher driver.
    pub closed spec fn ecb(self) -> E {
        self.ecb
    }

    /// A component over a block cipher driver.
    pub fn new(ecb: E) -> (component: Self)
        requires
            C + 1 == Q,
        ensures
            component.ecb() == ecb,
    {
        SoftwareAes128Component { ecb }
    }

    /// Builds the modes and their mutexes, and registers the modes with the mutex of the block
    /// cipher driver.
    pub fn finalize(self, ids: MutexIds) -> (modes: SoftwareAes128Modes<E>)
        requires
            C + 1 == Q,
        ensures
            modes@.wf(),
            modes.ecb@ == shared(ids.ecb@),
            modes.ecb.guarded() == self.ecb(),
            modes.cbc@ == driver_mutex::fresh(ids.cbc@, C as nat),
            modes.ccm@ == driver_mutex::fresh(ids.ccm@, C as nat),
            modes.ctr@ == driver_mutex::fresh(ids.ctr@, C as nat),
            modes.gcm@ == driver_mutex::fresh(ids.gcm@, C as nat),
            modes.cbc.guarded().valid(),
            modes.cbc.guarded()@.state is Idle,
            modes.cbc.guarded()@.workspace == bytes::zeros(W as nat),
            software_ccm::is_registered(
                modes.cbc.guarded()@.session,
                CBC_CLIENT,
                ids.ecb@,
                0,
            ),
            modes.ccm.guarded().valid(),
            modes.ccm.guarded()@.state is Idle,
            modes.ccm.guarded()@.workspace == bytes::zeros(W as nat),
            software_ccm::is_registered(
                modes.ccm.guarded()@.session,
                CCM_CLIENT,
                ids.ecb@,
                1,
            ),
            modes.ctr.guarded().valid(),
            modes.ctr.guarded()@.state is Idle,
            modes.ctr.guarded()@.workspace == bytes::zeros(W as nat),
            software_ccm::is_registered(
                modes.ctr.guarded()@.session,
                CTR_CLIENT,
                ids.ecb@,
                2,
            ),
            modes.gcm.guarded().valid(),
            modes.gcm.guarded()@.state is Idle,
            modes.gcm.guarded()@.workspace == bytes::zeros(W as nat),
            software_ccm::is_registered(
                modes.gcm.guarded()@.session,
                GCM_CLIENT,
                ids.ecb@,
                3,
            ),
    {
        let mut ecb = DriverMutexComponent::<E, 5, 6>::new(self.ecb).finalize(ids.ecb);
        let ghost m0 = ecb@;
        assert(m0.is_slot_of(CBC_CLIENT, 0));
        let mut software_cbc = SoftwareCbc::new(CBC_CLIENT, bytes::zero_bytes(W));
        let _ = software_cbc.register(&mut ecb);
        let ghost m1 = ecb@;
        assert(m1 == m0.added(CBC_CLIENT, 0)) by {
            lemma_one_slot(m0, CBC_CLIENT);
        }
        assert(m1.is_slot_of(CCM_CLIENT, 1));
        let cbc = DriverMutexComponent::<SoftwareCbc<E>, C, Q>::new(software_cbc).finalize(ids.cbc);
        let mut software_ccm = SoftwareCcm::new(CCM_CLIENT, bytes::zero_bytes(W));
        let _ = software_ccm.register(&mut ecb);
        let ghost m2 = ecb@;
        assert(m2 == m1.added(CCM_CLIENT, 1)) by {
            lemma_one_slot(m1, CCM_CLIENT);
        }
        assert(m2.is_slot_of(CTR_CLIENT, 2));
        let ccm = DriverMutexComponent::<SoftwareCcm<E>, C, Q>::new(software_ccm).finalize(ids.ccm);
        let mut software_ctr = SoftwareCtr::new(CTR_CLIENT, bytes::zero_bytes(W));
        let _ = software_ctr.register(&mut ecb);
        let ghost m3 = ecb@;
        assert(m3 == m2.added(CTR_CLIENT, 2)) by {
            lemma_one_slot(m2, CTR_CLIENT);
        }
        assert(m3.is_slot_of(GCM_CLIENT, 3));
        let ctr = DriverMutexComponent::<SoftwareCtr<E>, C, Q>::new(software_ctr).finalize(ids.ctr);
        let mut software_gcm = SoftwareGcm::new(GCM_CLIENT, bytes::zero_bytes(W));
        let _ = software_gcm.register(&mut ecb);
        assert(ecb@ == m3.added(GCM_CLIENT, 3)) by {
            lemma_one_slot(m3, GCM_CLIENT);
        }
        let gcm = DriverMutexComponent::<SoftwareGcm<E>, C, Q>::new(software_gcm).finalize(ids.gcm);
        ModeMutexes { cbc, ccm, ctr, ecb, gcm }
    }
}

/// A client has at most one slot.
proof fn lemma_one_slot(mutex: MutexView, client: usize)
    ensures
        forall|a: int, b: int| #[trigger]
            mutex.is_slot_of(client, a) && #[trigger] mutex.is_slot_of(client, b) ==> a == b,
{
    assert forall|a: int, b: int| #[trigger]
        mutex.is_slot_of(client, a) && #[trigger] mutex.is_slot_of(client, b) implies a == b by {
        if a < b {
            assert(mutex.clients[a] is Some);
        } else if b < a {
            assert(mutex.clients[b] is Some);
        }
    }
}

/// Every client of the shared block cipher driver can wait for it at once: as long as the mutex has
/// its five places, no request is refused for want of room.
pub proof fn law_modes_can_wait(id: usize, mutex: MutexView, handle: DriverMutexHandle)
    requires
        mutex.wf(),
        mutex.admits(handle),
        mutex.room == shared(id).room,
        mutex.clients.len() == shared(id).clients.len(),
    ensures
        mutex.request_result(handle) != Err::<(), ErrorCode>(ErrorCode::FAIL),
        shared(id).clients == seq![
            Some(CBC_CLIENT),
            Some(CCM_CLIENT),
            Some(CTR_CLIENT),
            Some(GCM_CLIENT),
            None::<usize>,
        ],
{
    crate::driver_mutex::law_request_never_fails(mutex, handle);
}

} // verus!
