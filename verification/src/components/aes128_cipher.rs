//! Component for the mode-specific AES-128 syscall driver.
use crate::capsules::aes;
use crate::capsules::aes::{Aes128CipherDriver, AesView, ModeMutexes, MutexViews};
use crate::error::ErrorCode;
use crate::grant::Grant;
use crate::hil::trace::{Call, Observed};
use vstd::prelude::*;

verus! {

/// Builds the AES-128 syscall driver over the mutexes of its modes.
pub struct Aes128CipherDriverComponent<CBC, CCM, CTR, ECB, GCM> {
    driver_num: usize,
    mutexes: ModeMutexes<CBC, CCM, CTR, ECB, GCM>,
}

/// Each of the five mutexes has a place for the client.
pub open spec fn has_places(mutexes: MutexViews, client: usize) -> bool {
    &&& aes::has_slot(mutexes.cbc, client)
    &&& aes::has_slot(mutexes.ccm, client)
    &&& aes::has_slot(mutexes.ctr, client)
    &&& aes::has_slot(mutexes.ecb, client)
    &&& aes::has_slot(mutexes.gcm, client)
}

impl<CBC, CCM, CTR, ECB, GCM> Aes128CipherDriverComponent<CBC, CCM, CTR, ECB, GCM> {
    /// The number of the driver.
    pub closed spec fn number(self) -> usize {
        self.driver_num
    }

    /// The mutexes of the modes.
    pub closed spec fn mutexes(self) -> ModeMutexes<CBC, CCM, CTR, ECB, GCM> {
        self.mutexes
    }

    /// A component for the driver with a number.
    pub fn new(driver_num: usize, mutexes: ModeMutexes<CBC, CCM, CTR, ECB, GCM>) -> (component: Self)
        ensures
            component.number() == driver_num,
            component.mutexes() == mutexes,
    {
        Aes128CipherDriverComponent { driver_num, mutexes }
    }

    /// The number under which the grant of the driver is to be created.
    pub fn driver_num(&self) -> (driver_num: usize)
        ensures
            driver_num == self.number(),
    {
        self.driver_num
    }

    /// Builds the driver over its grant, and registers it under `client` with each mutex.
    pub fn finalize(self, apps: Grant, client: usize) -> (built: (
        Aes128CipherDriver<CBC, CCM, CTR, ECB, GCM>,
        ModeMutexes<CBC, CCM, CTR, ECB, GCM>,
    ))
        requires
            self.mutexes()@.wf(),
            has_places(self.mutexes()@, client),
        ensures
            built.0.valid(),
            built.0.log() == Seq::<Call>::empty(),
            built.0@ == (AesView { handles: built.0@.handles, ..AesView::fresh(apps@) }),
            built.1@.wf(),
            built.1.guards_as(self.mutexes()),
            aes::registered(
                aes::Handles::empty(),
                built.0@.handles,
                self.mutexes()@,
                built.1@,
                client,
                Ok::<(), ErrorCode>(()),
            ),
    {
        let mut mutexes = self.mutexes;
        let mut driver = Aes128CipherDriver::new(apps);
        let result = driver.register(&mut mutexes, client);
        assert(result is Ok);
        assert(result->Ok_0 == ());
        (driver, mutexes)
    }
}

} // verus!
