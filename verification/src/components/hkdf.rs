//! Component for initializing HKDF instances.
use crate::capsules::hkdf::{Hkdf, HkdfView};
use crate::grant::Grant;
use crate::hil::trace::{Call, Observed};
use std::marker::PhantomData;
use vstd::prelude::*;

verus! {

/// Component helper interface used to initialize an [`Hkdf`] instance over an HMAC driver of type
/// `H`.
pub struct HkdfComponent<H> {
    driver_num: usize,
    marker: PhantomData<H>,
}

impl<H> HkdfComponent<H> {
    /// The number of the driver.
    pub closed spec fn number(self) -> usize {
        self.driver_num
    }

    /// A component for the driver with a number.
    pub fn new(driver_num: usize) -> (component: Self)
        ensures
            component.number() == driver_num,
    {
        HkdfComponent { driver_num, marker: PhantomData }
    }

    /// The number under which the grant of the driver is to be created.
    pub fn driver_num(&self) -> (driver_num: usize)
        ensures
            driver_num == self.number(),
    {
        self.driver_num
    }

    /// Builds the driver over its grant. The mutex will know it as `id`.
    pub fn finalize(self, id: usize, apps: Grant) -> (driver: Hkdf<H>)
        ensures
            driver.valid(),
            driver.log() == Seq::<Call>::empty(),
            driver@ == HkdfView::fresh(id, apps@),
    {
        Hkdf::new(id, apps)
    }
}

} // verus!
