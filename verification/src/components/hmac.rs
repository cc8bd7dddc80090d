//! Component for initializing HMAC instances.
use std::marker::PhantomData;
use vstd::prelude::*;

verus! {

/// Component helper interface used to set up an HMAC driver over a peripheral of type `H`.
pub struct HmacComponent<H> {
    driver_num: usize,
    marker: PhantomData<H>,
}

impl<H> HmacComponent<H> {
    /// The number of the driver.
    pub closed spec fn number(self) -> usize {
        self.driver_num
    }

    /// A component for the driver with a number.
    pub fn new(driver_num: usize) -> (component: Self)
        ensures
            component.number() == driver_num,
    {
        HmacComponent { driver_num, marker: PhantomData }
    }

    /// The number under which the grant of the driver is to be created.
    pub fn driver_num(&self) -> (driver_num: usize)
        ensures
            driver_num == self.number(),
    {
        self.driver_num
    }
}

} // verus!
