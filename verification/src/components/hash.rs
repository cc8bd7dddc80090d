//! Component for initializing Hash instances.
use crate::capsules::hash;
use crate::capsules::hash::HashView;
use crate::grant::Grant;
use crate::hil::trace::{Call, Observed};
use std::marker::PhantomData;
use vstd::prelude::*;

verus! {

/// Component helper interface used to initialize a [`hash::Hash`] instance over a hash driver of type `H`.
pub struct HashComponent<H> {
    driver_num: usize,
    marker: PhantomData<H>,
}

impl<H> HashComponent<H> {
    /// The number of the driver.
    pub closed spec fn number(self) -> usize {
        self.driver_num
    }

    /// A component for the driver with a number.
    pub fn new(driver_num: usize) -> (component: Self)
        ensures
            component.number() == driver_num,
    {
        HashComponent { driver_num, marker: PhantomData }
    }

    /// The number under which the grant of the driver is to be created.
    pub fn driver_num(&self) -> (driver_num: usize)
        ensures
            driver_num == self.number(),
    {
        self.driver_num
    }

    /// Builds the driver over its grant and its buffer for DMA. The mutex will know it as `id`.
    pub fn finalize(self, id: usize, data_buffer: Vec<u8>, apps: Grant) -> (driver: hash::Hash<H>)
        ensures
            driver.log() == Seq::<Call>::empty(),
            driver@ == HashView::fresh(id, data_buffer@, apps@),
    {
        hash::Hash::new(id, data_buffer, apps)
    }
}

} // verus!
