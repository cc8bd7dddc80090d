//! The signer over its three drivers: what it wants done is done with the drivers and their mutexes.
use crate::capsules::ecdsa::{
    Driver, EcdsaP256SignatureSigner, Guard, Signed, SignedView, SignerView, Start, Step, StepView,
    P_LEN,
};
use crate::driver_mutex::{DriverMutex, DriverMutexAny, DriverMutexHandle, MutexView, Resource};
use crate::error::ErrorCode;
use crate::hil::digest::{Algorithm, Hmac};
use crate::hil::ecc_math;
use crate::hil::ecc_math::{EccClient, EccCrypto};
use crate::hil::modular_arithmetic;
use crate::hil::modular_arithmetic::{
    MathClient, MathCryptoBase, OpAddition, OpDivision, OpKind, OpModulo,
    OpMultiplication,
};
use crate::hil::trace;
use crate::hil::trace::{Call, EccOperation, Observed};
use vstd::prelude::*;

verus! {

/// The mutexes of the three drivers.
pub struct Drivers<E, M, H> {
    pub ecc: DriverMutex<E>,
    pub math: DriverMutex<M>,
    pub hmac: DriverMutex<H>,
}

/// The mutexes of the three drivers, without what they guard.
#[verifier::ext_equal]
pub struct DriversView {
    pub ecc: MutexView,
    pub math: MutexView,
    pub hmac: MutexView,
}

impl<E, M, H> View for Drivers<E, M, H> {
    type V = DriversView;

    open spec fn view(&self) -> DriversView {
        DriversView { ecc: self.ecc@, math: self.math@, hmac: self.hmac@ }
    }
}

impl DriversView {
    /// The mutex of a driver.
    pub open spec fn of(self, driver: Driver) -> MutexView {
        match driver {
            Driver::Ecc => self.ecc,
            Driver::Math => self.math,
            Driver::Hmac => self.hmac,
        }
    }

    /// The mutexes with another one for a driver.
    pub open spec fn with(self, driver: Driver, mutex: MutexView) -> DriversView {
        match driver {
            Driver::Ecc => DriversView { ecc: mutex, ..self },
            Driver::Math => DriversView { math: mutex, ..self },
            Driver::Hmac => DriversView { hmac: mutex, ..self },
        }
    }

    /// Each mutex keeps its invariant.
    pub open spec fn wf(self) -> bool {
        self.ecc.wf() && self.math.wf() && self.hmac.wf()
    }

    /// The driver whose mutex handed a guard out.
    pub open spec fn owner_of(self, guard: DriverMutexAny) -> Option<Driver> {
        if guard.owner() == self.ecc.id {
            Some(Driver::Ecc)
        } else if guard.owner() == self.math.id {
            Some(Driver::Math)
        } else if guard.owner() == self.hmac.id {
            Some(Driver::Hmac)
        } else {
            None
        }
    }

    /// The mutexes after the guards that the signer does not need were given back.
    pub open spec fn given_back(self, step: StepView) -> DriversView {
        match (step.refused, step.dropped) {
            (Some(guard), _) => match self.owner_of(guard) {
                Some(driver) => self.with(driver, self.of(driver).released()),
                None => self,
            },
            (None, Some((driver, _))) => self.with(driver, self.of(driver).released()),
            (None, None) => self,
        }
    }

    /// The mutexes after a driver was requested.
    pub open spec fn asked(self, request: Option<(Driver, DriverMutexHandle)>) -> DriversView {
        match request {
            Some((driver, handle)) => self.with(driver, self.of(driver).requested(handle)),
            None => self,
        }
    }
}

/// The driver that an operation is for.
pub open spec fn driver_of(start: Start) -> Driver {
    match start {
        Start::Authenticate(_) => Driver::Hmac,
        Start::ScalarMultiplication => Driver::Ecc,
        _ => Driver::Math,
    }
}

/// The call by which a driver is told its client.
pub open spec fn told(start: Start, client: usize) -> Call {
    match start {
        Start::Authenticate(_) => Call::SetHmacClient { client },
        _ => Call::SetClient { client },
    }
}

/// `call` asks a driver to start: HMAC is over SHA-256 with a key of 32 bytes, the generator is what
/// is multiplied, and numbers have 32 bytes.
pub open spec fn asks(start: Start, call: Call, result: Result<(), ErrorCode>) -> bool {
    match start {
        Start::Authenticate(len) => call == (Call::Authenticate {
            algorithm: Algorithm::Sha256,
            input_len: len,
            key_len: 32,
            result,
        }),
        Start::ScalarMultiplication => call == (Call::Ecc {
            operation: EccOperation::Multiplication,
            use_curve_generator: true,
            result,
        }),
        Start::Modulo => computes(call, result) && call->operation is Modulo,
        Start::Multiplication => computes(call, result) && call->operation is Multiplication,
        Start::Addition => computes(call, result) && call->operation is Addition,
        Start::Division => computes(call, result) && call->operation is Division,
    }
}

/// `call` asks for a modular operation on numbers of 32 bytes.
pub open spec fn computes(call: Call, result: Result<(), ErrorCode>) -> bool {
    &&& call is Compute
    &&& call->modulus_len == 32
    &&& call->Compute_result == result
}

/// `later` is `log` with the calls by which a driver is told its client, where it is to be, and
/// asked to start.
pub open spec fn launched(
    log: Seq<Call>,
    later: Seq<Call>,
    start: Start,
    client: Option<usize>,
    result: Result<(), ErrorCode>,
) -> bool {
    let told = match client {
        Some(client) => log.push(told(start, client)),
        None => log,
    };
    &&& later.len() == told.len() + 1
    &&& later.drop_last() == told
    &&& asks(start, later.last(), result)
}

/// The client that the driver which is to start is told of.
pub open spec fn client_told(step: StepView, client: usize) -> Option<usize> {
    if step.set_client {
        Some(client)
    } else {
        None
    }
}

/// The log of a driver.
pub open spec fn log_of<E: Observed, M: Observed, H: Observed>(
    drivers: Drivers<E, M, H>,
    driver: Driver,
) -> Seq<Call> {
    match driver {
        Driver::Ecc => drivers.ecc.guarded().log(),
        Driver::Math => drivers.math.guarded().log(),
        Driver::Hmac => drivers.hmac.guarded().log(),
    }
}

/// The drivers but one are as they were.
pub open spec fn others_kept<E, M, H>(
    before: Drivers<E, M, H>,
    after: Drivers<E, M, H>,
    driver: Option<Driver>,
) -> bool {
    &&& driver != Some(Driver::Ecc) ==> after.ecc.guarded() == before.ecc.guarded()
    &&& driver != Some(Driver::Math) ==> after.math.guarded() == before.math.guarded()
    &&& driver != Some(Driver::Hmac) ==> after.hmac.guarded() == before.hmac.guarded()
}

/// Mutexes and drivers keep their invariants, and the driver for modular operations takes numbers of
/// 32 bytes.
pub open spec fn drivers_valid<
    E: EccCrypto<32>,
    Op: OpKind,
    M: MathCryptoBase<Op>,
    H: Hmac,
>(drivers: Drivers<E, M, H>) -> bool {
    &&& drivers@.wf()
    &&& drivers.ecc.guarded().valid()
    &&& drivers.math.guarded().valid()
    &&& drivers.hmac.guarded().valid()
    &&& M::takes_len(P_LEN)
}

/// What the signer wants done can be done: the guards are of these mutexes, the request is admitted,
/// and the signer holds the driver that is to start.
pub open spec fn feasible(signer: SignerView, step: StepView, drivers: DriversView) -> bool {
    &&& step.refused matches Some(guard) ==> {
        &&& step.dropped is None
        &&& drivers.owner_of(guard) matches Some(driver) && drivers.of(driver).guards() > 0
    }
    &&& step.dropped matches Some((driver, owner)) ==> {
        &&& owner == drivers.of(driver).id
        &&& drivers.of(driver).guards() > 0
    }
    &&& step.request matches Some((driver, handle)) ==> drivers.of(driver).admits(handle)
    &&& step.start matches Some(start) ==> {
        let driver = driver_of(start);
        &&& signer.held == Some((driver, drivers.of(driver).id))
        &&& drivers.of(driver).guards() > (match step.dropped {
            Some((other, _)) if other == driver => 1nat,
            _ => 0,
        })
        &&& step.refused is None
        &&& step.request is None
        &&& step.signed is None
    }
}

/// The end of a signing operation, by contents, if there is one.
pub open spec fn signed_view(signed: Option<Signed>) -> Option<SignedView> {
    match signed {
        Some(signed) => Some(
            SignedView {
                result: signed.result,
                hash: signed.hash@,
                signature: signed.signature@,
            },
        ),
        None => None,
    }
}

/// Reading operands leaves a signer as it was, but for how much of them was read.
proof fn lemma_served_by_ecc<E, Op, M, H>(
    signer: EcdsaP256SignatureSigner<E, Op, M, H>,
    calls: Seq<Call>,
    later: EcdsaP256SignatureSigner<E, Op, M, H>,
)
    requires
        ecc_math::served(signer, calls, later),
    ensures
        later@ == signer@.at_progress_of(later@),
    decreases calls.len(),
{
    if calls.len() > 0 {
        let middle = choose|middle: EcdsaP256SignatureSigner<E, Op, M, H>|
            ecc_math::served(signer, calls.drop_last(), middle) && #[trigger] middle.answers(
                calls.last(),
                &later,
            );
        lemma_served_by_ecc(signer, calls.drop_last(), middle);
    }
}

/// Reading operands leaves a signer as it was, but for how much of them was read.
proof fn lemma_served_by_math<E, Op, M, H>(
    signer: EcdsaP256SignatureSigner<E, Op, M, H>,
    calls: Seq<Call>,
    later: EcdsaP256SignatureSigner<E, Op, M, H>,
)
    requires
        modular_arithmetic::served::<Op, EcdsaP256SignatureSigner<E, Op, M, H>>(
            signer,
            calls,
            later,
        ),
    ensures
        later@ == signer@.at_progress_of(later@),
    decreases calls.len(),
{
    if calls.len() > 0 {
        let middle = choose|middle: EcdsaP256SignatureSigner<E, Op, M, H>|
            modular_arithmetic::served::<Op, EcdsaP256SignatureSigner<E, Op, M, H>>(
                signer,
                calls.drop_last(),
                middle,
            ) && #[trigger] middle.replies(calls.last(), &later);
        lemma_served_by_math(signer, calls.drop_last(), middle);
    }
}

impl<E, M, H> Drivers<E, M, H> {
    /// Gives a guard back to the mutex that handed it out.
    fn give_back_any(&mut self, guard: DriverMutexAny)
        requires
            old(self)@.wf(),
            old(self)@.owner_of(guard) matches Some(driver) && old(self)@.of(driver).guards() > 0,
        ensures
            final(self)@.wf(),
            others_kept(*old(self), *final(self), None),
            ({
                let driver = old(self)@.owner_of(guard)->0;
                final(self)@ == old(self)@.with(driver, old(self)@.of(driver).released())
            }),
    {
        if self.ecc.handed_out(&guard) {
            self.ecc.release_any(guard);
        } else if self.math.handed_out(&guard) {
            self.math.release_any(guard);
        } else {
            self.hmac.release_any(guard);
        }
    }

    /// Gives a guard back to the mutex of its driver.
    fn give_back(&mut self, guard: Guard<E, M, H>)
        requires
            old(self)@.wf(),
            guard@.1 == old(self)@.of(guard@.0).id,
            old(self)@.of(guard@.0).guards() > 0,
        ensures
            final(self)@.wf(),
            others_kept(*old(self), *final(self), None),
            final(self)@ == old(self)@.with(guard@.0, old(self)@.of(guard@.0).released()),
    {
        match guard {
            Guard::Ecc(guard) => self.ecc.release(guard),
            Guard::Math(guard) => self.math.release(guard),
            Guard::Hmac(guard) => self.hmac.release(guard),
        }
    }

    /// Requests a driver from its mutex.
    fn ask(&mut self, driver: Driver, handle: DriverMutexHandle)
        requires
            old(self)@.wf(),
            old(self)@.of(driver).admits(handle),
        ensures
            final(self)@.wf(),
            others_kept(*old(self), *final(self), None),
            final(self)@ == old(self)@.asked(Some((driver, handle))),
    {
        let _ = match driver {
            Driver::Ecc => self.ecc.request(handle),
            Driver::Math => self.math.request(handle),
            Driver::Hmac => self.hmac.request(handle),
        };
    }
}

impl<
    E: EccCrypto<32> + Resource,
    Op: OpAddition + OpMultiplication + OpDivision + OpModulo,
    M: MathCryptoBase<Op> + Resource,
    H: Hmac + Resource,
> EcdsaP256SignatureSigner<E, Op, M, H> {
    /// Tells the driver that the signer holds its client, where it is to be told, and has it start
    /// an operation.
    fn launch(
        &mut self,
        start: Start,
        client: Option<usize>,
        guard: &Guard<E, M, H>,
        drivers: &mut Drivers<E, M, H>,
    ) -> (result: Result<(), ErrorCode>)
        requires
            old(self).valid(),
            drivers_valid::<E, Op, M, H>(*old(drivers)),
            guard@ == (driver_of(start), old(drivers)@.of(driver_of(start)).id),
        ensures
            final(self).valid(),
            final(self)@ == old(self)@.at_progress_of(final(self)@),
            drivers_valid::<E, Op, M, H>(*final(drivers)),
            final(drivers)@ == old(drivers)@,
            others_kept(*old(drivers), *final(drivers), Some(driver_of(start))),
            launched(
                log_of(*old(drivers), driver_of(start)),
                log_of(*final(drivers), driver_of(start)),
                start,
                client,
                result,
            ),
    {
        let ghost signer = *self;
        let ghost log = log_of(*drivers, driver_of(start));
        let ghost told = match client {
            Some(client) => log.push(self::told(start, client)),
            None => log,
        };
        let result = match (start, guard) {
            (Start::Authenticate(len), Guard::Hmac(guard)) => {
                if let Some(client) = client {
                    drivers.hmac.resource(guard).set_hmac_client(client);
                }
                drivers.hmac.resource(guard).authenticate(Algorithm::Sha256, len, P_LEN)
            },
            (Start::ScalarMultiplication, Guard::Ecc(guard)) => {
                if let Some(client) = client {
                    drivers.ecc.resource(guard).set_ecc_client(client);
                }
                let result = drivers.ecc.resource(guard).scalar_multiplication(true, self);
                proof {
                    lemma_served_by_ecc(signer, trace::since(self.log(), signer.log()), *self);
                }
                result
            },
            (Start::Modulo, Guard::Math(guard)) => {
                if let Some(client) = client {
                    drivers.math.resource(guard).set_math_client(client);
                }
                let result = drivers.math.resource(guard).start_computation(
                    P_LEN,
                    Op::modulo(),
                    self,
                );
                proof {
                    lemma_served_by_math(signer, trace::since(self.log(), signer.log()), *self);
                }
                result
            },
            (Start::Multiplication, Guard::Math(guard)) => {
                if let Some(client) = client {
                    drivers.math.resource(guard).set_math_client(client);
                }
                let result = drivers.math.resource(guard).start_computation(
                    P_LEN,
                    Op::multiplication(),
                    self,
                );
                proof {
                    lemma_served_by_math(signer, trace::since(self.log(), signer.log()), *self);
                }
                result
            },
            (Start::Addition, Guard::Math(guard)) => {
                if let Some(client) = client {
                    drivers.math.resource(guard).set_math_client(client);
                }
                let result = drivers.math.resource(guard).start_computation(
                    P_LEN,
                    Op::addition(),
                    self,
                );
                proof {
                    lemma_served_by_math(signer, trace::since(self.log(), signer.log()), *self);
                }
                result
            },
            (Start::Division, Guard::Math(guard)) => {
                if let Some(client) = client {
                    drivers.math.resource(guard).set_math_client(client);
                }
                let result = drivers.math.resource(guard).start_computation(
                    P_LEN,
                    Op::division(),
                    self,
                );
                proof {
                    lemma_served_by_math(signer, trace::since(self.log(), signer.log()), *self);
                }
                result
            },
            _ => Err(ErrorCode::FAIL),
        };
        proof {
            let later = log_of(*drivers, driver_of(start));
            assert(later.drop_last() =~= told);
        }
        result
    }

    /// Does what the signer wants done: gives guards back, requests a driver, tells the driver that
    /// is held its client, which is `client`, and has it start. What the driver says to that has no
    /// effect on the signer, which waits for the end of the operation. Returns what the client of the
    /// signer is to be told.
    pub fn perform(
        &mut self,
        step: Step<E, M, H>,
        client: usize,
        drivers: &mut Drivers<E, M, H>,
    ) -> (signed: Option<Signed>)
        requires
            old(self).valid(),
            drivers_valid::<E, Op, M, H>(*old(drivers)),
            feasible(old(self)@, step@, old(drivers)@),
        ensures
            final(self).valid(),
            drivers_valid::<E, Op, M, H>(*final(drivers)),
            match step@.start {
                None => {
                    &&& final(self)@ == old(self)@
                    &&& others_kept(*old(drivers), *final(drivers), None)
                    &&& final(drivers)@ == old(drivers)@.given_back(step@).asked(step@.request)
                    &&& signed_view(signed) == step@.signed
                },
                Some(start) => {
                    let driver = driver_of(start);
                    &&& others_kept(*old(drivers), *final(drivers), Some(driver))
                    &&& exists|result: Result<(), ErrorCode>|
                        {
                            #[trigger] launched(
                                log_of(*old(drivers), driver),
                                log_of(*final(drivers), driver),
                                start,
                                client_told(step@, client),
                                result,
                            )
                        }
                    &&& final(self)@ == old(self)@.at_progress_of(final(self)@)
                    &&& final(drivers)@ == old(drivers)@.given_back(step@)
                    &&& signed is None
                },
            },
    {
        if let Some(guard) = step.refused {
            drivers.give_back_any(guard);
        }
        if let Some(guard) = step.dropped {
            drivers.give_back(guard);
        }
        if let Some((driver, handle)) = step.request {
            drivers.ask(driver, handle);
        }
        if let Some(start) = step.start {
            let asked = if step.set_client {
                Some(client)
            } else {
                None
            };
            if let Some(guard) = self.lend_guard() {
                let ghost before = log_of(*drivers, driver_of(start));
                let result = self.launch(start, asked, &guard, drivers);
                self.return_guard(guard);
                proof {
                    let driver = driver_of(start);
                    assert(before == log_of(*old(drivers), driver));
                    assert(launched(
                        log_of(*old(drivers), driver),
                        log_of(*drivers, driver),
                        start,
                        client_told(step@, client),
                        result,
                    ));
                    assert(self@ =~= old(self)@.at_progress_of(self@));
                }
            }
        }
        step.signed
    }
}

} // verus!
