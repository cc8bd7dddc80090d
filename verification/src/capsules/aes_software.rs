//! The AES driver over the modes in software, which share one driver for single blocks.
use crate::capsules::aes;
use crate::capsules::aes::{
    Aes128CipherDriver, AesView, Mode, ModeGuard, ModeMutexes, ModeRequest, MutexViews, Ready, State,
};
use crate::driver_mutex::{DriverMutexAny, DriverMutexClient, Resource};
use crate::error::ErrorCode;
use crate::hil::cipher::{Aes128, Ecb};
use crate::hil::trace::{Call, Observed};
use crate::sw::cbc;
use crate::sw::cbc::{CbcView, SoftwareCbc};
use crate::sw::ccm::{CcmView, SoftwareCcm};
use crate::sw::ctr;
use crate::sw::ctr::{CtrView, SoftwareCtr};
use crate::sw::gcm;
use crate::sw::gcm::{GcmView, SoftwareGcm};
use crate::sw::session::SessionView;
use vstd::prelude::*;

verus! {

/// The mutexes of the modes in software, and of the block driver below them, which is the mode ECB.
pub type SoftwareMutexes<E> = ModeMutexes<
    SoftwareCbc<E>,
    SoftwareCcm<E>,
    SoftwareCtr<E>,
    E,
    SoftwareGcm<E>,
>;

/// The driver over the modes in software.
pub type SoftwareDriver<E> = Aes128CipherDriver<
    SoftwareCbc<E>,
    SoftwareCcm<E>,
    SoftwareCtr<E>,
    E,
    SoftwareGcm<E>,
>;

/// The mode that a request is for.
pub open spec fn mode_of(request: ModeRequest) -> Mode {
    match request {
        ModeRequest::Cbc { .. } => Mode::Cbc,
        ModeRequest::Ccm { .. } => Mode::Ccm,
        ModeRequest::Ctr { .. } => Mode::Ctr,
        ModeRequest::Ecb { .. } => Mode::Ecb,
        ModeRequest::Gcm { .. } => Mode::Gcm,
    }
}

/// A session with another client.
pub open spec fn with_client(session: SessionView, client: usize) -> SessionView {
    SessionView { client: Some(client), ..session }
}

/// The modes and the block driver keep their invariants, and the modes that are registered may
/// request the block driver.
pub open spec fn modes_valid<E: Ecb<Aes128>>(mutexes: SoftwareMutexes<E>) -> bool {
    &&& mutexes@.wf()
    &&& mutexes.cbc.guarded().valid()
    &&& mutexes.ccm.guarded().valid()
    &&& mutexes.ctr.guarded().valid()
    &&& mutexes.ecb.guarded().valid()
    &&& mutexes.gcm.guarded().valid()
    &&& mutexes.cbc.guarded()@.session.handle matches Some(handle) ==> mutexes.ecb@.admits(handle)
    &&& mutexes.ccm.guarded()@.session.handle matches Some(handle) ==> mutexes.ecb@.admits(handle)
    &&& mutexes.ctr.guarded()@.session.handle matches Some(handle) ==> mutexes.ecb@.admits(handle)
    &&& mutexes.gcm.guarded()@.session.handle matches Some(handle) ==> mutexes.ecb@.admits(handle)
}

/// The mode of a request was given its client and started, with what came of it; no other mode was
/// touched. A mode in software requests the block driver where it accepts; the block driver itself
/// is told of the client and of the operation.
pub open spec fn performed<E: Ecb<Aes128>>(
    request: ModeRequest,
    client: usize,
    before: SoftwareMutexes<E>,
    after: SoftwareMutexes<E>,
    result: Result<(), ErrorCode>,
) -> bool {
    let mode = mode_of(request);
    &&& mode != Mode::Cbc ==> after.cbc == before.cbc
    &&& mode != Mode::Ccm ==> after.ccm == before.ccm
    &&& mode != Mode::Ctr ==> after.ctr == before.ctr
    &&& mode != Mode::Gcm ==> after.gcm == before.gcm
    &&& after.cbc@ == before.cbc@
    &&& after.ccm@ == before.ccm@
    &&& after.ctr@ == before.ctr@
    &&& after.gcm@ == before.gcm@
    &&& match request {
        ModeRequest::Cbc { len, operation } => {
            let cbc = before.cbc.guarded()@;
            let asked = CbcView { session: with_client(cbc.session, client), ..cbc };
            &&& result == asked.crypt_result(before.ecb@, len as nat)
            &&& after.ecb.guarded() == before.ecb.guarded()
            &&& if result is Ok {
                &&& after.cbc.guarded()@ == (CbcView {
                    state: cbc::State::WaitingForEcb,
                    operation,
                    len: len as nat,
                    ..asked
                })
                &&& after.ecb@ == before.ecb@.requested(asked.session.handle->0)
            } else {
                &&& after.cbc.guarded()@ == asked.refused(len as nat, operation)
                &&& after.ecb@ == before.ecb@
            }
        },
        ModeRequest::Ctr { len, operation: _ } => {
            let ctr = before.ctr.guarded()@;
            let asked = CtrView { session: with_client(ctr.session, client), ..ctr };
            &&& result == asked.crypt_result(before.ecb@, len as nat)
            &&& after.ecb.guarded() == before.ecb.guarded()
            &&& if result is Ok {
                &&& after.ctr.guarded()@ == (CtrView {
                    state: ctr::State::WaitingForEcb,
                    len: len as nat,
                    ..asked
                })
                &&& after.ecb@ == before.ecb@.requested(asked.session.handle->0)
            } else {
                &&& after.ctr.guarded()@ == asked.refused(len as nat)
                &&& after.ecb@ == before.ecb@
            }
        },
        ModeRequest::Ecb { len, operation } => {
            &&& after.ecb@ == before.ecb@
            &&& after.ecb.guarded().log() == before.ecb.guarded().log() + seq![
                Call::SetClient { client },
                Call::EcbCrypt { len, operation, result },
            ]
        },
        ModeRequest::Gcm { len, associated_data_len, tag_len, operation } => {
            let gcm = before.gcm.guarded()@;
            let asked = GcmView { session: with_client(gcm.session, client), ..gcm };
            let tag_bytes = tag_len.bits() / 8;
            &&& result == asked.crypt_result(before.ecb@, len as nat, associated_data_len as nat)
            &&& after.ecb.guarded() == before.ecb.guarded()
            &&& if result is Ok {
                &&& after.gcm.guarded()@ == (GcmView {
                    state: gcm::State::WaitingForEcb,
                    operation,
                    len: len as nat,
                    aad_len: associated_data_len as nat,
                    tag_len: tag_bytes,
                    ..asked
                })
                &&& after.ecb@ == before.ecb@.requested(asked.session.handle->0)
            } else {
                &&& after.gcm.guarded()@ == asked.refused(
                    len as nat,
                    associated_data_len as nat,
                    tag_bytes,
                    operation,
                )
                &&& after.ecb@ == before.ecb@
            }
        },
        ModeRequest::Ccm { len, associated_data_len, tag_len, operation } => {
            let ccm = before.ccm.guarded()@;
            let asked = CcmView { session: with_client(ccm.session, client), ..ccm };
            let tag_bytes = tag_len.bits() / 8;
            &&& result == asked.crypt_result(
                before.ecb@,
                len as nat,
                associated_data_len as nat,
                tag_bytes,
            )
            &&& after.ecb.guarded() == before.ecb.guarded()
            &&& if result is Ok {
                &&& after.ccm.guarded()@ == asked.accepted(
                    len as nat,
                    associated_data_len as nat,
                    tag_bytes,
                    operation,
                )
                &&& after.ecb@ == before.ecb@.requested(asked.session.handle->0)
            } else {
                &&& after.ccm.guarded()@ == asked.refused(
                    len as nat,
                    associated_data_len as nat,
                    tag_bytes,
                    operation,
                )
                &&& after.ecb@ == before.ecb@
            }
        },
    }
}

/// The mode whose mutex handed a guard out.
pub open spec fn owner_of(mutexes: MutexViews, guard: DriverMutexAny) -> Option<Mode> {
    if guard.owner() == mutexes.cbc.id {
        Some(Mode::Cbc)
    } else if guard.owner() == mutexes.ccm.id {
        Some(Mode::Ccm)
    } else if guard.owner() == mutexes.ctr.id {
        Some(Mode::Ctr)
    } else if guard.owner() == mutexes.ecb.id {
        Some(Mode::Ecb)
    } else if guard.owner() == mutexes.gcm.id {
        Some(Mode::Gcm)
    } else {
        None
    }
}

/// The guard is of what stands behind a mode.
pub open spec fn is_of_mode<E: Ecb<Aes128> + Resource>(guard: DriverMutexAny, mode: Mode) -> bool {
    guard.kind() == aes::kind_of::<
        SoftwareCbc<E>,
        SoftwareCcm<E>,
        SoftwareCtr<E>,
        E,
        SoftwareGcm<E>,
    >(mode)
}

/// A guard was given back to the mutex of its mode, and nothing else was touched.
pub open spec fn given_back<E>(
    before: SoftwareMutexes<E>,
    after: SoftwareMutexes<E>,
    mode: Mode,
) -> bool {
    &&& after.guards_as(before)
    &&& after@ == before@.with(mode, before@.of(mode).released())
}

/// What becomes of the driver and the modes when the driver is given a guard: one that it does not
/// wait for is given back; one of another mode is given back and ends the operation with `INVAL`, as
/// does a tag of no proper length; else the mode is given its client and started, and a refusal ends
/// the operation. A guard whose operation has ended is given back.
pub open spec fn attended<E: Ecb<Aes128> + Resource>(
    driver: AesView,
    later: AesView,
    guard: DriverMutexAny,
    client: usize,
    before: SoftwareMutexes<E>,
    after: SoftwareMutexes<E>,
) -> bool {
    match driver.state {
        State::Waiting { processid, mode } => {
            let active = AesView { state: State::Active { processid }, ..driver };
            let holding = AesView { held: Some((mode, guard.owner())), ..active };
            if !is_of_mode::<E>(guard, mode) {
                &&& later == active.finished(Err(ErrorCode::INVAL))
                &&& given_back(before, after, owner_of(before@, guard)->0)
            } else if active.request(mode, None) {
                &&& later == active.finished(Err(ErrorCode::INVAL))
                &&& given_back(before, after, mode)
            } else {
                exists|request: ModeRequest, middle: SoftwareMutexes<E>, result: Result<(), ErrorCode>|
                    {
                        &&& active.request(mode, Some(request))
                        &&& #[trigger] performed(request, client, before, middle, result)
                        &&& if result is Ok {
                            later == holding && after == middle
                        } else {
                            later == active.finished(result) && given_back(middle, after, mode)
                        }
                    }
            }
        },
        _ => later == driver && given_back(before, after, owner_of(before@, guard)->0),
    }
}

impl<E> SoftwareMutexes<E> {
    /// Gives a guard back to the mutex that handed it out.
    fn give_back_any(&mut self, guard: DriverMutexAny)
        requires
            old(self)@.wf(),
            owner_of(old(self)@, guard) matches Some(mode) && old(self)@.of(mode).guards() > 0,
        ensures
            final(self)@.wf(),
            given_back(*old(self), *final(self), owner_of(old(self)@, guard)->0),
    {
        if self.cbc.handed_out(&guard) {
            self.cbc.release_any(guard);
        } else if self.ccm.handed_out(&guard) {
            self.ccm.release_any(guard);
        } else if self.ctr.handed_out(&guard) {
            self.ctr.release_any(guard);
        } else if self.ecb.handed_out(&guard) {
            self.ecb.release_any(guard);
        } else {
            self.gcm.release_any(guard);
        }
    }

    /// Gives a guard back to the mutex of its mode.
    fn give_back(
        &mut self,
        guard: ModeGuard<SoftwareCbc<E>, SoftwareCcm<E>, SoftwareCtr<E>, E, SoftwareGcm<E>>,
    )
        requires
            old(self)@.wf(),
            guard@.1 == old(self)@.of(guard@.0).id,
            old(self)@.of(guard@.0).guards() > 0,
        ensures
            final(self)@.wf(),
            given_back(*old(self), *final(self), guard@.0),
    {
        match guard {
            ModeGuard::Cbc(guard) => self.cbc.release(guard),
            ModeGuard::Ccm(guard) => self.ccm.release(guard),
            ModeGuard::Ctr(guard) => self.ctr.release(guard),
            ModeGuard::Ecb(guard) => self.ecb.release(guard),
            ModeGuard::Gcm(guard) => self.gcm.release(guard),
        }
    }
}

impl<E: Ecb<Aes128> + Resource> SoftwareDriver<E> {
    /// Takes the guard of the mode that was waited for, makes this driver, known to the modes as
    /// `client`, the client of the mode, and starts the mode.
    pub fn attend(
        &mut self,
        resource: DriverMutexAny,
        client: usize,
        mutexes: &mut SoftwareMutexes<E>,
    )
        requires
            old(self).valid(),
            modes_valid(*old(mutexes)),
            old(self)@.dropped.len() == 0,
            old(self)@.held is None,
            owner_of(old(mutexes)@, resource) matches Some(mode) && old(mutexes)@.of(mode).guards()
                > 0,
            old(self)@.state matches State::Waiting { mode, .. } ==> (is_of_mode::<E>(resource, mode)
                ==> owner_of(old(mutexes)@, resource) == Some(mode)),
        ensures
            final(self).valid(),
            final(self).log() == old(self).log(),
            final(mutexes)@.wf(),
            attended(
                old(self)@,
                final(self)@,
                resource,
                client,
                *old(mutexes),
                *final(mutexes),
            ),
    {
        let ghost before = self@;
        let ghost views = mutexes@;
        match self.ready(resource) {
            Ready::Ignored(guard) => {
                mutexes.give_back_any(guard);
            },
            Ready::Refused(guard) => {
                mutexes.give_back_any(guard);
            },
            Ready::Ended => {
                if let Some(guard) = self.take_dropped() {
                    mutexes.give_back(guard);
                }
                assert(self@.dropped =~= before.dropped);
            },
            Ready::Start(request) => {
                let result = self.perform(request, client, mutexes);
                let ghost middle = *mutexes;
                if result.is_err() {
                    if let Some(guard) = self.take_dropped() {
                        mutexes.give_back(guard);
                    }
                    assert(self@.dropped =~= before.dropped);
                }
                assert(performed(request, client, *old(mutexes), middle, result));
            },
        }
    }

    /// Makes this driver, known to the modes as `client`, the client of the mode that it holds and
    /// starts the mode. An operation that could not be started has ended.
    pub fn perform(
        &mut self,
        request: ModeRequest,
        client: usize,
        mutexes: &mut SoftwareMutexes<E>,
    ) -> (result: Result<(), ErrorCode>)
        requires
            old(self).valid(),
            modes_valid(*old(mutexes)),
            old(self)@.held == Some((mode_of(request), old(mutexes)@.of(mode_of(request)).id)),
        ensures
            final(self).valid(),
            final(self).log() == old(self).log(),
            final(mutexes)@.wf(),
            performed(request, client, *old(mutexes), *final(mutexes), result),
            final(self)@ == (if result is Err {
                old(self)@.finished(result)
            } else {
                old(self)@
            }),
    {
        let result = match (request, self.guard()) {
            (ModeRequest::Cbc { len, operation }, Some(ModeGuard::Cbc(guard))) => {
                mutexes.cbc.resource(guard).set_client(client);
                mutexes.cbc.resource(guard).crypt(&mut mutexes.ecb, len, operation)
            },
            (ModeRequest::Ctr { len, operation }, Some(ModeGuard::Ctr(guard))) => {
                mutexes.ctr.resource(guard).set_client(client);
                mutexes.ctr.resource(guard).crypt(&mut mutexes.ecb, len, operation)
            },
            (ModeRequest::Ecb { len, operation }, Some(ModeGuard::Ecb(guard))) => {
                let ghost log = mutexes.ecb.guarded().log();
                mutexes.ecb.resource(guard).set_client(client);
                let result = mutexes.ecb.resource(guard).crypt(len, operation);
                assert(mutexes.ecb.guarded().log() =~= log + seq![
                    Call::SetClient { client },
                    Call::EcbCrypt { len, operation, result },
                ]);
                result
            },
            (
                ModeRequest::Gcm { len, associated_data_len, tag_len, operation },
                Some(ModeGuard::Gcm(guard)),
            ) => {
                mutexes.gcm.resource(guard).set_client(client);
                mutexes.gcm.resource(guard).crypt(
                    &mut mutexes.ecb,
                    len,
                    associated_data_len,
                    tag_len,
                    operation,
                )
            },
            (
                ModeRequest::Ccm { len, associated_data_len, tag_len, operation },
                Some(ModeGuard::Ccm(guard)),
            ) => {
                mutexes.ccm.resource(guard).set_client(client);
                mutexes.ccm.resource(guard).crypt(
                    &mut mutexes.ecb,
                    len,
                    associated_data_len,
                    tag_len,
                    operation,
                )
            },
            _ => Err(ErrorCode::FAIL),
        };
        self.started(result);
        result
    }
}

} // verus!
