//! Syscall driver for mode-specific AES-128 cipher drivers.
//!
//! # System call interface
//!
//! ## `subscribe_num`
//!
//! - `0`: operation completion. Callback arguments are `(status, output_len, 0)`.
//!
//! ## Read-only allow buffers
//!
//! - `0`: 16-byte AES-128 key
//! - `1`: IV (16 bytes for CBC, 12 bytes for GCM)
//! - `2`: nonce (CCM or the high-order portion of a CTR counter block)
//! - `3`: low-order CTR counter value
//! - `4`: plaintext or ciphertext payload
//! - `5`: associated data
//! - `6`: authentication tag for CCM or GCM decryption
//!
//! ## Read-write allow buffers
//!
//! - `0`: ciphertext or plaintext payload
//! - `1`: chaining IV returned by CBC
//! - `2`: authentication tag returned by CCM or GCM encryption
//!
//! ## Commands
//!
//! - `0`: existence check
//! - `1`: perform an AES-128 operation. `data1` is the mode and `data2` is the operation.
//!
//! Mode values are `0 = CBC`, `1 = CCM`, `2 = CTR`, `3 = ECB`, and `4 = GCM`.
//! Operation values are `0 = encrypt` and `1 = decrypt`. Payload, associated-data, and tag
//! lengths are inferred from the corresponding allow buffers.
pub mod cbc_client;
pub mod ccm_client;
pub mod ctr_client;
pub mod ecb_client;
pub mod gcm_client;

use crate::capsules::aes_laws;
use crate::driver_mutex::{
    DriverMutex, DriverMutexAny, DriverMutexClient, DriverMutexHandle, DriverMutexRef, Kind,
    MutexView, Resource,
};
use crate::error::ErrorCode;
use crate::grant;
use crate::grant::{AccessError, Grant, GrantView, Upcall};
use crate::hil::cipher::{CcmTagLength, GcmTagLength, Operation};
use crate::hil::trace::{Call, Observed};
use crate::sw::bytes;
use vstd::prelude::*;

verus! {

pub const AES128_KEY_SIZE: usize = 16;

pub const BLOCK_SIZE: usize = 16;

pub const GCM_IV_SIZE: usize = 12;

/// The upcall at the end of an operation.
pub const UPCALL_DONE: usize = 0;

pub const RO_KEY: usize = 0;

pub const RO_IV: usize = 1;

pub const RO_NONCE: usize = 2;

pub const RO_COUNTER: usize = 3;

pub const RO_INPUT: usize = 4;

pub const RO_ASSOCIATED_DATA: usize = 5;

pub const RO_TAG: usize = 6;

pub const RW_OUTPUT: usize = 0;

pub const RW_IV: usize = 1;

pub const RW_TAG: usize = 2;

/// A cipher mode.
#[derive(Clone, Copy, Debug, PartialEq, Eq, Structural)]
pub enum Mode {
    Cbc,
    Ccm,
    Ctr,
    Ecb,
    Gcm,
}

/// What the driver is doing, and for which process.
#[derive(Clone, Copy, Debug, PartialEq, Eq, Structural)]
pub enum State {
    Idle,
    Waiting { processid: usize, mode: Mode },
    Active { processid: usize },
}

/// The mode that a value stands for.
pub open spec fn mode_of(value: usize) -> Result<Mode, ErrorCode> {
    if value == 0 {
        Ok(Mode::Cbc)
    } else if value == 1 {
        Ok(Mode::Ccm)
    } else if value == 2 {
        Ok(Mode::Ctr)
    } else if value == 3 {
        Ok(Mode::Ecb)
    } else if value == 4 {
        Ok(Mode::Gcm)
    } else {
        Err(ErrorCode::INVAL)
    }
}

/// The operation that a value stands for.
pub open spec fn operation_of(value: usize) -> Result<Operation, ErrorCode> {
    if value == 0 {
        Ok(Operation::Encrypt)
    } else if value == 1 {
        Ok(Operation::Decrypt)
    } else {
        Err(ErrorCode::INVAL)
    }
}

pub fn parse_mode(value: usize) -> (mode: Result<Mode, ErrorCode>)
    ensures
        mode == mode_of(value),
{
    match value {
        0 => Ok(Mode::Cbc),
        1 => Ok(Mode::Ccm),
        2 => Ok(Mode::Ctr),
        3 => Ok(Mode::Ecb),
        4 => Ok(Mode::Gcm),
        _ => Err(ErrorCode::INVAL),
    }
}

pub fn parse_operation(value: usize) -> (operation: Result<Operation, ErrorCode>)
    ensures
        operation == operation_of(value),
{
    match value {
        0 => Ok(Operation::Encrypt),
        1 => Ok(Operation::Decrypt),
        _ => Err(ErrorCode::INVAL),
    }
}

/// Some tag of CCM has the length.
pub open spec fn is_ccm_tag_len(value: usize) -> bool {
    exists|tag_len: CcmTagLength| #[trigger] tag_len.bits() == 8 * value
}

/// Some tag of GCM has the length.
pub open spec fn is_gcm_tag_len(value: usize) -> bool {
    exists|tag_len: GcmTagLength| #[trigger] tag_len.bits() == 8 * value
}

/// The tag of CCM with so many bytes. `INVAL` if there is none.
pub fn parse_ccm_tag_length(value: usize) -> (tag_len: Result<CcmTagLength, ErrorCode>)
    ensures
        tag_len is Ok <==> is_ccm_tag_len(value),
        tag_len matches Ok(tag_len) ==> tag_len.bits() == 8 * value,
        tag_len matches Err(error) ==> error == ErrorCode::INVAL,
{
    let tag_len = match value {
        4 => CcmTagLength::Tag32,
        6 => CcmTagLength::Tag48,
        8 => CcmTagLength::Tag64,
        10 => CcmTagLength::Tag80,
        12 => CcmTagLength::Tag96,
        14 => CcmTagLength::Tag112,
        16 => CcmTagLength::Tag128,
        _ => {
            return Err(ErrorCode::INVAL);
        },
    };
    assert(tag_len.bits() == 8 * value);
    Ok(tag_len)
}

/// The tag of GCM with so many bytes. `INVAL` if there is none.
pub fn parse_gcm_tag_length(value: usize) -> (tag_len: Result<GcmTagLength, ErrorCode>)
    ensures
        tag_len is Ok <==> is_gcm_tag_len(value),
        tag_len matches Ok(tag_len) ==> tag_len.bits() == 8 * value,
        tag_len matches Err(error) ==> error == ErrorCode::INVAL,
{
    let tag_len = match value {
        4 => GcmTagLength::Tag32,
        8 => GcmTagLength::Tag64,
        12 => GcmTagLength::Tag96,
        13 => GcmTagLength::Tag104,
        14 => GcmTagLength::Tag112,
        15 => GcmTagLength::Tag120,
        16 => GcmTagLength::Tag128,
        _ => {
            return Err(ErrorCode::INVAL);
        },
    };
    assert(tag_len.bits() == 8 * value);
    Ok(tag_len)
}

/// The lengths that an operation works with.
#[derive(Clone, Copy, Debug, PartialEq, Eq, Structural)]
pub struct Lengths {
    pub input: usize,
    pub associated_data: usize,
    pub tag: usize,
}

/// The mode authenticates.
pub open spec fn has_tag(mode: Mode) -> bool {
    mode is Ccm || mode is Gcm
}

/// What the buffers of a process have to be for the mode, beyond key, input, output and tag; the
/// first error otherwise.
pub open spec fn mode_fits(apps: GrantView, processid: usize, mode: Mode, tag_len: usize) -> Result<
    (),
    ErrorCode,
> {
    match mode {
        Mode::Cbc => match (
            grant::len_of(apps.readonly(processid, RO_IV)),
            grant::len_of(apps.readwrite(processid, RW_IV)),
        ) {
            (Err(error), _) => Err(error),
            (Ok(iv), chaining) => if iv != BLOCK_SIZE {
                Err(ErrorCode::INVAL)
            } else {
                match chaining {
                    Err(error) => Err(error),
                    Ok(room) => if room < BLOCK_SIZE {
                        Err(ErrorCode::INVAL)
                    } else {
                        Ok(())
                    },
                }
            },
        },
        Mode::Ccm => match grant::len_of(apps.readonly(processid, RO_NONCE)) {
            Err(error) => Err(error),
            Ok(nonce) => if 7 <= nonce <= 13 && is_ccm_tag_len(tag_len) {
                Ok(())
            } else {
                Err(ErrorCode::INVAL)
            },
        },
        Mode::Ctr => match (
            grant::len_of(apps.readonly(processid, RO_NONCE)),
            grant::len_of(apps.readonly(processid, RO_COUNTER)),
        ) {
            (Err(error), _) => Err(error),
            (_, Err(error)) => Err(error),
            (Ok(nonce), Ok(counter)) => if counter != 0 && nonce + counter == BLOCK_SIZE {
                Ok(())
            } else {
                Err(ErrorCode::INVAL)
            },
        },
        Mode::Ecb => Ok(()),
        Mode::Gcm => match grant::len_of(apps.readonly(processid, RO_IV)) {
            Err(error) => Err(error),
            Ok(iv) => if iv == GCM_IV_SIZE && is_gcm_tag_len(tag_len) {
                Ok(())
            } else {
                Err(ErrorCode::INVAL)
            },
        },
    }
}

/// The length of the tag: of the buffer that it goes to, or that it comes from.
pub open spec fn tag_len_of(
    apps: GrantView,
    processid: usize,
    mode: Mode,
    operation: Operation,
) -> Result<usize, ErrorCode> {
    if !has_tag(mode) {
        Ok(0)
    } else if operation is Encrypt {
        grant::len_of(apps.readwrite(processid, RW_TAG))
    } else {
        grant::len_of(apps.readonly(processid, RO_TAG))
    }
}

/// The lengths of an operation on the buffers of a process, or what is wrong with the buffers.
pub open spec fn lengths_of(
    apps: GrantView,
    processid: usize,
    mode: Mode,
    operation: Operation,
) -> Result<Lengths, ErrorCode> {
    match (
        grant::len_of(apps.readonly(processid, RO_KEY)),
        grant::len_of(apps.readonly(processid, RO_INPUT)),
        grant::len_of(apps.readwrite(processid, RW_OUTPUT)),
    ) {
        (Err(error), _, _) => Err(error),
        (Ok(key), input, output) => if key != AES128_KEY_SIZE {
            Err(ErrorCode::INVAL)
        } else {
            match (input, output) {
                (Err(error), _) => Err(error),
                (_, Err(error)) => Err(error),
                (Ok(input), Ok(output)) => if output < input {
                    Err(ErrorCode::SIZE)
                } else {
                    let associated = if has_tag(mode) {
                        grant::len_of(apps.readonly(processid, RO_ASSOCIATED_DATA))
                    } else {
                        Ok(0)
                    };
                    match (associated, tag_len_of(apps, processid, mode, operation)) {
                        (Err(error), _) => Err(error),
                        (_, Err(error)) => Err(error),
                        (Ok(associated_data), Ok(tag)) => match mode_fits(
                            apps,
                            processid,
                            mode,
                            tag,
                        ) {
                            Err(error) => Err(error),
                            Ok(_) => Ok(Lengths { input, associated_data, tag }),
                        },
                    }
                },
            }
        },
    }
}

fn check_mode(apps: &Grant, processid: usize, mode: Mode, tag_len: usize) -> (result: Result<
    (),
    ErrorCode,
>)
    ensures
        result is Ok <==> mode_fits(apps@, processid, mode, tag_len) is Ok,
        result matches Err(error) ==> mode_fits(apps@, processid, mode, tag_len) == Err::<
            (),
            ErrorCode,
        >(error),
{
    match mode {
        Mode::Cbc => {
            let iv_len: usize = match apps.readonly_buffer_len(processid, RO_IV) {
                Ok(len) => len,
                Err(error) => {
                    return Err(error);
                },
            };
            if iv_len != BLOCK_SIZE {
                return Err(ErrorCode::INVAL);
            }
            match apps.readwrite_buffer_len(processid, RW_IV) {
                Ok(room) => {
                    if room < BLOCK_SIZE {
                        return Err(ErrorCode::INVAL);
                    }
                },
                Err(error) => {
                    return Err(error);
                },
            }
        },
        Mode::Ccm => {
            match apps.readonly_buffer_len(processid, RO_NONCE) {
                Ok(nonce_len) => {
                    if nonce_len < 7 || nonce_len > 13 {
                        return Err(ErrorCode::INVAL);
                    }
                },
                Err(error) => {
                    return Err(error);
                },
            }
            if let Err(error) = parse_ccm_tag_length(tag_len) {
                return Err(error);
            }
        },
        Mode::Ctr => {
            let nonce_len: usize = match apps.readonly_buffer_len(processid, RO_NONCE) {
                Ok(len) => len,
                Err(error) => {
                    return Err(error);
                },
            };
            let counter_len: usize = match apps.readonly_buffer_len(processid, RO_COUNTER) {
                Ok(len) => len,
                Err(error) => {
                    return Err(error);
                },
            };
            if counter_len == 0 || counter_len > BLOCK_SIZE || nonce_len != BLOCK_SIZE
                - counter_len {
                return Err(ErrorCode::INVAL);
            }
        },
        Mode::Ecb => {},
        Mode::Gcm => {
            match apps.readonly_buffer_len(processid, RO_IV) {
                Ok(iv_len) => {
                    if iv_len != GCM_IV_SIZE {
                        return Err(ErrorCode::INVAL);
                    }
                },
                Err(error) => {
                    return Err(error);
                },
            }
            if let Err(error) = parse_gcm_tag_length(tag_len) {
                return Err(error);
            }
        },
    }
    Ok(())
}

fn check_buffers(apps: &Grant, processid: usize, mode: Mode, operation: Operation) -> (result:
    Result<Lengths, ErrorCode>)
    ensures
        result == lengths_of(apps@, processid, mode, operation),
{
    match apps.readonly_buffer_len(processid, RO_KEY) {
        Ok(key_len) => {
            if key_len != AES128_KEY_SIZE {
                return Err(ErrorCode::INVAL);
            }
        },
        Err(error) => {
            return Err(error);
        },
    }
    let input: usize = match apps.readonly_buffer_len(processid, RO_INPUT) {
        Ok(len) => len,
        Err(error) => {
            return Err(error);
        },
    };
    match apps.readwrite_buffer_len(processid, RW_OUTPUT) {
        Ok(output) => {
            if output < input {
                return Err(ErrorCode::SIZE);
            }
        },
        Err(error) => {
            return Err(error);
        },
    }
    let tagged = match mode {
        Mode::Ccm | Mode::Gcm => true,
        Mode::Cbc | Mode::Ctr | Mode::Ecb => false,
    };
    let mut associated_data: usize = 0;
    let mut tag: usize = 0;
    if tagged {
        match apps.readonly_buffer_len(processid, RO_ASSOCIATED_DATA) {
            Ok(len) => {
                associated_data = len;
            },
            Err(error) => {
                return Err(error);
            },
        }
        let tag_len = match operation {
            Operation::Encrypt => apps.readwrite_buffer_len(processid, RW_TAG),
            Operation::Decrypt => apps.readonly_buffer_len(processid, RO_TAG),
        };
        match tag_len {
            Ok(len) => {
                tag = len;
            },
            Err(error) => {
                return Err(error);
            },
        }
    }
    if let Err(error) = check_mode(apps, processid, mode, tag) {
        return Err(error);
    }
    Ok(Lengths { input, associated_data, tag })
}

/// The mutexes of the five modes.
pub struct ModeMutexes<CBC, CCM, CTR, ECB, GCM> {
    pub cbc: DriverMutex<CBC>,
    pub ccm: DriverMutex<CCM>,
    pub ctr: DriverMutex<CTR>,
    pub ecb: DriverMutex<ECB>,
    pub gcm: DriverMutex<GCM>,
}

/// The mutexes of the five modes, without what they guard.
#[verifier::ext_equal]
pub struct MutexViews {
    pub cbc: MutexView,
    pub ccm: MutexView,
    pub ctr: MutexView,
    pub ecb: MutexView,
    pub gcm: MutexView,
}

impl<CBC, CCM, CTR, ECB, GCM> View for ModeMutexes<CBC, CCM, CTR, ECB, GCM> {
    type V = MutexViews;

    open spec fn view(&self) -> MutexViews {
        MutexViews {
            cbc: self.cbc@,
            ccm: self.ccm@,
            ctr: self.ctr@,
            ecb: self.ecb@,
            gcm: self.gcm@,
        }
    }
}

impl<CBC, CCM, CTR, ECB, GCM> ModeMutexes<CBC, CCM, CTR, ECB, GCM> {
    /// Both guard the same.
    pub open spec fn guards_as(self, other: Self) -> bool {
        &&& self.cbc.guarded() == other.cbc.guarded()
        &&& self.ccm.guarded() == other.ccm.guarded()
        &&& self.ctr.guarded() == other.ctr.guarded()
        &&& self.ecb.guarded() == other.ecb.guarded()
        &&& self.gcm.guarded() == other.gcm.guarded()
    }
}

impl MutexViews {
    /// Each mutex keeps its invariant.
    pub open spec fn wf(self) -> bool {
        self.cbc.wf() && self.ccm.wf() && self.ctr.wf() && self.ecb.wf() && self.gcm.wf()
    }

    /// The mutex of a mode.
    pub open spec fn of(self, mode: Mode) -> MutexView {
        match mode {
            Mode::Cbc => self.cbc,
            Mode::Ccm => self.ccm,
            Mode::Ctr => self.ctr,
            Mode::Ecb => self.ecb,
            Mode::Gcm => self.gcm,
        }
    }

    /// The mutexes with another one for a mode.
    pub open spec fn with(self, mode: Mode, mutex: MutexView) -> MutexViews {
        match mode {
            Mode::Cbc => MutexViews { cbc: mutex, ..self },
            Mode::Ccm => MutexViews { ccm: mutex, ..self },
            Mode::Ctr => MutexViews { ctr: mutex, ..self },
            Mode::Ecb => MutexViews { ecb: mutex, ..self },
            Mode::Gcm => MutexViews { gcm: mutex, ..self },
        }
    }
}

/// A guard of one of the modes.
pub enum ModeGuard<CBC, CCM, CTR, ECB, GCM> {
    Cbc(DriverMutexRef<CBC>),
    Ccm(DriverMutexRef<CCM>),
    Ctr(DriverMutexRef<CTR>),
    Ecb(DriverMutexRef<ECB>),
    Gcm(DriverMutexRef<GCM>),
}

impl<CBC, CCM, CTR, ECB, GCM> View for ModeGuard<CBC, CCM, CTR, ECB, GCM> {
    type V = (Mode, usize);

    /// The mode, and the mutex that the guard is of.
    open spec fn view(&self) -> (Mode, usize) {
        match *self {
            ModeGuard::Cbc(guard) => (Mode::Cbc, guard.owner()),
            ModeGuard::Ccm(guard) => (Mode::Ccm, guard.owner()),
            ModeGuard::Ctr(guard) => (Mode::Ctr, guard.owner()),
            ModeGuard::Ecb(guard) => (Mode::Ecb, guard.owner()),
            ModeGuard::Gcm(guard) => (Mode::Gcm, guard.owner()),
        }
    }
}

/// What is to be asked of a mode, after this driver was made its client.
#[allow(inconsistent_fields)]
#[derive(Clone, Copy, Debug, PartialEq, Eq, Structural)]
pub enum ModeRequest {
    Cbc { len: usize, operation: Operation },
    Ccm {
        len: usize,
        associated_data_len: usize,
        tag_len: CcmTagLength,
        operation: Operation,
    },
    Ctr { len: usize, operation: Operation },
    Ecb { len: usize, operation: Operation },
    Gcm {
        len: usize,
        associated_data_len: usize,
        tag_len: GcmTagLength,
        operation: Operation,
    },
}

/// What comes of a mode that is ready.
pub enum Ready {
    /// Nothing was waited for; the guard is to be dropped.
    Ignored(DriverMutexAny),
    /// The guard is of another mode and is to be dropped; the operation has ended.
    Refused(DriverMutexAny),
    /// The operation has ended.
    Ended,
    /// The mode is to be started, and the driver told what comes of it.
    Start(ModeRequest),
}

/// Userspace AES-128 driver over independently mutexed cipher modes.
pub struct Aes128CipherDriver<CBC, CCM, CTR, ECB, GCM> {
    cbc_handle: Option<DriverMutexHandle>,
    ccm_handle: Option<DriverMutexHandle>,
    ctr_handle: Option<DriverMutexHandle>,
    ecb_handle: Option<DriverMutexHandle>,
    gcm_handle: Option<DriverMutexHandle>,
    held: Option<ModeGuard<CBC, CCM, CTR, ECB, GCM>>,
    dropped: Vec<ModeGuard<CBC, CCM, CTR, ECB, GCM>>,
    apps: Grant,
    state: State,
    operation: Operation,
    input_len: usize,
    associated_data_len: usize,
    tag_len: usize,
    input_offset: usize,
    associated_data_offset: usize,
    output_offset: usize,
    ccm_output_offset: usize,
    log: Ghost<Seq<Call>>,
}

/// Registrations with the five mutexes.
pub struct Handles {
    pub cbc: Option<DriverMutexHandle>,
    pub ccm: Option<DriverMutexHandle>,
    pub ctr: Option<DriverMutexHandle>,
    pub ecb: Option<DriverMutexHandle>,
    pub gcm: Option<DriverMutexHandle>,
}

impl Handles {
    /// The registration for a mode.
    pub open spec fn of(self, mode: Mode) -> Option<DriverMutexHandle> {
        match mode {
            Mode::Cbc => self.cbc,
            Mode::Ccm => self.ccm,
            Mode::Ctr => self.ctr,
            Mode::Ecb => self.ecb,
            Mode::Gcm => self.gcm,
        }
    }

    /// Registered with all.
    pub open spec fn all(self) -> bool {
        self.cbc is Some && self.ccm is Some && self.ctr is Some && self.ecb is Some
            && self.gcm is Some
    }

    /// No registrations.
    pub open spec fn empty() -> Handles {
        Handles { cbc: None, ccm: None, ctr: None, ecb: None, gcm: None }
    }

    /// Registered with none.
    pub open spec fn none(self) -> bool {
        self.cbc is None && self.ccm is None && self.ctr is None && self.ecb is None
            && self.gcm is None
    }

    /// Each mutex knows its registration.
    pub open spec fn admitted(self, mutexes: MutexViews) -> bool {
        &&& self.cbc matches Some(handle) ==> mutexes.cbc.admits(handle)
        &&& self.ccm matches Some(handle) ==> mutexes.ccm.admits(handle)
        &&& self.ctr matches Some(handle) ==> mutexes.ctr.admits(handle)
        &&& self.ecb matches Some(handle) ==> mutexes.ecb.admits(handle)
        &&& self.gcm matches Some(handle) ==> mutexes.gcm.admits(handle)
    }
}

/// What the driver is.
#[verifier::ext_equal]
pub struct AesView {
    pub handles: Handles,
    /// The guard of the mode that works for the driver.
    pub held: Option<(Mode, usize)>,
    /// The guards that are to be given back, oldest first.
    pub dropped: Seq<(Mode, usize)>,
    pub apps: GrantView,
    pub state: State,
    pub operation: Operation,
    pub lengths: Lengths,
    pub input_offset: usize,
    pub associated_data_offset: usize,
    pub output_offset: usize,
    pub ccm_output_offset: usize,
}

impl AesView {
    /// A driver that is idle and not registered yet.
    pub open spec fn fresh(apps: GrantView) -> AesView {
        AesView {
            handles: Handles::empty(),
            held: None,
            dropped: Seq::empty(),
            apps,
            state: State::Idle,
            operation: Operation::Encrypt,
            lengths: Lengths { input: 0, associated_data: 0, tag: 0 },
            input_offset: 0,
            associated_data_offset: 0,
            output_offset: 0,
            ccm_output_offset: 0,
        }
    }
}

/// The view of a guard, if there is one.
pub open spec fn guard_view<CBC, CCM, CTR, ECB, GCM>(
    guard: Option<ModeGuard<CBC, CCM, CTR, ECB, GCM>>,
) -> Option<(Mode, usize)> {
    match guard {
        Some(guard) => Some(guard@),
        None => None,
    }
}

/// The views of guards.
pub open spec fn guard_views<CBC, CCM, CTR, ECB, GCM>(
    guards: Seq<ModeGuard<CBC, CCM, CTR, ECB, GCM>>,
) -> Seq<(Mode, usize)> {
    guards.map_values(|guard: ModeGuard<CBC, CCM, CTR, ECB, GCM>| guard@)
}

impl<CBC, CCM, CTR, ECB, GCM> View for Aes128CipherDriver<CBC, CCM, CTR, ECB, GCM> {
    type V = AesView;

    closed spec fn view(&self) -> AesView {
        AesView {
            handles: Handles {
                cbc: self.cbc_handle,
                ccm: self.ccm_handle,
                ctr: self.ctr_handle,
                ecb: self.ecb_handle,
                gcm: self.gcm_handle,
            },
            held: guard_view(self.held),
            dropped: guard_views(self.dropped@),
            apps: self.apps@,
            state: self.state,
            operation: self.operation,
            lengths: Lengths {
                input: self.input_len,
                associated_data: self.associated_data_len,
                tag: self.tag_len,
            },
            input_offset: self.input_offset,
            associated_data_offset: self.associated_data_offset,
            output_offset: self.output_offset,
            ccm_output_offset: self.ccm_output_offset,
        }
    }
}

/// A number that stays at the largest one that can be held.
pub open spec fn clamped(n: int) -> usize {
    if n > usize::MAX {
        usize::MAX
    } else {
        n as usize
    }
}

impl AesView {
    /// The process that the driver works for; `RESERVE` if there is none.
    pub open spec fn processid(self) -> Result<usize, ErrorCode> {
        match self.state {
            State::Active { processid } => Ok(processid),
            _ => Err(ErrorCode::RESERVE),
        }
    }

    /// A buffer of that process, to be read.
    pub open spec fn source(self, number: usize) -> Result<Seq<u8>, ErrorCode> {
        match self.processid() {
            Err(error) => Err(error),
            Ok(processid) => self.apps.source(processid, number),
        }
    }

    /// A buffer of that process, to be written.
    pub open spec fn sink(self, number: usize) -> Result<Seq<u8>, ErrorCode> {
        match self.processid() {
            Err(error) => Err(error),
            Ok(processid) => self.apps.sink(processid, number),
        }
    }

    /// The contents of a buffer of exactly `len` bytes.
    pub open spec fn exact(self, number: usize, len: nat) -> Result<Seq<u8>, ErrorCode> {
        match self.source(number) {
            Ok(data) => if data.len() == len {
                Ok(data)
            } else {
                Err(ErrorCode::SIZE)
            },
            Err(error) => Err(error),
        }
    }

    /// The contents of a buffer of at most `len` bytes.
    pub open spec fn whole(self, number: usize, len: nat) -> Result<Seq<u8>, ErrorCode> {
        match self.source(number) {
            Ok(data) => if data.len() <= len {
                Ok(data)
            } else {
                Err(ErrorCode::SIZE)
            },
            Err(error) => Err(error),
        }
    }

    /// At most `len` bytes of a buffer from `offset` on; at least one.
    pub open spec fn part(self, number: usize, offset: nat, len: nat) -> Result<
        Seq<u8>,
        ErrorCode,
    > {
        grant::part_of(self.source(number), offset, len)
    }

    /// What comes of writing to a buffer from `offset` on.
    pub open spec fn write_result(self, number: usize, offset: nat, len: nat) -> Result<
        (),
        ErrorCode,
    > {
        grant::room_for(self.sink(number), offset, len)
    }

    /// The driver after a buffer was written to from `offset` on, where it could be.
    pub open spec fn written(self, number: usize, offset: nat, data: Seq<u8>) -> AesView {
        match self.processid() {
            Ok(processid) => AesView {
                apps: self.apps.written(processid, number, offset, data),
                ..self
            },
            Err(_) => self,
        }
    }

    /// What the buffer that holds the byte at `offset` of payload and tag has from there on, at most
    /// `len` bytes.
    pub open spec fn stream_part(self, offset: nat, len: nat) -> Result<Seq<u8>, ErrorCode> {
        let payload = self.lengths.input as nat;
        if offset < payload {
            self.part(RO_INPUT, offset, bytes::least((payload - offset) as nat, len))
        } else {
            self.part(RO_TAG, (offset - payload) as nat, len)
        }
    }

    /// The input of CCM: the payload and, for decryption, the tag behind it. At most `len` bytes of
    /// it from `offset` on.
    pub open spec fn stream(self, offset: nat, len: nat) -> Result<Seq<u8>, ErrorCode>
        decreases len,
    {
        if len == 0 || offset >= self.lengths.input + self.lengths.tag {
            Ok(Seq::empty())
        } else {
            match self.stream_part(offset, len) {
                Err(error) => Err(error),
                Ok(data) => if 0 < data.len() <= len {
                    match self.stream(offset + data.len(), (len - data.len()) as nat) {
                        Err(error) => Err(error),
                        Ok(rest) => Ok(data + rest),
                    }
                } else {
                    Err(ErrorCode::SIZE)
                },
            }
        }
    }

    /// What a request for `len` bytes of input of CCM delivers.
    pub open spec fn ccm_input(self, len: nat) -> Result<Seq<u8>, ErrorCode> {
        if self.operation is Encrypt {
            self.part(RO_INPUT, self.input_offset as nat, len)
        } else if self.lengths.input + self.lengths.tag > usize::MAX {
            Err(ErrorCode::SIZE)
        } else {
            match self.stream(self.input_offset as nat, len) {
                Err(error) => Err(error),
                Ok(data) => if data.len() == 0 || self.input_offset + data.len() > usize::MAX {
                    Err(ErrorCode::SIZE)
                } else {
                    Ok(data)
                },
            }
        }
    }

    /// The driver after output came, and what comes of it.
    pub open spec fn output(self, data: Seq<u8>) -> (AesView, Result<(), ErrorCode>) {
        let offset = self.output_offset as nat;
        let result = self.write_result(RW_OUTPUT, offset, data.len());
        if result is Ok {
            (
                AesView {
                    output_offset: (offset + data.len()) as usize,
                    ..self.written(RW_OUTPUT, offset, data)
                },
                result,
            )
        } else {
            (self, result)
        }
    }

    /// How many bytes of output of CCM still belong to the payload.
    pub open spec fn payload_room(self, len: nat) -> nat {
        if self.ccm_output_offset < self.lengths.input {
            bytes::least((self.lengths.input - self.ccm_output_offset) as nat, len)
        } else {
            0
        }
    }

    /// The driver after the part of output of CCM that belongs to the payload was written.
    pub open spec fn payload_written(self, data: Seq<u8>) -> AesView {
        AesView {
            output_offset: clamped(self.output_offset + data.len()),
            ..self.written(RW_OUTPUT, self.ccm_output_offset as nat, data)
        }
    }

    /// The driver after output of CCM came, and what comes of it: for encryption the payload goes to
    /// the output and what is behind it to the tag.
    pub open spec fn ccm_output(self, data: Seq<u8>) -> (AesView, Result<(), ErrorCode>) {
        if self.operation is Decrypt {
            self.output(data)
        } else {
            let room = self.payload_room(data.len());
            let offset = self.ccm_output_offset as nat;
            let first = self.write_result(RW_OUTPUT, offset, room);
            if room > 0 && first is Err {
                (self, first)
            } else {
                let after = if room > 0 {
                    self.payload_written(data.take(room as int))
                } else {
                    self
                };
                let ended = clamped((offset + data.len()) as int);
                if room == data.len() {
                    (AesView { ccm_output_offset: ended, ..after }, Ok(()))
                } else {
                    let behind = (offset + room - self.lengths.input) as nat;
                    let tag = data.skip(room as int);
                    let second = after.write_result(RW_TAG, behind, tag.len());
                    if second is Err {
                        (after, second)
                    } else {
                        (
                            AesView {
                                ccm_output_offset: ended,
                                ..after.written(RW_TAG, behind, tag)
                            },
                            Ok(()),
                        )
                    }
                }
            }
        }
    }

    /// The driver after its operation has ended: the guard is to be given back, and the process that
    /// it worked for, if there is one, is told the status and how much output it has got.
    pub open spec fn finished(self, result: Result<(), ErrorCode>) -> AesView {
        let ended = AesView {
            state: State::Idle,
            held: None,
            dropped: match self.held {
                Some(guard) => self.dropped.push(guard),
                None => self.dropped,
            },
            ..self
        };
        let upcall = Upcall {
            number: UPCALL_DONE,
            status: result,
            arg1: self.output_offset,
            arg2: 0,
        };
        match self.state {
            State::Idle => ended,
            State::Waiting { processid, .. } => AesView {
                apps: self.apps.scheduled(processid, upcall),
                ..ended
            },
            State::Active { processid } => AesView {
                apps: self.apps.scheduled(processid, upcall),
                ..ended
            },
        }
    }

    /// What a request of a process comes back with.
    pub open spec fn start_result(
        self,
        processid: usize,
        mode_value: usize,
        operation_value: usize,
        mutexes: MutexViews,
    ) -> Result<(), ErrorCode> {
        if !(self.state is Idle) {
            Err(ErrorCode::BUSY)
        } else if !self.handles.all() {
            Err(ErrorCode::OFF)
        } else {
            match (mode_of(mode_value), operation_of(operation_value)) {
                (Err(error), _) => Err(error),
                (_, Err(error)) => Err(error),
                (Ok(mode), Ok(operation)) => match lengths_of(
                    self.apps,
                    processid,
                    mode,
                    operation,
                ) {
                    Err(error) => Err(error),
                    Ok(_) => mutexes.of(mode).request_result(self.handles.of(mode)->0),
                },
            }
        }
    }

    /// The driver with an operation of a process begun.
    pub open spec fn begun(self, processid: usize, mode: Mode, operation: Operation) -> AesView {
        AesView {
            operation,
            lengths: lengths_of(self.apps, processid, mode, operation)->Ok_0,
            input_offset: 0,
            associated_data_offset: 0,
            output_offset: 0,
            ccm_output_offset: 0,
            state: State::Waiting { processid, mode },
            ..self
        }
    }

    /// The driver after it has refused a request of a process: operation, lengths and offsets are
    /// those of the request once its buffers were found right, and nothing else changes.
    pub open spec fn refused(
        self,
        processid: usize,
        mode_value: usize,
        operation_value: usize,
    ) -> AesView {
        match (mode_of(mode_value), operation_of(operation_value)) {
            (Ok(mode), Ok(operation)) => if self.state is Idle && self.handles.all() && lengths_of(
                self.apps,
                processid,
                mode,
                operation,
            ) is Ok {
                AesView { state: State::Idle, ..self.begun(processid, mode, operation) }
            } else {
                self
            },
            _ => self,
        }
    }

    /// What is asked of the mode for the operation; `None` if its tag has no proper length.
    pub open spec fn request(self, mode: Mode, request: Option<ModeRequest>) -> bool {
        let len = self.lengths.input;
        let operation = self.operation;
        match mode {
            Mode::Cbc => request == Some(ModeRequest::Cbc { len, operation }),
            Mode::Ctr => request == Some(ModeRequest::Ctr { len, operation }),
            Mode::Ecb => request == Some(ModeRequest::Ecb { len, operation }),
            Mode::Ccm => match request {
                None => !is_ccm_tag_len(self.lengths.tag),
                Some(ModeRequest::Ccm { len: asked, associated_data_len, tag_len, operation: what }) => {
                    &&& asked == len
                    &&& associated_data_len == self.lengths.associated_data
                    &&& tag_len.bits() == 8 * self.lengths.tag
                    &&& what == operation
                },
                _ => false,
            },
            Mode::Gcm => match request {
                None => !is_gcm_tag_len(self.lengths.tag),
                Some(ModeRequest::Gcm { len: asked, associated_data_len, tag_len, operation: what }) => {
                    &&& asked == len
                    &&& associated_data_len == self.lengths.associated_data
                    &&& tag_len.bits() == 8 * self.lengths.tag
                    &&& what == operation
                },
                _ => false,
            },
        }
    }
}

/// One more part of payload and tag.
proof fn lemma_stream_step(
    driver: AesView,
    start: nat,
    len: nat,
    offset: nat,
    got: Seq<u8>,
    data: Seq<u8>,
)
    requires
        got.len() < len,
        offset < driver.lengths.input + driver.lengths.tag,
        driver.stream_part(offset, (len - got.len()) as nat) == Ok::<Seq<u8>, ErrorCode>(data),
        0 < data.len() <= len - got.len(),
        match driver.stream(offset, (len - got.len()) as nat) {
            Ok(rest) => driver.stream(start, len) == Ok::<Seq<u8>, ErrorCode>(got + rest),
            Err(error) => driver.stream(start, len) == Err::<Seq<u8>, ErrorCode>(error),
        },
    ensures
        match driver.stream(offset + data.len(), (len - got.len() - data.len()) as nat) {
            Ok(rest) => driver.stream(start, len) == Ok::<Seq<u8>, ErrorCode>(
                (got + data) + rest,
            ),
            Err(error) => driver.stream(start, len) == Err::<Seq<u8>, ErrorCode>(error),
        },
{
    if let Ok(rest) = driver.stream(offset + data.len(), (len - got.len() - data.len()) as nat) {
        assert(got + (data + rest) =~= (got + data) + rest);
    }
}

impl<CBC, CCM, CTR, ECB, GCM> Observed for Aes128CipherDriver<CBC, CCM, CTR, ECB, GCM> {
    closed spec fn log(&self) -> Seq<Call> {
        self.log@
    }

    /// Only an active driver holds a guard.
    open spec fn valid(&self) -> bool {
        self@.held is Some ==> self@.state is Active
    }
}

impl<CBC, CCM, CTR, ECB, GCM> Aes128CipherDriver<CBC, CCM, CTR, ECB, GCM> {
    fn active_processid(&self) -> (processid: Result<usize, ErrorCode>)
        ensures
            processid == self@.processid(),
    {
        match self.state {
            State::Active { processid } => Ok(processid),
            State::Idle | State::Waiting { .. } => Err(ErrorCode::RESERVE),
        }
    }

    fn source(&self, allow_number: usize) -> (buffer: Result<&Vec<u8>, ErrorCode>)
        ensures
            match buffer {
                Ok(data) => self@.source(allow_number) == Ok::<Seq<u8>, ErrorCode>(data@),
                Err(error) => self@.source(allow_number) == Err::<Seq<u8>, ErrorCode>(error),
            },
    {
        let processid = match self.active_processid() {
            Ok(processid) => processid,
            Err(error) => {
                return Err(error);
            },
        };
        match self.apps.get_readonly_processbuffer(processid, allow_number) {
            Ok(buffer) => Ok(buffer),
            Err(AccessError::Grant(error)) => Err(error),
            Err(AccessError::Buffer(_)) => Err(ErrorCode::RESERVE),
        }
    }

    fn read_exact(&self, allow_number: usize, destination: &mut [u8]) -> (result: Result<
        (),
        ErrorCode,
    >)
        ensures
            match self@.exact(allow_number, old(destination)@.len()) {
                Ok(data) => result is Ok && final(destination)@ == data,
                Err(error) => result == Err::<(), ErrorCode>(error) && final(destination)@ == old(
                    destination,
                )@,
            },
    {
        let len: usize = destination.len();
        let source = match self.source(allow_number) {
            Ok(source) => source,
            Err(error) => {
                return Err(error);
            },
        };
        if source.len() != len {
            return Err(ErrorCode::SIZE);
        }
        bytes::copy_into(destination, 0, source.as_slice());
        assert(destination@ =~= source@);
        Ok(())
    }

    fn read_buffer(&self, allow_number: usize, destination: &mut [u8]) -> (count: Result<
        usize,
        ErrorCode,
    >)
        ensures
            match self@.whole(allow_number, old(destination)@.len()) {
                Ok(data) => {
                    &&& count is Ok
                    &&& count->Ok_0 == data.len()
                    &&& final(destination)@ == grant::overwritten(old(destination)@, 0, data)
                },
                Err(error) => count == Err::<usize, ErrorCode>(error) && final(destination)@
                    == old(destination)@,
            },
    {
        let ghost given = destination@;
        let len: usize = destination.len();
        let source = match self.source(allow_number) {
            Ok(source) => source,
            Err(error) => {
                return Err(error);
            },
        };
        if source.len() > len {
            return Err(ErrorCode::SIZE);
        }
        bytes::copy_into(destination, 0, source.as_slice());
        assert(destination@ =~= grant::overwritten(given, 0, source@));
        Ok(source.len())
    }

    /// Reads to the part of `destination` from `start` to `end`.
    fn read_at(
        &self,
        allow_number: usize,
        offset: usize,
        destination: &mut [u8],
        start: usize,
        end: usize,
    ) -> (count: Result<usize, ErrorCode>)
        requires
            start <= end <= old(destination)@.len(),
        ensures
            final(destination)@.len() == old(destination)@.len(),
            match self@.part(allow_number, offset as nat, (end - start) as nat) {
                Ok(data) => {
                    &&& count is Ok
                    &&& 0 < count->Ok_0 <= end - start
                    &&& count->Ok_0 == data.len()
                    &&& final(destination)@ == grant::overwritten(
                        old(destination)@,
                        start as int,
                        data,
                    )
                    &&& offset + data.len() <= usize::MAX
                },
                Err(error) => count == Err::<usize, ErrorCode>(error) && final(destination)@
                    == old(destination)@,
            },
    {
        match self.active_processid() {
            Ok(processid) => self.apps.read_at(
                processid,
                allow_number,
                offset,
                destination,
                start,
                end,
            ),
            Err(error) => Err(error),
        }
    }

    fn write_at(&mut self, allow_number: usize, offset: usize, source: &[u8]) -> (result: Result<
        (),
        ErrorCode,
    >)
        ensures
            final(self).log() == old(self).log(),
            old(self)@.write_result(allow_number, offset as nat, source@.len()) is Ok <==> result
                is Ok,
            result matches Err(error) ==> old(self)@.write_result(
                allow_number,
                offset as nat,
                source@.len(),
            ) == Err::<(), ErrorCode>(error),
            final(self)@ == old(self)@.written(allow_number, offset as nat, source@),
            result is Ok ==> offset + source@.len() <= usize::MAX,
    {
        match self.active_processid() {
            Ok(processid) => self.apps.write_at(processid, allow_number, offset, source),
            Err(error) => Err(error),
        }
    }

    fn take_input(&mut self, destination: &mut [u8]) -> (count: Result<usize, ErrorCode>)
        ensures
            final(self).log() == old(self).log(),
            final(destination)@.len() == old(destination)@.len(),
            match old(self)@.part(
                RO_INPUT,
                old(self)@.input_offset as nat,
                old(destination)@.len(),
            ) {
                Ok(data) => {
                    &&& count is Ok
                    &&& count->Ok_0 == data.len()
                    &&& final(destination)@ == grant::overwritten(old(destination)@, 0, data)
                    &&& final(self)@ == (AesView {
                        input_offset: (old(self)@.input_offset + data.len()) as usize,
                        ..old(self)@
                    })
                },
                Err(error) => {
                    &&& count == Err::<usize, ErrorCode>(error)
                    &&& final(destination)@ == old(destination)@
                    &&& final(self)@ == old(self)@
                },
            },
    {
        let len: usize = destination.len();
        let offset: usize = self.input_offset;
        match self.read_at(RO_INPUT, offset, destination, 0, len) {
            Ok(read) => {
                self.input_offset = offset + read;
                Ok(read)
            },
            Err(error) => Err(error),
        }
    }

    fn take_associated_data(&mut self, destination: &mut [u8]) -> (count: Result<
        usize,
        ErrorCode,
    >)
        ensures
            final(self).log() == old(self).log(),
            final(destination)@.len() == old(destination)@.len(),
            match old(self)@.part(
                RO_ASSOCIATED_DATA,
                old(self)@.associated_data_offset as nat,
                old(destination)@.len(),
            ) {
                Ok(data) => {
                    &&& count is Ok
                    &&& count->Ok_0 == data.len()
                    &&& final(destination)@ == grant::overwritten(old(destination)@, 0, data)
                    &&& final(self)@ == (AesView {
                        associated_data_offset: (old(self)@.associated_data_offset
                            + data.len()) as usize,
                        ..old(self)@
                    })
                },
                Err(error) => {
                    &&& count == Err::<usize, ErrorCode>(error)
                    &&& final(destination)@ == old(destination)@
                    &&& final(self)@ == old(self)@
                },
            },
    {
        let len: usize = destination.len();
        let offset: usize = self.associated_data_offset;
        match self.read_at(RO_ASSOCIATED_DATA, offset, destination, 0, len) {
            Ok(read) => {
                self.associated_data_offset = offset + read;
                Ok(read)
            },
            Err(error) => Err(error),
        }
    }

    /// Reads from payload or tag, whichever holds the byte at `stream_offset` of both, to the rest of
    /// `destination` from `written` on.
    fn read_stream(&self, stream_offset: usize, destination: &mut [u8], written: usize) -> (count:
        Result<usize, ErrorCode>)
        requires
            written < old(destination)@.len(),
        ensures
            final(destination)@.len() == old(destination)@.len(),
            match self@.stream_part(
                stream_offset as nat,
                (old(destination)@.len() - written) as nat,
            ) {
                Ok(data) => {
                    &&& count is Ok
                    &&& 0 < count->Ok_0 <= old(destination)@.len() - written
                    &&& count->Ok_0 == data.len()
                    &&& final(destination)@ == grant::overwritten(
                        old(destination)@,
                        written as int,
                        data,
                    )
                },
                Err(error) => count == Err::<usize, ErrorCode>(error) && final(destination)@
                    == old(destination)@,
            },
    {
        let len: usize = destination.len();
        let payload_len: usize = self.input_len;
        if stream_offset < payload_len {
            let available: usize = payload_len - stream_offset;
            let read_len: usize = if available < len - written {
                available
            } else {
                len - written
            };
            self.read_at(RO_INPUT, stream_offset, destination, written, written + read_len)
        } else {
            self.read_at(RO_TAG, stream_offset - payload_len, destination, written, len)
        }
    }

    /// Reads the next piece of input of CCM: of the payload and, for decryption, of the tag behind
    /// it.
    pub fn read_ccm_input(&mut self, destination: &mut [u8]) -> (count: Result<usize, ErrorCode>)
        ensures
            final(self).log() == old(self).log(),
            final(destination)@.len() == old(destination)@.len(),
            match old(self)@.ccm_input(old(destination)@.len()) {
                Ok(data) => {
                    &&& count is Ok
                    &&& count->Ok_0 == data.len()
                    &&& final(destination)@ == grant::overwritten(old(destination)@, 0, data)
                    &&& final(self)@ == (AesView {
                        input_offset: (old(self)@.input_offset + data.len()) as usize,
                        ..old(self)@
                    })
                },
                Err(error) => {
                    &&& count == Err::<usize, ErrorCode>(error)
                    &&& final(self)@ == old(self)@
                },
            },
            old(self)@.operation is Decrypt && aes_laws::inputs_kept(old(self)@) ==> ({
                let all = old(self)@.source(RO_INPUT)->Ok_0 + old(self)@.source(RO_TAG)->Ok_0;
                let start = old(self)@.input_offset as int;
                if old(destination)@.len() > 0 && start < all.len() && all.len() <= usize::MAX {
                    &&& count is Ok
                    &&& count->Ok_0 == bytes::least(
                        (all.len() - start) as nat,
                        old(destination)@.len(),
                    )
                    &&& final(destination)@.take(count->Ok_0 as int) == all.subrange(
                        start,
                        start + count->Ok_0,
                    )
                } else {
                    count == Err::<usize, ErrorCode>(ErrorCode::SIZE)
                }
            }),
    {
        let ghost before = self@;
        let ghost given = destination@;
        let count = self.take_ccm_input(destination);
        proof {
            if before.operation is Decrypt && aes_laws::inputs_kept(before) {
                aes_laws::law_ccm_reads_payload_then_tag(
                    before,
                    before.input_offset as nat,
                    given.len(),
                );
                if let Ok(data) = before.ccm_input(given.len()) {
                    assert(grant::overwritten(given, 0, data).take(data.len() as int) =~= data);
                }
            }
        }
        count
    }

    fn take_ccm_input(&mut self, destination: &mut [u8]) -> (count: Result<usize, ErrorCode>)
        ensures
            final(self).log() == old(self).log(),
            final(destination)@.len() == old(destination)@.len(),
            match old(self)@.ccm_input(old(destination)@.len()) {
                Ok(data) => {
                    &&& count is Ok
                    &&& count->Ok_0 == data.len()
                    &&& final(destination)@ == grant::overwritten(old(destination)@, 0, data)
                    &&& final(self)@ == (AesView {
                        input_offset: (old(self)@.input_offset + data.len()) as usize,
                        ..old(self)@
                    })
                },
                Err(error) => {
                    &&& count == Err::<usize, ErrorCode>(error)
                    &&& final(self)@ == old(self)@
                },
            },
    {
        if self.operation == Operation::Encrypt {
            return self.take_input(destination);
        }
        let ghost before = self@;
        let ghost given = destination@;
        let len: usize = destination.len();
        let payload_len: usize = self.input_len;
        if self.tag_len > usize::MAX - payload_len {
            return Err(ErrorCode::SIZE);
        }
        let total_len: usize = payload_len + self.tag_len;
        let start_offset: usize = self.input_offset;
        let mut stream_offset: usize = start_offset;
        let mut written: usize = 0;
        let ghost mut got: Seq<u8> = Seq::empty();
        proof {
            assert(grant::overwritten(given, 0, got) =~= given);
            if let Ok(rest) = before.stream(start_offset as nat, len as nat) {
                assert(got + rest =~= rest);
            }
        }
        while written < len && stream_offset < total_len
            invariant
                written <= len,
                len == destination@.len(),
                len == given.len(),
                given == old(destination)@,
                self@ == before,
                before == old(self)@,
                before.operation is Decrypt,
                self.log() == old(self).log(),
                payload_len == before.lengths.input,
                total_len == payload_len + before.lengths.tag,
                start_offset == before.input_offset,
                stream_offset == start_offset + written,
                got.len() == written,
                destination@ == grant::overwritten(given, 0, got),
                match before.stream(stream_offset as nat, (len - written) as nat) {
                    Ok(rest) => before.stream(start_offset as nat, len as nat) == Ok::<
                        Seq<u8>,
                        ErrorCode,
                    >(got + rest),
                    Err(error) => before.stream(start_offset as nat, len as nat) == Err::<
                        Seq<u8>,
                        ErrorCode,
                    >(error),
                },
            decreases len - written,
        {
            let read = self.read_stream(stream_offset, destination, written);
            match read {
                Err(error) => {
                    return Err(error);
                },
                Ok(read) => {
                    proof {
                        let data = before.stream_part(
                            stream_offset as nat,
                            (len - written) as nat,
                        )->Ok_0;
                        lemma_stream_step(
                            before,
                            start_offset as nat,
                            len as nat,
                            stream_offset as nat,
                            got,
                            data,
                        );
                        grant::lemma_overwritten_twice(given, got, data);
                        got = got + data;
                    }
                    if read > usize::MAX - stream_offset {
                        assert(got + Seq::<u8>::empty() =~= got);
                        return Err(ErrorCode::SIZE);
                    }
                    written = written + read;
                    stream_offset = stream_offset + read;
                },
            }
        }
        proof {
            assert(before.stream(stream_offset as nat, (len - written) as nat) == Ok::<
                Seq<u8>,
                ErrorCode,
            >(Seq::empty()));
            assert(got + Seq::<u8>::empty() =~= got);
        }
        if written == 0 {
            return Err(ErrorCode::SIZE);
        }
        self.input_offset = stream_offset;
        Ok(written)
    }

    fn put_output(&mut self, source: &[u8]) -> (result: Result<(), ErrorCode>)
        ensures
            final(self).log() == old(self).log(),
            final(self)@ == old(self)@.output(source@).0,
            grant::same_result(result, old(self)@.output(source@).1),
    {
        let offset: usize = self.output_offset;
        let result = self.write_at(RW_OUTPUT, offset, source);
        if result.is_ok() {
            self.output_offset = offset + source.len();
        }
        result
    }

    fn write_ccm_output(&mut self, source: &[u8]) -> (result: Result<(), ErrorCode>)
        ensures
            final(self).log() == old(self).log(),
            final(self)@ == old(self)@.ccm_output(source@).0,
            grant::same_result(result, old(self)@.ccm_output(source@).1),
    {
        if self.operation == Operation::Decrypt {
            return self.put_output(source);
        }
        let ghost before = self@;
        let len: usize = source.len();
        let payload_len: usize = self.input_len;
        let stream_offset: usize = self.ccm_output_offset;
        let mut room: usize = 0;
        if stream_offset < payload_len {
            room = if payload_len - stream_offset < len {
                payload_len - stream_offset
            } else {
                len
            };
        }
        if room > 0 {
            let payload: &[u8] = vstd::slice::slice_subrange(source, 0, room);
            assert(payload@ =~= source@.take(room as int));
            let result = self.write_at(RW_OUTPUT, stream_offset, payload);
            if result.is_err() {
                return result;
            }
            self.output_offset = if room > usize::MAX - self.output_offset {
                usize::MAX
            } else {
                self.output_offset + room
            };
        }
        if room < len {
            let behind: usize = stream_offset + room - payload_len;
            let tag: &[u8] = vstd::slice::slice_subrange(source, room, len);
            assert(tag@ =~= source@.skip(room as int));
            let result = self.write_at(RW_TAG, behind, tag);
            if result.is_err() {
                return result;
            }
        }
        self.ccm_output_offset = if len > usize::MAX - stream_offset {
            usize::MAX
        } else {
            stream_offset + len
        };
        Ok(())
    }

    /// Ends the operation: the guard is to be given back, and the process is told.
    fn finish(&mut self, result: Result<(), ErrorCode>)
        ensures
            final(self).valid(),
            final(self).log() == old(self).log(),
            final(self)@ == old(self)@.finished(result),
    {
        let ghost before = self@;
        let state = self.state;
        self.state = State::Idle;
        if let Some(guard) = self.held.take() {
            self.dropped.push(guard);
            assert(guard_views(self.dropped@) =~= before.dropped.push(guard@));
        }
        let processid: usize = match state {
            State::Waiting { processid, .. } => processid,
            State::Active { processid } => processid,
            State::Idle => {
                return ;
            },
        };
        let upcall = Upcall {
            number: UPCALL_DONE,
            status: result,
            arg1: self.output_offset,
            arg2: 0,
        };
        self.apps.schedule_upcall(processid, upcall);
    }

    /// Create an AES-128 syscall driver, which is not registered with the mutexes yet.
    pub fn new(apps: Grant) -> (driver: Self)
        ensures
            driver.valid(),
            driver.log() == Seq::<Call>::empty(),
            driver@ == AesView::fresh(apps@),
    {
        let driver = Aes128CipherDriver {
            cbc_handle: None,
            ccm_handle: None,
            ctr_handle: None,
            ecb_handle: None,
            gcm_handle: None,
            held: None,
            dropped: Vec::new(),
            apps,
            state: State::Idle,
            operation: Operation::Encrypt,
            input_len: 0,
            associated_data_len: 0,
            tag_len: 0,
            input_offset: 0,
            associated_data_offset: 0,
            output_offset: 0,
            ccm_output_offset: 0,
            log: Ghost(Seq::empty()),
        };
        assert(guard_views(driver.dropped@) =~= Seq::<(Mode, usize)>::empty());
        driver
    }

    /// What the processes share with the driver.
    pub fn apps(&self) -> (apps: &Grant)
        ensures
            apps@ == self@.apps,
    {
        &self.apps
    }

    /// Lets the processes change what they share with the driver.
    pub fn apps_mut(&mut self) -> (apps: &mut Grant)
        ensures
            apps@ == old(self)@.apps,
            final(self)@ == (AesView { apps: final(apps)@, ..old(self)@ }),
            final(self).log() == old(self).log(),
    {
        &mut self.apps
    }

    /// The guard of the mode that works for the driver.
    pub fn guard(&self) -> (guard: Option<&ModeGuard<CBC, CCM, CTR, ECB, GCM>>)
        ensures
            match guard {
                Some(guard) => self@.held == Some(guard@),
                None => self@.held is None,
            },
    {
        self.held.as_ref()
    }

    /// Takes a guard that is to be given back to its mutex.
    pub fn take_dropped(&mut self) -> (guard: Option<ModeGuard<CBC, CCM, CTR, ECB, GCM>>)
        requires
            old(self).valid(),
        ensures
            final(self).valid(),
            final(self).log() == old(self).log(),
            match guard {
                Some(guard) => {
                    &&& old(self)@.dropped.len() > 0
                    &&& guard@ == old(self)@.dropped[0]
                    &&& final(self)@ == (AesView {
                        dropped: old(self)@.dropped.drop_first(),
                        ..old(self)@
                    })
                },
                None => old(self)@.dropped.len() == 0 && final(self)@ == old(self)@,
            },
    {
        if self.dropped.len() == 0 {
            return None;
        }
        let ghost before = self.dropped@;
        let guard = self.dropped.remove(0);
        assert(guard_views(self.dropped@) =~= guard_views(before).drop_first());
        Some(guard)
    }

    /// Register this driver, under the number `client`, as a client of all five mode mutexes.
    pub fn register(
        &mut self,
        mutexes: &mut ModeMutexes<CBC, CCM, CTR, ECB, GCM>,
        client: usize,
    ) -> (result: Result<(), ErrorCode>)
        requires
            old(self).valid(),
            old(mutexes)@.wf(),
        ensures
            final(self).valid(),
            final(self).log() == old(self).log(),
            final(mutexes)@.wf(),
            final(mutexes).guards_as(*old(mutexes)),
            final(self)@ == (AesView { handles: final(self)@.handles, ..old(self)@ }),
            registered(
                old(self)@.handles,
                final(self)@.handles,
                old(mutexes)@,
                final(mutexes)@,
                client,
                result,
            ),
    {
        if self.cbc_handle.is_some() || self.ccm_handle.is_some() || self.ctr_handle.is_some()
            || self.ecb_handle.is_some() || self.gcm_handle.is_some() {
            return Err(ErrorCode::ALREADY);
        }
        let cbc_handle = match mutexes.cbc.add_client(client) {
            Some(handle) => handle,
            None => {
                return Err(ErrorCode::NOMEM);
            },
        };
        let ccm_handle = match mutexes.ccm.add_client(client) {
            Some(handle) => handle,
            None => {
                return Err(ErrorCode::NOMEM);
            },
        };
        let ctr_handle = match mutexes.ctr.add_client(client) {
            Some(handle) => handle,
            None => {
                return Err(ErrorCode::NOMEM);
            },
        };
        let ecb_handle = match mutexes.ecb.add_client(client) {
            Some(handle) => handle,
            None => {
                return Err(ErrorCode::NOMEM);
            },
        };
        let gcm_handle = match mutexes.gcm.add_client(client) {
            Some(handle) => handle,
            None => {
                return Err(ErrorCode::NOMEM);
            },
        };
        self.cbc_handle = Some(cbc_handle);
        self.ccm_handle = Some(ccm_handle);
        self.ctr_handle = Some(ctr_handle);
        self.ecb_handle = Some(ecb_handle);
        self.gcm_handle = Some(gcm_handle);
        Ok(())
    }

    /// Begins an operation on the buffers of a process: checks mode, operation and buffers, and
    /// requests the mode.
    ///
    /// Returns `BUSY` while an operation is in progress, `OFF` if the driver is not registered,
    /// `INVAL` or `SIZE` where a value or a buffer does not fit, the error of a buffer that cannot
    /// be reached, and else what the mutex answers.
    pub fn start_operation(
        &mut self,
        processid: usize,
        mode_value: usize,
        operation_value: usize,
        mutexes: &mut ModeMutexes<CBC, CCM, CTR, ECB, GCM>,
    ) -> (result: Result<(), ErrorCode>)
        requires
            old(self).valid(),
            old(mutexes)@.wf(),
            old(self)@.handles.admitted(old(mutexes)@),
        ensures
            final(self).valid(),
            final(self).log() == old(self).log(),
            final(mutexes)@.wf(),
            final(mutexes).guards_as(*old(mutexes)),
            result == old(self)@.start_result(
                processid,
                mode_value,
                operation_value,
                old(mutexes)@,
            ),
            result is Ok ==> ({
                let mode = mode_of(mode_value)->Ok_0;
                let operation = operation_of(operation_value)->Ok_0;
                let handle = old(self)@.handles.of(mode)->0;
                &&& final(self)@ == old(self)@.begun(processid, mode, operation)
                &&& final(mutexes)@ == old(mutexes)@.with(
                    mode,
                    old(mutexes)@.of(mode).requested(handle),
                )
            }),
            result is Err ==> {
                &&& final(self)@ == old(self)@.refused(processid, mode_value, operation_value)
                &&& final(mutexes)@ == old(mutexes)@
            },
    {
        if self.state != State::Idle {
            return Err(ErrorCode::BUSY);
        }
        if self.cbc_handle.is_none() || self.ccm_handle.is_none() || self.ctr_handle.is_none()
            || self.ecb_handle.is_none() || self.gcm_handle.is_none() {
            return Err(ErrorCode::OFF);
        }
        let mode = match parse_mode(mode_value) {
            Ok(mode) => mode,
            Err(error) => {
                return Err(error);
            },
        };
        let operation = match parse_operation(operation_value) {
            Ok(operation) => operation,
            Err(error) => {
                return Err(error);
            },
        };
        let lengths = match check_buffers(&self.apps, processid, mode, operation) {
            Ok(lengths) => lengths,
            Err(error) => {
                return Err(error);
            },
        };
        self.operation = operation;
        self.input_len = lengths.input;
        self.associated_data_len = lengths.associated_data;
        self.tag_len = lengths.tag;
        self.input_offset = 0;
        self.associated_data_offset = 0;
        self.output_offset = 0;
        self.ccm_output_offset = 0;
        self.state = State::Waiting { processid, mode };
        let result = self.request_mode(mode, mutexes);
        if result.is_err() {
            self.state = State::Idle;
        }
        result
    }

    /// Requests a mode from its mutex.
    fn request_mode(&self, mode: Mode, mutexes: &mut ModeMutexes<CBC, CCM, CTR, ECB, GCM>) -> (
    result: Result<(), ErrorCode>)
        requires
            old(mutexes)@.wf(),
            self@.handles.admitted(old(mutexes)@),
            self@.handles.all(),
        ensures
            final(mutexes)@.wf(),
            final(mutexes).guards_as(*old(mutexes)),
            result == old(mutexes)@.of(mode).request_result(self@.handles.of(mode)->0),
            final(mutexes)@ == old(mutexes)@.with(
                mode,
                old(mutexes)@.of(mode).requested(self@.handles.of(mode)->0),
            ),
    {
        match mode {
            Mode::Cbc => match self.cbc_handle {
                Some(handle) => mutexes.cbc.request(handle),
                None => Err(ErrorCode::OFF),
            },
            Mode::Ccm => match self.ccm_handle {
                Some(handle) => mutexes.ccm.request(handle),
                None => Err(ErrorCode::OFF),
            },
            Mode::Ctr => match self.ctr_handle {
                Some(handle) => mutexes.ctr.request(handle),
                None => Err(ErrorCode::OFF),
            },
            Mode::Ecb => match self.ecb_handle {
                Some(handle) => mutexes.ecb.request(handle),
                None => Err(ErrorCode::OFF),
            },
            Mode::Gcm => match self.gcm_handle {
                Some(handle) => mutexes.gcm.request(handle),
                None => Err(ErrorCode::OFF),
            },
        }
    }

    /// Tells the driver what came of starting the mode. An operation that could not be started has
    /// ended.
    pub fn started(&mut self, result: Result<(), ErrorCode>)
        requires
            old(self).valid(),
        ensures
            final(self).valid(),
            final(self).log() == old(self).log(),
            final(self)@ == (if result is Err {
                old(self)@.finished(result)
            } else {
                old(self)@
            }),
    {
        if result.is_err() {
            self.finish(result);
        }
    }

    /// Handles a command of a process.
    pub fn command(
        &mut self,
        command_num: usize,
        data1: usize,
        data2: usize,
        processid: usize,
        mutexes: &mut ModeMutexes<CBC, CCM, CTR, ECB, GCM>,
    ) -> (result: Result<(), ErrorCode>)
        requires
            old(self).valid(),
            old(mutexes)@.wf(),
            old(self)@.handles.admitted(old(mutexes)@),
        ensures
            final(self).valid(),
            final(self).log() == old(self).log(),
            final(mutexes)@.wf(),
            final(mutexes).guards_as(*old(mutexes)),
            command_num == 0 ==> result is Ok,
            command_num > 1 ==> result == Err::<(), ErrorCode>(ErrorCode::NOSUPPORT),
            command_num != 1 ==> final(self)@ == old(self)@ && final(mutexes)@ == old(mutexes)@,
            command_num == 1 ==> result == old(self)@.start_result(
                processid,
                data1,
                data2,
                old(mutexes)@,
            ),
            command_num == 1 && result is Ok ==> ({
                let mode = mode_of(data1)->Ok_0;
                let handle = old(self)@.handles.of(mode)->0;
                &&& final(self)@ == old(self)@.begun(processid, mode, operation_of(data2)->Ok_0)
                &&& final(mutexes)@ == old(mutexes)@.with(
                    mode,
                    old(mutexes)@.of(mode).requested(handle),
                )
            }),
            command_num == 1 && result is Err ==> {
                &&& final(self)@ == old(self)@.refused(processid, data1, data2)
                &&& final(mutexes)@ == old(mutexes)@
            },
    {
        match command_num {
            0 => Ok(()),
            1 => self.start_operation(processid, data1, data2, mutexes),
            _ => Err(ErrorCode::NOSUPPORT),
        }
    }

    /// Makes sure that a process has a grant.
    pub fn allocate_grant(&self, processid: usize) -> (result: Result<(), ErrorCode>)
        ensures
            result == self@.apps.entry(processid),
    {
        self.apps.enter(processid)
    }
}

/// The mutex has a slot for the client.
pub open spec fn has_slot(mutex: MutexView, client: usize) -> bool {
    exists|slot: int| mutex.is_slot_of(client, slot)
}

/// `after` is `before` with the client added, where it was its turn and there was a slot; the handle
/// is of that slot.
pub open spec fn joined(
    before: MutexView,
    after: MutexView,
    client: usize,
    turn: bool,
    handle: Option<DriverMutexHandle>,
) -> bool {
    &&& if turn && has_slot(before, client) {
        exists|slot: int| #[trigger]
            before.is_slot_of(client, slot) && after == before.added(client, slot) && (
            handle matches Some(handle) ==> handle.index() == slot)
    } else {
        after == before
    }
    &&& handle matches Some(handle) ==> after.issued(handle)
}

/// What a registration does: the mutexes are joined one after the other until one has no slot; only
/// a driver that has joined all has handles.
pub open spec fn registered(
    before: Handles,
    after: Handles,
    mutexes: MutexViews,
    later: MutexViews,
    client: usize,
    result: Result<(), ErrorCode>,
) -> bool {
    if !before.none() {
        &&& result == Err::<(), ErrorCode>(ErrorCode::ALREADY)
        &&& after == before
        &&& later == mutexes
    } else {
        let cbc = has_slot(mutexes.cbc, client);
        let ccm = cbc && has_slot(mutexes.ccm, client);
        let ctr = ccm && has_slot(mutexes.ctr, client);
        let ecb = ctr && has_slot(mutexes.ecb, client);
        let gcm = ecb && has_slot(mutexes.gcm, client);
        &&& if gcm {
            result is Ok && after.all()
        } else {
            result == Err::<(), ErrorCode>(ErrorCode::NOMEM) && after == before
        }
        &&& joined(mutexes.cbc, later.cbc, client, true, after.cbc)
        &&& joined(mutexes.ccm, later.ccm, client, cbc, after.ccm)
        &&& joined(mutexes.ctr, later.ctr, client, ccm, after.ctr)
        &&& joined(mutexes.ecb, later.ecb, client, ctr, after.ecb)
        &&& joined(mutexes.gcm, later.gcm, client, ecb, after.gcm)
    }
}

/// The kind of the resource behind a mode.
pub open spec fn kind_of<
    CBC: Resource,
    CCM: Resource,
    CTR: Resource,
    ECB: Resource,
    GCM: Resource,
>(mode: Mode) -> Kind {
    match mode {
        Mode::Cbc => CBC::kind(),
        Mode::Ccm => CCM::kind(),
        Mode::Ctr => CTR::kind(),
        Mode::Ecb => ECB::kind(),
        Mode::Gcm => GCM::kind(),
    }
}

impl<
    CBC: Resource,
    CCM: Resource,
    CTR: Resource,
    ECB: Resource,
    GCM: Resource,
> DriverMutexClient for Aes128CipherDriver<CBC, CCM, CTR, ECB, GCM> {
    type Next = Ready;

    /// Takes the guard of the mode that was waited for, and says what is to be asked of it. A guard
    /// that is not waited for is given back; one of another mode ends the operation with `INVAL`.
    fn ready(&mut self, resource: DriverMutexAny) -> (next: Ready)
        ensures
            match old(self)@.state {
                State::Waiting { processid, mode } => {
                    let active = AesView { state: State::Active { processid }, ..old(self)@ };
                    let holding = AesView {
                        held: Some((mode, resource.owner())),
                        ..active
                    };
                    if resource.kind() != kind_of::<CBC, CCM, CTR, ECB, GCM>(mode) {
                        &&& next == Ready::Refused(resource)
                        &&& final(self)@ == active.finished(Err(ErrorCode::INVAL))
                    } else {
                        match next {
                            Ready::Start(request) => {
                                &&& active.request(mode, Some(request))
                                &&& final(self)@ == holding
                            },
                            Ready::Ended => {
                                &&& active.request(mode, None)
                                &&& final(self)@ == holding.finished(Err(ErrorCode::INVAL))
                            },
                            _ => false,
                        }
                    }
                },
                _ => next == Ready::Ignored(resource) && final(self)@ == old(self)@,
            },
    {
        let ghost before = self@;
        let (processid, mode) = match self.state {
            State::Waiting { processid, mode } => (processid, mode),
            State::Idle | State::Active { .. } => {
                return Ready::Ignored(resource);
            },
        };
        self.state = State::Active { processid };
        let held: Result<ModeGuard<CBC, CCM, CTR, ECB, GCM>, DriverMutexAny> = match mode {
            Mode::Cbc => match resource.downcast::<CBC>() {
                Ok(guard) => Ok(ModeGuard::Cbc(guard)),
                Err(guard) => Err(guard),
            },
            Mode::Ccm => match resource.downcast::<CCM>() {
                Ok(guard) => Ok(ModeGuard::Ccm(guard)),
                Err(guard) => Err(guard),
            },
            Mode::Ctr => match resource.downcast::<CTR>() {
                Ok(guard) => Ok(ModeGuard::Ctr(guard)),
                Err(guard) => Err(guard),
            },
            Mode::Ecb => match resource.downcast::<ECB>() {
                Ok(guard) => Ok(ModeGuard::Ecb(guard)),
                Err(guard) => Err(guard),
            },
            Mode::Gcm => match resource.downcast::<GCM>() {
                Ok(guard) => Ok(ModeGuard::Gcm(guard)),
                Err(guard) => Err(guard),
            },
        };
        match held {
            Err(guard) => {
                self.finish(Err(ErrorCode::INVAL));
                return Ready::Refused(guard);
            },
            Ok(guard) => {
                self.held = Some(guard);
            },
        }
        let len: usize = self.input_len;
        let associated_data_len: usize = self.associated_data_len;
        let operation = self.operation;
        let request = match mode {
            Mode::Cbc => ModeRequest::Cbc { len, operation },
            Mode::Ctr => ModeRequest::Ctr { len, operation },
            Mode::Ecb => ModeRequest::Ecb { len, operation },
            Mode::Ccm => match parse_ccm_tag_length(self.tag_len) {
                Ok(tag_len) => ModeRequest::Ccm { len, associated_data_len, tag_len, operation },
                Err(error) => {
                    self.finish(Err(error));
                    return Ready::Ended;
                },
            },
            Mode::Gcm => match parse_gcm_tag_length(self.tag_len) {
                Ok(tag_len) => ModeRequest::Gcm { len, associated_data_len, tag_len, operation },
                Err(error) => {
                    self.finish(Err(error));
                    return Ready::Ended;
                },
            },
        };
        Ready::Start(request)
    }
}

} // verus!
