//! nRF52840 CCM register and DMA management.
use vstd::prelude::*;

verus! {

/// Where the configuration stands: key, packet counter, direction and initialization vector.
pub const CCM_CONFIG_START: usize = 0;

pub const CCM_CONFIG_SIZE: usize = 33;

/// Where the packet that goes in stands.
pub const CCM_INPUT_START: usize = 36;

pub const CCM_MAX_PAYLOAD_SIZE: usize = 251;

pub const CCM_TAG_SIZE: usize = 4;

/// A packet starts with its header, its length and an empty byte.
pub const CCM_PACKET_HEADER_SIZE: usize = 3;

pub const CCM_PACKET_BUFFER_SIZE: usize = CCM_PACKET_HEADER_SIZE + CCM_MAX_PAYLOAD_SIZE
    + CCM_TAG_SIZE;

/// Where the packet that comes out stands, aligned to a word.
pub const CCM_OUTPUT_START: usize = CCM_INPUT_START + (CCM_PACKET_BUFFER_SIZE + 3) / 4 * 4;

/// Where the scratch area of the peripheral stands, aligned to a word.
pub const CCM_SCRATCH_START: usize = CCM_OUTPUT_START + (CCM_PACKET_BUFFER_SIZE + 3) / 4 * 4;

pub const CCM_SCRATCH_SIZE: usize = (16 + CCM_MAX_PAYLOAD_SIZE + 3) / 4 * 4;

pub const CCM_DATA_SIZE: usize = CCM_SCRATCH_START + CCM_SCRATCH_SIZE;

/// The parts of the buffer lie one behind the other, those that the peripheral gets a pointer to on
/// words, and each has room for the longest packet.
pub proof fn law_parts_lie_apart()
    ensures
        CCM_DATA_SIZE == 824,
        CCM_CONFIG_START + CCM_CONFIG_SIZE <= CCM_INPUT_START,
        CCM_INPUT_START + CCM_PACKET_BUFFER_SIZE <= CCM_OUTPUT_START,
        CCM_OUTPUT_START + CCM_PACKET_BUFFER_SIZE <= CCM_SCRATCH_START,
        CCM_SCRATCH_START + CCM_SCRATCH_SIZE == CCM_DATA_SIZE,
        CCM_INPUT_START % 4 == 0,
        CCM_OUTPUT_START % 4 == 0,
        CCM_SCRATCH_START % 4 == 0,
        CCM_SCRATCH_SIZE >= 16 + CCM_MAX_PAYLOAD_SIZE,
{
}

/// The buffer of the peripheral.
pub struct CcmData(pub [u8; 824]);

impl CcmData {
    /// A buffer of zeros.
    pub fn new() -> (data: Self)
        ensures
            data.0@ == Seq::new(CCM_DATA_SIZE as nat, |i: int| 0u8),
    {
        let data = CcmData([0u8;824]);
        assert(data.0@ =~= Seq::new(CCM_DATA_SIZE as nat, |i: int| 0u8));
        data
    }

    /// The bytes of the buffer.
    pub fn as_mut_slice(&mut self) -> (slice: &mut [u8])
        ensures
            slice@ == old(self).0@,
            final(self).0@ == final(slice)@,
    {
        &mut self.0
    }
}

/// The image of the registers.
#[derive(Clone, Copy, Debug, PartialEq, Eq, Structural)]
pub struct CcmRegisters {
    /// The key stream is to be generated.
    pub task_ksgen: bool,
    /// The peripheral is to stop.
    pub task_stop: bool,
    pub event_endksgen: bool,
    pub event_endcrypt: bool,
    pub event_error: bool,
    /// Encryption follows the generation of the key stream.
    pub short_endksgen_crypt: bool,
    pub interrupt_endcrypt: bool,
    pub interrupt_error: bool,
    /// The tag of the last packet was right.
    pub mic_passed: bool,
    pub enabled: bool,
    pub decryption: bool,
    /// Lengths take eight bits.
    pub extended_length: bool,
    pub cnfptr: u32,
    pub inptr: u32,
    pub outptr: u32,
    pub scratchptr: u32,
    pub maxpacketsize: u32,
}

impl CcmRegisters {
    /// Registers after a reset.
    pub open spec fn idle() -> CcmRegisters {
        CcmRegisters {
            task_ksgen: false,
            task_stop: false,
            event_endksgen: false,
            event_endcrypt: false,
            event_error: false,
            short_endksgen_crypt: false,
            interrupt_endcrypt: false,
            interrupt_error: false,
            mic_passed: false,
            enabled: false,
            decryption: false,
            extended_length: false,
            cnfptr: 0,
            inptr: 0,
            outptr: 0,
            scratchptr: 0,
            maxpacketsize: 0,
        }
    }

    /// Registers with the peripheral started on a buffer at `base`.
    pub open spec fn started(self, base: nat, decrypt: bool) -> CcmRegisters {
        CcmRegisters {
            task_ksgen: true,
            task_stop: false,
            event_endksgen: false,
            event_endcrypt: false,
            event_error: false,
            short_endksgen_crypt: true,
            interrupt_endcrypt: true,
            interrupt_error: true,
            enabled: true,
            decryption: decrypt,
            extended_length: true,
            cnfptr: (base + CCM_CONFIG_START) as u32,
            inptr: (base + CCM_INPUT_START) as u32,
            outptr: (base + CCM_OUTPUT_START) as u32,
            scratchptr: (base + CCM_SCRATCH_START) as u32,
            maxpacketsize: CCM_MAX_PAYLOAD_SIZE as u32,
            ..self
        }
    }

    /// An event has come that ends a packet.
    pub open spec fn has_ended(self) -> bool {
        self.event_error || self.event_endcrypt
    }

    /// Registers after the end of a packet was handled. Only a packet that ended in an error has
    /// the peripheral stop.
    pub open spec fn stopped(self) -> CcmRegisters {
        CcmRegisters {
            task_ksgen: false,
            task_stop: self.event_error,
            event_endksgen: false,
            event_endcrypt: false,
            event_error: false,
            short_endksgen_crypt: false,
            interrupt_endcrypt: false,
            interrupt_error: false,
            enabled: false,
            ..self
        }
    }
}

/// What the peripheral gives back.
pub enum CcmDmaResult {
    Complete { buffer: Vec<u8>, mic_valid: bool },
    Error(Vec<u8>),
}

/// The registers, and the buffer while the peripheral works on it.
pub struct CcmRegistersManager {
    base: u32,
    registers: CcmRegisters,
    dma_buf: Option<Vec<u8>>,
}

/// What the manager is.
#[verifier::ext_equal]
pub struct CcmRegistersView {
    /// Where the buffer lies in memory.
    pub base: nat,
    pub registers: CcmRegisters,
    pub dma_buf: Option<Seq<u8>>,
}

/// The contents of a buffer, if there is one.
pub open spec fn contents(buffer: Option<Vec<u8>>) -> Option<Seq<u8>> {
    match buffer {
        Some(buffer) => Some(buffer@),
        None => None,
    }
}

impl View for CcmRegistersManager {
    type V = CcmRegistersView;

    closed spec fn view(&self) -> CcmRegistersView {
        CcmRegistersView {
            base: self.base as nat,
            registers: self.registers,
            dma_buf: contents(self.dma_buf),
        }
    }
}

impl CcmRegistersView {
    /// The buffer lies within the address space, and a buffer in work has its length.
    pub open spec fn wf(self) -> bool {
        &&& self.base + CCM_DATA_SIZE <= u32::MAX
        &&& self.dma_buf matches Some(buffer) ==> buffer.len() == CCM_DATA_SIZE
    }

    /// The peripheral takes the buffer: it has none, and the buffer has its length and lies on a
    /// word.
    pub open spec fn accepts(self, buffer: Seq<u8>) -> bool {
        self.dma_buf is None && buffer.len() == CCM_DATA_SIZE && self.base % 4 == 0
    }
}

impl CcmRegistersManager {
    /// Create a new CCM registers manager for a buffer at address `base`.
    pub fn new(base: u32) -> (manager: Self)
        ensures
            manager@ == (CcmRegistersView {
                base: base as nat,
                registers: CcmRegisters::idle(),
                dma_buf: None,
            }),
    {
        CcmRegistersManager {
            base,
            registers: CcmRegisters {
                task_ksgen: false,
                task_stop: false,
                event_endksgen: false,
                event_endcrypt: false,
                event_error: false,
                short_endksgen_crypt: false,
                interrupt_endcrypt: false,
                interrupt_error: false,
                mic_passed: false,
                enabled: false,
                decryption: false,
                extended_length: false,
                cnfptr: 0,
                inptr: 0,
                outptr: 0,
                scratchptr: 0,
                maxpacketsize: 0,
            },
            dma_buf: None,
        }
    }

    /// The image of the registers.
    pub fn registers(&self) -> (registers: CcmRegisters)
        ensures
            registers == self@.registers,
    {
        self.registers
    }

    /// What the peripheral is to work on.
    pub fn transfer(&self) -> (buffer: Option<&Vec<u8>>)
        ensures
            buffer is Some <==> self@.dma_buf is Some,
            buffer matches Some(buffer) ==> self@.dma_buf == Some(buffer@),
    {
        self.dma_buf.as_ref()
    }

    /// Takes over what the peripheral shows: its registers, and the buffer that it has worked on.
    pub fn observe(&mut self, registers: CcmRegisters, buffer: Vec<u8>)
        requires
            old(self)@.wf(),
            buffer@.len() == CCM_DATA_SIZE,
        ensures
            final(self)@.wf(),
            final(self)@ == (CcmRegistersView {
                registers,
                dma_buf: if old(self)@.dma_buf is Some {
                    Some(buffer@)
                } else {
                    None
                },
                ..old(self)@
            }),
    {
        self.registers = registers;
        if self.dma_buf.is_some() {
            self.dma_buf = Some(buffer);
        }
    }

    /// Hands the buffer to the peripheral and starts it. The buffer comes back if the peripheral
    /// does not take it.
    pub fn start_ccm_dma(&mut self, buffer: Vec<u8>, decrypt: bool) -> (result: Result<
        (),
        Vec<u8>,
    >)
        requires
            old(self)@.wf(),
        ensures
            final(self)@.wf(),
            result is Ok <==> old(self)@.accepts(buffer@),
            result matches Err(back) ==> back@ == buffer@ && final(self)@ == old(self)@,
            result is Ok ==> final(self)@ == (CcmRegistersView {
                registers: old(self)@.registers.started(old(self)@.base, decrypt),
                dma_buf: Some(buffer@),
                ..old(self)@
            }),
    {
        if self.dma_buf.is_some() || buffer.len() != CCM_DATA_SIZE || self.base % 4 != 0 {
            return Err(buffer);
        }
        let base: u32 = self.base;
        self.registers.task_stop = false;
        self.registers.event_endksgen = false;
        self.registers.event_endcrypt = false;
        self.registers.event_error = false;
        self.registers.short_endksgen_crypt = true;
        self.registers.cnfptr = base + CCM_CONFIG_START as u32;
        self.registers.inptr = base + CCM_INPUT_START as u32;
        self.registers.outptr = base + CCM_OUTPUT_START as u32;
        self.registers.scratchptr = base + CCM_SCRATCH_START as u32;
        self.registers.maxpacketsize = CCM_MAX_PAYLOAD_SIZE as u32;
        self.registers.enabled = true;
        self.registers.decryption = decrypt;
        self.registers.extended_length = true;
        self.registers.interrupt_endcrypt = true;
        self.registers.interrupt_error = true;
        self.dma_buf = Some(buffer);
        self.registers.task_ksgen = true;
        Ok(())
    }

    /// Stops the peripheral after the end of a packet and takes the buffer back. Does nothing if no
    /// packet has ended.
    pub fn handle_interrupt(&mut self) -> (result: Option<CcmDmaResult>)
        requires
            old(self)@.wf(),
        ensures
            final(self)@.wf(),
            !old(self)@.registers.has_ended() ==> result is None && final(self)@ == old(self)@,
            old(self)@.registers.has_ended() ==> {
                &&& final(self)@ == (CcmRegistersView {
                    registers: old(self)@.registers.stopped(),
                    dma_buf: None,
                    ..old(self)@
                })
                &&& match (old(self)@.dma_buf, result) {
                    (None, None) => true,
                    (Some(data), Some(CcmDmaResult::Error(buffer))) => {
                        old(self)@.registers.event_error && buffer@ == data
                    },
                    (Some(data), Some(CcmDmaResult::Complete { buffer, mic_valid })) => {
                        &&& !old(self)@.registers.event_error
                        &&& buffer@ == data
                        &&& mic_valid == old(self)@.registers.mic_passed
                    },
                    _ => false,
                }
            },
    {
        let error = self.registers.event_error;
        let complete = self.registers.event_endcrypt;
        if !error && !complete {
            return None;
        }
        self.registers.interrupt_endcrypt = false;
        self.registers.interrupt_error = false;
        self.registers.task_ksgen = false;
        self.registers.task_stop = error;
        let mic_valid = self.registers.mic_passed;
        self.registers.event_endksgen = false;
        self.registers.event_endcrypt = false;
        self.registers.event_error = false;
        self.registers.short_endksgen_crypt = false;
        self.registers.enabled = false;
        match self.dma_buf.take() {
            None => None,
            Some(buffer) => {
                if error {
                    Some(CcmDmaResult::Error(buffer))
                } else {
                    Some(CcmDmaResult::Complete { buffer, mic_valid })
                }
            },
        }
    }
}

} // verus!
