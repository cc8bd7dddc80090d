//! The drivers of peripherals, against simulated hardware.
use tock_crypto::boards::pka_tester::{PkaTester, Start, TestState};
use tock_crypto::error::ErrorCode;
use tock_crypto::hil::cipher::{self, Aes128, CcmClient, CcmTagLength, EcbClient, Operation};
use tock_crypto::hil::digest::{Algorithm, Client, Digest, Hmac, HmacClient};
use tock_crypto::hil::ecc_constants::NistP256Constants;
use tock_crypto::hil::ecc_math::{EccClient, EccCrypto, VerifyEccPoint};
use tock_crypto::hil::modular_arithmetic::{MathClient, MathCryptoBase};
use tock_crypto::hil::rsa_math::{self, ModExponent};
use tock_crypto::hil::trace::{Call, Log, Observed};
use tock_crypto::nrf5x::ccm::Ccm;
use tock_crypto::nrf5x::ccm_registers::{CcmData, CcmRegistersManager};
use tock_crypto::nrf5x::ecb::{AesEcbRegistersManager, Ecb};
use tock_crypto::stm32u5;
use tock_crypto::stm32u5::hash_utils::{DataType, Leftover, MsgTracker, State};
use tock_crypto::stm32u5::pka::{Pka, PkaEvent, SupportedOp};
use tock_crypto::stm32u5::pka_constants::{
    calc_idx, Control, Flags, Mode, PkaLayout, Status, EXP_IDX, K_IDX, MOD_VALUE_IDX, OP_A_IDX,
    RESULT_IDX, RESULT_X_IDX, RESULT_Y_IDX, X_IDX, Y_IDX,
};
use tock_crypto::stm32u5::pka_ram;

/// A client of any driver.
#[derive(Default)]
struct Party {
    key: Vec<u8>,
    key_offset: usize,
    nonce: Vec<u8>,
    associated_data: Vec<u8>,
    input: Vec<u8>,
    offset: usize,
    chunk: usize,
    output: Vec<u8>,
    input_error: Option<ErrorCode>,
    done: Vec<Result<(), ErrorCode>>,
}

impl Observed for Party {
    fn log(&self) -> Log {
        unreachable!()
    }

    fn valid(&self) -> bool {
        unreachable!()
    }
}

impl Party {
    fn give(&mut self, buffer: &mut [u8]) -> Result<usize, ErrorCode> {
        if let Some(error) = self.input_error {
            return Err(error);
        }
        let count = buffer.len().min(self.chunk).min(self.input.len() - self.offset);
        buffer[..count].copy_from_slice(&self.input[self.offset..self.offset + count]);
        self.offset += count;
        Ok(count)
    }

    fn take(&mut self, output: &[u8]) -> Result<(), ErrorCode> {
        self.output.extend_from_slice(output);
        Ok(())
    }
}

impl EcbClient<Aes128> for Party {
    fn read_key(&mut self, key: &mut [u8]) -> Result<(), ErrorCode> {
        key.copy_from_slice(&self.key);
        Ok(())
    }

    fn read_input(&mut self, input: &mut [u8]) -> Result<usize, ErrorCode> {
        self.give(input)
    }

    fn write_output(&mut self, output: &[u8]) -> Result<(), ErrorCode> {
        self.take(output)
    }

    fn crypt_done(&mut self, result: Result<(), ErrorCode>) {
        self.done.push(result);
    }
}

impl CcmClient<Aes128> for Party {
    fn read_key(&mut self, key: &mut [u8]) -> Result<(), ErrorCode> {
        key.copy_from_slice(&self.key);
        Ok(())
    }

    fn read_nonce(&mut self, nonce: &mut [u8]) -> Result<usize, ErrorCode> {
        nonce[..self.nonce.len()].copy_from_slice(&self.nonce);
        Ok(self.nonce.len())
    }

    fn read_associated_data(&mut self, buffer: &mut [u8]) -> Result<usize, ErrorCode> {
        buffer.copy_from_slice(&self.associated_data);
        Ok(buffer.len())
    }

    fn read_input(&mut self, input: &mut [u8]) -> Result<usize, ErrorCode> {
        self.give(input)
    }

    fn write_output(&mut self, output: &[u8]) -> Result<(), ErrorCode> {
        self.take(output)
    }

    fn crypt_done(&mut self, result: Result<(), ErrorCode>) {
        self.done.push(result);
    }
}

impl Client for Party {
    fn read_input(&mut self, input: &mut [u8]) -> Result<usize, ErrorCode> {
        self.give(input)
    }

    fn write_output(&mut self, output: &[u8]) -> Result<(), ErrorCode> {
        self.take(output)
    }

    fn hash_done(&mut self, result: Result<(), ErrorCode>) {
        self.done.push(result);
    }
}

impl HmacClient for Party {
    fn read_key(&mut self, key: &mut [u8]) -> Result<usize, ErrorCode> {
        let count = key.len().min(self.key.len() - self.key_offset);
        key[..count].copy_from_slice(&self.key[self.key_offset..self.key_offset + count]);
        self.key_offset += count;
        if self.key_offset == self.key.len() {
            self.key_offset = 0;
        }
        Ok(count)
    }
}

/// What stands in for the block cipher of the peripheral.
fn scramble(key: &[u8], input: &[u8]) -> [u8; 16] {
    let mut output = [0u8; 16];
    for i in 0..16 {
        output[i] = key[i].wrapping_mul(3) ^ input[15 - i];
    }
    output
}

#[test]
fn ecb_peripheral_encrypts_block_after_block() {
    let mut party = Party {
        key: (0..16).collect(),
        input: (0..48).map(|i| i * 5).collect(),
        chunk: 7,
        ..Default::default()
    };
    let mut ecb = Ecb::new(AesEcbRegistersManager::new(), [0; 48]);
    assert_eq!(cipher::Ecb::crypt(&mut ecb, 16, Operation::Encrypt), Err(ErrorCode::OFF));
    cipher::Ecb::set_client(&mut ecb, 0);
    assert_eq!(cipher::Ecb::crypt(&mut ecb, 15, Operation::Encrypt), Err(ErrorCode::INVAL));
    assert_eq!(cipher::Ecb::crypt(&mut ecb, 16, Operation::Decrypt), Err(ErrorCode::NOSUPPORT));
    assert_eq!(cipher::Ecb::crypt(&mut ecb, 48, Operation::Encrypt), Ok(()));
    assert_eq!(cipher::Ecb::crypt(&mut ecb, 16, Operation::Encrypt), Err(ErrorCode::BUSY));
    assert!(ecb.deferred_call_is_set());
    ecb.handle_deferred_call(&mut party);
    let mut blocks = 0;
    while let Some(data) = ecb.transfer() {
        ecb.observe(false, true, scramble(&data[..16], &data[16..32]));
        ecb.handle_interrupt(&mut party);
        ecb.handle_deferred_call(&mut party);
        blocks += 1;
    }
    assert_eq!(blocks, 3);
    let expected: Vec<u8> =
        party.input.chunks(16).flat_map(|block| scramble(&party.key, block)).collect();
    assert_eq!(party.output, expected);
    assert_eq!(party.done, vec![Ok(())]);
}

#[test]
fn ecb_peripheral_reports_errors_once() {
    let mut party =
        Party { key: vec![1; 16], input: vec![2; 16], chunk: 16, ..Default::default() };
    let mut ecb = Ecb::new(AesEcbRegistersManager::new(), [0; 48]);
    cipher::Ecb::set_client(&mut ecb, 0);
    assert_eq!(cipher::Ecb::crypt(&mut ecb, 16, Operation::Encrypt), Ok(()));
    ecb.handle_deferred_call(&mut party);
    ecb.observe(true, false, [0; 16]);
    ecb.handle_interrupt(&mut party);
    ecb.handle_deferred_call(&mut party);
    assert_eq!(party.done, vec![Err(ErrorCode::FAIL)]);
    assert!(party.output.is_empty());
    party.done.clear();
    party.input_error = Some(ErrorCode::NOMEM);
    assert_eq!(cipher::Ecb::crypt(&mut ecb, 16, Operation::Encrypt), Ok(()));
    ecb.handle_deferred_call(&mut party);
    assert_eq!(party.done, vec![Err(ErrorCode::NOMEM)]);
}

/// Lets the CCM peripheral work: the payload is complemented, the tag is fixed. A decrypted payload
/// is put at the start of the output, where the driver takes it from.
fn run_ccm_peripheral(ccm: &mut Ccm, mic_passed: bool) {
    let mut registers = ccm.registers().registers();
    let mut data = ccm.registers().transfer().unwrap().clone();
    let input = (registers.inptr - registers.cnfptr) as usize;
    let output = (registers.outptr - registers.cnfptr) as usize;
    let len = data[input + 1] as usize;
    if registers.decryption {
        for i in 0..len - 4 {
            data[output + i] = !data[input + 3 + i];
        }
    } else {
        data[output] = data[input];
        data[output + 1] = len as u8 + 4;
        for i in 0..len {
            data[output + 3 + i] = !data[input + 3 + i];
        }
        data[output + 3 + len..output + 7 + len].copy_from_slice(&[9, 8, 7, 6]);
    }
    registers.event_endcrypt = true;
    registers.mic_passed = mic_passed;
    ccm.observe(registers, data);
}

fn ccm_party(input: Vec<u8>) -> Party {
    Party {
        key: (0..16).collect(),
        nonce: (0..13).collect(),
        associated_data: vec![0xe3],
        input,
        chunk: 20,
        ..Default::default()
    }
}

#[test]
fn ccm_peripheral_encrypts_a_packet() {
    let mut party = ccm_party((0..50).collect());
    let mut ccm = Ccm::new(CcmRegistersManager::new(0x2000_0000), CcmData::new());
    cipher::Ccm::set_client(&mut ccm, 0);
    assert_eq!(
        cipher::Ccm::crypt(&mut ccm, 50, 1, CcmTagLength::Tag64, Operation::Encrypt),
        Err(ErrorCode::NOSUPPORT)
    );
    assert_eq!(
        cipher::Ccm::crypt(&mut ccm, 252, 1, CcmTagLength::Tag32, Operation::Encrypt),
        Err(ErrorCode::SIZE)
    );
    assert_eq!(
        cipher::Ccm::crypt(&mut ccm, 50, 1, CcmTagLength::Tag32, Operation::Encrypt),
        Ok(())
    );
    assert_eq!(
        cipher::Ccm::crypt(&mut ccm, 50, 1, CcmTagLength::Tag32, Operation::Encrypt),
        Err(ErrorCode::BUSY)
    );
    ccm.handle_deferred_call(&mut party);
    assert!(party.done.is_empty());
    run_ccm_peripheral(&mut ccm, true);
    ccm.handle_interrupt(&mut party);
    let mut expected: Vec<u8> = (0..50u8).map(|b| !b).collect();
    expected.extend_from_slice(&[9, 8, 7, 6]);
    assert_eq!(party.output, expected);
    assert_eq!(party.done, vec![Ok(())]);
}

#[test]
fn ccm_peripheral_is_stopped_only_after_an_error() {
    let mut ccm = Ccm::new(CcmRegistersManager::new(0x2000_0000), CcmData::new());
    cipher::Ccm::set_client(&mut ccm, 0);
    for (fails, result) in [(true, Err(ErrorCode::FAIL)), (false, Ok(())), (false, Ok(()))] {
        let mut party = ccm_party((0..50).collect());
        assert_eq!(
            cipher::Ccm::crypt(&mut ccm, 50, 1, CcmTagLength::Tag32, Operation::Encrypt),
            Ok(())
        );
        ccm.handle_deferred_call(&mut party);
        assert!(ccm.registers().registers().task_ksgen);
        assert!(!ccm.registers().registers().task_stop);
        if fails {
            let mut registers = ccm.registers().registers();
            registers.event_error = true;
            let data = ccm.registers().transfer().unwrap().clone();
            ccm.observe(registers, data);
        } else {
            run_ccm_peripheral(&mut ccm, true);
        }
        ccm.handle_interrupt(&mut party);
        assert_eq!(party.done, vec![result]);
        assert!(!ccm.registers().registers().task_ksgen);
        assert_eq!(ccm.registers().registers().task_stop, fails);
    }
}

#[test]
fn ccm_peripheral_gives_out_only_authentic_packets() {
    for (mic_passed, result) in [(true, Ok(())), (false, Err(ErrorCode::FAIL))] {
        let mut input: Vec<u8> = (0..50u8).map(|b| !b).collect();
        input.extend_from_slice(&[9, 8, 7, 6]);
        let mut party = ccm_party(input);
        let mut ccm = Ccm::new(CcmRegistersManager::new(0x2000_0000), CcmData::new());
        cipher::Ccm::set_client(&mut ccm, 0);
        assert_eq!(
            cipher::Ccm::crypt(&mut ccm, 50, 1, CcmTagLength::Tag32, Operation::Decrypt),
            Ok(())
        );
        ccm.handle_deferred_call(&mut party);
        run_ccm_peripheral(&mut ccm, mic_passed);
        ccm.handle_interrupt(&mut party);
        assert_eq!(party.done, vec![result]);
        if mic_passed {
            assert_eq!(party.output, (0..50).collect::<Vec<u8>>());
        } else {
            assert!(party.output.is_empty());
        }
    }
}

/// Lets the hash accelerator work, and returns the messages that it was given, one for each start.
fn run_hash_accelerator(
    hash: &mut stm32u5::hash::Hash,
    party: &mut Party,
    digest: [u32; 8],
    messages: usize,
) -> Vec<Vec<u8>> {
    let mut status = stm32u5::hash::Status {
        digest_complete: false,
        input_ready: true,
        busy: false,
        words_expected: 16,
    };
    let mut all = vec![];
    let mut bytes: Vec<u8> = vec![];
    hash.observe(status, [0; 8]);
    for _ in 0..1000 {
        if !party.done.is_empty() {
            break;
        }
        if hash.deferred_call_is_set() {
            hash.handle_deferred_call(party);
        } else if hash.registers().interrupts.digest_complete
            || hash.registers().interrupts.input_ready
        {
            hash.handle_interupts(party);
        }
        let started = hash.registers().start.calculate;
        let valid_bits = hash.registers().start.valid_bits as usize;
        for word in hash.flush() {
            bytes.extend_from_slice(&word.to_le_bytes());
        }
        if started {
            if valid_bits != 0 {
                bytes.truncate(bytes.len() - 4 + valid_bits / 8);
            }
            all.push(std::mem::take(&mut bytes));
            status.digest_complete = all.len() == messages;
            hash.observe(status, digest);
        }
    }
    all
}

#[test]
fn hash_accelerator_gets_the_message_and_gives_the_digest() {
    let mut party =
        Party { input: (0..=200).collect(), chunk: 30, ..Default::default() };
    let mut hash = stm32u5::hash::Hash::new();
    hash.set_client(0);
    assert_eq!(hash.hash(Algorithm::Sha512, 5), Err(ErrorCode::NOSUPPORT));
    assert_eq!(hash.hash(Algorithm::Sha256, 0), Err(ErrorCode::INVAL));
    assert_eq!(hash.hash(Algorithm::Sha256, 201), Ok(()));
    assert_eq!(hash.hash(Algorithm::Sha256, 201), Err(ErrorCode::BUSY));
    let digest = [1, 2, 3, 4, 5, 6, 7, 0x01020304];
    let messages = run_hash_accelerator(&mut hash, &mut party, digest, 1);
    assert_eq!(messages, vec![party.input.clone()]);
    assert_eq!(party.done, vec![Ok(())]);
    assert_eq!(party.output.len(), 32);
    assert_eq!(party.output[28..], [1, 2, 3, 4]);
    assert_eq!(party.output[..4], [0, 0, 0, 1]);
}

#[test]
fn hash_accelerator_authenticates_with_the_key_at_both_ends() {
    let mut party = Party {
        key: vec![7; 21],
        input: (0..90).collect(),
        chunk: 33,
        ..Default::default()
    };
    let mut hash = stm32u5::hash::Hash::new();
    hash.set_hmac_client(0);
    assert_eq!(hash.authenticate(Algorithm::Md5, 90, 65), Err(ErrorCode::INVAL));
    assert_eq!(hash.authenticate(Algorithm::Sha1, 90, 21), Ok(()));
    let messages = run_hash_accelerator(&mut hash, &mut party, [0xff; 8], 3);
    assert_eq!(messages, vec![vec![7; 21], (0..90).collect(), vec![7; 21]]);
    assert_eq!(party.done, vec![Ok(())]);
    assert_eq!(party.output.len(), 20);
}

#[test]
fn hash_accelerator_authenticates_with_an_empty_key() {
    let mut party = Party { input: (0..50).collect(), chunk: 33, ..Default::default() };
    let mut hash = stm32u5::hash::Hash::new();
    hash.set_hmac_client(0);
    assert_eq!(hash.authenticate(Algorithm::Sha256, 50, 0), Ok(()));
    let messages = run_hash_accelerator(&mut hash, &mut party, [0xff; 8], 3);
    assert_eq!(messages, vec![vec![], (0..50).collect(), vec![]]);
    assert_eq!(party.done, vec![Ok(())]);
    assert_eq!(party.output.len(), 32);
}

#[test]
fn hash_accelerator_cancels_and_passes_errors_on() {
    let mut party = Party { input: vec![1; 9], chunk: 9, ..Default::default() };
    let mut hash = stm32u5::hash::Hash::new();
    hash.set_client(0);
    assert_eq!(hash.hash(Algorithm::Md5, 9), Ok(()));
    hash.clear_data();
    hash.handle_deferred_call(&mut party);
    assert_eq!(party.done, vec![Err(ErrorCode::CANCEL)]);
    party.done.clear();
    party.input_error = Some(ErrorCode::NODEVICE);
    assert_eq!(hash.hash(Algorithm::Md5, 9), Ok(()));
    run_hash_accelerator(&mut hash, &mut party, [0; 8], 1);
    assert_eq!(party.done, vec![Err(ErrorCode::NODEVICE)]);
}

#[test]
fn hash_accelerator_takes_input_by_dma() {
    let mut party = Party { input: (0..64).collect(), chunk: 64, ..Default::default() };
    let mut hash = stm32u5::hash::Hash::new();
    hash.set_dma(3, vec![0; 68]);
    hash.set_client(0);
    assert_eq!(hash.hash(Algorithm::Sha256, 64), Ok(()));
    hash.observe(
        stm32u5::hash::Status {
            digest_complete: false,
            input_ready: true,
            busy: false,
            words_expected: 16,
        },
        [0; 8],
    );
    hash.handle_deferred_call(&mut party);
    let slice = hash.dma_transfer().unwrap();
    assert_eq!(slice.data[slice.start..slice.end], party.input);
    hash.transfer_done(3, &mut party);
    assert!(hash.dma_transfer().is_none());
    assert!(party.done.is_empty());
}

/// Lets the hash accelerator and its DMA work, and returns what reached the accelerator.
fn run_hash_accelerator_by_dma(
    hash: &mut stm32u5::hash::Hash,
    party: &mut Party,
    words_expected: u8,
) -> Vec<u8> {
    let mut status = stm32u5::hash::Status {
        digest_complete: false,
        input_ready: true,
        busy: false,
        words_expected,
    };
    let mut bytes: Vec<u8> = vec![];
    hash.observe(status, [0; 8]);
    for _ in 0..1000 {
        if !party.done.is_empty() {
            break;
        }
        if hash.deferred_call_is_set() {
            hash.handle_deferred_call(party);
        } else if hash.dma_transfer().is_some() {
            hash.transfer_done(3, party);
        } else if hash.registers().interrupts.digest_complete
            || hash.registers().interrupts.input_ready
        {
            // There is room by now.
            status.words_expected = 16;
            hash.observe(status, [0; 8]);
            hash.handle_interupts(party);
        } else {
            panic!("nothing is ahead of the operation");
        }
        let started = hash.registers().start.calculate;
        let valid_bits = hash.registers().start.valid_bits as usize;
        for word in hash.flush() {
            bytes.extend_from_slice(&word.to_le_bytes());
        }
        if let Some(slice) = hash.dma_transfer() {
            if hash.registers().control.dma_enabled && !hash.deferred_call_is_set() {
                bytes.extend_from_slice(&slice.data[slice.start..slice.end]);
                hash.transfer_done(3, party);
            }
        }
        if started {
            assert!(hash.dma_transfer().is_none());
            if valid_bits != 0 {
                bytes.truncate(bytes.len() - 4 + valid_bits / 8);
            }
            status.digest_complete = true;
            hash.observe(status, [0; 8]);
        }
    }
    bytes
}

#[test]
fn hash_accelerator_ends_whatever_pieces_come_for_the_dma() {
    for (len, chunk) in [(8, 3), (8, 1), (9, 4), (64, 5), (70, 70), (3, 3), (5, 2)] {
        for words_expected in [16, 0] {
            let mut party = Party {
                input: (0..len).collect(),
                chunk,
                ..Default::default()
            };
            let mut hash = stm32u5::hash::Hash::new();
            hash.set_dma(3, vec![0; 68]);
            hash.set_client(0);
            assert_eq!(hash.hash(Algorithm::Sha256, len as usize), Ok(()));
            let message = run_hash_accelerator_by_dma(&mut hash, &mut party, words_expected);
            assert_eq!(message, party.input, "{} bytes by {}", len, chunk);
            assert_eq!(party.done, vec![Ok(())]);
        }
    }
}

#[test]
fn the_buffer_for_the_dma_is_not_lost() {
    let mut party = Party {
        input: (0..8).collect(),
        chunk: 8,
        input_error: Some(ErrorCode::NODEVICE),
        ..Default::default()
    };
    let mut hash = stm32u5::hash::Hash::new();
    hash.set_dma(3, vec![0; 68]);
    hash.set_client(0);
    assert_eq!(hash.hash(Algorithm::Sha256, 8), Ok(()));
    run_hash_accelerator_by_dma(&mut hash, &mut party, 16);
    assert_eq!(party.done, vec![Err(ErrorCode::NODEVICE)]);
    party.done.clear();
    party.input_error = None;
    assert_eq!(hash.hash(Algorithm::Sha256, 8), Ok(()));
    assert_eq!(run_hash_accelerator_by_dma(&mut hash, &mut party, 16), party.input);
    assert_eq!(party.done, vec![Ok(())]);
}

#[test]
fn a_client_without_a_key_is_not_asked_for_one() {
    let mut party = Party { key: vec![7; 21], input: vec![1; 9], chunk: 9, ..Default::default() };
    let mut hash = stm32u5::hash::Hash::new();
    hash.set_client(0);
    assert_eq!(hash.authenticate(Algorithm::Sha256, 9, 21), Ok(()));
    hash.handle_deferred_call(&mut party);
    assert_eq!(party.done, vec![Err(ErrorCode::INVAL)]);
    assert_eq!(party.key_offset, 0);
}

#[test]
fn leftover_bytes_make_words() {
    let mut leftover = Leftover::new();
    assert!(leftover.is_empty());
    leftover.add(1);
    leftover.add(2);
    leftover.add(3);
    assert_eq!((leftover.len(), leftover.bytes_left()), (3, 1));
    leftover.add(4);
    assert!(leftover.is_full());
    // A fifth byte does not fit.
    leftover.add(5);
    assert!(leftover.is_full());
    assert_eq!((leftover.len(), leftover.bytes_left()), (4, 0));
    assert_eq!(leftover.to_le(), 0x04030201);
    assert!(leftover.is_empty());
    leftover.reset();
    assert_eq!(leftover.len(), 0);
}

#[test]
fn messages_are_tracked() {
    let mut tracker = MsgTracker::new();
    assert!(tracker.get_remaining().is_err());
    assert_eq!(tracker.set(10), Ok(()));
    assert_eq!(tracker.get_remaining(), Ok(10));
    assert_eq!(tracker.is_loaded(), Ok(false));
    assert_eq!(tracker.add(4), Ok(()));
    assert_eq!(tracker.get_remaining(), Ok(6));
    assert_eq!(tracker.add(7), Err(ErrorCode::SIZE));
    assert_eq!(tracker.get_remaining(), Ok(6));
    assert_eq!(tracker.add(6), Ok(()));
    assert_eq!(tracker.is_loaded(), Ok(true));
    tracker.reset();
    assert!(tracker.is_loaded().is_err());
    assert_eq!(tracker.add(1), Err(ErrorCode::INVAL));
}

#[test]
fn states_of_the_hash_accelerator_follow_one_another() {
    let adding = State::Add(5, DataType::Input);
    assert_eq!(adding.get_datatype(), DataType::Input);
    assert_eq!(adding.update(Some(2)), Some(State::Add(2, DataType::Input)));
    assert_eq!(adding.update(Some(0)), Some(State::Run(false, DataType::Input)));
    let running = State::Run(false, DataType::InnerKey);
    assert_eq!(running.update(None), Some(State::Run(true, DataType::InnerKey)));
    assert_eq!(
        State::Run(true, DataType::InnerKey).update(Some(9)),
        Some(State::Add(9, DataType::Input))
    );
}

fn layout() -> PkaLayout {
    PkaLayout {
        add_curve_modulus: calc_idx(0x470),
        add_p_x: calc_idx(0x628),
        add_p_y: calc_idx(0x680),
        add_p_z: calc_idx(0x6d8),
        add_q_x: calc_idx(0x730),
        add_q_y: calc_idx(0x788),
        add_q_z: calc_idx(0x7e0),
        add_result_x: calc_idx(0xd60),
        add_result_y: calc_idx(0xdb8),
        arith_op_a: calc_idx(0xa50),
        math_result: calc_idx(0x620),
        montgomery_r2: calc_idx(0x4c8),
    }
}

fn ended(busy: bool, procend: bool) -> Status {
    Status {
        flags: Flags { operr: !procend, addrerr: false, ramerr: false, procend },
        busy,
    }
}

fn number_at(pka: &Pka, idx: usize, len: usize) -> Vec<u8> {
    let mut number = vec![0u8; len];
    pka_ram::read_slice(&pka.registers().ram, idx, &mut number);
    number
}

/// The accelerator has ended, and has put numbers in its RAM.
fn finish(pka: &mut Pka, success: bool, numbers: &[(usize, &[u8])]) -> PkaEvent {
    let mut ram = pka.registers().ram.clone();
    for (idx, number) in numbers {
        pka_ram::write_slice(&mut ram, *idx, number);
    }
    pka.observe(ended(false, success), ram);
    pka.handle_interrupt()
}

/// A client of the accelerator.
#[derive(Default)]
struct Mathematician {
    scalar: Vec<u8>,
    points: Vec<Vec<u8>>,
    modulus: Vec<u8>,
    numbers: Vec<Vec<u8>>,
    /// What the buffers held that operands were asked for in.
    offered: Vec<Vec<u8>>,
    written: Vec<Vec<u8>>,
    done: Vec<Result<(), ErrorCode>>,
}

impl Observed for Mathematician {
    fn log(&self) -> Log {
        unreachable!()
    }

    fn valid(&self) -> bool {
        unreachable!()
    }
}

impl EccClient for Mathematician {
    fn answers(&self, _call: Call, _later: &Self) -> bool {
        unreachable!()
    }

    fn read_scalar(&mut self, scalar: &mut [u8]) -> Result<(), ErrorCode> {
        self.offered.push(scalar.to_vec());
        scalar.copy_from_slice(&self.scalar);
        Ok(())
    }

    fn read_point(&mut self, point: &mut [u8]) -> Result<(), ErrorCode> {
        self.offered.push(point.to_vec());
        point.copy_from_slice(&self.points[0]);
        Ok(())
    }

    fn read_second_point(&mut self, point: &mut [u8]) -> Result<(), ErrorCode> {
        self.offered.push(point.to_vec());
        point.copy_from_slice(&self.points[1]);
        Ok(())
    }

    fn write_point(&mut self, point: &[u8]) -> Result<(), ErrorCode> {
        self.written.push(point.to_vec());
        Ok(())
    }

    fn operation_done(&mut self, result: Result<(), ErrorCode>) {
        self.done.push(result);
    }
}

impl MathClient<SupportedOp> for Mathematician {
    fn replies(&self, _call: Call, _later: &Self) -> bool {
        unreachable!()
    }

    fn read_modulus(&mut self, modulus: &mut [u8]) -> Result<(), ErrorCode> {
        self.offered.push(modulus.to_vec());
        modulus.copy_from_slice(&self.modulus);
        Ok(())
    }

    fn read_number(&mut self, num: &mut [u8]) {
        self.offered.push(num.to_vec());
        num.copy_from_slice(&self.numbers.remove(0));
    }

    fn write_number(&mut self, num: &[u8]) -> Result<(), ErrorCode> {
        self.written.push(num.to_vec());
        Ok(())
    }

    fn computation_completed(&mut self, result: Result<(), ErrorCode>) {
        self.done.push(result);
    }
}

#[test]
fn points_are_multiplied() {
    let mut client = Mathematician { scalar: vec![3; 32], ..Default::default() };
    let mut pka = Pka::new(layout());
    pka.set_ecc_client(0);
    assert_eq!(pka.scalar_multiplication(true, &mut client), Ok(()));
    assert_eq!(pka.registers().control.mode, Mode::MontgomeryECC);
    assert!(pka.registers().control.start);
    assert_eq!(number_at(&pka, K_IDX, 32), vec![3; 32]);
    assert_eq!(number_at(&pka, X_IDX, 32), NistP256Constants::generator_x());
    assert_eq!(number_at(&pka, Y_IDX, 32), NistP256Constants::generator_y());
    pka.observe(ended(true, false), pka.registers().ram.clone());
    assert_eq!(pka.scalar_multiplication(true, &mut client), Err(ErrorCode::BUSY));
    let event = finish(&mut pka, true, &[(RESULT_X_IDX, &[5; 32]), (RESULT_Y_IDX, &[6; 32])]);
    event.deliver_point(&mut client);
    assert_eq!(client.written.concat(), [[5u8; 32], [6u8; 32]].concat());
    assert_eq!(client.done, vec![Ok(())]);
}

#[test]
fn operands_are_read_into_zeros() {
    let mut client = Mathematician {
        scalar: vec![3; 32],
        points: vec![vec![1; 64]; 2],
        modulus: vec![9; 32],
        numbers: vec![vec![4; 32], vec![5; 32]],
        ..Default::default()
    };
    let mut pka = Pka::new(layout());
    pka.set_ecc_client(0);
    pka.set_math_client(0);
    assert_eq!(pka.scalar_multiplication(false, &mut client), Ok(()));
    assert_eq!(pka.point_addition(false, &mut client), Ok(()));
    assert_eq!(pka.start_computation(32, SupportedOp::Multiplication, &mut client), Ok(()));
    let lengths: Vec<usize> = client.offered.iter().map(|buffer| buffer.len()).collect();
    assert_eq!(lengths, vec![32, 64, 64, 64, 32, 32, 32]);
    assert!(client.offered.concat().iter().all(|byte| *byte == 0));
}

#[test]
fn failures_of_the_accelerator_are_reported() {
    let mut client = Mathematician { points: vec![vec![1; 64]; 2], ..Default::default() };
    let mut pka = Pka::new(layout());
    pka.set_ecc_client(0);
    assert_eq!(pka.point_addition(false, &mut client), Ok(()));
    finish(&mut pka, false, &[]).deliver_point(&mut client);
    assert_eq!(client.done, vec![Err(ErrorCode::FAIL)]);
    assert!(client.written.is_empty());
}

#[test]
fn points_are_checked() {
    let mut client = Mathematician { points: vec![vec![1; 64]], ..Default::default() };
    let mut pka = Pka::new(layout());
    pka.set_ecc_client(0);
    assert_eq!(pka.verify_point(&mut client), Ok(()));
    assert_eq!(pka.registers().control.mode, Mode::FpCheck);
    let mut ram = pka.registers().ram.clone();
    ram[layout().add_p_y] = 0xd60d;
    pka.observe(ended(false, true), ram);
    pka.handle_interrupt().deliver_point(&mut client);
    assert_eq!(pka.verify_point(&mut client), Ok(()));
    let mut ram = pka.registers().ram.clone();
    ram[layout().add_p_y] = 0xa3b7;
    pka.observe(ended(false, true), ram);
    pka.handle_interrupt().deliver_point(&mut client);
    assert_eq!(client.done, vec![Ok(()), Err(ErrorCode::INVAL)]);
}

#[test]
fn points_are_added_in_passes() {
    let mut client =
        Mathematician { points: vec![vec![1; 64], vec![2; 64]], ..Default::default() };
    let mut pka = Pka::new(layout());
    pka.set_ecc_client(0);
    assert_eq!(pka.point_addition(false, &mut client), Ok(()));
    assert_eq!(pka.registers().control.mode, Mode::ECCCompleteAddition);
    assert_eq!(number_at(&pka, layout().add_p_x, 32), vec![1; 32]);
    assert_eq!(number_at(&pka, layout().add_q_y, 32), vec![2; 32]);
    finish(&mut pka, true, &[]).deliver_point(&mut client);
    assert_eq!(pka.registers().control.mode, Mode::ECCProjectiveToAffine);
    for pass in 1..=3u8 {
        let results: [(usize, &[u8]); 2] =
            [(RESULT_X_IDX, &[pass; 32]), (RESULT_Y_IDX, &[10 * pass; 32])];
        finish(&mut pka, true, &results).deliver_point(&mut client);
    }
    assert_eq!(client.written, vec![vec![2; 32], vec![30; 32]]);
    assert_eq!(client.done, vec![Ok(())]);
}

#[test]
fn numbers_are_divided_by_way_of_the_inverse() {
    let mut client = Mathematician {
        modulus: vec![0xfb; 32],
        numbers: vec![vec![4; 32], vec![5; 32]],
        ..Default::default()
    };
    let mut pka = Pka::new(layout());
    pka.set_math_client(0);
    assert_eq!(pka.start_computation(32, SupportedOp::Division, &mut client), Ok(()));
    assert_eq!(pka.registers().control.mode, Mode::ModularInversion);
    assert_eq!(number_at(&pka, OP_A_IDX, 32), vec![4; 32]);
    assert_eq!(number_at(&pka, layout().arith_op_a, 32), vec![5; 32]);
    let result = layout().math_result;
    finish(&mut pka, true, &[(result, &[6; 32])]).deliver_number(&mut client);
    assert_eq!(pka.registers().control.mode, Mode::MontgomeryOnly);
    assert_eq!(number_at(&pka, EXP_IDX, 32), vec![6; 32]);
    finish(&mut pka, true, &[(result, &[7; 32])]).deliver_number(&mut client);
    assert_eq!(pka.registers().control.mode, Mode::MontgomeryMultiplication);
    assert_eq!(number_at(&pka, OP_A_IDX, 32), vec![4; 32]);
    assert_eq!(number_at(&pka, layout().arith_op_a, 32), vec![7; 32]);
    finish(&mut pka, true, &[(result, &[8; 32])]).deliver_number(&mut client);
    assert_eq!(number_at(&pka, OP_A_IDX, 32), vec![8; 32]);
    assert_eq!(number_at(&pka, layout().arith_op_a, 32), vec![6; 32]);
    assert!(client.done.is_empty());
    finish(&mut pka, true, &[(result, &[9; 32])]).deliver_number(&mut client);
    assert_eq!(client.written, vec![vec![9; 32]]);
    assert_eq!(client.done, vec![Ok(())]);
}

#[test]
fn exponentiations_are_checked() {
    let mut pka = Pka::new(layout());
    let code = |outcome: Result<(), (ErrorCode, Vec<u8>, Vec<u8>, Vec<u8>, Vec<u8>)>| match outcome {
        Ok(()) => None,
        Err((error, _, _, _, _)) => Some(error),
    };
    let short = pka.mod_exponent(vec![2], vec![7; 2], vec![3], vec![0]);
    assert_eq!(code(short), Some(ErrorCode::SIZE));
    let empty = pka.mod_exponent(vec![], vec![7; 2], vec![3], vec![0; 2]);
    assert_eq!(code(empty), Some(ErrorCode::SIZE));
    let zero = pka.mod_exponent(vec![2], vec![0; 2], vec![3], vec![0; 2]);
    assert_eq!(code(zero), Some(ErrorCode::INVAL));
    let longer = pka.mod_exponent(vec![2; 9], vec![7; 2], vec![3; 9], vec![1; 4]);
    assert_eq!(code(longer), None);
    assert_eq!(number_at(&pka, EXP_IDX, 4), vec![0, 0, 3, 3]);
    let again = pka.mod_exponent(vec![2], vec![7; 2], vec![3], vec![0; 2]);
    assert_eq!(code(again), Some(ErrorCode::BUSY));
    rsa_math::MathCryptoBase::set_client(&mut pka, 0);
    match finish(&mut pka, true, &[(RESULT_IDX, &[5, 6])]) {
        PkaEvent::ModExponentDone { output, .. } => assert_eq!(output, vec![5, 6, 1, 1]),
        _ => panic!("the exponentiation has ended"),
    }
}

#[test]
fn numbers_are_added() {
    let mut client = Mathematician {
        modulus: vec![0xff; 32],
        numbers: vec![vec![4; 32], vec![5; 32]],
        ..Default::default()
    };
    let mut pka = Pka::new(layout());
    pka.set_math_client(0);
    assert_eq!(pka.start_computation(32, SupportedOp::Addition, &mut client), Ok(()));
    assert_eq!(pka.registers().control.mode, Mode::ModularAddition);
    assert_eq!(number_at(&pka, layout().arith_op_a, 32), vec![4; 32]);
    assert_eq!(number_at(&pka, MOD_VALUE_IDX, 32), vec![0xff; 32]);
    let event = finish(&mut pka, true, &[(layout().math_result, &[9; 32])]);
    event.deliver_number(&mut client);
    assert_eq!(client.written, vec![vec![9; 32]]);
    assert_eq!(client.done, vec![Ok(())]);
}

#[test]
fn numbers_are_raised_to_powers() {
    let mut pka = Pka::new(layout());
    rsa_math::MathCryptoBase::set_client(&mut pka, 0);
    let started =
        pka.mod_exponent(vec![2; 16], vec![0xf1; 16], vec![3; 16], vec![0; 16]);
    assert!(started.is_ok());
    assert_eq!(pka.registers().control.mode, Mode::MontgomeryModularExp);
    match finish(&mut pka, true, &[(RESULT_IDX, &[8; 16])]) {
        PkaEvent::ModExponentDone { status, message, modulus, exponent, output } => {
            assert_eq!(status, Ok(true));
            assert_eq!(message, vec![2; 16]);
            assert_eq!(modulus, vec![0xf1; 16]);
            assert_eq!(exponent, vec![3; 16]);
            assert_eq!(output, vec![8; 16]);
        }
        _ => panic!("the exponentiation has ended"),
    }
}

/// Who wants numbers raised to powers.
#[derive(Default)]
struct Raiser {
    returned: Vec<(Result<bool, ErrorCode>, [Vec<u8>; 4])>,
}

impl Observed for Raiser {
    fn log(&self) -> Log {
        unreachable!()
    }

    fn valid(&self) -> bool {
        unreachable!()
    }
}

impl rsa_math::Client for Raiser {
    fn operation_done(
        &mut self,
        status: Result<bool, ErrorCode>,
        a: Vec<u8>,
        modulus: Vec<u8>,
        b: Vec<u8>,
        result: Vec<u8>,
    ) {
        self.returned.push((status, [a, modulus, b, result]));
    }
}

#[test]
fn powers_are_returned_with_the_buffers() {
    let mut client = Raiser::default();
    let mut pka = Pka::new(layout());
    rsa_math::MathCryptoBase::set_client(&mut pka, 0);
    for (ends_well, status, output) in
        [(true, Ok(true), vec![8; 16]), (false, Err(ErrorCode::FAIL), vec![0; 16])]
    {
        let started = pka.mod_exponent(vec![2; 16], vec![0xf1; 16], vec![3; 16], vec![0; 16]);
        assert!(started.is_ok());
        let event = finish(&mut pka, ends_well, &[(RESULT_IDX, &[8; 16])]);
        event.deliver_exponent(&mut client);
        let buffers = [vec![2; 16], vec![0xf1; 16], vec![3; 16], output];
        assert_eq!(client.returned.pop(), Some((status, buffers)));
        assert!(client.returned.is_empty());
    }
    PkaEvent::Nothing.deliver_exponent(&mut client);
    assert!(client.returned.is_empty());
}

#[test]
fn registers_of_the_accelerator_have_their_bits() {
    let control = Control {
        operrie: true,
        adderrie: false,
        ramerrie: false,
        procendie: true,
        mode: Mode::MontgomeryECC,
        start: true,
        en: true,
    };
    assert_eq!(control.bits(), 0x20_0000 + 0x2_0000 + 0x2000 + 3);
    let status = Status::from_bits(0x3_0000);
    assert!(status.busy && status.flags.procend && !status.flags.operr);
    assert_eq!(status.flags.bits(), 0x2_0000);
    assert_eq!(pka_ram::get_bitlen(&[0, 0x1f, 0xff]), 13);
}

#[test]
fn the_tester_goes_through_six_operations() {
    let mut tester = PkaTester::new();
    let mut pka = Pka::new(layout());
    pka.set_ecc_client(0);
    pka.set_math_client(0);
    let mut operations = vec![];
    let mut next = Some(tester.start());
    while let Some(start) = next {
        operations.push(start);
        assert_eq!(tester.perform(start, &mut pka), Ok(()));
        match start {
            Start::ScalarMultiplication => {
                assert_eq!(number_at(&pka, K_IDX, 32)[31], 3);
            }
            Start::Computation(SupportedOp::Multiplication) => {
                assert_eq!(number_at(&pka, MOD_VALUE_IDX, 32)[31], 0xfd);
                assert_eq!(number_at(&pka, OP_A_IDX, 32)[31], 5);
                assert_eq!(number_at(&pka, EXP_IDX, 32)[31], 7);
            }
            _ => {}
        }
        next = loop {
            let event = finish(&mut pka, true, &[]);
            match event {
                PkaEvent::Point { .. } => event.deliver_point(&mut tester),
                PkaEvent::Number { .. } => event.deliver_number(&mut tester),
                _ => {}
            }
            let next = tester.resume();
            if next.is_some() || tester.state() == TestState::Done {
                break next;
            }
        };
    }
    assert_eq!(
        operations,
        vec![
            Start::PointDoubling,
            Start::ScalarMultiplication,
            Start::PointAddition,
            Start::Computation(SupportedOp::Addition),
            Start::Computation(SupportedOp::Multiplication),
            Start::Computation(SupportedOp::Division),
        ]
    );
    let mut buffer = [0u8; 32];
    assert_eq!(tester.read_scalar(&mut buffer), Ok(()));
    assert_eq!(buffer[31], 3);
    tester.read_number(&mut buffer);
    assert_eq!(buffer[31], 5);
    tester.read_number(&mut buffer);
    assert_eq!(buffer[31], 7);
    assert_eq!(tester.read_modulus(&mut buffer), Ok(()));
    assert_eq!((buffer[0], buffer[31]), (0xff, 0xfd));
    assert_eq!(tester.read_scalar(&mut buffer[..8]), Err(ErrorCode::SIZE));
}
