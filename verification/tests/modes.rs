//! The software cipher modes over a block cipher driver, against published examples.
use tock_crypto::capsules::aes::{
    ModeMutexes, Ready, RO_INPUT, RO_IV, RO_KEY, RW_IV, RW_OUTPUT,
};
use tock_crypto::capsules::aes_software::{SoftwareDriver, SoftwareMutexes};
use tock_crypto::driver_mutex::{
    DriverMutex, DriverMutexClient, Kind, MutexNumber, MutexNumbers, Resource,
};
use tock_crypto::error::ErrorCode;
use tock_crypto::grant::{App, Grant};
use tock_crypto::hil::cipher::{
    Aes128, CbcClient, CcmClient, CcmTagLength, CtrClient, Ecb, EcbClient, GcmClient, GcmTagLength,
    Operation,
};
use tock_crypto::hil::trace::{Log, Observed};
use tock_crypto::sw::cbc::SoftwareCbc;
use tock_crypto::sw::ccm::SoftwareCcm;
use tock_crypto::sw::ctr::SoftwareCtr;
use tock_crypto::sw::gcm::SoftwareGcm;

/// The identity that is drawn after `before` others.
fn identity(before: usize) -> MutexNumber {
    let mut numbers = MutexNumbers::new();
    for _ in 0..before {
        assert!(numbers.draw().is_some());
    }
    numbers.draw().unwrap()
}

fn hex(text: &str) -> Vec<u8> {
    let digits: Vec<u8> = text
        .chars()
        .filter(|c| !c.is_whitespace())
        .map(|c| c.to_digit(16).unwrap() as u8)
        .collect();
    digits.chunks(2).map(|pair| pair[0] * 16 + pair[1]).collect()
}

fn times(a: u8, b: u8) -> u8 {
    let (mut a, mut b, mut product) = (a, b, 0u8);
    while b != 0 {
        if b & 1 != 0 {
            product ^= a;
        }
        a = (a << 1) ^ if a & 0x80 != 0 { 0x1b } else { 0 };
        b >>= 1;
    }
    product
}

fn sbox(x: u8) -> u8 {
    let mut inverse = 0;
    for candidate in 1..=255u8 {
        if times(x, candidate) == 1 {
            inverse = candidate;
        }
    }
    inverse
        ^ inverse.rotate_left(1)
        ^ inverse.rotate_left(2)
        ^ inverse.rotate_left(3)
        ^ inverse.rotate_left(4)
        ^ 0x63
}

/// AES-128 of single blocks.
struct Aes {
    forward: Vec<u8>,
    backward: Vec<u8>,
    round_keys: Vec<[u8; 16]>,
}

impl Aes {
    fn new(key: &[u8]) -> Aes {
        let forward: Vec<u8> = (0..=255u8).map(sbox).collect();
        let mut backward = vec![0u8; 256];
        for (i, s) in forward.iter().enumerate() {
            backward[*s as usize] = i as u8;
        }
        let mut words: Vec<[u8; 4]> = key.chunks(4).map(|w| [w[0], w[1], w[2], w[3]]).collect();
        let mut constant = 1u8;
        for i in 4..44 {
            let mut word = words[i - 1];
            if i % 4 == 0 {
                word.rotate_left(1);
                for byte in word.iter_mut() {
                    *byte = forward[*byte as usize];
                }
                word[0] ^= constant;
                constant = times(constant, 2);
            }
            for (byte, earlier) in word.iter_mut().zip(words[i - 4]) {
                *byte ^= earlier;
            }
            words.push(word);
        }
        let round_keys = words
            .chunks(4)
            .map(|ws| {
                let mut key = [0u8; 16];
                for (i, w) in ws.iter().enumerate() {
                    key[i * 4..i * 4 + 4].copy_from_slice(w);
                }
                key
            })
            .collect();
        Aes { forward, backward, round_keys }
    }

    fn add(state: &mut [u8; 16], key: &[u8; 16]) {
        for (byte, other) in state.iter_mut().zip(key) {
            *byte ^= other;
        }
    }

    fn mix(state: &mut [u8; 16], row: [u8; 4]) {
        for column in state.chunks_mut(4) {
            let old = [column[0], column[1], column[2], column[3]];
            for i in 0..4 {
                column[i] = (0..4).fold(0, |sum, j| sum ^ times(old[j], row[(j + 4 - i) % 4]));
            }
        }
    }

    fn encrypt(&self, block: &[u8]) -> [u8; 16] {
        let mut state = [0u8; 16];
        state.copy_from_slice(block);
        Aes::add(&mut state, &self.round_keys[0]);
        for round in 1..=10 {
            let mut shifted = [0u8; 16];
            for i in 0..16 {
                shifted[i] = self.forward[state[(i + 4 * (i % 4)) % 16] as usize];
            }
            state = shifted;
            if round < 10 {
                Aes::mix(&mut state, [2, 3, 1, 1]);
            }
            Aes::add(&mut state, &self.round_keys[round]);
        }
        state
    }

    fn decrypt(&self, block: &[u8]) -> [u8; 16] {
        let mut state = [0u8; 16];
        state.copy_from_slice(block);
        for round in (1..=10).rev() {
            Aes::add(&mut state, &self.round_keys[round]);
            if round < 10 {
                Aes::mix(&mut state, [14, 11, 13, 9]);
            }
            let mut shifted = [0u8; 16];
            for i in 0..16 {
                shifted[(i + 4 * (i % 4)) % 16] = self.backward[state[i] as usize];
            }
            state = shifted;
        }
        Aes::add(&mut state, &self.round_keys[0]);
        state
    }
}

/// A block cipher driver that remembers what it was asked to do.
#[derive(Default)]
struct TestEcb {
    asked: Option<(usize, Operation)>,
    refusal: Option<ErrorCode>,
    client: Option<usize>,
}

impl Observed for TestEcb {
    fn log(&self) -> Log {
        unreachable!()
    }

    fn valid(&self) -> bool {
        unreachable!()
    }
}

impl Resource for TestEcb {
    fn kind() -> Kind {
        unreachable!()
    }

    fn resource_kind() -> Kind {
        Kind { number: 100, over: 0 }
    }
}

impl Ecb<Aes128> for TestEcb {
    fn crypt(&mut self, len: usize, operation: Operation) -> Result<(), ErrorCode> {
        match self.refusal {
            Some(error) => Err(error),
            None => {
                self.asked = Some((len, operation));
                Ok(())
            }
        }
    }

    fn set_client(&mut self, client: usize) {
        self.client = Some(client);
    }
}

/// Runs what the driver was asked for against its client.
fn serve<K: EcbClient<Aes128>>(client: &mut K, len: usize, operation: Operation) {
    assert_eq!(len, 16);
    let mut key = [0u8; 16];
    assert_eq!(client.read_key(&mut key), Ok(()));
    let aes = Aes::new(&key);
    let mut block = [0u8; 16];
    let (front, back) = block.split_at_mut(5);
    assert_eq!(client.read_input(front), Ok(5));
    assert_eq!(client.read_input(back), Ok(11));
    let output = match operation {
        Operation::Encrypt => aes.encrypt(&block),
        Operation::Decrypt => aes.decrypt(&block),
    };
    assert_eq!(client.write_output(&output[..7]), Ok(()));
    assert_eq!(client.write_output(&output[7..]), Ok(()));
    client.crypt_done(Ok(()));
}

/// A client of any mode, which hands out its data in pieces.
#[derive(Default)]
struct Client {
    key: Vec<u8>,
    iv: Vec<u8>,
    counter: Vec<u8>,
    associated_data: Vec<u8>,
    input: Vec<u8>,
    tag: Vec<u8>,
    chunk: usize,
    associated_data_offset: usize,
    input_offset: usize,
    output: Vec<u8>,
    next_iv: Vec<u8>,
    tag_out: Vec<u8>,
    input_error: Option<ErrorCode>,
    done: Vec<Result<(), ErrorCode>>,
}

impl Client {
    fn piece(data: &[u8], offset: &mut usize, chunk: usize, buffer: &mut [u8]) -> usize {
        let count = buffer.len().min(data.len() - *offset).min(chunk);
        buffer[..count].copy_from_slice(&data[*offset..*offset + count]);
        *offset += count;
        count
    }

    fn give_input(&mut self, buffer: &mut [u8]) -> Result<usize, ErrorCode> {
        match self.input_error {
            Some(error) => Err(error),
            None => Ok(Client::piece(&self.input, &mut self.input_offset, self.chunk, buffer)),
        }
    }

    fn give_associated_data(&mut self, buffer: &mut [u8]) -> Result<usize, ErrorCode> {
        Ok(Client::piece(
            &self.associated_data,
            &mut self.associated_data_offset,
            self.chunk,
            buffer,
        ))
    }

    fn give_key(&self, key: &mut [u8]) -> Result<(), ErrorCode> {
        key.copy_from_slice(&self.key);
        Ok(())
    }
}

impl Observed for Client {
    fn log(&self) -> Log {
        unreachable!()
    }

    fn valid(&self) -> bool {
        unreachable!()
    }
}

impl CbcClient<Aes128> for Client {
    fn read_key(&mut self, key: &mut [u8]) -> Result<(), ErrorCode> {
        self.give_key(key)
    }

    fn read_iv(&mut self, iv: &mut [u8]) -> Result<(), ErrorCode> {
        iv.copy_from_slice(&self.iv);
        Ok(())
    }

    fn read_input(&mut self, input: &mut [u8]) -> Result<usize, ErrorCode> {
        self.give_input(input)
    }

    fn write_output(&mut self, output: &[u8]) -> Result<(), ErrorCode> {
        self.output.extend_from_slice(output);
        Ok(())
    }

    fn write_iv(&mut self, iv: &[u8]) -> Result<(), ErrorCode> {
        self.next_iv = iv.to_vec();
        Ok(())
    }

    fn crypt_done(&mut self, result: Result<(), ErrorCode>) {
        self.done.push(result);
    }
}

impl CtrClient<Aes128> for Client {
    fn read_key(&mut self, key: &mut [u8]) -> Result<(), ErrorCode> {
        self.give_key(key)
    }

    fn read_nonce(&mut self, nonce: &mut [u8]) -> Result<usize, ErrorCode> {
        nonce[..self.iv.len()].copy_from_slice(&self.iv);
        Ok(self.iv.len())
    }

    fn read_counter(&mut self, counter: &mut [u8]) -> Result<usize, ErrorCode> {
        counter[..self.counter.len()].copy_from_slice(&self.counter);
        Ok(self.counter.len())
    }

    fn read_input(&mut self, input: &mut [u8]) -> Result<usize, ErrorCode> {
        self.give_input(input)
    }

    fn write_output(&mut self, output: &[u8]) -> Result<(), ErrorCode> {
        self.output.extend_from_slice(output);
        Ok(())
    }

    fn crypt_done(&mut self, result: Result<(), ErrorCode>) {
        self.done.push(result);
    }
}

impl CcmClient<Aes128> for Client {
    fn read_key(&mut self, key: &mut [u8]) -> Result<(), ErrorCode> {
        self.give_key(key)
    }

    fn read_nonce(&mut self, nonce: &mut [u8]) -> Result<usize, ErrorCode> {
        nonce[..self.iv.len()].copy_from_slice(&self.iv);
        Ok(self.iv.len())
    }

    fn read_associated_data(&mut self, buffer: &mut [u8]) -> Result<usize, ErrorCode> {
        self.give_associated_data(buffer)
    }

    fn read_input(&mut self, input: &mut [u8]) -> Result<usize, ErrorCode> {
        self.give_input(input)
    }

    fn write_output(&mut self, output: &[u8]) -> Result<(), ErrorCode> {
        self.output.extend_from_slice(output);
        Ok(())
    }

    fn crypt_done(&mut self, result: Result<(), ErrorCode>) {
        self.done.push(result);
    }
}

impl GcmClient<Aes128> for Client {
    fn read_key(&mut self, key: &mut [u8]) -> Result<(), ErrorCode> {
        self.give_key(key)
    }

    fn read_iv(&mut self, iv: &mut [u8]) -> Result<(), ErrorCode> {
        iv.copy_from_slice(&self.iv);
        Ok(())
    }

    fn read_associated_data(&mut self, buffer: &mut [u8]) -> Result<usize, ErrorCode> {
        self.give_associated_data(buffer)
    }

    fn read_input(&mut self, input: &mut [u8]) -> Result<usize, ErrorCode> {
        self.give_input(input)
    }

    fn read_tag(&mut self, tag: &mut [u8]) -> Result<(), ErrorCode> {
        tag.copy_from_slice(&self.tag);
        Ok(())
    }

    fn write_output(&mut self, output: &[u8]) -> Result<(), ErrorCode> {
        self.output.extend_from_slice(output);
        Ok(())
    }

    fn write_tag(&mut self, tag: &[u8]) -> Result<(), ErrorCode> {
        self.tag_out.extend_from_slice(tag);
        Ok(())
    }

    fn crypt_done(&mut self, result: Result<(), ErrorCode>) {
        self.done.push(result);
    }
}

fn mutex() -> DriverMutex<TestEcb> {
    DriverMutex::new(identity(1), TestEcb::default(), 2, 3)
}

fn run_cbc(client: &mut Client, len: usize, operation: Operation) -> Result<(), ErrorCode> {
    let mut mutex = mutex();
    let mut cbc = SoftwareCbc::new(0, vec![0u8; 64]);
    assert_eq!(cbc.register(&mut mutex), Ok(()));
    cbc.set_client(0);
    cbc.crypt(&mut mutex, len, operation)?;
    assert_eq!(cbc.crypt(&mut mutex, len, operation), Err(ErrorCode::BUSY));
    let (_, guard) = mutex.handle_deferred_call().unwrap();
    cbc.ready(guard, &mut mutex, client);
    while let Some((len, operation)) = mutex.serviced().asked.take() {
        serve(&mut cbc, len, operation);
        cbc.resume(&mut mutex, client);
    }
    Ok(())
}

fn run_ctr(client: &mut Client, len: usize, operation: Operation) -> Result<(), ErrorCode> {
    let mut mutex = mutex();
    let mut ctr = SoftwareCtr::new(0, vec![0u8; 64]);
    assert_eq!(ctr.register(&mut mutex), Ok(()));
    ctr.set_client(0);
    ctr.crypt(&mut mutex, len, operation)?;
    let (_, guard) = mutex.handle_deferred_call().unwrap();
    ctr.ready(guard, &mut mutex, client);
    while let Some((len, operation)) = mutex.serviced().asked.take() {
        serve(&mut ctr, len, operation);
        ctr.resume(&mut mutex, client);
    }
    Ok(())
}

fn run_ccm(
    client: &mut Client,
    len: usize,
    tag_len: CcmTagLength,
    operation: Operation,
) -> Result<(), ErrorCode> {
    let mut mutex = mutex();
    let mut ccm = SoftwareCcm::new(0, vec![0u8; 64]);
    assert_eq!(ccm.register(&mut mutex), Ok(()));
    ccm.set_client(0);
    ccm.crypt(&mut mutex, len, client.associated_data.len(), tag_len, operation)?;
    let (_, guard) = mutex.handle_deferred_call().unwrap();
    ccm.ready(guard, &mut mutex, client);
    while let Some((len, operation)) = mutex.serviced().asked.take() {
        serve(&mut ccm, len, operation);
        ccm.resume(&mut mutex, client);
    }
    Ok(())
}

fn run_gcm(
    client: &mut Client,
    len: usize,
    tag_len: GcmTagLength,
    operation: Operation,
) -> Result<(), ErrorCode> {
    let mut mutex = mutex();
    let mut gcm = SoftwareGcm::new(0, vec![0u8; 80]);
    assert_eq!(gcm.register(&mut mutex), Ok(()));
    gcm.set_client(0);
    gcm.crypt(&mut mutex, len, client.associated_data.len(), tag_len, operation)?;
    let (_, guard) = mutex.handle_deferred_call().unwrap();
    gcm.ready(guard, &mut mutex, client);
    while let Some((len, operation)) = mutex.serviced().asked.take() {
        serve(&mut gcm, len, operation);
        gcm.resume(&mut mutex, client);
    }
    Ok(())
}

const KEY: &str = "2b7e151628aed2a6abf7158809cf4f3c";
const PLAIN: &str = "6bc1bee22e409f96e93d7e117393172a ae2d8a571e03ac9c9eb76fac45af8e51
    30c81c46a35ce411e5fbc1191a0a52ef f69f2445df4f9b17ad2b417be66c3710";

#[test]
fn counter_capacity_rejects_wrap() {
    assert!(SoftwareCtr::<TestEcb>::counter_can_advance(&[0xfe], 1));
    assert!(!SoftwareCtr::<TestEcb>::counter_can_advance(&[0xff], 1));
    assert!(SoftwareCtr::<TestEcb>::counter_can_advance(&[0xfe, 0xff], 0x100));
    assert!(!SoftwareCtr::<TestEcb>::counter_can_advance(&[0xff, 0x00], 0x100));
}

#[test]
fn ghash_nist_zero_key_block() {
    let hash_key = [
        0x66, 0xe9, 0x4b, 0xd4, 0xef, 0x8a, 0x2c, 0x3b, 0x88, 0x4c, 0xfa, 0x59, 0xca, 0x34, 0x2b,
        0x2e,
    ];
    let ciphertext = [
        0x03, 0x88, 0xda, 0xce, 0x60, 0xb6, 0xa3, 0x92, 0xf3, 0x28, 0xc2, 0xb9, 0x71, 0xb2, 0xfe,
        0x78,
    ];
    let ciphertext_hash = [
        0x5e, 0x2e, 0xc7, 0x46, 0x91, 0x70, 0x62, 0x88, 0x2c, 0x85, 0xb0, 0x68, 0x53, 0x53, 0xde,
        0xb7,
    ];

    assert_eq!(SoftwareGcm::<TestEcb>::multiply(ciphertext, hash_key), ciphertext_hash);

    let mut length_block = [0; 16];
    length_block[8..].copy_from_slice(&128_u64.to_be_bytes());
    for (byte, length_byte) in length_block.iter_mut().zip(ciphertext_hash) {
        *byte ^= length_byte;
    }
    assert_eq!(
        SoftwareGcm::<TestEcb>::multiply(length_block, hash_key),
        [
            0xf3, 0x8c, 0xbb, 0x1a, 0xd6, 0x92, 0x23, 0xdc, 0xc3, 0x45, 0x7a, 0xe5, 0xb6, 0xb0,
            0xf8, 0x85,
        ]
    );

    let tag_mask = [
        0x58, 0xe2, 0xfc, 0xce, 0xfa, 0x7e, 0x30, 0x61, 0x36, 0x7f, 0x1d, 0x57, 0xa4, 0xe7, 0x45,
        0x5a,
    ];
    let mut tag = SoftwareGcm::<TestEcb>::multiply(length_block, hash_key);
    for (tag_byte, mask_byte) in tag.iter_mut().zip(tag_mask) {
        *tag_byte ^= mask_byte;
    }
    assert_eq!(
        tag,
        [
            0xab, 0x6e, 0x47, 0xd4, 0x2c, 0xec, 0x13, 0xbd, 0xf5, 0x3a, 0x67, 0xb2, 0x12, 0x57,
            0xbd, 0xdf,
        ]
    );
}

#[test]
fn block_cipher_of_the_tests_is_aes() {
    let aes = Aes::new(&hex("000102030405060708090a0b0c0d0e0f"));
    let plain = hex("00112233445566778899aabbccddeeff");
    let cipher = aes.encrypt(&plain);
    assert_eq!(cipher.to_vec(), hex("69c4e0d86a7b0430d8cdb78070b4c55a"));
    assert_eq!(aes.decrypt(&cipher).to_vec(), plain);
}

#[test]
fn cbc_encrypts_the_nist_example() {
    let mut client = Client {
        key: hex(KEY),
        iv: hex("000102030405060708090a0b0c0d0e0f"),
        input: hex(PLAIN),
        chunk: 13,
        ..Default::default()
    };
    assert_eq!(run_cbc(&mut client, 64, Operation::Encrypt), Ok(()));
    let expected = hex(
        "7649abac8119b246cee98e9b12e9197d 5086cb9b507219ee95db113a917678b2
         73bed6b8e3c1743b7116e69e22229516 3ff1caa1681fac09120eca307586e1a7",
    );
    assert_eq!(client.output, expected);
    assert_eq!(client.next_iv, expected[48..]);
    assert_eq!(client.done, vec![Ok(())]);
}

#[test]
fn cbc_decrypts_what_it_encrypted() {
    let cipher = hex(
        "7649abac8119b246cee98e9b12e9197d 5086cb9b507219ee95db113a917678b2
         73bed6b8e3c1743b7116e69e22229516 3ff1caa1681fac09120eca307586e1a7",
    );
    let mut client = Client {
        key: hex(KEY),
        iv: hex("000102030405060708090a0b0c0d0e0f"),
        input: cipher.clone(),
        chunk: 64,
        ..Default::default()
    };
    assert_eq!(run_cbc(&mut client, 64, Operation::Decrypt), Ok(()));
    assert_eq!(client.output, hex(PLAIN));
    assert_eq!(client.next_iv, cipher[48..]);
    assert_eq!(client.done, vec![Ok(())]);
}

#[test]
fn cbc_refuses_parts_of_blocks_and_too_much() {
    let mut client = Client::default();
    assert_eq!(run_cbc(&mut client, 15, Operation::Encrypt), Err(ErrorCode::INVAL));
    assert_eq!(run_cbc(&mut client, 80, Operation::Encrypt), Err(ErrorCode::SIZE));
    assert_eq!(client.done, vec![]);
    let mut mutex = mutex();
    let mut cbc = SoftwareCbc::new(0, vec![0u8; 64]);
    assert_eq!(cbc.crypt(&mut mutex, 16, Operation::Encrypt), Err(ErrorCode::OFF));
    assert_eq!(cbc.register(&mut mutex), Ok(()));
    assert_eq!(cbc.register(&mut mutex), Err(ErrorCode::ALREADY));
    assert_eq!(cbc.crypt(&mut mutex, 16, Operation::Encrypt), Err(ErrorCode::OFF));
}

#[test]
fn errors_of_the_client_end_the_operation() {
    let mut client = Client {
        key: hex(KEY),
        iv: hex("000102030405060708090a0b0c0d0e0f"),
        input_error: Some(ErrorCode::NOMEM),
        ..Default::default()
    };
    assert_eq!(run_cbc(&mut client, 16, Operation::Encrypt), Ok(()));
    assert_eq!(client.done, vec![Err(ErrorCode::NOMEM)]);
    assert!(client.output.is_empty());
    // No progress is as bad.
    client.input_error = None;
    client.done.clear();
    client.input = hex(PLAIN);
    client.chunk = 0;
    assert_eq!(run_cbc(&mut client, 16, Operation::Encrypt), Ok(()));
    assert_eq!(client.done, vec![Err(ErrorCode::INVAL)]);
}

#[test]
fn a_refusal_of_the_driver_ends_the_operation() {
    let mut client = Client {
        key: hex(KEY),
        iv: hex("000102030405060708090a0b0c0d0e0f"),
        input: hex(PLAIN),
        chunk: 64,
        ..Default::default()
    };
    let mut mutex = mutex();
    mutex.serviced().refusal = Some(ErrorCode::BUSY);
    let mut cbc = SoftwareCbc::new(0, vec![0u8; 64]);
    assert_eq!(cbc.register(&mut mutex), Ok(()));
    cbc.set_client(0);
    assert_eq!(cbc.crypt(&mut mutex, 16, Operation::Encrypt), Ok(()));
    let (_, guard) = mutex.handle_deferred_call().unwrap();
    cbc.ready(guard, &mut mutex, &mut client);
    assert_eq!(client.done, vec![Err(ErrorCode::BUSY)]);
    // The mutex is free again.
    mutex.serviced().refusal = None;
    assert_eq!(cbc.crypt(&mut mutex, 16, Operation::Encrypt), Ok(()));
    assert!(mutex.handle_deferred_call().is_some());
}

#[test]
fn ctr_masks_the_nist_example() {
    let mut client = Client {
        key: hex(KEY),
        iv: hex("f0f1f2f3f4f5f6f7f8f9fafb"),
        counter: hex("fcfdfeff"),
        input: hex(PLAIN),
        chunk: 30,
        ..Default::default()
    };
    assert_eq!(run_ctr(&mut client, 64, Operation::Encrypt), Ok(()));
    assert_eq!(
        client.output,
        hex("874d6191b620e3261bef6864990db6ce 9806f66b7970fdff8617187bb9fffdff
             5ae4df3edbd5d35e5b4f09020db03eab 1e031dda2fbe03d1792170a0f3009cee")
    );
    assert_eq!(client.done, vec![Ok(())]);
    let mut back = Client {
        input: client.output.clone(),
        output: vec![],
        done: vec![],
        input_offset: 0,
        ..client
    };
    assert_eq!(run_ctr(&mut back, 64, Operation::Decrypt), Ok(()));
    assert_eq!(back.output, hex(PLAIN));
}

#[test]
fn ctr_masks_part_of_a_block() {
    let mut client = Client {
        key: hex(KEY),
        iv: hex("f0f1f2f3f4f5f6f7f8f9fafb"),
        counter: hex("fcfdfeff"),
        input: hex(PLAIN)[..19].to_vec(),
        chunk: 64,
        ..Default::default()
    };
    assert_eq!(run_ctr(&mut client, 19, Operation::Encrypt), Ok(()));
    assert_eq!(client.output, hex("874d6191b620e3261bef6864990db6ce 9806f6"));
}

#[test]
fn ctr_refuses_a_counter_that_would_wrap() {
    let mut client = Client {
        key: hex(KEY),
        iv: hex("f0f1f2f3f4f5f6f7f8f9fafbfcfdfe"),
        counter: hex("ff"),
        input: hex(PLAIN),
        chunk: 64,
        ..Default::default()
    };
    assert_eq!(run_ctr(&mut client, 32, Operation::Encrypt), Ok(()));
    assert_eq!(client.done, vec![Err(ErrorCode::SIZE)]);
    assert!(client.output.is_empty());
}

fn ccm_client(iv: &str, aad: &str, input: &str) -> Client {
    Client {
        key: hex("404142434445464748494a4b4c4d4e4f"),
        iv: hex(iv),
        associated_data: hex(aad),
        input: hex(input),
        chunk: 7,
        ..Default::default()
    }
}

#[test]
fn ccm_encrypts_the_nist_examples() {
    let mut client = ccm_client("10111213141516", "0001020304050607", "20212223");
    assert_eq!(run_ccm(&mut client, 4, CcmTagLength::Tag32, Operation::Encrypt), Ok(()));
    assert_eq!(client.output, hex("7162015b 4dac255d"));
    assert_eq!(client.done, vec![Ok(())]);

    let mut client = ccm_client(
        "1011121314151617",
        "000102030405060708090a0b0c0d0e0f",
        "202122232425262728292a2b2c2d2e2f",
    );
    assert_eq!(run_ccm(&mut client, 16, CcmTagLength::Tag48, Operation::Encrypt), Ok(()));
    assert_eq!(client.output, hex("d2a1f0e051ea5f62081a7792073d593d 1fc64fbfaccd"));

    let mut client = ccm_client(
        "101112131415161718191a1b",
        "000102030405060708090a0b0c0d0e0f10111213",
        "202122232425262728292a2b2c2d2e2f3031323334353637",
    );
    assert_eq!(run_ccm(&mut client, 24, CcmTagLength::Tag64, Operation::Encrypt), Ok(()));
    assert_eq!(
        client.output,
        hex("e3b201a9f5b71a7a9b1ceaeccd97e70b6176aad9a4428aa5 484392fbc1b09951")
    );
}

#[test]
fn ccm_authenticates_long_associated_data() {
    // 65536 bytes need the longer length prefix.
    let mut client = Client {
        key: hex("404142434445464748494a4b4c4d4e4f"),
        iv: hex("101112131415161718191a1b1c"),
        associated_data: (0..65536).map(|i| i as u8).collect(),
        input: hex("202122232425262728292a2b2c2d2e2f303132333435363738393a3b3c3d3e3f"),
        chunk: 1000,
        ..Default::default()
    };
    assert_eq!(run_ccm(&mut client, 32, CcmTagLength::Tag112, Operation::Encrypt), Ok(()));
    assert_eq!(
        client.output,
        hex("69915dad1e84c6376a68c2967e4dab615ae0fd1faec44cc484828529463ccf72
             b4ac6bec93e8598e7f0dadbcea5b")
    );
}

#[test]
fn ccm_decrypts_only_what_is_authentic() {
    let mut client = ccm_client("10111213141516", "0001020304050607", "7162015b 4dac255d");
    assert_eq!(run_ccm(&mut client, 4, CcmTagLength::Tag32, Operation::Decrypt), Ok(()));
    assert_eq!(client.output, hex("20212223"));
    assert_eq!(client.done, vec![Ok(())]);

    for wrong in ["7162015c 4dac255d", "7162015b 4dac255c"] {
        let mut client = ccm_client("10111213141516", "0001020304050607", wrong);
        assert_eq!(run_ccm(&mut client, 4, CcmTagLength::Tag32, Operation::Decrypt), Ok(()));
        assert!(client.output.is_empty());
        assert_eq!(client.done, vec![Err(ErrorCode::FAIL)]);
    }
}

#[test]
fn ccm_refuses_bad_lengths() {
    let mut client = ccm_client("101112131415", "", "20212223");
    assert_eq!(run_ccm(&mut client, 4, CcmTagLength::Tag32, Operation::Encrypt), Ok(()));
    assert_eq!(client.done, vec![Err(ErrorCode::INVAL)]);
    let mut client = ccm_client("10111213141516", "", "20212223");
    assert_eq!(
        run_ccm(&mut client, 50, CcmTagLength::Tag128, Operation::Encrypt),
        Err(ErrorCode::SIZE)
    );
    assert!(SoftwareCcm::<TestEcb>::payload_fits_nonce(65535, 13));
    assert!(!SoftwareCcm::<TestEcb>::payload_fits_nonce(65536, 13));
    assert!(SoftwareCcm::<TestEcb>::payload_fits_nonce(65536, 12));
    assert_eq!(SoftwareCcm::<TestEcb>::aad_prefix(8).0[..2], [0, 8]);
    assert_eq!(SoftwareCcm::<TestEcb>::aad_prefix(8).1, 2);
    assert_eq!(SoftwareCcm::<TestEcb>::aad_prefix(0xff00).0[..6], [0xff, 0xfe, 0, 0, 0xff, 0]);
    assert_eq!(SoftwareCcm::<TestEcb>::aad_prefix(0xff00).1, 6);
}

fn gcm_client() -> Client {
    Client {
        key: hex("feffe9928665731c6d6a8f9467308308"),
        iv: hex("cafebabefacedbaddecaf888"),
        associated_data: hex("feedfacedeadbeeffeedfacedeadbeefabaddad2"),
        input: hex(
            "d9313225f88406e5a55909c5aff5269a 86a7a9531534f7da2e4c303d8a318a72
             1c3c0c95956809532fcf0e2449a6b525 b16aedf5aa0de657ba637b39",
        ),
        chunk: 11,
        ..Default::default()
    }
}

const GCM_CIPHER: &str = "42831ec2217774244b7221b784d0d49c e3aa212f2c02a4e035c17e2329aca12e
    21d514b25466931c7d8f6a5aac84aa05 1ba30b396a0aac973d58e091";

#[test]
fn gcm_encrypts_the_published_examples() {
    let mut client = Client {
        key: vec![0; 16],
        iv: vec![0; 12],
        chunk: 16,
        ..Default::default()
    };
    assert_eq!(run_gcm(&mut client, 0, GcmTagLength::Tag128, Operation::Encrypt), Ok(()));
    assert_eq!(client.tag_out, hex("58e2fccefa7e3061367f1d57a4e7455a"));
    assert_eq!(client.done, vec![Ok(())]);

    let mut client = Client {
        key: vec![0; 16],
        iv: vec![0; 12],
        input: vec![0; 16],
        chunk: 16,
        ..Default::default()
    };
    assert_eq!(run_gcm(&mut client, 16, GcmTagLength::Tag128, Operation::Encrypt), Ok(()));
    assert_eq!(client.output, hex("0388dace60b6a392f328c2b971b2fe78"));
    assert_eq!(client.tag_out, hex("ab6e47d42cec13bdf53a67b21257bddf"));

    let mut client = gcm_client();
    assert_eq!(run_gcm(&mut client, 60, GcmTagLength::Tag128, Operation::Encrypt), Ok(()));
    assert_eq!(client.output, hex(GCM_CIPHER));
    assert_eq!(client.tag_out, hex("5bc94fbc3221a5db94fae95ae7121a47"));

    // A shorter tag is the front of the longer one.
    let mut client = gcm_client();
    assert_eq!(run_gcm(&mut client, 60, GcmTagLength::Tag104, Operation::Encrypt), Ok(()));
    assert_eq!(client.tag_out, hex("5bc94fbc3221a5db94fae95ae7"));
}

#[test]
fn gcm_decrypts_only_what_is_authentic() {
    let mut client = gcm_client();
    let plain = client.input.clone();
    client.input = hex(GCM_CIPHER);
    client.tag = hex("5bc94fbc3221a5db94fae95ae7121a47");
    assert_eq!(run_gcm(&mut client, 60, GcmTagLength::Tag128, Operation::Decrypt), Ok(()));
    assert_eq!(client.output, plain);
    assert_eq!(client.done, vec![Ok(())]);

    let mut client = gcm_client();
    client.input = hex(GCM_CIPHER);
    client.tag = hex("5bc94fbc3221a5db94fae95ae7121a48");
    assert_eq!(run_gcm(&mut client, 60, GcmTagLength::Tag128, Operation::Decrypt), Ok(()));
    assert!(client.output.is_empty());
    assert_eq!(client.done, vec![Err(ErrorCode::FAIL)]);
}

#[test]
fn tag_lengths_are_what_their_names_say() {
    assert_eq!(CcmTagLength::Tag32.bytes(), 4);
    assert_eq!(CcmTagLength::Tag112.bytes(), 14);
    assert_eq!(GcmTagLength::Tag104.bytes(), 13);
    assert_eq!(GcmTagLength::Tag128.bytes(), 16);
}

#[test]
fn processes_are_served_by_the_software_modes() {
    let mut mutexes: SoftwareMutexes<TestEcb> = ModeMutexes {
        cbc: DriverMutex::new(identity(10), SoftwareCbc::new(1, vec![0; 64]), 1, 2),
        ccm: DriverMutex::new(identity(20), SoftwareCcm::new(2, vec![0; 64]), 1, 2),
        ctr: DriverMutex::new(identity(30), SoftwareCtr::new(3, vec![0; 64]), 1, 2),
        ecb: DriverMutex::new(identity(40), TestEcb::default(), 5, 6),
        gcm: DriverMutex::new(identity(50), SoftwareGcm::new(4, vec![0; 64]), 1, 2),
    };
    let mut ecb = DriverMutex::new(identity(40), TestEcb::default(), 5, 6);
    std::mem::swap(&mut ecb, &mut mutexes.ecb);
    assert_eq!(mutexes.cbc.serviced().register(&mut ecb), Ok(()));
    assert_eq!(mutexes.gcm.serviced().register(&mut ecb), Ok(()));
    mutexes.ecb = ecb;

    let mut readonly = vec![Err(ErrorCode::RESERVE); 7];
    readonly[RO_KEY] = Ok(hex(KEY));
    readonly[RO_IV] = Ok((0..16).collect());
    readonly[RO_INPUT] = Ok(hex(PLAIN)[..16].to_vec());
    let mut readwrite = vec![Err(ErrorCode::RESERVE); 3];
    readwrite[RW_OUTPUT] = Ok(vec![0; 16]);
    readwrite[RW_IV] = Ok(vec![0; 16]);
    let apps = vec![App { fault: None, readonly, readwrite, upcalls: vec![] }];
    let mut driver: SoftwareDriver<TestEcb> = SoftwareDriver::new(Grant { apps });
    assert_eq!(driver.register(&mut mutexes, 77), Ok(()));

    // CBC, which has the block cipher work.
    assert_eq!(driver.command(1, 0, 0, 0, &mut mutexes), Ok(()));
    let (_, guard) = mutexes.cbc.handle_deferred_call().unwrap();
    let request = match driver.ready(guard) {
        Ready::Start(request) => request,
        _ => panic!("the mode is to be started"),
    };
    assert_eq!(driver.perform(request, 77, &mut mutexes), Ok(()));
    let (client, guard) = mutexes.ecb.handle_deferred_call().unwrap();
    assert_eq!(client, 1);
    mutexes.cbc.serviced().ready(guard, &mut mutexes.ecb, &mut driver);
    while let Some((len, operation)) = mutexes.ecb.serviced().asked.take() {
        serve(mutexes.cbc.serviced(), len, operation);
        mutexes.cbc.serviced().resume(&mut mutexes.ecb, &mut driver);
    }
    assert_eq!(
        driver.apps().apps[0].readwrite[RW_OUTPUT],
        Ok(hex("7649abac8119b246cee98e9b12e9197d"))
    );
    assert_eq!(driver.apps().apps[0].upcalls.len(), 1);
    while let Some(guard) = driver.take_dropped() {
        match guard {
            tock_crypto::capsules::aes::ModeGuard::Cbc(guard) => mutexes.cbc.release(guard),
            _ => panic!("the guard is of CBC"),
        }
    }

    // ECB, which refuses.
    mutexes.ecb.serviced().refusal = Some(ErrorCode::NOSUPPORT);
    assert_eq!(driver.command(1, 3, 0, 0, &mut mutexes), Ok(()));
    let (_, guard) = mutexes.ecb.handle_deferred_call().unwrap();
    driver.attend(guard, 77, &mut mutexes);
    assert_eq!(mutexes.ecb.serviced().client, Some(77));
    assert!(driver.take_dropped().is_none());
    let upcalls = &driver.apps().apps[0].upcalls;
    assert_eq!(upcalls[1].status, Err(ErrorCode::NOSUPPORT));
}

#[test]
fn products_in_the_field_of_ghash_commute_and_associate() {
    let block = |seed: u8| -> [u8; 16] {
        let mut block = [0u8; 16];
        for (i, byte) in block.iter_mut().enumerate() {
            *byte = seed.wrapping_mul(37).wrapping_add((i as u8).wrapping_mul(91));
        }
        block
    };
    let (a, b, c) = (block(1), block(2), block(3));
    let times = SoftwareGcm::<TestEcb>::multiply;
    assert_eq!(times(a, b), times(b, a));
    assert_eq!(times(times(a, b), c), times(a, times(b, c)));
    let mut one = [0u8; 16];
    one[0] = 0x80;
    assert_eq!(times(one, a), a);
    assert_eq!(times([0; 16], a), [0; 16]);
}
