//! The drivers that hash, derive keys and sign, over an HMAC driver.
use tock_crypto::capsules::ecdsa::{self, EcdsaP256SignatureSigner, Start, Step};
use tock_crypto::capsules::ecdsa_drivers::Drivers;
use tock_crypto::capsules::hkdf::Hkdf;
use tock_crypto::capsules::test::failure::Failure;
use tock_crypto::capsules::test::hash::TestHash;
use tock_crypto::capsules::test::hkdf::{KeyState, TestHkdf};
use tock_crypto::capsules::test::hmac::TestHmac;
use tock_crypto::driver_mutex::{DriverMutex, Kind, MutexNumber, MutexNumbers, Resource};
use tock_crypto::error::ErrorCode;
use tock_crypto::grant::{App, Grant, Upcall};
use tock_crypto::hil::digest::{Algorithm, Client, Digest, Hmac, HmacClient};
use tock_crypto::hil::ecc_constants::NistP256Constants;
use tock_crypto::hil::ecc_math::{EccClient, EccCrypto};
use tock_crypto::hil::modular_arithmetic::{
    MathClient, MathCryptoBase, MathOperation, OpAddition, OpDivision, OpKind, OpModulo,
    OpMultiplication,
};
use tock_crypto::hil::trace::{Log, Observed};
use tock_crypto::stm32u5::pka::SupportedOp;

/// The identity that is drawn after `before` others.
fn identity(before: usize) -> MutexNumber {
    let mut numbers = MutexNumbers::new();
    for _ in 0..before {
        assert!(numbers.draw().is_some());
    }
    numbers.draw().unwrap()
}

fn hex(text: &str) -> Vec<u8> {
    let digits: Vec<u8> = text
        .chars()
        .filter(|c| !c.is_whitespace())
        .map(|c| c.to_digit(16).unwrap() as u8)
        .collect();
    digits.chunks(2).map(|pair| pair[0] * 16 + pair[1]).collect()
}

fn number(text: &str) -> [u8; 32] {
    let mut number = [0u8; 32];
    number.copy_from_slice(&hex(text));
    number
}

fn root_bits(prime: u64, cube: bool) -> u32 {
    // The first 32 bits of the fractional part of a root.
    let scaled = (prime as u128) << if cube { 96 } else { 64 };
    let (mut low, mut high) = (0u128, 1u128 << 40);
    while high - low > 1 {
        let middle = (low + high) / 2;
        let power = if cube { middle * middle * middle } else { middle * middle };
        if power <= scaled {
            low = middle;
        } else {
            high = middle;
        }
    }
    low as u32
}

fn sha256(message: &[u8]) -> [u8; 32] {
    let primes: Vec<u64> =
        (2..312u64).filter(|n| (2..*n).all(|d| n % d != 0)).take(64).collect();
    let constants: Vec<u32> = primes.iter().map(|p| root_bits(*p, true)).collect();
    let mut state: Vec<u32> = primes[..8].iter().map(|p| root_bits(*p, false)).collect();
    let mut padded = message.to_vec();
    padded.push(0x80);
    while padded.len() % 64 != 56 {
        padded.push(0);
    }
    padded.extend_from_slice(&(message.len() as u64 * 8).to_be_bytes());
    for block in padded.chunks(64) {
        let mut w: Vec<u32> = block
            .chunks(4)
            .map(|b| u32::from_be_bytes([b[0], b[1], b[2], b[3]]))
            .collect();
        for i in 16..64 {
            let s0 = w[i - 15].rotate_right(7) ^ w[i - 15].rotate_right(18) ^ (w[i - 15] >> 3);
            let s1 = w[i - 2].rotate_right(17) ^ w[i - 2].rotate_right(19) ^ (w[i - 2] >> 10);
            w.push(
                w[i - 16]
                    .wrapping_add(s0)
                    .wrapping_add(w[i - 7])
                    .wrapping_add(s1),
            );
        }
        let mut v = state.clone();
        for i in 0..64 {
            let s1 = v[4].rotate_right(6) ^ v[4].rotate_right(11) ^ v[4].rotate_right(25);
            let choice = (v[4] & v[5]) ^ (!v[4] & v[6]);
            let t1 = v[7]
                .wrapping_add(s1)
                .wrapping_add(choice)
                .wrapping_add(constants[i])
                .wrapping_add(w[i]);
            let s0 = v[0].rotate_right(2) ^ v[0].rotate_right(13) ^ v[0].rotate_right(22);
            let majority = (v[0] & v[1]) ^ (v[0] & v[2]) ^ (v[1] & v[2]);
            let t2 = s0.wrapping_add(majority);
            v.rotate_right(1);
            v[4] = v[4].wrapping_add(t1);
            v[0] = t1.wrapping_add(t2);
        }
        for (s, x) in state.iter_mut().zip(v) {
            *s = s.wrapping_add(x);
        }
    }
    let mut digest = [0u8; 32];
    for (i, word) in state.iter().enumerate() {
        digest[i * 4..i * 4 + 4].copy_from_slice(&word.to_be_bytes());
    }
    digest
}

fn hmac_sha256(key: &[u8], message: &[u8]) -> [u8; 32] {
    let mut block = [0u8; 64];
    block[..key.len()].copy_from_slice(key);
    let inner: Vec<u8> = block.iter().map(|b| b ^ 0x36).chain(message.iter().copied()).collect();
    let outer: Vec<u8> = block.iter().map(|b| b ^ 0x5c).chain(sha256(&inner)).collect();
    sha256(&outer)
}

#[derive(Clone, Copy, Debug, PartialEq)]
enum Asked {
    Hash(Algorithm, usize),
    Authenticate(Algorithm, usize, usize),
}

/// A driver that remembers what it was asked to do.
#[derive(Default)]
struct Engine {
    asked: Option<Asked>,
    refusal: Option<ErrorCode>,
    client: Option<usize>,
    hmac_client: Option<usize>,
    cleared: usize,
}

impl Observed for Engine {
    fn log(&self) -> Log {
        unreachable!()
    }

    fn valid(&self) -> bool {
        unreachable!()
    }
}

impl Resource for Engine {
    fn kind() -> Kind {
        unreachable!()
    }

    fn resource_kind() -> Kind {
        Kind { number: 300, over: 0 }
    }
}

impl Digest for Engine {
    fn hash(&mut self, algorithm: Algorithm, len: usize) -> Result<(), ErrorCode> {
        if let Some(error) = self.refusal {
            return Err(error);
        }
        self.asked = Some(Asked::Hash(algorithm, len));
        Ok(())
    }

    fn clear_data(&mut self) {
        self.cleared += 1;
    }

    fn set_client(&mut self, client: usize) {
        self.client = Some(client);
    }
}

impl Hmac for Engine {
    fn authenticate(
        &mut self,
        algorithm: Algorithm,
        input_len: usize,
        key_len: usize,
    ) -> Result<(), ErrorCode> {
        if let Some(error) = self.refusal {
            return Err(error);
        }
        self.asked = Some(Asked::Authenticate(algorithm, input_len, key_len));
        Ok(())
    }

    fn set_hmac_client(&mut self, client: usize) {
        self.hmac_client = Some(client);
    }
}

fn take_input<K: Client>(client: &mut K, len: usize) -> Result<Vec<u8>, ErrorCode> {
    let mut message = vec![0u8; len];
    let mut offset = 0;
    while offset < len {
        let end = len.min(offset + 10);
        offset += client.read_input(&mut message[offset..end])?;
    }
    Ok(message)
}

fn take_key<K: HmacClient>(client: &mut K, len: usize) -> Result<Vec<u8>, ErrorCode> {
    let mut key = vec![0u8; len];
    let mut offset = 0;
    while offset < len {
        let end = len.min(offset + 12);
        offset += client.read_key(&mut key[offset..end])?;
    }
    Ok(key)
}

fn give_output<K: Client>(client: &mut K, digest: &[u8]) -> Result<(), ErrorCode> {
    client.write_output(&digest[..9])?;
    client.write_output(&digest[9..])
}

/// Computes what was asked for, and reports how it ended.
fn serve_hash<K: Client>(client: &mut K, asked: Asked) {
    let result = match asked {
        Asked::Hash(Algorithm::Sha256, len) => {
            take_input(client, len).and_then(|message| give_output(client, &sha256(&message)))
        }
        _ => Err(ErrorCode::NOSUPPORT),
    };
    client.hash_done(result);
}

fn serve_hmac<K: HmacClient>(client: &mut K, asked: Asked) {
    let result = match asked {
        Asked::Authenticate(Algorithm::Sha256, input_len, key_len) => {
            take_key(client, key_len).and_then(|key| {
                let message = take_input(client, input_len)?;
                // The key is read a second time, for the outer digest.
                assert_eq!(take_key(client, key_len)?, key);
                give_output(client, &hmac_sha256(&key, &message))
            })
        }
        _ => Err(ErrorCode::NOSUPPORT),
    };
    client.hash_done(result);
}

fn mutex() -> DriverMutex<Engine> {
    DriverMutex::new(identity(1), Engine::default(), 2, 3)
}

fn grant(readonly: Vec<Vec<u8>>, readwrite: Vec<Vec<u8>>) -> Grant {
    Grant {
        apps: vec![App {
            fault: None,
            readonly: readonly.into_iter().map(Ok).collect(),
            readwrite: readwrite.into_iter().map(Ok).collect(),
            upcalls: vec![],
        }],
    }
}

#[test]
fn digest_of_the_tests_is_sha256() {
    assert_eq!(
        sha256(b"abc").to_vec(),
        hex("ba7816bf8f01cfea414140de5dae2223b00361a396177a9cb410ff61f20015ad")
    );
    assert_eq!(
        hmac_sha256(b"Jefe", b"what do ya want for nothing?").to_vec(),
        hex("5bdcc146bf60754e6a042426089575c75a003f089d2739839dec58b964ec3843")
    );
}

fn hash_driver(input: &[u8], output_len: usize) -> tock_crypto::capsules::hash::Hash<Engine> {
    tock_crypto::capsules::hash::Hash::new(
        4,
        vec![0; 64],
        grant(vec![input.to_vec()], vec![vec![0; output_len]]),
    )
}

#[test]
fn processes_get_digests() {
    let mut mutex = mutex();
    let mut driver = hash_driver(b"abc", 32);
    assert_eq!(driver.command(1, 3, 0, &mut mutex), Err(ErrorCode::OFF));
    assert_eq!(driver.register(&mut mutex), Ok(()));
    assert_eq!(driver.register(&mut mutex), Err(ErrorCode::ALREADY));
    assert_eq!(driver.command(0, 0, 0, &mut mutex), Ok(()));
    assert_eq!(driver.command(2, 0, 0, &mut mutex), Err(ErrorCode::NOSUPPORT));
    assert_eq!(driver.command(1, 8, 0, &mut mutex), Err(ErrorCode::INVAL));
    assert_eq!(driver.command(1, 5, 0, &mut mutex), Err(ErrorCode::INVAL));
    assert_eq!(driver.command(1, 3, 0, &mut mutex), Ok(()));
    assert_eq!(driver.command(1, 3, 0, &mut mutex), Err(ErrorCode::BUSY));
    let (client, guard) = mutex.handle_deferred_call().unwrap();
    assert_eq!(client, 4);
    driver.ready(guard, &mut mutex);
    assert_eq!(mutex.serviced().client, Some(4));
    let asked = mutex.serviced().asked.take().unwrap();
    assert_eq!(asked, Asked::Hash(Algorithm::Sha256, 3));
    serve_hash(&mut driver, asked);
    driver.resume(&mut mutex);
    let app = &driver.apps().apps[0];
    assert_eq!(app.readwrite[0], Ok(sha256(b"abc").to_vec()));
    assert_eq!(app.upcalls, vec![Upcall { number: 0, status: Ok(()), arg1: 32, arg2: 0 }]);
    assert_eq!(mutex.serviced().cleared, 1);
    // A second end tells nobody.
    driver.resume(&mut mutex);
    assert_eq!(driver.apps().apps[0].upcalls.len(), 1);
}

#[test]
fn a_hash_driver_that_does_not_start_ends_the_operation() {
    let mut mutex = mutex();
    mutex.serviced().refusal = Some(ErrorCode::NOSUPPORT);
    let mut driver = hash_driver(b"abc", 32);
    assert_eq!(driver.register(&mut mutex), Ok(()));
    assert_eq!(driver.command(1, 3, 0, &mut mutex), Ok(()));
    let (_, guard) = mutex.handle_deferred_call().unwrap();
    driver.ready(guard, &mut mutex);
    assert_eq!(
        driver.apps().apps[0].upcalls,
        vec![Upcall { number: 0, status: Err(ErrorCode::NOSUPPORT), arg1: 0, arg2: 0 }]
    );
    assert_eq!(driver.command(1, 3, 0, &mut mutex), Ok(()));
}

#[test]
fn input_goes_out_by_dma() {
    let mut mutex = mutex();
    let mut driver = tock_crypto::capsules::hash::Hash::<Engine>::new(
        4,
        vec![0; 4],
        grant(vec![b"abcdef".to_vec()], vec![vec![0; 32]]),
    );
    assert_eq!(driver.register(&mut mutex), Ok(()));
    assert_eq!(driver.command(1, 3, 0, &mut mutex), Ok(()));
    let (_, guard) = mutex.handle_deferred_call().unwrap();
    driver.ready(guard, &mut mutex);
    let slice = driver.start_feeding(&mut mutex).unwrap();
    assert_eq!(slice.data[slice.start..slice.end], *b"abcd");
    // The next buffer goes on where the first one ended.
    let slice = driver.dma_buffer_done(Ok(()), slice.data, &mut mutex).unwrap();
    assert_eq!(slice.data[slice.start..slice.end], *b"ef");
    assert!(driver.dma_buffer_done(Ok(()), slice.data, &mut mutex).is_none());
    assert!(driver.apps().apps[0].upcalls.is_empty());
}

const OKM: &str = "3cb25f25faacd57a90434f64d0362f2a2d2d0a90cf1a5a4c5db02d56ecc4c5bf34007208d5b887185865";
const PRK: &str = "077709362c2e32df0ddc3f0dc47bba6390b6c73bb50f9c3122ec844ad7c2b3e5";

fn run_hkdf(driver: &mut Hkdf<Engine>, mutex: &mut DriverMutex<Engine>) -> Vec<Asked> {
    let mut all = vec![];
    let (_, guard) = mutex.handle_deferred_call().unwrap();
    driver.ready(guard, mutex);
    while let Some(asked) = mutex.serviced().asked.take() {
        all.push(asked);
        serve_hmac(driver, asked);
        driver.resume(mutex);
    }
    all
}

#[test]
fn processes_derive_keys_as_the_first_published_example() {
    let mut mutex = mutex();
    let mut driver = Hkdf::<Engine>::new(
        5,
        grant(
            vec![
                hex("000102030405060708090a0b0c"),
                vec![0x0b; 22],
                hex("f0f1f2f3f4f5f6f7f8f9"),
            ],
            vec![vec![0; 32], vec![0; 42]],
        ),
    );
    assert_eq!(driver.command(1, 3, 13, 0, &mut mutex), Err(ErrorCode::OFF));
    assert_eq!(driver.register(&mut mutex), Ok(()));
    assert_eq!(driver.command(1, 3, 65, 0, &mut mutex), Err(ErrorCode::INVAL));
    assert_eq!(driver.command(1, 9, 13, 0, &mut mutex), Err(ErrorCode::INVAL));
    assert_eq!(driver.command(1, 3, 13, 0, &mut mutex), Ok(()));
    let asked = run_hkdf(&mut driver, &mut mutex);
    assert_eq!(mutex.serviced().hmac_client, Some(5));
    assert_eq!(mutex.serviced().client, None);
    let app = &driver.apps().apps[0];
    assert_eq!(app.upcalls, vec![Upcall { number: 0, status: Ok(()), arg1: 0, arg2: 0 }]);
    assert_eq!(app.readwrite[0], Ok(hex(PRK)));
    assert_eq!(app.readwrite[1], Ok(hex(OKM)));
    assert_eq!(
        asked,
        vec![
            Asked::Authenticate(Algorithm::Sha256, 22, 13),
            Asked::Authenticate(Algorithm::Sha256, 11, 32),
            Asked::Authenticate(Algorithm::Sha256, 43, 32),
        ]
    );
}

#[test]
fn keys_longer_than_255_digests_are_refused() {
    for (len, expected) in [(255 * 32, Ok(())), (255 * 32 + 1, Err(ErrorCode::INVAL))] {
        let mut mutex = mutex();
        let mut driver = Hkdf::<Engine>::new(
            5,
            grant(vec![vec![], vec![0x0b; 22], vec![]], vec![vec![0; 32], vec![0; len]]),
        );
        assert_eq!(driver.register(&mut mutex), Ok(()));
        assert_eq!(driver.command(1, 3, 0, 0, &mut mutex), expected);
    }
}

#[test]
fn keys_without_salt_and_info_are_as_the_third_published_example() {
    let mut mutex = mutex();
    let mut driver = Hkdf::<Engine>::new(
        5,
        grant(vec![vec![], vec![0x0b; 22], vec![]], vec![vec![0; 32], vec![0; 42]]),
    );
    assert_eq!(driver.register(&mut mutex), Ok(()));
    assert_eq!(driver.command(1, 3, 0, 0, &mut mutex), Ok(()));
    run_hkdf(&mut driver, &mut mutex);
    let app = &driver.apps().apps[0];
    assert_eq!(
        app.readwrite[0],
        Ok(hex("19ef24a32c717b167f33a91d6f648bdf96596776afdb6377ac434c1c293ccb04"))
    );
    assert_eq!(
        app.readwrite[1],
        Ok(hex(
            "8da4e775a563c18f715f802a063c5a31b8a11f5c5ee1879ec3454e5f3c738d2d
             9d201395faa4b61a96c8"
        ))
    );
}

#[test]
fn hash_test_accepts_only_the_expected_digest() {
    for (expected, failure) in [
        (sha256(b"abc").to_vec(), None),
        (
            {
                let mut wrong = sha256(b"abc").to_vec();
                wrong[20] ^= 1;
                wrong
            },
            Some(Failure::Mismatch { expected: sha256(b"abc")[20] ^ 1, index: 20 }),
        ),
    ] {
        let mut mutex = mutex();
        let mut test =
            TestHash::<Engine>::new(2, Algorithm::Sha256, b"abc".to_vec(), expected.clone());
        test.set_client(77);
        assert_eq!(test.run(&mut mutex), Err(ErrorCode::OFF));
        assert_eq!(test.register(&mut mutex), Ok(()));
        assert_eq!(test.run(&mut mutex), Ok(()));
        let (_, guard) = mutex.handle_deferred_call().unwrap();
        test.ready(guard, &mut mutex);
        let asked = mutex.serviced().asked.take().unwrap();
        serve_hash(&mut test, asked);
        let told = test.resume(&mut mutex);
        assert_eq!(test.failure(), failure);
        assert_eq!(told, if failure.is_none() { Some(77) } else { None });
        assert_eq!(mutex.serviced().cleared, 1);
    }
}

#[test]
fn hash_test_asks_for_a_fitting_buffer() {
    let mut mutex = mutex();
    let mut test = TestHash::<Engine>::new(2, Algorithm::Sha256, b"abc".to_vec(), vec![0; 31]);
    assert_eq!(test.register(&mut mutex), Ok(()));
    assert_eq!(test.run(&mut mutex), Err(ErrorCode::FAIL));
    assert_eq!(test.failure(), Some(Failure::WrongLength { wanted: 32, got: 31 }));
}

#[test]
fn hash_test_stops_at_reads_past_the_end() {
    let mut mutex = mutex();
    let mut test = TestHash::<Engine>::new(2, Algorithm::Sha256, b"abc".to_vec(), vec![0; 32]);
    assert_eq!(test.register(&mut mutex), Ok(()));
    assert_eq!(test.run(&mut mutex), Ok(()));
    let mut buffer = [0u8; 4];
    assert_eq!(test.read_input(&mut buffer), Ok(3));
    assert_eq!(test.read_input(&mut buffer), Err(ErrorCode::FAIL));
    assert_eq!(test.failure(), Some(Failure::NothingToRead { offset: 3, size: 3 }));
}

#[test]
fn hash_test_stops_if_the_driver_does_not_start_or_fails() {
    let mut mutex = mutex();
    mutex.serviced().refusal = Some(ErrorCode::BUSY);
    let mut test = TestHash::<Engine>::new(2, Algorithm::Sha256, b"abc".to_vec(), vec![0; 32]);
    assert_eq!(test.register(&mut mutex), Ok(()));
    assert_eq!(test.run(&mut mutex), Ok(()));
    let (_, guard) = mutex.handle_deferred_call().unwrap();
    test.ready(guard, &mut mutex);
    assert_eq!(test.failure(), Some(Failure::NotStarted(ErrorCode::BUSY)));

    let mut test = TestHash::<Engine>::new(2, Algorithm::Sha256, b"abc".to_vec(), vec![0; 32]);
    test.hash_done(Err(ErrorCode::CANCEL));
    assert_eq!(test.resume(&mut mutex), None);
    assert_eq!(test.failure(), Some(Failure::Driver(ErrorCode::CANCEL)));
}

#[test]
fn hmac_test_accepts_the_published_example() {
    let mut mutex = mutex();
    let mut test = TestHmac::<Engine>::new(
        2,
        Algorithm::Sha256,
        b"what do ya want for nothing?".to_vec(),
        hex("5bdcc146bf60754e6a042426089575c75a003f089d2739839dec58b964ec3843"),
        b"Jefe".to_vec(),
    );
    test.set_client(1);
    assert_eq!(test.register(&mut mutex), Ok(()));
    assert_eq!(test.run(&mut mutex), Ok(()));
    let (_, guard) = mutex.handle_deferred_call().unwrap();
    test.ready(guard, &mut mutex);
    let asked = mutex.serviced().asked.take().unwrap();
    assert_eq!(asked, Asked::Authenticate(Algorithm::Sha256, 28, 4));
    serve_hmac(&mut test, asked);
    assert_eq!(test.resume(&mut mutex), Some(1));
    assert_eq!(test.failure(), None);
}

#[test]
fn hmac_test_stops_at_too_much_output() {
    let mut test =
        TestHmac::<Engine>::new(2, Algorithm::Sha256, vec![1], vec![7; 32], vec![2]);
    assert_eq!(test.write_output(&[7; 32]), Ok(()));
    assert_eq!(test.write_output(&[7]), Err(ErrorCode::FAIL));
    assert_eq!(test.failure(), Some(Failure::TooMuchOutput { offset: 32, size: 32 }));
}

fn hkdf_test(correct: Vec<u8>) -> (TestHkdf<Engine>, Option<usize>) {
    let mut mutex = mutex();
    let mut test = TestHkdf::<Engine>::new(
        2,
        Algorithm::Sha256,
        vec![0x0b; 22],
        Some(hex("000102030405060708090a0b0c")),
        vec![0; 32],
        Some(hex("f0f1f2f3f4f5f6f7f8f9")),
        vec![0; 42],
        correct,
    );
    test.set_client(9);
    let mut key = [0u8; 4];
    assert_eq!(test.read_key(&mut key), Err(ErrorCode::ALREADY));
    assert_eq!(test.register(&mut mutex), Ok(()));
    assert_eq!(test.run(&mut mutex), Ok(()));
    let (_, guard) = mutex.handle_deferred_call().unwrap();
    test.ready(guard, &mut mutex);
    let mut told = None;
    while let Some(asked) = mutex.serviced().asked.take() {
        serve_hmac(&mut test, asked);
        told = test.resume(&mut mutex);
    }
    (test, told)
}

#[test]
fn hkdf_test_accepts_the_published_example() {
    let (test, told) = hkdf_test(hex(OKM));
    assert_eq!(test.failure(), None);
    assert_eq!(told, Some(9));
}

#[test]
fn hkdf_test_refuses_anything_else() {
    let mut wrong = hex(OKM);
    wrong[41] ^= 0x80;
    let (test, told) = hkdf_test(wrong.clone());
    assert_eq!(test.failure(), Some(Failure::Mismatch { expected: wrong[41], index: 41 }));
    assert_eq!(told, None);
}

#[test]
fn hkdf_test_asks_for_fitting_buffers() {
    let mut mutex = mutex();
    let mut test = TestHkdf::<Engine>::new(
        2,
        Algorithm::Sha256,
        vec![1],
        Some(vec![0; 65]),
        vec![0; 32],
        None,
        vec![0; 42],
        vec![0; 42],
    );
    assert_eq!(test.register(&mut mutex), Ok(()));
    assert_eq!(test.run(&mut mutex), Err(ErrorCode::FAIL));
    assert_eq!(test.failure(), Some(Failure::WrongLength { wanted: 64, got: 65 }));
}

#[test]
fn the_outer_key_follows_the_inner_one() {
    assert_eq!(KeyState::InnerKey.update(), Some(KeyState::OuterKey));
    assert_eq!(KeyState::OuterKey.update(), None);
    use_hkdf_key_state();
}

fn use_hkdf_key_state() {
    let first = tock_crypto::capsules::hkdf::KeyState::InnerKey;
    assert_eq!(first.update(), Some(tock_crypto::capsules::hkdf::KeyState::OuterKey));
}

/// Numbers of 256 bits modulo another one, most significant byte first.
fn less(a: &[u8; 32], b: &[u8; 32]) -> bool {
    a < b
}

fn subtract(a: &mut [u8; 32], b: &[u8; 32]) {
    let mut borrow = 0i16;
    for i in (0..32).rev() {
        let difference = a[i] as i16 - b[i] as i16 - borrow;
        borrow = i16::from(difference < 0);
        a[i] = difference.rem_euclid(256) as u8;
    }
}

fn reduce(a: &[u8; 32], n: &[u8; 32]) -> [u8; 32] {
    let mut a = *a;
    while !less(&a, n) {
        subtract(&mut a, n);
    }
    a
}

fn add_mod(a: &[u8; 32], b: &[u8; 32], n: &[u8; 32]) -> [u8; 32] {
    let mut sum = [0u8; 32];
    let mut carry = 0u16;
    for i in (0..32).rev() {
        let total = a[i] as u16 + b[i] as u16 + carry;
        sum[i] = total as u8;
        carry = total >> 8;
    }
    if carry != 0 || !less(&sum, n) {
        subtract(&mut sum, n);
    }
    sum
}

fn times_mod(a: &[u8; 32], b: &[u8; 32], n: &[u8; 32]) -> [u8; 32] {
    let mut product = [0u8; 32];
    for byte in b {
        for bit in (0..8).rev() {
            product = add_mod(&product, &product, n);
            if byte >> bit & 1 == 1 {
                product = add_mod(&product, a, n);
            }
        }
    }
    product
}

fn divide_mod(a: &[u8; 32], b: &[u8; 32], n: &[u8; 32]) -> [u8; 32] {
    // b to the power of n - 2 is its inverse.
    let mut exponent = *n;
    let mut two = [0u8; 32];
    two[31] = 2;
    subtract(&mut exponent, &two);
    let mut power = [0u8; 32];
    power[31] = 1;
    for byte in exponent {
        for bit in (0..8).rev() {
            power = times_mod(&power, &power, n);
            if byte >> bit & 1 == 1 {
                power = times_mod(&power, b, n);
            }
        }
    }
    times_mod(a, &power, n)
}

/// The operations of a driver that has all that a signer needs.
#[derive(Clone, Copy, Debug, PartialEq)]
enum Calculation {
    Addition,
    Multiplication,
    Division,
    Modulo,
}

impl OpKind for Calculation {
    fn kind(self) -> MathOperation {
        unreachable!()
    }
}

impl OpAddition for Calculation {
    fn addition() -> Self {
        Calculation::Addition
    }
}

impl OpMultiplication for Calculation {
    fn multiplication() -> Self {
        Calculation::Multiplication
    }
}

impl OpDivision for Calculation {
    fn division() -> Self {
        Calculation::Division
    }
}

impl OpModulo for Calculation {
    fn modulo() -> Self {
        Calculation::Modulo
    }
}

#[derive(Default)]
struct Points {
    client: Option<usize>,
    scalar: Option<[u8; 32]>,
}

#[derive(Default)]
struct Numbers {
    client: Option<usize>,
    refusal: Option<ErrorCode>,
    asked: Vec<(usize, Calculation)>,
}

impl Observed for Points {
    fn log(&self) -> Log {
        unreachable!()
    }

    fn valid(&self) -> bool {
        unreachable!()
    }
}

impl Observed for Numbers {
    fn log(&self) -> Log {
        unreachable!()
    }

    fn valid(&self) -> bool {
        unreachable!()
    }
}

impl EccCrypto<32> for Points {
    fn set_ecc_client(&mut self, client: usize) {
        self.client = Some(client);
    }

    fn clear_ecc_data(&mut self) {}

    fn point_doubling<K: EccClient>(
        &mut self,
        _use_curve_generator: bool,
        _client: &mut K,
    ) -> Result<(), ErrorCode> {
        Err(ErrorCode::NOSUPPORT)
    }

    fn point_addition<K: EccClient>(
        &mut self,
        _use_curve_generator: bool,
        _client: &mut K,
    ) -> Result<(), ErrorCode> {
        Err(ErrorCode::NOSUPPORT)
    }

    fn scalar_multiplication<K: EccClient>(
        &mut self,
        use_curve_generator: bool,
        client: &mut K,
    ) -> Result<(), ErrorCode> {
        assert!(use_curve_generator);
        let mut scalar = [0u8; 32];
        client.read_scalar(&mut scalar)?;
        self.scalar = Some(scalar);
        Ok(())
    }
}

impl MathCryptoBase<Calculation> for Numbers {
    fn takes_len(_modulus_len: usize) -> bool {
        unreachable!()
    }

    fn set_math_client(&mut self, client: usize) {
        self.client = Some(client);
    }

    fn start_computation<K: MathClient<Calculation>>(
        &mut self,
        modulus_len: usize,
        operation: Calculation,
        client: &mut K,
    ) -> Result<(), ErrorCode> {
        let mut modulus = [0u8; 32];
        client.read_modulus(&mut modulus)?;
        if let Some(error) = self.refusal {
            return Err(error);
        }
        self.asked.push((modulus_len, operation));
        Ok(())
    }

    fn clear_math_data(&mut self) {}
}

impl Resource for Points {
    fn kind() -> Kind {
        unreachable!()
    }

    fn resource_kind() -> Kind {
        Kind { number: 301, over: 0 }
    }
}

impl Resource for Numbers {
    fn kind() -> Kind {
        unreachable!()
    }

    fn resource_kind() -> Kind {
        Kind { number: 302, over: 0 }
    }
}

type Signer = EcdsaP256SignatureSigner<Points, SupportedOp, Numbers, Engine>;

/// The three drivers of a signer, with what the multiplication of points gives.
struct Bench {
    points: DriverMutex<Points>,
    numbers: DriverMutex<Numbers>,
    hmac: DriverMutex<Engine>,
    /// The x-coordinates that come out, one after the other.
    x: Vec<[u8; 32]>,
    scalars: Vec<[u8; 32]>,
    operations: Vec<Start>,
}

impl Bench {
    fn new(x: Vec<[u8; 32]>) -> Bench {
        Bench {
            points: DriverMutex::new(identity(1), Points::default(), 1, 2),
            numbers: DriverMutex::new(identity(2), Numbers::default(), 1, 2),
            hmac: DriverMutex::new(identity(3), Engine::default(), 1, 2),
            x,
            scalars: vec![],
            operations: vec![],
        }
    }

    fn register(&mut self, signer: &mut Signer) {
        assert_eq!(signer.register_ecc(&mut self.points, 0), Ok(()));
        assert_eq!(signer.register_math(&mut self.numbers, 0), Ok(()));
        assert_eq!(signer.register_hmac(&mut self.hmac, 0), Ok(()));
        assert_eq!(signer.register_hmac(&mut self.hmac, 0), Err(ErrorCode::ALREADY));
    }

    fn operand(signer: &mut Signer) -> [u8; 32] {
        let mut operand = [0u8; 32];
        MathClient::<SupportedOp>::read_number(signer, &mut operand[..20]);
        MathClient::<SupportedOp>::read_number(signer, &mut operand[20..]);
        operand
    }

    fn compute(&mut self, signer: &mut Signer, start: Start) {
        self.operations.push(start);
        match start {
            Start::Authenticate(len) => {
                serve_hmac(signer, Asked::Authenticate(Algorithm::Sha256, len, 32));
            }
            Start::ScalarMultiplication => {
                let mut scalar = [0u8; 32];
                assert_eq!(signer.read_scalar(&mut scalar), Ok(()));
                self.scalars.push(scalar);
                assert_eq!(signer.write_point(&self.x.remove(0)), Ok(()));
                // The y-coordinate is not taken.
                assert_eq!(signer.write_point(&[0xee; 32]), Ok(()));
                signer.operation_done(Ok(()));
            }
            _ => {
                let mut n = [0u8; 32];
                assert_eq!(MathClient::<SupportedOp>::read_modulus(signer, &mut n), Ok(()));
                assert_eq!(n, NistP256Constants::n());
                let first = Bench::operand(signer);
                let result = match start {
                    Start::Modulo => reduce(&first, &n),
                    Start::Multiplication => times_mod(&first, &Bench::operand(signer), &n),
                    Start::Addition => add_mod(&first, &Bench::operand(signer), &n),
                    Start::Division => divide_mod(&first, &Bench::operand(signer), &n),
                    _ => unreachable!(),
                };
                assert_eq!(MathClient::<SupportedOp>::write_number(signer, &result), Ok(()));
                MathClient::<SupportedOp>::computation_completed(signer, Ok(()));
            }
        }
    }

    /// Does what the signer wants until it has told of a signature.
    fn run(&mut self, signer: &mut Signer, step: Step<Points, Numbers, Engine>) -> ecdsa::Signed {
        let mut step = step;
        loop {
            match step.dropped {
                Some(ecdsa::Guard::Ecc(guard)) => self.points.release(guard),
                Some(ecdsa::Guard::Math(guard)) => self.numbers.release(guard),
                Some(ecdsa::Guard::Hmac(guard)) => self.hmac.release(guard),
                None => {}
            }
            if let Some(signed) = step.signed {
                return signed;
            }
            if let Some((driver, handle)) = step.request {
                let guard = match driver {
                    ecdsa::Driver::Ecc => {
                        assert_eq!(self.points.request(handle), Ok(()));
                        self.points.handle_deferred_call().unwrap().1
                    }
                    ecdsa::Driver::Math => {
                        assert_eq!(self.numbers.request(handle), Ok(()));
                        self.numbers.handle_deferred_call().unwrap().1
                    }
                    ecdsa::Driver::Hmac => {
                        assert_eq!(self.hmac.request(handle), Ok(()));
                        self.hmac.handle_deferred_call().unwrap().1
                    }
                };
                step = signer.ready(guard);
                assert!(step.refused.is_none());
                assert!(step.set_client);
                continue;
            }
            let start = step.start.unwrap();
            self.compute(signer, start);
            step = signer.resume();
        }
    }
}

const D: &str = "C9AFA9D845BA75166B5C215767B1D6934E50C3DB36E89B127B8A622B120F6721";
const K: &str = "A6E3C57DD01ABE90086538398355DD4C3B17AA873382B0F24D6129493D8AAD60";
const R: &str = "EFD48B2AACB6A8FD1140DD9CD45E81D69D2C877B56AAF991C34D0EA84EAF3716";
const S: &str = "F7CB1C942D657C41D436C7A1B6E29F65F3E900DBB9AFF4064DC4AB2F843ACDA8";

#[test]
fn signatures_are_as_in_the_rfc() {
    let mut signer = Signer::new(number(D));
    let mut bench = Bench::new(vec![number(R)]);
    bench.register(&mut signer);
    signer.set_sign_client(3);
    let hash = sha256(b"sample");
    let step = signer.sign(hash, [0; 64]).ok().unwrap();
    match signer.sign(hash, [5; 64]) {
        Err(refusal) => assert_eq!(refusal, (ErrorCode::BUSY, hash, [5; 64])),
        Ok(_) => panic!("the signer is busy"),
    }
    let signed = bench.run(&mut signer, step);
    assert_eq!(bench.scalars, vec![number(K)]);
    assert_eq!(signed.result, Ok(()));
    assert_eq!(signed.hash, hash);
    assert_eq!(signed.signature[..32], number(R));
    assert_eq!(signed.signature[32..], number(S));
    assert_eq!(
        bench.operations,
        vec![
            Start::Authenticate(97),
            Start::Authenticate(32),
            Start::Authenticate(97),
            Start::Authenticate(32),
            Start::Authenticate(32),
            Start::ScalarMultiplication,
            Start::Modulo,
            Start::Multiplication,
            Start::Addition,
            Start::Division,
        ]
    );
    // The signer can be used again.
    bench.x.push(number(R));
    let step = signer.sign(hash, [0; 64]).ok().unwrap();
    assert_eq!(bench.run(&mut signer, step).signature[32..], number(S));
}

#[test]
fn drivers_do_what_the_signer_wants() {
    let mut signer =
        EcdsaP256SignatureSigner::<Points, Calculation, Numbers, Engine>::new(number(D));
    let mut drivers = Drivers {
        ecc: DriverMutex::new(identity(1), Points::default(), 1, 2),
        math: DriverMutex::new(identity(2), Numbers::default(), 1, 2),
        hmac: DriverMutex::new(identity(3), Engine::default(), 1, 2),
    };
    assert_eq!(signer.register_ecc(&mut drivers.ecc, 9), Ok(()));
    assert_eq!(signer.register_math(&mut drivers.math, 9), Ok(()));
    assert_eq!(signer.register_hmac(&mut drivers.hmac, 9), Ok(()));
    signer.set_sign_client(3);
    let step = signer.sign(sha256(b"sample"), [0; 64]).ok().unwrap();
    assert!(signer.perform(step, 9, &mut drivers).is_none());
    let (client, guard) = drivers.hmac.handle_deferred_call().unwrap();
    assert_eq!(client, 9);
    let step = signer.ready(guard);
    assert!(signer.perform(step, 9, &mut drivers).is_none());
    assert_eq!(drivers.hmac.serviced().hmac_client, Some(9));
    for len in [97, 32, 97, 32, 32] {
        let asked = drivers.hmac.serviced().asked.take().unwrap();
        assert_eq!(asked, Asked::Authenticate(Algorithm::Sha256, len, 32));
        serve_hmac(&mut signer, asked);
        let step = signer.resume();
        assert!(signer.perform(step, 9, &mut drivers).is_none());
    }
    let (_, guard) = drivers.ecc.handle_deferred_call().unwrap();
    let step = signer.ready(guard);
    assert!(signer.perform(step, 9, &mut drivers).is_none());
    assert_eq!(drivers.ecc.serviced().client, Some(9));
    assert_eq!(drivers.ecc.serviced().scalar, Some(number(K)));
    assert_eq!(signer.write_point(&number(R)), Ok(()));
    signer.operation_done(Ok(()));
    let step = signer.resume();
    assert!(signer.perform(step, 9, &mut drivers).is_none());
    let (_, guard) = drivers.math.handle_deferred_call().unwrap();
    let step = signer.ready(guard);
    assert!(signer.perform(step, 9, &mut drivers).is_none());
    assert_eq!(drivers.math.serviced().client, Some(9));
    assert_eq!(drivers.math.serviced().asked, vec![(32, Calculation::Modulo)]);
    assert_eq!(MathClient::<Calculation>::write_number(&mut signer, &number(R)), Ok(()));
    MathClient::<Calculation>::computation_completed(&mut signer, Ok(()));
    // The signer waits for a driver though it does not start.
    drivers.math.serviced().refusal = Some(ErrorCode::NOMEM);
    let step = signer.resume();
    assert!(signer.perform(step, 9, &mut drivers).is_none());
    match signer.sign(sha256(b"sample"), [0; 64]) {
        Err((error, _, _)) => assert_eq!(error, ErrorCode::BUSY),
        Ok(_) => panic!("the signer is waiting"),
    }
}

#[test]
fn a_guard_that_comes_again_replaces_the_one_that_is_held() {
    let mut signer = Signer::new(number(D));
    let mut bench = Bench::new(vec![number(R)]);
    bench.register(&mut signer);
    signer.set_sign_client(3);
    let step = signer.sign(sha256(b"sample"), [0; 64]).ok().unwrap();
    let (_, handle) = step.request.unwrap();
    assert_eq!(bench.hmac.request(handle), Ok(()));
    let (_, guard) = bench.hmac.handle_deferred_call().unwrap();
    assert!(signer.ready(guard).dropped.is_none());
    assert_eq!(bench.hmac.request(handle), Ok(()));
    let (_, guard) = bench.hmac.handle_deferred_call().unwrap();
    let step = signer.ready(guard);
    assert!(step.dropped.is_some());
    assert_eq!(step.start, Some(Start::Authenticate(97)));
}

#[test]
fn a_large_hash_is_reduced_first() {
    let mut signer = Signer::new(number(D));
    let mut bench = Bench::new(vec![number(R)]);
    bench.register(&mut signer);
    signer.set_sign_client(3);
    let step = signer.sign([0xff; 32], [0; 64]).ok().unwrap();
    let signed = bench.run(&mut signer, step);
    assert_eq!(bench.operations[0], Start::Modulo);
    assert_eq!(signed.hash, reduce(&[0xff; 32], &NistP256Constants::n()));
}

#[test]
fn a_nonce_whose_point_has_no_x_is_replaced() {
    let mut signer = Signer::new(number(D));
    let mut bench = Bench::new(vec![[0; 32], number(R)]);
    bench.register(&mut signer);
    signer.set_sign_client(3);
    let hash = sha256(b"sample");
    let step = signer.sign(hash, [0; 64]).ok().unwrap();
    let signed = bench.run(&mut signer, step);
    assert_eq!(signed.result, Ok(()));
    // The next candidate, as the RFC derives it.
    let d = number(D);
    let v0 = [1u8; 32];
    let k1 = hmac_sha256(&[0; 32], &[&v0[..], &[0], &d, &hash].concat());
    let v1 = hmac_sha256(&k1, &v0);
    let k2 = hmac_sha256(&k1, &[&v1[..], &[1], &d, &hash].concat());
    let v2 = hmac_sha256(&k2, &v1);
    let t = hmac_sha256(&k2, &v2);
    let k3 = hmac_sha256(&k2, &[&t[..], &[0]].concat());
    let v3 = hmac_sha256(&k3, &t);
    assert_eq!(bench.scalars, vec![t, hmac_sha256(&k3, &v3)]);
}

#[test]
fn failures_of_drivers_reach_the_client() {
    let mut signer = Signer::new(number(D));
    let mut bench = Bench::new(vec![]);
    bench.register(&mut signer);
    signer.set_sign_client(3);
    let step = signer.sign(sha256(b"sample"), [0; 64]).ok().unwrap();
    let (_, handle) = step.request.unwrap();
    assert_eq!(bench.hmac.request(handle), Ok(()));
    let guard = bench.hmac.handle_deferred_call().unwrap().1;
    assert!(signer.ready(guard).start.is_some());
    signer.hash_done(Err(ErrorCode::NOSUPPORT));
    let step = signer.resume();
    assert_eq!(step.signed.unwrap().result, Err(ErrorCode::NOSUPPORT));
    assert!(step.dropped.is_some());
    let mut buffer = [0u8; 8];
    assert_eq!(signer.read_key(&mut buffer), Err(ErrorCode::FAIL));
    assert_eq!(signer.read_input(&mut buffer), Err(ErrorCode::FAIL));
    assert_eq!(signer.read_scalar(&mut buffer), Err(ErrorCode::FAIL));
    assert_eq!(signer.read_point(&mut buffer), Err(ErrorCode::INVAL));
}

#[test]
fn keys_are_changed_when_the_signer_is_idle() {
    let mut signer = Signer::new([1; 32]);
    let mut bench = Bench::new(vec![number(R)]);
    bench.register(&mut signer);
    signer.set_sign_client(3);
    signer.set_client(4);
    assert_eq!(signer.set_key(number(D)), Ok(()));
    assert_eq!(signer.set_key([2; 32]), Err((ErrorCode::BUSY, [2; 32])));
    assert_eq!(signer.handle_deferred_call(), Some(number(D)));
    let step = signer.sign(sha256(b"sample"), [0; 64]).ok().unwrap();
    assert_eq!(bench.run(&mut signer, step).signature[32..], number(S));
}

#[test]
fn comparisons_of_numbers() {
    let mut one = [0u8; 32];
    one[31] = 1;
    let mut high = [0u8; 32];
    high[0] = 1;
    assert!(!ecdsa::is_non_zero(&[0; 32]));
    assert!(ecdsa::is_non_zero(&one));
    assert!(ecdsa::is_non_zero(&high));
    assert!(ecdsa::is_less_than(&one, &high));
    assert!(!ecdsa::is_less_than(&high, &one));
    assert!(!ecdsa::is_less_than(&one, &one));
    assert!(!ecdsa::is_less_than(&NistP256Constants::n(), &NistP256Constants::n()));
}
