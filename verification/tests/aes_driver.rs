//! The AES driver for processes.
use tock_crypto::capsules::aes::{
    Aes128CipherDriver, Mode, ModeGuard, ModeMutexes, ModeRequest, Ready, RO_ASSOCIATED_DATA,
    RO_COUNTER, RO_INPUT, RO_IV, RO_KEY, RO_NONCE, RO_TAG, RW_IV, RW_OUTPUT, RW_TAG, UPCALL_DONE,
};
use tock_crypto::capsules::aes;
use tock_crypto::driver_mutex::{
    DriverMutex, DriverMutexClient, Kind, MutexNumber, MutexNumbers, Resource,
};
use tock_crypto::error::ErrorCode;
use tock_crypto::grant::{App, Grant, Upcall};
use tock_crypto::hil::cipher::{
    Aes128, CbcClient, CcmClient, CcmTagLength, CtrClient, EcbClient, GcmClient, GcmTagLength,
    Operation,
};

/// The identity that is drawn after `before` others.
fn identity(before: usize) -> MutexNumber {
    let mut numbers = MutexNumbers::new();
    for _ in 0..before {
        assert!(numbers.draw().is_some());
    }
    numbers.draw().unwrap()
}

/// The driver of a mode, which the tests stand in for.
struct Stand<const KIND: u64>;

impl<const KIND: u64> Resource for Stand<KIND> {
    fn kind() -> Kind {
        unreachable!()
    }

    fn resource_kind() -> Kind {
        Kind { number: KIND, over: 0 }
    }
}

type Mutexes = ModeMutexes<Stand<1>, Stand<2>, Stand<3>, Stand<4>, Stand<5>>;

type Driver = Aes128CipherDriver<Stand<1>, Stand<2>, Stand<3>, Stand<4>, Stand<5>>;

fn mutexes(places: usize) -> Mutexes {
    ModeMutexes {
        cbc: DriverMutex::new(identity(10), Stand, places, places + 1),
        ccm: DriverMutex::new(identity(20), Stand, places, places + 1),
        ctr: DriverMutex::new(identity(30), Stand, places, places + 1),
        ecb: DriverMutex::new(identity(40), Stand, places, places + 1),
        gcm: DriverMutex::new(identity(50), Stand, places, places + 1),
    }
}

/// A process that shares buffers for 20 bytes of input and a tag of 8 bytes.
fn app() -> App {
    let mut readonly = vec![Err(ErrorCode::RESERVE); 7];
    readonly[RO_KEY] = Ok(vec![7; 16]);
    readonly[RO_NONCE] = Ok((0..13).collect());
    readonly[RO_INPUT] = Ok((100..120).collect());
    readonly[RO_ASSOCIATED_DATA] = Ok(vec![1, 2, 3, 4, 5]);
    readonly[RO_TAG] = Ok((200..208).collect());
    let mut readwrite = vec![Err(ErrorCode::RESERVE); 3];
    readwrite[RW_OUTPUT] = Ok(vec![0; 24]);
    readwrite[RW_TAG] = Ok(vec![0; 8]);
    App { fault: None, readonly, readwrite, upcalls: vec![] }
}

fn driver(apps: Vec<App>, mutexes: &mut Mutexes) -> Driver {
    let mut driver = Driver::new(Grant { apps });
    assert_eq!(driver.register(mutexes, 77), Ok(()));
    driver
}

fn output(driver: &Driver, number: usize) -> Vec<u8> {
    driver.apps().apps[0].readwrite[number].clone().unwrap()
}

const CBC: usize = 0;
const CCM: usize = 1;
const CTR: usize = 2;
const ECB: usize = 3;
const GCM: usize = 4;

const ENCRYPT: usize = 0;
const DECRYPT: usize = 1;

fn gives_back(driver: &mut Driver, mutexes: &mut Mutexes) -> usize {
    let mut count = 0;
    while let Some(guard) = driver.take_dropped() {
        match guard {
            ModeGuard::Cbc(guard) => mutexes.cbc.release(guard),
            ModeGuard::Ccm(guard) => mutexes.ccm.release(guard),
            ModeGuard::Ctr(guard) => mutexes.ctr.release(guard),
            ModeGuard::Ecb(guard) => mutexes.ecb.release(guard),
            ModeGuard::Gcm(guard) => mutexes.gcm.release(guard),
        }
        count += 1;
    }
    count
}

#[test]
fn values_stand_for_modes_operations_and_tags() {
    let modes = [Mode::Cbc, Mode::Ccm, Mode::Ctr, Mode::Ecb, Mode::Gcm];
    for (value, mode) in modes.into_iter().enumerate() {
        assert_eq!(aes::parse_mode(value), Ok(mode));
    }
    assert_eq!(aes::parse_mode(5), Err(ErrorCode::INVAL));
    assert_eq!(aes::parse_operation(0), Ok(Operation::Encrypt));
    assert_eq!(aes::parse_operation(1), Ok(Operation::Decrypt));
    assert_eq!(aes::parse_operation(2), Err(ErrorCode::INVAL));
    assert_eq!(aes::parse_ccm_tag_length(10), Ok(CcmTagLength::Tag80));
    assert_eq!(aes::parse_ccm_tag_length(5), Err(ErrorCode::INVAL));
    assert_eq!(aes::parse_gcm_tag_length(13), Ok(GcmTagLength::Tag104));
    assert_eq!(aes::parse_gcm_tag_length(10), Err(ErrorCode::INVAL));
}

#[test]
fn registration_takes_a_place_with_each_mode() {
    let mut all = mutexes(1);
    let mut first = driver(vec![app()], &mut all);
    assert_eq!(first.register(&mut all, 77), Err(ErrorCode::ALREADY));
    let mut second = Driver::new(Grant { apps: vec![app()] });
    assert_eq!(second.register(&mut all, 78), Err(ErrorCode::NOMEM));
    assert_eq!(second.command(1, ECB, ENCRYPT, 0, &mut all), Err(ErrorCode::OFF));
}

#[test]
fn commands_are_checked() {
    let mut all = mutexes(2);
    let mut driver = driver(vec![app()], &mut all);
    assert_eq!(driver.command(0, 9, 9, 0, &mut all), Ok(()));
    assert_eq!(driver.command(2, 0, 0, 0, &mut all), Err(ErrorCode::NOSUPPORT));
    assert_eq!(driver.command(1, 5, ENCRYPT, 0, &mut all), Err(ErrorCode::INVAL));
    assert_eq!(driver.command(1, ECB, 2, 0, &mut all), Err(ErrorCode::INVAL));
    assert_eq!(driver.command(1, ECB, ENCRYPT, 1, &mut all), Err(ErrorCode::INVAL));
    assert_eq!(driver.allocate_grant(0), Ok(()));
    assert_eq!(driver.allocate_grant(1), Err(ErrorCode::INVAL));
    driver.apps_mut().apps[0].fault = Some(ErrorCode::NOMEM);
    assert_eq!(driver.command(1, ECB, ENCRYPT, 0, &mut all), Err(ErrorCode::NOMEM));
    driver.apps_mut().apps[0].fault = None;
    assert_eq!(driver.command(1, CBC, ENCRYPT, 0, &mut all), Err(ErrorCode::RESERVE));
    driver.apps_mut().apps[0].readonly[RO_IV] = Ok(vec![0; 15]);
    assert_eq!(driver.command(1, CBC, ENCRYPT, 0, &mut all), Err(ErrorCode::INVAL));
    assert_eq!(driver.command(1, GCM, ENCRYPT, 0, &mut all), Err(ErrorCode::INVAL));
    driver.apps_mut().apps[0].readonly[RO_COUNTER] = Ok(vec![0; 2]);
    assert_eq!(driver.command(1, CTR, ENCRYPT, 0, &mut all), Err(ErrorCode::INVAL));
    driver.apps_mut().apps[0].readwrite[RW_OUTPUT] = Ok(vec![0; 19]);
    assert_eq!(driver.command(1, CCM, ENCRYPT, 0, &mut all), Err(ErrorCode::SIZE));
    driver.apps_mut().apps[0].readwrite[RW_OUTPUT] = Ok(vec![0; 20]);
    driver.apps_mut().apps[0].readwrite[RW_TAG] = Ok(vec![0; 5]);
    assert_eq!(driver.command(1, CCM, ENCRYPT, 0, &mut all), Err(ErrorCode::INVAL));
    driver.apps_mut().apps[0].readonly[RO_KEY] = Ok(vec![0; 32]);
    assert_eq!(driver.command(1, ECB, ENCRYPT, 0, &mut all), Err(ErrorCode::INVAL));
    driver.apps_mut().apps[0].readonly[RO_KEY] = Ok(vec![0; 16]);
    assert_eq!(driver.command(1, CCM, DECRYPT, 0, &mut all), Ok(()));
    assert_eq!(driver.command(1, ECB, ENCRYPT, 0, &mut all), Err(ErrorCode::BUSY));
    assert!(driver.apps().apps[0].upcalls.is_empty());
}

#[test]
fn ccm_output_is_split_into_payload_and_tag() {
    let mut all = mutexes(1);
    let mut driver = driver(vec![app()], &mut all);
    assert_eq!(driver.command(1, CCM, ENCRYPT, 0, &mut all), Ok(()));
    let (client, guard) = all.ccm.handle_deferred_call().unwrap();
    assert_eq!(client, 77);
    let request = match driver.ready(guard) {
        Ready::Start(request) => request,
        _ => panic!(),
    };
    assert_eq!(
        request,
        ModeRequest::Ccm {
            len: 20,
            associated_data_len: 5,
            tag_len: CcmTagLength::Tag64,
            operation: Operation::Encrypt,
        }
    );
    driver.started(Ok(()));
    let mut key = [0; 16];
    assert_eq!(CcmClient::<Aes128>::read_key(&mut driver, &mut key), Ok(()));
    assert_eq!(key, [7; 16]);
    let mut nonce = [0xff; 13];
    assert_eq!(CcmClient::<Aes128>::read_nonce(&mut driver, &mut nonce), Ok(13));
    assert_eq!(nonce[12], 12);
    let mut data = [0; 4];
    assert_eq!(CcmClient::<Aes128>::read_associated_data(&mut driver, &mut data), Ok(4));
    assert_eq!(data, [1, 2, 3, 4]);
    assert_eq!(CcmClient::<Aes128>::read_associated_data(&mut driver, &mut data), Ok(1));
    assert_eq!(data, [5, 2, 3, 4]);
    let mut input = [0; 16];
    assert_eq!(CcmClient::<Aes128>::read_input(&mut driver, &mut input), Ok(16));
    assert_eq!(input[15], 115);
    assert_eq!(CcmClient::<Aes128>::read_input(&mut driver, &mut input), Ok(4));
    assert_eq!(input[..4], [116, 117, 118, 119]);
    let stream: Vec<u8> = (0..28).collect();
    for piece in stream.chunks(9) {
        assert_eq!(CcmClient::<Aes128>::write_output(&mut driver, piece), Ok(()));
    }
    CcmClient::<Aes128>::crypt_done(&mut driver, Ok(()));
    assert_eq!(output(&driver, RW_OUTPUT)[..20], stream[..20]);
    assert_eq!(output(&driver, RW_OUTPUT)[20..], [0; 4]);
    assert_eq!(output(&driver, RW_TAG), stream[20..]);
    let upcall = Upcall { number: UPCALL_DONE, status: Ok(()), arg1: 20, arg2: 0 };
    assert_eq!(driver.apps().apps[0].upcalls, vec![upcall]);
    assert_eq!(gives_back(&mut driver, &mut all), 1);
    assert_eq!(driver.command(1, CCM, ENCRYPT, 0, &mut all), Ok(()));
}

#[test]
fn ccm_input_is_payload_and_then_tag() {
    let mut all = mutexes(1);
    let mut driver = driver(vec![app()], &mut all);
    assert_eq!(driver.command(1, CCM, DECRYPT, 0, &mut all), Ok(()));
    let (_, guard) = all.ccm.handle_deferred_call().unwrap();
    assert!(matches!(driver.ready(guard), Ready::Start(_)));
    let mut stream = vec![];
    let mut piece = [0; 11];
    for expected in [11, 11, 6] {
        let count = CcmClient::<Aes128>::read_input(&mut driver, &mut piece).unwrap();
        assert_eq!(count, expected);
        stream.extend_from_slice(&piece[..count]);
    }
    assert_eq!(stream[..20], (100..120).collect::<Vec<u8>>());
    assert_eq!(stream[20..], (200..208).collect::<Vec<u8>>());
    CcmClient::<Aes128>::crypt_done(&mut driver, Err(ErrorCode::FAIL));
    let upcall = Upcall { number: UPCALL_DONE, status: Err(ErrorCode::FAIL), arg1: 0, arg2: 0 };
    assert_eq!(driver.apps().apps[0].upcalls, vec![upcall]);
    CcmClient::<Aes128>::crypt_done(&mut driver, Ok(()));
    assert_eq!(driver.apps().apps[0].upcalls.len(), 1);
}

#[test]
fn gcm_takes_and_gives_tags() {
    let mut all = mutexes(1);
    let mut process = app();
    process.readonly[RO_IV] = Ok((0..12).collect());
    let mut driver = driver(vec![process], &mut all);
    assert_eq!(driver.command(1, GCM, DECRYPT, 0, &mut all), Ok(()));
    let (_, guard) = all.gcm.handle_deferred_call().unwrap();
    match driver.ready(guard) {
        Ready::Start(request) => assert_eq!(
            request,
            ModeRequest::Gcm {
                len: 20,
                associated_data_len: 5,
                tag_len: GcmTagLength::Tag64,
                operation: Operation::Decrypt,
            }
        ),
        _ => panic!(),
    }
    let mut iv = [0; 12];
    assert_eq!(GcmClient::<Aes128>::read_iv(&mut driver, &mut iv), Ok(()));
    assert_eq!(iv[11], 11);
    let mut tag = [0; 8];
    assert_eq!(GcmClient::<Aes128>::read_tag(&mut driver, &mut tag), Ok(()));
    assert_eq!(tag[7], 207);
    assert_eq!(GcmClient::<Aes128>::write_tag(&mut driver, &[9; 8]), Ok(()));
    assert_eq!(output(&driver, RW_TAG), vec![9; 8]);
    assert_eq!(GcmClient::<Aes128>::write_output(&mut driver, &[1; 25]), Err(ErrorCode::SIZE));
    assert_eq!(output(&driver, RW_OUTPUT), vec![0; 24]);
    GcmClient::<Aes128>::crypt_done(&mut driver, Err(ErrorCode::SIZE));
    assert_eq!(gives_back(&mut driver, &mut all), 1);
}

#[test]
fn other_modes_get_their_buffers() {
    let mut all = mutexes(1);
    let mut process = app();
    process.readonly[RO_IV] = Ok((50..66).collect());
    process.readonly[RO_NONCE] = Ok(vec![3; 12]);
    process.readonly[RO_COUNTER] = Ok(vec![0, 0, 0, 9]);
    process.readwrite[RW_IV] = Ok(vec![0; 16]);
    let mut driver = driver(vec![process], &mut all);

    assert_eq!(driver.command(1, CBC, DECRYPT, 0, &mut all), Ok(()));
    let (_, guard) = all.cbc.handle_deferred_call().unwrap();
    match driver.ready(guard) {
        Ready::Start(request) => assert_eq!(
            request,
            ModeRequest::Cbc { len: 20, operation: Operation::Decrypt }
        ),
        _ => panic!(),
    }
    let mut iv = [0; 16];
    assert_eq!(CbcClient::<Aes128>::read_iv(&mut driver, &mut iv), Ok(()));
    assert_eq!(iv[15], 65);
    assert_eq!(CbcClient::<Aes128>::write_iv(&mut driver, &[8; 16]), Ok(()));
    CbcClient::<Aes128>::crypt_done(&mut driver, Ok(()));
    assert_eq!(output(&driver, RW_IV), vec![8; 16]);
    assert_eq!(gives_back(&mut driver, &mut all), 1);

    assert_eq!(driver.command(1, CTR, ENCRYPT, 0, &mut all), Ok(()));
    let (_, guard) = all.ctr.handle_deferred_call().unwrap();
    match driver.ready(guard) {
        Ready::Start(request) => assert_eq!(
            request,
            ModeRequest::Ctr { len: 20, operation: Operation::Encrypt }
        ),
        _ => panic!(),
    }
    let mut block = [0; 16];
    assert_eq!(CtrClient::<Aes128>::read_nonce(&mut driver, &mut block), Ok(12));
    assert_eq!(CtrClient::<Aes128>::read_counter(&mut driver, &mut block[12..]), Ok(4));
    assert_eq!(block, [3, 3, 3, 3, 3, 3, 3, 3, 3, 3, 3, 3, 0, 0, 0, 9]);
    CtrClient::<Aes128>::crypt_done(&mut driver, Ok(()));
    assert_eq!(gives_back(&mut driver, &mut all), 1);

    assert_eq!(driver.command(1, ECB, ENCRYPT, 0, &mut all), Ok(()));
    let (_, guard) = all.ecb.handle_deferred_call().unwrap();
    match driver.ready(guard) {
        Ready::Start(request) => assert_eq!(
            request,
            ModeRequest::Ecb { len: 20, operation: Operation::Encrypt }
        ),
        _ => panic!(),
    }
    driver.apps_mut().apps[0].readonly[RO_KEY] = Err(ErrorCode::INVAL);
    let mut key = [0; 16];
    assert_eq!(EcbClient::<Aes128>::read_key(&mut driver, &mut key), Err(ErrorCode::RESERVE));
    driver.started(Err(ErrorCode::NOSUPPORT));
    let upcalls = &driver.apps().apps[0].upcalls;
    assert_eq!(upcalls.len(), 3);
    assert_eq!(upcalls[2].status, Err(ErrorCode::NOSUPPORT));
}

#[test]
fn a_guard_that_does_not_fit_comes_back() {
    let mut all = mutexes(2);
    let handle = all.ecb.add_client(5).unwrap();
    assert_eq!(all.ecb.request(handle), Ok(()));
    let (_, stray) = all.ecb.handle_deferred_call().unwrap();
    let mut driver = driver(vec![app()], &mut all);
    let stray = match driver.ready(stray) {
        Ready::Ignored(guard) => guard,
        _ => panic!(),
    };
    assert_eq!(driver.command(1, CCM, ENCRYPT, 0, &mut all), Ok(()));
    assert!(matches!(driver.ready(stray), Ready::Refused(_)));
    assert_eq!(driver.apps().apps[0].upcalls[0].status, Err(ErrorCode::INVAL));
}
