//! Mutexes, shared buffers, components and what the board decides.
use tock_crypto::boards::nucleo_u545re_q::{
    adc_channels, gpio_pin, pin_primary_functions, Bank, Driver, DriverNumbers, FloatingState,
    HashDrivers, Mode, Pin,
};
use tock_crypto::components::driver_mutex::DriverMutexComponent;
use tock_crypto::components::hash::HashComponent;
use tock_crypto::components::hkdf::HkdfComponent;
use tock_crypto::components::hmac::HmacComponent;
use tock_crypto::components::ieee802154::{
    ccm_workspace_size, Ieee802154Component, Ieee802154RawComponent, Layer, Step,
};
use tock_crypto::components::software_aes128::{MutexIds, SoftwareAes128Component};
use tock_crypto::components::software_ccm::SoftwareCcmComponent;
use tock_crypto::driver_mutex::{DriverMutex, Kind, MutexNumber, MutexNumbers, Resource};
use tock_crypto::error::ErrorCode;
use tock_crypto::grant::{AccessError, App, Grant, Upcall};
use tock_crypto::hil::digest::Algorithm;
use tock_crypto::hil::utilities::{DigestMode, DigestSlice};
use tock_crypto::sub_slice::SubSlice;
use tock_crypto::sw::cbc::SoftwareCbc;

/// The identity that is drawn after `before` others.
fn identity(before: usize) -> MutexNumber {
    let mut numbers = MutexNumbers::new();
    for _ in 0..before {
        assert!(numbers.draw().is_some());
    }
    numbers.draw().unwrap()
}

#[derive(Debug, PartialEq)]
struct Radio(u32);

impl Resource for Radio {
    fn kind() -> Kind {
        unreachable!()
    }

    fn resource_kind() -> Kind {
        Kind { number: 200, over: 0 }
    }
}

struct Other;

impl Resource for Other {
    fn kind() -> Kind {
        unreachable!()
    }

    fn resource_kind() -> Kind {
        Kind { number: 201, over: 0 }
    }
}

fn app(readonly: Vec<Vec<u8>>, readwrite: Vec<Vec<u8>>) -> App {
    App {
        fault: None,
        readonly: readonly.into_iter().map(Ok).collect(),
        readwrite: readwrite.into_iter().map(Ok).collect(),
        upcalls: vec![],
    }
}

#[test]
fn clients_are_served_in_the_order_of_their_requests() {
    let mut mutex = DriverMutex::new(identity(7), Radio(1), 3, 4);
    let a = mutex.add_client(10).unwrap();
    let b = mutex.add_client(11).unwrap();
    let c = mutex.add_client(12).unwrap();
    assert_eq!(mutex.add_client(13), None);
    // Registering again gives the same handle.
    assert_eq!(mutex.add_client(11), Some(b));
    assert_eq!(mutex.request(b), Ok(()));
    assert_eq!(mutex.request(b), Err(ErrorCode::ALREADY));
    assert_eq!(mutex.request(c), Ok(()));
    assert_eq!(mutex.request(a), Ok(()));
    let mut order = vec![];
    while mutex.deferred_call_is_set() {
        let (client, guard) = mutex.handle_deferred_call().unwrap();
        // No one else is served while the guard is out.
        assert!(mutex.handle_deferred_call().is_none());
        order.push(client);
        mutex.release_any(guard);
    }
    assert_eq!(order, vec![11, 12, 10]);
}

#[test]
fn the_active_client_may_have_several_guards() {
    let mut mutex = DriverMutex::new(identity(7), Radio(1), 2, 3);
    let a = mutex.add_client(10).unwrap();
    let b = mutex.add_client(11).unwrap();
    assert_eq!(mutex.request(a), Ok(()));
    let (_, first) = mutex.handle_deferred_call().unwrap();
    assert_eq!(mutex.request(a), Ok(()));
    assert_eq!(mutex.request(a), Err(ErrorCode::ALREADY));
    let (client, second) = mutex.handle_deferred_call().unwrap();
    assert_eq!(client, 10);
    assert_eq!(mutex.request(b), Ok(()));
    mutex.release_any(first);
    assert!(!mutex.deferred_call_is_set());
    mutex.release_any(second);
    assert!(mutex.deferred_call_is_set());
    assert_eq!(mutex.handle_deferred_call().unwrap().0, 11);
}

#[test]
fn handles_of_other_mutexes_are_refused() {
    let mut numbers = MutexNumbers::new();
    let mut first = DriverMutex::new(numbers.draw().unwrap(), Radio(1), 1, 2);
    let mut second = DriverMutex::new(numbers.draw().unwrap(), Radio(2), 1, 2);
    let handle = first.add_client(0).unwrap();
    let other = second.add_client(0).unwrap();
    assert_eq!(second.request(handle), Err(ErrorCode::INVAL));
    assert_eq!(first.request(other), Err(ErrorCode::INVAL));
    assert_eq!(first.request(handle), Ok(()));
}

#[test]
fn a_full_queue_refuses_requests() {
    let mut mutex = DriverMutex::new(identity(1), Radio(1), 2, 2);
    let a = mutex.add_client(0).unwrap();
    let b = mutex.add_client(1).unwrap();
    assert_eq!(mutex.request(a), Ok(()));
    assert_eq!(mutex.request(b), Err(ErrorCode::FAIL));
}

#[test]
fn guards_know_their_type() {
    let mut mutex = DriverMutex::new(identity(1), Radio(5), 1, 2);
    let handle = mutex.add_client(0).unwrap();
    assert_eq!(mutex.request(handle), Ok(()));
    let (_, guard) = mutex.handle_deferred_call().unwrap();
    let guard = match guard.downcast::<Other>() {
        Err(guard) => guard,
        Ok(_) => panic!("the guard is of a radio"),
    };
    let guard = guard.downcast::<Radio>().ok().unwrap();
    assert_eq!(*mutex.resource(&guard), Radio(5));
    mutex.resource(&guard).0 = 6;
    mutex.release(guard);
    assert_eq!(*mutex.serviced(), Radio(6));
}

#[test]
fn buffers_of_processes() {
    let mut grant = Grant { apps: vec![app(vec![vec![1, 2, 3]], vec![vec![0; 4]])] };
    assert_eq!(grant.enter(0), Ok(()));
    assert_eq!(grant.enter(1), Err(ErrorCode::INVAL));
    assert_eq!(grant.readonly_buffer_len(0, 0), Ok(3));
    assert_eq!(grant.readwrite_buffer_len(0, 0), Ok(4));
    assert!(matches!(
        grant.get_readonly_processbuffer(1, 0),
        Err(AccessError::Grant(ErrorCode::INVAL))
    ));
    assert_eq!(grant.write_at(0, 0, 1, &[8, 9]), Ok(()));
    assert_eq!(grant.get_readwrite_processbuffer(0, 0).unwrap(), &vec![0, 8, 9, 0]);
    assert!(grant.write_at(0, 0, 3, &[8, 9]).is_err());
    let mut buffer = [0u8; 4];
    assert_eq!(grant.read_at(0, 0, 1, &mut buffer, 0, 4), Ok(2));
    assert_eq!(buffer, [2, 3, 0, 0]);
    let upcall = Upcall { number: 0, status: Ok(()), arg1: 4, arg2: 0 };
    grant.schedule_upcall(0, upcall);
    assert_eq!(grant.apps[0].upcalls, vec![upcall]);
}

#[test]
fn faults_of_processes_come_back() {
    let mut grant = Grant { apps: vec![app(vec![], vec![])] };
    assert!(grant.readonly_buffer_len(0, 0).is_err());
    grant.apps[0].fault = Some(ErrorCode::NODEVICE);
    assert_eq!(grant.enter(0), Err(ErrorCode::NODEVICE));
}

#[test]
fn parts_of_a_slice() {
    let mut slice = SubSlice::new(vec![1, 2, 3, 4, 5]);
    slice.keep(4);
    assert_eq!(slice.len(), 4);
    slice.skip(1);
    assert_eq!(slice.len(), 3);
    assert_eq!(slice.data[slice.start..slice.end], [2, 3, 4]);
    slice.reset();
    assert_eq!(slice.len(), 5);
}

#[test]
fn sizes_of_digests() {
    assert_eq!(Algorithm::Md5.get_digest_len(), 16);
    assert_eq!(Algorithm::Sha1.get_digest_len(), 20);
    assert_eq!(Algorithm::Sha224.get_digest_len(), 28);
    assert_eq!(Algorithm::Sha256.get_digest_len(), 32);
    assert_eq!(Algorithm::Sha384.get_digest_len(), 48);
    assert_eq!(Algorithm::Sha512.get_digest_len(), 64);
    assert_eq!(Algorithm::Sha512_224.get_digest_len(), 28);
    assert_eq!(Algorithm::Sha512_256.get_digest_len(), 32);
    assert_eq!(Algorithm::Sha256.get_block_size(), 64);
    assert_eq!(Algorithm::Sha384.get_block_size(), 128);
}

#[test]
fn slices_of_digests_have_their_length() {
    let data = [0u8; 32];
    assert!(DigestSlice::new(&data).is_ok());
    match DigestSlice::new(&data[..31]) {
        Err((error, slice)) => {
            assert_eq!(error, ErrorCode::INVAL);
            assert_eq!(slice.len(), 31);
        }
        Ok(_) => panic!("no digest has 31 bytes"),
    }
    assert!(!DigestMode::default().is_empty());
}

#[test]
fn guards_know_what_a_mode_is_built_over() {
    let mode = SoftwareCbc::<Radio>::new(0, vec![0; 16]);
    let mut mutex = DriverMutex::new(identity(1), mode, 1, 2);
    let handle = mutex.add_client(0).unwrap();
    assert_eq!(mutex.request(handle), Ok(()));
    let (_, guard) = mutex.handle_deferred_call().unwrap();
    let guard = match guard.downcast::<SoftwareCbc<Other>>() {
        Err(guard) => guard,
        Ok(_) => panic!("the mode is over a radio"),
    };
    assert!(guard.downcast::<SoftwareCbc<Radio>>().is_ok());
}

#[test]
fn components_build_mutexes_in_which_all_clients_can_wait() {
    let mut mutex = DriverMutexComponent::<Radio, 2, 3>::new(Radio(3)).finalize(identity(9));
    let a = mutex.add_client(0).unwrap();
    let b = mutex.add_client(1).unwrap();
    assert!(mutex.add_client(2).is_none());
    assert_eq!(mutex.request(a), Ok(()));
    assert_eq!(mutex.request(b), Ok(()));
    assert_eq!(*mutex.serviced(), Radio(3));
}

#[test]
fn software_modes_share_one_block_cipher_driver() {
    let ids = MutexIds {
        ecb: identity(1),
        cbc: identity(2),
        ccm: identity(3),
        ctr: identity(4),
        gcm: identity(5),
    };
    let mut modes = SoftwareAes128Component::<Radio, 1, 2, 64>::new(Radio(1)).finalize(ids);
    // The four modes hold four of the five places.
    assert!(modes.ecb.add_client(100).is_some());
    assert!(modes.ecb.add_client(101).is_none());
    assert!(modes.cbc.add_client(100).is_some());
    assert!(modes.cbc.add_client(101).is_none());
    assert_eq!(modes.gcm.serviced().register(&mut modes.ecb), Err(ErrorCode::ALREADY));

    let (mut ecb, mut ccm) =
        SoftwareCcmComponent::<Radio, 2, 3, 64>::new(Radio(1)).finalize(identity(1), identity(2));
    assert!(ecb.add_client(100).is_none());
    assert!(ccm.add_client(100).is_some());
}

#[test]
fn components_keep_what_they_are_given() {
    assert_eq!(HashComponent::<Radio>::new(0x40003).driver_num(), 0x40003);
    assert_eq!(HkdfComponent::<Radio>::new(0x40004).driver_num(), 0x40004);
    assert_eq!(HmacComponent::<Radio>::new(0x40005).driver_num(), 0x40005);
    let raw = Ieee802154RawComponent::new(3, Radio(4));
    assert_eq!((raw.driver_num, raw.radio), (3, Radio(4)));
    let mutex = DriverMutex::new(identity(1), Radio(1), 1, 2);
    let full = Ieee802154Component::new(3, Radio(4), mutex, 0xabcd, 0x1008, [1; 8]);
    assert_eq!((full.pan_id, full.short_addr, full.long_addr), (0xabcd, 0x1008, [1; 8]));
    assert_eq!(ccm_workspace_size(129), 145);
}

#[test]
fn layers_of_the_radio_stack_are_connected() {
    let mutex = DriverMutex::new(identity(1), Radio(1), 1, 2);
    let component = Ieee802154Component::new(3, Radio(4), mutex, 0xabcd, 0x1008, [1; 8]);
    let mut stack = component.finalize(9);
    assert!(stack.framer.is_some());
    assert_eq!(stack.ccm_mutex.add_client(9), stack.framer);
    assert_eq!(stack.ccm_mutex.add_client(8), None);
    assert_eq!(stack.steps.len(), 17);
    assert_eq!(
        stack.steps[0],
        Step::SetTransmitClient { of: Layer::Radio, client: Layer::AwakeMac }
    );
    assert_eq!(stack.steps[9], Step::RegisterDeferredCall { of: Layer::RadioDriver });
    assert_eq!(stack.steps[14], Step::SetPan { of: Layer::MacUser, pan_id: 0xabcd });
    let (radio, steps) = Ieee802154RawComponent::new(3, Radio(4)).finalize();
    assert_eq!(radio, Radio(4));
    assert_eq!(steps[2], Step::SetReceiveBuffer { of: Layer::Radio });
}

#[test]
fn pins_of_the_board() {
    let setups = pin_primary_functions();
    let find = |bank, number| {
        setups.iter().find(|setup| setup.pin == Pin { bank, number }).copied()
    };
    assert_eq!(find(Bank::A, 9).unwrap().mode, Mode::AlternateFunction(7));
    let data = find(Bank::B, 7).unwrap();
    assert_eq!(data.mode, Mode::AlternateFunction(4));
    assert!(data.open_drain);
    assert_eq!(data.floating_state, FloatingState::PullUp);
    assert_eq!(find(Bank::C, 13).unwrap().floating_state, FloatingState::PullDown);
    assert_eq!(find(Bank::C, 13).unwrap().mode, Mode::Input);
    assert!(find(Bank::A, 2).is_none());
    assert_eq!(gpio_pin(0), Some(Pin { bank: Bank::A, number: 3 }));
    assert_eq!(gpio_pin(26), Some(Pin { bank: Bank::C, number: 3 }));
    assert_eq!(gpio_pin(12), None);
    assert_eq!(adc_channels(), [5, 6, 9, 15, 2, 1]);
}

fn numbers() -> DriverNumbers {
    DriverNumbers {
        console: 1,
        led: 2,
        button: 3,
        alarm: 4,
        pwm: 5,
        adc: 6,
        dac: 7,
        gpio: 8,
        crc: 9,
        hash: 10,
        hmac: 11,
        hkdf: 12,
        aes: 13,
        spi: 14,
        i2c: 15,
        date_time: 16,
    }
}

#[test]
fn drivers_are_found_by_number() {
    assert_eq!(numbers().with_driver(1), Some(Driver::Console));
    assert_eq!(numbers().with_driver(12), Some(Driver::Hkdf));
    assert_eq!(numbers().with_driver(16), Some(Driver::DateTime));
    assert_eq!(numbers().with_driver(17), None);
}

#[test]
fn three_drivers_share_the_hash_peripheral() {
    let mut drivers = HashDrivers::new(
        identity(1),
        Radio(1),
        numbers(),
        vec![0; 64],
        Grant { apps: vec![] },
        Grant { apps: vec![] },
    );
    assert_eq!(drivers.hash.register(&mut drivers.mutex), Err(ErrorCode::ALREADY));
    assert_eq!(drivers.hkdf.register(&mut drivers.mutex), Err(ErrorCode::ALREADY));
    assert!(drivers.hmac.is_some());
    assert_eq!(drivers.mutex.add_client(1), drivers.hmac);
    assert!(drivers.mutex.add_client(3).is_none());
}
