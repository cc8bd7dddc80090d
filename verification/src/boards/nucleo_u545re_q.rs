//! The Nucleo-U545RE-Q: what its pins are for, which driver a number stands for, and how the drivers
//! that hash share their peripheral.
use crate::capsules::hash;
use crate::capsules::hash::HashView;
use crate::capsules::hkdf::{Hkdf, HkdfView};
use crate::components::driver_mutex;
use crate::components::driver_mutex::DriverMutexComponent;
use crate::components::hash::HashComponent;
use crate::components::hkdf::HkdfComponent;
use crate::driver_mutex::{DriverMutex, DriverMutexHandle, MutexNumber, MutexView};
use crate::grant::Grant;
use crate::hil::trace::{Call, Observed};
use vstd::prelude::*;

verus! {

/// A bank of pins.
#[derive(Clone, Copy, Debug, PartialEq, Eq, Structural)]
pub enum Bank {
    A,
    B,
    C,
}

/// A pin of the chip.
#[derive(Clone, Copy, Debug, PartialEq, Eq, Structural)]
pub struct Pin {
    pub bank: Bank,
    pub number: u8,
}

/// What a pin is connected to.
#[derive(Clone, Copy, Debug, PartialEq, Eq, Structural)]
pub enum Mode {
    Input,
    Output,
    /// A peripheral, by the number of the function.
    AlternateFunction(u8),
    Analog,
}

/// What holds the level of a pin that nothing drives.
#[derive(Clone, Copy, Debug, PartialEq, Eq, Structural)]
pub enum FloatingState {
    /// As the pin was.
    Unchanged,
    PullUp,
    PullDown,
}

/// How a pin is to be set up.
#[derive(Clone, Copy, Debug, PartialEq, Eq, Structural)]
pub struct PinSetup {
    pub pin: Pin,
    pub mode: Mode,
    pub open_drain: bool,
    pub floating_state: FloatingState,
    pub high_speed: bool,
}

/// What the pin is for, if the board has a use for it.
pub open spec fn purpose(pin: Pin) -> Option<PinSetup> {
    let plain = PinSetup {
        pin,
        mode: Mode::Analog,
        open_drain: false,
        floating_state: FloatingState::Unchanged,
        high_speed: false,
    };
    let peripheral = |function: u8|
        Some(PinSetup { mode: Mode::AlternateFunction(function), high_speed: true, ..plain });
    match (pin.bank, pin.number) {
        // Arduino A0, A1, A2 (which is the DAC's), A3, A4, A5
        (Bank::A, 0) | (Bank::A, 1) | (Bank::A, 4) | (Bank::B, 0) | (Bank::C, 1) | (
            Bank::C,
            0,
        ) => Some(plain),
        // LED
        (Bank::A, 5) => Some(PinSetup { mode: Mode::Output, ..plain }),
        // SPI1: clock, MISO, MOSI
        (Bank::B, 3) | (Bank::A, 6) | (Bank::A, 7) => peripheral(5),
        // USART1
        (Bank::A, 9) | (Bank::A, 10) => peripheral(7),
        // I2C1: clock, data
        (Bank::B, 6) | (Bank::B, 7) => Some(
            PinSetup {
                mode: Mode::AlternateFunction(4),
                open_drain: true,
                floating_state: FloatingState::PullUp,
                high_speed: true,
                ..plain
            },
        ),
        // SPI1: chip select
        (Bank::C, 9) => Some(PinSetup { mode: Mode::Output, high_speed: true, ..plain }),
        // Button, which is active high
        (Bank::C, 13) => Some(
            PinSetup {
                mode: Mode::Input,
                floating_state: FloatingState::PullDown,
                ..plain
            },
        ),
        _ => None,
    }
}

fn analog(bank: Bank, number: u8) -> (setup: PinSetup)
    ensures
        setup == (PinSetup {
            pin: Pin { bank, number },
            mode: Mode::Analog,
            open_drain: false,
            floating_state: FloatingState::Unchanged,
            high_speed: false,
        }),
{
    PinSetup {
        pin: Pin { bank, number },
        mode: Mode::Analog,
        open_drain: false,
        floating_state: FloatingState::Unchanged,
        high_speed: false,
    }
}

fn peripheral(bank: Bank, number: u8, function: u8) -> (setup: PinSetup)
    ensures
        setup == (PinSetup {
            pin: Pin { bank, number },
            mode: Mode::AlternateFunction(function),
            open_drain: false,
            floating_state: FloatingState::Unchanged,
            high_speed: true,
        }),
{
    PinSetup {
        pin: Pin { bank, number },
        mode: Mode::AlternateFunction(function),
        open_drain: false,
        floating_state: FloatingState::Unchanged,
        high_speed: true,
    }
}

/// A list of setups has every pin that the board uses, once, and set up for its purpose.
pub open spec fn is_complete(setups: Seq<PinSetup>) -> bool {
    &&& forall|i: int|
        0 <= i < setups.len() ==> purpose((#[trigger] setups[i]).pin) == Some(setups[i])
    &&& forall|i: int, j: int|
        0 <= i < setups.len() && 0 <= j < setups.len() && i != j ==> (#[trigger] setups[i]).pin != (
        #[trigger] setups[j]).pin
    &&& forall|pin: Pin| #[trigger]
        purpose(pin) is Some ==> exists|i: int|
            0 <= i < setups.len() && (#[trigger] setups[i]).pin == pin
}

/// How the pins of the board are to be set up.
pub fn pin_primary_functions() -> (setups: [PinSetup; 16])
    ensures
        is_complete(setups@),
{
    let i2c_clock = PinSetup {
        open_drain: true,
        floating_state: FloatingState::PullUp,
        ..peripheral(Bank::B, 6, 4)
    };
    let i2c_data = PinSetup {
        open_drain: true,
        floating_state: FloatingState::PullUp,
        ..peripheral(Bank::B, 7, 4)
    };
    let led = PinSetup { mode: Mode::Output, ..analog(Bank::A, 5) };
    let chip_select = PinSetup { mode: Mode::Output, high_speed: true, ..analog(Bank::C, 9) };
    let button = PinSetup {
        mode: Mode::Input,
        floating_state: FloatingState::PullDown,
        ..analog(Bank::C, 13)
    };
    let setups = [
        peripheral(Bank::A, 9, 7),
        peripheral(Bank::A, 10, 7),
        i2c_clock,
        i2c_data,
        led,
        peripheral(Bank::B, 3, 5),
        peripheral(Bank::A, 6, 5),
        peripheral(Bank::A, 7, 5),
        chip_select,
        button,
        analog(Bank::A, 0),
        analog(Bank::A, 1),
        analog(Bank::A, 4),
        analog(Bank::B, 0),
        analog(Bank::C, 1),
        analog(Bank::C, 0),
    ];
    proof {
        assert forall|pin: Pin| #[trigger] purpose(pin) is Some implies exists|i: int|
            0 <= i < setups@.len() && (#[trigger] setups@[i]).pin == pin by {
            let places = seq![
                setups@[0].pin,
                setups@[1].pin,
                setups@[2].pin,
                setups@[3].pin,
                setups@[4].pin,
                setups@[5].pin,
                setups@[6].pin,
                setups@[7].pin,
                setups@[8].pin,
                setups@[9].pin,
                setups@[10].pin,
                setups@[11].pin,
                setups@[12].pin,
                setups@[13].pin,
                setups@[14].pin,
                setups@[15].pin,
            ];
            assert(pin == places[0] || pin == places[1] || pin == places[2] || pin == places[3]
                || pin == places[4] || pin == places[5] || pin == places[6] || pin == places[7]
                || pin == places[8] || pin == places[9] || pin == places[10] || pin == places[11]
                || pin == places[12] || pin == places[13] || pin == places[14] || pin
                == places[15]);
        }
    }
    setups
}

/// The pin that applications see under a number, if there is one. The numbers are those of the
/// Arduino header, digital pins first, and then those that only the Morpho headers have.
pub fn gpio_pin(index: usize) -> (pin: Option<Pin>)
    ensures
        pin == gpio_pin_of(index),
{
    match index {
        0 => Some(Pin { bank: Bank::A, number: 3 }),
        1 => Some(Pin { bank: Bank::A, number: 2 }),
        2 => Some(Pin { bank: Bank::C, number: 8 }),
        7 => Some(Pin { bank: Bank::A, number: 8 }),
        8 => Some(Pin { bank: Bank::C, number: 7 }),
        9 => Some(Pin { bank: Bank::C, number: 6 }),
        10 => Some(Pin { bank: Bank::C, number: 9 }),
        11 => Some(Pin { bank: Bank::A, number: 7 }),
        16 => Some(Pin { bank: Bank::A, number: 0 }),
        17 => Some(Pin { bank: Bank::A, number: 1 }),
        18 => Some(Pin { bank: Bank::A, number: 4 }),
        20 => Some(Pin { bank: Bank::C, number: 1 }),
        21 => Some(Pin { bank: Bank::C, number: 0 }),
        22 => Some(Pin { bank: Bank::C, number: 10 }),
        23 => Some(Pin { bank: Bank::C, number: 11 }),
        24 => Some(Pin { bank: Bank::C, number: 12 }),
        25 => Some(Pin { bank: Bank::A, number: 15 }),
        26 => Some(Pin { bank: Bank::C, number: 3 }),
        _ => None,
    }
}

/// The pin that applications see under a number, if there is one.
pub open spec fn gpio_pin_of(index: usize) -> Option<Pin> {
    let bank_a = |number: u8| Some(Pin { bank: Bank::A, number });
    let bank_c = |number: u8| Some(Pin { bank: Bank::C, number });
    match index {
        // D0, D1, D2
        0 => bank_a(3),
        1 => bank_a(2),
        2 => bank_c(8),
        // D7 to D11
        7 => bank_a(8),
        8 => bank_c(7),
        9 => bank_c(6),
        10 => bank_c(9),
        11 => bank_a(7),
        // A0, A1, A2, A4, A5
        16 => bank_a(0),
        17 => bank_a(1),
        18 => bank_a(4),
        20 => bank_c(1),
        21 => bank_c(0),
        // Pins 1, 2, 3, 17 and 37 of the header CN7
        22 => bank_c(10),
        23 => bank_c(11),
        24 => bank_c(12),
        25 => bank_a(15),
        26 => bank_c(3),
        _ => None,
    }
}

/// No pin is seen under two numbers.
pub proof fn law_gpio_pins_differ(a: usize, b: usize)
    requires
        a != b,
        gpio_pin_of(a) is Some,
    ensures
        gpio_pin_of(a) != gpio_pin_of(b),
{
}

/// What the pins are connected to: the serial port, the bus for SPI and the bus for I2C each have their
/// pins and their number, the pins for I2C alone are pulled up and driven one way, the LED and the chip
/// select alone are outputs, the button alone is an input, and is pulled down.
pub proof fn law_pins_of_the_peripherals(pin: Pin, setup: PinSetup)
    requires
        purpose(pin) == Some(setup),
    ensures
        setup.pin == pin,
        setup.mode == Mode::AlternateFunction(7) <==> pin.bank is A && (pin.number == 9
            || pin.number == 10),
        setup.mode == Mode::AlternateFunction(5) <==> pin.bank is B && pin.number == 3
            || pin.bank is A && (pin.number == 6 || pin.number == 7),
        setup.mode == Mode::AlternateFunction(4) <==> pin.bank is B && (pin.number == 6
            || pin.number == 7),
        setup.open_drain <==> setup.mode == Mode::AlternateFunction(4),
        setup.floating_state is PullUp <==> setup.mode == Mode::AlternateFunction(4),
        setup.mode is Output <==> pin == (Pin { bank: Bank::A, number: 5 }) || pin == (Pin {
            bank: Bank::C,
            number: 9,
        }),
        setup.mode is Input <==> pin == (Pin { bank: Bank::C, number: 13 }),
        setup.floating_state is PullDown <==> setup.mode is Input,
        setup.high_speed <==> setup.mode is AlternateFunction || pin == (Pin {
            bank: Bank::C,
            number: 9,
        }),
{
}

/// The numbers 16 to 21 that applications see are the analog pins of the Arduino header, where they
/// see them at all, and the board sets those up as analog.
pub proof fn law_analog_pins(index: usize, pin: Pin)
    requires
        16 <= index <= 21,
        gpio_pin_of(index) == Some(pin),
    ensures
        purpose(pin) matches Some(setup) && setup.mode is Analog,
        index == 16 ==> pin == (Pin { bank: Bank::A, number: 0 }),
        index == 17 ==> pin == (Pin { bank: Bank::A, number: 1 }),
        index == 18 ==> pin == (Pin { bank: Bank::A, number: 4 }),
        index == 20 ==> pin == (Pin { bank: Bank::C, number: 1 }),
        index == 21 ==> pin == (Pin { bank: Bank::C, number: 0 }),
        index != 19,
{
}

/// The channels of the converter that applications see, in the order of the Arduino pins A0 to A5.
pub fn adc_channels() -> (channels: [u8; 6])
    ensures
        channels@ == seq![5u8, 6u8, 9u8, 15u8, 2u8, 1u8],
{
    let channels = [5u8, 6u8, 9u8, 15u8, 2u8, 1u8];
    assert(channels@ =~= seq![5u8, 6u8, 9u8, 15u8, 2u8, 1u8]);
    channels
}

/// A driver that the board offers to applications.
#[derive(Clone, Copy, Debug, PartialEq, Eq, Structural)]
pub enum Driver {
    Console,
    Led,
    Button,
    Alarm,
    Pwm,
    Adc,
    Dac,
    Gpio,
    Crc,
    Hash,
    Hmac,
    Hkdf,
    Aes,
    Spi,
    I2c,
    DateTime,
}

/// Where a driver stands in the list of drivers.
pub open spec fn place(driver: Driver) -> int {
    match driver {
        Driver::Console => 0,
        Driver::Led => 1,
        Driver::Button => 2,
        Driver::Alarm => 3,
        Driver::Pwm => 4,
        Driver::Adc => 5,
        Driver::Dac => 6,
        Driver::Gpio => 7,
        Driver::Crc => 8,
        Driver::Hash => 9,
        Driver::Hmac => 10,
        Driver::Hkdf => 11,
        Driver::Aes => 12,
        Driver::Spi => 13,
        Driver::I2c => 14,
        Driver::DateTime => 15,
    }
}

/// The numbers by which applications call the drivers.
#[derive(Clone, Copy, Debug, PartialEq, Eq, Structural)]
pub struct DriverNumbers {
    pub console: usize,
    pub led: usize,
    pub button: usize,
    pub alarm: usize,
    pub pwm: usize,
    pub adc: usize,
    pub dac: usize,
    pub gpio: usize,
    pub crc: usize,
    pub hash: usize,
    pub hmac: usize,
    pub hkdf: usize,
    pub aes: usize,
    pub spi: usize,
    pub i2c: usize,
    pub date_time: usize,
}

impl DriverNumbers {
    /// The number of a driver.
    pub open spec fn number_of(self, driver: Driver) -> usize {
        match driver {
            Driver::Console => self.console,
            Driver::Led => self.led,
            Driver::Button => self.button,
            Driver::Alarm => self.alarm,
            Driver::Pwm => self.pwm,
            Driver::Adc => self.adc,
            Driver::Dac => self.dac,
            Driver::Gpio => self.gpio,
            Driver::Crc => self.crc,
            Driver::Hash => self.hash,
            Driver::Hmac => self.hmac,
            Driver::Hkdf => self.hkdf,
            Driver::Aes => self.aes,
            Driver::Spi => self.spi,
            Driver::I2c => self.i2c,
            Driver::DateTime => self.date_time,
        }
    }

    /// Finds the driver that has a number; of several, the one that is listed first.
    pub fn with_driver(&self, driver_num: usize) -> (driver: Option<Driver>)
        ensures
            match driver {
                Some(driver) => {
                    &&& self.number_of(driver) == driver_num
                    &&& forall|other: Driver| #[trigger]
                        self.number_of(other) == driver_num ==> place(driver) <= place(other)
                },
                None => forall|other: Driver| #[trigger] self.number_of(other) != driver_num,
            },
    {
        if driver_num == self.console {
            Some(Driver::Console)
        } else if driver_num == self.led {
            Some(Driver::Led)
        } else if driver_num == self.button {
            Some(Driver::Button)
        } else if driver_num == self.alarm {
            Some(Driver::Alarm)
        } else if driver_num == self.pwm {
            Some(Driver::Pwm)
        } else if driver_num == self.adc {
            Some(Driver::Adc)
        } else if driver_num == self.dac {
            Some(Driver::Dac)
        } else if driver_num == self.gpio {
            Some(Driver::Gpio)
        } else if driver_num == self.crc {
            Some(Driver::Crc)
        } else if driver_num == self.hash {
            Some(Driver::Hash)
        } else if driver_num == self.hmac {
            Some(Driver::Hmac)
        } else if driver_num == self.hkdf {
            Some(Driver::Hkdf)
        } else if driver_num == self.aes {
            Some(Driver::Aes)
        } else if driver_num == self.spi {
            Some(Driver::Spi)
        } else if driver_num == self.i2c {
            Some(Driver::I2c)
        } else if driver_num == self.date_time {
            Some(Driver::DateTime)
        } else {
            None
        }
    }
}

/// The number by which the mutex of the hash peripheral knows the hash driver.
pub const HASH_CLIENT: usize = 0;

/// The number by which the mutex of the hash peripheral knows the HMAC driver.
pub const HMAC_CLIENT: usize = 1;

/// The number by which the mutex of the hash peripheral knows the HKDF driver.
pub const HKDF_CLIENT: usize = 2;

/// The drivers that share the hash peripheral, and its mutex.
pub struct HashDrivers<H> {
    pub mutex: DriverMutex<H>,
    pub hash: hash::Hash<H>,
    /// The place of the HMAC driver with the mutex.
    pub hmac: Option<DriverMutexHandle>,
    pub hkdf: Hkdf<H>,
}

/// The mutex of the hash peripheral once the three drivers are its clients.
pub open spec fn shared(id: usize) -> MutexView {
    driver_mutex::fresh(id, 3).added(HASH_CLIENT, 0).added(HMAC_CLIENT, 1).added(HKDF_CLIENT, 2)
}

impl<H> HashDrivers<H> {
    /// Puts the peripheral behind a mutex for three clients, builds the drivers for hash and HKDF
    /// over it, and registers them and the HMAC driver.
    pub fn new(
        mutex_id: MutexNumber,
        peripheral: H,
        numbers: DriverNumbers,
        data_buffer: Vec<u8>,
        hash_apps: Grant,
        hkdf_apps: Grant,
    ) -> (drivers: Self)
        ensures
            drivers.mutex@.wf(),
            drivers.mutex@ == shared(mutex_id@),
            drivers.mutex.guarded() == peripheral,
            drivers.hash.log() == Seq::<Call>::empty(),
            drivers.hash@.handle matches Some(handle) && handle.index() == 0 && handle.owner()
                == mutex_id@,
            drivers.hash@ == (HashView {
                handle: drivers.hash@.handle,
                ..HashView::fresh(HASH_CLIENT, data_buffer@, hash_apps@)
            }),
            drivers.hmac matches Some(handle) && handle.index() == 1 && handle.owner() == mutex_id@,
            drivers.hkdf.valid(),
            drivers.hkdf.log() == Seq::<Call>::empty(),
            drivers.hkdf@.handle matches Some(handle) && handle.index() == 2 && handle.owner()
                == mutex_id@,
            drivers.hkdf@ == (HkdfView {
                handle: drivers.hkdf@.handle,
                ..HkdfView::fresh(HKDF_CLIENT, hkdf_apps@)
            }),
    {
        let mut mutex = DriverMutexComponent::<H, 3, 4>::new(peripheral).finalize(mutex_id);
        let mut hash = HashComponent::new(numbers.hash).finalize(
            HASH_CLIENT,
            data_buffer,
            hash_apps,
        );
        assert(mutex@.is_slot_of(HASH_CLIENT, 0));
        let _ = hash.register(&mut mutex);
        assert(hash@.handle->0.index() == 0);
        assert(mutex@.is_slot_of(HMAC_CLIENT, 1));
        let hmac = mutex.add_client(HMAC_CLIENT);
        assert(hmac->0.index() == 1);
        let mut hkdf = HkdfComponent::new(numbers.hkdf).finalize(HKDF_CLIENT, hkdf_apps);
        assert(mutex@.is_slot_of(HKDF_CLIENT, 2));
        let _ = hkdf.register(&mut mutex);
        assert(hkdf@.handle->0.index() == 2);
        HashDrivers { mutex, hash, hmac, hkdf }
    }
}

/// The mutex has no place for a fourth driver.
pub proof fn law_three_drivers_share(id: usize, other: usize, slot: int)
    requires
        other != HASH_CLIENT,
        other != HMAC_CLIENT,
        other != HKDF_CLIENT,
    ensures
        !shared(id).is_slot_of(other, slot),
{
    assert(shared(id).clients =~= seq![Some(HASH_CLIENT), Some(HMAC_CLIENT), Some(HKDF_CLIENT)]);
}

} // verus!
