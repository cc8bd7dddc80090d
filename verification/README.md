# tock_crypto

Verified cryptography drivers for a small operating system kernel: what the drivers compute, when they
tell their clients, and how they share a peripheral is stated in contracts and proved with Verus.

- `src/hil` holds the interfaces between drivers and their clients. A party records the calls that it
  receives, so contracts can say which calls a driver makes, in which order and with which data.
- `src/driver_mutex.rs` shares one driver among several clients, first come, first served.
- `src/sw` implements CBC, CCM, CTR and GCM over a driver that encrypts single blocks.
- `src/nrf5x` and `src/stm32u5` drive peripherals. They work on images of the registers; whoever runs
  them copies the images to the hardware and back.
- `src/capsules` offers AES, hashes, HKDF and ECDSA signatures to processes and to the kernel, and
  `src/capsules/test` holds capsules that try out a digest, an HMAC or a key derivation.
  `aes_software.rs` and `ecdsa_drivers.rs` start the drivers that AES and ECDSA wait for.
- `src/components` and `src/boards` put drivers together.

Each state is modelled by a view, and each event by a spec function from a view to the next. Files that
end in `_math.rs` say what the algorithms are; files that end in `_laws.rs` prove what holds across
events.

`tests` runs the library against published test vectors and simulated hardware.

`app` is a program for the Nucleo-U545RE-Q. It connects one peripheral, the public key accelerator: the
tester of `src/boards` runs on its registers. It also builds the drivers that hash, and prints which
functions the pins are to have; neither the hash accelerator nor the pins are connected.
`app/ccm_port.rs` carries the registers of the CCM peripheral of the nRF52840, for a program on that
chip; the program here does not use it. The ECB peripheral of the nRF5x has no such port.
