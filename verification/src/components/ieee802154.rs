//! Components for IEEE 802.15.4 radio syscall interfaces: what they are built from, and how their
//! layers are connected.
use crate::driver_mutex::{DriverMutex, DriverMutexHandle};
use vstd::prelude::*;

verus! {

/// The longest tag of CCM, in bytes.
pub const CCM_TAG_SIZE: usize = 16;

/// The size of the workspace that CCM needs for frames of a radio: a frame and its tag.
pub fn ccm_workspace_size(max_buf_size: usize) -> (size: usize)
    requires
        max_buf_size + CCM_TAG_SIZE <= usize::MAX,
    ensures
        size == max_buf_size + 16,
{
    max_buf_size + CCM_TAG_SIZE
}

/// What a full 802.15.4 stack is built from: a radio, the mutex of the CCM driver that secures its
/// frames, and the addresses of the device.
pub struct Ieee802154Component<R, C> {
    pub driver_num: usize,
    pub radio: R,
    pub ccm_mutex: DriverMutex<C>,
    pub pan_id: u16,
    pub short_addr: u16,
    pub long_addr: [u8; 8],
}

/// A layer of the stack, or the radio below it.
#[derive(Clone, Copy, Debug, PartialEq, Eq, Structural)]
pub enum Layer {
    Radio,
    /// Keeps the radio on permanently; pass-through layer.
    AwakeMac,
    /// Secures frames with CCM.
    Framer,
    /// Shares the framer among users.
    MuxMac,
    /// The user that serves processes.
    MacUser,
    /// The driver that processes call.
    RadioDriver,
}

/// A step by which the layers are connected.
#[derive(Clone, Copy, Debug, PartialEq, Eq)]
pub enum Step {
    SetTransmitClient { of: Layer, client: Layer },
    SetReceiveClient { of: Layer, client: Layer },
    SetConfigClient { of: Layer, client: Layer },
    /// Give the layer a buffer to receive into.
    SetReceiveBuffer { of: Layer },
    AddUser { of: Layer, user: Layer },
    /// Have the kernel make the deferred calls of the layer.
    RegisterDeferredCall { of: Layer },
    SetKeyProcedure { of: Layer, procedure: Layer },
    SetDeviceProcedure { of: Layer, procedure: Layer },
    SetPan { of: Layer, pan_id: u16 },
    SetAddress { of: Layer, short_addr: u16 },
    SetAddressLong { of: Layer, long_addr: [u8; 8] },
}

/// How the layers of a stack are connected, and told the addresses of the device.
pub open spec fn stack_steps(pan_id: u16, short_addr: u16, long_addr: [u8; 8]) -> Seq<Step> {
    seq![
        Step::SetTransmitClient { of: Layer::Radio, client: Layer::AwakeMac },
        Step::SetReceiveClient { of: Layer::Radio, client: Layer::AwakeMac },
        Step::SetReceiveBuffer { of: Layer::Radio },
        Step::SetTransmitClient { of: Layer::AwakeMac, client: Layer::Framer },
        Step::SetReceiveClient { of: Layer::AwakeMac, client: Layer::Framer },
        Step::SetConfigClient { of: Layer::AwakeMac, client: Layer::Framer },
        Step::SetTransmitClient { of: Layer::Framer, client: Layer::MuxMac },
        Step::SetReceiveClient { of: Layer::Framer, client: Layer::MuxMac },
        Step::AddUser { of: Layer::MuxMac, user: Layer::MacUser },
        Step::RegisterDeferredCall { of: Layer::RadioDriver },
        Step::SetKeyProcedure { of: Layer::Framer, procedure: Layer::RadioDriver },
        Step::SetDeviceProcedure { of: Layer::Framer, procedure: Layer::RadioDriver },
        Step::SetTransmitClient { of: Layer::MacUser, client: Layer::RadioDriver },
        Step::SetReceiveClient { of: Layer::MacUser, client: Layer::RadioDriver },
        Step::SetPan { of: Layer::MacUser, pan_id },
        Step::SetAddress { of: Layer::MacUser, short_addr },
        Step::SetAddressLong { of: Layer::MacUser, long_addr },
    ]
}

/// How the driver for raw frames is connected to its radio.
pub open spec fn raw_steps() -> Seq<Step> {
    seq![
        Step::SetTransmitClient { of: Layer::Radio, client: Layer::RadioDriver },
        Step::SetReceiveClient { of: Layer::Radio, client: Layer::RadioDriver },
        Step::SetReceiveBuffer { of: Layer::Radio },
    ]
}

/// `above` is told by `below` of frames that are sent and of frames that come.
pub open spec fn tells(steps: Seq<Step>, below: Layer, above: Layer) -> bool {
    ||| steps.contains(Step::AddUser { of: below, user: above })
    ||| {
        &&& steps.contains(Step::SetTransmitClient { of: below, client: above })
        &&& steps.contains(Step::SetReceiveClient { of: below, client: above })
    }
}

/// A stack that is to be connected.
pub struct Ieee802154Stack<R, C> {
    pub driver_num: usize,
    pub radio: R,
    pub ccm_mutex: DriverMutex<C>,
    /// The place of the framer with the mutex.
    pub framer: Option<DriverMutexHandle>,
    /// How the layers are to be connected, in order.
    pub steps: Vec<Step>,
}

impl<R, C> Ieee802154Component<R, C> {
    /// A component for the driver with a number.
    pub fn new(
        driver_num: usize,
        radio: R,
        ccm_mutex: DriverMutex<C>,
        pan_id: u16,
        short_addr: u16,
        long_addr: [u8; 8],
    ) -> (component: Self)
        ensures
            component == (Ieee802154Component {
                driver_num,
                radio,
                ccm_mutex,
                pan_id,
                short_addr,
                long_addr,
            }),
    {
        Ieee802154Component { driver_num, radio, ccm_mutex, pan_id, short_addr, long_addr }
    }

    /// Registers the framer, as client `framer`, with the mutex of the CCM driver, and says how the
    /// layers are to be connected.
    pub fn finalize(self, framer: usize) -> (stack: Ieee802154Stack<R, C>)
        requires
            self.ccm_mutex@.wf(),
            exists|slot: int| self.ccm_mutex@.is_slot_of(framer, slot),
        ensures
            stack.driver_num == self.driver_num,
            stack.radio == self.radio,
            stack.ccm_mutex@.wf(),
            stack.ccm_mutex.guarded() == self.ccm_mutex.guarded(),
            stack.framer matches Some(handle) && handle.owner() == self.ccm_mutex@.id
                && self.ccm_mutex@.is_slot_of(framer, handle.index() as int)
                && stack.ccm_mutex@ == self.ccm_mutex@.added(framer, handle.index() as int),
            stack.steps@ == stack_steps(self.pan_id, self.short_addr, self.long_addr),
    {
        let mut ccm_mutex = self.ccm_mutex;
        let handle = ccm_mutex.add_client(framer);
        let steps = vec![
            Step::SetTransmitClient { of: Layer::Radio, client: Layer::AwakeMac },
            Step::SetReceiveClient { of: Layer::Radio, client: Layer::AwakeMac },
            Step::SetReceiveBuffer { of: Layer::Radio },
            Step::SetTransmitClient { of: Layer::AwakeMac, client: Layer::Framer },
            Step::SetReceiveClient { of: Layer::AwakeMac, client: Layer::Framer },
            Step::SetConfigClient { of: Layer::AwakeMac, client: Layer::Framer },
            Step::SetTransmitClient { of: Layer::Framer, client: Layer::MuxMac },
            Step::SetReceiveClient { of: Layer::Framer, client: Layer::MuxMac },
            Step::AddUser { of: Layer::MuxMac, user: Layer::MacUser },
            Step::RegisterDeferredCall { of: Layer::RadioDriver },
            Step::SetKeyProcedure { of: Layer::Framer, procedure: Layer::RadioDriver },
            Step::SetDeviceProcedure { of: Layer::Framer, procedure: Layer::RadioDriver },
            Step::SetTransmitClient { of: Layer::MacUser, client: Layer::RadioDriver },
            Step::SetReceiveClient { of: Layer::MacUser, client: Layer::RadioDriver },
            Step::SetPan { of: Layer::MacUser, pan_id: self.pan_id },
            Step::SetAddress { of: Layer::MacUser, short_addr: self.short_addr },
            Step::SetAddressLong { of: Layer::MacUser, long_addr: self.long_addr },
        ];
        assert(steps@ =~= stack_steps(self.pan_id, self.short_addr, self.long_addr));
        Ieee802154Stack {
            driver_num: self.driver_num,
            radio: self.radio,
            ccm_mutex,
            framer: handle,
            steps,
        }
    }
}

/// What the driver for raw frames is built from.
pub struct Ieee802154RawComponent<R> {
    pub driver_num: usize,
    pub radio: R,
}

impl<R> Ieee802154RawComponent<R> {
    /// A component for the driver with a number.
    pub fn new(driver_num: usize, radio: R) -> (component: Self)
        ensures
            component == (Ieee802154RawComponent { driver_num, radio }),
    {
        Ieee802154RawComponent { driver_num, radio }
    }

    /// Says how the driver is to be connected to its radio.
    pub fn finalize(self) -> (raw: (R, Vec<Step>))
        ensures
            raw.0 == self.radio,
            raw.1@ == raw_steps(),
    {
        let steps = vec![
            Step::SetTransmitClient { of: Layer::Radio, client: Layer::RadioDriver },
            Step::SetReceiveClient { of: Layer::Radio, client: Layer::RadioDriver },
            Step::SetReceiveBuffer { of: Layer::Radio },
        ];
        assert(steps@ =~= raw_steps());
        (self.radio, steps)
    }
}

/// What the radio says goes up through every layer to the driver: each tells the one above it.
pub proof fn law_every_layer_tells_the_next(pan_id: u16, short_addr: u16, long_addr: [u8; 8])
    ensures
        ({
            let steps = stack_steps(pan_id, short_addr, long_addr);
            &&& tells(steps, Layer::Radio, Layer::AwakeMac)
            &&& tells(steps, Layer::AwakeMac, Layer::Framer)
            &&& tells(steps, Layer::Framer, Layer::MuxMac)
            &&& tells(steps, Layer::MuxMac, Layer::MacUser)
            &&& tells(steps, Layer::MacUser, Layer::RadioDriver)
        }),
{
    let steps = stack_steps(pan_id, short_addr, long_addr);
    assert(steps[0] == Step::SetTransmitClient { of: Layer::Radio, client: Layer::AwakeMac });
    assert(steps[1] == Step::SetReceiveClient { of: Layer::Radio, client: Layer::AwakeMac });
    assert(steps[3] == Step::SetTransmitClient { of: Layer::AwakeMac, client: Layer::Framer });
    assert(steps[4] == Step::SetReceiveClient { of: Layer::AwakeMac, client: Layer::Framer });
    assert(steps[6] == Step::SetTransmitClient { of: Layer::Framer, client: Layer::MuxMac });
    assert(steps[7] == Step::SetReceiveClient { of: Layer::Framer, client: Layer::MuxMac });
    assert(steps[8] == Step::AddUser { of: Layer::MuxMac, user: Layer::MacUser });
    assert(steps[12] == Step::SetTransmitClient {
        of: Layer::MacUser,
        client: Layer::RadioDriver,
    });
    assert(steps[13] == Step::SetReceiveClient { of: Layer::MacUser, client: Layer::RadioDriver });
}

/// A stack is told the addresses of its device, and no others; the radio gets a buffer to receive
/// into, and the framer asks the driver for keys and devices. What the radio says of raw frames goes to
/// the driver at once, and the radio has a buffer there too.
pub proof fn law_addresses_reach_the_stack(
    pan_id: u16,
    short_addr: u16,
    long_addr: [u8; 8],
    i: int,
)
    requires
        0 <= i < stack_steps(pan_id, short_addr, long_addr).len(),
    ensures
        ({
            let steps = stack_steps(pan_id, short_addr, long_addr);
            &&& steps.contains(Step::SetPan { of: Layer::MacUser, pan_id })
            &&& steps.contains(Step::SetAddress { of: Layer::MacUser, short_addr })
            &&& steps.contains(Step::SetAddressLong { of: Layer::MacUser, long_addr })
            &&& steps[i] matches Step::SetPan { pan_id: told, .. } ==> told == pan_id
            &&& steps[i] matches Step::SetAddress { short_addr: told, .. } ==> told == short_addr
            &&& steps[i] matches Step::SetAddressLong { long_addr: told, .. } ==> told == long_addr
            &&& steps.contains(Step::SetReceiveBuffer { of: Layer::Radio })
            &&& steps.contains(
                Step::SetKeyProcedure { of: Layer::Framer, procedure: Layer::RadioDriver },
            )
            &&& steps.contains(
                Step::SetDeviceProcedure { of: Layer::Framer, procedure: Layer::RadioDriver },
            )
        }),
        tells(raw_steps(), Layer::Radio, Layer::RadioDriver),
        raw_steps().contains(Step::SetReceiveBuffer { of: Layer::Radio }),
{
    let steps = stack_steps(pan_id, short_addr, long_addr);
    assert(steps[2] == Step::SetReceiveBuffer { of: Layer::Radio });
    assert(steps[10] == Step::SetKeyProcedure {
        of: Layer::Framer,
        procedure: Layer::RadioDriver,
    });
    assert(steps[11] == Step::SetDeviceProcedure {
        of: Layer::Framer,
        procedure: Layer::RadioDriver,
    });
    assert(steps[14] == Step::SetPan { of: Layer::MacUser, pan_id });
    assert(steps[15] == Step::SetAddress { of: Layer::MacUser, short_addr });
    assert(steps[16] == Step::SetAddressLong { of: Layer::MacUser, long_addr });
    let raw = raw_steps();
    assert(raw[0] == Step::SetTransmitClient { of: Layer::Radio, client: Layer::RadioDriver });
    assert(raw[1] == Step::SetReceiveClient { of: Layer::Radio, client: Layer::RadioDriver });
    assert(raw[2] == Step::SetReceiveBuffer { of: Layer::Radio });
}

} // verus!
