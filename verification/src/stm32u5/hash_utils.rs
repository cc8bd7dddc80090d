//! Parts of the hash driver: its states, the bytes that wait for a whole word, the length of a
//! message, and the two kinds of client.
use crate::error::ErrorCode;
use crate::hil::digest::{Client, HmacClient};
use crate::hil::trace::{Call, Observed, Port};
use vstd::prelude::*;

verus! {

/// What is fed to the accelerator.
#[derive(Clone, Copy, Debug, PartialEq, Eq, Structural)]
pub enum DataType {
    Input,
    InnerKey,
    OuterKey,
}

/// What the driver is doing: adding data of which so many bytes are missing, or computing; the flag
/// says that the computation has been started.
#[derive(Clone, Copy, Debug, PartialEq, Eq, Structural)]
pub enum State {
    Add(usize, DataType),
    Run(bool, DataType),
}

impl State {
    /// The state that follows.
    pub open spec fn next(self, updated_len: Option<usize>) -> Option<State> {
        match self {
            State::Run(true, DataType::InnerKey) => match updated_len {
                Some(len) => Some(State::Add(len, DataType::Input)),
                None => None,
            },
            State::Run(true, DataType::Input) => match updated_len {
                Some(len) => Some(State::Add(len, DataType::OuterKey)),
                None => None,
            },
            State::Run(true, DataType::OuterKey) => None,
            State::Run(false, data_type) => match updated_len {
                Some(_) => None,
                None => Some(State::Run(true, data_type)),
            },
            State::Add(left, data_type) => if left == 0 || updated_len == Some(0usize) {
                Some(State::Run(false, data_type))
            } else {
                match updated_len {
                    Some(len) => Some(State::Add(len, data_type)),
                    None => None,
                }
            },
        }
    }

    /// What is being fed or computed.
    pub open spec fn data_type(self) -> DataType {
        match self {
            State::Add(_, data_type) => data_type,
            State::Run(_, data_type) => data_type,
        }
    }

    /// Steps to the state that follows, where `updated_len` is what is missing from now on.
    pub fn update(self, updated_len: Option<usize>) -> (state: Option<State>)
        ensures
            state == self.next(updated_len),
    {
        match (self, updated_len) {
            (State::Run(true, DataType::InnerKey), Some(len)) => Some(
                State::Add(len, DataType::Input),
            ),
            (State::Run(true, DataType::Input), Some(len)) => Some(
                State::Add(len, DataType::OuterKey),
            ),
            (State::Run(false, data_type), None) => Some(State::Run(true, data_type)),
            (State::Add(0, data_type), _) | (State::Add(_, data_type), Some(0)) => Some(
                State::Run(false, data_type),
            ),
            (State::Add(_, data_type), Some(len)) => Some(State::Add(len, data_type)),
            _ => None,
        }
    }

    /// What is being fed or computed.
    pub fn get_datatype(&self) -> (data_type: DataType)
        ensures
            data_type == self.data_type(),
    {
        match self {
            State::Add(_, data_type) => *data_type,
            State::Run(_, data_type) => *data_type,
        }
    }
}

/// How data gets to the accelerator: word by word, or by DMA; the flag says that the DMA has all
/// that was read.
#[derive(Clone, Copy, Debug, PartialEq, Eq, Structural)]
pub enum TransferMode {
    DirectStream,
    Dma(bool),
}

/// A client of either kind. A client for plain digests is asked for no key; the calls that are made
/// to it in this guise are recorded here.
pub enum HashClient<H, M> {
    Hash(H, Ghost<Seq<Call>>),
    Hmac(M),
}

impl<H: Client, M: HmacClient> HashClient<H, M> {
    /// The calls that have reached the client itself.
    pub open spec fn received(self) -> Seq<Call> {
        match self {
            HashClient::Hash(client, _) => client.log(),
            HashClient::Hmac(client) => client.log(),
        }
    }

    /// A client for plain digests.
    pub fn hash(client: H) -> (wrapped: Self)
        ensures
            wrapped == HashClient::<H, M>::Hash(client, Ghost(client.log())),
    {
        let ghost log = client.log();
        HashClient::Hash(client, Ghost(log))
    }
}

impl<H: Client, M: HmacClient> Observed for HashClient<H, M> {
    open spec fn log(&self) -> Seq<Call> {
        match *self {
            HashClient::Hash(_, log) => log@,
            HashClient::Hmac(client) => client.log(),
        }
    }

    open spec fn valid(&self) -> bool {
        match *self {
            HashClient::Hash(client, _) => client.valid(),
            HashClient::Hmac(client) => client.valid(),
        }
    }
}

impl<H: Client, M: HmacClient> Client for HashClient<H, M> {
    fn read_input(&mut self, input: &mut [u8]) -> (count: Result<usize, ErrorCode>)
        ensures
            final(self).received() == old(self).received().push(
                Call::Read {
                    port: Port::Input,
                    offered: old(input)@,
                    buffer: final(input)@,
                    count,
                },
            ),
    {
        match self {
            HashClient::Hash(client, log) => {
                let count = client.read_input(input);
                proof {
                    log@ = log@.push(
                        Call::Read {
                            port: Port::Input,
                            offered: old(input)@,
                            buffer: input@,
                            count,
                        },
                    );
                }
                count
            },
            HashClient::Hmac(client) => client.read_input(input),
        }
    }

    fn write_output(&mut self, output: &[u8]) -> (result: Result<(), ErrorCode>)
        ensures
            final(self).received() == old(self).received().push(
                Call::Write { port: Port::Output, data: output@, result },
            ),
    {
        match self {
            HashClient::Hash(client, log) => {
                let result = client.write_output(output);
                proof {
                    log@ = log@.push(Call::Write { port: Port::Output, data: output@, result });
                }
                result
            },
            HashClient::Hmac(client) => client.write_output(output),
        }
    }

    fn hash_done(&mut self, result: Result<(), ErrorCode>)
        ensures
            final(self).received() == old(self).received().push(Call::Done { result }),
    {
        match self {
            HashClient::Hash(client, log) => {
                client.hash_done(result);
                proof {
                    log@ = log@.push(Call::Done { result });
                }
            },
            HashClient::Hmac(client) => client.hash_done(result),
        }
    }
}

impl<H: Client, M: HmacClient> HmacClient for HashClient<H, M> {
    fn read_key(&mut self, key: &mut [u8]) -> (count: Result<usize, ErrorCode>)
        ensures
            *old(self) is Hash ==> count == Err::<usize, ErrorCode>(ErrorCode::INVAL)
                && final(self).received() == old(self).received(),
            *old(self) is Hmac ==> final(self).received() == old(self).received().push(
                Call::Read { port: Port::Key, offered: old(key)@, buffer: final(key)@, count },
            ),
    {
        match self {
            HashClient::Hmac(client) => client.read_key(key),
            HashClient::Hash(_, log) => {
                proof {
                    log@ = log@.push(
                        Call::Read {
                            port: Port::Key,
                            offered: old(key)@, buffer: key@,
                            count: Err(ErrorCode::INVAL),
                        },
                    );
                }
                Err(ErrorCode::INVAL)
            },
        }
    }
}

/// Bytes that wait until they make a word.
pub struct Leftover {
    buffer: Option<u32>,
    index: usize,
}

/// The waiting bytes: a word that fills from its upper end, and how many bytes it has.
pub struct LeftoverView {
    pub buffer: Option<u32>,
    pub index: nat,
}

/// A byte of a word, counted from the lower end.
pub open spec fn byte_of(word: u32, position: int) -> u8 {
    if position == 0 {
        (word % 256) as u8
    } else if position == 1 {
        (word / 256 % 256) as u8
    } else if position == 2 {
        (word / 65536 % 256) as u8
    } else {
        (word / 16777216) as u8
    }
}

/// The word that four bytes make, the first one lowest.
pub open spec fn le_word(a: u8, b: u8, c: u8, d: u8) -> u32 {
    (a + 256 * b + 65536 * c + 16777216 * d) as u32
}

impl LeftoverView {
    /// Nothing waits.
    pub open spec fn empty() -> LeftoverView {
        LeftoverView { buffer: None, index: 0 }
    }

    /// Four bytes wait.
    pub open spec fn is_full(self) -> bool {
        self.index == 4 && self.buffer is Some
    }

    /// Bytes and count agree.
    pub open spec fn is_orderly(self) -> bool {
        &&& self.index <= 4
        &&& self.index == 0 <==> self.buffer is None
    }

    /// The leftover after one more byte. One that has four bytes takes no more and stays as it is.
    pub open spec fn added(self, byte: u8) -> LeftoverView {
        if self.index == 4 {
            self
        } else {
            LeftoverView {
                buffer: match self.buffer {
                    Some(word) => Some((word / 256 + 16777216 * byte) as u32),
                    None => Some((16777216 * byte) as u32),
                },
                index: self.index + 1,
            }
        }
    }

    /// The leftover after more bytes.
    pub open spec fn filled(self, data: Seq<u8>) -> LeftoverView
        decreases data.len(),
    {
        if data.len() == 0 {
            self
        } else {
            self.filled(data.drop_last()).added(data.last())
        }
    }

    /// The waiting bytes as a word, the first one lowest and nothing above the last one.
    pub open spec fn word(self) -> u32 {
        match self.buffer {
            Some(word) => if self.index == 1 {
                word / 16777216
            } else if self.index == 2 {
                word / 65536
            } else if self.index == 3 {
                word / 256
            } else {
                word
            },
            None => 0,
        }
    }

    /// The leftover after its word was taken.
    pub open spec fn taken(self) -> LeftoverView {
        if self.buffer is None {
            self
        } else {
            LeftoverView { buffer: None, index: 0 }
        }
    }

    /// The waiting bytes, in order.
    pub open spec fn bytes(self) -> Seq<u8> {
        match self.buffer {
            Some(word) => Seq::new(self.index, |i: int| byte_of(word, 4 - self.index + i)),
            None => Seq::empty(),
        }
    }
}

impl View for Leftover {
    type V = LeftoverView;

    closed spec fn view(&self) -> LeftoverView {
        LeftoverView { buffer: self.buffer, index: self.index as nat }
    }
}

impl Leftover {
    /// The invariant.
    pub open spec fn wf(self) -> bool {
        self@.is_orderly()
    }

    /// An empty leftover.
    pub fn new() -> (leftover: Self)
        ensures
            leftover.wf(),
            leftover@ == LeftoverView::empty(),
    {
        Leftover { buffer: None, index: 0 }
    }

    /// How many bytes wait.
    pub fn len(&self) -> (len: usize)
        ensures
            len == self@.index,
    {
        self.index
    }

    /// Add a new byte to the leftover buffer, unless it is full.
    pub fn add(&mut self, byte: u8)
        requires
            old(self).wf(),
        ensures
            final(self).wf(),
            final(self)@ == old(self)@.added(byte),
            old(self)@.index == 4 ==> final(self)@ == old(self)@,
    {
        if self.index < 4 {
            // 01 -> 01xxxxxx
            // 02 -> 0201xxxx
            // 03 -> 030201xx
            // 04 -> 04030201
            self.buffer = match self.buffer {
                Some(word) => Some(word / 256 + 16777216 * (byte as u32)),
                None => Some(16777216 * (byte as u32)),
            };
            self.index = self.index + 1;
        }
    }

    /// Empty the buffer.
    pub fn reset(&mut self)
        ensures
            final(self).wf(),
            final(self)@ == LeftoverView::empty(),
    {
        self.buffer = None;
        self.index = 0;
    }

    /// Take the contents of the buffer in little endian format.
    pub fn to_le(&mut self) -> (word: u32)
        requires
            old(self).wf(),
        ensures
            final(self).wf(),
            final(self)@ == old(self)@.taken(),
            word == old(self)@.word(),
    {
        match self.buffer {
            Some(buffer) => {
                let word: u32 = match self.bytes_left() {
                    3 => buffer / 16777216,
                    2 => buffer / 65536,
                    1 => buffer / 256,
                    _ => buffer,
                };
                self.buffer = None;
                self.index = 0;
                word
            },
            None => 0,
        }
    }

    /// Returns how many bytes are left to fill the buffer up.
    pub fn bytes_left(&self) -> (left: usize)
        requires
            self.wf(),
        ensures
            left == 4 - self@.index,
    {
        4 - self.index
    }

    /// Returns if the buffer is full or not.
    pub fn is_full(&self) -> (full: bool)
        ensures
            full == self@.is_full(),
    {
        self.index == 4 && self.buffer.is_some()
    }

    /// Returns if the buffer is empty or not.
    pub fn is_empty(&self) -> (empty: bool)
        ensures
            empty == (self@.buffer is None),
    {
        self.buffer.is_none()
    }
}

/// A byte that is added to a leftover with room waits behind the others.
pub proof fn law_added_waits_last(leftover: LeftoverView, byte: u8)
    requires
        leftover.is_orderly(),
        !leftover.is_full(),
    ensures
        leftover.added(byte).is_orderly(),
        leftover.added(byte).bytes() == leftover.bytes().push(byte),
{
    let after = leftover.added(byte);
    match leftover.buffer {
        Some(word) => {
            lemma_shift(word, byte);
            assert(after.bytes() =~= leftover.bytes().push(byte));
        },
        None => {
            lemma_shift(0, byte);
            assert(after.bytes() =~= leftover.bytes().push(byte));
        },
    }
}

/// Where the bytes of a word go when a byte is shifted in from above.
proof fn lemma_shift(word: u32, byte: u8)
    ensures
        word / 256 + 16777216 * byte <= u32::MAX,
        ({
            let after = (word / 256 + 16777216 * byte) as u32;
            &&& byte_of(after, 0) == byte_of(word, 1)
            &&& byte_of(after, 1) == byte_of(word, 2)
            &&& byte_of(after, 2) == byte_of(word, 3)
            &&& byte_of(after, 3) == byte
        }),
{
    let high = byte as u32;
    let after = (word / 256 + 16777216 * high) as u32;
    assert(word / 256 + 16777216 * high <= u32::MAX);
    assert(after % 256 == word / 256 % 256 && after / 256 % 256 == word / 65536 % 256 && after
        / 65536 % 256 == word / 16777216 && after / 16777216 == high) by (bit_vector)
        requires
            after == word / 256 + 16777216 * high,
            high < 256,
    ;
}

/// Bytes that fit in a leftover wait behind the others, in order.
pub proof fn law_filled_waits_in_order(leftover: LeftoverView, data: Seq<u8>)
    requires
        leftover.is_orderly(),
        leftover.index + data.len() <= 4,
    ensures
        leftover.filled(data).is_orderly(),
        leftover.filled(data).index == leftover.index + data.len(),
        leftover.filled(data).bytes() == leftover.bytes() + data,
    decreases data.len(),
{
    if data.len() == 0 {
        assert(leftover.bytes() + data =~= leftover.bytes());
    } else {
        law_filled_waits_in_order(leftover, data.drop_last());
        law_added_waits_last(leftover.filled(data.drop_last()), data.last());
        assert(leftover.bytes() + data =~= (leftover.bytes() + data.drop_last()).push(data.last()));
    }
}

/// The word that is taken from a leftover holds the waiting bytes, the first one lowest, and zeros
/// above them.
pub proof fn law_word_is_little_endian(leftover: LeftoverView, position: int)
    requires
        leftover.is_orderly(),
        0 <= position < 4,
    ensures
        byte_of(leftover.word(), position) == (if position < leftover.bytes().len() {
            leftover.bytes()[position]
        } else {
            0
        }),
{
    let word = match leftover.buffer {
        Some(word) => word,
        None => 0,
    };
    assert(word / 16777216 < 256 && word / 65536 < 65536 && word / 256 < 16777216 && word / 65536
        / 256 == word / 16777216 && word / 256 / 256 == word / 65536 && word / 256 / 65536 == word
        / 16777216) by (bit_vector);
}

/// A word gives back the four bytes that make it.
pub proof fn law_word_gives_back_bytes(a: u8, b: u8, c: u8, d: u8)
    ensures
        byte_of(le_word(a, b, c, d), 0) == a,
        byte_of(le_word(a, b, c, d), 1) == b,
        byte_of(le_word(a, b, c, d), 2) == c,
        byte_of(le_word(a, b, c, d), 3) == d,
{
    let (x, y, z, w) = (a as u32, b as u32, c as u32, d as u32);
    assert(x + 256 * y + 65536 * z + 16777216 * w <= u32::MAX);
    let word = (x + 256 * y + 65536 * z + 16777216 * w) as u32;
    assert(word % 256 == x && word / 256 % 256 == y && word / 65536 % 256 == z && word / 16777216
        == w) by (bit_vector)
        requires
            word == x + 256 * y + 65536 * z + 16777216 * w,
            x < 256,
            y < 256,
            z < 256,
            w < 256,
    ;
}

/// Tracks how much of a message is missing.
pub struct MsgTracker {
    data_len: Option<usize>,
}

impl View for MsgTracker {
    type V = Option<usize>;

    closed spec fn view(&self) -> Option<usize> {
        self.data_len
    }
}

impl MsgTracker {
    /// A tracker without a message.
    pub fn new() -> (tracker: Self)
        ensures
            tracker@ is None,
    {
        MsgTracker { data_len: None }
    }

    /// Starts a message. `ALREADY` if there is one.
    pub fn set(&mut self, len: usize) -> (result: Result<(), ErrorCode>)
        ensures
            final(self)@ == (match old(self)@ {
                None => Some(len),
                Some(before) => Some(before),
            }),
            result == (match old(self)@ {
                None => Ok::<(), ErrorCode>(()),
                Some(_) => Err(ErrorCode::ALREADY),
            }),
    {
        if self.data_len.is_none() {
            self.data_len = Some(len);
            Ok(())
        } else {
            Err(ErrorCode::ALREADY)
        }
    }

    /// Counts `len` more bytes of the message as loaded. `INVAL` if there is none, `SIZE` if fewer
    /// bytes are missing: then nothing changes.
    pub fn add(&mut self, len: usize) -> (result: Result<(), ErrorCode>)
        ensures
            final(self)@ == (match old(self)@ {
                Some(before) => if len <= before {
                    Some((before - len) as usize)
                } else {
                    Some(before)
                },
                None => None,
            }),
            result == (match old(self)@ {
                None => Err::<(), ErrorCode>(ErrorCode::INVAL),
                Some(data_len) => if len <= data_len {
                    Ok(())
                } else {
                    Err(ErrorCode::SIZE)
                },
            }),
    {
        match self.data_len {
            None => Err(ErrorCode::INVAL),
            Some(data_len) => {
                if len <= data_len {
                    self.data_len = Some(data_len - len);
                    Ok(())
                } else {
                    Err(ErrorCode::SIZE)
                }
            },
        }
    }

    /// What is missing. `INVAL` if there is no message.
    pub fn get_remaining(&self) -> (remaining: Result<usize, ErrorCode>)
        ensures
            remaining == (match self@ {
                Some(len) => Ok::<usize, ErrorCode>(len),
                None => Err(ErrorCode::INVAL),
            }),
    {
        match self.data_len {
            Some(len) => Ok(len),
            None => Err(ErrorCode::INVAL),
        }
    }

    /// Whether nothing is missing. `INVAL` if there is no message.
    pub fn is_loaded(&self) -> (loaded: Result<bool, ErrorCode>)
        ensures
            loaded == (match self@ {
                Some(len) => Ok::<bool, ErrorCode>(len == 0),
                None => Err(ErrorCode::INVAL),
            }),
    {
        match self.data_len {
            Some(0) => Ok(true),
            Some(_) => Ok(false),
            None => Err(ErrorCode::INVAL),
        }
    }

    /// Drops the message.
    pub fn reset(&mut self)
        ensures
            final(self)@ is None,
    {
        self.data_len = None;
    }
}

} // verus!
