//! How the hash accelerator is set up for a request, and how much it is asked for at a time.
use crate::error::ErrorCode;
use crate::hil::digest::Algorithm;
use crate::hil::trace::Port;
use crate::stm32u5::hash;
use crate::stm32u5::hash::{ClientId, HashView};
use crate::stm32u5::hash_utils::{DataType, State};
use vstd::prelude::*;

verus! {

/// The algorithms that the accelerator has are those whose digests fit its registers and whose blocks
/// have 64 bytes, but for the two short forms of SHA-512.
pub proof fn law_algorithms_of_the_accelerator(algorithm: Algorithm)
    ensures
        hash::is_supported(algorithm) <==> algorithm.block_size() == 64,
        hash::is_supported(algorithm) ==> algorithm.digest_len() <= 4 * hash::DIGEST_WORDS,
        hash::DIGEST_WORDS == 8,
        hash::FIFO_SIZE == 17 * 4,
{
}

/// A digest is taken on exactly if the driver is idle, the accelerator has the algorithm and there is
/// input; then the accelerator is set up for a plain digest by that algorithm of a new message that
/// comes as bytes, and all of the input is missing.
pub proof fn law_plain_digest_is_set_up(driver: HashView, algorithm: Algorithm, len: usize)
    ensures
        driver.hash_result(algorithm, len) == (if driver.state is Some {
            Err::<(), ErrorCode>(ErrorCode::BUSY)
        } else if algorithm.block_size() != 64 {
            Err(ErrorCode::NOSUPPORT)
        } else if len == 0 {
            Err(ErrorCode::INVAL)
        } else {
            Ok(())
        }),
        ({
            let begun = driver.hash_begun(algorithm, len);
            &&& begun.control.algorithm == Some(algorithm)
            &&& begun.algorithm == Some(algorithm)
            &&& !begun.control.hmac
            &&& begun.control.byte_data
            &&& begun.control.init
            &&& begun.control.multiple_dma
            &&& begun.state == Some(State::Add(len, DataType::Input))
            &&& begun.data_length == len
            &&& begun.leftover.bytes().len() == 0
            &&& begun.deferred_call
            &&& begun.transfer_mode is Dma <==> driver.dma_channel is Some
            &&& begun.client == driver.client
        }),
{
    law_algorithms_of_the_accelerator(algorithm);
}

/// A keyed digest is taken on exactly if the driver is idle, the accelerator has the algorithm, there
/// is input and the key is no longer than a block; then the accelerator is set up for a keyed digest
/// by that algorithm, with the flag for a long key exactly if the key is longer than a block, and the
/// key comes first, all of it.
pub proof fn law_keyed_digest_is_set_up(
    driver: HashView,
    algorithm: Algorithm,
    input_len: usize,
    key_len: usize,
)
    ensures
        driver.authenticate_result(algorithm, input_len, key_len) == (if driver.state is Some {
            Err::<(), ErrorCode>(ErrorCode::BUSY)
        } else if algorithm.block_size() != 64 {
            Err(ErrorCode::NOSUPPORT)
        } else if input_len == 0 || key_len > 64 {
            Err(ErrorCode::INVAL)
        } else {
            Ok(())
        }),
        ({
            let begun = driver.authenticate_begun(algorithm, input_len, key_len);
            &&& begun.control.algorithm == Some(algorithm)
            &&& begun.algorithm == Some(algorithm)
            &&& begun.control.hmac
            &&& begun.control.long_key <==> key_len > 64
            &&& begun.control.byte_data
            &&& begun.control.init
            &&& begun.control.multiple_dma
            &&& begun.state == Some(State::Add(key_len, DataType::InnerKey))
            &&& begun.data_length == input_len
            &&& begun.key_length == key_len
            &&& begun.leftover.bytes().len() == 0
            &&& begun.deferred_call
            &&& begun.client == driver.client
        }),
{
    law_algorithms_of_the_accelerator(algorithm);
}

/// What is asked of the client at a time: of input that the processor writes, and of a key, as much as
/// the accelerator expects, at most what its FIFO takes, and no more than is missing; of input for the
/// DMA as much as the buffer holds, and no more than is missing. A client of plain digests is never
/// asked for a key.
pub proof fn law_asked_for_no_more_than_fits(driver: HashView, data_type: DataType, left: nat)
    ensures
        match driver.load_asks(data_type, left) {
            Some((port, len)) => {
                let word_by_word = driver.transfer_mode is DirectStream || data_type
                    != DataType::Input;
                &&& port == (if data_type is Input {
                    Port::Input
                } else {
                    Port::Key
                })
                &&& len <= left
                &&& word_by_word ==> {
                    &&& len <= 4 * driver.status.words_expected
                    &&& len <= 68
                    &&& len == left || len == 4 * driver.status.words_expected || len == 68
                }
                &&& !word_by_word ==> {
                    &&& driver.data_buffer is Some
                    &&& len <= driver.data_buffer->0.data.len()
                    &&& len == left || len == driver.data_buffer->0.data.len()
                }
                &&& data_type !is Input ==> !(driver.client matches Some(ClientId::Hash(_)))
            },
            None => {
                ||| data_type !is Input && (driver.client matches Some(ClientId::Hash(_)))
                ||| data_type is Input && driver.transfer_mode is Dma && driver.data_buffer is None
            },
        },
{
}

} // verus!
