//! What an operation of a mode works on.
use crate::driver_mutex::MutexView;
use crate::error::ErrorCode;
use crate::hil::cipher::Operation;
use crate::hil::trace;
use crate::hil::trace::{Call, Port};
use crate::sw::bytes;
use crate::sw::cbc::CbcView;
use crate::sw::ccm::CcmView;
use crate::sw::ctr::CtrView;
use crate::sw::gcm::GcmView;
use vstd::prelude::*;

verus! {

/// A client filled a buffer.
pub open spec fn filled(port: Port, offered: Seq<u8>, buffer: Seq<u8>) -> Call {
    Call::Fill { port, offered, buffer, result: Ok(()) }
}

/// A client read to a buffer, as far as `count` says.
pub open spec fn read(port: Port, offered: Seq<u8>, buffer: Seq<u8>, count: usize) -> Call {
    Call::Read { port, offered, buffer, count: Ok(count) }
}

/// A client that hands out all that it is asked for at once is read from once, and what it hands out
/// is what is gathered; one that hands out a part is asked for the rest.
pub proof fn law_gathered_in_order(
    port: Port,
    offered: Seq<u8>,
    first: Seq<u8>,
    count: usize,
    more_offered: Seq<u8>,
    second: Seq<u8>,
)
    requires
        0 < count <= first.len() <= usize::MAX,
        second.len() == first.len() - count,
    ensures
        ({
            let calls = seq![read(port, offered, first, count)];
            let more = calls.push(read(port, more_offered, second, second.len() as usize));
            &&& count == first.len() ==> trace::gather_outcome(calls, port, first.len()) == Some(
                Ok::<Seq<u8>, ErrorCode>(first),
            )
            &&& count < first.len() ==> trace::gather_outcome(more, port, first.len()) == Some(
                Ok::<Seq<u8>, ErrorCode>(first.take(count as int) + second),
            )
        }),
{
    reveal(trace::gather_outcome);
    let none = Seq::<Call>::empty();
    let a = read(port, offered, first, count);
    let b = read(port, more_offered, second, second.len() as usize);
    let calls = seq![a];
    assert(calls =~= none.push(a));
    assert(trace::gathered(none, port, first.len()) == Some(Seq::<u8>::empty()));
    trace::lemma_gather_step(none, a, port, first.len(), Seq::empty());
    assert(Seq::<u8>::empty() + first.take(count as int) =~= first.take(count as int));
    if count == first.len() {
        assert(first.take(count as int) =~= first);
    } else {
        trace::lemma_gather_step(calls, b, port, first.len(), first.take(count as int));
        assert(second.take(second.len() as int) =~= second);
    }
}

/// CBC works on what its client hands out: under the key, from the initialization vector on, and on
/// the whole input.
pub proof fn law_cbc_takes_what_is_handed_out(
    view: CbcView,
    key_offered: Seq<u8>,
    key: Seq<u8>,
    iv_offered: Seq<u8>,
    iv: Seq<u8>,
    reads: Seq<Call>,
    input: Seq<u8>,
)
    requires
        key.len() == 16,
        iv.len() == 16,
        view.len <= view.workspace.len(),
        trace::gather_outcome(reads, Port::Input, view.len) == Some(
            Ok::<Seq<u8>, ErrorCode>(input),
        ),
    ensures
        ({
            let calls = seq![
                filled(Port::Key, key_offered, key),
                filled(Port::Iv, iv_offered, iv),
            ] + reads;
            &&& view.initialized(calls) matches Some(Ok(later)) && {
                &&& later.session.key == key
                &&& later.iv == iv
                &&& later.chaining_value == iv
                &&& later.input == input
                &&& later.workspace.take(view.len as int) == input
                &&& later.offset == 0
                &&& later.len == view.len
                &&& later.operation == view.operation
            }
        }),
{
    broadcast use trace::lemma_gather_len;

    let calls = seq![filled(Port::Key, key_offered, key), filled(Port::Iv, iv_offered, iv)]
        + reads;
    assert(calls.skip(1)[0] == filled(Port::Iv, iv_offered, iv));
    assert(calls.skip(1).skip(1) =~= reads);
    assert((input + view.workspace.skip(input.len() as int)).take(view.len as int) =~= input);
}

/// CTR works on what its client hands out: under the key, from the counter block on that nonce and
/// counter make up, of which the counter counts, and on the whole input. If the counter would wrap
/// before the last block, it refuses.
pub proof fn law_ctr_takes_what_is_handed_out(
    view: CtrView,
    key_offered: Seq<u8>,
    key: Seq<u8>,
    nonce_offered: Seq<u8>,
    nonce_buffer: Seq<u8>,
    nonce_len: usize,
    counter_offered: Seq<u8>,
    counter: Seq<u8>,
    reads: Seq<Call>,
    input: Seq<u8>,
    blocks: nat,
)
    requires
        key.len() == 16,
        nonce_buffer.len() == 16,
        nonce_len < 16,
        counter.len() == 16 - nonce_len,
        view.len <= view.workspace.len(),
        16 * blocks < view.len + 16 <= 16 * blocks + 16,
        trace::gather_outcome(reads, Port::Input, view.len) == Some(
            Ok::<Seq<u8>, ErrorCode>(input),
        ),
    ensures
        ({
            let nonce = nonce_buffer.take(nonce_len as int);
            let parameters = seq![
                filled(Port::Key, key_offered, key),
                read(Port::Nonce, nonce_offered, nonce_buffer, nonce_len),
                read(Port::Counter, counter_offered, counter, counter.len() as usize),
            ];
            if bytes::be_value(counter) + blocks <= bytes::pow256(counter.len()) {
                &&& view.initialized(parameters + reads) matches Some(Ok(later)) && {
                    &&& later.session.key == key
                    &&& later.initial == nonce + counter
                    &&& later.counter == nonce + counter
                    &&& later.counter_start == nonce_len
                    &&& later.input == input
                    &&& later.workspace.take(view.len as int) == input
                    &&& later.offset == 0
                    &&& later.len == view.len
                }
            } else {
                view.initialized(parameters) == Some(Err::<CtrView, ErrorCode>(ErrorCode::SIZE))
            }
        }),
{
    broadcast use trace::lemma_gather_len;

    let parameters = seq![
        filled(Port::Key, key_offered, key),
        read(Port::Nonce, nonce_offered, nonce_buffer, nonce_len),
        read(Port::Counter, counter_offered, counter, counter.len() as usize),
    ];
    let calls = parameters + reads;
    assert(bytes::block_count(view.len) == blocks);
    assert(calls.skip(1)[0] == parameters[1]);
    assert(calls.skip(1).skip(1)[0] == parameters[2]);
    assert(calls.skip(1).skip(1).skip(1) =~= reads);
    assert(parameters.skip(1)[0] == parameters[1]);
    assert(parameters.skip(1).skip(1)[0] == parameters[2]);
    assert((input + view.workspace.skip(input.len() as int)).take(view.len as int) =~= input);
}

/// GCM works on what its client hands out: under the key, with the initialization vector, on the
/// whole input, and, to decrypt, with the tag in front of the block that is compared.
pub proof fn law_gcm_takes_what_is_handed_out(
    view: GcmView,
    key_offered: Seq<u8>,
    key: Seq<u8>,
    iv_offered: Seq<u8>,
    iv: Seq<u8>,
    tag_offered: Seq<u8>,
    tag: Seq<u8>,
    reads: Seq<Call>,
    input: Seq<u8>,
)
    requires
        key.len() == 16,
        iv.len() == 12,
        tag.len() == view.tag_len <= 16,
        view.len <= view.workspace.len(),
        trace::gather_outcome(reads, Port::Input, view.len) == Some(
            Ok::<Seq<u8>, ErrorCode>(input),
        ),
    ensures
        ({
            let parameters = seq![
                filled(Port::Key, key_offered, key),
                filled(Port::Iv, iv_offered, iv),
            ];
            let calls = if view.operation is Encrypt {
                parameters + reads
            } else {
                parameters.push(filled(Port::Tag, tag_offered, tag)) + reads
            };
            &&& view.initialized(calls) matches Some(Ok(later)) && {
                &&& later.session.key == key
                &&& later.iv == iv
                &&& later.input == input
                &&& later.workspace.take(view.len as int) == input
                &&& view.operation is Decrypt ==> later.tag.take(view.tag_len as int) == tag
                &&& later.len == view.len
                &&& later.aad_len == view.aad_len
                &&& later.tag_len == view.tag_len
                &&& later.operation == view.operation
            }
        }),
{
    broadcast use trace::lemma_gather_len;

    let parameters = seq![filled(Port::Key, key_offered, key), filled(Port::Iv, iv_offered, iv)];
    let t = filled(Port::Tag, tag_offered, tag);
    let calls = if view.operation is Encrypt {
        parameters + reads
    } else {
        parameters.push(t) + reads
    };
    assert(calls.skip(1)[0] == parameters[1]);
    if view.operation is Encrypt {
        assert(calls.skip(1).skip(1) =~= reads);
    } else {
        assert(calls.skip(1).skip(1)[0] == t);
        assert(calls.skip(1).skip(1).skip(1) =~= reads);
        assert((tag + bytes::zeros((16 - tag.len()) as nat)).take(view.tag_len as int) =~= tag);
    }
    assert((input + view.workspace.skip(input.len() as int)).take(view.len as int) =~= input);
}

/// CCM works on what its client hands out: under the key, with the nonce, and on the whole input,
/// which has the tag behind the payload to decrypt. A nonce of other than 7 to 13 bytes is refused,
/// and so is a payload whose length does not fit in the bytes that the nonce leaves for it.
pub proof fn law_ccm_takes_what_is_handed_out(
    view: CcmView,
    key_offered: Seq<u8>,
    key: Seq<u8>,
    nonce_offered: Seq<u8>,
    nonce_buffer: Seq<u8>,
    nonce_len: usize,
    reads: Seq<Call>,
    input: Seq<u8>,
)
    requires
        key.len() == 16,
        nonce_buffer.len() == 13,
        view.len + view.tag_len <= view.workspace.len(),
        trace::gather_outcome(
            reads,
            Port::Input,
            view.len + (if view.operation is Decrypt {
                view.tag_len
            } else {
                0nat
            }),
        ) == Some(Ok::<Seq<u8>, ErrorCode>(input)),
    ensures
        ({
            let parameters = seq![
                filled(Port::Key, key_offered, key),
                read(Port::Nonce, nonce_offered, nonce_buffer, nonce_len),
            ];
            if nonce_len < 7 || nonce_len > 13 {
                view.initialized(parameters) == Some(Err::<CcmView, ErrorCode>(ErrorCode::INVAL))
            } else if view.len >= bytes::pow256((15 - nonce_len) as nat) {
                view.initialized(parameters) == Some(Err::<CcmView, ErrorCode>(ErrorCode::SIZE))
            } else {
                &&& view.initialized(parameters + reads) matches Some(Ok(later)) && {
                    &&& later.session.key == key
                    &&& later.nonce == nonce_buffer.take(nonce_len as int)
                    &&& later.input == input
                    &&& later.workspace.take(input.len() as int) == input
                    &&& later.len == view.len
                    &&& later.aad_len == view.aad_len
                    &&& later.tag_len == view.tag_len
                    &&& later.operation == view.operation
                }
            }
        }),
{
    broadcast use trace::lemma_gather_len;

    let parameters = seq![
        filled(Port::Key, key_offered, key),
        read(Port::Nonce, nonce_offered, nonce_buffer, nonce_len),
    ];
    let calls = parameters + reads;
    assert(calls.skip(1)[0] == parameters[1]);
    assert(calls.skip(1).skip(1) =~= reads);
    assert(parameters.skip(1)[0] == parameters[1]);
    assert((input + view.workspace.skip(input.len() as int)).take(input.len() as int) =~= input);
}

/// Which requests an idle mode with a client and a registration takes, if the mutex does: CBC whole
/// blocks that the workspace holds, CTR whatever the workspace holds, GCM that too, as long as the
/// lengths in bits fit in 64 bits and the counter does not wrap, and CCM what the workspace holds
/// with the tag behind it.
pub proof fn law_what_the_modes_accept(
    cbc: CbcView,
    ctr: CtrView,
    gcm: GcmView,
    ccm: CcmView,
    mutex: MutexView,
    len: nat,
    aad_len: nat,
    tag_len: nat,
)
    ensures
        cbc.crypt_result(mutex, len) is Ok <==> {
            &&& cbc.state is Idle && cbc.session.client is Some && cbc.session.handle is Some
            &&& len % 16 == 0 && len <= cbc.workspace.len()
            &&& mutex.request_result(cbc.session.handle->0) is Ok
        },
        ctr.crypt_result(mutex, len) is Ok <==> {
            &&& ctr.state is Idle && ctr.session.client is Some && ctr.session.handle is Some
            &&& len <= ctr.workspace.len()
            &&& mutex.request_result(ctr.session.handle->0) is Ok
        },
        gcm.crypt_result(mutex, len, aad_len) is Ok <==> {
            &&& gcm.state is Idle && gcm.session.client is Some && gcm.session.handle is Some
            &&& len <= gcm.workspace.len()
            &&& aad_len < 0x2000_0000_0000_0000
            &&& len <= 16 * (0x1_0000_0000 - 2)
            &&& mutex.request_result(gcm.session.handle->0) is Ok
        },
        ccm.crypt_result(mutex, len, aad_len, tag_len) is Ok ==> {
            &&& ccm.state is Idle && ccm.session.client is Some && ccm.session.handle is Some
            &&& len + tag_len <= ccm.workspace.len()
            &&& mutex.request_result(ccm.session.handle->0) is Ok
        },
        ccm.state is Idle && ccm.session.client is Some && ccm.session.handle is Some && len
            + tag_len <= ccm.workspace.len() && aad_len + 25 <= usize::MAX
            && mutex.request_result(ccm.session.handle->0) is Ok ==> ccm.crypt_result(
            mutex,
            len,
            aad_len,
            tag_len,
        ) is Ok,
{
    broadcast use bytes::lemma_be_bytes_len;

}

/// An operation of CCM that is accepted has the lengths and the direction that were asked for.
pub proof fn law_ccm_accepts_what_is_asked(
    ccm: CcmView,
    len: nat,
    aad_len: nat,
    tag_len: nat,
    operation: Operation,
)
    ensures
        ({
            let accepted = ccm.accepted(len, aad_len, tag_len, operation);
            &&& accepted.state is WaitingForEcb
            &&& accepted.len == len
            &&& accepted.aad_len == aad_len
            &&& accepted.tag_len == tag_len
            &&& accepted.operation == operation
            &&& accepted.session == ccm.session
            &&& accepted.workspace == ccm.workspace
        }),
{
}

} // verus!
