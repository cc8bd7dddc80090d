//! How operations of the modes end.
use crate::driver_mutex::MutexView;
use crate::error::ErrorCode;
use crate::hil::trace::{Call, Port};
use crate::sw::cbc;
use crate::sw::cbc::CbcView;
use crate::sw::ccm;
use crate::sw::ccm::CcmView;
use crate::sw::ctr;
use crate::sw::ctr::CtrView;
use crate::sw::gcm;
use crate::sw::gcm::GcmView;
use vstd::prelude::*;

verus! {

/// A client took output, or refused it.
pub open spec fn wrote(port: Port, data: Seq<u8>, result: Result<(), ErrorCode>) -> Call {
    Call::Write { port, data, result }
}

/// A ciphertext with a wrong tag ends an operation with `FAIL`: the client is told that and nothing
/// else, is handed no output, and the block cipher driver is given back without another block.
pub proof fn law_wrong_tag_fails(
    gcm_view: GcmView,
    gcm_later: GcmView,
    ccm_view: CcmView,
    ccm_later: CcmView,
    driver_calls: Seq<Call>,
    calls: Seq<Call>,
    mutex: MutexView,
    later_mutex: MutexView,
)
    ensures
        gcm_view.session.guard is Some && gcm_view.carried_out(
            gcm::Next::Reject,
            driver_calls,
            calls,
            gcm_later,
            mutex,
            later_mutex,
        ) ==> {
            &&& calls == seq![Call::Done { result: Err(ErrorCode::FAIL) }]
            &&& driver_calls.len() == 0
            &&& gcm_later.state is Idle
            &&& gcm_later.session.guard is None
            &&& later_mutex == mutex.released()
        },
        ccm_view.session.guard is Some && ccm_view.carried_out(
            ccm::Next::Reject,
            driver_calls,
            calls,
            ccm_later,
            mutex,
            later_mutex,
        ) ==> {
            &&& calls == seq![Call::Done { result: Err(ErrorCode::FAIL) }]
            &&& driver_calls.len() == 0
            &&& ccm_later.state is Idle
            &&& ccm_later.session.guard is None
            &&& later_mutex == mutex.released()
        },
{
}

/// The end of CBC: the client is handed the message, then what continues it, and is told a success if
/// it took both, and its own error if it refused one of them.
pub proof fn law_cbc_ends_as_the_client_says(
    view: CbcView,
    driver_calls: Seq<Call>,
    calls: Seq<Call>,
    later: CbcView,
    mutex: MutexView,
    later_mutex: MutexView,
    refused: ErrorCode,
)
    requires
        view.session.guard is Some,
        view.len <= view.workspace.len(),
        view.carried_out(cbc::Next::Output, driver_calls, calls, later, mutex, later_mutex),
    ensures
        ({
            let output = view.workspace.take(view.len as int);
            let iv = view.chaining_value;
            &&& output.len() == view.len
            &&& later.state is Idle
            &&& later.session.guard is None
            &&& later_mutex == mutex.released()
            &&& driver_calls.len() == 0
            &&& calls[0] == wrote(Port::Output, output, Err(refused)) ==> calls == seq![
                calls[0],
                Call::Done { result: Err(refused) },
            ]
            &&& calls[0]->Write_result is Ok ==> {
                &&& calls.len() == 3
                &&& calls[0]->data == output
                &&& calls[1] is Write && calls[1]->Write_port == Port::Iv && calls[1]->data == iv
                &&& calls[2] == (Call::Done { result: calls[1]->Write_result })
            }
        }),
{
    let one = calls.skip(1);
    let two = calls.skip(2);
    assert(calls[0] is Write);
    if calls[0]->Write_result is Err {
        assert(one.len() == 1 && one[0] == calls[1]);
        assert(calls =~= seq![calls[0], calls[1]]);
    } else {
        assert(two.len() == 1 && two[0] == calls[2]);
    }
}

/// The end of CTR and of CCM: the client is handed the output, and is told what it answers to that.
/// CCM hands out the payload, with the tag behind it to encrypt.
pub proof fn law_ctr_and_ccm_end_as_the_client_says(
    ctr_view: CtrView,
    ctr_later: CtrView,
    ccm_view: CcmView,
    ccm_later: CcmView,
    len: usize,
    driver_calls: Seq<Call>,
    calls: Seq<Call>,
    mutex: MutexView,
    later_mutex: MutexView,
)
    ensures
        ctr_view.session.guard is Some && ctr_view.carried_out(
            ctr::Next::Output,
            driver_calls,
            calls,
            ctr_later,
            mutex,
            later_mutex,
        ) ==> {
            &&& calls.len() == 2
            &&& calls[0] is Write && calls[0]->Write_port == Port::Output && calls[0]->data
                == ctr_view.workspace.take(ctr_view.len as int)
            &&& calls[1] == (Call::Done { result: calls[0]->Write_result })
            &&& ctr_later.state is Idle
            &&& later_mutex == mutex.released()
        },
        ccm_view.session.guard is Some && ccm_view.carried_out(
            ccm::Next::Output { len },
            driver_calls,
            calls,
            ccm_later,
            mutex,
            later_mutex,
        ) ==> {
            &&& calls.len() == 2
            &&& calls[0] is Write && calls[0]->Write_port == Port::Output && calls[0]->data
                == ccm_view.workspace.take(len as int)
            &&& calls[1] == (Call::Done { result: calls[0]->Write_result })
            &&& ccm_later.state is Idle
            &&& later_mutex == mutex.released()
        },
        ccm_view.operation is Encrypt && ccm_view.len + ccm_view.tag_len <= usize::MAX
            && ccm_view.payload_done() == (ccm::Next::Output { len }) ==> len == ccm_view.len
            + ccm_view.tag_len,
{
    let rest = calls.skip(1);
    if calls.len() > 0 {
        assert(rest.len() == calls.len() - 1);
        assert(rest.len() > 0 ==> rest[0] == calls[1]);
    }
}

/// The end of GCM: the client is handed the payload, then to encrypt the tag, of the length that was
/// asked for, and is told a success if it took all, and its own error if it refused.
pub proof fn law_gcm_ends_as_the_client_says(
    view: GcmView,
    driver_calls: Seq<Call>,
    calls: Seq<Call>,
    later: GcmView,
    mutex: MutexView,
    later_mutex: MutexView,
)
    requires
        view.wf(),
        view.is_requested(),
        view.session.guard is Some,
        view.carried_out(gcm::Next::Output, driver_calls, calls, later, mutex, later_mutex),
    ensures
        later.state is Idle,
        later.session.guard is None,
        later_mutex == mutex.released(),
        calls[0] is Write && calls[0]->Write_port == Port::Output,
        calls[0]->data == view.workspace.take(view.len as int),
        calls[0]->Write_result is Err || view.operation is Decrypt ==> calls.len() == 2
            && calls[1] == (Call::Done { result: calls[0]->Write_result }),
        calls[0]->Write_result is Ok && view.operation is Encrypt ==> {
            &&& calls.len() == 3
            &&& calls[1] is Write && calls[1]->Write_port == Port::Tag
            &&& calls[1]->data == view.tag.take(view.tag_len as int)
            &&& calls[1]->data.len() == view.tag_len
            &&& calls[2] == (Call::Done { result: calls[1]->Write_result })
        },
{
    let one = calls.skip(1);
    let two = calls.skip(2);
    assert(one.len() > 0 ==> one[0] == calls[1]);
    assert(two.len() > 0 ==> two[0] == calls[2]);
    assert(one.len() == calls.len() - 1);
    assert(two.len() == calls.len() - 2);
}

/// What the block cipher driver is asked for: one block at a time, to do what the operation does in
/// CBC, and always to encrypt in the other modes; a refusal ends the operation with that error.
pub proof fn law_one_block_at_a_time(
    cbc_view: CbcView,
    cbc_later: CbcView,
    ctr_view: CtrView,
    ctr_later: CtrView,
    gcm_view: GcmView,
    gcm_later: GcmView,
    ccm_view: CcmView,
    ccm_later: CcmView,
    driver_calls: Seq<Call>,
    calls: Seq<Call>,
    mutex: MutexView,
    later_mutex: MutexView,
)
    ensures
        cbc_view.launched(driver_calls, calls, cbc_later, mutex, later_mutex) ==> {
            &&& driver_calls.len() == 1
            &&& driver_calls[0] matches Call::EcbCrypt { len, operation, result } && len == 16
                && operation == cbc_view.operation && (result matches Err(error) ==> calls == seq![
                Call::Done { result: Err(error) },
            ])
        },
        ctr_view.launched(driver_calls, calls, ctr_later, mutex, later_mutex) ==> {
            &&& driver_calls.len() == 1
            &&& driver_calls[0] matches Call::EcbCrypt { len, operation, result } && len == 16
                && operation is Encrypt && (result matches Err(error) ==> calls == seq![
                Call::Done { result: Err(error) },
            ])
        },
        gcm_view.launched(driver_calls, calls, gcm_later, mutex, later_mutex) ==> {
            &&& driver_calls.len() == 1
            &&& driver_calls[0] matches Call::EcbCrypt { len, operation, result } && len == 16
                && operation is Encrypt && (result matches Err(error) ==> calls == seq![
                Call::Done { result: Err(error) },
            ])
        },
        ccm_view.launched(driver_calls, calls, ccm_later, mutex, later_mutex) ==> {
            &&& driver_calls.len() == 1
            &&& driver_calls[0] matches Call::EcbCrypt { len, operation, result } && len == 16
                && operation is Encrypt && (result matches Err(error) ==> calls == seq![
                Call::Done { result: Err(error) },
            ])
        },
{
}

} // verus!
