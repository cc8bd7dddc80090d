//! What a driver reaches of the buffers that a process shares.
use crate::error::ErrorCode;
use crate::grant;
use crate::grant::{AccessError, AppView, GrantView, Upcall};
use vstd::prelude::*;

verus! {

/// The process shares `data` for reading, under a number. Its length is one that can be told.
pub open spec fn lends(apps: GrantView, processid: usize, number: int, data: Seq<u8>) -> bool {
    &&& processid < apps.apps.len()
    &&& apps.apps[processid as int].fault is None
    &&& 0 <= number < apps.apps[processid as int].readonly.len()
    &&& apps.apps[processid as int].readonly[number] == Ok::<Seq<u8>, ErrorCode>(data)
    &&& data.len() <= usize::MAX
}

/// The process shares `data` for writing, under a number. Its length is one that can be told.
pub open spec fn offers(apps: GrantView, processid: usize, number: int, data: Seq<u8>) -> bool {
    &&& processid < apps.apps.len()
    &&& apps.apps[processid as int].fault is None
    &&& 0 <= number < apps.apps[processid as int].readwrite.len()
    &&& apps.apps[processid as int].readwrite[number] == Ok::<Seq<u8>, ErrorCode>(data)
    &&& data.len() <= usize::MAX
}

/// A buffer that a process shares is reached whole, with its length, before an operation and during
/// it.
pub proof fn law_shared_buffer_is_reached(
    apps: GrantView,
    processid: usize,
    number: usize,
    data: Seq<u8>,
)
    ensures
        lends(apps, processid, number as int, data) ==> {
            &&& apps.readonly(processid, number) == Ok::<Seq<u8>, AccessError>(data)
            &&& apps.source(processid, number) == Ok::<Seq<u8>, ErrorCode>(data)
            &&& grant::len_of(apps.readonly(processid, number)) is Ok
            &&& grant::len_of(apps.readonly(processid, number))->Ok_0 == data.len()
        },
        offers(apps, processid, number as int, data) ==> {
            &&& apps.readwrite(processid, number) == Ok::<Seq<u8>, AccessError>(data)
            &&& apps.sink(processid, number) == Ok::<Seq<u8>, ErrorCode>(data)
            &&& grant::len_of(apps.readwrite(processid, number)) is Ok
            &&& grant::len_of(apps.readwrite(processid, number))->Ok_0 == data.len()
        },
{
}

/// What a buffer that is not there gives: no such process and no such buffer are `INVAL`, and a grant
/// that cannot be entered or a buffer that cannot be reached gives its own error; in the middle of an
/// operation every error of a buffer is `RESERVE`.
pub proof fn law_missing_buffer(apps: GrantView, processid: usize, number: usize)
    ensures
        processid >= apps.apps.len() ==> {
            &&& grant::len_of(apps.readonly(processid, number)) == Err::<usize, ErrorCode>(
                ErrorCode::INVAL,
            )
            &&& grant::len_of(apps.readwrite(processid, number)) == Err::<usize, ErrorCode>(
                ErrorCode::INVAL,
            )
            &&& apps.source(processid, number) == Err::<Seq<u8>, ErrorCode>(ErrorCode::INVAL)
            &&& apps.sink(processid, number) == Err::<Seq<u8>, ErrorCode>(ErrorCode::INVAL)
        },
        processid < apps.apps.len() ==> {
            let app = apps.apps[processid as int];
            &&& app.fault matches Some(error) ==> {
                &&& grant::len_of(apps.readonly(processid, number)) == Err::<usize, ErrorCode>(
                    error,
                )
                &&& grant::len_of(apps.readwrite(processid, number)) == Err::<usize, ErrorCode>(
                    error,
                )
                &&& apps.source(processid, number) == Err::<Seq<u8>, ErrorCode>(error)
                &&& apps.sink(processid, number) == Err::<Seq<u8>, ErrorCode>(error)
            }
            &&& app.fault is None && number >= app.readonly.len() ==> {
                &&& grant::len_of(apps.readonly(processid, number)) == Err::<usize, ErrorCode>(
                    ErrorCode::INVAL,
                )
                &&& apps.source(processid, number) == Err::<Seq<u8>, ErrorCode>(
                    ErrorCode::RESERVE,
                )
            }
            &&& app.fault is None && number >= app.readwrite.len() ==> {
                &&& grant::len_of(apps.readwrite(processid, number)) == Err::<usize, ErrorCode>(
                    ErrorCode::INVAL,
                )
                &&& apps.sink(processid, number) == Err::<Seq<u8>, ErrorCode>(
                    ErrorCode::RESERVE,
                )
            }
            &&& app.fault is None && number < app.readonly.len() ==> (
            app.readonly[number as int] matches Err(error) ==> {
                &&& grant::len_of(apps.readonly(processid, number)) == Err::<usize, ErrorCode>(
                    error,
                )
                &&& apps.source(processid, number) == Err::<Seq<u8>, ErrorCode>(
                    ErrorCode::RESERVE,
                )
            })
            &&& app.fault is None && number < app.readwrite.len() ==> (
            app.readwrite[number as int] matches Err(error) ==> {
                &&& grant::len_of(apps.readwrite(processid, number)) == Err::<usize, ErrorCode>(
                    error,
                )
                &&& apps.sink(processid, number) == Err::<Seq<u8>, ErrorCode>(
                    ErrorCode::RESERVE,
                )
            })
        },
{
}

/// A piece that is read follows what was read before it, is not empty, is no longer than asked for,
/// and is shorter only where the buffer ends; behind the end there is nothing to be read.
pub proof fn law_piece_follows(data: Seq<u8>, offset: nat, len: nat)
    ensures
        ({
            let piece = grant::part_of(Ok::<Seq<u8>, ErrorCode>(data), offset, len);
            if offset < data.len() && len > 0 {
                &&& piece is Ok
                &&& 0 < piece->Ok_0.len() <= len
                &&& data.take(offset as int) + piece->Ok_0 == data.take(
                    (offset + piece->Ok_0.len()) as int,
                )
                &&& piece->Ok_0.len() < len ==> offset + piece->Ok_0.len() == data.len()
            } else {
                piece == Err::<Seq<u8>, ErrorCode>(ErrorCode::SIZE)
            }
        }),
{
    if offset < data.len() && len > 0 {
        let piece = grant::part_of(Ok::<Seq<u8>, ErrorCode>(data), offset, len)->Ok_0;
        assert(data.take(offset as int) + piece =~= data.take((offset + piece.len()) as int));
    }
}

/// What is copied stands in the destination from `start` on, as much as the count says, and the rest
/// of the destination is as it was; where there is nothing to copy, all of it is, and the error is
/// handed on.
pub proof fn law_copy_stands_in_its_place(
    part: Result<Seq<u8>, ErrorCode>,
    count: Result<usize, ErrorCode>,
    before: Seq<u8>,
    after: Seq<u8>,
    start: int,
)
    requires
        grant::copied(part, count, before, after, start),
        0 <= start,
        part matches Ok(data) ==> start + data.len() <= before.len(),
    ensures
        match part {
            Ok(data) => {
                let end = start + data.len();
                &&& count is Ok
                &&& count->Ok_0 == data.len()
                &&& after.len() == before.len()
                &&& after.subrange(start, end) == data
                &&& after.take(start) == before.take(start)
                &&& after.skip(end) == before.skip(end)
            },
            Err(error) => count == Err::<usize, ErrorCode>(error) && after == before,
        },
{
    if let Ok(data) = part {
        let end = start + data.len();
        assert(after.subrange(start, end) =~= data);
        assert(after.take(start) =~= before.take(start));
        assert(after.skip(end) =~= before.skip(end));
    }
}

/// What is written stands in the buffer from the offset on, and all else is as it was: the rest of
/// the buffer, the other buffers, and what other processes share. Where there is no room nothing is
/// written.
pub proof fn law_write_changes_one_place(
    apps: GrantView,
    processid: usize,
    number: usize,
    before: Seq<u8>,
    offset: nat,
    data: Seq<u8>,
    other: int,
)
    requires
        offers(apps, processid, number as int, before),
        0 <= other < apps.apps.len(),
    ensures
        ({
            let after = apps.written(processid, number, offset, data);
            let app = apps.apps[processid as int];
            let later = after.apps[processid as int];
            let end = offset + data.len();
            &&& after.apps.len() == apps.apps.len()
            &&& other != processid ==> after.apps[other] == apps.apps[other]
            &&& later.fault == app.fault
            &&& later.readonly == app.readonly
            &&& later.upcalls == app.upcalls
            &&& later.readwrite.len() == app.readwrite.len()
            &&& forall|i: int|
                0 <= i < app.readwrite.len() && i != number ==> later.readwrite[i]
                    == app.readwrite[i]
            &&& if end <= before.len() {
                &&& later.readwrite[number as int] is Ok
                &&& later.readwrite[number as int]->Ok_0 == before.take(offset as int) + data
                    + before.skip(end as int)
            } else {
                after == apps
            }
            &&& grant::room_for(Ok::<Seq<u8>, ErrorCode>(before), offset, data.len()) is Ok
                <==> end <= before.len()
        }),
{
    let end = offset + data.len();
    let after = apps.written(processid, number, offset, data);
    let app = apps.apps[processid as int];
    law_shared_buffer_is_reached(apps, processid, number, before);
    if end <= before.len() {
        let written = grant::overwritten(before, offset as int, data);
        assert(written =~= before.take(offset as int) + data + before.skip(end as int));
        assert(after.apps[processid as int] == (AppView {
            readwrite: app.readwrite.update(number as int, Ok(written)),
            ..app
        }));
    }
}

/// An upcall goes to its process, behind those that it has, and to no other process; it touches no
/// buffer.
pub proof fn law_upcall_reaches_its_process(
    apps: GrantView,
    processid: usize,
    upcall: Upcall,
    other: int,
)
    requires
        0 <= other < apps.apps.len(),
    ensures
        ({
            let after = apps.scheduled(processid, upcall);
            let reached = other == processid && apps.apps[other].fault is None;
            &&& after.apps.len() == apps.apps.len()
            &&& after.apps[other].fault == apps.apps[other].fault
            &&& after.apps[other].readonly == apps.apps[other].readonly
            &&& after.apps[other].readwrite == apps.apps[other].readwrite
            &&& after.apps[other].upcalls == apps.apps[other].upcalls + (if reached {
                seq![upcall]
            } else {
                Seq::empty()
            })
        }),
{
    let after = apps.scheduled(processid, upcall);
    if other == processid && apps.apps[other].fault is None {
        assert(after.apps[other].upcalls =~= apps.apps[other].upcalls + seq![upcall]);
    } else {
        assert(apps.apps[other].upcalls + Seq::<Upcall>::empty() =~= apps.apps[other].upcalls);
    }
}

} // verus!
