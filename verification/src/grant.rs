//! What the kernel holds for processes on behalf of a driver: the buffers that they share, and the
//! upcalls that they are to receive.
use crate::error::ErrorCode;
use crate::sw::bytes;
use vstd::prelude::*;

verus! {

/// A notification for a process.
#[derive(Clone, Copy, Debug, PartialEq, Eq)]
pub struct Upcall {
    /// Which of the driver's upcalls.
    pub number: usize,
    /// How the operation ended.
    pub status: Result<(), ErrorCode>,
    pub arg1: usize,
    pub arg2: usize,
}

/// What a process shares with a driver. A buffer that cannot be reached stands as the error that
/// reaching for it gives.
pub struct App {
    /// What entering the grant of the process fails with, if it does.
    pub fault: Option<ErrorCode>,
    /// Buffers that the driver may read.
    pub readonly: Vec<Result<Vec<u8>, ErrorCode>>,
    /// Buffers that the driver may write.
    pub readwrite: Vec<Result<Vec<u8>, ErrorCode>>,
    /// Upcalls scheduled, oldest first.
    pub upcalls: Vec<Upcall>,
}

/// What a process shares, by contents.
#[verifier::ext_equal]
pub struct AppView {
    pub fault: Option<ErrorCode>,
    pub readonly: Seq<Result<Seq<u8>, ErrorCode>>,
    pub readwrite: Seq<Result<Seq<u8>, ErrorCode>>,
    pub upcalls: Seq<Upcall>,
}

/// The contents of a buffer.
pub open spec fn buffer_view(buffer: Result<Vec<u8>, ErrorCode>) -> Result<Seq<u8>, ErrorCode> {
    match buffer {
        Ok(data) => Ok(data@),
        Err(error) => Err(error),
    }
}

impl View for App {
    type V = AppView;

    open spec fn view(&self) -> AppView {
        AppView {
            fault: self.fault,
            readonly: self.readonly@.map_values(
                |buffer: Result<Vec<u8>, ErrorCode>| buffer_view(buffer),
            ),
            readwrite: self.readwrite@.map_values(
                |buffer: Result<Vec<u8>, ErrorCode>| buffer_view(buffer),
            ),
            upcalls: self.upcalls@,
        }
    }
}

/// Why a buffer cannot be used.
#[derive(Clone, Copy, Debug, PartialEq, Eq, Structural)]
pub enum AccessError {
    /// The grant of the process cannot be entered.
    Grant(ErrorCode),
    /// The buffer cannot be reached.
    Buffer(ErrorCode),
}

/// The grants of a driver, one for each process.
pub struct Grant {
    pub apps: Vec<App>,
}

/// The grants of a driver, by contents.
#[verifier::ext_equal]
pub struct GrantView {
    pub apps: Seq<AppView>,
}

impl View for Grant {
    type V = GrantView;

    open spec fn view(&self) -> GrantView {
        GrantView { apps: self.apps@.map_values(|app: App| app@) }
    }
}

impl GrantView {
    /// Whether the grant of a process can be entered. There is no such process: `INVAL`.
    pub open spec fn entry(self, processid: usize) -> Result<(), ErrorCode> {
        if processid >= self.apps.len() {
            Err(ErrorCode::INVAL)
        } else {
            match self.apps[processid as int].fault {
                Some(error) => Err(error),
                None => Ok(()),
            }
        }
    }

    /// The contents of a buffer that a process lets the driver read.
    pub open spec fn readonly(self, processid: usize, number: usize) -> Result<
        Seq<u8>,
        AccessError,
    > {
        match self.entry(processid) {
            Err(error) => Err(AccessError::Grant(error)),
            Ok(_) => buffer_at(self.apps[processid as int].readonly, number),
        }
    }

    /// The contents of a buffer that a process lets the driver write.
    pub open spec fn readwrite(self, processid: usize, number: usize) -> Result<
        Seq<u8>,
        AccessError,
    > {
        match self.entry(processid) {
            Err(error) => Err(AccessError::Grant(error)),
            Ok(_) => buffer_at(self.apps[processid as int].readwrite, number),
        }
    }

    /// A buffer to be read; `RESERVE` if the process is there but the buffer is not.
    pub open spec fn source(self, processid: usize, number: usize) -> Result<Seq<u8>, ErrorCode> {
        reserved(self.readonly(processid, number))
    }

    /// A buffer to be written; `RESERVE` if the process is there but the buffer is not.
    pub open spec fn sink(self, processid: usize, number: usize) -> Result<Seq<u8>, ErrorCode> {
        reserved(self.readwrite(processid, number))
    }

    /// The grants after a buffer was written to from `offset` on, where it has room.
    pub open spec fn written(
        self,
        processid: usize,
        number: usize,
        offset: nat,
        data: Seq<u8>,
    ) -> GrantView {
        if room_for(self.sink(processid, number), offset, data.len()) is Ok {
            self.with_readwrite(
                processid,
                number,
                overwritten(self.sink(processid, number)->Ok_0, offset as int, data),
            )
        } else {
            self
        }
    }

    /// The grants after a buffer was given new contents.
    pub open spec fn with_readwrite(
        self,
        processid: usize,
        number: usize,
        data: Seq<u8>,
    ) -> GrantView {
        let app = self.apps[processid as int];
        GrantView {
            apps: self.apps.update(
                processid as int,
                AppView { readwrite: app.readwrite.update(number as int, Ok(data)), ..app },
            ),
        }
    }

    /// The grants after an upcall was scheduled; a grant that cannot be entered takes none.
    pub open spec fn scheduled(self, processid: usize, upcall: Upcall) -> GrantView {
        if self.entry(processid) is Err {
            self
        } else {
            let app = self.apps[processid as int];
            GrantView {
                apps: self.apps.update(
                    processid as int,
                    AppView { upcalls: app.upcalls.push(upcall), ..app },
                ),
            }
        }
    }
}

/// A buffer, or the error that a driver in the middle of an operation meets.
pub open spec fn reserved(buffer: Result<Seq<u8>, AccessError>) -> Result<Seq<u8>, ErrorCode> {
    match buffer {
        Ok(data) => Ok(data),
        Err(AccessError::Grant(error)) => Err(error),
        Err(AccessError::Buffer(_)) => Err(ErrorCode::RESERVE),
    }
}

/// At most `len` bytes of a buffer from `offset` on; at least one, else `SIZE`.
pub open spec fn part_of(buffer: Result<Seq<u8>, ErrorCode>, offset: nat, len: nat) -> Result<
    Seq<u8>,
    ErrorCode,
> {
    match buffer {
        Ok(data) => if offset >= data.len() || len == 0 {
            Err(ErrorCode::SIZE)
        } else {
            Ok(
                data.subrange(
                    offset as int,
                    (offset + bytes::least(len, (data.len() - offset) as nat)) as int,
                ),
            )
        },
        Err(error) => Err(error),
    }
}

/// Whether a buffer has room for `len` bytes from `offset` on, else `SIZE`.
pub open spec fn room_for(buffer: Result<Seq<u8>, ErrorCode>, offset: nat, len: nat) -> Result<
    (),
    ErrorCode,
> {
    match buffer {
        Ok(data) => if offset + len <= data.len() {
            Ok(())
        } else {
            Err(ErrorCode::SIZE)
        },
        Err(error) => Err(error),
    }
}

/// The length of a buffer, or why it cannot be had.
pub open spec fn len_of(buffer: Result<Seq<u8>, AccessError>) -> Result<usize, ErrorCode> {
    match buffer {
        Ok(data) => Ok(data.len() as usize),
        Err(AccessError::Grant(error)) => Err(error),
        Err(AccessError::Buffer(error)) => Err(error),
    }
}

/// Two results are the same.
pub open spec fn same_result(a: Result<(), ErrorCode>, b: Result<(), ErrorCode>) -> bool {
    match (a, b) {
        (Ok(_), Ok(_)) => true,
        (Err(a), Err(b)) => a == b,
        _ => false,
    }
}

/// A buffer of a process, by number. There is no such buffer: `INVAL`.
pub open spec fn buffer_at(buffers: Seq<Result<Seq<u8>, ErrorCode>>, number: usize) -> Result<
    Seq<u8>,
    AccessError,
> {
    if number >= buffers.len() {
        Err(AccessError::Buffer(ErrorCode::INVAL))
    } else {
        match buffers[number as int] {
            Ok(data) => Ok(data),
            Err(error) => Err(AccessError::Buffer(error)),
        }
    }
}

impl Grant {
    /// Whether the grant of a process can be entered.
    pub fn enter(&self, processid: usize) -> (result: Result<(), ErrorCode>)
        ensures
            result == self@.entry(processid),
    {
        if processid >= self.apps.len() {
            return Err(ErrorCode::INVAL);
        }
        match self.apps[processid].fault {
            Some(error) => Err(error),
            None => Ok(()),
        }
    }

    /// A buffer that a process lets the driver read.
    pub fn get_readonly_processbuffer(&self, processid: usize, number: usize) -> (buffer: Result<
        &Vec<u8>,
        AccessError,
    >)
        ensures
            match buffer {
                Ok(data) => self@.readonly(processid, number) == Ok::<Seq<u8>, AccessError>(data@),
                Err(error) => self@.readonly(processid, number) == Err::<Seq<u8>, AccessError>(
                    error,
                ),
            },
    {
        if let Err(error) = self.enter(processid) {
            return Err(AccessError::Grant(error));
        }
        let app = &self.apps[processid];
        assert(self@.apps[processid as int] == app@);
        if number >= app.readonly.len() {
            return Err(AccessError::Buffer(ErrorCode::INVAL));
        }
        assert(app@.readonly[number as int] == buffer_view(app.readonly@[number as int]));
        match &app.readonly[number] {
            Ok(data) => Ok(data),
            Err(error) => Err(AccessError::Buffer(*error)),
        }
    }

    /// A buffer that a process lets the driver write.
    pub fn get_readwrite_processbuffer(&self, processid: usize, number: usize) -> (buffer: Result<
        &Vec<u8>,
        AccessError,
    >)
        ensures
            match buffer {
                Ok(data) => self@.readwrite(processid, number) == Ok::<Seq<u8>, AccessError>(
                    data@,
                ),
                Err(error) => self@.readwrite(processid, number) == Err::<Seq<u8>, AccessError>(
                    error,
                ),
            },
    {
        if let Err(error) = self.enter(processid) {
            return Err(AccessError::Grant(error));
        }
        let app = &self.apps[processid];
        assert(self@.apps[processid as int] == app@);
        if number >= app.readwrite.len() {
            return Err(AccessError::Buffer(ErrorCode::INVAL));
        }
        assert(app@.readwrite[number as int] == buffer_view(app.readwrite@[number as int]));
        match &app.readwrite[number] {
            Ok(data) => Ok(data),
            Err(error) => Err(AccessError::Buffer(*error)),
        }
    }

    /// The length of a buffer that a process lets the driver write.
    pub fn readwrite_len(&self, processid: usize, number: usize) -> (len: Result<
        usize,
        AccessError,
    >)
        ensures
            match self@.readwrite(processid, number) {
                Ok(data) => len is Ok && len->Ok_0 == data.len(),
                Err(error) => len == Err::<usize, AccessError>(error),
            },
    {
        match self.get_readwrite_processbuffer(processid, number) {
            Ok(data) => Ok(data.len()),
            Err(error) => Err(error),
        }
    }

    /// Writes to a buffer that has room from `offset` on.
    pub fn write(&mut self, processid: usize, number: usize, offset: usize, source: &[u8])
        requires
            old(self)@.readwrite(processid, number) is Ok,
            offset + source@.len() <= old(self)@.readwrite(processid, number)->Ok_0.len(),
        ensures
            final(self)@ == old(self)@.with_readwrite(
                processid,
                number,
                overwritten(old(self)@.readwrite(processid, number)->Ok_0, offset as int, source@),
            ),
    {
        let ghost before = self@;
        assert(before.apps[processid as int] == self.apps@[processid as int]@);
        let ghost app = self.apps@[processid as int];
        assert(app@.readwrite[number as int] == buffer_view(app.readwrite@[number as int]));
        let ghost old_apps = self.apps@;
        let mut buffer: Result<Vec<u8>, ErrorCode> = Err(ErrorCode::FAIL);
        std::mem::swap(&mut buffer, &mut self.apps[processid].readwrite[number]);
        match buffer {
            Ok(data) => {
                let ghost given = data@;
                let mut data = data;
                bytes::copy_into(data.as_mut_slice(), offset, source);
                assert(data@ =~= overwritten(given, offset as int, source@));
                self.apps[processid].readwrite[number] = Ok(data);
            },
            Err(_) => {},
        }
        proof {
            let data = overwritten(
                before.readwrite(processid, number)->Ok_0,
                offset as int,
                source@,
            );
            let later = before.with_readwrite(processid, number, data);
            assert(self.apps@[processid as int]@.readwrite
                =~= app@.readwrite.update(number as int, Ok(data)));
            assert(self.apps@[processid as int]@.readonly =~= app@.readonly);
            assert(self@.apps =~= later.apps);
        }
    }

    /// The length of a buffer that the driver may read.
    pub fn readonly_buffer_len(&self, processid: usize, number: usize) -> (len: Result<
        usize,
        ErrorCode,
    >)
        ensures
            len == len_of(self@.readonly(processid, number)),
            len matches Ok(len) ==> self@.readonly(processid, number) is Ok && self@.readonly(
                processid,
                number,
            )->Ok_0.len() == len,
    {
        match self.get_readonly_processbuffer(processid, number) {
            Ok(buffer) => Ok(buffer.len()),
            Err(AccessError::Grant(error)) => Err(error),
            Err(AccessError::Buffer(error)) => Err(error),
        }
    }

    /// The length of a buffer that the driver may write.
    pub fn readwrite_buffer_len(&self, processid: usize, number: usize) -> (len: Result<
        usize,
        ErrorCode,
    >)
        ensures
            len == len_of(self@.readwrite(processid, number)),
            len matches Ok(len) ==> self@.readwrite(processid, number) is Ok && self@.readwrite(
                processid,
                number,
            )->Ok_0.len() == len,
    {
        match self.get_readwrite_processbuffer(processid, number) {
            Ok(buffer) => Ok(buffer.len()),
            Err(AccessError::Grant(error)) => Err(error),
            Err(AccessError::Buffer(error)) => Err(error),
        }
    }

    /// Reads a buffer from `offset` on to the part of `destination` from `start` to `end`.
    pub fn read_at(
        &self,
        processid: usize,
        number: usize,
        offset: usize,
        destination: &mut [u8],
        start: usize,
        end: usize,
    ) -> (count: Result<usize, ErrorCode>)
        requires
            start <= end <= old(destination)@.len(),
        ensures
            copied(
                part_of(
                    self@.source(processid, number),
                    offset as nat,
                    (end - start) as nat,
                ),
                count,
                old(destination)@,
                final(destination)@,
                start as int,
            ),
            count matches Ok(count) ==> 0 < count <= end - start && offset + count <= usize::MAX,
    {
        match self.get_readonly_processbuffer(processid, number) {
            Ok(source) => copy_part(source.as_slice(), offset, destination, start, end),
            Err(AccessError::Grant(error)) => Err(error),
            Err(AccessError::Buffer(_)) => Err(ErrorCode::RESERVE),
        }
    }

    /// Reads back a buffer that the driver may write, as [`Grant::read_at`] does.
    pub fn read_back_at(
        &self,
        processid: usize,
        number: usize,
        offset: usize,
        destination: &mut [u8],
        start: usize,
        end: usize,
    ) -> (count: Result<usize, ErrorCode>)
        requires
            start <= end <= old(destination)@.len(),
        ensures
            copied(
                part_of(self@.sink(processid, number), offset as nat, (end - start) as nat),
                count,
                old(destination)@,
                final(destination)@,
                start as int,
            ),
            count matches Ok(count) ==> 0 < count <= end - start && offset + count <= usize::MAX,
    {
        match self.get_readwrite_processbuffer(processid, number) {
            Ok(source) => copy_part(source.as_slice(), offset, destination, start, end),
            Err(AccessError::Grant(error)) => Err(error),
            Err(AccessError::Buffer(_)) => Err(ErrorCode::RESERVE),
        }
    }

    /// Writes to a buffer from `offset` on, if it has room.
    pub fn write_at(&mut self, processid: usize, number: usize, offset: usize, source: &[u8]) -> (
    result: Result<(), ErrorCode>)
        ensures
            same_result(
                result,
                room_for(old(self)@.sink(processid, number), offset as nat, source@.len()),
            ),
            final(self)@ == old(self)@.written(processid, number, offset as nat, source@),
            result is Ok ==> offset + source@.len() <= usize::MAX,
    {
        match self.readwrite_len(processid, number) {
            Ok(len) => {
                let added: usize = source.len();
                if added > len || offset > len - added {
                    return Err(ErrorCode::SIZE);
                }
                self.write(processid, number, offset, source);
                Ok(())
            },
            Err(AccessError::Grant(error)) => Err(error),
            Err(AccessError::Buffer(_)) => Err(ErrorCode::RESERVE),
        }
    }

    /// Schedules an upcall, if the grant can be entered.
    pub fn schedule_upcall(&mut self, processid: usize, upcall: Upcall)
        ensures
            final(self)@ == old(self)@.scheduled(processid, upcall),
    {
        let ghost before = self@;
        if self.enter(processid).is_err() {
            return ;
        }
        let ghost app = self.apps@[processid as int];
        self.apps[processid].upcalls.push(upcall);
        proof {
            assert(before.apps[processid as int] == app@);
            assert(self.apps@[processid as int]@ =~= (AppView {
                upcalls: app@.upcalls.push(upcall),
                ..app@
            }));
            assert(self@.apps =~= before.scheduled(processid, upcall).apps);
        }
    }
}

/// What a copy of a part of a buffer does: the part is in `after` from `start` on, and its length is
/// the count; or nothing is copied, and the error is handed on.
pub open spec fn copied(
    part: Result<Seq<u8>, ErrorCode>,
    count: Result<usize, ErrorCode>,
    before: Seq<u8>,
    after: Seq<u8>,
    start: int,
) -> bool {
    match part {
        Ok(data) => {
            &&& count is Ok
            &&& count->Ok_0 == data.len()
            &&& after == overwritten(before, start, data)
        },
        Err(error) => count == Err::<usize, ErrorCode>(error) && after == before,
    }
}

fn copy_part(
    source: &[u8],
    offset: usize,
    destination: &mut [u8],
    start: usize,
    end: usize,
) -> (count: Result<usize, ErrorCode>)
    requires
        start <= end <= old(destination)@.len(),
    ensures
        copied(
            part_of(Ok(source@), offset as nat, (end - start) as nat),
            count,
            old(destination)@,
            final(destination)@,
            start as int,
        ),
        count matches Ok(count) ==> 0 < count <= end - start && offset + count <= usize::MAX,
{
    let ghost given = destination@;
    let available: usize = source.len();
    if offset >= available || start == end {
        return Err(ErrorCode::SIZE);
    }
    let read_len: usize = if end - start < available - offset {
        end - start
    } else {
        available - offset
    };
    let part: &[u8] = vstd::slice::slice_subrange(source, offset, offset + read_len);
    bytes::copy_into(destination, start, part);
    assert(destination@ =~= overwritten(given, start as int, part@));
    Ok(read_len)
}

/// A buffer after `source` was written to it from `offset` on.
pub open spec fn overwritten(data: Seq<u8>, offset: int, source: Seq<u8>) -> Seq<u8> {
    data.take(offset) + source + data.skip((offset + source.len()) as int)
}

/// One write behind the other.
pub proof fn lemma_overwritten_twice(data: Seq<u8>, first: Seq<u8>, second: Seq<u8>)
    requires
        first.len() + second.len() <= data.len(),
    ensures
        overwritten(
            overwritten(data, 0, first),
            first.len() as int,
            second,
        ) == overwritten(data, 0, first + second),
{
    assert(overwritten(overwritten(data, 0, first), first.len() as int, second)
        =~= overwritten(data, 0, first + second));
}

/// What was written to a buffer of a process is read back; its other buffers, and those of other
/// processes, stay as they are.
pub proof fn law_write_stays_in_its_buffer(
    grant: GrantView,
    processid: usize,
    number: usize,
    data: Seq<u8>,
    other: usize,
    other_number: usize,
)
    requires
        grant.readwrite(processid, number) is Ok,
    ensures
        ({
            let after = grant.with_readwrite(processid, number, data);
            &&& after.readwrite(processid, number) == Ok::<Seq<u8>, AccessError>(data)
            &&& (other != processid || other_number != number) ==> after.readwrite(
                other,
                other_number,
            ) == grant.readwrite(other, other_number)
            &&& after.readonly(other, other_number) == grant.readonly(other, other_number)
        }),
{
}

} // verus!
