//! How a mode and its block cipher driver exchange a block.
use crate::error::ErrorCode;
use crate::sw::session;
use crate::sw::session::SessionView;
use vstd::prelude::*;

verus! {

/// A block that is staged is handed to the driver from its first byte on, and room is made for what
/// comes back; the key and the client stay.
pub proof fn law_staged_from_the_start(session: SessionView, block: Seq<u8>)
    ensures
        ({
            let staged = session.staged(block);
            &&& staged.input == block
            &&& staged.input_offset == 0
            &&& staged.output_offset == 0
            &&& staged.output.len() == 16
            &&& staged.key == session.key
            &&& staged.client == session.client
            &&& staged.guard == session.guard
            &&& staged.handle == session.handle
            &&& staged.completion is None
        }),
{
}

/// The driver gets the block in pieces of whatever length it asks for, in order; a piece is shorter
/// than asked for only at the end of the block, and behind that there is none. It gets the key whole.
pub proof fn law_block_is_read_in_order(
    session: SessionView,
    buffer: Seq<u8>,
    count: Result<usize, ErrorCode>,
    later: SessionView,
    later_buffer: Seq<u8>,
)
    requires
        session.wf(),
        session::input_read(session, buffer, count, later, later_buffer),
    ensures
        session.input_offset < 16 && buffer.len() > 0 ==> {
            &&& count matches Ok(count) && {
                &&& 0 < count <= buffer.len()
                &&& later.input_offset == session.input_offset + count
                &&& session.input.take(session.input_offset as int) + later_buffer.take(
                    count as int,
                ) == session.input.take(later.input_offset as int)
                &&& count < buffer.len() ==> later.input_offset == 16
            }
        },
        session.input_offset == 16 || buffer.len() == 0 ==> count is Err && later == session,
        later.input == session.input,
        later.output == session.output,
        session::key_result(buffer) is Ok <==> buffer.len() == session.key.len(),
        buffer.len() == 16 ==> session::key_buffer(session, buffer) == session.key,
        buffer.len() != 16 ==> session::key_buffer(session, buffer) == buffer,
{
    if session.input_offset < 16 && buffer.len() > 0 {
        let n = count->Ok_0 as int;
        let offset = session.input_offset as int;
        assert(later_buffer.take(n) =~= session.input.subrange(offset, offset + n));
        assert(session.input.take(offset) + later_buffer.take(n) =~= session.input.take(
            offset + n,
        ));
    }
}

/// What the driver hands back in pieces is the block that the mode goes on with, in order; more than a
/// block is refused and changes nothing. The exchange is whole once all of both blocks has gone
/// through.
pub proof fn law_block_is_written_in_order(
    session: SessionView,
    output: Seq<u8>,
    result: Result<(), ErrorCode>,
    later: SessionView,
)
    requires
        session.wf(),
        session::output_written(session, output, result, later),
    ensures
        result is Ok <==> session.output_offset + output.len() <= 16,
        result is Ok ==> {
            &&& later.output_offset == session.output_offset + output.len()
            &&& later.output.take(later.output_offset as int) == session.output.take(
                session.output_offset as int,
            ) + output
            &&& later.output.len() == 16
        },
        result is Err ==> result == Err::<(), ErrorCode>(ErrorCode::SIZE) && later == session,
        session.output_offset == 0 && output.len() == 16 ==> later.output == output,
        later.exchanged() <==> session.input_offset == 16 && later.output_offset == 16,
{
    if result is Ok {
        let end = (session.output_offset + output.len()) as int;
        assert(later.output.take(end) =~= session.output.take(session.output_offset as int)
            + output);
        if session.output_offset == 0 && output.len() == 16 {
            assert(later.output =~= output);
        }
    }
}

} // verus!
