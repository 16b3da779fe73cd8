//! What whoever drives a parser can count on.
//!
//! A parser is driven by beginning a record and, while the answer is that input is
//! needed, asking for space, reading into it once and reporting how the read
//! ended. The laws speak of the bytes that the reader wrote and of the records
//! that come out.
use crate::laws;
use crate::laws::{Call, Move};
use crate::model;
use crate::parser::Parser;
use crate::record::Step;
use crate::ring::ReadEvent;
use vstd::prelude::*;

verus! {

/// Beginning a record takes the first line off the input at hand, if there is one:
/// the fields with a comma between each two, a newline byte and what is kept are
/// the input in full. If there is none, all of it is kept and the parser waits for
/// input; it never waits while it has a line.
pub proof fn law_begin_takes_the_first_line<R>(before: Parser<R>, after: Parser<R>, step: Step)
    requires
        Parser::begins(before, after, step),
    ensures
        before.pending().contains(0x0a) ==> {
            &&& step == Step::Record
            &&& !after.is_reading()
            &&& before.pending() == model::join(after.fields()) + seq![0x0au8] + after.pending()
            &&& model::writable(after.fields())
        },
        !before.pending().contains(0x0a) ==> {
            &&& step == Step::Read
            &&& after.is_reading()
            &&& before.pending() == after.pending()
        },
        after.spare() == before.spare(),
        after.chunk_size() == before.chunk_size(),
{
    let text = before.pending();
    laws::law_first_line_ends_at_the_first_newline(text);
    laws::law_fields_keep_the_line(model::line(text));
    laws::law_fields_are_writable(model::line(text));
}

/// A request offers space for a read: at least a chunk is reserved, and what is
/// offered reaches from the end of the data to where the storage wraps, or over
/// all that is reserved. It is empty only where a chunk has no bytes. What the
/// reader leaves alone is as it was, with zeros in a chunk that was added.
pub proof fn law_request_offers_space<R>(before: Parser<R>, written: Seq<u8>, after: Parser<R>)
    requires
        Parser::requests(before, written, after),
    ensures
        before.chunk_size() > 0 ==> written.len() > 0,
        after.spare().len() >= before.chunk_size(),
        after.spare().len() == before.spare().len() || (before.spare().len() < before.chunk_size()
            && after.spare().len() == before.spare().len() + before.chunk_size()),
        written.len() <= after.spare().len(),
        written.len() == after.spare().len() || before.pending().len() + written.len()
            == after.wrap(),
        before.pending().len() < after.wrap() ==> before.pending().len() + written.len()
            == after.wrap(),
        forall|i: int|
            #![trigger after.spare()[i]]
            0 <= i < after.spare().len() ==> after.spare()[i] == if i < written.len() {
                written[i]
            } else if i < before.spare().len() {
                before.spare()[i]
            } else {
                0u8
            },
        after.is_reading(),
        after.pending() == before.pending(),
        after.chunk_size() == before.chunk_size(),
        before.spare().len() >= before.chunk_size() ==> after.wrap() == before.wrap(),
{
}

/// Whether this is how a parser has to stand, and what it has to answer, once all
/// of `text` is at hand and no record has used any of it: a line is handed out as
/// soon as its newline byte is there; without one the parser waits, unless the
/// input has ended, when all that is left is the last record.
pub open spec fn answers<R, E>(
    text: Seq<u8>,
    ended: bool,
    after: Parser<R>,
    answer: Result<Step, E>,
) -> bool {
    if text.contains(0x0a) {
        &&& answer == Ok::<Step, E>(Step::Record)
        &&& !after.is_reading()
        &&& text == model::join(after.fields()) + seq![0x0au8] + after.pending()
        &&& model::writable(after.fields())
    } else if !ended {
        &&& answer == Ok::<Step, E>(Step::Read)
        &&& after.is_reading()
        &&& text == after.pending()
    } else {
        &&& answer == Ok::<Step, E>(
            if text.len() > 0 {
                Step::Record
            } else {
                Step::End
            },
        )
        &&& !after.is_reading()
        &&& text == model::join(after.fields())
        &&& model::writable(after.fields())
        &&& after.pending().len() == 0
    }
}

/// A read moves bytes from the front of the reserved space to the end of the input
/// at hand, as many as it reported and in order; nothing else is moved, and the
/// answer is by the input at hand and whether it has ended.
pub proof fn law_read_moves_bytes<R, E>(
    before: Parser<R>,
    n: usize,
    after: Parser<R>,
    answer: Result<Step, E>,
)
    requires
        n <= before.spare().len(),
        Parser::resumes(before, ReadEvent::Read(n), after, answer),
    ensures
        answers(before.pending() + before.spare().take(n as int), n == 0, after, answer),
        before.spare() == before.spare().take(n as int) + after.spare(),
        after.chunk_size() == before.chunk_size(),
        after.wrap() == before.wrap(),
{
    let text = before.pending() + before.spare().take(n as int);
    laws::law_first_line_ends_at_the_first_newline(text);
    laws::law_fields_keep_the_line(model::line(text));
    laws::law_fields_are_writable(model::line(text));
    laws::law_fields_keep_the_line(text);
    if !text.contains(0x0a) {
        laws::law_fields_are_writable(text);
    }
}

/// What the reader wrote is what is read: after a request, the bytes that `resume`
/// takes in are the first bytes of what was written in the space, each once and in
/// order, behind the input at hand.
pub proof fn law_what_was_written_is_read<R, E>(
    before: Parser<R>,
    written: Seq<u8>,
    asked: Parser<R>,
    n: usize,
    after: Parser<R>,
    answer: Result<Step, E>,
)
    requires
        Parser::requests(before, written, asked),
        n <= written.len(),
        Parser::resumes(asked, ReadEvent::Read(n), after, answer),
    ensures
        answers(before.pending() + written.take(n as int), n == 0, after, answer),
        asked.spare() == written.take(n as int) + after.spare(),
        after.chunk_size() == before.chunk_size(),
        after.wrap() == asked.wrap(),
{
    assert(asked.spare().take(n as int) =~= written.take(n as int));
    law_read_moves_bytes(asked, n, after, answer);
}

/// An answer that input is needed is kept: whoever gets it can ask for space and
/// report a read. No other answer leaves the parser waiting. A read that failed is
/// answered by its error, and one that was interrupted by another try; neither
/// takes anything in or away, and no part of a record is handed out.
pub proof fn law_waiting_is_as_answered<R, E>(
    before: Parser<R>,
    event: ReadEvent<E>,
    after: Parser<R>,
    answer: Result<Step, E>,
)
    requires
        before.is_reading(),
        Parser::resumes(before, event, after, answer),
    ensures
        after.is_reading() <==> answer == Ok::<Step, E>(Step::Read),
        event matches ReadEvent::Failed(e) ==> answer == Err::<Step, E>(e),
        event is Failed ==> {
            &&& after.fields().len() == 0
            &&& after.pending() == before.pending()
            &&& after.spare() == before.spare()
        },
        event is Interrupted ==> answer == Ok::<Step, E>(Step::Read) && after == before,
        answer is Err ==> event is Failed,
        after.chunk_size() == before.chunk_size(),
        after.wrap() == before.wrap(),
{
}

/// Only the size of an allocation stands against reading: there is room wherever
/// a chunk is reserved or one more fits.
pub proof fn law_only_size_limits_reading<R>(parser: Parser<R>)
    ensures
        parser.has_room() <==> parser.spare().len() >= parser.chunk_size()
            || parser.pending().len() + parser.spare().len() + parser.chunk_size() <= isize::MAX,
{
}

/// Whether a call's precondition holds. Before a request, whoever drives has seen
/// that the chunk which it may add fits in an allocation.
pub open spec fn allowed<R, E>(call: Move<R, E>) -> bool {
    &&& call.before.wf()
    &&& match call.call {
        Call::Begin { .. } => true,
        Call::Request { .. } => call.before.is_reading() && call.before.has_room(),
        Call::Resume { event, .. } => {
            &&& call.before.is_reading()
            &&& event matches ReadEvent::Read(n) ==> n <= call.before.spare().len()
        },
    }
}

/// Whether a call did what its contract says, which it has to only where its
/// precondition holds.
pub open spec fn meets_its_contract<R, E>(call: Move<R, E>) -> bool {
    allowed(call) ==> {
        &&& call.after.wf()
        &&& match call.call {
            Call::Begin { step } => Parser::begins(call.before, call.after, step),
            Call::Request { written } => Parser::requests(call.before, written, call.after),
            Call::Resume { event, answer } => Parser::resumes(
                call.before,
                event,
                call.after,
                answer,
            ),
        }
    }
}

/// Whether `next` is the call that comes after `call`, going by the answer alone:
/// where input is needed, a request; after that, a report of a read of no more
/// bytes than the space that was offered; else the next record is begun.
pub open spec fn comes_after<R, E>(next: Move<R, E>, call: Move<R, E>) -> bool {
    match call.call {
        Call::Begin { step } => if step == Step::Read {
            next.call is Request
        } else {
            next.call is Begin
        },
        Call::Request { written } => {
            &&& next.call matches Call::Resume { event, .. }
            &&& event matches ReadEvent::Read(n) ==> n <= written.len()
        },
        Call::Resume { answer, .. } => if answer == Ok::<Step, E>(Step::Read) {
            next.call is Request
        } else {
            next.call is Begin
        },
    }
}

/// All bytes that were read, as the reader wrote them: of each space that was
/// offered, the first bytes, as many as the read reported.
pub open spec fn bytes_read<R, E>(run: Seq<Move<R, E>>) -> Seq<u8>
    decreases run.len(),
{
    if run.len() == 0 {
        Seq::empty()
    } else {
        let later = bytes_read(run.skip(1));
        if run.len() > 1 {
            match (run[0].call, run[1].call) {
                (
                    Call::Request { written },
                    Call::Resume { event: ReadEvent::Read(n), .. },
                ) => written.take(n as int) + later,
                _ => later,
            }
        } else {
            later
        }
    }
}

/// Whether a parser was driven by these calls, with `following` still unread: each
/// call finds the parser as the one before left it, comes after it by the answer
/// alone and meets its contract; before a request a further chunk fits in an
/// allocation; and after a read of nothing, the end of the input, nothing is read.
pub open spec fn is_driven<R, E>(run: Seq<Move<R, E>>, following: Seq<u8>) -> bool
    decreases run.len(),
{
    run.len() > 0 ==> {
        &&& meets_its_contract(run[0])
        &&& run[0].call is Request ==> run[0].before.pending().len() + run[0].before.spare().len()
            + run[0].before.chunk_size() <= isize::MAX
        &&& run.len() > 1 ==> run[1].before == run[0].after && comes_after(run[1], run[0])
        &&& run[0].at_end() ==> bytes_read(run.skip(1)).len() == 0 && following.len() == 0
        &&& is_driven(run.skip(1), following)
    }
}

/// Driving a parser is always allowed: from any valid parser on, going by the
/// answers alone, every call's precondition holds.
pub proof fn law_driving_is_allowed<R, E>(run: Seq<Move<R, E>>, following: Seq<u8>, index: int)
    requires
        is_driven(run, following),
        0 <= index < run.len(),
        run[0].call is Begin,
        run[0].before.wf(),
    ensures
        allowed(run[index]),
        run[index].after.wf(),
{
    lemma_driven(run, following);
}

/// Over any driven run, from any valid parser on, no byte of what the reader wrote
/// is lost, changed or used twice: the records handed out, and those of what is
/// kept and still unread, are the records of the input at hand at first, all bytes
/// read and those unread.
pub proof fn law_driving_keeps_the_records<R, E>(run: Seq<Move<R, E>>, following: Seq<u8>)
    requires
        run.len() > 0,
        is_driven(run, following),
        run[0].call is Begin,
        run[0].before.wf(),
    ensures
        model::records(run[0].before.pending() + bytes_read(run) + following)
            == laws::run_output(run) + model::records(run.last().after.pending() + following),
{
    lemma_driven(run, following);
    laws::law_run_keeps_the_records(run, following);
    assert(laws::run_input(run) =~= bytes_read(run));
}

/// Between records there is always room, for chunks of any ordinary size: from a
/// fresh parser on, however long it has been driven, another chunk fits in an
/// allocation after each finished record.
pub proof fn law_there_is_room_between_records<R, E>(
    run: Seq<Move<R, E>>,
    following: Seq<u8>,
    index: int,
)
    requires
        is_driven(run, following),
        0 <= index < run.len(),
        run[index].finished(),
        run[0].call is Begin,
        run[0].before.wf(),
        !run[0].before.is_reading(),
        run[0].before.pending().len() == 0,
        run[0].before.spare().len() == 0,
        0 < run[0].before.chunk_size(),
        5 * run[0].before.chunk_size() <= isize::MAX,
    ensures
        run[index].after.pending().len() + run[index].after.spare().len()
            + run[index].after.chunk_size() <= isize::MAX,
        run[index].after.has_room(),
{
    lemma_driven(run, following);
    laws::law_buffer_stays_small(run, following);
    law_only_size_limits_reading(run[index].after);
}

/// A parser that is driven until a read of nothing, the end of the input, has
/// handed out exactly the records of the bytes that were read.
pub proof fn law_driving_reads_the_text<R, E>(run: Seq<Move<R, E>>)
    requires
        run.len() > 0,
        is_driven(run, Seq::empty()),
        run[0].call is Begin,
        run[0].before.wf(),
        run[0].before.pending().len() == 0,
        run.last().at_end(),
    ensures
        laws::run_output(run) == model::records(bytes_read(run)),
        run.last().after.pending().len() == 0,
{
    let none = Seq::<u8>::empty();
    let last = run[run.len() - 1];
    lemma_driven(run, none);
    law_driving_keeps_the_records(run, none);
    assert(allowed(last) && meets_its_contract(last));
    last.before.lemma_reading();
    assert(last.before.pending() + last.before.spare().take(0) =~= last.before.pending());
    assert(run[0].before.pending() + bytes_read(run) + none =~= bytes_read(run));
    assert(last.after.pending() + none =~= none);
    assert(model::records(none) =~= Seq::empty());
    assert(laws::run_output(run) + Seq::empty() =~= laws::run_output(run));
}

/// Only the bytes count: two parsers that are driven to the end of the input, of
/// whatever chunk sizes and however the reads were cut, interrupted or failed,
/// hand out the same records of the same bytes.
pub proof fn law_only_the_bytes_count<R, E>(run: Seq<Move<R, E>>, other: Seq<Move<R, E>>)
    requires
        run.len() > 0,
        is_driven(run, Seq::empty()),
        run[0].call is Begin,
        run[0].before.wf(),
        run[0].before.pending().len() == 0,
        run.last().at_end(),
        other.len() > 0,
        is_driven(other, Seq::empty()),
        other[0].call is Begin,
        other[0].before.wf(),
        other[0].before.pending().len() == 0,
        other.last().at_end(),
        bytes_read(run) == bytes_read(other),
    ensures
        laws::run_output(run) == laws::run_output(other),
{
    law_driving_reads_the_text(run);
    law_driving_reads_the_text(other);
}

/// The end is told only where nothing is left, and where the input has ended.
pub proof fn law_the_end_is_the_end<R, E>(
    before: Parser<R>,
    event: ReadEvent<E>,
    after: Parser<R>,
    answer: Result<Step, E>,
)
    requires
        Parser::resumes(before, event, after, answer),
        before.is_reading(),
        !before.pending().contains(0x0a),
    ensures
        answer == Ok::<Step, E>(Step::End) <==> (event matches ReadEvent::Read(n) && n == 0
            && before.pending().len() == 0),
        answer == Ok::<Step, E>(Step::End) ==> after.pending().len() == 0,
{
    laws::law_first_line_ends_at_the_first_newline(before.pending());
    if let ReadEvent::Read(n) = event {
        if n == 0 {
            assert(before.pending() + before.spare().take(0) =~= before.pending());
        }
    }
}

/// A driven run is allowed throughout and takes in what was written.
proof fn lemma_driven<R, E>(run: Seq<Move<R, E>>, following: Seq<u8>)
    requires
        is_driven(run, following),
        run.len() > 0 ==> allowed(run[0]),
    ensures
        forall|i: int|
            #![trigger run[i]]
            0 <= i < run.len() ==> allowed(run[i]) && run[i].after.wf() && meets_its_contract(run[i]),
        laws::is_run(run, following),
        laws::run_input(run) == if run.len() > 0 && run[0].call is Resume {
            run[0].input() + bytes_read(run)
        } else {
            bytes_read(run)
        },
    decreases run.len(),
{
    if run.len() > 0 {
        let first = run[0];
        let tail = run.skip(1);
        assert(first.valid());
        assert(is_driven(tail, following));
        if tail.len() > 0 {
            let second = tail[0];
            assert(second == run[1]);
            assert(comes_after(second, first));
            match first.call {
                Call::Begin { step } => {
                    law_begin_takes_the_first_line(first.before, first.after, step);
                    law_only_size_limits_reading(second.before);
                },
                Call::Request { written } => {
                    law_request_offers_space(first.before, written, first.after);
                    if let Call::Resume { event: ReadEvent::Read(n), .. } = second.call {
                        assert(second.input() =~= written.take(n as int));
                    }
                },
                Call::Resume { event, answer } => {
                    law_waiting_is_as_answered(first.before, event, first.after, answer);
                    law_only_size_limits_reading(second.before);
                },
            }
            assert(allowed(second));
        }
        lemma_driven(tail, following);
        assert forall|i: int| #![trigger run[i]] 0 <= i < run.len() implies allowed(run[i])
            && run[i].after.wf() && meets_its_contract(run[i]) by {
            if i > 0 {
                assert(tail[i - 1] == run[i]);
            }
        }
        assert(laws::run_input(run) =~= first.input() + laws::run_input(tail));
    }
}

} // verus!
