//! The chunk scanner: one pass over a chunk of bytes that resolves every
//! complete digit run and holds back a run that the chunk's end cuts short.

use crate::digits::{
    all_digits, class_of_width, classify, decimal_value, is_ascii_digit, is_digit, RunClass,
};
use crate::model::{
    has_timestamp, is_maximal_run, lemma_rewrite_concat, lemma_rewrite_run,
    lemma_rewrite_without_timestamp, lemma_trailing_digits, lemma_trailing_digits_is, resolve_run,
    rewrite, trailing_digits,
};
use crate::timestamp::{
    format_timestamp, lemma_decimal_value_bound, parse_digits, pow10, timestamp_text,
};
use vstd::prelude::*;

verus! {

/// What one call of the scanner hands back.
#[derive(Debug)]
pub struct ReplacementResult {
    /// The rewritten bytes, without the run that was held back.
    pub data: Vec<u8>,
    /// How many bytes at the end of the chunk were held back.
    pub left_over_data: u64,
}

/// How many bytes at the end of `input` the scanner holds back: none at the
/// end of the stream, the trailing digit run otherwise.
pub open spec fn scan_leftover(input: Seq<u8>, end_of_input: bool) -> nat {
    if end_of_input {
        0
    } else {
        trailing_digits(input)
    }
}

/// The bytes that the scanner gives out for `input`: the rewriting of all of
/// it but the bytes held back.
pub open spec fn scan_output(input: Seq<u8>, end_of_input: bool) -> Seq<u8> {
    rewrite(input.take(input.len() - scan_leftover(input, end_of_input)))
}

/// The bytes at the end of `input` that the scanner holds back.
pub open spec fn held_back(input: Seq<u8>, end_of_input: bool) -> Seq<u8> {
    input.skip(input.len() - scan_leftover(input, end_of_input))
}

/// Appends `input` to `output`.
pub fn append_bytes(input: &[u8], output: &mut Vec<u8>)
    ensures
        final(output)@ == old(output)@ + input@,
{
    let mut index: usize = 0;
    while index < input.len()
        invariant
            index <= input@.len(),
            output@ == old(output)@ + input@.take(index as int),
        decreases input@.len() - index,
    {
        output.push(input[index]);
        index += 1;
        assert(input@.take(index as int) == input@.take(index - 1).push(input@[index - 1]));
    }
    assert(input@.take(index as int) == input@);
}

/// Appends the date-time text of the timestamp whose digits are in
/// `integer_accumulator` to `append_buffer`, and empties the accumulator.
pub fn append_epoch_timestamp(integer_accumulator: &mut Vec<u8>, append_buffer: &mut Vec<u8>)
    requires
        all_digits(old(integer_accumulator)@),
        class_of_width(old(integer_accumulator)@.len()) != RunClass::NotATimestamp,
    ensures
        final(integer_accumulator)@.len() == 0,
        final(append_buffer)@ == old(append_buffer)@ + timestamp_text(
            decimal_value(old(integer_accumulator)@) as int,
            class_of_width(old(integer_accumulator)@.len()),
        ),
{
    let class = classify(integer_accumulator.len());
    proof {
        lemma_decimal_value_bound(integer_accumulator@);
        reveal_with_fuel(pow10, 14);
    }
    let timestamp = parse_digits(integer_accumulator.as_slice());
    let text = format_timestamp(timestamp, class);
    append_bytes(text.as_slice(), append_buffer);
    integer_accumulator.clear();
}

/// Resolves the digit run in `integer_accumulator`: appends its date-time
/// text to `append_buffer` when it is a timestamp, its digits otherwise, and
/// empties the accumulator.
pub fn resolve_accumulator(integer_accumulator: &mut Vec<u8>, append_buffer: &mut Vec<u8>)
    requires
        all_digits(old(integer_accumulator)@),
    ensures
        final(integer_accumulator)@.len() == 0,
        final(append_buffer)@ == old(append_buffer)@ + resolve_run(old(integer_accumulator)@),
{
    match classify(integer_accumulator.len()) {
        RunClass::NotATimestamp => {
            append_bytes(integer_accumulator.as_slice(), append_buffer);
            integer_accumulator.clear();
        },
        _ => {
            append_epoch_timestamp(integer_accumulator, append_buffer);
        },
    }
}

/// Scans the first `input_length` bytes of `input`.
///
/// Every digit run that a byte other than a digit ends is resolved: replaced
/// by its date-time text when it is ten or thirteen digits wide, copied
/// otherwise. All other bytes are copied. A digit run that reaches the end of
/// the scanned bytes is resolved too when `end_of_input` is set; otherwise it
/// is left out of the output and its length is returned.
pub fn replace_epoch_timestamps_in_buffer(
    input: &[u8],
    input_length: usize,
    end_of_input: bool,
) -> (result: ReplacementResult)
    requires
        input_length <= input@.len(),
    ensures
        result.data@ == scan_output(input@.take(input_length as int), end_of_input),
        result.left_over_data == scan_leftover(input@.take(input_length as int), end_of_input),
{
    let ghost scanned = input@.take(input_length as int);
    let mut replaced: Vec<u8> = Vec::new();
    let mut integer_accumulator: Vec<u8> = Vec::new();
    let mut index: usize = 0;
    while index < input_length
        invariant
            index <= input_length <= input@.len(),
            scanned == input@.take(input_length as int),
            integer_accumulator@.len() <= index,
            all_digits(integer_accumulator@),
            integer_accumulator@ == scanned.subrange(
                index - integer_accumulator@.len(),
                index as int,
            ),
            index > integer_accumulator@.len() ==> !is_digit(
                scanned[index - integer_accumulator@.len() - 1],
            ),
            replaced@ == rewrite(scanned.take(index - integer_accumulator@.len())),
        decreases input_length - index,
    {
        let byte = input[index];
        let ghost run = integer_accumulator@;
        let ghost before = scanned.take(index - run.len());
        if is_ascii_digit(byte) {
            integer_accumulator.push(byte);
            assert(integer_accumulator@ == scanned.subrange(index - run.len(), index + 1));
        } else {
            resolve_accumulator(&mut integer_accumulator, &mut replaced);
            replaced.push(byte);
            proof {
                let single = seq![byte];
                assert(rewrite(single) == single) by {
                    assert(single.skip(1) == Seq::<u8>::empty());
                    assert(rewrite(single.skip(1)) == Seq::<u8>::empty());
                }
                lemma_rewrite_run(run);
                lemma_rewrite_concat(run, single);
                lemma_rewrite_concat(before, run + single);
                assert(before + (run + single) == scanned.take(index + 1));
                assert(replaced@ == rewrite(before) + resolve_run(run) + single);
            }
        }
        index += 1;
    }
    let ghost run = integer_accumulator@;
    let ghost before = scanned.take(scanned.len() - run.len());
    if end_of_input {
        resolve_accumulator(&mut integer_accumulator, &mut replaced);
        proof {
            lemma_rewrite_run(run);
            lemma_rewrite_concat(before, run);
            assert(before + run == scanned);
            assert(scanned.take(scanned.len() as int) == scanned);
        }
    } else {
        proof {
            assert(scanned.skip(scanned.len() - run.len()) == run);
            lemma_trailing_digits_is(scanned, run.len() as int);
        }
    }
    ReplacementResult { data: replaced, left_over_data: integer_accumulator.len() as u64 }
}

/// Scans all of `input`.
pub fn replace_epoch_timestamps(input: &[u8], end_of_input: bool) -> (result: ReplacementResult)
    ensures
        result.data@ == scan_output(input@, end_of_input),
        result.left_over_data == scan_leftover(input@, end_of_input),
{
    assert(input@.take(input@.len() as int) == input@);
    replace_epoch_timestamps_in_buffer(input, input.len(), end_of_input)
}

/// What is held back is the trailing digit run, and what is given out covers
/// all that stands before it. At the end of the stream nothing is held back,
/// and the output is that of a call in mid-stream followed by the resolution
/// of the run which that call holds back.
pub proof fn lemma_end_of_input_resolves(input: Seq<u8>)
    ensures
        scan_leftover(input, false) <= input.len(),
        all_digits(held_back(input, false)),
        scan_leftover(input, true) == 0,
        held_back(input, true).len() == 0,
        scan_output(input, true) == rewrite(input),
        scan_output(input, true) == scan_output(input, false) + resolve_run(
            held_back(input, false),
        ),
{
    lemma_trailing_digits(input);
    let held = held_back(input, false);
    let before = input.take(input.len() - held.len());
    assert(input.take(input.len() as int) == input);
    assert(before + held == input);
    lemma_rewrite_run(held);
    lemma_rewrite_concat(before, held);
}

/// On an input in which no maximal digit run is ten or thirteen digits wide
/// the scanner changes nothing: what it gives out and what it holds back are
/// the input again.
pub proof fn lemma_scan_without_timestamp(input: Seq<u8>, end_of_input: bool)
    requires
        !has_timestamp(input),
    ensures
        scan_output(input, end_of_input) + held_back(input, end_of_input) == input,
        end_of_input ==> scan_output(input, end_of_input) == input,
{
    lemma_trailing_digits(input);
    let held = held_back(input, end_of_input);
    let before = input.take(input.len() - held.len());
    assert(before + held == input);
    assert(!has_timestamp(before)) by {
        if has_timestamp(before) {
            let (start, end) = choose|start: int, end: int|
                #[trigger] is_maximal_run(before, start, end) && class_of_width(
                    (end - start) as nat,
                ) != RunClass::NotATimestamp;
            assert(before.subrange(start, end) == input.subrange(start, end));
            if end == before.len() && end < input.len() {
                assert(before.subrange(start, end)[end - start - 1] == input[end - 1]);
            }
            assert(is_maximal_run(input, start, end));
        }
    }
    lemma_rewrite_without_timestamp(before);
    if end_of_input {
        assert(before == input);
    }
}

} // verus!
