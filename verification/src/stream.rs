//! Feeding one stream to the scanner chunk by chunk: the carry of the digits
//! held back from one chunk into the next.

use crate::digits::all_digits;
use crate::model::{lemma_rewrite_concat, lemma_trailing_digits, rewrite};
use crate::scan::{
    append_bytes, held_back, lemma_end_of_input_resolves, replace_epoch_timestamps, scan_output,
};
use vstd::prelude::*;

verus! {

/// The state of one stream between two chunks: the digits that the scanner
/// held back from the bytes fed so far.
#[derive(Debug)]
pub struct ChunkCarry {
    pending: Vec<u8>,
}

/// What a stream gives out when it is fed the chunks `chunks` in order, with
/// `carry` held back from what came before them. The scanner sees each chunk
/// behind the bytes carried into it, and is told of the end of the stream at
/// the last chunk.
pub open spec fn chunked_output(carry: Seq<u8>, chunks: Seq<Seq<u8>>) -> Seq<u8>
    decreases chunks.len(),
{
    if chunks.len() == 0 {
        rewrite(carry)
    } else {
        let fed = carry + chunks.first();
        let last = chunks.len() == 1;
        scan_output(fed, last) + chunked_output(held_back(fed, last), chunks.drop_first())
    }
}

impl ChunkCarry {
    /// The bytes carried into the next chunk.
    pub closed spec fn pending(&self) -> Seq<u8> {
        self.pending@
    }

    /// The state at the start of a stream: nothing is carried.
    pub fn new() -> (carry: ChunkCarry)
        ensures
            carry.pending().len() == 0,
    {
        ChunkCarry { pending: Vec::new() }
    }

    /// How many bytes are carried into the next chunk.
    pub fn pending_len(&self) -> (len: usize)
        ensures
            len == self.pending().len(),
    {
        self.pending.len()
    }

    /// Scans the next chunk of the stream behind the bytes carried into it,
    /// returns the output and carries what the scanner held back. With
    /// `end_of_input` set nothing is carried.
    pub fn feed(&mut self, chunk: &[u8], end_of_input: bool) -> (output: Vec<u8>)
        ensures
            output@ == scan_output(old(self).pending() + chunk@, end_of_input),
            final(self).pending() == held_back(old(self).pending() + chunk@, end_of_input),
            all_digits(final(self).pending()),
    {
        let mut fed: Vec<u8> = Vec::new();
        append_bytes(self.pending.as_slice(), &mut fed);
        append_bytes(chunk, &mut fed);
        let result = replace_epoch_timestamps(fed.as_slice(), end_of_input);
        proof {
            lemma_trailing_digits(fed@);
            lemma_end_of_input_resolves(fed@);
        }
        let held: usize = result.left_over_data as usize;
        let mut pending: Vec<u8> = Vec::new();
        let mut index: usize = fed.len() - held;
        while index < fed.len()
            invariant
                held <= fed@.len(),
                fed@.len() - held <= index <= fed@.len(),
                pending@ == fed@.subrange(fed@.len() - held, index as int),
            decreases fed@.len() - index,
        {
            pending.push(fed[index]);
            index += 1;
        }
        self.pending = pending;
        result.data
    }
}

/// However a stream is cut into chunks, feeding the chunks in order, each
/// behind what was held back from the one before, gives out what one scan of
/// the whole stream gives.
pub proof fn lemma_chunked_output(chunks: Seq<Seq<u8>>)
    ensures
        chunked_output(Seq::empty(), chunks) == scan_output(chunks.flatten(), true),
{
    lemma_chunked_output_carried(Seq::empty(), chunks);
    lemma_end_of_input_resolves(chunks.flatten());
    assert(Seq::<u8>::empty() + chunks.flatten() == chunks.flatten());
}

/// The same with bytes carried into the first chunk: they count as the start
/// of the stream.
pub proof fn lemma_chunked_output_carried(carry: Seq<u8>, chunks: Seq<Seq<u8>>)
    ensures
        chunked_output(carry, chunks) == rewrite(carry + chunks.flatten()),
    decreases chunks.len(),
{
    if chunks.len() == 0 {
        assert(carry + chunks.flatten() == carry);
    } else {
        let fed = carry + chunks.first();
        let rest = chunks.drop_first();
        let last = chunks.len() == 1;
        let held = held_back(fed, last);
        let before = fed.take(fed.len() - held.len());
        lemma_trailing_digits(fed);
        lemma_end_of_input_resolves(fed);
        lemma_chunked_output_carried(held, rest);
        assert(before + held == fed);
        assert(before + (held + rest.flatten()) == carry + chunks.flatten());
        lemma_rewrite_concat(before, held + rest.flatten());
    }
}

} // verus!
