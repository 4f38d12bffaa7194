use depoch::{replace_epoch_timestamps, ChunkCarry};

const LINES: &str =
    "abcdef\nsome1530216070timestamp\nfoo\nprefix1530216070317suffix\nbar\n\n";
const LINES_REWRITTEN: &str = "abcdef\nsome[2018-06-28 20:01:10 UTC]timestamp\nfoo\nprefix[2018-06-28 20:01:10.317 UTC]suffix\nbar\n\n";

/// Feeds `input` in chunks of `chunk_size` bytes, the last one marked as the
/// end, and collects the output.
fn feed_in_chunks(input: &[u8], chunk_size: usize) -> Vec<u8> {
    let mut carry = ChunkCarry::new();
    let mut output: Vec<u8> = Vec::new();
    let mut start: usize = 0;
    loop {
        let end: usize = usize::min(start + chunk_size, input.len());
        let last = end == input.len();
        output.extend(carry.feed(&input[start..end], last));
        if last {
            assert_eq!(0, carry.pending_len());
            return output;
        }
        start = end;
    }
}

#[test]
fn replace_in_stream_of_lines() {
    let output = feed_in_chunks(LINES.as_bytes(), 1024);
    assert_eq!(LINES_REWRITTEN.as_bytes().to_vec(), output);
}

#[test]
fn every_chunk_size_gives_the_same_output() {
    let whole = replace_epoch_timestamps(LINES.as_bytes(), true);
    assert_eq!(LINES_REWRITTEN.as_bytes().to_vec(), whole.data);
    for chunk_size in 1..=LINES.len() + 1 {
        let output = feed_in_chunks(LINES.as_bytes(), chunk_size);
        assert_eq!(whole.data, output, "chunk size {}", chunk_size);
    }
}

#[test]
fn every_cut_in_two_gives_the_same_output() {
    let input = "x1530216070317y1530216070 15302160701 1530216070";
    let whole = replace_epoch_timestamps(input.as_bytes(), true);
    for cut in 0..=input.len() {
        let mut carry = ChunkCarry::new();
        let mut output = carry.feed(&input.as_bytes()[..cut], false);
        output.extend(carry.feed(&input.as_bytes()[cut..], true));
        assert_eq!(whole.data, output, "cut at {}", cut);
    }
}

#[test]
fn end_of_stream_can_come_as_an_empty_chunk() {
    let mut carry = ChunkCarry::new();
    let mut output = carry.feed(b"at 15302", false);
    assert_eq!(b"at ".to_vec(), output);
    assert_eq!(5, carry.pending_len());
    output.extend(carry.feed(b"16070", false));
    assert_eq!(b"at ".to_vec(), output);
    assert_eq!(10, carry.pending_len());
    output.extend(carry.feed(b"", true));
    assert_eq!(b"at [2018-06-28 20:01:10 UTC]".to_vec(), output);
    assert_eq!(0, carry.pending_len());
}

#[test]
fn timestamp_across_three_chunks() {
    let mut carry = ChunkCarry::new();
    let first = carry.feed(b"t=1530", false);
    assert_eq!(b"t=".to_vec(), first);
    let second = carry.feed(b"2160", false);
    assert!(second.is_empty());
    assert_eq!(8, carry.pending_len());
    let third = carry.feed(b"70317;", false);
    assert_eq!(b"[2018-06-28 20:01:10.317 UTC];".to_vec(), third);
    assert_eq!(0, carry.pending_len());
}

#[test]
fn ten_digits_can_still_grow() {
    let mut carry = ChunkCarry::new();
    let first = carry.feed(b"1530216070", false);
    assert!(first.is_empty());
    assert_eq!(10, carry.pending_len());
    let second = carry.feed(b"3", false);
    assert!(second.is_empty());
    assert_eq!(11, carry.pending_len());
    let third = carry.feed(b"!", false);
    assert_eq!(b"15302160703!".to_vec(), third);
}

#[test]
fn manual_carry_with_the_leftover_count() {
    let first_chunk = b"prefix15302160";
    let first = replace_epoch_timestamps(first_chunk, false);
    assert_eq!(8, first.left_over_data);
    let kept: usize = first_chunk.len() - first.left_over_data as usize;
    let mut next: Vec<u8> = first_chunk[kept..].to_vec();
    next.extend_from_slice(b"70suffix");
    let second = replace_epoch_timestamps(&next, true);
    assert_eq!(0, second.left_over_data);

    let mut output = first.data;
    output.extend(second.data);
    assert_eq!(b"prefix[2018-06-28 20:01:10 UTC]suffix".to_vec(), output);
}
