//! The mathematical model of the rewriting: what the output is, as a function
//! of the input bytes, and the facts about it that the scanner rests on.

use crate::digits::{all_digits, class_of_width, decimal_value, is_digit, RunClass};
use crate::timestamp::timestamp_text;
use vstd::prelude::*;

verus! {

/// Length of the longest prefix of `s` that consists of digits only.
pub open spec fn leading_digits(s: Seq<u8>) -> nat
    decreases s.len(),
{
    if s.len() == 0 || !is_digit(s[0]) {
        0
    } else {
        1 + leading_digits(s.skip(1))
    }
}

/// Length of the longest suffix of `s` that consists of digits only.
pub open spec fn trailing_digits(s: Seq<u8>) -> nat
    decreases s.len(),
{
    if s.len() == 0 || !is_digit(s.last()) {
        0
    } else {
        1 + trailing_digits(s.drop_last())
    }
}

/// What a complete digit run becomes: its date-time text when it is ten or
/// thirteen digits wide, itself otherwise.
pub open spec fn resolve_run(run: Seq<u8>) -> Seq<u8> {
    match class_of_width(run.len()) {
        RunClass::NotATimestamp => run,
        class => timestamp_text(decimal_value(run) as int, class),
    }
}

/// The rewriting of a whole input: every maximal digit run is resolved, every
/// other byte is kept.
pub open spec fn rewrite(s: Seq<u8>) -> Seq<u8>
    decreases s.len(),
{
    if s.len() == 0 {
        s
    } else if !is_digit(s[0]) {
        seq![s[0]] + rewrite(s.skip(1))
    } else {
        let n = leading_digits(s);
        proof {
            lemma_leading_digits(s);
        }
        resolve_run(s.take(n as int)) + rewrite(s.skip(n as int))
    }
}

/// Whether no digit stands on both sides of the cut between `a` and `b`, so
/// that no digit run of `a + b` crosses it.
pub open spec fn run_boundary(a: Seq<u8>, b: Seq<u8>) -> bool {
    a.len() == 0 || b.len() == 0 || !is_digit(a.last()) || !is_digit(b[0])
}

/// Whether the bytes of `s` from `start` up to `end` are a maximal digit run:
/// one digit at least, digits only, and no digit next to it on either side.
pub open spec fn is_maximal_run(s: Seq<u8>, start: int, end: int) -> bool {
    &&& 0 <= start < end <= s.len()
    &&& all_digits(s.subrange(start, end))
    &&& (start == 0 || !is_digit(s[start - 1]))
    &&& (end == s.len() || !is_digit(s[end]))
}

/// Whether some maximal digit run of `s` is ten or thirteen digits wide.
pub open spec fn has_timestamp(s: Seq<u8>) -> bool {
    exists|start: int, end: int|
        #[trigger] is_maximal_run(s, start, end) && class_of_width((end - start) as nat)
            != RunClass::NotATimestamp
}

/// Whether `width` digits stand next to one another somewhere in `s`.
pub open spec fn has_digit_window(s: Seq<u8>, width: int) -> bool {
    exists|start: int|
        0 <= start && start + width <= s.len() && all_digits(
            #[trigger] s.subrange(start, start + width),
        )
}

/// The leading digit run lies within the sequence, holds digits only and is
/// followed by a byte that is no digit, or by nothing.
pub proof fn lemma_leading_digits(s: Seq<u8>)
    ensures
        leading_digits(s) <= s.len(),
        all_digits(s.take(leading_digits(s) as int)),
        leading_digits(s) < s.len() ==> !is_digit(s[leading_digits(s) as int]),
        s.len() > 0 && is_digit(s[0]) ==> leading_digits(s) >= 1,
    decreases s.len(),
{
    if s.len() > 0 && is_digit(s[0]) {
        let rest = s.skip(1);
        lemma_leading_digits(rest);
        let n = leading_digits(s);
        assert forall|i: int| 0 <= i < n implies is_digit(#[trigger] s.take(n as int)[i]) by {
            if i > 0 {
                assert(s.take(n as int)[i] == rest.take(n - 1)[i - 1]);
            }
        }
    }
}

/// The trailing digit run lies within the sequence, holds digits only and is
/// preceded by a byte that is no digit, or by nothing.
pub proof fn lemma_trailing_digits(s: Seq<u8>)
    ensures
        trailing_digits(s) <= s.len(),
        all_digits(s.skip(s.len() - trailing_digits(s))),
        trailing_digits(s) < s.len() ==> !is_digit(s[s.len() - trailing_digits(s) - 1]),
    decreases s.len(),
{
    if s.len() > 0 && is_digit(s.last()) {
        let front = s.drop_last();
        lemma_trailing_digits(front);
        let t = trailing_digits(s);
        let tail = s.skip(s.len() - t);
        assert forall|i: int| 0 <= i < tail.len() implies is_digit(#[trigger] tail[i]) by {
            if i < tail.len() - 1 {
                assert(tail[i] == front.skip(front.len() - (t - 1))[i]);
            }
        }
    }
}

/// A prefix of `n` digits that is followed by no digit is the leading run.
pub proof fn lemma_leading_digits_is(s: Seq<u8>, n: int)
    requires
        0 <= n <= s.len(),
        all_digits(s.take(n)),
        n < s.len() ==> !is_digit(s[n]),
    ensures
        leading_digits(s) == n,
    decreases n,
{
    if n > 0 {
        assert(s[0] == s.take(n)[0]);
        let rest = s.skip(1);
        assert forall|i: int| 0 <= i < n - 1 implies is_digit(#[trigger] rest.take(n - 1)[i]) by {
            assert(rest.take(n - 1)[i] == s.take(n)[i + 1]);
        }
        lemma_leading_digits_is(rest, n - 1);
    }
}

/// A suffix of `t` digits that is preceded by no digit is the trailing run.
pub proof fn lemma_trailing_digits_is(s: Seq<u8>, t: int)
    requires
        0 <= t <= s.len(),
        all_digits(s.skip(s.len() - t)),
        t < s.len() ==> !is_digit(s[s.len() - t - 1]),
    ensures
        trailing_digits(s) == t,
    decreases t,
{
    if t > 0 {
        let tail = s.skip(s.len() - t);
        assert(s.last() == tail[t - 1]);
        let front = s.drop_last();
        let front_tail = front.skip(front.len() - (t - 1));
        assert forall|i: int| 0 <= i < front_tail.len() implies is_digit(
            #[trigger] front_tail[i],
        ) by {
            assert(front_tail[i] == tail[i]);
        }
        lemma_trailing_digits_is(front, t - 1);
    }
}

/// A sequence of digits only is rewritten as one run.
pub proof fn lemma_rewrite_run(run: Seq<u8>)
    requires
        all_digits(run),
    ensures
        rewrite(run) == resolve_run(run),
{
    if run.len() > 0 {
        assert(run.take(run.len() as int) == run);
        lemma_leading_digits_is(run, run.len() as int);
        assert(run.skip(run.len() as int) == Seq::<u8>::empty());
        assert(rewrite(run.skip(run.len() as int)) == Seq::<u8>::empty());
    }
}

/// Rewriting distributes over a cut that no digit run crosses.
pub proof fn lemma_rewrite_concat(a: Seq<u8>, b: Seq<u8>)
    requires
        run_boundary(a, b),
    ensures
        rewrite(a + b) == rewrite(a) + rewrite(b),
    decreases a.len(),
{
    let s = a + b;
    if a.len() == 0 {
        assert(s == b);
    } else if b.len() == 0 {
        assert(s == a);
    } else if !is_digit(a[0]) {
        let rest = a.skip(1);
        assert(s.skip(1) == rest + b);
        assert(run_boundary(rest, b)) by {
            if rest.len() > 0 {
                assert(rest.last() == a.last());
            }
        }
        lemma_rewrite_concat(rest, b);
    } else {
        let n = leading_digits(a);
        lemma_leading_digits(a);
        assert(s.take(n as int) == a.take(n as int));
        assert(n < s.len() ==> !is_digit(s[n as int])) by {
            if n == a.len() {
                assert(a.last() == a.take(n as int)[n - 1]);
                assert(s[n as int] == b[0]);
            }
        }
        lemma_leading_digits_is(s, n as int);
        let rest = a.skip(n as int);
        assert(s.skip(n as int) == rest + b);
        assert(run_boundary(rest, b)) by {
            if rest.len() > 0 {
                assert(rest.last() == a.last());
            }
        }
        lemma_rewrite_concat(rest, b);
    }
}

/// A maximal digit run of what follows the first `n` bytes of `s` is one of
/// `s` too, when no digit run of `s` crosses the cut at `n`.
proof fn lemma_run_of_suffix(s: Seq<u8>, n: int, start: int, end: int)
    requires
        0 < n <= s.len(),
        n < s.len() ==> !is_digit(s[n - 1]) || !is_digit(s[n]),
        is_maximal_run(s.skip(n), start, end),
    ensures
        is_maximal_run(s, start + n, end + n),
{
    let rest = s.skip(n);
    assert(s.subrange(start + n, end + n) == rest.subrange(start, end));
    if start == 0 {
        assert(rest[0] == rest.subrange(start, end)[0]);
    } else {
        assert(rest[start - 1] == s[start + n - 1]);
    }
    if end < rest.len() {
        assert(rest[end] == s[end + n]);
    }
}

/// An input in which no maximal digit run is ten or thirteen digits wide is
/// rewritten as itself.
pub proof fn lemma_rewrite_without_timestamp(s: Seq<u8>)
    requires
        !has_timestamp(s),
    ensures
        rewrite(s) == s,
    decreases s.len(),
{
    if s.len() > 0 {
        lemma_leading_digits(s);
        let n: int = if is_digit(s[0]) {
            leading_digits(s) as int
        } else {
            1
        };
        let rest = s.skip(n);
        assert(!has_timestamp(rest)) by {
            if has_timestamp(rest) {
                let (start, end) = choose|start: int, end: int|
                    #[trigger] is_maximal_run(rest, start, end) && class_of_width(
                        (end - start) as nat,
                    ) != RunClass::NotATimestamp;
                if n < s.len() && is_digit(s[0]) {
                    assert(s.take(n)[n - 1] == s[n - 1]);
                }
                lemma_run_of_suffix(s, n, start, end);
                assert(class_of_width(((end + n) - (start + n)) as nat) != RunClass::NotATimestamp);
            }
        }
        lemma_rewrite_without_timestamp(rest);
        if is_digit(s[0]) {
            assert(s.subrange(0, n) == s.take(n));
            assert(is_maximal_run(s, 0, n));
            assert(class_of_width((n - 0) as nat) == RunClass::NotATimestamp);
            assert(s.take(n) + rest == s);
        } else {
            assert(seq![s[0]] + rest == s);
        }
    }
}

/// An input that nowhere holds ten digits next to one another is rewritten
/// as itself.
pub proof fn lemma_rewrite_without_ten_digits(s: Seq<u8>)
    requires
        !has_digit_window(s, 10),
    ensures
        !has_timestamp(s),
        rewrite(s) == s,
{
    if has_timestamp(s) {
        let (start, end) = choose|start: int, end: int|
            #[trigger] is_maximal_run(s, start, end) && class_of_width((end - start) as nat)
                != RunClass::NotATimestamp;
        let window = s.subrange(start, start + 10);
        assert forall|i: int| 0 <= i < window.len() implies is_digit(#[trigger] window[i]) by {
            assert(window[i] == s.subrange(start, end)[i]);
        }
    }
    lemma_rewrite_without_timestamp(s);
}

/// Only the exact width of a complete digit run decides what becomes of it:
/// ten digits give the second-precision text of their value, thirteen the
/// millisecond-precision text, and a run of any other width stays as it is,
/// whatever stands before and after the run.
pub proof fn lemma_exact_width(before: Seq<u8>, run: Seq<u8>, after: Seq<u8>)
    requires
        all_digits(run),
        before.len() == 0 || !is_digit(before.last()),
        after.len() == 0 || !is_digit(after[0]),
    ensures
        rewrite(before + run + after) == rewrite(before) + resolve_run(run) + rewrite(after),
        run.len() == 10 ==> resolve_run(run) == timestamp_text(
            decimal_value(run) as int,
            RunClass::SecondPrecision,
        ),
        run.len() == 13 ==> resolve_run(run) == timestamp_text(
            decimal_value(run) as int,
            RunClass::MillisecondPrecision,
        ),
        run.len() != 10 && run.len() != 13 ==> resolve_run(run) == run,
{
    lemma_rewrite_run(run);
    lemma_rewrite_concat(before, run);
    assert(run_boundary(before + run, after)) by {
        if run.len() == 0 {
            assert(before + run == before);
        }
    }
    lemma_rewrite_concat(before + run, after);
}

} // verus!
