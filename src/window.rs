use vstd::prelude::*;
use vstd::seq_lib::lemma_flatten_concat;

use crate::header::{header_index, lemma_earliest_maximum_wins, scores};
use crate::lines::{lemma_line_len_bounds, line_len};

verus! {

/// The first `k` complete lines of `s`, terminators included; fewer when
/// `s` holds fewer complete lines.
pub open spec fn window_lines(s: Seq<u8>, k: nat) -> Seq<Seq<u8>>
    decreases k,
{
    if k == 0 || line_len(s) == 0 {
        seq![]
    } else {
        seq![s.take(line_len(s))] + window_lines(s.skip(line_len(s)), (k - 1) as nat)
    }
}

/// What follows the first `k` complete lines of `s`.
pub open spec fn window_rest(s: Seq<u8>, k: nat) -> Seq<u8>
    decreases k,
{
    if k == 0 || line_len(s) == 0 {
        s
    } else {
        window_rest(s.skip(line_len(s)), (k - 1) as nat)
    }
}

/// Index of the header line among the first `k` lines of `s`.
pub open spec fn selected_header(s: Seq<u8>, delimiter: u8, k: nat) -> int {
    header_index(scores(window_lines(s, k), delimiter))
}

/// The stream `s` with every line before the header cut off: the window's
/// lines from the header onward, then everything after the window.
pub open spec fn trimmed(s: Seq<u8>, delimiter: u8, k: nat) -> Seq<u8> {
    window_lines(s, k).skip(selected_header(s, delimiter, k)).flatten() + window_rest(s, k)
}

/// Number of lines that may still enter a window of `consider` lines that
/// already holds `held`.
pub open spec fn room_left(consider: usize, held: nat) -> nat {
    if consider > held {
        (consider - held) as nat
    } else {
        0
    }
}

/// The window's lines, followed by what comes after them, make up the
/// stream; no window line is empty, and there are at most `k` of them.
pub proof fn lemma_window_splits_stream(s: Seq<u8>, k: nat)
    ensures
        s == window_lines(s, k).flatten() + window_rest(s, k),
        window_lines(s, k).len() <= k,
        forall|j: int|
            0 <= j < window_lines(s, k).len() ==> (#[trigger] window_lines(s, k)[j]).len() > 0,
    decreases k,
{
    lemma_line_len_bounds(s, 1);
    if k > 0 && line_len(s) > 0 {
        let l = line_len(s);
        let tail = s.skip(l);
        lemma_window_splits_stream(tail, (k - 1) as nat);
        let w = window_lines(s, k);
        assert(w == seq![s.take(l)] + window_lines(tail, (k - 1) as nat));
        assert(window_rest(s, k) == window_rest(tail, (k - 1) as nat));
        assert(w.drop_first() =~= window_lines(tail, (k - 1) as nat));
        assert(w.flatten() == w[0] + w.drop_first().flatten());
        assert(s =~= s.take(l) + tail);
        assert forall|j: int| 0 <= j < w.len() implies (#[trigger] w[j]).len() > 0 by {
            if j > 0 {
                assert(w[j] == window_lines(tail, (k - 1) as nat)[j - 1]);
            }
        }
    } else {
        assert(window_lines(s, k) == Seq::<Seq<u8>>::empty());
        assert(Seq::<Seq<u8>>::empty().flatten() =~= Seq::<u8>::empty());
        assert(s =~= Seq::<u8>::empty() + s);
    }
}

/// Everything read from the trimmed stream is the input from the first byte
/// of the header line through the input's end, and it starts with the
/// header line itself.
pub proof fn lemma_output_is_input_from_header(s: Seq<u8>, delimiter: u8, k: nat)
    ensures
        ({
            let w = window_lines(s, k);
            let h = selected_header(s, delimiter, k);
            &&& trimmed(s, delimiter, k) == s.skip(w.take(h).flatten().len() as int)
            &&& w.len() > 0 ==> trimmed(s, delimiter, k).take(w[h].len() as int) == w[h]
        }),
{
    let w = window_lines(s, k);
    let h = selected_header(s, delimiter, k);
    lemma_window_splits_stream(s, k);
    let sc = scores(w, delimiter);
    if w.len() > 0 {
        lemma_earliest_maximum_wins(sc);
    }
    assert(0 <= h <= w.len());
    assert(w =~= w.take(h) + w.skip(h));
    lemma_flatten_concat(w.take(h), w.skip(h));
    let p = w.take(h).flatten();
    assert(s == p + (w.skip(h).flatten() + window_rest(s, k)));
    assert(s.skip(p.len() as int) =~= w.skip(h).flatten() + window_rest(s, k));
    if w.len() > 0 {
        let t = w.skip(h);
        assert(t.flatten() == t[0] + t.drop_first().flatten());
        assert(trimmed(s, delimiter, k).take(w[h].len() as int) =~= w[h]);
    }
}

/// The header is chosen only among the complete lines that are present:
/// a window shorter than `k` holds every complete line of the stream, and
/// the selected index falls inside the window (or is 0 when it is empty).
pub proof fn lemma_header_within_window(s: Seq<u8>, delimiter: u8, k: nat)
    requires
        k >= 1,
    ensures
        window_lines(s, k).len() <= k,
        window_lines(s, k).len() < k ==> line_len(window_rest(s, k)) == 0,
        window_lines(s, k).len() > 0 ==> 0 <= selected_header(s, delimiter, k) < window_lines(
            s,
            k,
        ).len(),
        window_lines(s, k).len() == 0 ==> selected_header(s, delimiter, k) == 0,
{
    lemma_window_splits_stream(s, k);
    lemma_rest_has_no_line_when_short(s, k);
    let sc = scores(window_lines(s, k), delimiter);
    if window_lines(s, k).len() > 0 {
        lemma_earliest_maximum_wins(sc);
    }
}

proof fn lemma_rest_has_no_line_when_short(s: Seq<u8>, k: nat)
    ensures
        window_lines(s, k).len() < k ==> line_len(window_rest(s, k)) == 0,
    decreases k,
{
    lemma_line_len_bounds(s, 1);
    if k > 0 && line_len(s) > 0 {
        let tail = s.skip(line_len(s));
        lemma_rest_has_no_line_when_short(tail, (k - 1) as nat);
        assert(window_lines(s, k) == seq![s.take(line_len(s))] + window_lines(tail, (k - 1) as nat));
        assert(window_rest(s, k) == window_rest(tail, (k - 1) as nat));
    }
}

/// An empty input has nothing to output.
pub proof fn lemma_empty_input_gives_nothing(delimiter: u8, k: nat)
    ensures
        trimmed(Seq::empty(), delimiter, k).len() == 0,
{
    let s = Seq::<u8>::empty();
    assert(line_len(s) == 0);
    assert(window_lines(s, k) =~= Seq::<Seq<u8>>::empty());
    assert(window_lines(s, k).skip(selected_header(s, delimiter, k)) =~= Seq::<Seq<u8>>::empty());
}

} // verus!
