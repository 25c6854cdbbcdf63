use vstd::prelude::*;
use vstd::string::StringSliceAdditionalSpecFns;

verus! {

/// Whether `c` is a line terminator byte (carriage return or line feed).
pub open spec fn is_terminator(c: u8) -> bool {
    c == 13u8 || c == 10u8
}

/// Whether some byte of `s` immediately follows a terminator: then `s`
/// holds at least one whole line and the start of what comes after it.
pub open spec fn has_boundary(s: Seq<u8>) -> bool {
    exists|i: int| 1 <= i < s.len() && #[trigger] is_terminator(s[i - 1])
}

/// Length of the first line of `s`, scanning for a boundary from position
/// `i`: the line ends after the first terminator that is followed by another
/// byte, and takes that byte along when it is a terminator too. 0 when
/// no such boundary lies at or after `i`.
pub open spec fn line_len_from(s: Seq<u8>, i: int) -> int
    decreases s.len() - i,
{
    if i < 1 || i >= s.len() {
        0
    } else if is_terminator(s[i - 1]) {
        if is_terminator(s[i]) {
            i + 1
        } else {
            i
        }
    } else {
        line_len_from(s, i + 1)
    }
}

/// Length of the first complete line of `s`, terminator included; 0 when
/// `s` holds no complete line yet.
pub open spec fn line_len(s: Seq<u8>) -> int {
    line_len_from(s, 1)
}

pub proof fn lemma_line_len_bounds(s: Seq<u8>, i: int)
    ensures
        0 <= line_len_from(s, i) <= s.len(),
        line_len_from(s, i) != 0 ==> line_len_from(s, i) >= 1,
    decreases s.len() - i,
{
    if 1 <= i < s.len() && !is_terminator(s[i - 1]) {
        lemma_line_len_bounds(s, i + 1);
    }
}

/// A boundary at or after `i` yields a line.
pub proof fn lemma_boundary_gives_line(s: Seq<u8>, i: int, j: int)
    requires
        1 <= i <= j < s.len(),
        is_terminator(s[j - 1]),
    ensures
        line_len_from(s, i) > 0,
    decreases j - i,
{
    if !is_terminator(s[i - 1]) {
        lemma_boundary_gives_line(s, i + 1, j);
    }
}

/// A line found in a prefix is the line of the whole sequence.
pub proof fn lemma_line_of_prefix(s: Seq<u8>, t: Seq<u8>, i: int)
    requires
        t.len() <= s.len(),
        t == s.take(t.len() as int),
        line_len_from(t, i) > 0,
    ensures
        line_len_from(s, i) == line_len_from(t, i),
    decreases t.len() - i,
{
    assert(t[i - 1] == s[i - 1]);
    assert(t[i] == s[i]);
    if !is_terminator(t[i - 1]) {
        lemma_line_of_prefix(s, t, i + 1);
    }
}

/// Whether `c` is a line terminator byte.
pub fn is_nl(c: u8) -> (r: bool)
    ensures
        r == is_terminator(c),
{
    if (c == 13) || (c == 10) {
        return true;
    }
    false
}

/// Whether `input` holds a terminator that is followed by another byte.
pub fn has_nl(input: &[u8]) -> (r: bool)
    ensures
        r == has_boundary(input@),
{
    let mut last: u8 = 0;
    let mut i: usize = 0;
    while i < input.len()
        invariant
            i <= input@.len(),
            i == 0 ==> last == 0u8,
            i > 0 ==> last == input@[i - 1],
            forall|j: int| 1 <= j < i ==> !#[trigger] is_terminator(input@[j - 1]),
        decreases input@.len() - i,
    {
        if is_nl(last) {
            assert(is_terminator(input@[i - 1]));
            return true;
        }
        last = input[i];
        i = i + 1;
    }
    false
}

/// Copies the bytes of a string.
pub fn str_to_vec(s: String) -> (r: Vec<u8>)
    ensures
        r@ == vstd::utf8::encode_utf8(s@),
{
    let mut v: Vec<u8> = Vec::new();
    let bs = s.as_str().as_bytes();
    let mut i: usize = 0;
    while i < bs.len()
        invariant
            i <= bs@.len(),
            v@ == bs@.take(i as int),
        decreases bs@.len() - i,
    {
        v.push(bs[i]);
        i = i + 1;
        assert(v@ =~= bs@.take(i as int));
    }
    assert(v@ =~= bs@);
    v
}

/// Removes the first complete line from the front of `unprocessed` and
/// returns it, terminator included. When no complete line is there yet,
/// returns an empty line and leaves `unprocessed` as it was.
pub fn get_line(unprocessed: &mut Vec<u8>) -> (r: Vec<u8>)
    ensures
        r@ == old(unprocessed)@.take(line_len(old(unprocessed)@)),
        final(unprocessed)@ == old(unprocessed)@.skip(line_len(old(unprocessed)@)),
{
    let ghost s = unprocessed@;
    let n = unprocessed.len();
    let mut byte_count: usize = 0;
    let mut i: usize = 1;
    while i < n
        invariant_except_break
            byte_count == 0,
        invariant
            n == s.len(),
            1 <= i,
            line_len(s) == line_len_from(s, i as int),
            unprocessed@ == s,
        ensures
            byte_count == line_len(s),
        decreases n - i,
    {
        if is_nl(unprocessed[i - 1]) {
            if is_nl(unprocessed[i]) {
                byte_count = i + 1;
            } else {
                byte_count = i;
            }
            break;
        }
        i = i + 1;
    }
    proof {
        lemma_line_len_bounds(s, 1);
    }
    assert(byte_count == line_len(s));
    let mut r = unprocessed.split_off(0);
    let rest = r.split_off(byte_count);
    *unprocessed = rest;
    assert(r@ =~= s.take(byte_count as int));
    assert(unprocessed@ =~= s.skip(byte_count as int));
    r
}

} // verus!
