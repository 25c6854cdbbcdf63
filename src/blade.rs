use vstd::prelude::*;

use crate::lines::{
    get_line, has_boundary, has_nl, lemma_boundary_gives_line, lemma_line_len_bounds,
    lemma_line_of_prefix, line_len,
};
use crate::source::{ByteSource, SourceError};
use crate::header::select_header;
use crate::window::{
    lemma_header_within_window, lemma_window_splits_stream, room_left, selected_header, trimmed,
    window_lines, window_rest,
};

verus! {

/// Size of the chunks read from the underlying source.
pub const CHUNK_SIZE: usize = 8192;

/// Appends chunks of up to `chunk_size` bytes read from `rdr` to `v` until
/// `v` holds a terminator followed by another byte, or `rdr` has reached its
/// end. No byte is lost or reordered on the way from `rdr` to `v`.
pub fn fill<R: ByteSource>(rdr: &mut R, v: &mut Vec<u8>, chunk_size: usize) -> (r: Result<
    (),
    SourceError,
>)
    requires
        chunk_size > 0,
        old(rdr).valid(),
    ensures
        final(rdr).valid(),
        old(rdr).infallible() ==> r is Ok && final(rdr).infallible(),
        has_boundary(old(v)@) ==> r is Ok && final(v)@ == old(v)@ && *final(rdr) == *old(rdr),
        final(v)@.len() >= old(v)@.len(),
        final(v)@.take(old(v)@.len() as int) == old(v)@,
        final(v)@.len() <= old(v)@.len() + old(rdr).pending().len(),
        final(v)@ == (old(v)@ + old(rdr).pending()).take(final(v)@.len() as int),
        r is Ok ==> final(v)@ + final(rdr).pending() == old(v)@ + old(rdr).pending(),
        r is Ok ==> has_boundary(final(v)@) || final(rdr).pending().len() == 0,
        !has_boundary(old(v)@) && old(rdr).chunk(chunk_size as nat) == Some(
            old(rdr).pending().len(),
        ) && r is Ok ==> final(rdr).pending().len() == 0,
        final(v)@.len() > old(v)@.len() ==> exists|p: int|
            old(v)@.len() <= p < final(v)@.len() && final(v)@.len() - p <= chunk_size
                && !has_boundary(#[trigger] final(v)@.take(p)),
{
    let ghost stream = v@ + rdr.pending();
    let ghost v0 = v@;
    let ghost mut last_start: int = v0.len() as int;
    let ghost drains = !has_boundary(v0) && rdr.chunk(chunk_size as nat) == Some(
        rdr.pending().len(),
    );
    let ghost mut started = false;
    let mut number_of_bytes_read: usize = 1;
    while (number_of_bytes_read > 0) && (!has_nl(v.as_slice()))
        invariant
            chunk_size > 0,
            rdr.valid(),
            old(rdr).infallible() ==> rdr.infallible(),
            v@.len() >= v0.len(),
            v@.take(v0.len() as int) == v0,
            v0 == old(v)@,
            stream == old(v)@ + old(rdr).pending(),
            has_boundary(v0) ==> v@ == v0 && *rdr == *old(rdr),
            drains == (!has_boundary(old(v)@) && old(rdr).chunk(chunk_size as nat) == Some(
                old(rdr).pending().len(),
            )),
            !started ==> *rdr == *old(rdr) && v@ == v0,
            drains && started ==> rdr.pending().len() == 0,
            drains ==> number_of_bytes_read > 0 || started,
            v@.len() > v0.len() ==> v0.len() <= last_start < v@.len() && v@.len() - last_start
                <= chunk_size && !has_boundary(v@.take(last_start)),
            v@ + rdr.pending() == stream,
            number_of_bytes_read == 0 ==> rdr.pending().len() == 0,
        decreases rdr.pending().len() + if number_of_bytes_read > 0 {
            1int
        } else {
            0int
        },
    {
        let ghost before = rdr.pending();
        let ghost v_before = v@;
        let mut bytes: Vec<u8> = vec![0u8; chunk_size];
        match rdr.read(bytes.as_mut_slice()) {
            Ok(n) => {
                number_of_bytes_read = n;
            },
            Err(e) => {
                assert(v@ == v_before);
                assert((v_before + before).len() == stream.len());
                assert(v@ =~= stream.take(v@.len() as int));
                return Err(e);
            },
        }
        bytes.truncate(number_of_bytes_read);
        proof {
            if number_of_bytes_read > 0 {
                last_start = v_before.len() as int;
            }
            started = true;
        }
        v.append(&mut bytes);
        assert(v@.take(last_start) =~= if number_of_bytes_read > 0 {
            v_before
        } else {
            v_before.take(last_start)
        });
        assert(v@ + rdr.pending() =~= v_before + before);
        assert(v@.take(v0.len() as int) =~= v_before.take(v0.len() as int));
    }
    proof {
        if v@.len() > v0.len() {
            assert(!has_boundary(v@.take(last_start)));
        }
        assert(v@ =~= stream.take(v@.len() as int));
    }
    Ok(())
}

/// Moves the first entry of `src_buffer` into `return_buf`. When
/// `return_buf` is too small for it, only its front is moved and the rest
/// stays first in `src_buffer`. Returns the number of bytes moved.
pub fn read_from_buffer(src_buffer: &mut Vec<Vec<u8>>, return_buf: &mut [u8]) -> (r: Result<
    usize,
    SourceError,
>)
    ensures
        r is Ok,
        final(return_buf)@.len() == old(return_buf)@.len(),
        old(src_buffer)@.len() == 0 ==> r->Ok_0 == 0 && final(src_buffer)@ == old(src_buffer)@
            && final(return_buf)@ == old(return_buf)@,
        old(src_buffer)@.len() > 0 ==> ({
            let first = old(src_buffer)@[0]@;
            let n = r->Ok_0;
            &&& n == if old(return_buf)@.len() < first.len() {
                old(return_buf)@.len()
            } else {
                first.len()
            }
            &&& final(return_buf)@.take(n as int) == first.take(n as int)
            &&& final(return_buf)@.skip(n as int) == old(return_buf)@.skip(n as int)
            &&& n == first.len() ==> final(src_buffer).deep_view() == old(
                src_buffer,
            ).deep_view().drop_first()
            &&& n < first.len() ==> final(src_buffer).deep_view() == seq![first.skip(n as int)]
                + old(src_buffer).deep_view().drop_first()
        }),
{
    if src_buffer.is_empty() {
        return Result::Ok(0);
    }
    let ghost old_view = src_buffer.deep_view();
    let mut count = src_buffer[0].len();
    let mut shift = true;
    let as_bytes = src_buffer.remove(0);
    assert(src_buffer.deep_view() =~= old_view.drop_first());

    if return_buf.len() < as_bytes.len() {
        count = return_buf.len();
        shift = false;
    }
    let ghost buf_before = return_buf@;
    let mut i: usize = 0;
    while i < count
        invariant
            i <= count,
            count <= as_bytes@.len(),
            count <= return_buf@.len(),
            return_buf@.len() == buf_before.len(),
            forall|j: int| 0 <= j < i ==> return_buf@[j] == as_bytes@[j],
            forall|j: int| count <= j < return_buf@.len() ==> return_buf@[j] == buf_before[j],
        decreases count - i,
    {
        return_buf[i] = as_bytes[i];
        i = i + 1;
    }
    assert(return_buf@.take(count as int) =~= as_bytes@.take(count as int));
    assert(return_buf@.skip(count as int) =~= buf_before.skip(count as int));

    if !shift {
        let mut head = as_bytes;
        let rest = head.split_off(count);
        assert(rest@ =~= as_bytes@.skip(count as int));
        let ghost mid = src_buffer.deep_view();
        src_buffer.insert(0, rest);
        let ghost target = seq![as_bytes@.skip(count as int)] + old_view.drop_first();
        assert(src_buffer.deep_view().len() == target.len());
        assert forall|j: int| 0 <= j < target.len() implies src_buffer.deep_view()[j] == target[j] by {
            if j == 0 {
                assert(src_buffer.deep_view()[0] == src_buffer@[0]@);
            } else {
                assert(src_buffer.deep_view()[j] == src_buffer@[j]@);
                assert(mid[j - 1] == target[j]);
            }
        }
        assert(src_buffer.deep_view() =~= target);
    }
    Result::Ok(count)
}

proof fn lemma_deep_view_push(before: Vec<Vec<u8>>, after: Vec<Vec<u8>>, x: Vec<u8>)
    requires
        after@ == before@.push(x),
    ensures
        after.deep_view() == before.deep_view().push(x@),
{
    let target = before.deep_view().push(x@);
    assert forall|j: int| 0 <= j < target.len() implies after.deep_view()[j] == target[j] by {
        assert(after.deep_view()[j] == after@[j]@);
        if j < before@.len() {
            assert(before.deep_view()[j] == before@[j]@);
        }
    }
    assert(after.deep_view() =~= target);
}

/// Reads complete lines from `rdr` and appends them to `process_buffer`
/// until it holds `consider_lines` lines or `rdr` has no further complete
/// line. Bytes read beyond the last line taken, if any, are appended to
/// `unprocessed` as one entry.
pub fn prepare_fill<R: ByteSource>(
    consider_lines: usize,
    rdr: &mut R,
    process_buffer: &mut Vec<Vec<u8>>,
    unprocessed: &mut Vec<Vec<u8>>,
) -> (r: Result<(), SourceError>)
    requires
        old(rdr).valid(),
    ensures
        final(rdr).valid(),
        old(rdr).infallible() ==> r is Ok && final(rdr).infallible(),
        final(process_buffer)@.len() >= old(process_buffer)@.len(),
        final(process_buffer).deep_view().take(old(process_buffer)@.len() as int) == old(
            process_buffer,
        ).deep_view(),
        r is Err ==> final(unprocessed)@ == old(unprocessed)@,
        final(process_buffer).deep_view() == old(process_buffer).deep_view() + window_lines(
            old(rdr).pending(),
            room_left(consider_lines, old(process_buffer)@.len()),
        ).take(final(process_buffer)@.len() - old(process_buffer)@.len()),
        room_left(consider_lines, old(process_buffer)@.len()) > 0 && old(rdr).chunk(
            CHUNK_SIZE as nat,
        ) == Some(old(rdr).pending().len()) && r is Ok ==> final(rdr).pending().len() == 0,
        old(process_buffer)@.len() >= consider_lines ==> r is Ok && *final(rdr) == *old(rdr)
            && final(process_buffer)@ == old(process_buffer)@
            && final(unprocessed)@ == old(unprocessed)@,
        r is Ok && window_lines(old(rdr).pending(), room_left(consider_lines, old(process_buffer)@.len())).len()
            < room_left(consider_lines, old(process_buffer)@.len()) ==> final(rdr).pending().len() == 0,
        r is Ok ==> ({
            let room = room_left(consider_lines, old(process_buffer)@.len());
            let rest = window_rest(old(rdr).pending(), room);
            let m = old(unprocessed)@.len();
            &&& final(process_buffer).deep_view() == old(process_buffer).deep_view()
                + window_lines(old(rdr).pending(), room)
            &&& final(unprocessed)@.len() == m ==> final(unprocessed).deep_view() == old(
                unprocessed,
            ).deep_view() && final(rdr).pending() == rest
            &&& final(unprocessed)@.len() != m ==> final(unprocessed)@.len() == m + 1
                && final(unprocessed).deep_view() == old(unprocessed).deep_view().push(
                final(unprocessed)@[m as int]@,
            ) && final(unprocessed)@[m as int]@.len() > 0 && final(unprocessed)@[m as int]@
                + final(rdr).pending() == rest
        }),
{
    let ghost s0 = rdr.pending();
    let ghost m0 = process_buffer@.len();
    let ghost pb0 = process_buffer.deep_view();
    let ghost room = room_left(consider_lines, m0);
    let ghost w = window_lines(s0, room);
    let ghost drains = old(rdr).chunk(CHUNK_SIZE as nat) == Some(old(rdr).pending().len());
    let ghost mut first_done = false;
    let mut did_read = true;
    let mut read_buffer: Vec<u8> = Vec::new();
    proof {
        assert(process_buffer.deep_view().skip(m0 as int) =~= Seq::<Seq<u8>>::empty());
        assert(Seq::<Seq<u8>>::empty().flatten() =~= Seq::<u8>::empty());
        assert(read_buffer@ + rdr.pending() =~= s0);
        assert(w =~= Seq::<Seq<u8>>::empty() + w);
    }
    while (process_buffer.len() < consider_lines) && did_read
        invariant
            rdr.valid(),
            old(rdr).infallible() ==> rdr.infallible(),
            m0 == old(process_buffer)@.len(),
            pb0 == old(process_buffer).deep_view(),
            s0 == old(rdr).pending(),
            m0 >= consider_lines ==> *rdr == *old(rdr) && process_buffer@ == old(process_buffer)@
                && read_buffer@.len() == 0,
            drains == (old(rdr).chunk(CHUNK_SIZE as nat) == Some(old(rdr).pending().len())),
            !first_done ==> *rdr == *old(rdr) && read_buffer@.len() == 0,
            drains && first_done ==> rdr.pending().len() == 0,
            room > 0 ==> first_done || (process_buffer@.len() < consider_lines && did_read),
            m0 <= process_buffer@.len(),
            process_buffer@.len() <= m0 + room,
            room == room_left(consider_lines, m0),
            process_buffer.deep_view().take(m0 as int) == pb0,
            s0 == process_buffer.deep_view().skip(m0 as int).flatten() + (read_buffer@
                + rdr.pending()),
            w == window_lines(s0, room),
            w == process_buffer.deep_view().skip(m0 as int) + window_lines(
                read_buffer@ + rdr.pending(),
                (room - (process_buffer@.len() - m0)) as nat,
            ),
            window_rest(s0, room) == window_rest(
                read_buffer@ + rdr.pending(),
                (room - (process_buffer@.len() - m0)) as nat,
            ),
            !did_read ==> line_len(read_buffer@) == 0 && rdr.pending().len() == 0,
        decreases (read_buffer@ + rdr.pending()).len() + if did_read {
            1int
        } else {
            0int
        },
    {
        let ghost p_before = rdr.pending();
        let ghost rb_before = read_buffer@;
        proof {
            if !first_done {
                assert(!has_boundary(read_buffer@));
            }
        }
        match fill(rdr, &mut read_buffer, CHUNK_SIZE) {
            Ok(()) => {},
            Err(e) => {
                return Err(e);
            },
        }
        proof {
            assert((read_buffer@ + rdr.pending()).len() == (rb_before + p_before).len());
            first_done = true;
        }
        let ghost round_rem = read_buffer@ + rdr.pending();
        let ghost round_len = process_buffer@.len();
        let mut added_length: usize = 1;
        did_read = false;
        while (process_buffer.len() < consider_lines) && added_length > 0
            invariant
                rdr.valid(),
                old(rdr).infallible() ==> rdr.infallible(),
                first_done,
                drains == (old(rdr).chunk(CHUNK_SIZE as nat) == Some(old(rdr).pending().len())),
                drains ==> rdr.pending().len() == 0,
                m0 <= round_len < m0 + room + 1,
                round_len < consider_lines,
                m0 <= process_buffer@.len(),
                process_buffer@.len() <= m0 + room,
                room == room_left(consider_lines, m0),
                process_buffer.deep_view().take(m0 as int) == pb0,
                s0 == process_buffer.deep_view().skip(m0 as int).flatten() + (read_buffer@
                    + rdr.pending()),
                w == window_lines(s0, room),
                w == process_buffer.deep_view().skip(m0 as int) + window_lines(
                    read_buffer@ + rdr.pending(),
                    (room - (process_buffer@.len() - m0)) as nat,
                ),
                window_rest(s0, room) == window_rest(
                    read_buffer@ + rdr.pending(),
                    (room - (process_buffer@.len() - m0)) as nat,
                ),
                (read_buffer@ + rdr.pending()).len() <= round_rem.len(),
                did_read ==> (read_buffer@ + rdr.pending()).len() < round_rem.len(),
                !did_read ==> process_buffer@.len() == round_len,
                !did_read ==> has_boundary(read_buffer@) || rdr.pending().len() == 0,
                added_length == 0 ==> line_len(read_buffer@) == 0,
            decreases read_buffer@.len() + if added_length > 0 {
                1int
            } else {
                0int
            },
        {
            let ghost rb = read_buffer@;
            let ghost rem = rb + rdr.pending();
            let ghost pv = process_buffer.deep_view();
            let ghost j = (room - (process_buffer@.len() - m0)) as nat;
            let line = get_line(&mut read_buffer);
            added_length = line.len();
            proof {
                lemma_line_len_bounds(rb, 1);
            }
            if added_length > 0 {
                proof {
                    let l = line_len(rb);
                    assert(rb =~= rem.take(rb.len() as int));
                    lemma_line_of_prefix(rem, rb, 1);
                    assert(line@ =~= rem.take(l));
                    assert(read_buffer@ + rdr.pending() =~= rem.skip(l));
                    assert(j > 0);
                    assert(window_lines(rem, j) == seq![rem.take(l)] + window_lines(
                        rem.skip(l),
                        (j - 1) as nat,
                    ));
                    assert(window_rest(rem, j) == window_rest(rem.skip(l), (j - 1) as nat));
                    assert(rem =~= rem.take(l) + rem.skip(l));
                }
                let ghost pb_before = *process_buffer;
                let ghost line_value = line;
                process_buffer.push(line);
                did_read = true;
                proof {
                    let l = line_len(rb);
                    let done = pv.skip(m0 as int);
                    lemma_deep_view_push(pb_before, *process_buffer, line_value);
                    assert(process_buffer.deep_view() == pv.push(rem.take(l)));
                    assert(process_buffer.deep_view().take(m0 as int) =~= pb0);
                    assert(process_buffer.deep_view().skip(m0 as int) =~= done.push(rem.take(l)));
                    done.lemma_flatten_push(rem.take(l));
                    assert(w =~= process_buffer.deep_view().skip(m0 as int) + window_lines(
                        rem.skip(l),
                        (j - 1) as nat,
                    ));
                }
            } else {
                assert(read_buffer@ =~= rb);
            }
        }
        proof {
            if !did_read {
                assert(line_len(read_buffer@) == 0);
                if has_boundary(read_buffer@) {
                    let b = choose|b: int|
                        1 <= b < read_buffer@.len() && #[trigger] crate::lines::is_terminator(
                            read_buffer@[b - 1],
                        );
                    lemma_boundary_gives_line(read_buffer@, 1, b);
                }
            }
        }
    }
    proof {
        let rem = read_buffer@ + rdr.pending();
        let j = (room - (process_buffer@.len() - m0)) as nat;
        lemma_line_len_bounds(rem, 1);
        if did_read {
            assert(j == 0);
        } else {
            assert(rem =~= read_buffer@);
        }
        assert(window_lines(rem, j) =~= Seq::<Seq<u8>>::empty());
        assert(window_rest(rem, j) == rem);
        assert(process_buffer.deep_view() =~= process_buffer.deep_view().take(m0 as int)
            + process_buffer.deep_view().skip(m0 as int));
    }
    if read_buffer.len() > 0 {
        let ghost before = *unprocessed;
        let ghost leftover = read_buffer;
        unprocessed.push(read_buffer);
        proof {
            lemma_deep_view_push(before, *unprocessed, leftover);
        }
    }
    Result::Ok(())
}

/// Whether every entry of `q` holds at least one byte.
pub open spec fn all_nonempty(q: Seq<Seq<u8>>) -> bool {
    forall|j: int| 0 <= j < q.len() ==> (#[trigger] q[j]).len() > 0
}

proof fn lemma_deep_view_skip(before: Vec<Vec<u8>>, after: Vec<Vec<u8>>, h: int)
    requires
        0 <= h <= before@.len(),
        after@ == before@.skip(h),
    ensures
        after.deep_view() == before.deep_view().skip(h),
{
    let target = before.deep_view().skip(h);
    assert forall|j: int| 0 <= j < target.len() implies after.deep_view()[j] == target[j] by {
        assert(after.deep_view()[j] == after@[j]@);
        assert(before.deep_view()[j + h] == before@[j + h]@);
    }
    assert(after.deep_view() =~= target);
}

/// Reading `n` bytes from the front of a queue of byte strings, as
/// `read_from_buffer` does, takes them from the front of the queue's bytes
/// followed by whatever comes after the queue.
proof fn lemma_queue_front(q: Seq<Seq<u8>>, n: int, after: Seq<Seq<u8>>, tail: Seq<u8>)
    requires
        q.len() > 0,
        all_nonempty(q),
        0 <= n <= q[0].len(),
        n == q[0].len() ==> after == q.drop_first(),
        n < q[0].len() ==> after == seq![q[0].skip(n)] + q.drop_first(),
    ensures
        after.flatten() + tail == (q.flatten() + tail).skip(n),
        (q.flatten() + tail).take(n) == q[0].take(n),
        n <= (q.flatten() + tail).len(),
        all_nonempty(after),
{
    assert(q.flatten() == q[0] + q.drop_first().flatten());
    if n < q[0].len() {
        let a = seq![q[0].skip(n)] + q.drop_first();
        assert(a.flatten() == a[0] + a.drop_first().flatten());
        assert(a.drop_first() =~= q.drop_first());
        assert(a.flatten() + tail =~= (q.flatten() + tail).skip(n));
        assert forall|j: int| 0 <= j < a.len() implies (#[trigger] a[j]).len() > 0 by {
            if j > 0 {
                assert(a[j] == q[j]);
            }
        }
    } else {
        assert(after.flatten() + tail =~= (q.flatten() + tail).skip(n));
        assert forall|j: int| 0 <= j < after.len() implies (#[trigger] after[j]).len() > 0 by {
            assert(after[j] == q[j + 1]);
        }
    }
    assert((q.flatten() + tail).take(n) =~= q[0].take(n));
}

/// A reader that cuts the lines before a delimited-text stream's header off
/// and passes the rest through unchanged.
///
/// On the first read it takes up to `consider_lines` complete lines from the
/// underlying source, picks as header the earliest of them with the most
/// fields under `field_seperator`, and from then on hands out the header,
/// the lines after it, the bytes read ahead, and then the source's own bytes.
pub struct Blade<R: ByteSource> {
    rdr: R,
    field_seperator: u8,
    buffer: Vec<Vec<u8>>,
    unprocessed: Vec<Vec<u8>>,
    prepared: bool,
    consider_lines: usize,
}

impl<R: ByteSource> Blade<R> {
    /// The delimiter by which fields are counted.
    pub closed spec fn delimiter(&self) -> u8 {
        self.field_seperator
    }

    /// The number of lines looked at to find the header.
    pub closed spec fn window_size(&self) -> usize {
        self.consider_lines
    }

    /// Whether the lookahead has been done.
    pub closed spec fn is_prepared(&self) -> bool {
        self.prepared
    }

    /// The lines still to hand out, the header first.
    pub closed spec fn queue(&self) -> Seq<Seq<u8>> {
        self.buffer.deep_view()
    }

    /// The bytes read ahead beyond the window and not yet handed out.
    pub closed spec fn leftover(&self) -> Seq<Seq<u8>> {
        self.unprocessed.deep_view()
    }

    /// The underlying source.
    pub closed spec fn source(&self) -> R {
        self.rdr
    }

    fn prepare(&mut self) -> (r: Result<usize, SourceError>)
        requires
            !old(self).prepared,
            old(self).valid(),
        ensures
            final(self).valid(),
            final(self).prepared == old(self).prepared || r is Ok,
            final(self).field_seperator == old(self).field_seperator,
            final(self).consider_lines == old(self).consider_lines,
            old(self).rdr.infallible() ==> r is Ok && final(self).rdr.infallible(),
            r is Err ==> final(self).buffer@ == old(self).buffer@
                && final(self).unprocessed@ == old(self).unprocessed@,
            r is Ok ==> final(self).prepared,
            r is Ok ==> final(self).pending() == old(self).pending(),
            r is Ok ==> ({
                let s0 = old(self).rdr.pending();
                let k = old(self).consider_lines as nat;
                let h = selected_header(s0, old(self).field_seperator, k);
                &&& final(self).buffer.deep_view() == window_lines(s0, k).skip(h)
                &&& r->Ok_0 == final(self).buffer@.len()
                &&& final(self).unprocessed@.len() <= 1
                &&& final(self).unprocessed.deep_view().flatten() + final(self).rdr.pending()
                    == window_rest(s0, k)
            }),
    {
        let ghost s0 = self.rdr.pending();
        let ghost k = self.consider_lines as nat;
        let mut process_buffer: Vec<Vec<u8>> = Vec::new();
        let mut unprocessed: Vec<Vec<u8>> = Vec::new();
        match prepare_fill(self.consider_lines, &mut self.rdr, &mut process_buffer, &mut unprocessed) {
            Ok(()) => {},
            Err(e) => {
                return Err(e);
            },
        }
        proof {
            assert(process_buffer.deep_view() =~= window_lines(s0, k));
            assert(unprocessed@.len() > 0 ==> unprocessed.deep_view()[0] == unprocessed@[0]@);
            assert(room_left(self.consider_lines, 0) == k);
            if unprocessed@.len() > 0 {
                assert(unprocessed.deep_view() =~= seq![unprocessed@[0]@]);
                assert(unprocessed.deep_view().flatten() == unprocessed@[0]@
                    + unprocessed.deep_view().drop_first().flatten());
                assert(unprocessed.deep_view().drop_first() =~= Seq::<Seq<u8>>::empty());
                assert(unprocessed@[0]@ + Seq::<u8>::empty() =~= unprocessed@[0]@);
            } else {
                assert(unprocessed.deep_view() =~= Seq::<Seq<u8>>::empty());
            }
            assert(unprocessed.deep_view().flatten() + self.rdr.pending() == window_rest(s0, k));
        }
        self.unprocessed = unprocessed;
        let max_line = select_header(&process_buffer, self.field_seperator);
        proof {
            lemma_window_splits_stream(s0, k);
            if k >= 1 {
                lemma_header_within_window(s0, self.field_seperator, k);
            }
        }
        let ghost pb = process_buffer;
        let tail = process_buffer.split_off(max_line);
        proof {
            lemma_deep_view_skip(pb, tail, max_line as int);
            let w = window_lines(s0, k);
            assert forall|j: int| 0 <= j < tail.deep_view().len() implies (
            #[trigger] tail.deep_view()[j]).len() > 0 by {
                assert(tail.deep_view()[j] == w[j + max_line]);
            }
        }
        self.buffer = tail;
        self.prepared = true;
        Result::Ok(self.buffer.len())
    }

    /// A reader over `reader` that counts fields by `field_seperator` and
    /// looks for the header among the first `consider_lines` lines.
    pub fn new(reader: R, field_seperator: u8, consider_lines: usize) -> (r: Blade<R>)
        requires
            reader.valid(),
        ensures
            r.valid(),
            r.infallible() == reader.infallible(),
            r.pending() == trimmed(reader.pending(), field_seperator, consider_lines as nat),
            r.delimiter() == field_seperator,
            r.window_size() == consider_lines,
            !r.is_prepared(),
            r.queue().len() == 0,
            r.leftover().len() == 0,
            r.source() == reader,
    {
        let r = Blade {
            rdr: reader,
            field_seperator,
            unprocessed: Vec::new(),
            buffer: Vec::new(),
            prepared: false,
            consider_lines,
        };
        assert(r.buffer.deep_view() =~= Seq::<Seq<u8>>::empty());
        assert(r.unprocessed.deep_view() =~= Seq::<Seq<u8>>::empty());
        r
    }

    fn read_rest(&mut self, return_buf: &mut [u8]) -> (r: Result<usize, SourceError>)
        requires
            old(self).prepared,
            old(self).buffer@.len() == 0,
            old(self).valid(),
        ensures
            final(self).valid(),
            final(self).prepared,
            final(self).buffer@.len() == 0,
            final(self).field_seperator == old(self).field_seperator,
            final(self).consider_lines == old(self).consider_lines,
            old(self).rdr.infallible() ==> r is Ok && final(self).rdr.infallible(),
            r is Ok && old(self).chunk(old(return_buf)@.len()) is Some ==> r->Ok_0 == old(
                self,
            ).chunk(old(return_buf)@.len())->Some_0,
            old(self).unprocessed@.len() > 0 ==> r is Ok && final(self).rdr == old(self).rdr
                && r->Ok_0 == if old(return_buf)@.len() < old(self).unprocessed@[0]@.len() {
                old(return_buf)@.len()
            } else {
                old(self).unprocessed@[0]@.len()
            },
            old(self).unprocessed@.len() > 0 ==> ({
                let first = old(self).unprocessed.deep_view()[0];
                let n = r->Ok_0;
                &&& final(return_buf)@.take(n as int) == first.take(n as int)
                &&& n == first.len() ==> final(self).unprocessed.deep_view() == old(
                    self,
                ).unprocessed.deep_view().drop_first()
                &&& n < first.len() ==> final(self).unprocessed.deep_view() == seq![
                    first.skip(n as int),
                ] + old(self).unprocessed.deep_view().drop_first()
            }),
            old(self).unprocessed@.len() == 0 ==> final(self).unprocessed@.len() == 0,
            final(return_buf)@.len() == old(return_buf)@.len(),
            r is Ok ==> r->Ok_0 <= old(return_buf)@.len(),
            r is Ok ==> final(return_buf)@.skip(r->Ok_0 as int) == old(return_buf)@.skip(
                r->Ok_0 as int,
            ),
            r is Ok ==> r->Ok_0 <= old(self).pending().len(),
            r is Ok ==> final(return_buf)@.take(r->Ok_0 as int) == old(self).pending().take(
                r->Ok_0 as int,
            ),
            r is Ok ==> final(self).pending() == old(self).pending().skip(r->Ok_0 as int),
            r is Ok && r->Ok_0 == 0 ==> old(return_buf)@.len() == 0 || old(self).pending().len()
                == 0,
    {
        proof {
            assert(self.buffer.deep_view() =~= Seq::<Seq<u8>>::empty());
            assert(self.buffer.deep_view().flatten() =~= Seq::<u8>::empty());
            assert(self.pending() =~= self.unprocessed.deep_view().flatten() + self.rdr.pending());
        }
        let length = self.unprocessed.len();
        if length > 0 {
            let ghost q = self.unprocessed.deep_view();
            let ghost first = self.unprocessed@[0]@;
            let ghost tail = self.rdr.pending();
            assert(q[0] == first);
            let r = read_from_buffer(&mut self.unprocessed, return_buf);
            proof {
                let n = r->Ok_0 as int;
                lemma_queue_front(q, n, self.unprocessed.deep_view(), tail);
                assert(self.pending() =~= self.unprocessed.deep_view().flatten() + tail);
            }
            return r;
        }
        proof {
            assert(self.unprocessed.deep_view() =~= Seq::<Seq<u8>>::empty());
            assert(self.unprocessed.deep_view().flatten() =~= Seq::<u8>::empty());
            assert(self.pending() =~= self.rdr.pending());
        }
        let r = self.rdr.read(return_buf);
        proof {
            assert(self.pending() =~= self.rdr.pending());
        }
        r
    }
}

impl<R: ByteSource> ByteSource for Blade<R> {
    /// The underlying source is consistent, nothing is queued before the
    /// lookahead, and no queued entry is empty.
    closed spec fn valid(&self) -> bool {
        &&& self.rdr.valid()
        &&& !self.prepared ==> self.buffer@.len() == 0 && self.unprocessed@.len() == 0
        &&& all_nonempty(self.buffer.deep_view())
        &&& all_nonempty(self.unprocessed.deep_view())
    }

    /// Every read succeeds when every read of the underlying source does.
    closed spec fn infallible(&self) -> bool {
        self.rdr.infallible()
    }

    /// After the first read, while lines or read-ahead bytes are queued,
    /// a read is served from them and cannot fail.
    closed spec fn can_read(&self) -> bool {
        self.prepared && (self.buffer@.len() > 0 || self.unprocessed@.len() > 0)
    }

    /// While lines are queued, a read takes as much of the first as fits;
    /// then as much of the read-ahead bytes as fits; then the underlying
    /// source decides.
    closed spec fn chunk(&self, cap: nat) -> Option<nat> {
        if !self.prepared {
            None
        } else if self.buffer@.len() > 0 {
            Some(if cap < self.buffer@[0]@.len() {
                cap
            } else {
                self.buffer@[0]@.len()
            })
        } else if self.unprocessed@.len() > 0 {
            Some(if cap < self.unprocessed@[0]@.len() {
                cap
            } else {
                self.unprocessed@[0]@.len()
            })
        } else {
            self.rdr.chunk(cap)
        }
    }

    /// Before the first read: the underlying stream with the lines before
    /// its header cut off. After it: the lines kept from the window, the
    /// bytes read ahead, and what the underlying source has yet to deliver.
    closed spec fn pending(&self) -> Seq<u8> {
        if self.prepared {
            self.buffer.deep_view().flatten() + (self.unprocessed.deep_view().flatten()
                + self.rdr.pending())
        } else {
            trimmed(self.rdr.pending(), self.field_seperator, self.consider_lines as nat)
        }
    }

    fn read(&mut self, return_buf: &mut [u8]) -> (r: Result<usize, SourceError>)
        ensures
            final(self).delimiter() == old(self).delimiter(),
            final(self).window_size() == old(self).window_size(),
            old(self).is_prepared() ==> final(self).is_prepared(),
            r is Ok ==> final(self).is_prepared(),
            r is Err ==> final(self).queue() == old(self).queue() && final(self).leftover() == old(
                self,
            ).leftover(),
            r is Err && old(self).is_prepared() ==> old(self).queue().len() == 0 && old(
                self,
            ).leftover().len() == 0,
            r is Err ==> final(self).queue().len() == 0 && final(self).leftover().len() == 0,
            r is Err && !final(self).is_prepared() ==> final(return_buf)@ == old(return_buf)@,
            old(self).is_prepared() && old(self).queue().len() > 0 ==> ({
                let first = old(self).queue()[0];
                let n = r->Ok_0;
                &&& r is Ok
                &&& n == if old(return_buf)@.len() < first.len() {
                    old(return_buf)@.len()
                } else {
                    first.len()
                }
                &&& final(return_buf)@.take(n as int) == first.take(n as int)
                &&& n == first.len() ==> final(self).queue() == old(self).queue().drop_first()
                &&& n < first.len() ==> final(self).queue() == seq![first.skip(n as int)] + old(
                    self,
                ).queue().drop_first()
                &&& final(self).leftover() == old(self).leftover()
                &&& final(self).source() == old(self).source()
            }),
            old(self).is_prepared() && old(self).queue().len() == 0 && old(self).leftover().len()
                > 0 ==> ({
                let first = old(self).leftover()[0];
                let n = r->Ok_0;
                &&& r is Ok
                &&& n == if old(return_buf)@.len() < first.len() {
                    old(return_buf)@.len()
                } else {
                    first.len()
                }
                &&& final(return_buf)@.take(n as int) == first.take(n as int)
                &&& n == first.len() ==> final(self).leftover() == old(self).leftover().drop_first()
                &&& n < first.len() ==> final(self).leftover() == seq![first.skip(n as int)] + old(
                    self,
                ).leftover().drop_first()
                &&& final(self).queue().len() == 0
                &&& final(self).source() == old(self).source()
            }),
            old(self).is_prepared() && old(self).queue().len() == 0 && old(self).leftover().len()
                == 0 ==> final(self).queue().len() == 0 && final(self).leftover().len() == 0,
    {
        if !self.prepared {
            match self.prepare() {
                Ok(_) => {},
                Err(e) => {
                    return Err(e);
                },
            }
        }
        if self.buffer.is_empty() {
            return self.read_rest(return_buf);
        }
        let ghost q = self.buffer.deep_view();
        let ghost first = self.buffer@[0]@;
        let ghost tail = self.unprocessed.deep_view().flatten() + self.rdr.pending();
        assert(q[0] == first);
        let r = read_from_buffer(&mut self.buffer, return_buf);
        proof {
            let n = r->Ok_0 as int;
            lemma_queue_front(q, n, self.buffer.deep_view(), tail);
        }
        r
    }
}

} // verus!
