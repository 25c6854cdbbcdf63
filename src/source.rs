use vstd::prelude::*;

use crate::lines::str_to_vec;

verus! {

/// An error reported by a byte source, carried with its description.
#[derive(Debug)]
pub struct SourceError {
    pub message: String,
}

/// A source of bytes read in chunks, in the manner of `std::io::Read`.
///
/// The sources of this library model their bytes through `valid` and
/// `pending`, and their `read` is proved against that model. A source
/// written outside the verified library (over a file or a socket) keeps
/// the defaults below and implements `read` alone. Its `pending` is then
/// one fixed unknown sequence, which no read that returns bytes can match:
/// the contract below does not hold of such a source, and nothing proved
/// of a reader built on it carries over to it.
pub trait ByteSource {
    /// Whether the source's internal state is consistent.
    open spec fn valid(&self) -> bool {
        true
    }

    /// The bytes this source will still deliver, in order, up to its end.
    open spec fn pending(&self) -> Seq<u8> {
        arbitrary()
    }

    /// Whether every read of this source succeeds, now and later.
    open spec fn infallible(&self) -> bool {
        false
    }

    /// Whether the next read succeeds, whatever the source's own state.
    open spec fn can_read(&self) -> bool {
        false
    }

    /// How many bytes a successful next read puts into a destination of
    /// `cap` bytes, where the source fixes it.
    open spec fn chunk(&self, cap: nat) -> Option<nat> {
        None
    }

    /// Reads up to `buf.len()` bytes into the front of `buf` and returns how
    /// many were read. Those are the next pending bytes. A result of 0 means
    /// that `buf` is empty or that the source has reached its end.
    fn read(&mut self, buf: &mut [u8]) -> (r: Result<usize, SourceError>)
        requires
            old(self).valid(),
        ensures
            final(self).valid(),
            old(self).infallible() ==> r is Ok && final(self).infallible(),
            old(self).can_read() ==> r is Ok,
            final(buf)@.len() == old(buf)@.len(),
            r is Ok ==> r->Ok_0 <= old(buf)@.len(),
            r is Ok && old(self).chunk(old(buf)@.len()) is Some ==> r->Ok_0 == old(self).chunk(
                old(buf)@.len(),
            )->Some_0,
            r is Ok ==> final(buf)@.skip(r->Ok_0 as int) == old(buf)@.skip(r->Ok_0 as int),
            r is Ok ==> r->Ok_0 <= old(self).pending().len(),
            r is Ok ==> final(buf)@.take(r->Ok_0 as int) == old(self).pending().take(
                r->Ok_0 as int,
            ),
            r is Ok ==> final(self).pending() == old(self).pending().skip(r->Ok_0 as int),
            r is Ok && r->Ok_0 == 0 ==> old(buf)@.len() == 0 || old(self).pending().len() == 0,
    ;
}

/// Size of the chunks in which `read_all` reads.
pub const READ_ALL_CHUNK: usize = 1024;

/// Reads `src` to its end and returns every byte it delivered, in order:
/// exactly the bytes that were pending.
pub fn read_all<S: ByteSource>(src: &mut S) -> (r: Result<Vec<u8>, SourceError>)
    requires
        old(src).valid(),
    ensures
        final(src).valid(),
        old(src).infallible() ==> r is Ok,
        r is Ok ==> r->Ok_0@ == old(src).pending(),
        r is Ok ==> final(src).pending().len() == 0,
{
    let ghost start = src.pending();
    let mut out: Vec<u8> = Vec::new();
    let mut buf: Vec<u8> = vec![0u8; READ_ALL_CHUNK];
    loop
        invariant
            src.valid(),
            old(src).infallible() ==> src.infallible(),
            start == old(src).pending(),
            out@ + src.pending() == start,
            buf@.len() == READ_ALL_CHUNK,
        decreases src.pending().len(),
    {
        let ghost before = src.pending();
        let n = match src.read(buf.as_mut_slice()) {
            Ok(n) => n,
            Err(e) => {
                return Err(e);
            },
        };
        if n == 0 {
            assert(before.len() == 0);
            assert(src.pending() =~= before.skip(0));
            assert(out@ + src.pending() =~= out@);
            return Ok(out);
        }
        let ghost out_before = out@;
        let mut i: usize = 0;
        while i < n
            invariant
                i <= n,
                n <= buf@.len(),
                out@ == out_before + buf@.take(i as int),
            decreases n - i,
        {
            out.push(buf[i]);
            i = i + 1;
            assert(out@ =~= out_before + buf@.take(i as int));
        }
        assert(out@ + src.pending() =~= out_before + before);
    }
}

/// How many bytes one read hands out when `remaining` bytes are left, the
/// destination holds `cap`, and each read is bounded by `limit`, if any.
pub open spec fn read_size(remaining: nat, cap: nat, limit: Option<usize>) -> nat {
    let fitted = if remaining > cap {
        cap
    } else {
        remaining
    };
    match limit {
        Some(m) => if fitted > m as nat {
            m as nat
        } else {
            fitted
        },
        None => fitted,
    }
}

/// A byte source over an in-memory string, which can hand out its bytes in
/// chunks of a bounded size to imitate a source that delivers short reads.
pub struct FakeCsvReader {
    src: Vec<u8>,
    pos: usize,
    max_read: Option<usize>,
}

impl FakeCsvReader {
    /// The bound on the bytes handed out by one read, if any.
    pub closed spec fn read_limit(&self) -> Option<usize> {
        self.max_read
    }

    /// Each read hands out as many bytes as remain, fit the destination,
    /// and the per-read bound allows.
    pub proof fn lemma_read_size(&self, cap: nat)
        requires
            self.valid(),
        ensures
            self.chunk(cap) == Some(read_size(self.pending().len(), cap, self.read_limit())),
    {
    }

    /// A source over `strng` that hands out at most `size` bytes per read.
    pub fn new_by_size(strng: String, size: usize) -> (r: FakeCsvReader)
        requires
            size > 0,
        ensures
            r.valid(),
            r.infallible(),
            r.read_limit() == Some(size),
            r.pending() == vstd::utf8::encode_utf8(strng@),
            forall|cap: nat|
                #[trigger] r.chunk(cap) == Some(
                    read_size(vstd::utf8::encode_utf8(strng@).len(), cap, Some(size)),
                ),
    {
        return FakeCsvReader { src: str_to_vec(strng), pos: 0, max_read: Option::Some(size) };
    }

    /// A source over `strng` that fills every read as far as it can.
    pub fn new(strng: String) -> (r: FakeCsvReader)
        ensures
            r.valid(),
            r.infallible(),
            r.read_limit() == None::<usize>,
            r.pending() == vstd::utf8::encode_utf8(strng@),
            forall|cap: nat|
                #[trigger] r.chunk(cap) == Some(
                    read_size(vstd::utf8::encode_utf8(strng@).len(), cap, None),
                ),
    {
        return FakeCsvReader { src: str_to_vec(strng), pos: 0, max_read: Option::None };
    }
}

impl ByteSource for FakeCsvReader {
    closed spec fn valid(&self) -> bool {
        &&& self.pos <= self.src@.len()
        &&& self.max_read != Some(0usize)
    }

    closed spec fn pending(&self) -> Seq<u8> {
        self.src@.skip(self.pos as int)
    }

    /// Reading from memory never fails.
    closed spec fn infallible(&self) -> bool {
        true
    }

    /// A read hands out as many bytes as remain, fit the destination, and
    /// the per-read bound allows.
    closed spec fn chunk(&self, cap: nat) -> Option<nat> {
        Some(read_size(self.pending().len(), cap, self.max_read))
    }

    fn read(&mut self, buf: &mut [u8]) -> (r: Result<usize, SourceError>)
        ensures
            final(self).read_limit() == old(self).read_limit(),
    {
        let mut to_read = self.src.len() - self.pos;
        if to_read > buf.len() {
            to_read = buf.len();
        }
        match self.max_read {
            Some(m) => {
                if to_read > m {
                    to_read = m;
                }
            },
            None => {},
        }
        if to_read == 0 {
            assert(buf@.skip(0) =~= buf@);
            return Result::Ok(0);
        }
        let ghost before = buf@;
        assert(self.src@.len() == self.src.len());
        let mut i: usize = 0;
        while i < to_read
            invariant
                i <= to_read,
                to_read <= buf@.len(),
                self.pos + to_read <= self.src@.len(),
                self.src@.len() <= usize::MAX,
                buf@.len() == before.len(),
                forall|j: int| 0 <= j < i ==> buf@[j] == self.src@[self.pos + j],
                forall|j: int| to_read <= j < buf@.len() ==> buf@[j] == before[j],
            decreases to_read - i,
        {
            buf[i] = self.src[i + self.pos];
            i = i + 1;
        }
        assert(buf@.take(to_read as int) =~= self.src@.skip(self.pos as int).take(
            to_read as int,
        ));
        assert(buf@.skip(to_read as int) =~= before.skip(to_read as int));
        let ghost old_pos = self.pos;
        self.pos = self.pos + to_read;
        assert(self.src@.skip(self.pos as int) =~= self.src@.skip(old_pos as int).skip(
            to_read as int,
        ));
        Result::Ok(to_read)
    }
}

} // verus!
