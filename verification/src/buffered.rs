use vstd::prelude::*;

use crate::errors::ClusterError;
use crate::search::{
    append_slice, find_stopper, first_match, has_match, is_first_match, lemma_first_match,
    lemma_first_match_unique, lemma_occurs_in_window, longest_prefix_suffix, occurs_at,
};
use vstd::slice::{slice_subrange, slice_to_vec};

verus! {

/// Buffer size used throughout the library.
pub const BUFFER_SIZE: usize = 8 * 1024;

/// An in-memory buffered reader: a byte source read chunk by chunk. `pos` is
/// the read cursor and `cap` bounds how many bytes one `fill_buf` hands out.
pub struct ChunkReader {
    pub data: Vec<u8>,
    pub pos: usize,
    pub cap: usize,
}

impl ChunkReader {
    pub open spec fn wf(&self) -> bool {
        self.pos <= self.data@.len() && self.cap >= 1
    }

    /// The bytes not yet consumed.
    pub open spec fn remaining(&self) -> Seq<u8> {
        self.data@.subrange(self.pos as int, self.data@.len() as int)
    }

    pub fn new(data: Vec<u8>, cap: usize) -> (r: ChunkReader)
        requires
            cap >= 1,
        ensures
            r.data@ == data@,
            r.pos == 0,
            r.cap == cap,
            r.wf(),
    {
        ChunkReader { data, pos: 0, cap }
    }

    /// The next chunk: at most `cap` bytes, starting at the cursor.
    pub fn fill_buf(&self) -> (chunk: Vec<u8>)
        requires
            self.wf(),
        ensures
            chunk@.len() == if self.remaining().len() < self.cap {
                self.remaining().len() as int
            } else {
                self.cap as int
            },
            chunk@ == self.remaining().subrange(0, chunk@.len() as int),
    {
        let end: usize = if self.data.len() - self.pos >= self.cap {
            self.pos + self.cap
        } else {
            self.data.len()
        };
        let s = slice_subrange(self.data.as_slice(), self.pos, end);
        let v = slice_to_vec(s);
        proof {
            assert(v@ =~= self.remaining().subrange(0, v@.len() as int));
        }
        v
    }

    /// Advance the cursor by `amt` bytes.
    pub fn consume(&mut self, amt: usize)
        requires
            old(self).wf(),
            amt <= old(self).data@.len() - old(self).pos,
        ensures
            final(self).data@ == old(self).data@,
            final(self).cap == old(self).cap,
            final(self).pos == old(self).pos + amt,
    {
        let n = self.data.len();
        assert(self.pos + amt <= n);
        self.pos = self.pos + amt;
    }

    /// Read exactly `n` bytes, or fail without moving the cursor.
    pub fn read_exact(&mut self, n: usize) -> (r: Result<Vec<u8>, ClusterError>)
        requires
            old(self).wf(),
        ensures
            final(self).data@ == old(self).data@,
            final(self).cap == old(self).cap,
            final(self).wf(),
            old(self).remaining().len() >= n ==> (r matches Ok(v) && v@ == old(self).remaining().subrange(0, n as int)
                && final(self).pos == old(self).pos + n),
            old(self).remaining().len() < n ==> (r matches Err(e) && e == ClusterError::Io
                && final(self).pos == old(self).pos),
    {
        if self.data.len() - self.pos < n {
            return Err(ClusterError::Io);
        }
        let s = slice_subrange(self.data.as_slice(), self.pos, self.pos + n);
        let v = slice_to_vec(s);
        self.pos = self.pos + n;
        proof {
            assert(v@ =~= old(self).remaining().subrange(0, n as int));
        }
        Ok(v)
    }

    /// Read the bytes up to the first newline, consuming them and the
    /// newline itself; fail without moving the cursor when no newline is left.
    pub fn read_line(&mut self) -> (r: Result<Vec<u8>, ClusterError>)
        requires
            old(self).wf(),
        ensures
            final(self).data@ == old(self).data@,
            final(self).cap == old(self).cap,
            final(self).wf(),
            r matches Ok(v) ==> {
                let rem = old(self).remaining();
                &&& v@.len() < rem.len()
                &&& v@ == rem.subrange(0, v@.len() as int)
                &&& rem[v@.len() as int] == 10u8
                &&& forall|j: int| 0 <= j < v@.len() ==> rem[j] != 10u8
                &&& final(self).pos == old(self).pos + v@.len() + 1
            },
            r matches Err(e) ==> {
                &&& e == ClusterError::Io
                &&& final(self).pos == old(self).pos
                &&& forall|j: int|
                    0 <= j < old(self).remaining().len() ==> old(self).remaining()[j] != 10u8
            },
    {
        let s = slice_subrange(self.data.as_slice(), self.pos, self.data.len());
        proof {
            assert(s@ == self.remaining());
        }
        match crate::search::find_byte(s, 10u8) {
            Some(i) => {
                let v = slice_to_vec(slice_subrange(s, 0, i));
                self.pos = self.pos + i + 1;
                proof {
                    assert(v@ =~= old(self).remaining().subrange(0, v@.len() as int));
                }
                Ok(v)
            },
            None => Err(ClusterError::Io),
        }
    }
}

/// Cross-chunk scanning state of the streamer, as of the chunk last processed.
#[derive(Clone, Copy, Debug, PartialEq, Eq, Structural)]
pub enum StreamerStatus {
    /// The last bytes of the chunk matched a prefix of the stopper; the value
    /// is that prefix's length, to be continued in the next chunk.
    StopperPrefixFound(usize),
    /// The stopper was found; the value is its index within the chunk.
    StopperFound(usize),
    /// The stopper's tail completed a prefix held back from earlier chunks;
    /// the value is the length of that tail.
    StopperExtendsFromPrevious(usize),
    /// Held-back bytes turned out not to start the stopper after all; they
    /// were flushed to the writer.
    PreviousBytesWasted,
    /// No part of the stopper was seen at the end of this chunk.
    StopperNotFound,
}

/// Scan state of the streamer after `k` of the source bytes were consumed,
/// with `p` consumed bytes held back as a possible start of the stopper:
/// the held-back bytes are a proper prefix of the stopper, no occurrence of
/// the stopper ends within the consumed region, and the held-back prefix is
/// the longest suffix of the consumed region that could still grow into the
/// stopper.
spec fn scan_inv(input: Seq<u8>, stop: Seq<u8>, k: int, p: int) -> bool {
    &&& 0 <= p < stop.len()
    &&& p <= k <= input.len()
    &&& input.subrange(k - p, k) == stop.subrange(0, p)
    &&& forall|j: int| 0 <= j && j + stop.len() <= k ==> !occurs_at(input, stop, j)
    &&& forall|q: int|
        p < q < stop.len() && q <= k ==> input.subrange(k - q, k) != stop.subrange(0, q)
}

/// No occurrence of the stopper can start strictly before the held-back
/// prefix: earlier starts either end inside the consumed region (excluded) or
/// would be a longer live prefix than the one held back (excluded).
proof fn lemma_no_early_match(input: Seq<u8>, stop: Seq<u8>, k: int, p: int, j: int)
    requires
        stop.len() >= 1,
        scan_inv(input, stop, k, p),
        0 <= j < k - p,
    ensures
        !occurs_at(input, stop, j),
{
    if occurs_at(input, stop, j) {
        if j + stop.len() <= k {
            assert(false);
        } else {
            let q = k - j;
            assert(p < q < stop.len() && q <= k);
            assert(input.subrange(k - q, k) =~= stop.subrange(0, q)) by {
                assert forall|idx: int| 0 <= idx < q implies input[k - q + idx] == stop[idx] by {
                    assert(input.subrange(j, j + stop.len() as int)[idx] == stop[idx]);
                }
            }
            assert(false);
        }
    }
}

/// A "streamer" used on read/write halves for streaming stuff (like files or
/// command output). It copies bytes from the reader to the writer until it
/// encounters the stop bytes ("magic"); it consumes those bytes, does not
/// write them, and leaves the reader's cursor just after them. Empty stop
/// bytes mean "copy until the end of the source".
pub struct StreamingBuffer {
    pub reader: ChunkReader,
    pub writer: Vec<u8>,
    pub stop_bytes: Vec<u8>,
    pub prev_bytes_unwritten: Vec<u8>,
    pub status: StreamerStatus,
}

impl StreamingBuffer {
    pub open spec fn wf(&self) -> bool {
        self.reader.wf() && self.prev_bytes_unwritten@.len() == 0
    }

    pub fn new(reader: ChunkReader, writer: Vec<u8>, stop_bytes: Vec<u8>) -> (r: StreamingBuffer)
        requires
            reader.wf(),
        ensures
            r.wf(),
            r.reader.data@ == reader.data@,
            r.reader.pos == reader.pos,
            r.reader.cap == reader.cap,
            r.writer@ == writer@,
            r.stop_bytes@ == stop_bytes@,
    {
        StreamingBuffer {
            reader,
            writer,
            stop_bytes,
            prev_bytes_unwritten: Vec::new(),
            status: StreamerStatus::StopperNotFound,
        }
    }

    /// Start streaming; on completion the read and write halves are handed
    /// back.
    ///
    /// With empty stop bytes the whole source reaches the writer and the
    /// cursor ends at the end of the source. With nonempty stop bytes, the
    /// bytes strictly before the first occurrence of the stopper reach the
    /// writer — never any byte of that occurrence — and the cursor ends
    /// immediately after it; when the stopper never occurs, every source byte
    /// (held-back false alarms included) reaches the writer at its original
    /// position, and the cursor ends at the end of the source. This holds for
    /// every chunk capacity, including capacities smaller than the stopper,
    /// which may straddle any number of chunks.
    #[verifier::loop_isolation(false)]
    #[verifier::rlimit(100)]
    pub fn stream(self) -> (out: (ChunkReader, Vec<u8>, bool))
        requires
            self.wf(),
        ensures
            out.2 == (self.stop_bytes@.len() >= 1 && has_match(
                self.reader.remaining(),
                self.stop_bytes@,
            )),
            out.0.data@ == self.reader.data@,
            out.0.cap == self.reader.cap,
            out.0.wf(),
            self.stop_bytes@.len() == 0 ==> out.1@ == self.writer@ + self.reader.remaining()
                && out.0.pos == self.reader.data@.len(),
            self.stop_bytes@.len() >= 1 && has_match(self.reader.remaining(), self.stop_bytes@)
                ==> out.1@ == self.writer@ + self.reader.remaining().subrange(
                0,
                first_match(self.reader.remaining(), self.stop_bytes@),
            ) && out.0.pos == self.reader.pos + first_match(
                self.reader.remaining(),
                self.stop_bytes@,
            ) + self.stop_bytes@.len(),
            self.stop_bytes@.len() >= 1 && !has_match(self.reader.remaining(), self.stop_bytes@)
                ==> out.1@ == self.writer@ + self.reader.remaining() && out.0.pos
                == self.reader.data@.len(),
    {
        let mut this = self;
        let ghost input = this.reader.remaining();
        let ghost stop_s = this.stop_bytes@;
        let ghost w0 = this.writer@;
        let ghost data0 = this.reader.data@;
        let ghost pos0 = this.reader.pos as int;
        let ghost n = input.len() as int;
        let ghost cap0 = this.reader.cap;

        if this.stop_bytes.len() == 0 {
            proof {
                assert(this.writer@ =~= w0 + data0.subrange(pos0, pos0));
            }
            loop
                invariant
                    this.reader.wf(),
                    this.reader.data@ == data0,
                    this.reader.cap == cap0,
                    pos0 <= this.reader.pos as int <= data0.len(),
                    this.writer@ == w0 + data0.subrange(pos0, this.reader.pos as int),
                decreases data0.len() - this.reader.pos,
            {
                let chunk = this.reader.fill_buf();
                if chunk.len() == 0 {
                    proof {
                        assert(this.writer@ =~= w0 + input);
                    }
                    return (this.reader, this.writer, false);
                }
                append_slice(&mut this.writer, chunk.as_slice());
                let chunk_len = chunk.len();
                proof {
                    let pos = this.reader.pos as int;
                    assert(chunk@ =~= data0.subrange(pos, pos + chunk@.len()));
                    assert(this.writer@ =~= w0 + data0.subrange(pos0, pos + chunk@.len()));
                }
                this.reader.consume(chunk_len);
            }
        }
        let m = this.stop_bytes.len();
        proof {
            assert(input.subrange(0, 0) =~= stop_s.subrange(0, 0));
            assert(this.prev_bytes_unwritten@ =~= stop_s.subrange(0, 0));
            assert(this.writer@ =~= w0 + input.subrange(0, 0));
        }
        loop
            invariant
                this.stop_bytes@ == stop_s,
                m == stop_s.len(),
                this.reader.wf(),
                this.reader.data@ == data0,
                this.reader.cap == cap0,
                pos0 <= this.reader.pos as int,
                scan_inv(
                    input,
                    stop_s,
                    this.reader.pos as int - pos0,
                    this.prev_bytes_unwritten@.len() as int,
                ),
                this.prev_bytes_unwritten@ == stop_s.subrange(
                    0,
                    this.prev_bytes_unwritten@.len() as int,
                ),
                this.writer@ == w0 + input.subrange(
                    0,
                    this.reader.pos as int - pos0 - this.prev_bytes_unwritten@.len(),
                ),
            decreases data0.len() - this.reader.pos,
        {
            let ghost k = this.reader.pos as int - pos0;
            let ghost p = this.prev_bytes_unwritten@.len() as int;
            let chunk = this.reader.fill_buf();
            if chunk.len() == 0 {
                proof {
                    assert(k == n);
                    assert forall|j: int| !occurs_at(input, stop_s, j) by {
                        if 0 <= j && j + stop_s.len() <= input.len() {
                            assert(!occurs_at(input, stop_s, j));
                        }
                    }
                }
                append_slice(&mut this.writer, this.prev_bytes_unwritten.as_slice());
                proof {
                    assert(input.subrange(k - p, k) == stop_s.subrange(0, p));
                    assert(this.writer@ =~= w0 + input.subrange(0, k));
                    assert(input.subrange(0, n) =~= input);
                }
                return (this.reader, this.writer, false);
            }
            let chunk_len = chunk.len();
            let ghost big_l = chunk@.len() as int;
            let mut t: Vec<u8> = Vec::new();
            append_slice(&mut t, this.prev_bytes_unwritten.as_slice());
            append_slice(&mut t, chunk.as_slice());
            proof {
                assert(chunk@ =~= input.subrange(k, k + big_l)) by {
                    let pos = this.reader.pos as int;
                    assert(chunk@ =~= data0.subrange(pos, pos + big_l));
                    assert(input.subrange(k, k + big_l) =~= data0.subrange(pos, pos + big_l));
                }
                assert(t@ =~= input.subrange(k - p, k + big_l)) by {
                    assert(t@ == stop_s.subrange(0, p) + chunk@);
                    assert(input.subrange(k - p, k) == stop_s.subrange(0, p));
                    assert(input.subrange(k - p, k + big_l) =~= input.subrange(k - p, k)
                        + input.subrange(k, k + big_l));
                }
            }
            let p_now = this.prev_bytes_unwritten.len();
            match find_stopper(t.as_slice(), this.stop_bytes.as_slice()) {
                Some(j) => {
                    let piece = slice_subrange(t.as_slice(), 0, j);
                    append_slice(&mut this.writer, piece);
                    proof {
                        assert(occurs_at(t@, stop_s, j as int));
                        assert(j + stop_s.len() <= t@.len());
                        assert(t@.len() == p + big_l);
                    }
                    let t_len = t.len();
                    assert(j + m <= t_len && p_now < m);
                    let consume_amt = j + m - p_now;
                    this.reader.consume(consume_amt);
                    this.status = if j < p_now {
                        StreamerStatus::StopperExtendsFromPrevious(m - p_now)
                    } else {
                        StreamerStatus::StopperFound(j - p_now)
                    };
                    proof {
                        let first = k - p + j;
                        assert(occurs_at(input, stop_s, first)) by {
                            lemma_occurs_in_window(input, stop_s, k - p, k + big_l, j as int);
                        }
                        assert forall|j2: int| 0 <= j2 < first implies !occurs_at(
                            input,
                            stop_s,
                            j2,
                        ) by {
                            if j2 < k - p {
                                lemma_no_early_match(input, stop_s, k, p, j2);
                            } else {
                                lemma_occurs_in_window(input, stop_s, k - p, k + big_l, j2 - (k
                                    - p));
                                assert(!occurs_at(t@, stop_s, j2 - (k - p)));
                            }
                        }
                        assert(is_first_match(input, stop_s, first));
                        lemma_first_match(input, stop_s);
                        lemma_first_match_unique(
                            input,
                            stop_s,
                            first,
                            first_match(input, stop_s),
                        );
                        assert(this.writer@ =~= w0 + input.subrange(0, first)) by {
                            assert(piece@ =~= input.subrange(k - p, first));
                            assert(this.writer@ == w0 + input.subrange(0, k - p) + piece@);
                        }
                    }
                    return (this.reader, this.writer, true);
                },
                None => {
                    let p2 = longest_prefix_suffix(t.as_slice(), this.stop_bytes.as_slice());
                    let keep_from = t.len() - p2;
                    let flushed = slice_subrange(t.as_slice(), 0, keep_from);
                    append_slice(&mut this.writer, flushed);
                    this.prev_bytes_unwritten = slice_to_vec(
                        slice_subrange(t.as_slice(), keep_from, t.len()),
                    );
                    this.status = if p2 > 0 {
                        StreamerStatus::StopperPrefixFound(p2)
                    } else if p_now > 0 {
                        StreamerStatus::PreviousBytesWasted
                    } else {
                        StreamerStatus::StopperNotFound
                    };
                    this.reader.consume(chunk_len);
                    proof {
                        let k2 = k + big_l;
                        assert(this.prev_bytes_unwritten@ == stop_s.subrange(0, p2 as int)) by {
                            assert(this.prev_bytes_unwritten@ == t@.subrange(
                                keep_from as int,
                                t@.len() as int,
                            ));
                        }
                        assert(input.subrange(k2 - p2, k2) == stop_s.subrange(0, p2 as int)) by {
                            assert(input.subrange(k2 - p2, k2) =~= t@.subrange(
                                keep_from as int,
                                t@.len() as int,
                            ));
                        }
                        assert(this.writer@ =~= w0 + input.subrange(0, k2 - p2)) by {
                            assert(flushed@ =~= input.subrange(k - p, k2 - p2));
                            assert(this.writer@ == w0 + input.subrange(0, k - p) + flushed@);
                        }
                        assert forall|j2: int|
                            0 <= j2 && j2 + stop_s.len() <= k2 implies !occurs_at(
                            input,
                            stop_s,
                            j2,
                        ) by {
                            if j2 < k - p {
                                lemma_no_early_match(input, stop_s, k, p, j2);
                            } else {
                                lemma_occurs_in_window(input, stop_s, k - p, k + big_l, j2 - (k
                                    - p));
                                assert(!occurs_at(t@, stop_s, j2 - (k - p)));
                            }
                        }
                        assert forall|q: int|
                            p2 < q < stop_s.len() && q <= k2 implies input.subrange(k2 - q, k2)
                            != stop_s.subrange(0, q) by {
                            if input.subrange(k2 - q, k2) == stop_s.subrange(0, q) {
                                if q <= p + big_l {
                                    assert(t@.subrange(t@.len() - q, t@.len() as int)
                                        =~= input.subrange(k2 - q, k2));
                                    assert(false);
                                } else {
                                    let q2 = q - big_l;
                                    assert(p < q2 < stop_s.len() && q2 <= k);
                                    assert(input.subrange(k - q2, k) =~= stop_s.subrange(0, q2))
                                        by {
                                        assert forall|idx: int| 0 <= idx < q2 implies input[k - q2
                                            + idx] == stop_s[idx] by {
                                            assert(input.subrange(k2 - q, k2)[idx] == stop_s[idx]);
                                        }
                                    }
                                    assert(false);
                                }
                            }
                        }
                        assert(scan_inv(input, stop_s, k2, p2 as int));
                    }
                },
            }
        }
    }
}

/// Law: for every payload `b`, nonempty terminator `stop` that does not begin
/// anywhere inside `b`, and tail `x`, the first occurrence of `stop` in
/// `b ++ stop ++ x` is exactly at `b.len()`. Together with the contract of
/// `StreamingBuffer::stream` this says that streaming such a source writes
/// exactly `b` to the sink and leaves the cursor on the first byte of `x`,
/// for every chunk capacity: in particular for capacities smaller than the
/// terminator, which then straddles chunk boundaries.
pub proof fn lemma_terminator_consumption(b: Seq<u8>, stop: Seq<u8>, x: Seq<u8>)
    requires
        stop.len() >= 1,
        forall|j: int| 0 <= j < b.len() ==> !occurs_at(b + stop + x, stop, j),
    ensures
        has_match(b + stop + x, stop),
        first_match(b + stop + x, stop) == b.len(),
        (b + stop + x).subrange(0, b.len() as int) == b,
{
    let s = b + stop + x;
    assert(occurs_at(s, stop, b.len() as int)) by {
        assert(s.subrange(b.len() as int, b.len() + stop.len() as int) =~= stop);
    }
    assert(is_first_match(s, stop, b.len() as int)) by {
        assert forall|j: int| 0 <= j < b.len() implies !occurs_at(s, stop, j) by {}
    }
    lemma_first_match(s, stop);
    lemma_first_match_unique(s, stop, b.len() as int, first_match(s, stop));
    assert(s.subrange(0, b.len() as int) =~= b);
}

} // verus!
