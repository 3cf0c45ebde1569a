//! A sequential, bit-granular read or write channel over a byte buffer.
//!
//! A stream is created with a fixed direction. A read-mode stream walks an
//! owned byte source bit by bit; a write-mode stream appends bits to a
//! growable accumulator whose packed bytes are handed out by `flush`. The
//! surrounding application layers file I/O on top: it fills a read stream
//! from a file and persists what `flush` returns.

use vstd::prelude::*;

use crate::bit_model::{bit_of, bits_of, packed_bits, get_bit, push_packed_bit};
use vstd::string::StringExecFns;

verus! {

/// The error kinds of the codec and its streams.
#[derive(Clone, Copy, Debug, PartialEq, Eq, Structural)]
pub enum Error {
    /// An operation was attempted against a stream opened in the opposite
    /// direction.
    InvalidMode,
    /// An open, read, write, seek or flush failure from the underlying
    /// filesystem, reported by the application layer.
    Io,
    /// The input of a decode was shorter than the fixed frequency-table
    /// header, or the coded body ended in the middle of a code.
    MalformedHeader,
}

/// Builds the error a stream operation returns when it is called against
/// the stream's direction.
pub fn create_error(message: &str) -> (r: Result<(), Error>)
    ensures
        r == Err::<(), Error>(Error::InvalidMode),
{
    let _ = message;
    Err(Error::InvalidMode)
}

/// The character for one bit.
pub open spec fn bit_char(b: bool) -> char {
    if b {
        '1'
    } else {
        '0'
    }
}

/// The eight binary digits of a byte in stream order: bit 0 first.
pub open spec fn byte_bin_chars(b: u8) -> Seq<char> {
    Seq::new(8, |i: int| bit_char(bit_of(b, i)))
}

/// The rendering of a byte sequence: each byte as eight low-bit-first
/// binary digits, bytes joined by single spaces.
pub open spec fn bin_string_view(s: Seq<u8>) -> Seq<char>
    decreases s.len(),
{
    if s.len() == 0 {
        Seq::<char>::empty()
    } else if s.len() == 1 {
        byte_bin_chars(s[0])
    } else {
        bin_string_view(s.drop_last()) + seq![' '] + byte_bin_chars(s.last())
    }
}

/// Renders bytes as binary digits in stream order — the first bit of the
/// stream is the first digit — for diagnostics around the bit stream.
#[allow(non_snake_case)]
pub fn bin_string_LSBF(bytes: &[u8]) -> (r: String)
    ensures
        r@ == bin_string_view(bytes@),
{
    let mut r = String::new();
    let mut idx: usize = 0;
    while idx < bytes.len()
        invariant
            idx <= bytes@.len(),
            r@ == bin_string_view(bytes@.subrange(0, idx as int)),
        decreases bytes@.len() - idx,
    {
        if idx > 0 {
            r.append(" ");
            proof {
                reveal_strlit(" ");
            }
        }
        let ghost base = r@;
        let b = bytes[idx];
        let mut j: usize = 0;
        while j < 8
            invariant
                j <= 8,
                idx < bytes@.len(),
                b == bytes@[idx as int],
                r@ == base + byte_bin_chars(b).subrange(0, j as int),
            decreases 8 - j,
        {
            let bitv = get_bit(b, j);
            if bitv {
                r.append("1");
            } else {
                r.append("0");
            }
            proof {
                reveal_strlit("1");
                reveal_strlit("0");
                assert(byte_bin_chars(b).subrange(0, j + 1) =~= byte_bin_chars(b).subrange(
                    0,
                    j as int,
                ).push(bit_char(bit_of(b, j as int))));
                assert(r@ =~= base + byte_bin_chars(b).subrange(0, j + 1));
            }
            j = j + 1;
        }
        proof {
            let pre = bytes@.subrange(0, idx as int);
            let post = bytes@.subrange(0, idx + 1);
            assert(byte_bin_chars(b).subrange(0, 8) =~= byte_bin_chars(b));
            assert(post.drop_last() =~= pre);
            assert(post.last() == b);
            if idx == 0 {
                assert(post[0] == b);
                assert(r@ =~= bin_string_view(post));
            } else {
                assert(r@ =~= bin_string_view(post));
            }
        }
        idx = idx + 1;
    }
    proof {
        assert(bytes@.subrange(0, bytes@.len() as int) =~= bytes@);
    }
    r
}

/// A bit-granular stream over an owned byte buffer.
///
/// In read mode the buffer is the full byte source and the cursor counts the
/// bits already consumed. In write mode the buffer is the accumulator of the
/// bits written so far, packed little-bit-endian, and the cursor counts them.
pub struct BitStream {
    buff: Vec<u8>,
    bit_pointer: usize,
    read_dir: bool,
}

impl BitStream {
    /// The bytes the stream currently holds.
    pub closed spec fn source(self) -> Seq<u8> {
        self.buff@
    }

    /// The bit cursor.
    pub closed spec fn cursor(self) -> int {
        self.bit_pointer as int
    }

    /// True iff the stream was created in read mode.
    pub closed spec fn is_read(self) -> bool {
        self.read_dir
    }

    /// The bits a write-mode stream has accumulated and not yet flushed.
    pub open spec fn pending(self) -> Seq<bool> {
        bits_of(self.source()).take(self.cursor())
    }

    /// The internal invariant. A read stream's cursor stays within its
    /// source (whose bit count must fit in `usize`); a write stream holds
    /// exactly the bytes its pending bits occupy, with the unused high bits
    /// of the final byte clear.
    pub open spec fn wf(self) -> bool {
        if self.is_read() {
            &&& self.cursor() <= self.source().len() * 8
            &&& self.source().len() * 8 <= usize::MAX
        } else {
            &&& self.source().len() == (self.cursor() + 7) / 8
            &&& forall|i: int|
                self.cursor() <= i < self.source().len() * 8 ==> !bits_of(self.source())[i]
        }
    }

    /// Binds a new stream to a direction. A read stream consumes the given
    /// bytes; a write stream starts with an empty accumulator.
    pub fn new(data: Vec<u8>, read_dir: bool) -> (s: BitStream)
        requires
            read_dir ==> data@.len() * 8 <= usize::MAX,
        ensures
            s.wf(),
            s.is_read() == read_dir,
            s.cursor() == 0,
            read_dir ==> s.source() == data@,
            !read_dir ==> s.source() == Seq::<u8>::empty(),
    {
        if read_dir {
            BitStream { buff: data, bit_pointer: 0, read_dir }
        } else {
            BitStream { buff: Vec::new(), bit_pointer: 0, read_dir }
        }
    }

    /// Discards everything a write-mode stream has accumulated, so that a
    /// session starts from a clean state; the application layer truncates
    /// the backing file alongside. Fails in read mode.
    pub fn clear_output_file(&mut self) -> (r: Result<(), Error>)
        requires
            old(self).wf(),
        ensures
            final(self).wf(),
            final(self).is_read() == old(self).is_read(),
            old(self).is_read() ==> r == Err::<(), Error>(Error::InvalidMode) && *final(self)
                == *old(self),
            !old(self).is_read() ==> {
                &&& r == Ok::<(), Error>(())
                &&& final(self).cursor() == 0
                &&& final(self).source() == Seq::<u8>::empty()
            },
    {
        if self.read_dir {
            create_error("Cannot clear file in read mode")
        } else {
            self.buff.clear();
            self.bit_pointer = 0;
            Ok(())
        }
    }

    /// Appends the first `bit_len` bits of `in_buff` (read in stream order:
    /// bit 0 of byte 0 first) to the accumulator. No bytes leave the stream
    /// here; only `flush` hands them out. Fails in read mode.
    pub fn write_bit_sequence(&mut self, in_buff: &[u8], bit_len: usize) -> (r: Result<
        (),
        Error,
    >)
        requires
            old(self).wf(),
            bit_len <= in_buff@.len() * 8,
            old(self).cursor() + bit_len <= usize::MAX,
        ensures
            final(self).wf(),
            final(self).is_read() == old(self).is_read(),
            old(self).is_read() ==> r == Err::<(), Error>(Error::InvalidMode) && *final(self)
                == *old(self),
            !old(self).is_read() ==> {
                &&& r == Ok::<(), Error>(())
                &&& final(self).cursor() == old(self).cursor() + bit_len
                &&& final(self).pending() == old(self).pending() + bits_of(in_buff@).take(
                    bit_len as int,
                )
            },
    {
        if self.read_dir {
            return create_error("This BitStream is in read mode");
        }
        let ghost pend0 = self.pending();
        let mut k: usize = 0;
        while k < bit_len
            invariant
                self.wf(),
                !self.is_read(),
                k <= bit_len,
                bit_len <= in_buff@.len() * 8,
                self.cursor() == old(self).cursor() + k,
                self.cursor() + bit_len <= usize::MAX + k,
                self.pending() == pend0 + bits_of(in_buff@).take(k as int),
            decreases bit_len - k,
        {
            proof {
                vstd::arithmetic::div_mod::lemma_fundamental_div_mod(k as int, 8);
            }
            let bitv = get_bit(in_buff[k / 8], k % 8);
            proof {
                assert(bits_of(in_buff@)[k as int] == bitv);
            }
            self.push_pending_bit(bitv);
            proof {
                assert(self.pending() =~= pend0 + bits_of(in_buff@).take(k + 1));
            }
            k = k + 1;
        }
        proof {
            assert(self.pending() =~= pend0 + bits_of(in_buff@).take(bit_len as int));
        }
        Ok(())
    }

    /// Appends one bit to a write-mode stream's accumulator.
    fn push_pending_bit(&mut self, bitv: bool)
        requires
            old(self).wf(),
            !old(self).is_read(),
            old(self).cursor() < usize::MAX,
        ensures
            final(self).wf(),
            !final(self).is_read(),
            final(self).cursor() == old(self).cursor() + 1,
            final(self).pending() == old(self).pending().push(bitv),
    {
        let ghost pend0 = self.pending();
        let n = self.bit_pointer;
        push_packed_bit(&mut self.buff, n, bitv);
        self.bit_pointer = n + 1;
        proof {
            assert(self.pending() =~= pend0.push(bitv));
        }
    }

    /// Hands out the packed bytes of everything written since the last
    /// flush and resets the accumulator; the application layer persists
    /// them. Fails in read mode.
    pub fn flush(&mut self) -> (r: Result<Vec<u8>, Error>)
        requires
            old(self).wf(),
        ensures
            final(self).wf(),
            final(self).is_read() == old(self).is_read(),
            old(self).is_read() ==> r == Err::<Vec<u8>, Error>(Error::InvalidMode) && *final(self)
                == *old(self),
            !old(self).is_read() ==> {
                &&& r matches Ok(v) && v@ == old(self).source() && packed_bits(
                    v@,
                    old(self).pending(),
                )
                &&& final(self).cursor() == 0
                &&& final(self).source() == Seq::<u8>::empty()
            },
    {
        if self.read_dir {
            return Err(Error::InvalidMode);
        }
        let mut out: Vec<u8> = Vec::new();
        core::mem::swap(&mut out, &mut self.buff);
        self.bit_pointer = 0;
        proof {
            let c = old(self).cursor();
            assert(old(self).pending().len() == c);
            assert(out@.len() == (c + 7) / 8);
        }
        Ok(out)
    }

    /// Returns up to `size` bits from a read-mode stream, packed into bytes
    /// in stream order with the unused high bits of the final byte clear.
    /// Once the source is exhausted the result is shorter than requested —
    /// possibly empty — which is the normal end-of-stream signal, not an
    /// error. Fails in write mode.
    pub fn read_bit_sequence(&mut self, size: usize) -> (r: Result<Vec<u8>, Error>)
        requires
            old(self).wf(),
        ensures
            final(self).wf(),
            final(self).is_read() == old(self).is_read(),
            final(self).source() == old(self).source(),
            !old(self).is_read() ==> r == Err::<Vec<u8>, Error>(Error::InvalidMode) && *final(self)
                == *old(self),
            old(self).is_read() ==> {
                let avail = old(self).source().len() * 8 - old(self).cursor();
                let n = if size <= avail {
                    size as int
                } else {
                    avail
                };
                &&& r matches Ok(v) && packed_bits(
                    v@,
                    bits_of(old(self).source()).subrange(
                        old(self).cursor(),
                        old(self).cursor() + n,
                    ),
                )
                &&& final(self).cursor() == old(self).cursor() + n
            },
    {
        if !self.read_dir {
            return Err(Error::InvalidMode);
        }
        let avail: usize = self.buff.len() * 8 - self.bit_pointer;
        let n: usize = if size <= avail {
            size
        } else {
            avail
        };
        let ghost c0 = self.cursor();
        let ghost want = bits_of(self.source()).subrange(c0, c0 + n);
        let mut result: Vec<u8> = Vec::new();
        let mut k: usize = 0;
        while k < n
            invariant
                self.wf(),
                self.is_read(),
                self.source() == old(self).source(),
                k <= n,
                0 <= c0,
                c0 + n <= self.source().len() * 8,
                self.cursor() == c0 + k,
                want == bits_of(self.source()).subrange(c0, c0 + n),
                want.len() == n,
                result@.len() == (k + 7) / 8,
                forall|i: int| 0 <= i < k ==> bits_of(result@)[i] == want[i],
                forall|i: int| k <= i < result@.len() * 8 ==> !bits_of(result@)[i],
            decreases n - k,
        {
            proof {
                vstd::arithmetic::div_mod::lemma_fundamental_div_mod(self.bit_pointer as int, 8);
            }
            let bitv = get_bit(self.buff[self.bit_pointer / 8], self.bit_pointer % 8);
            proof {
                assert(bits_of(self.source())[self.cursor()] == bitv);
                assert(0 <= c0 <= c0 + n <= bits_of(self.source()).len());
                assert(want[k as int] == bitv);
            }
            push_packed_bit(&mut result, k, bitv);
            self.bit_pointer = self.bit_pointer + 1;
            k = k + 1;
        }
        Ok(result)
    }

    /// Seeks a read-mode stream back to its first bit, so that a second
    /// pass re-reads the same source. Fails in write mode.
    pub fn rewind_read_stream(&mut self) -> (r: Result<(), Error>)
        requires
            old(self).wf(),
        ensures
            final(self).wf(),
            final(self).is_read() == old(self).is_read(),
            final(self).source() == old(self).source(),
            !old(self).is_read() ==> r == Err::<(), Error>(Error::InvalidMode) && *final(self)
                == *old(self),
            old(self).is_read() ==> {
                &&& r == Ok::<(), Error>(())
                &&& final(self).cursor() == 0
            },
    {
        if !self.read_dir {
            return create_error("Cannot reset stream in write mode");
        }
        self.bit_pointer = 0;
        Ok(())
    }
}

} // verus!
