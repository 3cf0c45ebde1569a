//! The Huffman codec: frequency analysis, the persisted frequency-table
//! header, and the encode/decode drivers.
//!
//! An encoded file is a fixed 1024-byte header — 256 little-endian 32-bit
//! occurrence counts, indexed by byte value — followed by the coded body:
//! the concatenated variable-length codes of the input bytes, bit-packed
//! low-bit-first, with the unused high bits of the last byte left clear.
//! The decoder rebuilds the same tree from the header and stops after
//! emitting as many symbols as the table counts, so the padding bits are
//! never mistaken for data.

use vstd::prelude::*;

use crate::bit_model::{
    bit_of, bits_of, byte_bits, packed_bits, get_bit, lemma_bit_index, lemma_bits_of_append,
    lemma_bits_of_push, lemma_byte_from_bits, lemma_bytes_from_bits,
};
use crate::bit_stream::{BitStream, Error};
use crate::hufftree::{
    Tree, code_of, has_sym, walk_bits, decode_syms, encode_syms, huffman_tree, initial_queue,
    build_tree, derive_codes, lemma_decode_encode, lemma_huffman_tree_has_sym,
    lemma_leaves_upto_props, lemma_huffman_code_len,
};
use vstd::bytes::{
    spec_u32_to_le_bytes, spec_u32_from_le_bytes, u32_to_le_bytes, u32_from_le_bytes,
    lemma_auto_spec_u32_to_from_le_bytes,
};

verus! {

/// The number of occurrences of `v` in `s`.
pub open spec fn count_of(s: Seq<u8>, v: u8) -> nat
    decreases s.len(),
{
    if s.len() == 0 {
        0
    } else {
        count_of(s.drop_last(), v) + (if s.last() == v {
            1nat
        } else {
            0nat
        })
    }
}

pub proof fn lemma_count_le_len(s: Seq<u8>, v: u8)
    ensures
        count_of(s, v) <= s.len(),
    decreases s.len(),
{
    if s.len() > 0 {
        lemma_count_le_len(s.drop_last(), v);
    }
}

/// A value that occurs in `s` has a positive count.
pub proof fn lemma_count_pos(s: Seq<u8>, i: int)
    requires
        0 <= i < s.len(),
    ensures
        count_of(s, s[i]) > 0,
    decreases s.len(),
{
    if i < s.len() - 1 {
        lemma_count_pos(s.drop_last(), i);
    }
}

/// The 256-entry frequency table of a byte sequence.
pub open spec fn spec_freqs(s: Seq<u8>) -> Seq<u32> {
    Seq::new(256, |v: int| count_of(s, v as u8) as u32)
}

/// The 1024-byte header: 256 little-endian 32-bit counts.
pub open spec fn header_bytes(freqs: Seq<u32>) -> Seq<u8> {
    Seq::new(1024, |i: int| spec_u32_to_le_bytes(freqs[i / 4])[i % 4])
}

/// The table read back from a 1024-byte header.
pub open spec fn parse_freqs(bytes: Seq<u8>) -> Seq<u32> {
    Seq::new(256, |v: int| spec_u32_from_le_bytes(bytes.subrange(4 * v, 4 * v + 4)))
}

/// Law: serializing and deserializing the 256-entry table is the identity,
/// for every combination of count values.
pub proof fn lemma_freq_table_round_trip(freqs: Seq<u32>)
    requires
        freqs.len() == 256,
    ensures
        parse_freqs(header_bytes(freqs)) == freqs,
{
    lemma_auto_spec_u32_to_from_le_bytes();
    let h = header_bytes(freqs);
    assert forall|v: int| 0 <= v < 256 implies parse_freqs(h)[v] == freqs[v] by {
        let sub = h.subrange(4 * v, 4 * v + 4);
        assert forall|j: int| 0 <= j < 4 implies sub[j] == spec_u32_to_le_bytes(freqs[v])[j] by {
            vstd::arithmetic::div_mod::lemma_fundamental_div_mod_converse(4 * v + j, 4, v, j);
        }
        assert(sub =~= spec_u32_to_le_bytes(freqs[v]));
    }
    assert(parse_freqs(h) =~= freqs);
}

/// The sum of the table entries below `n`.
pub open spec fn sum_freqs_upto(freqs: Seq<u32>, n: int) -> int
    decreases n,
{
    if n <= 0 {
        0
    } else {
        sum_freqs_upto(freqs, n - 1) + freqs[n - 1]
    }
}

/// The total symbol count a table promises.
pub open spec fn total_count(freqs: Seq<u32>) -> int {
    sum_freqs_upto(freqs, 256)
}

proof fn lemma_sum_zero(freqs: Seq<u32>, n: int)
    requires
        forall|v: int| 0 <= v < n ==> freqs[v] == 0,
    ensures
        sum_freqs_upto(freqs, n) == 0,
    decreases n,
{
    if n > 0 {
        lemma_sum_zero(freqs, n - 1);
    }
}

proof fn lemma_sum_incr(f1: Seq<u32>, f2: Seq<u32>, x: int, n: int)
    requires
        0 <= x,
        forall|v: int|
            0 <= v < n ==> f2[v] == f1[v] + (if v == x {
                1int
            } else {
                0int
            }),
    ensures
        sum_freqs_upto(f2, n) == sum_freqs_upto(f1, n) + (if x < n {
            1int
        } else {
            0int
        }),
    decreases n,
{
    if n > 0 {
        lemma_sum_incr(f1, f2, x, n - 1);
    }
}

/// The counts of a sequence total its length.
pub proof fn lemma_total_of_freqs(s: Seq<u8>)
    requires
        s.len() <= u32::MAX,
    ensures
        total_count(spec_freqs(s)) == s.len(),
    decreases s.len(),
{
    if s.len() == 0 {
        assert forall|v: int| 0 <= v < 256 implies spec_freqs(s)[v] == 0 by {}
        lemma_sum_zero(spec_freqs(s), 256);
    } else {
        let a = s.drop_last();
        let x = s.last();
        lemma_total_of_freqs(a);
        assert forall|v: int|
            0 <= v < 256 implies spec_freqs(s)[v] == spec_freqs(a)[v] + (if v == x as int {
            1int
        } else {
            0int
        }) by {
            lemma_count_le_len(s, v as u8);
            lemma_count_le_len(a, v as u8);
        }
        lemma_sum_incr(spec_freqs(a), spec_freqs(s), x as int, 256);
    }
}

/// Copies a byte buffer.
fn copy_bytes(src: &Vec<u8>) -> (r: Vec<u8>)
    ensures
        r@ == src@,
{
    let mut r: Vec<u8> = Vec::new();
    let mut i: usize = 0;
    while i < src.len()
        invariant
            i <= src@.len(),
            r@ == src@.subrange(0, i as int),
        decreases src@.len() - i,
    {
        r.push(src[i]);
        proof {
            assert(r@ =~= src@.subrange(0, i + 1));
        }
        i = i + 1;
    }
    proof {
        assert(r@ =~= src@);
    }
    r
}

/// Serializes a 256-entry frequency table as its 1024-byte header, driving
/// a write-mode bit stream with one 32-bit write per entry.
pub fn serialize_frequency_table(freqs: &Vec<u32>) -> (r: Vec<u8>)
    requires
        freqs@.len() == 256,
    ensures
        r@ == header_bytes(freqs@),
{
    let ghost h = header_bytes(freqs@);
    let mut out = BitStream::new(Vec::new(), false);
    let mut i: usize = 0;
    while i < 256
        invariant
            freqs@.len() == 256,
            i <= 256,
            out.wf(),
            !out.is_read(),
            h == header_bytes(freqs@),
            out.cursor() == 32 * i,
            out.pending() == bits_of(h.subrange(0, 4 * i)),
        decreases 256 - i,
    {
        let bytes = u32_to_le_bytes(freqs[i]);
        let _ = out.write_bit_sequence(bytes.as_slice(), 32);
        proof {
            lemma_auto_spec_u32_to_from_le_bytes();
            let le = spec_u32_to_le_bytes(freqs@[i as int]);
            assert forall|j: int| 0 <= j < 4 implies h[4 * i + j] == le[j] by {
                vstd::arithmetic::div_mod::lemma_fundamental_div_mod_converse(
                    4 * i + j,
                    4,
                    i as int,
                    j,
                );
            }
            assert(h.subrange(0, 4 * (i + 1)) =~= h.subrange(0, 4 * i) + le);
            lemma_bits_of_append(h.subrange(0, 4 * i), le);
            assert(bits_of(le).take(32) =~= bits_of(le));
            assert(out.pending() =~= bits_of(h.subrange(0, 4 * (i + 1))));
        }
        i = i + 1;
    }
    proof {
        assert(h.subrange(0, 1024) =~= h);
    }
    match out.flush() {
        Ok(v) => {
            proof {
                assert forall|k: int| 0 <= k < 8192 implies bits_of(v@)[k] == bits_of(h)[k] by {}
                lemma_bytes_from_bits(v@, h);
            }
            v
        },
        Err(_) => vstd::pervasive::unreached(),
    }
}

/// Parses the 256-entry table from the first 1024 bytes of a header, or
/// reports a malformed header when the input is shorter.
pub fn parse_frequency_table(bytes: &Vec<u8>) -> (r: Result<Vec<u32>, Error>)
    ensures
        bytes@.len() >= 1024 ==> (r matches Ok(f) && f@ == parse_freqs(bytes@.subrange(0, 1024))),
        bytes@.len() < 1024 ==> r == Err::<Vec<u32>, Error>(Error::MalformedHeader),
{
    if bytes.len() < 1024 {
        return Err(Error::MalformedHeader);
    }
    let ghost pf = parse_freqs(bytes@.subrange(0, 1024));
    let mut freqs: Vec<u32> = Vec::new();
    let mut i: usize = 0;
    while i < 256
        invariant
            bytes@.len() >= 1024,
            pf == parse_freqs(bytes@.subrange(0, 1024)),
            i <= 256,
            freqs@.len() == i,
            forall|v: int| 0 <= v < i ==> freqs@[v] == pf[v],
        decreases 256 - i,
    {
        let mut w: Vec<u8> = Vec::new();
        w.push(bytes[4 * i]);
        w.push(bytes[4 * i + 1]);
        w.push(bytes[4 * i + 2]);
        w.push(bytes[4 * i + 3]);
        proof {
            assert(w@ =~= bytes@.subrange(0, 1024).subrange(4 * i, 4 * i + 4));
        }
        let x = u32_from_le_bytes(w.as_slice());
        freqs.push(x);
        i = i + 1;
    }
    proof {
        assert(freqs@ =~= pf);
    }
    Ok(freqs)
}

/// The shape of the encoder's output for input `s`: the frequency header,
/// then the packed concatenation of the input bytes' codes. An empty input
/// has an all-zero header and no body.
pub open spec fn encode_output_ok(s: Seq<u8>, out: Seq<u8>) -> bool {
    let freqs = spec_freqs(s);
    let header = header_bytes(freqs);
    if s.len() == 0 {
        out == header
    } else {
        let body = encode_syms(huffman_tree(freqs), s);
        &&& out.subrange(0, 1024) == header
        &&& packed_bits(out.skip(1024), body)
        &&& out.len() == 1024 + (body.len() + 7) / 8
    }
}

/// What a decode of `input` yields: a malformed-header error when the
/// input is shorter than the table or the body ends inside a code, and
/// otherwise the symbols of as many tree walks as the table counts.
pub open spec fn spec_decode(input: Seq<u8>) -> Result<Seq<u8>, Error> {
    if input.len() < 1024 {
        Err(Error::MalformedHeader)
    } else {
        let freqs = parse_freqs(input.subrange(0, 1024));
        let total = total_count(freqs);
        if total == 0 {
            Ok(Seq::<u8>::empty())
        } else {
            match decode_syms(huffman_tree(freqs), bits_of(input).skip(8192), total as nat) {
                Some(syms) => Ok(syms),
                None => Err(Error::MalformedHeader),
            }
        }
    }
}

/// Appending a symbol appends its code to the coded body.
proof fn lemma_encode_syms_push(t: Tree, syms: Seq<u8>, x: u8)
    ensures
        encode_syms(t, syms.push(x)) == encode_syms(t, syms) + code_of(t, x).unwrap(),
    decreases syms.len(),
{
    let p = syms.push(x);
    if syms.len() == 0 {
        assert(p[0] == x);
        assert(p.drop_first() =~= Seq::<u8>::empty());
        assert(encode_syms(t, p.drop_first()) =~= Seq::<bool>::empty());
        assert(encode_syms(t, p) == code_of(t, x).unwrap() + encode_syms(t, p.drop_first()));
        assert(encode_syms(t, p) =~= encode_syms(t, syms) + code_of(t, x).unwrap());
    } else {
        assert(p[0] == syms[0]);
        assert(p.drop_first() =~= syms.drop_first().push(x));
        lemma_encode_syms_push(t, syms.drop_first(), x);
        assert(encode_syms(t, p) == code_of(t, syms[0]).unwrap() + encode_syms(t, p.drop_first()));
        assert(encode_syms(t, syms) == code_of(t, syms[0]).unwrap() + encode_syms(
            t,
            syms.drop_first(),
        ));
        assert(encode_syms(t, p) =~= encode_syms(t, syms) + code_of(t, x).unwrap());
    }
}

/// An aligned 8-bit read hands back exactly one source byte.
proof fn lemma_read_byte(src: Seq<u8>, idx: int, v: Seq<u8>)
    requires
        0 <= idx,
        8 * idx + 8 <= src.len() * 8,
        packed_bits(v, bits_of(src).subrange(8 * idx, 8 * idx + 8)),
    ensures
        v.len() == 1,
        v[0] == src[idx],
{
    let sub = bits_of(src).subrange(8 * idx, 8 * idx + 8);
    assert forall|j: int| 0 <= j < 8 implies bit_of(v[0], j) == bit_of(src[idx], j) by {
        lemma_bit_index(0, j);
        lemma_bit_index(idx, j);
        assert(bits_of(v)[j] == sub[j]);
        assert(sub[j] == bits_of(src)[8 * idx + j]);
    }
    lemma_byte_from_bits(v[0], src[idx]);
}

/// Writes the bits of one code to a write-mode stream, one bit at a time.
fn write_code(stream: &mut BitStream, code: &Vec<bool>)
    requires
        old(stream).wf(),
        !old(stream).is_read(),
        old(stream).cursor() + code@.len() <= usize::MAX,
    ensures
        final(stream).wf(),
        !final(stream).is_read(),
        final(stream).cursor() == old(stream).cursor() + code@.len(),
        final(stream).pending() == old(stream).pending() + code@,
{
    let ghost p0 = stream.pending();
    let mut i: usize = 0;
    while i < code.len()
        invariant
            stream.wf(),
            !stream.is_read(),
            i <= code@.len(),
            stream.cursor() == old(stream).cursor() + i,
            old(stream).cursor() + code@.len() <= usize::MAX,
            p0 == old(stream).pending(),
            stream.pending() == p0 + code@.subrange(0, i as int),
        decreases code@.len() - i,
    {
        let b = code[i];
        let mut one: Vec<u8> = Vec::new();
        one.push(if b {
            1u8
        } else {
            0u8
        });
        let _ = stream.write_bit_sequence(one.as_slice(), 1);
        proof {
            assert((1u8 >> 0u8) & 1 == 1) by (bit_vector);
            assert((0u8 >> 0u8) & 1 != 1) by (bit_vector);
            lemma_bit_index(0, 0);
            assert(bits_of(one@)[0] == b);
            assert(bits_of(one@).take(1) =~= seq![b]);
            assert(code@.subrange(0, i + 1) =~= code@.subrange(0, i as int).push(b));
            assert(stream.pending() =~= p0 + code@.subrange(0, i + 1));
        }
        i = i + 1;
    }
    proof {
        assert(code@.subrange(0, code@.len() as int) =~= code@);
    }
}

/// Assembles the encoder's postcondition from its flushed accumulator: a
/// packed buffer whose bits are the header's followed by the body's splits
/// into the header bytes and the packed body.
proof fn lemma_encode_assemble(s: Seq<u8>, pending: Seq<bool>, out: Seq<u8>)
    requires
        s.len() > 0,
        pending == bits_of(header_bytes(spec_freqs(s))) + encode_syms(
            huffman_tree(spec_freqs(s)),
            s,
        ),
        packed_bits(out, pending),
    ensures
        encode_output_ok(s, out),
{
    let freqs = spec_freqs(s);
    let header = header_bytes(freqs);
    let body = encode_syms(huffman_tree(freqs), s);
    vstd::arithmetic::div_mod::lemma_fundamental_div_mod(body.len() as int + 7, 8);
    vstd::arithmetic::div_mod::lemma_fundamental_div_mod_converse(
        8192 + body.len() as int + 7,
        8,
        1024 + (body.len() as int + 7) / 8,
        (body.len() as int + 7) % 8,
    );
    assert(out.len() == 1024 + (body.len() + 7) / 8);
    let head_part = out.subrange(0, 1024);
    let body_part = out.skip(1024);
    assert(out =~= head_part + body_part);
    lemma_bits_of_append(head_part, body_part);
    assert forall|k: int| 0 <= k < 8192 implies bits_of(head_part)[k] == bits_of(header)[k] by {
        assert(bits_of(out)[k] == pending[k]);
        assert(pending[k] == bits_of(header)[k]);
    }
    lemma_bytes_from_bits(head_part, header);
    assert forall|k: int| 0 <= k < body.len() implies bits_of(body_part)[k] == body[k] by {
        assert(bits_of(out)[8192 + k] == pending[8192 + k]);
        assert(pending[8192 + k] == body[k]);
    }
    assert forall|k: int| body.len() <= k < body_part.len() * 8 implies !bits_of(body_part)[k] by {
        assert(8192 + k >= pending.len());
        assert(!bits_of(out)[8192 + k]);
    }
    assert(packed_bits(body_part, body));
}

/// The encoder: owns the frequency table it builds and the two streams it
/// drives — the input read twice (counting, then coding) and the output
/// accumulating header and body.
pub struct HuffmanEncoder {
    freq_t: Vec<u32>,
    input_stream: BitStream,
    output_stream: BitStream,
}

impl HuffmanEncoder {
    /// Counts symbol occurrences by reading the input stream eight bits at
    /// a time, then rewinds it for the coding pass.
    fn calc_frequences(&mut self, len: usize) -> (r: Result<(), Error>)
        requires
            old(self).input_stream.wf(),
            old(self).input_stream.is_read(),
            old(self).input_stream.cursor() == 0,
            old(self).input_stream.source().len() == len,
            len <= u32::MAX,
            old(self).freq_t@.len() == 256,
            forall|v: int| 0 <= v < 256 ==> old(self).freq_t@[v] == 0u32,
        ensures
            final(self).input_stream.wf(),
            final(self).input_stream.is_read(),
            final(self).input_stream.source() == old(self).input_stream.source(),
            final(self).input_stream.cursor() == 0,
            final(self).freq_t@ == spec_freqs(old(self).input_stream.source()),
            final(self).output_stream == old(self).output_stream,
            r == Ok::<(), Error>(()),
    {
        let ghost src = self.input_stream.source();
        let mut idx: usize = 0;
        proof {
            assert forall|v: int| 0 <= v < 256 implies self.freq_t@[v] == count_of(
                src.subrange(0, 0),
                v as u8,
            ) by {
                assert(src.subrange(0, 0) =~= Seq::<u8>::empty());
            }
        }
        while idx < len
            invariant
                self.input_stream.wf(),
                self.input_stream.is_read(),
                self.input_stream.source() == src,
                src.len() == len,
                len <= u32::MAX,
                idx <= len,
                self.input_stream.cursor() == 8 * idx,
                self.freq_t@.len() == 256,
                forall|v: int|
                    0 <= v < 256 ==> self.freq_t@[v] == count_of(
                        src.subrange(0, idx as int),
                        v as u8,
                    ),
                self.output_stream == old(self).output_stream,
            decreases len - idx,
        {
            let bytes = match self.input_stream.read_bit_sequence(8) {
                Ok(v) => v,
                Err(_) => vstd::pervasive::unreached(),
            };
            proof {
                lemma_read_byte(src, idx as int, bytes@);
            }
            let b = bytes[0];
            let cnt = self.freq_t[b as usize];
            proof {
                lemma_count_le_len(src.subrange(0, idx as int), b);
            }
            self.freq_t[b as usize] = cnt + 1;
            proof {
                let pre = src.subrange(0, idx as int);
                let post = src.subrange(0, idx + 1);
                assert(post.drop_last() =~= pre);
                assert(post.last() == src[idx as int]);
                assert forall|v: int|
                    0 <= v < 256 implies self.freq_t@[v] == count_of(post, v as u8) by {
                    assert(count_of(post, v as u8) == count_of(pre, v as u8) + (if src[idx as int]
                        == v as u8 {
                        1nat
                    } else {
                        0nat
                    }));
                }
            }
            idx = idx + 1;
        }
        proof {
            assert(src.subrange(0, len as int) =~= src);
            assert(self.freq_t@ =~= spec_freqs(src));
        }
        match self.input_stream.rewind_read_stream() {
            Ok(_) => Ok(()),
            Err(_) => vstd::pervasive::unreached(),
        }
    }

    /// Encodes `input`: truncates the output session, counts frequencies,
    /// builds the tree and code table, writes the 1024-byte header and the
    /// coded body, and flushes the packed bytes.
    ///
    /// The length bounds are machine limits: every 32-bit count must fit,
    /// and the output bit cursor (at most 255 bits per symbol after the
    /// 8192-bit header) must fit in `usize`.
    pub fn encode(input: &Vec<u8>) -> (r: Result<Vec<u8>, Error>)
        requires
            input@.len() <= u32::MAX,
            8192 + 255 * input@.len() <= usize::MAX,
        ensures
            r matches Ok(out) && encode_output_ok(input@, out@),
    {
        let len = input.len();
        let data = copy_bytes(input);
        let mut zero_t: Vec<u32> = Vec::new();
        let mut z: usize = 0;
        while z < 256
            invariant
                z <= 256,
                zero_t@.len() == z,
                forall|v: int| 0 <= v < z ==> zero_t@[v] == 0u32,
            decreases 256 - z,
        {
            zero_t.push(0u32);
            z = z + 1;
        }
        let mut enc = HuffmanEncoder {
            freq_t: zero_t,
            input_stream: BitStream::new(data, true),
            output_stream: BitStream::new(Vec::new(), false),
        };
        let _ = enc.output_stream.clear_output_file();
        let _ = enc.calc_frequences(len);
        let ghost freqs = spec_freqs(input@);
        let tree_opt = build_tree(&enc.freq_t);
        let hdr = serialize_frequency_table(&enc.freq_t);
        let _ = enc.output_stream.write_bit_sequence(hdr.as_slice(), 8192);
        proof {
            assert(bits_of(hdr@).take(8192) =~= bits_of(hdr@));
            assert(Seq::<bool>::empty() + bits_of(hdr@) =~= bits_of(hdr@));
            assert(enc.output_stream.pending() == bits_of(header_bytes(freqs)));
        }
        match tree_opt {
            Some(tree) => {
                proof {
                    if input@.len() == 0 {
                        assert forall|i: int| 0 <= i < 256 implies freqs[i] == 0 by {}
                        lemma_leaves_upto_props(freqs, 256);
                    }
                    assert(input@.len() > 0);
                }
                let codes = derive_codes(&tree);
                let mut idx: usize = 0;
                proof {
                    assert(input@.subrange(0, 0) =~= Seq::<u8>::empty());
                    assert(bits_of(header_bytes(freqs)) + encode_syms(tree, input@.subrange(0, 0))
                        =~= bits_of(header_bytes(freqs)));
                }
                while idx < len
                    invariant
                        input@.len() == len,
                        len <= u32::MAX,
                        8192 + 255 * len <= usize::MAX,
                        enc.input_stream.wf(),
                        enc.input_stream.is_read(),
                        enc.input_stream.source() == input@,
                        enc.input_stream.cursor() == 8 * idx,
                        idx <= len,
                        enc.output_stream.wf(),
                        !enc.output_stream.is_read(),
                        freqs == spec_freqs(input@),
                        initial_queue(freqs).len() > 0,
                        tree == huffman_tree(freqs),
                        codes@.len() == 256,
                        forall|s: int|
                            0 <= s < 256 ==> match #[trigger] codes@[s] {
                                Some(v) => code_of(tree, s as u8) == Some(v@),
                                None => !has_sym(tree, s as u8),
                            },
                        enc.output_stream.pending() == bits_of(header_bytes(freqs)) + encode_syms(
                            tree,
                            input@.subrange(0, idx as int),
                        ),
                        enc.output_stream.cursor() == 8192 + encode_syms(
                            tree,
                            input@.subrange(0, idx as int),
                        ).len(),
                        encode_syms(tree, input@.subrange(0, idx as int)).len() <= 255 * idx,
                    decreases len - idx,
                {
                    let bytes = match enc.input_stream.read_bit_sequence(8) {
                        Ok(v) => v,
                        Err(_) => vstd::pervasive::unreached(),
                    };
                    proof {
                        lemma_read_byte(input@, idx as int, bytes@);
                        lemma_count_pos(input@, idx as int);
                        lemma_count_le_len(input@, input@[idx as int]);
                        lemma_huffman_tree_has_sym(freqs);
                    }
                    let b = bytes[0];
                    match &codes[b as usize] {
                        Some(c) => {
                            proof {
                                lemma_huffman_code_len(freqs, b);
                                assert(c@.len() < 256);
                            }
                            write_code(&mut enc.output_stream, c);
                            proof {
                                let pre = input@.subrange(0, idx as int);
                                let post = input@.subrange(0, idx + 1);
                                assert(post =~= pre.push(input@[idx as int]));
                                lemma_encode_syms_push(tree, pre, b);
                                assert((bits_of(header_bytes(freqs)) + encode_syms(tree, pre)) + c@
                                    =~= bits_of(header_bytes(freqs)) + encode_syms(tree, post));
                            }
                        },
                        None => {
                            proof {
                                assert(has_sym(tree, b));
                                assert(false);
                            }
                            return Err(Error::MalformedHeader);
                        },
                    }
                    idx = idx + 1;
                }
                proof {
                    assert(input@.subrange(0, len as int) =~= input@);
                }
                let ghost pending_fin = enc.output_stream.pending();
                let out = match enc.output_stream.flush() {
                    Ok(v) => v,
                    Err(_) => vstd::pervasive::unreached(),
                };
                proof {
                    lemma_encode_assemble(input@, pending_fin, out@);
                }
                Ok(out)
            },
            None => {
                proof {
                    lemma_leaves_upto_props(freqs, 256);
                    if input@.len() > 0 {
                        lemma_count_pos(input@, 0);
                        lemma_count_le_len(input@, input@[0]);
                        assert(freqs[input@[0] as int] != 0);
                    }
                    assert(input@.len() == 0);
                }
                let out = match enc.output_stream.flush() {
                    Ok(v) => v,
                    Err(_) => vstd::pervasive::unreached(),
                };
                proof {
                    let header = header_bytes(freqs);
                    assert(out@.len() == 1024);
                    assert forall|k: int| 0 <= k < 8192 implies bits_of(out@)[k] == bits_of(
                        header,
                    )[k] by {}
                    lemma_bytes_from_bits(out@, header);
                }
                Ok(out)
            },
        }
    }
}

/// Law: decoding an encoder's output restores the input exactly, for every
/// byte sequence whose per-symbol counts fit the 32-bit table — including
/// the empty input, a single byte, all-identical bytes, and sequences using
/// all 256 values.
pub proof fn lemma_round_trip(s: Seq<u8>, out: Seq<u8>)
    requires
        s.len() <= u32::MAX,
        encode_output_ok(s, out),
    ensures
        spec_decode(out) == Ok::<Seq<u8>, Error>(s),
{
    let freqs = spec_freqs(s);
    let header = header_bytes(freqs);
    lemma_total_of_freqs(s);
    lemma_freq_table_round_trip(freqs);
    if s.len() == 0 {
        assert(out.len() == 1024);
        assert(out.subrange(0, 1024) =~= out);
        assert(parse_freqs(out.subrange(0, 1024)) == freqs);
        assert(total_count(freqs) == 0);
        assert(s =~= Seq::<u8>::empty());
    } else {
        let t = huffman_tree(freqs);
        let body = encode_syms(t, s);
        assert(out.len() >= 1024);
        assert(parse_freqs(out.subrange(0, 1024)) == freqs);
        assert(total_count(freqs) == s.len());
        lemma_count_pos(s, 0);
        lemma_count_le_len(s, s[0]);
        lemma_leaves_upto_props(freqs, 256);
        assert(freqs[s[0] as int] != 0);
        assert(initial_queue(freqs).len() > 0);
        assert(out =~= out.subrange(0, 1024) + out.skip(1024));
        lemma_bits_of_append(out.subrange(0, 1024), out.skip(1024));
        let obits = bits_of(out).skip(8192);
        assert forall|k: int| 0 <= k < obits.len() implies obits[k] == bits_of(
            out.skip(1024),
        )[k] by {
            assert(obits[k] == bits_of(out)[8192 + k]);
        }
        assert(obits =~= bits_of(out.skip(1024)));
        let extra = obits.skip(body.len() as int);
        assert forall|k: int| 0 <= k < obits.len() implies obits[k] == (body + extra)[k] by {
            if k < body.len() {
                assert(bits_of(out.skip(1024))[k] == body[k]);
            }
        }
        assert(obits =~= body + extra);
        assert forall|i: int| 0 <= i < s.len() implies has_sym(t, #[trigger] s[i]) by {
            lemma_count_pos(s, i);
            lemma_count_le_len(s, s[i]);
            lemma_huffman_tree_has_sym(freqs);
        }
        lemma_decode_encode(t, s, extra);
        assert(decode_syms(t, obits, s.len() as nat) == Some(s));
    }
}

/// A value that never occurs in `s` has a zero count.
proof fn lemma_count_zero(s: Seq<u8>, v: u8)
    requires
        forall|i: int| 0 <= i < s.len() ==> s[i] != v,
    ensures
        count_of(s, v) == 0,
    decreases s.len(),
{
    if s.len() > 0 {
        lemma_count_zero(s.drop_last(), v);
    }
}

/// Law (degenerate alphabet, one value): an input with exactly one
/// distinct byte value — like any other input — decodes back exactly; the
/// single-leaf tree never makes the decoder step into an absent child.
pub proof fn lemma_single_value_round_trip(s: Seq<u8>, out: Seq<u8>)
    requires
        0 < s.len() <= u32::MAX,
        forall|i: int| 0 <= i < s.len() ==> #[trigger] s[i] == s[0],
        encode_output_ok(s, out),
    ensures
        spec_decode(out) == Ok::<Seq<u8>, Error>(s),
{
    lemma_round_trip(s, out);
}

/// Law (degenerate alphabet, two values): an input holding exactly two
/// distinct byte values gives each of them a one-bit code.
pub proof fn lemma_two_value_input_codes(s: Seq<u8>, a: u8, b: u8)
    requires
        s.len() <= u32::MAX,
        a != b,
        forall|i: int| 0 <= i < s.len() ==> (s[i] == a || s[i] == b),
        exists|i: int| 0 <= i < s.len() && s[i] == a,
        exists|i: int| 0 <= i < s.len() && s[i] == b,
    ensures
        (code_of(huffman_tree(spec_freqs(s)), a) matches Some(c) && c.len() == 1),
        (code_of(huffman_tree(spec_freqs(s)), b) matches Some(c) && c.len() == 1),
{
    let freqs = spec_freqs(s);
    let ia = choose|i: int| 0 <= i < s.len() && s[i] == a;
    lemma_count_pos(s, ia);
    lemma_count_le_len(s, a);
    let ib = choose|i: int| 0 <= i < s.len() && s[i] == b;
    lemma_count_pos(s, ib);
    lemma_count_le_len(s, b);
    assert(freqs[a as int] != 0);
    assert(freqs[b as int] != 0);
    assert forall|v: u8| v != a && v != b implies freqs[v as int] == 0 by {
        lemma_count_zero(s, v);
    }
    crate::hufftree::lemma_two_symbol_codes(freqs, a, b);
}

/// The decoder: owns the table read back from the header and the two
/// streams it drives — the encoded input walked bit by bit and the output
/// accumulating the restored bytes.
pub struct HuffmanDecoder {
    freq_t: Vec<u32>,
    input_stream: BitStream,
    output_stream: BitStream,
}

impl HuffmanDecoder {
    /// Decodes `input`: reads the 1024-byte table, rebuilds the tree the
    /// encoder used, walks the body bit by bit emitting a symbol at each
    /// leaf, and stops after emitting as many symbols as the table counts.
    /// A shorter-than-header input, or a body that ends inside a code, is
    /// a malformed-header error.
    ///
    /// The bounds are machine limits: the input's bit count and the output
    /// bit cursor (eight bits per promised symbol) must fit in `usize`.
    pub fn decode(input: &Vec<u8>) -> (r: Result<Vec<u8>, Error>)
        requires
            input@.len() * 8 <= usize::MAX,
            input@.len() >= 1024 ==> 8 * total_count(parse_freqs(input@.subrange(0, 1024))) + 8
                <= usize::MAX,
        ensures
            match r {
                Ok(v) => spec_decode(input@) == Ok::<Seq<u8>, Error>(v@),
                Err(e) => spec_decode(input@) == Err::<Seq<u8>, Error>(e),
            },
    {
        let data = copy_bytes(input);
        let mut dec = HuffmanDecoder {
            freq_t: Vec::new(),
            input_stream: BitStream::new(data, true),
            output_stream: BitStream::new(Vec::new(), false),
        };
        let _ = dec.output_stream.clear_output_file();
        let ghost src = dec.input_stream.source();
        let hdr = match dec.input_stream.read_bit_sequence(8192) {
            Ok(v) => v,
            Err(_) => vstd::pervasive::unreached(),
        };
        proof {
            if src.len() >= 1024 {
                assert(hdr@.len() == 1024);
                assert(src =~= src.subrange(0, 1024) + src.skip(1024));
                lemma_bits_of_append(src.subrange(0, 1024), src.skip(1024));
                assert forall|k: int| 0 <= k < 8192 implies bits_of(hdr@)[k] == bits_of(
                    src.subrange(0, 1024),
                )[k] by {
                    assert(bits_of(src).subrange(0, 8192)[k] == bits_of(src)[k]);
                    assert(bits_of(hdr@)[k] == bits_of(src)[k]);
                }
                lemma_bytes_from_bits(hdr@, src.subrange(0, 1024));
            } else {
                vstd::arithmetic::div_mod::lemma_fundamental_div_mod_converse(
                    8 * src.len() as int + 7,
                    8,
                    src.len() as int,
                    7,
                );
                assert(hdr@.len() == src.len());
            }
        }
        if hdr.len() < 1024 {
            return Err(Error::MalformedHeader);
        }
        let freqs = match parse_frequency_table(&hdr) {
            Ok(f) => f,
            Err(_) => vstd::pervasive::unreached(),
        };
        proof {
            assert(hdr@.subrange(0, 1024) =~= hdr@);
        }
        dec.freq_t = freqs;
        let ghost fr = dec.freq_t@;
        let mut total: u64 = 0;
        let mut i: usize = 0;
        while i < 256
            invariant
                i <= 256,
                dec.freq_t@ == fr,
                fr.len() == 256,
                total == sum_freqs_upto(fr, i as int),
                total <= i * 0xffff_ffffu64,
            decreases 256 - i,
        {
            total = total + (dec.freq_t[i] as u64);
            i = i + 1;
        }
        if total == 0 {
            let out = match dec.output_stream.flush() {
                Ok(v) => v,
                Err(_) => vstd::pervasive::unreached(),
            };
            return Ok(out);
        }
        let tree = match build_tree(&dec.freq_t) {
            Some(t) => t,
            None => {
                proof {
                    lemma_leaves_upto_props(fr, 256);
                    lemma_sum_zero(fr, 256);
                }
                vstd::pervasive::unreached()
            },
        };
        let ghost body = bits_of(src).skip(8192);
        let ghost target = decode_syms(tree, body, total as nat);
        let mut emitted: u64 = 0;
        let ghost mut decoded = Seq::<u8>::empty();
        let ghost mut sym_start = dec.input_stream.cursor();
        let mut node: &Tree = &tree;
        proof {
            assert(bits_of(Seq::<u8>::empty()) =~= Seq::<bool>::empty());
            if decode_syms(tree, body, total as nat) is Some {
                let rest = decode_syms(tree, body, total as nat).unwrap();
                assert(Seq::<u8>::empty() + rest =~= rest);
            }
        }
        while emitted < total
            invariant
                dec.input_stream.wf(),
                dec.input_stream.is_read(),
                dec.input_stream.source() == src,
                src.len() >= 1024,
                src.len() * 8 <= usize::MAX,
                8192 <= sym_start <= dec.input_stream.cursor() <= src.len() * 8,
                dec.output_stream.wf(),
                !dec.output_stream.is_read(),
                dec.output_stream.pending() == bits_of(decoded),
                dec.output_stream.cursor() == 8 * decoded.len(),
                decoded.len() == emitted,
                emitted <= total,
                8 * total + 8 <= usize::MAX,
                src == input@,
                fr == parse_freqs(input@.subrange(0, 1024)),
                total as int == total_count(fr),
                total != 0,
                tree == huffman_tree(fr),
                body == bits_of(src).skip(8192),
                target == decode_syms(tree, body, total as nat),
                walk_bits(tree, bits_of(src).skip(sym_start)) == walk_bits(
                    *node,
                    bits_of(src).skip(dec.input_stream.cursor()),
                ),
                target == (match decode_syms(
                    tree,
                    bits_of(src).skip(sym_start),
                    (total - emitted) as nat,
                ) {
                    Some(rest) => Some(decoded + rest),
                    None => None::<Seq<u8>>,
                }),
            decreases total - emitted, src.len() * 8 - dec.input_stream.cursor(),
        {
            match node {
                Tree::Leaf { sym } => {
                    let ghost c = dec.input_stream.cursor();
                    let ghost rem = (total - emitted) as nat;
                    let mut one: Vec<u8> = Vec::new();
                    one.push(*sym);
                    let _ = dec.output_stream.write_bit_sequence(one.as_slice(), 8);
                    proof {
                        // the walk at a leaf emits without consuming bits
                        assert(walk_bits(tree, bits_of(src).skip(sym_start)) == Some(
                            (*sym, bits_of(src).skip(c)),
                        ));
                        assert(decode_syms(tree, bits_of(src).skip(sym_start), rem)
                            == match decode_syms(tree, bits_of(src).skip(c), (rem - 1) as nat) {
                            None => None::<Seq<u8>>,
                            Some(tail) => Some(seq![*sym] + tail),
                        });
                        if decode_syms(tree, bits_of(src).skip(c), (rem - 1) as nat) is Some {
                            let tail = decode_syms(
                                tree,
                                bits_of(src).skip(c),
                                (rem - 1) as nat,
                            ).unwrap();
                            assert(decoded + (seq![*sym] + tail) =~= decoded.push(*sym) + tail);
                        }
                        // the output accumulator grows by the symbol's bits
                        assert forall|j: int| 0 <= j < 8 implies bits_of(one@)[j] == byte_bits(*sym)[j] by {
                            lemma_bit_index(0, j);
                        }
                        assert(bits_of(one@) =~= byte_bits(*sym));
                        assert(bits_of(one@).take(8) =~= bits_of(one@));
                        lemma_bits_of_push(decoded, *sym);
                        decoded = decoded.push(*sym);
                        sym_start = c;
                    }
                    emitted = emitted + 1;
                    node = &tree;
                },
                Tree::Node { left, right } => {
                    let ghost c = dec.input_stream.cursor();
                    let bits = match dec.input_stream.read_bit_sequence(1) {
                        Ok(v) => v,
                        Err(_) => vstd::pervasive::unreached(),
                    };
                    if bits.len() == 0 {
                        proof {
                            let rem = (total - emitted) as nat;
                            assert(c == src.len() * 8);
                            assert(bits_of(src).skip(c) =~= Seq::<bool>::empty());
                            assert(walk_bits(*node, bits_of(src).skip(c)) is None);
                            assert(decode_syms(tree, bits_of(src).skip(sym_start), rem) is None);
                            assert(target is None);
                            assert(spec_decode(input@) == Err::<Seq<u8>, Error>(
                                Error::MalformedHeader,
                            ));
                        }
                        return Err(Error::MalformedHeader);
                    }
                    let b = get_bit(bits[0], 0);
                    proof {
                        assert(c < src.len() * 8);
                        lemma_bit_index(0, 0);
                        assert(bits_of(bits@)[0] == bits_of(src).subrange(c, c + 1)[0]);
                        assert(b == bits_of(src)[c]);
                        let tail = bits_of(src).skip(c);
                        assert(tail[0] == bits_of(src)[c]);
                        assert(tail.drop_first() =~= bits_of(src).skip(c + 1));
                    }
                    node = if b {
                        &**right
                    } else {
                        &**left
                    };
                },
            }
        }
        proof {
            assert(decode_syms(tree, bits_of(src).skip(sym_start), 0) == Some(
                Seq::<u8>::empty(),
            ));
            assert(decoded + Seq::<u8>::empty() =~= decoded);
            assert(target == Some(decoded));
        }
        let ghost pending_fin = dec.output_stream.pending();
        let out = match dec.output_stream.flush() {
            Ok(v) => v,
            Err(_) => vstd::pervasive::unreached(),
        };
        proof {
            vstd::arithmetic::div_mod::lemma_fundamental_div_mod_converse(
                8 * decoded.len() as int + 7,
                8,
                decoded.len() as int,
                7,
            );
            assert(out@.len() == decoded.len());
            assert forall|k: int| 0 <= k < decoded.len() * 8 implies bits_of(out@)[k] == bits_of(
                decoded,
            )[k] by {
                assert(bits_of(out@)[k] == pending_fin[k]);
            }
            lemma_bytes_from_bits(out@, decoded);
        }
        Ok(out)
    }
}

} // verus!
