//! Fixed-capacity wire buffer with a read/write cursor.
//!
//! The buffer holds exactly [`CAPACITY`] bytes (the classic non-EDNS UDP
//! datagram limit). Every operation is bounds-checked: nothing ever reads
//! or writes past the capacity; a violation yields [`DnsError::OutOfBounds`].

use vstd::prelude::*;

use crate::DnsError;

verus! {

/// The fixed size of a DNS datagram buffer.
pub const CAPACITY: usize = 512;

/// A fixed-capacity byte buffer with a cursor, the only component that
/// understands the raw wire layout.
#[derive(Debug)]
pub struct BytePacketBuffer {
    /// The byte storage; always exactly [`CAPACITY`] bytes.
    pub buf: Vec<u8>,
    /// The read/write cursor; never exceeds [`CAPACITY`] after a
    /// successful operation.
    pub pos: usize,
}

impl BytePacketBuffer {
    /// Well-formedness: full-capacity storage and an in-range cursor.
    pub open spec fn wf(&self) -> bool {
        self.buf@.len() == CAPACITY && self.pos <= CAPACITY
    }

    /// A fresh zeroed buffer with the cursor at the start.
    pub fn new() -> (r: BytePacketBuffer)
        ensures
            r.wf(),
            r.pos == 0,
            r.buf@ == Seq::<u8>::new(CAPACITY as nat, |i: int| 0u8),
    {
        let mut buf: Vec<u8> = Vec::new();
        let mut i: usize = 0;
        while i < CAPACITY
            invariant
                i <= CAPACITY,
                buf@ == Seq::<u8>::new(i as nat, |j: int| 0u8),
            decreases CAPACITY - i,
        {
            buf.push(0);
            proof {
                assert(buf@ =~= Seq::<u8>::new((i + 1) as nat, |j: int| 0u8));
            }
            i = i + 1;
        }
        BytePacketBuffer { buf, pos: 0 }
    }

    /// The current cursor position.
    pub fn pos(&self) -> (r: usize)
        ensures
            r == self.pos,
    {
        self.pos
    }

    /// Advances the cursor by `steps`, refusing to move past the capacity.
    pub fn step(&mut self, steps: usize) -> (r: Result<(), DnsError>)
        requires
            old(self).wf(),
        ensures
            final(self).wf(),
            final(self).buf == old(self).buf,
            old(self).pos + steps <= CAPACITY ==> r == Ok::<(), DnsError>(())
                && final(self).pos == old(self).pos + steps,
            old(self).pos + steps > CAPACITY ==> r == Err::<(), DnsError>(DnsError::OutOfBounds)
                && final(self).pos == old(self).pos,
    {
        if steps <= CAPACITY - self.pos {
            self.pos = self.pos + steps;
            Ok(())
        } else {
            Err(DnsError::OutOfBounds)
        }
    }

    /// Moves the cursor to an absolute position, refusing one past the capacity.
    pub fn seek(&mut self, pos: usize) -> (r: Result<(), DnsError>)
        requires
            old(self).wf(),
        ensures
            final(self).wf(),
            final(self).buf == old(self).buf,
            pos <= CAPACITY ==> r == Ok::<(), DnsError>(()) && final(self).pos == pos,
            pos > CAPACITY ==> r == Err::<(), DnsError>(DnsError::OutOfBounds)
                && final(self).pos == old(self).pos,
    {
        if pos <= CAPACITY {
            self.pos = pos;
            Ok(())
        } else {
            Err(DnsError::OutOfBounds)
        }
    }

    /// Reads the byte under the cursor and advances the cursor by one.
    pub fn read(&mut self) -> (r: Result<u8, DnsError>)
        requires
            old(self).wf(),
        ensures
            final(self).wf(),
            final(self).buf == old(self).buf,
            old(self).pos < CAPACITY ==> r == Ok::<u8, DnsError>(old(self).buf@[old(self).pos as int])
                && final(self).pos == old(self).pos + 1,
            old(self).pos >= CAPACITY ==> r == Err::<u8, DnsError>(DnsError::OutOfBounds)
                && final(self).pos == old(self).pos,
    {
        if self.pos >= CAPACITY {
            return Err(DnsError::OutOfBounds);
        }
        let res: u8 = self.buf[self.pos];
        self.pos = self.pos + 1;
        Ok(res)
    }

    /// Reads the byte at an absolute position without moving the cursor.
    pub fn get(&self, pos: usize) -> (r: Result<u8, DnsError>)
        requires
            self.wf(),
        ensures
            pos < CAPACITY ==> r == Ok::<u8, DnsError>(self.buf@[pos as int]),
            pos >= CAPACITY ==> r == Err::<u8, DnsError>(DnsError::OutOfBounds),
    {
        if pos >= CAPACITY {
            return Err(DnsError::OutOfBounds);
        }
        Ok(self.buf[pos])
    }

    /// Copies out the bytes at `start .. start + len` without moving the cursor.
    pub fn get_range(&self, start: usize, len: usize) -> (r: Result<Vec<u8>, DnsError>)
        requires
            self.wf(),
        ensures
            start + len <= CAPACITY ==> (r matches Ok(v)
                && v@ == self.buf@.subrange(start as int, start + len)),
            start + len > CAPACITY ==> r == Err::<Vec<u8>, DnsError>(DnsError::OutOfBounds),
    {
        if start <= CAPACITY && len <= CAPACITY - start {
            let mut out: Vec<u8> = Vec::new();
            let mut i: usize = 0;
            while i < len
                invariant
                    self.wf(),
                    i <= len,
                    start + len <= CAPACITY,
                    out@ == self.buf@.subrange(start as int, start + i),
                decreases len - i,
            {
                out.push(self.buf[start + i]);
                proof {
                    assert(out@ =~= self.buf@.subrange(start as int, start + i + 1));
                }
                i = i + 1;
            }
            Ok(out)
        } else {
            Err(DnsError::OutOfBounds)
        }
    }
    /// Reads two bytes as a big-endian 16-bit value, advancing the cursor.
    pub fn read_u16(&mut self) -> (r: Result<u16, DnsError>)
        requires
            old(self).wf(),
        ensures
            final(self).wf(),
            final(self).buf == old(self).buf,
            old(self).pos + 2 <= CAPACITY ==> r == Ok::<u16, DnsError>(be16(
                old(self).buf@[old(self).pos as int],
                old(self).buf@[old(self).pos + 1],
            )) && final(self).pos == old(self).pos + 2,
            old(self).pos + 2 > CAPACITY ==> r == Err::<u16, DnsError>(DnsError::OutOfBounds),
    {
        let hi: u8 = self.read()?;
        let lo: u8 = self.read()?;
        proof {
            assert(((hi as u16) << 8) | (lo as u16) == (hi as u16) * 256 + (lo as u16))
                by (bit_vector);
        }
        Ok(((hi as u16) << 8) | (lo as u16))
    }

    /// Reads four bytes as a big-endian 32-bit value, advancing the cursor.
    pub fn read_u32(&mut self) -> (r: Result<u32, DnsError>)
        requires
            old(self).wf(),
        ensures
            final(self).wf(),
            final(self).buf == old(self).buf,
            old(self).pos + 4 <= CAPACITY ==> r == Ok::<u32, DnsError>(be32(
                old(self).buf@[old(self).pos as int],
                old(self).buf@[old(self).pos + 1],
                old(self).buf@[old(self).pos + 2],
                old(self).buf@[old(self).pos + 3],
            )) && final(self).pos == old(self).pos + 4,
            old(self).pos + 4 > CAPACITY ==> r == Err::<u32, DnsError>(DnsError::OutOfBounds),
    {
        let b0: u8 = self.read()?;
        let b1: u8 = self.read()?;
        let b2: u8 = self.read()?;
        let b3: u8 = self.read()?;
        proof {
            assert(((b0 as u32) << 24) | ((b1 as u32) << 16) | ((b2 as u32) << 8) | (b3 as u32)
                == (b0 as u32) * 0x1000000 + (b1 as u32) * 0x10000 + (b2 as u32) * 0x100
                + (b3 as u32)) by (bit_vector);
        }
        Ok(((b0 as u32) << 24) | ((b1 as u32) << 16) | ((b2 as u32) << 8) | (b3 as u32))
    }

    /// Writes one byte at the cursor and advances it.
    pub fn write(&mut self, val: u8) -> (r: Result<(), DnsError>)
        requires
            old(self).wf(),
        ensures
            final(self).wf(),
            old(self).pos < CAPACITY ==> r == Ok::<(), DnsError>(())
                && final(self).buf@ == old(self).buf@.update(old(self).pos as int, val)
                && final(self).pos == old(self).pos + 1,
            old(self).pos >= CAPACITY ==> r == Err::<(), DnsError>(DnsError::OutOfBounds)
                && *final(self) == *old(self),
    {
        if self.pos >= CAPACITY {
            return Err(DnsError::OutOfBounds);
        }
        self.buf.set(self.pos, val);
        self.pos = self.pos + 1;
        Ok(())
    }

    /// Writes one byte at the cursor and advances it.
    pub fn write_u8(&mut self, val: u8) -> (r: Result<(), DnsError>)
        requires
            old(self).wf(),
        ensures
            final(self).wf(),
            old(self).pos < CAPACITY ==> r == Ok::<(), DnsError>(())
                && final(self).buf@ == old(self).buf@.update(old(self).pos as int, val)
                && final(self).pos == old(self).pos + 1,
            old(self).pos >= CAPACITY ==> r == Err::<(), DnsError>(DnsError::OutOfBounds)
                && *final(self) == *old(self),
    {
        self.write(val)
    }

    /// Writes a 16-bit value big-endian at the cursor, advancing it by two.
    pub fn write_u16(&mut self, val: u16) -> (r: Result<(), DnsError>)
        requires
            old(self).wf(),
        ensures
            final(self).wf(),
            old(self).pos + 2 <= CAPACITY ==> r == Ok::<(), DnsError>(())
                && final(self).buf@ == splice(old(self).buf@, old(self).pos as int, be16_bytes(val))
                && final(self).pos == old(self).pos + 2,
            old(self).pos + 2 > CAPACITY ==> r == Err::<(), DnsError>(DnsError::OutOfBounds),
    {
        let ghost pre = self.buf@;
        let ghost p = self.pos as int;
        self.write((val >> 8) as u8)?;
        self.write((val & 0xFF) as u8)?;
        proof {
            assert(self.buf@ =~= splice(pre, p, be16_bytes(val)));
        }
        Ok(())
    }

    /// Writes a 32-bit value big-endian at the cursor, advancing it by four.
    pub fn write_u32(&mut self, val: u32) -> (r: Result<(), DnsError>)
        requires
            old(self).wf(),
        ensures
            final(self).wf(),
            old(self).pos + 4 <= CAPACITY ==> r == Ok::<(), DnsError>(())
                && final(self).buf@ == splice(old(self).buf@, old(self).pos as int, be32_bytes(val))
                && final(self).pos == old(self).pos + 4,
            old(self).pos + 4 > CAPACITY ==> r == Err::<(), DnsError>(DnsError::OutOfBounds),
    {
        let ghost pre = self.buf@;
        let ghost p = self.pos as int;
        self.write((val >> 24) as u8)?;
        self.write(((val >> 16) & 0xFF) as u8)?;
        self.write(((val >> 8) & 0xFF) as u8)?;
        self.write((val & 0xFF) as u8)?;
        proof {
            assert(self.buf@ =~= splice(pre, p, be32_bytes(val)));
        }
        Ok(())
    }

    /// Overwrites the byte at an absolute position; the cursor stays put.
    pub fn set(&mut self, pos: usize, val: u8) -> (r: Result<(), DnsError>)
        requires
            old(self).wf(),
        ensures
            final(self).wf(),
            final(self).pos == old(self).pos,
            pos < CAPACITY ==> r == Ok::<(), DnsError>(())
                && final(self).buf@ == old(self).buf@.update(pos as int, val),
            pos >= CAPACITY ==> r == Err::<(), DnsError>(DnsError::OutOfBounds)
                && *final(self) == *old(self),
    {
        if pos >= CAPACITY {
            return Err(DnsError::OutOfBounds);
        }
        self.buf.set(pos, val);
        Ok(())
    }

    /// Patches a 16-bit big-endian value in place at an absolute position,
    /// used to backfill a previously written field without moving the cursor.
    pub fn set_u16(&mut self, pos: usize, val: u16) -> (r: Result<(), DnsError>)
        requires
            old(self).wf(),
        ensures
            final(self).wf(),
            final(self).pos == old(self).pos,
            pos + 2 <= CAPACITY ==> r == Ok::<(), DnsError>(())
                && final(self).buf@ == splice(old(self).buf@, pos as int, be16_bytes(val)),
            pos + 2 > CAPACITY ==> r == Err::<(), DnsError>(DnsError::OutOfBounds),
    {
        let ghost pre = self.buf@;
        self.set(pos, (val >> 8) as u8)?;
        if pos < CAPACITY - 1 {
            self.set(pos + 1, (val & 0xFF) as u8)?;
            proof {
                assert(self.buf@ =~= splice(pre, pos as int, be16_bytes(val)));
            }
            Ok(())
        } else {
            Err(DnsError::OutOfBounds)
        }
    }
}

/// The 16-bit value that two big-endian bytes denote.
pub open spec fn be16(hi: u8, lo: u8) -> u16 {
    ((hi as int) * 256 + (lo as int)) as u16
}

/// The 32-bit value that four big-endian bytes denote.
pub open spec fn be32(b0: u8, b1: u8, b2: u8, b3: u8) -> u32 {
    ((b0 as int) * 0x1000000 + (b1 as int) * 0x10000 + (b2 as int) * 0x100 + (b3 as int)) as u32
}

/// The two big-endian bytes of a 16-bit value.
pub open spec fn be16_bytes(val: u16) -> Seq<u8> {
    seq![(val >> 8) as u8, (val & 0xFF) as u8]
}

/// The four big-endian bytes of a 32-bit value.
pub open spec fn be32_bytes(val: u32) -> Seq<u8> {
    seq![(val >> 24) as u8, ((val >> 16) & 0xFF) as u8, ((val >> 8) & 0xFF) as u8, (val & 0xFF) as u8]
}

/// The big-endian bytes of a 32-bit value denote that value back.
pub proof fn lemma_be32_roundtrip(val: u32)
    ensures
        be32(
            (val >> 24) as u8,
            ((val >> 16) & 0xFF) as u8,
            ((val >> 8) & 0xFF) as u8,
            (val & 0xFF) as u8,
        ) == val,
{
    assert(((val >> 24) as u8 as u32) * 0x1000000 + (((val >> 16) & 0xFF) as u8 as u32) * 0x10000
        + (((val >> 8) & 0xFF) as u8 as u32) * 0x100 + ((val & 0xFF) as u8 as u32) == val)
        by (bit_vector);
}

/// `buf` with the bytes starting at `pos` replaced by `bytes`.
pub open spec fn splice(buf: Seq<u8>, pos: int, bytes: Seq<u8>) -> Seq<u8> {
    buf.map(|i: int, b: u8| if pos <= i < pos + bytes.len() { bytes[i - pos] } else { b })
}

/// ASCII lowercasing of one byte.
pub open spec fn lower(b: u8) -> u8 {
    if 65 <= b && b <= 90 {
        (b + 32) as u8
    } else {
        b
    }
}

/// ASCII lowercasing of a byte sequence.
pub open spec fn lower_seq(s: Seq<u8>) -> Seq<u8> {
    s.map_values(|b: u8| lower(b))
}

/// The labels of a compressed name read from `buf` starting at `pos`, with
/// `jumps` pointer-follows already performed. A length byte at or above 192
/// is a pointer whose remaining 14 bits give an absolute target offset; more
/// than five pointer-follows is refused as a loop guard.
pub open spec fn parse_name(buf: Seq<u8>, pos: int, jumps: int) -> Result<Seq<Seq<u8>>, DnsError>
    decreases 6 - jumps, (if pos < 512 { 512 - pos } else { 0int }),
{
    if jumps > 5 {
        Err(DnsError::TooManyJumps)
    } else if pos < 0 || pos >= 512 {
        Err(DnsError::OutOfBounds)
    } else {
        let len = buf[pos];
        if len >= 192 {
            if pos + 1 >= 512 {
                Err(DnsError::OutOfBounds)
            } else {
                parse_name(buf, (len - 192) * 256 + buf[pos + 1], jumps + 1)
            }
        } else if len == 0 {
            Ok(Seq::empty())
        } else if pos + 1 + len > 512 {
            Err(DnsError::OutOfBounds)
        } else {
            match parse_name(buf, pos + 1 + len, jumps) {
                Ok(rest) => Ok(seq![buf.subrange(pos + 1, pos + 1 + len)] + rest),
                Err(e) => Err(e),
            }
        }
    }
}

/// Where the cursor lands after reading a name that starts at `pos`: just
/// past the terminating zero label, or just past the first pointer if the
/// name jumps (later jumps never move the cursor).
pub open spec fn name_end(buf: Seq<u8>, pos: int) -> int
    decreases (if 0 <= pos < 512 { 512 - pos } else { 0int }),
{
    if pos < 0 || pos >= 512 {
        pos
    } else if buf[pos] >= 192 {
        pos + 2
    } else if buf[pos] == 0 {
        pos + 1
    } else {
        name_end(buf, pos + 1 + buf[pos])
    }
}

/// Lowercases each label and joins them with dots.
pub open spec fn join_labels(labels: Seq<Seq<u8>>) -> Seq<u8>
    decreases labels.len(),
{
    if labels.len() == 0 {
        Seq::empty()
    } else if labels.len() == 1 {
        lower_seq(labels[0])
    } else {
        lower_seq(labels[0]) + seq![46u8] + join_labels(labels.drop_first())
    }
}

/// Prepends already-read labels to the outcome of reading the rest.
pub open spec fn prepend_labels(done: Seq<Seq<u8>>, r: Result<Seq<Seq<u8>>, DnsError>) -> Result<
    Seq<Seq<u8>>,
    DnsError,
> {
    match r {
        Ok(rest) => Ok(done + rest),
        Err(e) => Err(e),
    }
}

/// The index of the first dot in `name`, or `name.len()` if there is none.
pub open spec fn first_dot(name: Seq<u8>) -> nat
    decreases name.len(),
{
    if name.len() == 0 {
        0
    } else if name[0] == 46 {
        0
    } else {
        1 + first_dot(name.drop_first())
    }
}

/// The labels of a dotted name: split on every dot, as the encoder sees it.
/// A name without dots is a single label; an empty name is one empty label.
pub open spec fn split_labels(name: Seq<u8>) -> Seq<Seq<u8>>
    decreases name.len(),
{
    let i = first_dot(name) as int;
    if i >= name.len() {
        seq![name]
    } else {
        seq![name.take(i)] + split_labels(name.skip(i + 1))
    }
}

/// The outcome of writing `labels` length-prefixed at `pos`, terminator
/// included: the new buffer contents and cursor, or the first failure
/// (a label over 63 bytes, or running out of room).
pub open spec fn qname_write(buf: Seq<u8>, pos: int, labels: Seq<Seq<u8>>) -> Result<
    (Seq<u8>, int),
    DnsError,
>
    decreases labels.len(),
{
    if labels.len() == 0 {
        if pos < 0 || pos >= 512 {
            Err(DnsError::OutOfBounds)
        } else {
            Ok((buf.update(pos, 0u8), pos + 1))
        }
    } else {
        let l = labels[0];
        if l.len() > 63 {
            Err(DnsError::LabelTooLong)
        } else if pos < 0 || pos + 1 + l.len() > 512 {
            Err(DnsError::OutOfBounds)
        } else {
            qname_write(
                splice(buf, pos, seq![l.len() as u8] + l),
                pos + 1 + l.len(),
                labels.drop_first(),
            )
        }
    }
}

/// Prepending no labels changes nothing.
proof fn lemma_prepend_empty(r: Result<Seq<Seq<u8>>, DnsError>)
    ensures
        prepend_labels(Seq::empty(), r) == r,
{
    match r {
        Ok(rest) => {
            assert(Seq::<Seq<u8>>::empty() + rest =~= rest);
        },
        Err(_) => {},
    }
}

/// Prepending one more label folds into the accumulated prefix.
proof fn lemma_prepend_push(done: Seq<Seq<u8>>, l: Seq<u8>, r: Result<Seq<Seq<u8>>, DnsError>)
    ensures
        prepend_labels(done, prepend_labels(seq![l], r)) == prepend_labels(done.push(l), r),
{
    match r {
        Ok(rest) => {
            assert(done + (seq![l] + rest) =~= done.push(l) + rest);
        },
        Err(_) => {},
    }
}

/// Joining after appending a label adds a dot separator exactly when some
/// label came before it.
proof fn lemma_join_push(labels: Seq<Seq<u8>>, l: Seq<u8>)
    ensures
        join_labels(labels.push(l)) == if labels.len() == 0 {
            lower_seq(l)
        } else {
            join_labels(labels) + seq![46u8] + lower_seq(l)
        },
    decreases labels.len(),
{
    if labels.len() == 0 {
        assert(labels.push(l) =~= seq![l]);
    } else {
        lemma_join_push(labels.drop_first(), l);
        assert(labels.push(l).drop_first() =~= labels.drop_first().push(l));
        assert(labels.push(l)[0] == labels[0]);
        if labels.len() == 1 {
            assert(join_labels(labels) == lower_seq(labels[0]));
        }
    }
}

/// `first_dot` names the first dot: if no dot stands before `m`, and `m` is
/// the length or a dot, then `first_dot` is `m`.
proof fn lemma_first_dot_at(s: Seq<u8>, m: int)
    requires
        0 <= m <= s.len(),
        forall|j: int| 0 <= j < m ==> s[j] != 46,
        m < s.len() ==> s[m] == 46,
    ensures
        first_dot(s) == m,
    decreases m,
{
    if m == 0 {
    } else {
        assert(s[0] != 46);
        assert(forall|j: int| 0 <= j < m - 1 ==> s.drop_first()[j] == s[j + 1]);
        lemma_first_dot_at(s.drop_first(), m - 1);
    }
}

/// ASCII lowercasing of one byte, executable form.
fn lower_byte(b: u8) -> (r: u8)
    ensures
        r == lower(b),
{
    if 65 <= b && b <= 90 {
        b + 32
    } else {
        b
    }
}

/// Appends the lowercased bytes of `label` to `out`.
fn push_lower(out: &mut Vec<u8>, label: &Vec<u8>)
    ensures
        final(out)@ == old(out)@ + lower_seq(label@),
{
    let ghost base = out@;
    let mut k: usize = 0;
    while k < label.len()
        invariant
            k <= label@.len(),
            out@ == base + lower_seq(label@.take(k as int)),
        decreases label@.len() - k,
    {
        out.push(lower_byte(label[k]));
        proof {
            assert(lower_seq(label@.take(k + 1)) =~= lower_seq(label@.take(k as int)).push(
                lower(label@[k as int]),
            ));
            assert(out@ =~= base + lower_seq(label@.take(k + 1)));
        }
        k = k + 1;
    }
    proof {
        assert(label@.take(label@.len() as int) =~= label@);
    }
}

impl BytePacketBuffer {
    /// Reads a possibly compressed name starting at the cursor and appends
    /// it, lowercased and dot-joined, to `outstr`. The cursor ends just past
    /// the terminating zero label, or just past the first pointer if the
    /// name jumped; at most five pointer-follows are performed before the
    /// read fails with `TooManyJumps`.
    #[verifier::loop_isolation(false)]
    pub fn read_qname(&mut self, outstr: &mut Vec<u8>) -> (r: Result<(), DnsError>)
        requires
            old(self).wf(),
        ensures
            final(self).wf(),
            final(self).buf@ == old(self).buf@,
            match parse_name(old(self).buf@, old(self).pos as int, 0) {
                Ok(labels) => r == Ok::<(), DnsError>(()) && final(outstr)@ == old(outstr)@
                    + join_labels(labels) && final(self).pos == name_end(
                    old(self).buf@,
                    old(self).pos as int,
                ),
                Err(e) => r == Err::<(), DnsError>(e),
            },
    {
        let ghost buf0 = self.buf@;
        let ghost pos0 = self.pos as int;
        let ghost out0 = outstr@;
        let mut pos: usize = self.pos;
        let mut jumped = false;
        let max_jumps: usize = 5;
        let mut jumps_performed: usize = 0;
        let mut first = true;
        let ghost mut done: Seq<Seq<u8>> = Seq::empty();

        proof {
            lemma_prepend_empty(parse_name(buf0, pos0, 0));
        }

        loop
            invariant
                self.wf(),
                self.buf@ == buf0,
                max_jumps == 5,
                jumps_performed <= 6,
                parse_name(buf0, pos0, 0) == prepend_labels(
                    done,
                    parse_name(buf0, pos as int, jumps_performed as int),
                ),
                outstr@ == out0 + join_labels(done),
                first <==> done.len() == 0,
                !jumped ==> self.pos == pos0 && name_end(buf0, pos0) == name_end(
                    buf0,
                    pos as int,
                ),
                jumped ==> self.pos == name_end(buf0, pos0),
            decreases 6 - jumps_performed, (if (pos as int) < 512 {
                512 - pos as int
            } else {
                0int
            }),
        {
            if jumps_performed > max_jumps {
                return Err(DnsError::TooManyJumps);
            }

            let len: u8 = self.get(pos)?;

            if len >= 192 {
                // A compression pointer: only the first jump moves the cursor,
                // past the two pointer bytes.
                if !jumped {
                    self.seek(pos + 2)?;
                }

                let b2: u16 = self.get(pos + 1)? as u16;
                let offset: u16 = ((len as u16) - 192) * 256 + b2;
                pos = offset as usize;

                jumped = true;
                jumps_performed = jumps_performed + 1;
            } else if len == 0 {
                // Terminating zero label: the name is complete.
                if !jumped {
                    self.seek(pos + 1)?;
                }
                proof {
                    assert(done + Seq::<Seq<u8>>::empty() =~= done);
                }
                return Ok(());
            } else {
                // A plain label: delimiter, then the lowercased label bytes.
                if !first {
                    outstr.push(46);
                }

                let label = self.get_range(pos + 1, len as usize)?;
                push_lower(outstr, &label);

                proof {
                    let ghost l = buf0.subrange(pos + 1, pos + 1 + len);
                    assert(label@ == l);
                    lemma_prepend_push(
                        done,
                        l,
                        parse_name(buf0, pos + 1 + len, jumps_performed as int),
                    );
                    lemma_join_push(done, l);
                    done = done.push(l);
                }
                first = false;
                pos = pos + 1 + (len as usize);
            }
        }
    }
}

/// Writes one length-prefixed label taken from `qname[start..end]`.
proof fn lemma_split_step(name: Seq<u8>, start: int, end: int)
    requires
        0 <= start <= end <= name.len(),
        forall|j: int| start <= j < end ==> name[j] != 46,
        end < name.len() ==> name[end] == 46,
    ensures
        end == name.len() ==> split_labels(name.skip(start)) == seq![name.subrange(start, end)],
        end < name.len() ==> split_labels(name.skip(start)) == seq![name.subrange(start, end)]
            + split_labels(name.skip(end + 1)),
{
    let s = name.skip(start);
    assert(forall|j: int| 0 <= j < end - start ==> s[j] == name[j + start] && s[j] != 46);
    lemma_first_dot_at(s, end - start);
    assert(s.take(end - start) =~= name.subrange(start, end));
    if end == name.len() {
        assert(s.take(end - start) =~= s);
    } else {
        assert(s.skip(end - start + 1) =~= name.skip(end + 1));
    }
}

impl BytePacketBuffer {
    /// Writes the bytes of one label, length byte first.
    #[verifier::loop_isolation(false)]
    fn write_label(&mut self, qname: &Vec<u8>, start: usize, end: usize) -> (r: Result<
        (),
        DnsError,
    >)
        requires
            old(self).wf(),
            start <= end <= qname@.len(),
            end - start <= 63,
        ensures
            final(self).wf(),
            old(self).pos + 1 + (end - start) <= CAPACITY ==> r == Ok::<(), DnsError>(())
                && final(self).buf@ == splice(
                old(self).buf@,
                old(self).pos as int,
                seq![(end - start) as u8] + qname@.subrange(start as int, end as int),
            ) && final(self).pos == old(self).pos + 1 + (end - start),
            old(self).pos + 1 + (end - start) > CAPACITY ==> r == Err::<(), DnsError>(
                DnsError::OutOfBounds,
            ),
    {
        let ghost buf0 = self.buf@;
        let ghost pos0 = self.pos as int;
        let ghost bytes = seq![(end - start) as u8] + qname@.subrange(start as int, end as int);
        self.write_u8((end - start) as u8)?;
        let mut j: usize = start;
        while j < end
            invariant
                start <= j <= end,
                self.wf(),
                self.pos == pos0 + 1 + (j - start),
                self.buf@ == splice(buf0, pos0, bytes.take(1 + j - start)),
            decreases end - j,
        {
            match self.write_u8(qname[j]) {
                Ok(_) => {},
                Err(e) => {
                    return Err(e);
                },
            }
            proof {
                assert(self.buf@ =~= splice(buf0, pos0, bytes.take(1 + (j + 1) - start)));
            }
            j = j + 1;
        }
        proof {
            assert(bytes.take(1 + end - start) =~= bytes);
            assert(splice(buf0, pos0, seq![bytes[0]]) =~= buf0.update(pos0, bytes[0]));
        }
        Ok(())
    }

    /// Writes a name as length-prefixed labels split on dots, terminated by
    /// a zero label, refusing any label longer than 63 bytes. No compression
    /// is produced: outbound names are always written in full.
    #[verifier::loop_isolation(false)]
    #[verifier::rlimit(60)]
    #[verifier::spinoff_prover]
    pub fn write_qname(&mut self, qname: &Vec<u8>) -> (r: Result<(), DnsError>)
        requires
            old(self).wf(),
        ensures
            final(self).wf(),
            match qname_write(old(self).buf@, old(self).pos as int, split_labels(qname@)) {
                Ok((b, p)) => r == Ok::<(), DnsError>(()) && final(self).buf@ == b
                    && final(self).pos == p,
                Err(e) => r == Err::<(), DnsError>(e),
            },
    {
        let ghost buf0 = self.buf@;
        let ghost pos0 = self.pos as int;
        let mut start: usize = 0;

        proof {
            assert(qname@.skip(0) =~= qname@);
        }

        loop
            invariant
                self.wf(),
                start <= qname@.len(),
                qname_write(buf0, pos0, split_labels(qname@)) == qname_write(
                    self.buf@,
                    self.pos as int,
                    split_labels(qname@.skip(start as int)),
                ),
            decreases qname@.len() - start,
        {
            let mut end: usize = start;
            while end < qname.len() && *(&qname[end]) != 46
                invariant
                    start <= end <= qname@.len(),
                    forall|j: int| start <= j < end ==> qname@[j] != 46,
                decreases qname@.len() - end,
            {
                end = end + 1;
            }
            proof {
                lemma_split_step(qname@, start as int, end as int);
            }

            let llen: usize = end - start;
            if llen > 63 {
                return Err(DnsError::LabelTooLong);
            }

            let ghost pre_buf = self.buf@;
            let ghost pre_pos = self.pos as int;
            self.write_label(qname, start, end)?;

            proof {
                let lbls = split_labels(qname@.skip(start as int));
                assert(lbls[0] == qname@.subrange(start as int, end as int));
                if end == qname@.len() {
                    assert(lbls.drop_first() =~= Seq::<Seq<u8>>::empty());
                } else {
                    assert(lbls.drop_first() =~= split_labels(qname@.skip(end + 1)));
                }
                assert(qname_write(pre_buf, pre_pos, lbls) == qname_write(
                    self.buf@,
                    self.pos as int,
                    lbls.drop_first(),
                ));
            }

            if end == qname.len() {
                let ghost cur = self.buf@;
                let ghost cpos = self.pos as int;
                proof {
                    assert(qname_write(buf0, pos0, split_labels(qname@)) == qname_write(
                        cur,
                        cpos,
                        Seq::<Seq<u8>>::empty(),
                    ));
                }
                self.write_u8(0)?;
                proof {
                    assert(self.buf@ == cur.update(cpos, 0u8));
                    assert(qname_write(cur, cpos, Seq::<Seq<u8>>::empty()) == Ok::<
                        (Seq<u8>, int),
                        DnsError,
                    >((cur.update(cpos, 0u8), cpos + 1)));
                }
                return Ok(());
            }
            start = end + 1;
        }
    }
}

/// The big-endian bytes of a 16-bit value denote that value back.
pub proof fn lemma_be16_roundtrip(val: u16)
    ensures
        be16((val >> 8) as u8, (val & 0xFF) as u8) == val,
{
    assert(((val >> 8) as u8 as u16) * 256 + ((val & 0xFF) as u8 as u16) == val) by (bit_vector);
}

} // verus!
