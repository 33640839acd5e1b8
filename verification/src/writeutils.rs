//! Writers that font tables are streamed through: a two-headed writer over an
//! in-memory image, a checksumming table writer, and a counting writer.

use vstd::prelude::*;
use crate::encode::write_all;
use crate::error::FontError;
use crate::encode::zeros;

verus! {

/// What `image` holds after `bytes` were written at offset `pos`: the bytes
/// replace what was there, a gap between the old end and `pos` reads as zero.
/// Writing nothing changes nothing.
pub open spec fn overlay(image: Seq<u8>, pos: int, bytes: Seq<u8>) -> Seq<u8> {
    if bytes.len() == 0 {
        image
    } else {
        Seq::new(
            if image.len() >= pos + bytes.len() {
                image.len()
            } else {
                (pos + bytes.len()) as nat
            },
            |i: int|
                if pos <= i < pos + bytes.len() {
                    bytes[i - pos]
                } else if i < image.len() {
                    image[i]
                } else {
                    0u8
                },
        )
    }
}

/// Writing `a` and then `b` behind it is writing `a + b`.
pub proof fn lemma_overlay_append(image: Seq<u8>, pos: int, a: Seq<u8>, b: Seq<u8>)
    requires
        0 <= pos,
    ensures
        overlay(overlay(image, pos, a), pos + a.len(), b) == overlay(image, pos, a + b),
{
    if a.len() == 0 {
        assert(a + b =~= b);
    } else if b.len() == 0 {
        assert(a + b =~= a);
    } else {
        assert(overlay(overlay(image, pos, a), pos + a.len(), b) =~= overlay(image, pos, a + b));
    }
}

/// Writes to parts of the image that do not touch can be made in either
/// order.
pub proof fn lemma_overlay_commute(image: Seq<u8>, low: int, a: Seq<u8>, high: int, b: Seq<u8>)
    requires
        0 <= low,
        low + a.len() <= high,
    ensures
        overlay(overlay(image, high, b), low, a) == overlay(overlay(image, low, a), high, b),
{
    assert(overlay(overlay(image, high, b), low, a) =~= overlay(overlay(image, low, a), high, b));
}

/// A two-headed writer over a byte image.
/// Use `swap` to swap between the two heads.
pub struct TwoWrite {
    writer: Vec<u8>,
    head: usize,
    other_head: usize,
}

impl TwoWrite {
    /// The image written so far.
    pub closed spec fn image(&self) -> Seq<u8> {
        self.writer@
    }

    /// Offset at which the next write lands.
    pub closed spec fn position(&self) -> nat {
        self.head as nat
    }

    /// Offset at which writes land after the next `swap`.
    pub closed spec fn other_position(&self) -> nat {
        self.other_head as nat
    }

    /// Starts writing at the front of `writer`, with the second head at `idx`.
    pub fn split_at(writer: Vec<u8>, idx: usize) -> (r: Self)
        ensures
            r.image() == writer@,
            r.position() == 0,
            r.other_position() == idx,
    {
        TwoWrite { writer, head: 0, other_head: idx }
    }

    /// Exchanges the active head with the other one.
    pub fn swap(&mut self)
        ensures
            final(self).image() == old(self).image(),
            final(self).position() == old(self).other_position(),
            final(self).other_position() == old(self).position(),
    {
        let pos = self.head;
        self.head = self.other_head;
        self.other_head = pos;
    }

    /// Offset of the active head.
    pub fn stream_position(&self) -> (pos: usize)
        ensures
            pos == self.position(),
    {
        self.head
    }

    /// Writes `bytes` at the active head and advances it. Returns how many
    /// bytes were taken: all of them unless the offset would leave `usize`.
    pub fn write(&mut self, bytes: &[u8]) -> (out: usize)
        ensures
            out == if old(self).position() + bytes@.len() <= usize::MAX {
                bytes@.len()
            } else {
                (usize::MAX - old(self).position()) as nat
            },
            final(self).image() == overlay(
                old(self).image(),
                old(self).position() as int,
                bytes@.take(out as int),
            ),
            final(self).position() == old(self).position() + out,
            final(self).other_position() == old(self).other_position(),
    {
        let room = usize::MAX - self.head;
        let out = if bytes.len() <= room {
            bytes.len()
        } else {
            room
        };
        let start = self.head;
        if out > 0 {
            while self.writer.len() < start
                invariant
                    self.head == start,
                    self.other_head == old(self).other_head,
                    old(self).writer@.len() <= self.writer@.len(),
                    self.writer@.len() <= start || self.writer@.len() == old(self).writer@.len(),
                    forall|i: int|
                        0 <= i < self.writer@.len() ==> self.writer@[i] == if i < old(
                            self,
                        ).writer@.len() {
                            old(self).writer@[i]
                        } else {
                            0u8
                        },
                decreases start - self.writer@.len(),
            {
                self.writer.push(0);
            }
        }
        let ghost padded = self.writer@;
        let mut i: usize = 0;
        while i < out
            invariant
                i <= out,
                out <= bytes@.len(),
                start + out <= usize::MAX,
                self.head == start + i,
                self.other_head == old(self).other_head,
                out > 0 ==> padded.len() >= start,
                self.writer@ == overlay(padded, start as int, bytes@.take(i as int)),
            decreases out - i,
        {
            if self.head < self.writer.len() {
                self.writer[self.head] = bytes[i];
            } else {
                self.writer.push(bytes[i]);
            }
            self.head = self.head + 1;
            i = i + 1;
            assert(self.writer@ =~= overlay(padded, start as int, bytes@.take(i as int)));
        }
        assert(self.writer@ =~= overlay(
            old(self).writer@,
            start as int,
            bytes@.take(out as int),
        ));
        out
    }

    /// Writes all of `bytes` at the active head and advances it; fails,
    /// with as many bytes written as there is room for, where the offset
    /// would leave `usize`.
    pub fn write_all(&mut self, bytes: &[u8]) -> (r: Result<(), FontError>)
        ensures
            final(self).other_position() == old(self).other_position(),
            match r {
                Ok(()) => {
                    &&& old(self).position() + bytes@.len() <= usize::MAX
                    &&& final(self).image() == overlay(
                        old(self).image(),
                        old(self).position() as int,
                        bytes@,
                    )
                    &&& final(self).position() == old(self).position() + bytes@.len()
                },
                Err(e) => {
                    &&& e == FontError::TooLarge
                    &&& old(self).position() + bytes@.len() > usize::MAX
                    &&& final(self).image() == overlay(
                        old(self).image(),
                        old(self).position() as int,
                        bytes@.take(usize::MAX - old(self).position()),
                    )
                    &&& final(self).position() == usize::MAX
                },
            },
    {
        let out = self.write(bytes);
        if out < bytes.len() {
            Err(FontError::TooLarge)
        } else {
            assert(bytes@.take(out as int) == bytes@);
            Ok(())
        }
    }

    /// Gives back the image.
    pub fn into_inner(self) -> (image: Vec<u8>)
        ensures
            image@ == self.image(),
    {
        self.writer
    }
}

/// The value of four bytes read as one big-endian word.
pub open spec fn be_word(s: Seq<u8>) -> nat
    recommends
        s.len() == 4,
{
    (s[0] * 0x100_0000 + s[1] * 0x1_0000 + s[2] * 0x100 + s[3]) as nat
}

/// The sum of the big-endian 32-bit words of `s`, counted from its front; a
/// trailing part shorter than a word does not count.
pub open spec fn word_sum(s: Seq<u8>) -> nat
    decreases s.len(),
{
    let whole = s.len() - s.len() % 4;
    if whole < 4 {
        0
    } else {
        word_sum(s.take(whole - 4)) + be_word(s.subrange(whole - 4, whole))
    }
}

/// How many zero bytes bring a table of `len` bytes to a multiple of four.
pub open spec fn padding(len: nat) -> nat {
    ((4 - len % 4) % 4) as nat
}

/// `s`, zero-padded to a multiple of four bytes.
pub open spec fn pad4(s: Seq<u8>) -> Seq<u8> {
    s + zeros(padding(s.len()))
}

/// The checksum of a table: the wrapping 32-bit sum of the big-endian words
/// of its zero-padded bytes.
pub open spec fn table_checksum(s: Seq<u8>) -> u32 {
    (word_sum(pad4(s)) % 0x1_0000_0000) as u32
}

/// Two byte strings with the same whole words have the same word sum.
pub proof fn lemma_word_sum_whole_words(s: Seq<u8>, t: Seq<u8>)
    requires
        s.len() - s.len() % 4 == t.len() - t.len() % 4,
        s.take(s.len() - s.len() % 4) == t.take(t.len() - t.len() % 4),
    ensures
        word_sum(s) == word_sum(t),
{
    let whole = s.len() - s.len() % 4;
    if whole >= 4 {
        assert forall|i: int| 0 <= i < whole implies s[i] == t[i] by {
            assert(s.take(whole)[i] == t.take(whole)[i]);
        }
        assert(s.take(whole - 4) == t.take(whole - 4));
        assert(s.subrange(whole - 4, whole) == t.subrange(whole - 4, whole));
    }
}

/// The checksum does not depend on how the bytes were split into writes:
/// `a` then `b` gives what `a + b` gives at once.
pub proof fn lemma_checksum_chunking(written: Seq<u8>, a: Seq<u8>, b: Seq<u8>)
    ensures
        (written + a) + b == written + (a + b),
        table_checksum((written + a) + b) == table_checksum(written + (a + b)),
        ((written + a) + b).len() == (written + (a + b)).len(),
{
    assert((written + a) + b =~= written + (a + b));
}

/// A writer adapter for font tables.
///
/// Each font table must be u32-aligned: any trailing bytes need to be
/// zero-padded. Each table record tracks the table's length and its
/// checksum, the wrapping u32 sum of its u32 chunks.
///
/// This adapter manages these requirements: `finalize` pads the result and
/// returns the sink with the checksum and the length.
pub struct TableWriter {
    writer: Vec<u8>,
    checksum: u32,
    in_progress_word: [u8; 4],
    length: usize,
}

impl TableWriter {
    /// Everything the sink holds: what it held at `new`, then the stream.
    pub closed spec fn sink(&self) -> Seq<u8> {
        self.writer@
    }

    /// The bytes written through this writer so far.
    pub closed spec fn stream(&self) -> Seq<u8> {
        self.writer@.skip(self.writer@.len() - self.length)
    }

    /// The running state agrees with the stream: the checksum is the wrapping
    /// sum of its whole words, and the bytes of the incomplete last word, at
    /// most three, are buffered.
    pub closed spec fn wf(&self) -> bool {
        let stream = self.stream();
        let whole = self.length - self.length % 4;
        &&& self.length <= self.writer@.len()
        &&& self.checksum == word_sum(stream) % 0x1_0000_0000
        &&& forall|i: int|
            0 <= i < self.length % 4 ==> self.in_progress_word@[i] == #[trigger] stream[whole + i]
    }

    /// A table writer over `writer`; what the sink already holds stays in
    /// front and is not part of the table.
    pub fn new(writer: Vec<u8>) -> (r: TableWriter)
        ensures
            r.wf(),
            r.sink() == writer@,
            r.stream() == Seq::<u8>::empty(),
    {
        let r = TableWriter { writer, checksum: 0, in_progress_word: [0, 0, 0, 0], length: 0 };
        assert(r.stream() =~= Seq::<u8>::empty());
        r
    }

    /// Forwards one byte to the sink and folds it into the running state.
    fn write_byte(&mut self, byte: u8)
        requires
            old(self).wf(),
        ensures
            final(self).wf(),
            final(self).stream() == old(self).stream().push(byte),
            final(self).sink() == old(self).sink().push(byte),
    {
        let ghost before = self.stream();
        let ghost whole = self.length - self.length % 4;
        self.writer.push(byte);
        let total = self.writer.len();
        let pending = self.length % 4;
        self.in_progress_word[pending] = byte;
        self.length = self.length + 1;
        let ghost after = self.stream();
        assert(after =~= before.push(byte));
        if pending == 3 {
            let word: u32 = (self.in_progress_word[0] as u32) * 0x100_0000
                + (self.in_progress_word[1] as u32) * 0x1_0000
                + (self.in_progress_word[2] as u32) * 0x100
                + (self.in_progress_word[3] as u32);
            proof {
                assert(after.len() - after.len() % 4 == whole + 4);
                assert(after.subrange(whole, whole + 4) =~= self.in_progress_word@) by {
                    assert forall|i: int| 0 <= i < 4 implies after[whole + i]
                        == self.in_progress_word@[i] by {
                        if i < 3 {
                            assert(before[whole + i] == after[whole + i]);
                        }
                    }
                }
                assert(word == be_word(after.subrange(whole, whole + 4)));
                let head = after.take(whole);
                assert(head.take(head.len() - head.len() % 4) == head);
                assert(before.take(whole) == head);
                lemma_word_sum_whole_words(before, head);
                assert(word_sum(after) == word_sum(before) + word);
                vstd::arithmetic::div_mod::lemma_add_mod_noop(
                    word_sum(before) as int,
                    word as int,
                    0x1_0000_0000,
                );
                vstd::arithmetic::div_mod::lemma_small_mod(word as nat, 0x1_0000_0000);
            }
            self.checksum = self.checksum.wrapping_add(word);
        } else {
            proof {
                assert(before.take(whole) == after.take(whole));
                lemma_word_sum_whole_words(before, after);
                assert forall|i: int| 0 <= i < self.length % 4 implies self.in_progress_word@[i]
                    == #[trigger] after[whole + i] by {
                    if i < pending {
                        assert(before[whole + i] == after[whole + i]);
                    }
                }
            }
        }
    }

    /// Forwards `bytes` to the sink and folds every word they complete into
    /// the checksum. Returns the number of bytes taken, which is all of them.
    pub fn write(&mut self, bytes: &[u8]) -> (out: usize)
        requires
            old(self).wf(),
        ensures
            final(self).wf(),
            out == bytes@.len(),
            final(self).stream() == old(self).stream() + bytes@,
            final(self).sink() == old(self).sink() + bytes@,
    {
        let mut i: usize = 0;
        while i < bytes.len()
            invariant
                i <= bytes.len(),
                self.wf(),
                self.stream() == old(self).stream() + bytes@.take(i as int),
                self.sink() == old(self).sink() + bytes@.take(i as int),
            decreases bytes.len() - i,
        {
            self.write_byte(bytes[i]);
            assert(bytes@.take(i + 1) == bytes@.take(i as int).push(bytes@[i as int]));
            i = i + 1;
        }
        assert(bytes@.take(i as int) == bytes@);
        i
    }

    /// Pads the table with zero bytes to a multiple of four and returns the
    /// sink, the checksum of the padded table, and the length of the table
    /// before padding as the 32-bit field of a table record holds it.
    pub fn finalize(self) -> (r: (Vec<u8>, u32, u32))
        requires
            self.wf(),
        ensures
            r.0@ == self.sink() + zeros(padding(self.stream().len())),
            r.1 == table_checksum(self.stream()),
            r.2 == self.stream().len() % 0x1_0000_0000,
    {
        let mut this = self;
        let length = this.length;
        let count = (4 - length % 4) % 4;
        let mut i: usize = 0;
        while i < count
            invariant
                i <= count,
                count == padding(self.stream().len()),
                this.wf(),
                this.stream() == self.stream() + zeros(i as nat),
                this.sink() == self.sink() + zeros(i as nat),
            decreases count - i,
        {
            this.write_byte(0);
            assert(zeros(i as nat).push(0u8) == zeros((i + 1) as nat));
            i = i + 1;
        }
        let wide = length as u64;
        assert(wide as u32 == wide % 0x1_0000_0000) by (bit_vector);
        (this.writer, this.checksum, #[verifier::truncate] (wide as u32))
    }
}

/// Writer adapter that counts the bytes that pass through it.
pub struct CountWriter {
    writer: Vec<u8>,
    count: usize,
}

impl CountWriter {
    /// What the wrapped sink holds.
    pub closed spec fn inner(&self) -> Seq<u8> {
        self.writer@
    }

    /// The number of bytes written through this adapter.
    pub closed spec fn spec_count(&self) -> nat {
        self.count as nat
    }

    /// The count never exceeds what the sink holds.
    pub closed spec fn wf(&self) -> bool {
        self.count <= self.writer@.len()
    }

    /// Wraps `writer`, counting from zero.
    pub fn from(writer: Vec<u8>) -> (r: Self)
        ensures
            r.wf(),
            r.inner() == writer@,
            r.spec_count() == 0,
    {
        CountWriter { writer, count: 0 }
    }

    /// The number of bytes written so far.
    pub fn count(&self) -> (n: usize)
        ensures
            n == self.spec_count(),
    {
        self.count
    }

    /// Gives back the wrapped sink.
    pub fn into_inner(self) -> (writer: Vec<u8>)
        ensures
            writer@ == self.inner(),
    {
        self.writer
    }

    /// Forwards `bytes` to the sink and adds their number to the count.
    pub fn write(&mut self, bytes: &[u8]) -> (len: usize)
        requires
            old(self).wf(),
        ensures
            final(self).wf(),
            len == bytes@.len(),
            final(self).inner() == old(self).inner() + bytes@,
            final(self).spec_count() == old(self).spec_count() + bytes@.len(),
    {
        write_all(&mut self.writer, bytes);
        let len = bytes.len();
        let total = self.writer.len();
        self.count = self.count + len;
        len
    }
}

} // verus!
