use vstd::prelude::*;

verus! {

/// Size in bytes of one encoded instance record.
pub const RECORD_SIZE: usize = 32;

/// An axis-aligned rectangle. Each field holds the bit pattern of a 32-bit
/// IEEE float, exactly as the GPU reads it.
#[derive(Clone, Copy, Debug, PartialEq, Eq, Structural)]
pub struct Rect {
    pub x: u32,
    pub y: u32,
    pub w: u32,
    pub h: u32,
}

/// A colour as four float bit patterns (red, green, blue, alpha).
#[derive(Clone, Copy, Debug, PartialEq, Eq, Structural)]
pub struct Color {
    pub r: u32,
    pub g: u32,
    pub b: u32,
    pub a: u32,
}

/// The per-instance data of one drawn shape: where it is and how it is tinted.
#[derive(Clone, Copy, Debug, PartialEq, Eq, Structural)]
pub struct InstanceRecord {
    pub rect: Rect,
    pub color: Color,
}

/// Little-endian bytes of one 32-bit word.
pub open spec fn word_bytes(w: u32) -> Seq<u8> {
    seq![
        (w % 256) as u8,
        ((w / 256) % 256) as u8,
        ((w / 65536) % 256) as u8,
        (w / 16777216) as u8,
    ]
}

/// The eight words of a record, in buffer order.
pub open spec fn record_words(r: InstanceRecord) -> Seq<u32> {
    seq![r.rect.x, r.rect.y, r.rect.w, r.rect.h, r.color.r, r.color.g, r.color.b, r.color.a]
}

/// Concatenated little-endian bytes of a sequence of words.
pub open spec fn words_bytes(ws: Seq<u32>) -> Seq<u8>
    decreases ws.len(),
{
    if ws.len() == 0 {
        Seq::empty()
    } else {
        words_bytes(ws.drop_last()) + word_bytes(ws.last())
    }
}

/// The bytes of one record as written into an instance buffer.
pub open spec fn record_bytes(r: InstanceRecord) -> Seq<u8> {
    words_bytes(record_words(r))
}

/// The bytes of a whole instance buffer holding `rs` in order.
pub open spec fn records_bytes(rs: Seq<InstanceRecord>) -> Seq<u8>
    decreases rs.len(),
{
    if rs.len() == 0 {
        Seq::empty()
    } else {
        records_bytes(rs.drop_last()) + record_bytes(rs.last())
    }
}

pub proof fn lemma_words_bytes_len(ws: Seq<u32>)
    ensures
        words_bytes(ws).len() == 4 * ws.len(),
    decreases ws.len(),
{
    if ws.len() > 0 {
        lemma_words_bytes_len(ws.drop_last());
    }
}

pub proof fn lemma_record_bytes_len(r: InstanceRecord)
    ensures
        record_bytes(r).len() == RECORD_SIZE,
{
    lemma_words_bytes_len(record_words(r));
}

pub proof fn lemma_records_bytes_len(rs: Seq<InstanceRecord>)
    ensures
        records_bytes(rs).len() == RECORD_SIZE * rs.len(),
    decreases rs.len(),
{
    if rs.len() > 0 {
        lemma_records_bytes_len(rs.drop_last());
        lemma_record_bytes_len(rs.last());
    }
}

/// The bytes of slot `i` of a buffer are the bytes of the record in that slot.
pub proof fn lemma_records_bytes_slot(rs: Seq<InstanceRecord>, i: int)
    requires
        0 <= i < rs.len(),
    ensures
        records_bytes(rs).subrange(RECORD_SIZE * i, RECORD_SIZE * i + RECORD_SIZE) == record_bytes(
            rs[i],
        ),
    decreases rs.len(),
{
    let front = rs.drop_last();
    lemma_records_bytes_len(front);
    lemma_record_bytes_len(rs.last());
    assert(records_bytes(rs) == records_bytes(front) + record_bytes(rs.last()));
    if i == rs.len() - 1 {
        assert(records_bytes(rs).subrange(RECORD_SIZE * i, RECORD_SIZE * i + RECORD_SIZE)
            =~= record_bytes(rs.last()));
    } else {
        lemma_records_bytes_slot(front, i);
        assert(records_bytes(rs).subrange(RECORD_SIZE * i, RECORD_SIZE * i + RECORD_SIZE)
            =~= records_bytes(front).subrange(RECORD_SIZE * i, RECORD_SIZE * i + RECORD_SIZE));
    }
}

/// Appends the little-endian bytes of `w` to `out`.
fn push_word(out: &mut Vec<u8>, w: u32)
    ensures
        final(out)@ == old(out)@ + word_bytes(w),
{
    out.push((w % 256) as u8);
    out.push(((w / 256) % 256) as u8);
    out.push(((w / 65536) % 256) as u8);
    out.push((w / 16777216) as u8);
    assert(final(out)@ =~= old(out)@ + word_bytes(w));
}

impl InstanceRecord {
    pub fn new(rect: Rect, color: Color) -> (r: InstanceRecord)
        ensures
            r.rect == rect,
            r.color == color,
    {
        InstanceRecord { rect, color }
    }

    /// Appends this record's buffer bytes to `out`.
    pub fn encode_into(&self, out: &mut Vec<u8>)
        ensures
            final(out)@ == old(out)@ + record_bytes(*self),
    {
        let ghost start = out@;
        push_word(out, self.rect.x);
        push_word(out, self.rect.y);
        push_word(out, self.rect.w);
        push_word(out, self.rect.h);
        push_word(out, self.color.r);
        push_word(out, self.color.g);
        push_word(out, self.color.b);
        push_word(out, self.color.a);
        let ghost ws = record_words(*self);
        assert(words_bytes(ws) =~= word_bytes(self.rect.x) + word_bytes(self.rect.y) + word_bytes(
            self.rect.w,
        ) + word_bytes(self.rect.h) + word_bytes(self.color.r) + word_bytes(self.color.g)
            + word_bytes(self.color.b) + word_bytes(self.color.a)) by {
            reveal_with_fuel(words_bytes, 9);
            assert(ws.drop_last() =~= seq![self.rect.x, self.rect.y, self.rect.w, self.rect.h, self.color.r, self.color.g, self.color.b]);
        };
        assert(out@ =~= start + record_bytes(*self));
    }

    /// The bytes of this record as written into an instance buffer.
    pub fn to_bytes(&self) -> (r: Vec<u8>)
        ensures
            r@ == record_bytes(*self),
    {
        let mut out: Vec<u8> = Vec::new();
        self.encode_into(&mut out);
        assert(out@ =~= record_bytes(*self));
        out
    }
}

/// Converts a colour channel from 32-bit to 8-bit unsigned normalised form,
/// rounding to nearest.
pub fn unorm32_to_unorm8(x: u32) -> (r: u8)
    ensures
        r == (x * 255 + 2147483775) / 0x1_0000_0000,
{
    proof {
        assert(x * 255 + 2147483775 < 256 * 0x1_0000_0000) by (nonlinear_arith)
            requires x <= 0xffff_ffff;
    }
    ((x as u64 * 255 + 2147483775) / 0x1_0000_0000) as u8
}

/// Data that can be brought up to date from a value of type `T`.
pub trait Updatable<T> {
    fn update(&mut self, data: &T);
}

impl Updatable<Rect> for InstanceRecord {
    /// Moves the instance to `data`.
    fn update(&mut self, data: &Rect) {
        self.rect = *data;
    }
}

} // verus!
