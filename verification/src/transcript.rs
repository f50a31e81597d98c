//! Fiat-Shamir transcript over BLAKE3.
//!
//! The transcript is modelled by the byte stream it has hashed so far
//! (its view). Every absorb appends the 8-byte little-endian length of
//! the message and then the message; a squeeze absorbs a tag, reads the
//! BLAKE3 extendable output of the stream, rejection-samples from it,
//! and appends what it returned.
use crate::bytes::{le_bytes, le_value, lemma_le_bytes_len, lemma_le_u64_round_trip, u32_to_le_bytes, u64_from_le_bytes, u32_from_le_bytes, u64_to_le_bytes};
use crate::field::{Fp, MODULUS};
use crate::merkle::MerkleRoot;
use vstd::prelude::*;

verus! {

/// Number of 8-byte words of the extendable output that `squeeze_field` reads at most.
pub const FIELD_WORDS: u64 = 0x1FFF_FFFF_FFFF_FFFF;

/// Number of 4-byte words of the extendable output that `squeeze_indices` reads at most.
pub const INDEX_WORDS: u64 = 0x3FFF_FFFF_FFFF_FFFF;

/// `out_len` bytes of the BLAKE3 extendable output of `input`, starting at byte `position`.
pub uninterp spec fn blake3_xof_bytes(input: Seq<u8>, position: nat, out_len: nat) -> Seq<u8>;

/// Hashes `input` with BLAKE3 (`Hasher::new`, `update`, `finalize_xof`)
/// and reads `out_len` bytes of the output stream from byte `position`
/// (`OutputReader::set_position`, `OutputReader::fill`). The contract
/// claims only that the bytes are the named output and that all
/// `out_len` of them are written.
#[verifier::external_body]
fn blake3_xof(input: &[u8], position: u64, out_len: usize) -> (r: Vec<u8>)
    requires
        position + out_len <= u64::MAX,
    ensures
        r@ == blake3_xof_bytes(input@, position as nat, out_len as nat),
        r@.len() == out_len,
{
    let mut hasher = blake3::Hasher::new();
    hasher.update(input);
    let mut reader = hasher.finalize_xof();
    reader.set_position(position);
    let mut out = vec![0u8; out_len];
    reader.fill(&mut out);
    out
}

/// The framing of one absorbed message: its length as 8 little-endian bytes, then the message.
pub open spec fn frame(bytes: Seq<u8>) -> Seq<u8> {
    le_bytes(bytes.len(), 8) + bytes
}

/// The framings of several messages, one after the other.
pub open spec fn frames(msgs: Seq<Seq<u8>>) -> Seq<u8>
    decreases msgs.len(),
{
    if msgs.len() == 0 {
        Seq::empty()
    } else {
        frame(msgs[0]) + frames(msgs.drop_first())
    }
}

/// The tag absorbed before a field squeeze: `b"squeeze_field"`.
pub open spec fn squeeze_field_tag() -> Seq<u8> {
    seq![0x73u8, 0x71, 0x75, 0x65, 0x65, 0x7a, 0x65, 0x5f, 0x66, 0x69, 0x65, 0x6c, 0x64]
}

/// The tag absorbed before an index squeeze: `b"squeeze_indices"`.
pub open spec fn squeeze_indices_tag() -> Seq<u8> {
    seq![0x73u8, 0x71, 0x75, 0x65, 0x65, 0x7a, 0x65, 0x5f, 0x69, 0x6e, 0x64, 0x69, 0x63, 0x65, 0x73]
}

/// The `j`-th 8-byte word of the output stream of `st`, read little-endian.
pub open spec fn field_word(st: Seq<u8>, j: nat) -> nat {
    le_value(blake3_xof_bytes(st, 8 * j, 8))
}

/// The first word at or after position `j` that lies below the modulus (`0` if none).
pub open spec fn field_draw_from(st: Seq<u8>, j: nat) -> nat
    decreases FIELD_WORDS - j,
{
    if j >= FIELD_WORDS {
        0
    } else if field_word(st, j) < MODULUS {
        field_word(st, j)
    } else {
        field_draw_from(st, j + 1)
    }
}

/// The value that a field squeeze returns from a transcript in state `t`.
pub open spec fn squeeze_field_value(t: Seq<u8>) -> nat {
    field_draw_from(t + frame(squeeze_field_tag()), 0)
}

/// The state after a field squeeze from state `t`.
pub open spec fn after_squeeze_field(t: Seq<u8>) -> Seq<u8> {
    t + frame(squeeze_field_tag()) + le_bytes(squeeze_field_value(t), 8)
}

/// The largest multiple of `range` that is at most `2^32`.
pub open spec fn index_cutoff(range: nat) -> nat {
    (0x1_0000_0000nat / range) * range
}

/// The `j`-th 4-byte word of the output stream of `st`, read little-endian.
pub open spec fn index_word(st: Seq<u8>, j: nat) -> nat {
    le_value(blake3_xof_bytes(st, 4 * j, 4))
}

/// Rejection sampling of indices below `range`: scanning the words from
/// position `j` on, each word below the cutoff contributes `word % range`,
/// until `count` indices are collected or the stream is exhausted.
pub open spec fn index_draws(st: Seq<u8>, count: nat, range: nat, j: nat, acc: Seq<u32>) -> Seq<u32>
    decreases INDEX_WORDS - j,
{
    if acc.len() >= count || j >= INDEX_WORDS {
        acc
    } else if index_word(st, j) < index_cutoff(range) {
        index_draws(st, count, range, j + 1, acc.push((index_word(st, j) % range) as u32))
    } else {
        index_draws(st, count, range, j + 1, acc)
    }
}

/// The little-endian 4-byte encodings of `idx`, one after the other.
pub open spec fn indices_bytes(idx: Seq<u32>) -> Seq<u8>
    decreases idx.len(),
{
    if idx.len() == 0 {
        Seq::empty()
    } else {
        indices_bytes(idx.drop_last()) + le_bytes(idx.last() as nat, 4)
    }
}

/// The indices that an index squeeze returns from state `t`: the
/// rejection-sampled indices, padded with zeros to `count` entries.
pub open spec fn squeeze_indices_value(t: Seq<u8>, count: nat, range: nat) -> Seq<u32> {
    let draws = index_draws(t + frame(squeeze_indices_tag()), count, range, 0, Seq::empty());
    draws + Seq::new((count - draws.len()) as nat, |i: int| 0u32)
}

/// The state after an index squeeze from state `t`.
pub open spec fn after_squeeze_indices(t: Seq<u8>, count: nat, range: nat) -> Seq<u8> {
    t + frame(squeeze_indices_tag()) + indices_bytes(squeeze_indices_value(t, count, range))
}

/// A Fiat-Shamir transcript.
pub struct Transcript {
    state: Vec<u8>,
}

impl View for Transcript {
    type V = Seq<u8>;

    /// The bytes hashed so far.
    closed spec fn view(&self) -> Seq<u8> {
        self.state@
    }
}

impl Transcript {
    /// A fresh transcript that has absorbed `domain_separator`.
    pub fn new(domain_separator: &[u8]) -> (r: Transcript)
        ensures
            r@ == frame(domain_separator@),
    {
        let mut transcript = Transcript { state: Vec::new() };
        transcript.absorb(domain_separator);
        assert(transcript@ =~= frame(domain_separator@));
        transcript
    }

    /// Absorb a byte string, prefixed with its length.
    pub fn absorb(&mut self, bytes: &[u8])
        ensures
            final(self)@ == old(self)@ + frame(bytes@),
    {
        let len = bytes.len() as u64;
        let mut prefix = u64_to_le_bytes(len);
        self.state.append(&mut prefix);
        let mut i: usize = 0;
        let ghost start = self.state@;
        while i < bytes.len()
            invariant
                i <= bytes@.len(),
                self.state@ == start + bytes@.subrange(0, i as int),
            decreases bytes@.len() - i,
        {
            self.state.push(bytes[i]);
            i = i + 1;
            assert(self.state@ =~= start + bytes@.subrange(0, i as int));
        }
        assert(bytes@.subrange(0, bytes@.len() as int) =~= bytes@);
        assert(self.state@ =~= old(self)@ + frame(bytes@));
    }

    /// Absorb a field element as its 8 little-endian bytes.
    pub fn absorb_field(&mut self, x: Fp)
        ensures
            final(self)@ == old(self)@ + frame(le_bytes(x.val(), 8)),
    {
        let bytes = u64_to_le_bytes(x.as_u64());
        self.absorb(bytes.as_slice());
    }

    /// Absorb the 32 bytes of a Merkle root.
    pub fn absorb_root(&mut self, root: &MerkleRoot)
        ensures
            final(self)@ == old(self)@ + frame(root.0@),
    {
        self.absorb(vstd::array::array_as_slice(&root.0));
    }

    /// Squeeze a field element: absorb the field tag, rejection-sample the
    /// first output word below the modulus, and absorb the accepted word.
    /// (Should no word among the first `FIELD_WORDS` qualify, the value is `0`.)
    pub fn squeeze_field(&mut self) -> (r: Fp)
        ensures
            r.val() == squeeze_field_value(old(self)@),
            final(self)@ == after_squeeze_field(old(self)@),
    {
        let tag: Vec<u8> = vec![0x73u8, 0x71, 0x75, 0x65, 0x65, 0x7a, 0x65, 0x5f, 0x66, 0x69, 0x65, 0x6c, 0x64];
        assert(tag@ =~= squeeze_field_tag());
        self.absorb(tag.as_slice());
        let ghost st = self.state@;
        let mut j: u64 = 0;
        let mut found = false;
        let mut accepted: u64 = 0;
        while j < FIELD_WORDS && !found
            invariant
                self.state@ == st,
                j <= FIELD_WORDS,
                found ==> accepted == field_draw_from(st, 0),
                !found ==> field_draw_from(st, j as nat) == field_draw_from(st, 0),
                !found ==> accepted == 0,
                accepted < MODULUS,
            decreases FIELD_WORDS - j, if found { 0int } else { 1int },
        {
            let w = blake3_xof(self.state.as_slice(), 8 * j, 8);
            let v = u64_from_le_bytes(w.as_slice(), 0);
            assert(w@.subrange(0, 8) =~= w@);
            if v < MODULUS {
                accepted = v;
                found = true;
            } else {
                j = j + 1;
            }
        }
        let mut bytes = u64_to_le_bytes(accepted);
        self.state.append(&mut bytes);
        assert(accepted < MODULUS);
        Fp::new(accepted)
    }

    /// Squeeze `count` indices below `range_exclusive` by unbiased
    /// rejection sampling over 4-byte output words, then absorb them.
    /// (Should the first `INDEX_WORDS` words not supply `count` indices,
    /// the rest are `0`.)
    pub fn squeeze_indices(&mut self, count: u32, range_exclusive: u32) -> (r: Vec<u32>)
        requires
            range_exclusive > 0,
        ensures
            r@ == squeeze_indices_value(old(self)@, count as nat, range_exclusive as nat),
            r@.len() == count,
            forall|i: int| 0 <= i < count ==> r@[i] < range_exclusive,
            final(self)@ == after_squeeze_indices(old(self)@, count as nat, range_exclusive as nat),
    {
        let tag: Vec<u8> = vec![0x73u8, 0x71, 0x75, 0x65, 0x65, 0x7a, 0x65, 0x5f, 0x69, 0x6e, 0x64, 0x69, 0x63, 0x65, 0x73];
        assert(tag@ =~= squeeze_indices_tag());
        self.absorb(tag.as_slice());
        let ghost st = self.state@;
        let range = range_exclusive as u64;
        assert((0x1_0000_0000u64 / range) * range <= 0x1_0000_0000u64) by (nonlinear_arith)
            requires
                range > 0,
        ;
        let cutoff: u64 = (0x1_0000_0000u64 / range) * range;
        assert(cutoff == index_cutoff(range as nat));
        let mut out: Vec<u32> = Vec::new();
        let mut j: u64 = 0;
        while out.len() < count as usize && j < INDEX_WORDS
            invariant
                self.state@ == st,
                j <= INDEX_WORDS,
                range == range_exclusive,
                range > 0,
                cutoff == index_cutoff(range as nat),
                out@.len() <= count,
                index_draws(st, count as nat, range as nat, j as nat, out@) == index_draws(
                    st,
                    count as nat,
                    range as nat,
                    0,
                    Seq::empty(),
                ),
                forall|i: int| 0 <= i < out@.len() ==> out@[i] < range_exclusive,
            decreases INDEX_WORDS - j,
        {
            let w = blake3_xof(self.state.as_slice(), 4 * j, 4);
            let v = u32_from_le_bytes(w.as_slice(), 0) as u64;
            assert(w@.subrange(0, 4) =~= w@);
            if v < cutoff {
                let idx = (v % range) as u32;
                out.push(idx);
            }
            j = j + 1;
        }
        let ghost draws = out@;
        assert(draws == index_draws(st, count as nat, range as nat, 0, Seq::empty()));
        while out.len() < count as usize
            invariant
                draws.len() <= out@.len() <= count,
                range_exclusive > 0,
                out@ == draws + Seq::new((out@.len() - draws.len()) as nat, |i: int| 0u32),
                forall|i: int| 0 <= i < out@.len() ==> out@[i] < range_exclusive,
            decreases count - out@.len(),
        {
            out.push(0u32);
            assert(out@ =~= draws + Seq::new((out@.len() - draws.len()) as nat, |i: int| 0u32));
        }
        let mut i: usize = 0;
        while i < out.len()
            invariant
                i <= out@.len(),
                self.state@ == st + indices_bytes(out@.subrange(0, i as int)),
            decreases out@.len() - i,
        {
            let mut bytes = u32_to_le_bytes(out[i]);
            self.state.append(&mut bytes);
            i = i + 1;
            assert(out@.subrange(0, i as int).drop_last() =~= out@.subrange(0, i - 1));
        }
        assert(out@.subrange(0, out@.len() as int) =~= out@);
        out
    }

    /// Squeeze the shift-query indices of a round; the same as `squeeze_indices`.
    pub fn sample_shift_indices(&mut self, count: u32, range_exclusive: u32) -> (r: Vec<u32>)
        requires
            range_exclusive > 0,
        ensures
            r@ == squeeze_indices_value(old(self)@, count as nat, range_exclusive as nat),
            r@.len() == count,
            forall|i: int| 0 <= i < count ==> r@[i] < range_exclusive,
            final(self)@ == after_squeeze_indices(old(self)@, count as nat, range_exclusive as nat),
    {
        self.squeeze_indices(count, range_exclusive)
    }

    /// Proof-of-work grinding placeholder: returns the nonce `0` and leaves the state unchanged.
    pub fn grind(&mut self, pow_bits: u32) -> (r: u64)
        ensures
            r == 0,
            final(self)@ == old(self)@,
    {
        0
    }
}

/// Framing is injective: the byte stream of a sequence of absorbed
/// messages determines the messages (each shorter than `2^64` bytes).
pub proof fn lemma_frames_injective(a: Seq<Seq<u8>>, b: Seq<Seq<u8>>)
    requires
        forall|i: int| 0 <= i < a.len() ==> (#[trigger] a[i]).len() <= u64::MAX,
        forall|i: int| 0 <= i < b.len() ==> (#[trigger] b[i]).len() <= u64::MAX,
        frames(a) == frames(b),
    ensures
        a == b,
    decreases a.len(),
{
    if a.len() == 0 {
        if b.len() > 0 {
            lemma_le_bytes_len(b[0].len(), 8);
        }
        assert(b.len() == 0);
        assert(a =~= b);
    } else {
        if b.len() == 0 {
            lemma_le_bytes_len(a[0].len(), 8);
            assert(false);
        }
        let la: int = a[0].len() as int;
        let lb: int = b[0].len() as int;
        lemma_le_u64_round_trip(la as u64);
        lemma_le_u64_round_trip(lb as u64);
        lemma_le_bytes_len(a[0].len(), 8);
        lemma_le_bytes_len(b[0].len(), 8);
        let sa = frames(a);
        assert(sa.subrange(0, 8) =~= le_bytes(a[0].len(), 8));
        assert(frames(b).subrange(0, 8) =~= le_bytes(b[0].len(), 8));
        assert(la == lb);
        assert(sa.subrange(8, 8 + la) =~= a[0]);
        assert(frames(b).subrange(8, 8 + la) =~= b[0]);
        assert(sa.subrange(8 + la, sa.len() as int) =~= frames(a.drop_first()));
        assert(frames(b).subrange(8 + la, sa.len() as int) =~= frames(b.drop_first()));
        assert forall|i: int| 0 <= i < a.drop_first().len() implies (#[trigger] a.drop_first()[i]).len()
            <= u64::MAX by {
            assert(a.drop_first()[i] == a[i + 1]);
        }
        assert forall|i: int| 0 <= i < b.drop_first().len() implies (#[trigger] b.drop_first()[i]).len()
            <= u64::MAX by {
            assert(b.drop_first()[i] == b[i + 1]);
        }
        lemma_frames_injective(a.drop_first(), b.drop_first());
        assert(a =~= b) by {
            assert forall|i: int| 0 <= i < a.len() implies a[i] == b[i] by {
                if i > 0 {
                    assert(a[i] == a.drop_first()[i - 1]);
                    assert(b[i] == b.drop_first()[i - 1]);
                }
            }
        }
    }
}

} // verus!
