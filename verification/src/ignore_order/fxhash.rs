//! A fast, deterministic hash.

use vstd::prelude::*;

verus! {

/// The multiplier of the mixing step.
pub const FX_SEED: u64 = 0x51_7c_c1_b7_27_22_0a_95;

/// The mixing step: rotate by five, exclusive or, multiply.
pub open spec fn fx_step(hash: u64, word: u64) -> u64 {
    (((hash << 5u64) | (hash >> 59u64)) ^ word).wrapping_mul(FX_SEED)
}

/// The hash after several words.
pub open spec fn fx_words(hash: u64, words: Seq<u64>) -> u64
    decreases words.len(),
{
    if words.len() == 0 {
        hash
    } else {
        fx_step(fx_words(hash, words.drop_last()), words.last())
    }
}

/// The word that the first eight bytes make, the lowest byte first.
pub open spec fn word_of(bytes: Seq<u8>) -> u64 {
    (bytes[0] + bytes[1] * 0x100 + bytes[2] * 0x1_0000 + bytes[3] * 0x100_0000 + bytes[4]
        * 0x1_0000_0000 + bytes[5] * 0x100_0000_0000 + bytes[6] * 0x1_0000_0000_0000 + bytes[7]
        * 0x100_0000_0000_0000) as u64
}

/// The words that are mixed in for a run of bytes: one for each eight of them,
/// and one for each byte that is left.
pub open spec fn words_of(bytes: Seq<u8>) -> Seq<u64>
    decreases bytes.len(),
{
    if bytes.len() >= 8 {
        seq![word_of(bytes)] + words_of(bytes.skip(8))
    } else {
        Seq::new(bytes.len(), |i: int| bytes[i] as u64)
    }
}

/// The words that are mixed in for a text: one for each character.
pub open spec fn words_of_text(text: Seq<char>) -> Seq<u64> {
    Seq::new(text.len(), |i: int| text[i] as u64)
}

/// The state of a hash.
#[derive(Debug, Clone, Copy, PartialEq, Eq, Structural)]
pub struct FxHasher {
    pub hash: u64,
}

impl Default for FxHasher {
    fn default() -> (hasher: Self)
        ensures
            hasher.hash == 0,
    {
        FxHasher { hash: 0 }
    }
}

proof fn lemma_words_add(hash: u64, a: Seq<u64>, b: Seq<u64>)
    ensures
        fx_words(hash, a + b) == fx_words(fx_words(hash, a), b),
    decreases b.len(),
{
    if b.len() == 0 {
        assert(a + b =~= a);
    } else {
        lemma_words_add(hash, a, b.drop_last());
        assert((a + b).drop_last() =~= a + b.drop_last());
    }
}

impl FxHasher {
    /// Mixes one word in.
    pub fn add_to_hash(&mut self, word: u64)
        ensures
            final(self).hash == fx_step(old(self).hash, word),
    {
        let rotated: u64 = (self.hash << 5u64) | (self.hash >> 59u64);
        self.hash = (rotated ^ word).wrapping_mul(FX_SEED);
    }

    /// Mixes a run of bytes in, eight at a time and the rest one by one.
    pub fn write(&mut self, bytes: &[u8])
        ensures
            final(self).hash == fx_words(old(self).hash, words_of(bytes@)),
    {
        let ghost start: u64 = self.hash;
        let ghost mut done: Seq<u64> = seq![];
        let mut i: usize = 0;
        proof {
            assert(bytes@.skip(0) =~= bytes@);
            assert(done + words_of(bytes@) =~= words_of(bytes@));
        }
        while bytes.len() - i >= 8
            invariant
                i <= bytes.len(),
                self.hash == fx_words(start, done),
                done + words_of(bytes@.skip(i as int)) == words_of(bytes@),
            decreases bytes.len() - i,
        {
            let word: u64 = bytes[i] as u64 + bytes[i + 1] as u64 * 0x100 + bytes[i + 2] as u64
                * 0x1_0000 + bytes[i + 3] as u64 * 0x100_0000 + bytes[i + 4] as u64
                * 0x1_0000_0000 + bytes[i + 5] as u64 * 0x100_0000_0000 + bytes[i + 6] as u64
                * 0x1_0000_0000_0000 + bytes[i + 7] as u64 * 0x100_0000_0000_0000;
            self.add_to_hash(word);
            proof {
                let here: Seq<u8> = bytes@.skip(i as int);
                assert(here.skip(8) =~= bytes@.skip(i as int + 8));
                assert(word == word_of(here));
                assert(done.push(word).drop_last() =~= done);
                assert(done + (seq![word] + words_of(here.skip(8))) =~= done.push(word) + words_of(
                    here.skip(8),
                ));
                done = done.push(word);
            }
            i = i + 8;
        }
        let ghost tail: Seq<u64> = words_of(bytes@.skip(i as int));
        let ghost before: Seq<u64> = done;
        let ghost from: int = i as int;
        while i < bytes.len()
            invariant
                0 <= from <= i <= bytes.len(),
                bytes.len() - from < 8,
                tail == words_of(bytes@.skip(from)),
                before + tail == words_of(bytes@),
                self.hash == fx_words(start, done),
                done == before + tail.take(i - from),
            decreases bytes.len() - i,
        {
            self.add_to_hash(bytes[i] as u64);
            proof {
                let here: Seq<u8> = bytes@.skip(from);
                assert(here.len() < 8);
                assert(tail == Seq::new(here.len(), |k: int| here[k] as u64));
                assert(tail[i - from] == bytes@[i as int] as u64);
                assert(done.push(bytes@[i as int] as u64).drop_last() =~= done);
                done = done.push(bytes@[i as int] as u64);
                assert(done =~= before + tail.take(i + 1 - from));
            }
            i = i + 1;
        }
        proof {
            assert(tail.take(i - from) =~= tail);
        }
    }

    /// Mixes the characters of a text in, one word each.
    pub fn write_text(&mut self, text: &str)
        ensures
            final(self).hash == fx_words(old(self).hash, words_of_text(text@)),
    {
        let ghost start: u64 = self.hash;
        let ghost words: Seq<u64> = words_of_text(text@);
        for c in rest: text.chars()
            invariant
                rest.seq() == text@,
                words == words_of_text(text@),
                self.hash == fx_words(start, words.take(rest.index() as int)),
        {
            proof {
                let now: Seq<u64> = words.take(rest.index() as int + 1);
                assert(now.drop_last() =~= words.take(rest.index() as int));
                assert(now.last() == c as u64);
            }
            self.add_to_hash(c as u64);
        }
        proof {
            assert(words.take(text@.len() as int) =~= words);
        }
    }

    /// Mixes several words in.
    pub fn write_words(&mut self, words: &Vec<u64>)
        ensures
            final(self).hash == fx_words(old(self).hash, words@),
    {
        let ghost start: u64 = self.hash;
        let mut i: usize = 0;
        while i < words.len()
            invariant
                i <= words.len(),
                self.hash == fx_words(start, words@.take(i as int)),
            decreases words.len() - i,
        {
            self.add_to_hash(words[i]);
            proof {
                let upto: Seq<u64> = words@.take(i as int + 1);
                assert(upto.drop_last() =~= words@.take(i as int));
                assert(upto.last() == words@[i as int]);
            }
            i = i + 1;
        }
        proof {
            assert(words@.take(i as int) =~= words@);
        }
    }

    /// Mixes a byte in.
    pub fn write_u8(&mut self, i: u8)
        ensures
            final(self).hash == fx_step(old(self).hash, i as u64),
    {
        self.add_to_hash(i as u64);
    }

    /// Mixes a 16-bit word in.
    pub fn write_u16(&mut self, i: u16)
        ensures
            final(self).hash == fx_step(old(self).hash, i as u64),
    {
        self.add_to_hash(i as u64);
    }

    /// Mixes a 32-bit word in.
    pub fn write_u32(&mut self, i: u32)
        ensures
            final(self).hash == fx_step(old(self).hash, i as u64),
    {
        self.add_to_hash(i as u64);
    }

    /// Mixes a 64-bit word in.
    pub fn write_u64(&mut self, i: u64)
        ensures
            final(self).hash == fx_step(old(self).hash, i),
    {
        self.add_to_hash(i);
    }

    /// Mixes the lower half of a 128-bit word in, then the upper half.
    pub fn write_u128(&mut self, i: u128)
        ensures
            final(self).hash == fx_step(
                fx_step(old(self).hash, (i % 0x1_0000_0000_0000_0000) as u64),
                (i / 0x1_0000_0000_0000_0000) as u64,
            ),
    {
        self.add_to_hash((i % 0x1_0000_0000_0000_0000) as u64);
        self.add_to_hash((i / 0x1_0000_0000_0000_0000) as u64);
    }

    /// Mixes a word of the machine's size in.
    pub fn write_usize(&mut self, i: usize)
        ensures
            final(self).hash == fx_step(old(self).hash, i as u64),
    {
        self.add_to_hash(i as u64);
    }

    /// The hash of all that was mixed in.
    pub fn finish(&self) -> (hash: u64)
        ensures
            hash == self.hash,
    {
        self.hash
    }
}

/// What is mixed in first does not depend on what follows: a hash can be
/// continued.
pub proof fn lemma_hash_continues(hash: u64, a: Seq<u64>, b: Seq<u64>)
    ensures
        fx_words(hash, a + b) == fx_words(fx_words(hash, a), b),
{
    lemma_words_add(hash, a, b);
}

} // verus!
