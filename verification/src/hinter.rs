//! Where the evaluators take their hints from.
use vstd::prelude::*;

verus! {

/// The claimed `x` coordinate of a point to be decompressed.
#[derive(Debug, PartialEq, Eq)]
pub struct DecompressionHint {
    pub x: [u32; 8],
}

/// A source of hints, each eight limbs, handed out one at a time.
pub trait ComputeHintStreamer {
    /// The hints still to come, in the order in which `next` hands them out.
    spec fn pending(&self) -> Seq<Seq<u32>>;

    /// Hands out the next hint.
    fn next(&mut self) -> (res: [u32; 8])
        requires
            old(self).pending().len() > 0,
        ensures
            res@ == old(self).pending()[0],
            final(self).pending() == old(self).pending().drop_first(),
    ;
}

/// The `k`-th group of eight words of `words`.
pub open spec fn word_chunk(words: Seq<u32>, k: int) -> Seq<u32> {
    words.subrange(8 * k, 8 * k + 8)
}

/// The first `k` groups of eight words of `words`, one after the other.
pub open spec fn chunks(words: Seq<u32>, k: nat) -> Seq<u32>
    decreases k,
{
    if k == 0 {
        Seq::empty()
    } else {
        chunks(words, (k - 1) as nat) + word_chunk(words, k - 1)
    }
}

/// Handing out groups of eight words one after the other hands out the
/// words in order: the first `k` groups together are the first `8 k` words.
pub proof fn law_chunks_in_order(words: Seq<u32>, k: nat)
    requires
        8 * k <= words.len(),
    ensures
        chunks(words, k) == words.take((8 * k) as int),
    decreases k,
{
    if k == 0 {
        assert(words.take(0) =~= Seq::<u32>::empty());
    } else {
        law_chunks_in_order(words, (k - 1) as nat);
        assert(words.take((8 * (k - 1)) as int) + word_chunk(words, k - 1) =~= words.take((8 * k) as int));
    }
}

/// Hints read from a slice of words, eight words per hint.
pub struct ComputeHintStore<'a> {
    store: &'a [u32],
    index: usize,
}

impl<'a> ComputeHintStore<'a> {
    /// The words the hints are read from.
    pub closed spec fn words(&self) -> Seq<u32> {
        self.store@
    }

    /// How many hints have been handed out.
    pub closed spec fn taken(&self) -> nat {
        self.index as nat
    }

    /// A store that hands out the words of `store` in groups of eight, from
    /// the first; words that do not fill a group are never handed out.
    pub fn new(store: &'a [u32]) -> (res: Self)
        ensures
            res.words() == store@,
            res.taken() == 0,
            res.pending().len() == store@.len() / 8,
            res.pending() == Seq::new(
                (store@.len() / 8) as nat,
                |k: int| word_chunk(store@, k),
            ),
    {
        Self { store, index: 0 }
    }
}

impl<'a> ComputeHintStreamer for ComputeHintStore<'a> {
    open spec fn pending(&self) -> Seq<Seq<u32>> {
        let n = self.words().len() / 8;
        Seq::new(
            if self.taken() <= n {
                (n - self.taken()) as nat
            } else {
                0
            },
            |k: int| word_chunk(self.words(), self.taken() + k),
        )
    }

    fn next(&mut self) -> (res: [u32; 8])
        ensures
            res@ == word_chunk(old(self).words(), old(self).taken() as int),
            final(self).words() == old(self).words(),
            final(self).taken() == old(self).taken() + 1,
    {
        proof {
            let n = self.store@.len();
            assert(n == self.store.len());
            let i = self.index as int;
            assert(i < n / 8);
            assert(i * 8 + 8 <= n) by (nonlinear_arith)
                requires
                    i < n / 8,
                    0 <= i,
            ;
        }
        let start = self.index * 8;
        let mut res = [0u32; 8];
        for i in 0..8
            invariant
                start == self.index * 8,
                start + 8 <= self.store@.len(),
                forall|k: int| 0 <= k < i ==> res@[k] == self.store@[start + k],
        {
            res[i] = self.store[start + i];
        }
        self.index += 1;
        assert(res@ =~= word_chunk(self.store@, self.index - 1));
        assert(self.pending() =~= old(self).pending().drop_first());
        res
    }
}

/// The number of words read from a source of `max` words once `r` refills
/// have been made: `min(max, 256 r)`.
pub open spec fn words_read(max: nat, r: int) -> nat {
    if max <= 256 * r {
        max
    } else {
        (256 * r) as nat
    }
}

/// A buffer of 256 words that hints are taken from eight words at a time,
/// refilled from an outside source when all 32 hints in it have been taken.
/// `max` counts the words that the source still holds.
pub struct ComputeHintBuffer {
    buf: [u32; 256],
    offset: usize,
    max: usize,
    /// Every word put in by the refills, in order.
    read: Ghost<Seq<u32>>,
    /// The index, among all hints taken, of the hint at the front of the
    /// buffer (`-32` before the first refill).
    first: Ghost<int>,
    /// How many words were read before the last refill.
    rbase: Ghost<nat>,
    /// The number of words the source held at the start.
    max0: Ghost<nat>,
}

impl ComputeHintBuffer {
    /// The buffered words.
    pub closed spec fn buffered(&self) -> Seq<u32> {
        self.buf@
    }

    /// How many hints of the buffer have been taken.
    pub closed spec fn offset(&self) -> nat {
        self.offset as nat
    }

    /// How many words the outside source still holds.
    pub closed spec fn remaining(&self) -> nat {
        self.max as nat
    }

    /// Every word read from the source so far, in order.
    pub closed spec fn read(&self) -> Seq<u32> {
        self.read@
    }

    /// How many hints have been taken.
    pub closed spec fn taken(&self) -> nat {
        (self.first@ + self.offset) as nat
    }

    /// How many words the source held at the start.
    pub closed spec fn initial(&self) -> nat {
        self.max0@
    }

    /// How the buffer stands to the words read: after `r` refills, the
    /// words of the last refill are at the front of the buffer and are
    /// the words from `8 * first` on of everything read, unless the source
    /// ran dry before; `min(max, 256 r)` words have been read.
    pub closed spec fn wf(&self) -> bool {
        let r = (self.first@ + 32) / 32;
        &&& self.offset <= 32
        &&& self.first@ >= -32
        &&& self.first@ % 32 == 0
        &&& self.first@ < 0 ==> self.offset == 32 && self.read@.len() == 0 && self.rbase@ == 0
        &&& self.read@.len() + self.max == self.max0@
        &&& self.read@.len() == words_read(self.max0@, r)
        &&& self.rbase@ <= self.read@.len() <= self.rbase@ + 256
        &&& forall|i: int|
            0 <= i < self.read@.len() - self.rbase@ ==> self.buf@[i] == #[trigger] self.read@[self.rbase@ + i]
        &&& self.first@ >= 0 ==> (self.rbase@ == 8 * self.first@ || (self.max == 0 && self.read@.len()
            <= 8 * self.first@))
        &&& self.first@ >= 0 && self.read@.len() < self.rbase@ + 256 ==> self.max == 0
    }

    /// A well-formed buffer keeps its offset in range, so that a hint can
    /// be taken whenever no refill is due, and reads no more than its
    /// source held: what it read and what remains make up the start.
    pub proof fn law_buffer_in_range(&self)
        requires
            self.wf(),
        ensures
            self.offset() <= 32,
            self.remaining() <= self.initial(),
            self.read().len() + self.remaining() == self.initial(),
    {
    }

    /// An empty buffer over a source of `max` words: the first hint calls
    /// for a refill.
    pub fn new(max: usize) -> (res: Self)
        ensures
            res.wf(),
            res.buffered() == Seq::new(256, |i: int| 0u32),
            res.offset() == 32,
            res.remaining() == max,
            res.read() == Seq::<u32>::empty(),
            res.taken() == 0,
            res.initial() == max,
    {
        let res = Self {
            buf: [0u32; 256],
            offset: 32,
            max,
            read: Ghost(Seq::empty()),
            first: Ghost(-32),
            rbase: Ghost(0),
            max0: Ghost(max as nat),
        };
        assert(res.buf@ =~= Seq::new(256, |i: int| 0u32));
        res
    }

    /// How many words are to be read from the source before the next hint
    /// can be taken: `None` while hints remain in the buffer, otherwise all
    /// that the source holds, at most 256.
    pub fn refill_len(&self) -> (res: Option<usize>)
        ensures
            res == (if self.offset() == 32 {
                Some(if self.remaining() >= 256 {
                    256usize
                } else {
                    self.remaining() as usize
                })
            } else {
                None
            }),
            self.wf() && res is None ==> self.offset() < 32,
    {
        if self.offset == 32 {
            if self.max >= 256 {
                Some(256)
            } else {
                Some(self.max)
            }
        } else {
            None
        }
    }

    /// Puts the words read from the source at the front of the buffer and
    /// starts taking hints from its beginning again.
    pub fn refill(&mut self, words: &[u32])
        requires
            old(self).wf(),
            old(self).offset() == 32,
            words@.len() == (if old(self).remaining() >= 256 {
                256
            } else {
                old(self).remaining()
            }),
        ensures
            final(self).wf(),
            final(self).buffered() == words@ + old(self).buffered().skip(words@.len() as int),
            final(self).offset() == 0,
            final(self).remaining() == old(self).remaining() - words@.len(),
            final(self).read() == old(self).read() + words@,
            final(self).taken() == old(self).taken(),
            final(self).initial() == old(self).initial(),
    {
        let n = words.len();
        for i in 0..n
            invariant
                n == words@.len(),
                n <= 256,
                self.offset == old(self).offset,
                self.max == old(self).max,
                self.read == old(self).read,
                self.first == old(self).first,
                self.rbase == old(self).rbase,
                self.max0 == old(self).max0,
                forall|k: int| 0 <= k < i ==> self.buf@[k] == words@[k],
                forall|k: int| i <= k < 256 ==> self.buf@[k] == old(self).buf@[k],
        {
            self.buf[i] = words[i];
        }
        self.max -= n;
        self.offset = 0;
        self.rbase = Ghost(self.read@.len());
        self.read = Ghost(self.read@ + words@);
        self.first = Ghost(self.first@ + 32);
        assert(self.buf@ =~= words@ + old(self).buf@.skip(n as int));
        assert((self.first@ + 32) / 32 == (old(self).first@ + 32) / 32 + 1);
    }

    /// Takes the next hint from the buffer. While the words read reach that
    /// far, the hint taken as number `k` (from 0) is the `k`-th group of eight
    /// of all words read, and after it `min(max, 256 ceil((k + 1) / 32))`
    /// words have been read from a source of `max` words.
    #[verifier::rlimit(30)]
    pub fn take(&mut self) -> (res: [u32; 8])
        requires
            old(self).wf(),
            old(self).offset() < 32,
        ensures
            final(self).wf(),
            res@ == word_chunk(old(self).buffered(), old(self).offset() as int),
            final(self).buffered() == old(self).buffered(),
            final(self).offset() == old(self).offset() + 1,
            final(self).offset() <= 32,
            final(self).remaining() == old(self).remaining(),
            final(self).read() == old(self).read(),
            final(self).taken() == old(self).taken() + 1,
            final(self).initial() == old(self).initial(),
            8 * old(self).taken() + 8 <= old(self).read().len() ==> res@ == word_chunk(
                old(self).read(),
                old(self).taken() as int,
            ),
            final(self).read().len() == words_read(
                final(self).initial(),
                ((final(self).taken() + 31) / 32) as int,
            ),
    {
        let mut res = [0u32; 8];
        for i in 0..8
            invariant
                self.offset < 32,
                forall|k: int| 0 <= k < i ==> res@[k] == self.buf@[k + self.offset * 8],
        {
            res[i] = self.buf[i + self.offset * 8];
        }
        self.offset += 1;
        assert(res@ =~= word_chunk(old(self).buf@, old(self).offset as int));
        proof {
            let j = self.first@ + old(self).offset;
            if 8 * j + 8 <= self.read@.len() {
                assert forall|k: int| 0 <= k < 8 implies res@[k] == self.read@[8 * j + k] by {
                    let idx = 8 * old(self).offset + k;
                    assert(self.rbase@ == 8 * self.first@);
                    assert(self.buf@[idx] == self.read@[self.rbase@ + idx]);
                }
                assert(res@ =~= word_chunk(self.read@, j));
            }
            assert((self.first@ + self.offset + 31) / 32 == (self.first@ + 32) / 32);
        }
        res
    }
}

/// The outcome that a verification reports.
#[derive(Debug, Clone, Copy, PartialEq, Eq, Structural)]
pub enum Hint {
    FormatError,
    VerificationFailed,
    Success,
}

} // verus!
