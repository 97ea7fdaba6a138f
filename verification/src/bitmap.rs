//! Free-space bitmap over a contiguous run of cached disk blocks.
use vstd::prelude::*;

verus! {

/// Size of one disk block in bytes.
pub const BLOCK_SZ: usize = 512;

/// Number of bits that one block holds.
pub const BLOCK_BITS: usize = 4096;

/// Number of 64-bit words that one block holds.
pub const BLOCK_WORDS: usize = 64;

/// One block held in memory: its contents as 64-bit words, and whether they
/// were changed since the block was last written back.
pub struct CachedBlock {
    pub words: [u64; 64],
    pub dirty: bool,
}

/// The blocks of a device held in memory, addressed by block id.
pub struct BlockCache {
    blocks: Vec<CachedBlock>,
}

impl BlockCache {
    /// The words of every block, by block id.
    pub closed spec fn words(&self) -> Seq<Seq<u64>> {
        Seq::new(self.blocks@.len(), |i: int| self.blocks@[i].words@)
    }

    /// The dirty mark of every block, by block id.
    pub closed spec fn dirty(&self) -> Seq<bool> {
        Seq::new(self.blocks@.len(), |i: int| self.blocks@[i].dirty)
    }

    /// Every block holds `BLOCK_WORDS` words, and each has a dirty mark.
    pub proof fn lemma_shape(&self)
        ensures
            self.dirty().len() == self.words().len(),
            forall|i: int| 0 <= i < self.words().len() ==> (#[trigger] self.words()[i]).len() == 64,
    {
    }

    /// A cache of `count` blocks, every word zero and no block dirty.
    pub fn new(count: usize) -> (cache: Self)
        ensures
            cache.words().len() == count,
            cache.dirty().len() == count,
            forall|i: int, j: int|
                0 <= i < count && 0 <= j < 64 ==> (#[trigger] cache.words()[i][j]) == 0,
            forall|i: int| 0 <= i < count ==> !(#[trigger] cache.dirty()[i]),
    {
        let mut blocks: Vec<CachedBlock> = Vec::new();
        let mut i: usize = 0;
        while i < count
            invariant
                i <= count,
                blocks@.len() == i,
                forall|k: int, j: int|
                    0 <= k < i && 0 <= j < 64 ==> (#[trigger] blocks@[k].words@[j]) == 0,
                forall|k: int| 0 <= k < i ==> !(#[trigger] blocks@[k]).dirty,
            decreases count - i,
        {
            blocks.push(CachedBlock { words: [0u64; 64], dirty: false });
            i += 1;
        }
        BlockCache { blocks }
    }

    /// The number of blocks held.
    pub fn len(&self) -> (n: usize)
        ensures
            n == self.words().len(),
    {
        self.blocks.len()
    }

    /// One word of a block.
    pub fn word(&self, block_id: usize, word: usize) -> (value: u64)
        requires
            block_id < self.words().len(),
            word < 64,
        ensures
            value == self.words()[block_id as int][word as int],
    {
        self.blocks[block_id].words[word]
    }

    /// Whether a block was changed since it was last marked clean.
    pub fn is_dirty(&self, block_id: usize) -> (d: bool)
        requires
            block_id < self.words().len(),
        ensures
            d == self.dirty()[block_id as int],
    {
        self.blocks[block_id].dirty
    }

    /// Takes the dirty mark off a block, as after writing it back.
    pub fn mark_clean(&mut self, block_id: usize)
        requires
            block_id < old(self).words().len(),
        ensures
            final(self).words() == old(self).words(),
            final(self).dirty() == old(self).dirty().update(block_id as int, false),
    {
        self.blocks[block_id].dirty = false;
        assert(self.words() =~= old(self).words());
        assert(self.dirty() =~= old(self).dirty().update(block_id as int, false));
    }

    /// Overwrites one word of a block and marks the block dirty.
    pub fn modify(&mut self, block_id: usize, word: usize, value: u64)
        requires
            block_id < old(self).words().len(),
            word < 64,
        ensures
            final(self).words() == old(self).words().update(
                block_id as int,
                old(self).words()[block_id as int].update(word as int, value),
            ),
            final(self).dirty() == old(self).dirty().update(block_id as int, true),
    {
        self.blocks[block_id].words[word] = value;
        self.blocks[block_id].dirty = true;
        assert(self.words() =~= old(self).words().update(
            block_id as int,
            old(self).words()[block_id as int].update(word as int, value),
        ));
        assert(self.dirty() =~= old(self).dirty().update(block_id as int, true));
    }
}

/// Whether bit `i` of `word` is 1, counting from the lowest bit.
pub open spec fn bit_of(word: u64, i: int) -> bool {
    (word >> (i as u64)) & 1 == 1
}

/// `word` with bit `i` set to 1.
pub open spec fn with_bit(word: u64, i: int) -> u64 {
    word | (1u64 << (i as u64))
}

/// `word` with bit `i` set to 0.
pub open spec fn without_bit(word: u64, i: int) -> u64 {
    word & !(1u64 << (i as u64))
}

/// Every bit of the all-ones word is 1.
pub proof fn lemma_full_word(i: int)
    requires
        0 <= i < 64,
    ensures
        bit_of(u64::MAX, i),
{
    let s = i as u64;
    assert((0xffff_ffff_ffff_ffffu64 >> s) & 1 == 1) by (bit_vector)
        requires
            s < 64,
    ;
}

/// In a word that is not all ones, the number of trailing ones is the position
/// of the lowest 0 bit.
pub proof fn lemma_lowest_free(word: u64)
    requires
        word != u64::MAX,
    ensures
        word.trailing_ones() < 64,
        !bit_of(word, word.trailing_ones() as int),
        forall|k: int| 0 <= k < word.trailing_ones() ==> bit_of(word, k),
{
    vstd::std_specs::bits::axiom_u64_trailing_ones(word);
    let t = word.trailing_ones();
    assert forall|k: int| 0 <= k < t implies bit_of(word, k) by {
        let j = k as u64;
        assert((word >> j) & 1u64 == 1u64);
    }
}

/// Setting bit `i` makes it 1 and leaves every other bit as it was.
pub proof fn lemma_with_bit(word: u64, i: int)
    requires
        0 <= i < 64,
    ensures
        bit_of(with_bit(word, i), i),
        forall|k: int| 0 <= k < 64 && k != i ==> bit_of(with_bit(word, i), k) == bit_of(word, k),
{
    let s = i as u64;
    assert(((word | (1u64 << s)) >> s) & 1 == 1) by (bit_vector)
        requires
            s < 64,
    ;
    assert forall|k: int| 0 <= k < 64 && k != i implies bit_of(with_bit(word, i), k) == bit_of(
        word,
        k,
    ) by {
        let j = k as u64;
        assert(((word | (1u64 << s)) >> j) & 1 == (word >> j) & 1) by (bit_vector)
            requires
                s < 64,
                j < 64,
                j != s,
        ;
    }
}

/// Clearing bit `i` makes it 0 and leaves every other bit as it was.
pub proof fn lemma_without_bit(word: u64, i: int)
    requires
        0 <= i < 64,
    ensures
        !bit_of(without_bit(word, i), i),
        forall|k: int|
            0 <= k < 64 && k != i ==> bit_of(without_bit(word, i), k) == bit_of(word, k),
{
    let s = i as u64;
    assert(((word & !(1u64 << s)) >> s) & 1 == 0) by (bit_vector)
        requires
            s < 64,
    ;
    assert forall|k: int| 0 <= k < 64 && k != i implies bit_of(without_bit(word, i), k) == bit_of(
        word,
        k,
    ) by {
        let j = k as u64;
        assert(((word & !(1u64 << s)) >> j) & 1 == (word >> j) & 1) by (bit_vector)
            requires
                s < 64,
                j < 64,
                j != s,
        ;
    }
}

/// Setting a 0 bit and clearing it again gives the word back, and so does
/// clearing a 1 bit and setting it again.
pub proof fn lemma_bit_round_trip(word: u64, i: int)
    requires
        0 <= i < 64,
    ensures
        !bit_of(word, i) ==> without_bit(with_bit(word, i), i) == word,
        bit_of(word, i) ==> with_bit(without_bit(word, i), i) == word,
{
    let s = i as u64;
    assert((word >> s) & 1 != 1 ==> (word | (1u64 << s)) & !(1u64 << s) == word) by (bit_vector)
        requires
            s < 64,
    ;
    assert((word >> s) & 1 == 1 ==> (word & !(1u64 << s)) | (1u64 << s) == word) by (bit_vector)
        requires
            s < 64,
    ;
}

/// The three parts of a bit index are in range and put it together again.
pub proof fn lemma_decompose(bit: int)
    requires
        0 <= bit,
    ensures
        0 <= bit / 4096,
        0 <= (bit % 4096) / 64 < 64,
        0 <= bit % 64 < 64,
        (bit / 4096) * 4096 + ((bit % 4096) / 64) * 64 + bit % 64 == bit,
        bit % 64 == (bit % 4096) % 64,
{
    let rest = bit % 4096;
    let q = (bit / 4096) * 64 + rest / 64;
    assert(bit == q * 64 + rest % 64);
    vstd::arithmetic::div_mod::lemma_fundamental_div_mod_converse(bit, 64, q, rest % 64);
}

/// A bit index put together from a block offset, a word index and a bit
/// position splits into those three.
pub proof fn lemma_compose(block: int, word: int, inner: int)
    requires
        0 <= block,
        0 <= word < 64,
        0 <= inner < 64,
    ensures
        (block * 4096 + word * 64 + inner) / 4096 == block,
        ((block * 4096 + word * 64 + inner) % 4096) / 64 == word,
        (block * 4096 + word * 64 + inner) % 64 == inner,
{
    let bit = block * 4096 + word * 64 + inner;
    vstd::arithmetic::div_mod::lemma_fundamental_div_mod_converse(
        bit,
        4096,
        block,
        word * 64 + inner,
    );
    vstd::arithmetic::div_mod::lemma_fundamental_div_mod_converse(
        word * 64 + inner,
        64,
        word,
        inner,
    );
    vstd::arithmetic::div_mod::lemma_fundamental_div_mod_converse(
        bit,
        64,
        block * 64 + word,
        inner,
    );
}

/// Splits a bit index into the offset of its block, the index of its word in
/// that block and the position of the bit in that word.
pub fn decomposition(bit: usize) -> (r: (usize, usize, usize))
    ensures
        r.0 == bit / 4096,
        r.1 == (bit % 4096) / 64,
        r.2 == bit % 64,
        r.1 < 64,
        r.2 < 64,
        r.0 * 4096 + r.1 * 64 + r.2 == bit,
{
    proof {
        lemma_decompose(bit as int);
    }
    let block_pos: usize = bit / BLOCK_BITS;
    let rest: usize = bit % BLOCK_BITS;
    (block_pos, rest / 64, rest % 64)
}

/// A run of `blocks` blocks, starting at block `start_block_id`, whose bits
/// record which of `blocks * BLOCK_BITS` units are in use: 1 for allocated, 0
/// for free. The region holds no state of its own.
#[derive(Clone, Copy, Debug)]
pub struct Bitmap {
    start_block_id: usize,
    blocks: usize,
}

impl Bitmap {
    #[verifier::type_invariant]
    spec fn inv(self) -> bool {
        &&& self.blocks * 4096 <= usize::MAX
        &&& self.start_block_id + self.blocks <= usize::MAX
    }

    /// The id of the region's first block.
    pub closed spec fn start(&self) -> int {
        self.start_block_id as int
    }

    /// The number of blocks in the region.
    pub closed spec fn block_count(&self) -> int {
        self.blocks as int
    }

    /// The number of bits that the region tracks.
    pub open spec fn capacity(&self) -> int {
        self.block_count() * 4096
    }

    /// The region lies within `words`, and each of its blocks has
    /// `BLOCK_WORDS` words.
    pub open spec fn covers(&self, words: Seq<Seq<u64>>) -> bool {
        &&& 0 <= self.start()
        &&& 0 <= self.block_count()
        &&& self.start() + self.block_count() <= words.len()
        &&& forall|b: int| 0 <= b < self.block_count() ==> (#[trigger] self.block(words, b)).len() == 64
    }

    /// The region's block at offset `b`.
    pub open spec fn block(&self, words: Seq<Seq<u64>>, b: int) -> Seq<u64> {
        words[self.start() + b]
    }

    /// The word that holds the region's bit `bit`.
    pub open spec fn word_of(&self, words: Seq<Seq<u64>>, bit: int) -> u64 {
        self.block(words, bit / 4096)[(bit % 4096) / 64]
    }

    /// Whether the region's bit `bit` is 1.
    pub open spec fn is_set(&self, words: Seq<Seq<u64>>, bit: int) -> bool {
        bit_of(self.word_of(words, bit), bit % 64)
    }

    /// `bit` is the lowest bit of the region that is 0.
    pub open spec fn is_first_free(&self, words: Seq<Seq<u64>>, bit: int) -> bool {
        &&& 0 <= bit < self.capacity()
        &&& !self.is_set(words, bit)
        &&& forall|j: int| 0 <= j < bit ==> #[trigger] self.is_set(words, j)
    }

    /// Every bit of the region is 1.
    pub open spec fn is_full(&self, words: Seq<Seq<u64>>) -> bool {
        forall|j: int| 0 <= j < self.capacity() ==> #[trigger] self.is_set(words, j)
    }

    /// `words` with the word that holds bit `bit` replaced by `value`.
    pub open spec fn put_word(&self, words: Seq<Seq<u64>>, bit: int, value: u64) -> Seq<Seq<u64>> {
        words.update(
            self.start() + bit / 4096,
            self.block(words, bit / 4096).update((bit % 4096) / 64, value),
        )
    }

    /// `words` with the region's bit `bit` set to 1.
    pub open spec fn allocated(&self, words: Seq<Seq<u64>>, bit: int) -> Seq<Seq<u64>> {
        self.put_word(words, bit, with_bit(self.word_of(words, bit), bit % 64))
    }

    /// `words` with the region's bit `bit` set to 0.
    pub open spec fn released(&self, words: Seq<Seq<u64>>, bit: int) -> Seq<Seq<u64>> {
        self.put_word(words, bit, without_bit(self.word_of(words, bit), bit % 64))
    }

    /// What one allocation does: it takes the lowest free bit and sets it, or
    /// finds the region full and changes nothing.
    pub open spec fn alloc_step(
        &self,
        pre: Seq<Seq<u64>>,
        post: Seq<Seq<u64>>,
        r: Option<usize>,
    ) -> bool {
        match r {
            Some(bit) => {
                &&& self.is_first_free(pre, bit as int)
                &&& post == self.allocated(pre, bit as int)
            },
            None => {
                &&& self.is_full(pre)
                &&& post == pre
            },
        }
    }

    /// A scan that met only all-ones words before word `word_pos` of block
    /// `block`, and finds the lowest 0 bit of that word at `inner`, has found
    /// the lowest free bit of the region.
    proof fn lemma_scan_finds_first_free(
        &self,
        words: Seq<Seq<u64>>,
        block: int,
        word_pos: int,
        inner: int,
    )
        requires
            0 <= block < self.block_count(),
            0 <= word_pos < 64,
            0 <= inner < 64,
            forall|b: int, w: int|
                0 <= b < block && 0 <= w < 64 ==> (#[trigger] self.block(words, b)[w]) == u64::MAX,
            forall|w: int| 0 <= w < word_pos ==> (#[trigger] self.block(words, block)[w]) == u64::MAX,
            !bit_of(self.block(words, block)[word_pos], inner),
            forall|k: int| 0 <= k < inner ==> bit_of(self.block(words, block)[word_pos], k),
        ensures
            self.is_first_free(words, block * 4096 + word_pos * 64 + inner),
            (block * 4096 + word_pos * 64 + inner) / 4096 == block,
            ((block * 4096 + word_pos * 64 + inner) % 4096) / 64 == word_pos,
            (block * 4096 + word_pos * 64 + inner) % 64 == inner,
    {
        let bit = block * 4096 + word_pos * 64 + inner;
        lemma_compose(block, word_pos, inner);
        assert forall|j: int| 0 <= j < bit implies #[trigger] self.is_set(words, j) by {
            lemma_decompose(j);
            let jb = j / 4096;
            let jw = (j % 4096) / 64;
            let ji = j % 64;
            if jb < block {
                assert(self.block(words, jb)[jw] == u64::MAX);
                lemma_full_word(ji);
            } else if jw < word_pos {
                assert(self.block(words, block)[jw] == u64::MAX);
                lemma_full_word(ji);
            } else {
                assert(jb == block && jw == word_pos && ji < inner);
            }
        }
    }

    /// A scan that met only all-ones words in every block of the region has
    /// found the region full.
    proof fn lemma_scan_finds_full(&self, words: Seq<Seq<u64>>)
        requires
            forall|b: int, w: int|
                0 <= b < self.block_count() && 0 <= w < 64 ==> (#[trigger] self.block(words, b)[w])
                    == u64::MAX,
        ensures
            self.is_full(words),
    {
        assert forall|j: int| 0 <= j < self.capacity() implies #[trigger] self.is_set(
            words,
            j,
        ) by {
            lemma_decompose(j);
            assert(self.block(words, j / 4096)[(j % 4096) / 64] == u64::MAX);
            lemma_full_word(j % 64);
        }
    }

    /// The region of `blocks` blocks that starts at block `start_block_id`.
    pub fn new(start_block_id: usize, blocks: usize) -> (bitmap: Self)
        requires
            blocks * 4096 <= usize::MAX,
            start_block_id + blocks <= usize::MAX,
        ensures
            bitmap.start() == start_block_id,
            bitmap.block_count() == blocks,
    {
        Self { start_block_id, blocks }
    }

    /// Whether the region lies within the cache.
    pub fn lies_within(&self, cache: &BlockCache) -> (r: bool)
        ensures
            r == (self.start() + self.block_count() <= cache.words().len()),
    {
        proof {
            use_type_invariant(self);
        }
        self.start_block_id + self.blocks <= cache.len()
    }

    /// A cache that the region lies within has the shape that `covers` asks
    /// for.
    pub proof fn lemma_covers_cache(&self, cache: &BlockCache)
        requires
            self.start() + self.block_count() <= cache.words().len(),
        ensures
            self.covers(cache.words()),
    {
        cache.lemma_shape();
    }

    /// Takes the lowest free bit of the region: scans the blocks in ascending
    /// order and, in each, the words in ascending order, for the first word
    /// that is not all ones; sets the lowest 0 bit of that word, marks the
    /// block dirty and returns the bit's index in the region. Returns `None`,
    /// and changes nothing, when every bit is allocated.
    pub fn allocate(&self, cache: &mut BlockCache) -> (r: Option<usize>)
        requires
            self.start() + self.block_count() <= old(cache).words().len(),
        ensures
            self.alloc_step(old(cache).words(), final(cache).words(), r),
            match r {
                Some(bit) => final(cache).dirty() == old(cache).dirty().update(
                    self.start() + bit / 4096,
                    true,
                ),
                None => final(cache).dirty() == old(cache).dirty(),
            },
    {
        proof {
            use_type_invariant(self);
            cache.lemma_shape();
        }
        let mut block_id: usize = 0;
        while block_id < self.blocks
            invariant
                block_id <= self.blocks,
                self.blocks * 4096 <= usize::MAX,
                self.start_block_id + self.blocks <= usize::MAX,
                self.start_block_id + self.blocks <= cache.words().len(),
                cache.words() == old(cache).words(),
                cache.dirty() == old(cache).dirty(),
                forall|b: int, w: int|
                    0 <= b < block_id && 0 <= w < 64 ==> (#[trigger] self.block(
                        cache.words(),
                        b,
                    )[w]) == u64::MAX,
            decreases self.blocks - block_id,
        {
            let mut word_pos: usize = 0;
            while word_pos < BLOCK_WORDS
                invariant
                    word_pos <= 64,
                    block_id < self.blocks,
                    self.blocks * 4096 <= usize::MAX,
                    self.start_block_id + self.blocks <= usize::MAX,
                    self.start_block_id + self.blocks <= cache.words().len(),
                    cache.words() == old(cache).words(),
                    cache.dirty() == old(cache).dirty(),
                    forall|b: int, w: int|
                        0 <= b < block_id && 0 <= w < 64 ==> (#[trigger] self.block(
                            cache.words(),
                            b,
                        )[w]) == u64::MAX,
                    forall|w: int|
                        0 <= w < word_pos ==> (#[trigger] self.block(
                            cache.words(),
                            block_id as int,
                        )[w]) == u64::MAX,
                decreases 64 - word_pos,
            {
                let word = cache.word(self.start_block_id + block_id, word_pos);
                if word != u64::MAX {
                    proof {
                        lemma_lowest_free(word);
                    }
                    let inner_pos: u32 = word.trailing_ones();
                    let shift: u64 = inner_pos as u64;
                    let bit: usize = block_id * BLOCK_BITS + word_pos * 64 + inner_pos as usize;
                    cache.modify(self.start_block_id + block_id, word_pos, word | (1u64 << shift));
                    proof {
                        self.lemma_scan_finds_first_free(
                            old(cache).words(),
                            block_id as int,
                            word_pos as int,
                            inner_pos as int,
                        );
                    }
                    return Some(bit);
                }
                word_pos += 1;
            }
            block_id += 1;
        }
        proof {
            self.lemma_scan_finds_full(old(cache).words());
        }
        None
    }

    /// Whether the region's bit `bit` is allocated.
    pub fn is_allocated(&self, cache: &BlockCache, bit: usize) -> (set: bool)
        requires
            self.start() + self.block_count() <= cache.words().len(),
            bit < self.capacity(),
        ensures
            set == self.is_set(cache.words(), bit as int),
    {
        proof {
            use_type_invariant(self);
            cache.lemma_shape();
        }
        let (block_pos, bits64_pos, inner_pos) = decomposition(bit);
        let word = cache.word(self.start_block_id + block_pos, bits64_pos);
        let shift: u64 = inner_pos as u64;
        assert((word >> shift) & 1 == 1 <==> word & (1u64 << shift) != 0) by (bit_vector)
            requires
                shift < 64,
        ;
        word & (1u64 << shift) != 0
    }

    /// Frees the region's bit `bit`: clears it and marks its block dirty. The
    /// bit must be one that is allocated.
    pub fn dealloc(&self, cache: &mut BlockCache, bit: usize)
        requires
            self.start() + self.block_count() <= old(cache).words().len(),
            bit < self.capacity(),
            self.is_set(old(cache).words(), bit as int),
        ensures
            final(cache).words() == self.released(old(cache).words(), bit as int),
            final(cache).dirty() == old(cache).dirty().update(self.start() + bit / 4096, true),
    {
        proof {
            use_type_invariant(self);
            cache.lemma_shape();
        }
        let (block_pos, bits64_pos, inner_pos) = decomposition(bit);
        let word = cache.word(self.start_block_id + block_pos, bits64_pos);
        let shift: u64 = inner_pos as u64;
        cache.modify(self.start_block_id + block_pos, bits64_pos, word & !(1u64 << shift));
    }

    /// The number of bits that the region tracks, whatever is allocated.
    pub fn maximum(&self) -> (n: usize)
        ensures
            n == self.capacity(),
            n == self.block_count() * 4096,
    {
        proof {
            use_type_invariant(self);
        }
        self.blocks * BLOCK_BITS
    }
}


/// Setting a bit of the region keeps the region's shape, makes that bit 1 and
/// leaves every other bit of the region as it was.
pub proof fn lemma_allocated(bitmap: Bitmap, words: Seq<Seq<u64>>, bit: int)
    requires
        bitmap.covers(words),
        0 <= bit < bitmap.capacity(),
    ensures
        bitmap.covers(bitmap.allocated(words, bit)),
        bitmap.is_set(bitmap.allocated(words, bit), bit),
        forall|j: int|
            0 <= j < bitmap.capacity() && j != bit ==> #[trigger] bitmap.is_set(
                bitmap.allocated(words, bit),
                j,
            ) == bitmap.is_set(words, j),
{
    let post = bitmap.allocated(words, bit);
    lemma_decompose(bit);
    lemma_with_bit(bitmap.word_of(words, bit), bit % 64);
    assert(bitmap.block(words, bit / 4096).len() == 64);
    assert forall|b: int| 0 <= b < bitmap.block_count() implies (#[trigger] bitmap.block(
        post,
        b,
    )).len() == 64 by {
        assert(bitmap.block(words, b).len() == 64);
    }
    assert forall|j: int| 0 <= j < bitmap.capacity() && j != bit implies #[trigger] bitmap.is_set(
        post,
        j,
    ) == bitmap.is_set(words, j) by {
        lemma_decompose(j);
        assert(bitmap.block(words, j / 4096).len() == 64);
    }
}

/// Clearing a bit of the region keeps the region's shape, makes that bit 0
/// and leaves every other bit of the region as it was.
pub proof fn lemma_released(bitmap: Bitmap, words: Seq<Seq<u64>>, bit: int)
    requires
        bitmap.covers(words),
        0 <= bit < bitmap.capacity(),
    ensures
        bitmap.covers(bitmap.released(words, bit)),
        !bitmap.is_set(bitmap.released(words, bit), bit),
        forall|j: int|
            0 <= j < bitmap.capacity() && j != bit ==> #[trigger] bitmap.is_set(
                bitmap.released(words, bit),
                j,
            ) == bitmap.is_set(words, j),
{
    let post = bitmap.released(words, bit);
    lemma_decompose(bit);
    lemma_without_bit(bitmap.word_of(words, bit), bit % 64);
    assert(bitmap.block(words, bit / 4096).len() == 64);
    assert forall|b: int| 0 <= b < bitmap.block_count() implies (#[trigger] bitmap.block(
        post,
        b,
    )).len() == 64 by {
        assert(bitmap.block(words, b).len() == 64);
    }
    assert forall|j: int| 0 <= j < bitmap.capacity() && j != bit implies #[trigger] bitmap.is_set(
        post,
        j,
    ) == bitmap.is_set(words, j) by {
        lemma_decompose(j);
        assert(bitmap.block(words, j / 4096).len() == 64);
    }
}

/// Allocating a free bit and freeing it at once gives back the words that were
/// there before: every bit of every block, and with them the number of free
/// bits, is as it was. The bit is allocated in between, so it may be freed.
pub proof fn lemma_alloc_dealloc_round_trip(bitmap: Bitmap, words: Seq<Seq<u64>>, bit: int)
    requires
        bitmap.covers(words),
        0 <= bit < bitmap.capacity(),
        !bitmap.is_set(words, bit),
    ensures
        bitmap.is_set(bitmap.allocated(words, bit), bit),
        bitmap.released(bitmap.allocated(words, bit), bit) == words,
{
    lemma_allocated(bitmap, words, bit);
    lemma_decompose(bit);
    lemma_bit_round_trip(bitmap.word_of(words, bit), bit % 64);
    assert(bitmap.block(words, bit / 4096).len() == 64);
    let mid = bitmap.allocated(words, bit);
    assert(bitmap.block(mid, bit / 4096) =~= bitmap.block(words, bit / 4096).update(
        (bit % 4096) / 64,
        with_bit(bitmap.word_of(words, bit), bit % 64),
    ));
    assert(bitmap.block(mid, bit / 4096).update(
        (bit % 4096) / 64,
        bitmap.word_of(words, bit),
    ) =~= bitmap.block(words, bit / 4096));
    assert(bitmap.released(mid, bit) =~= words);
}

/// Through a run of allocations with nothing freed in between, a bit that one
/// of them handed out stays allocated.
proof fn lemma_stays_allocated(
    bitmap: Bitmap,
    states: Seq<Seq<Seq<u64>>>,
    results: Seq<Option<usize>>,
    i: int,
    m: int,
)
    requires
        states.len() == results.len() + 1,
        bitmap.covers(states[0]),
        forall|k: int|
            0 <= k < results.len() ==> bitmap.alloc_step(
                states[k],
                states[k + 1],
                #[trigger] results[k],
            ),
        0 <= i < m <= results.len(),
        results[i] is Some,
    ensures
        bitmap.covers(states[m]),
        bitmap.is_set(states[m], results[i]->Some_0 as int),
    decreases m,
{
    lemma_run_keeps_shape(bitmap, states, results, m - 1);
    assert(bitmap.alloc_step(states[m - 1], states[m], results[m - 1]));
    if results[m - 1] is Some {
        lemma_allocated(bitmap, states[m - 1], results[m - 1]->Some_0 as int);
    }
    if i < m - 1 {
        lemma_stays_allocated(bitmap, states, results, i, m - 1);
    }
}

/// A run of allocations keeps the region's shape.
proof fn lemma_run_keeps_shape(
    bitmap: Bitmap,
    states: Seq<Seq<Seq<u64>>>,
    results: Seq<Option<usize>>,
    m: int,
)
    requires
        states.len() == results.len() + 1,
        bitmap.covers(states[0]),
        forall|k: int|
            0 <= k < results.len() ==> bitmap.alloc_step(
                states[k],
                states[k + 1],
                #[trigger] results[k],
            ),
        0 <= m <= results.len(),
    ensures
        bitmap.covers(states[m]),
    decreases m,
{
    if m > 0 {
        lemma_run_keeps_shape(bitmap, states, results, m - 1);
        assert(bitmap.alloc_step(states[m - 1], states[m], results[m - 1]));
        if results[m - 1] is Some {
            lemma_allocated(bitmap, states[m - 1], results[m - 1]->Some_0 as int);
        }
    }
}

/// Allocations that follow one another with nothing freed in between never
/// hand out the same bit twice: where `states[k]` are the words before the
/// allocation `k` and `states[k + 1]` those after it, the bits in `results`
/// differ from one another.
pub proof fn lemma_no_double_allocation(
    bitmap: Bitmap,
    states: Seq<Seq<Seq<u64>>>,
    results: Seq<Option<usize>>,
)
    requires
        states.len() == results.len() + 1,
        bitmap.covers(states[0]),
        forall|k: int|
            0 <= k < results.len() ==> bitmap.alloc_step(
                states[k],
                states[k + 1],
                #[trigger] results[k],
            ),
    ensures
        forall|i: int, j: int|
            0 <= i < j < results.len() && results[i] is Some && results[j] is Some
                ==> results[i] != results[j],
{
    assert forall|i: int, j: int|
        0 <= i < j < results.len() && results[i] is Some && results[j] is Some implies results[i]
        != results[j] by {
        lemma_stays_allocated(bitmap, states, results, i, j);
        assert(bitmap.alloc_step(states[j], states[j + 1], results[j]));
    }
}

} // verus!
