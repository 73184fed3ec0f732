use vstd::prelude::*;

use crate::repr::{
    block_fits, denote, denote_fields, is_block_repr, lemma_denote_fields_len, lemma_denote_stable,
    raw_fields, repr_size, repr_tag, word_index, Repr,
};
use crate::cache::MemoizationCache;
use crate::convert::OcamlRep;
use crate::value::{header_size, header_tag, make_header, Value, MAX_BLOCK_SIZE, NO_SCAN_TAG};

verus! {

/// Upper bound on the word indices that an arena hands out, so that a pointer
/// (eight times a word index) always fits in a word.
pub const MAX_WORDS: u64 = 0x0100_0000_0000_0000;

/// One segment of an arena's storage: `data` is allocated once and never
/// moves; the words before `index` are handed out.
pub struct Chunk {
    data: Vec<u64>,
    index: usize,
    base: usize,
}

impl Chunk {
    pub closed spec fn wf(&self) -> bool {
        self.index <= self.data@.len()
    }

    pub closed spec fn covers(&self, i: int) -> bool {
        self.base <= i < self.base + self.index
    }

    pub closed spec fn spec_capacity(&self) -> nat {
        self.data@.len()
    }

    pub closed spec fn spec_base(&self) -> nat {
        self.base as nat
    }

    pub closed spec fn spec_index(&self) -> nat {
        self.index as nat
    }

    /// A chunk of `capacity` words (each an immediate zero) whose first word
    /// has index `base`.
    fn with_capacity(capacity: usize, base: usize) -> (r: Chunk)
        ensures
            r.wf(),
            r.spec_capacity() == capacity,
            r.spec_index() == 0,
            r.spec_base() == base,
    {
        let mut data: Vec<u64> = Vec::new();
        let mut k: usize = 0;
        while k < capacity
            invariant
                k <= capacity,
                data@.len() == k,
            decreases capacity - k,
        {
            data.push(1);
            k = k + 1;
        }
        Chunk { data, index: 0, base }
    }

    fn capacity(&self) -> (r: usize)
        ensures
            r == self.spec_capacity(),
    {
        self.data.len()
    }

    fn can_fit(&self, requested_size: usize) -> (r: bool)
        requires
            self.wf(),
        ensures
            r == (self.spec_index() + requested_size <= self.spec_capacity()),
    {
        requested_size <= self.data.len() - self.index
    }
}

/// The word with index `i` among the handed-out words of `chunks`, or zero.
pub closed spec fn words_in(chunks: Seq<Chunk>, i: int) -> u64
    decreases chunks.len(),
{
    if chunks.len() == 0 {
        0
    } else if chunks.last().covers(i) {
        chunks.last().data@[i - chunks.last().base]
    } else {
        words_in(chunks.drop_last(), i)
    }
}

/// A private, growable region of memory in which blocks are built. Blocks are
/// appended and never move, so a value stays valid for the arena's lifetime.
pub struct Arena {
    generation: usize,
    current: Chunk,
    prev: Vec<Chunk>,
    used: Ghost<nat>,
    closed_used: Ghost<nat>,
    first_capacity: Ghost<nat>,
    cache: MemoizationCache,
}

/// A block under construction: its tag and the fields written so far. The
/// block takes its place in the arena when it is built.
pub struct BlockBuilder {
    tag: u8,
    fields: Vec<Value>,
}

impl BlockBuilder {
    pub closed spec fn spec_tag(&self) -> u8 {
        self.tag
    }

    pub closed spec fn spec_fields(&self) -> Seq<Value> {
        self.fields@
    }

    pub fn size(&self) -> (r: usize)
        ensures
            r == self.spec_fields().len(),
    {
        self.fields.len()
    }

    pub fn tag(&self) -> (r: u8)
        ensures
            r == self.spec_tag(),
    {
        self.tag
    }
}

impl Arena {
    /// The word with index `i`: a handed-out word, or zero elsewhere.
    pub closed spec fn word(&self, i: int) -> u64 {
        if self.current.covers(i) {
            self.current.data@[i - self.current.base]
        } else {
            words_in(self.prev@, i)
        }
    }

    pub open spec fn mem(&self) -> spec_fn(int) -> u64 {
        |i: int| self.word(i)
    }

    /// Index of the first word that has not been handed out.
    pub closed spec fn end(&self) -> int {
        self.current.base + self.current.index
    }

    /// Number of words handed out so far.
    pub closed spec fn used(&self) -> nat {
        self.used@
    }

    pub closed spec fn first_capacity(&self) -> nat {
        self.first_capacity@
    }

    pub closed spec fn spec_generation(&self) -> usize {
        self.generation
    }

    /// Whether a root conversion (and with it memoization) is in progress.
    pub closed spec fn in_root(&self) -> bool {
        self.cache.is_active()
    }

    /// The bits memoized for the source `(ptr, size)` in the current root
    /// conversion.
    pub closed spec fn cached(&self, ptr: usize, size: usize) -> Option<u64> {
        self.cache.cached(ptr, size)
    }

    /// Capacity of the chunk that allocation currently fills.
    pub closed spec fn current_capacity(&self) -> nat {
        self.current.data@.len()
    }

    /// Words left in the current chunk.
    pub closed spec fn current_free(&self) -> nat {
        (self.current.data@.len() - self.current.index) as nat
    }

    /// Number of chunks the arena holds.
    pub closed spec fn chunk_count(&self) -> nat {
        self.prev@.len() + 1
    }

    pub closed spec fn wf(&self) -> bool {
        &&& self.current.wf()
        &&& forall|j: int| 0 <= j < self.prev@.len() ==> (#[trigger] self.prev@[j]).wf()
        &&& self.prev@.len() == 0 ==> self.current.base == 0
        &&& self.prev@.len() > 0 ==> {
            &&& self.prev@[0].base == 0
            &&& self.current.base == self.prev@.last().base + self.prev@.last().data@.len()
        }
        &&& forall|j: int|
            0 <= j < self.prev@.len() - 1 ==> (#[trigger] self.prev@[j + 1]).base == self.prev@[j].base
                + self.prev@[j].data@.len()
        &&& self.current.data@.len() >= 1
        &&& self.current.base + self.current.data@.len() <= MAX_WORDS
        &&& self.current.base + self.current.data@.len() <= usize::MAX
        &&& self.used@ == self.closed_used@ + self.current.index
        &&& self.current.base <= self.closed_used@ + self.used@
        &&& self.current.data@.len() <= self.first_capacity@ + 2 * self.used@
        &&& self.first_capacity@ >= 1
    }

    /// Whether `n` more words can be handed out whatever the chunk sizes that
    /// growth picks: this stands for the machine's memory limit.
    pub open spec fn has_room(&self, n: nat) -> bool {
        &&& 4 * (self.used() + n) + self.first_capacity() <= MAX_WORDS
        &&& 4 * (self.used() + n) + self.first_capacity() <= usize::MAX
    }

    /// `self` holds every word that `old` held, unchanged.
    pub open spec fn extends(&self, old: &Arena) -> bool {
        &&& old.end() <= self.end()
        &&& old.used() <= self.used()
        &&& self.first_capacity() == old.first_capacity()
        &&& self.spec_generation() == old.spec_generation()
        &&& self.in_root() == old.in_root()
        &&& forall|i: int| i < old.end() ==> #[trigger] self.word(i) == old.word(i)
    }

    /// What `v` stands for in this arena.
    pub open spec fn denote_value(&self, v: Value) -> Repr {
        denote(self.mem(), v, self.end())
    }

    /// Create a new Arena with 4KB of capacity preallocated, for the session
    /// identified by `generation`. The caller hands out generations (one per
    /// session, counting up process-wide); the arena keeps the one it is given.
    pub fn new(generation: usize) -> (r: Arena)
        ensures
            r.wf(),
            r.used() == 0,
            r.end() == 0,
            r.first_capacity() == 512,
            r.spec_generation() == generation,
            !r.in_root(),
    {
        Self::with_capacity(1024 * 4, generation)
    }

    /// Create an Arena with `capacity_in_bytes` preallocated (at least two
    /// words), for the session identified by `generation`.
    pub fn with_capacity(capacity_in_bytes: usize, generation: usize) -> (r: Arena)
        requires
            capacity_in_bytes / 8 <= MAX_WORDS,
        ensures
            r.wf(),
            r.used() == 0,
            r.end() == 0,
            r.first_capacity() == if capacity_in_bytes / 8 > 2 {
                (capacity_in_bytes / 8) as nat
            } else {
                2
            },
            r.spec_generation() == generation,
            !r.in_root(),
    {
        let words = capacity_in_bytes / 8;
        let capacity_in_words: usize = if words > 2 {
            words
        } else {
            2
        };
        let current = Chunk::with_capacity(capacity_in_words, 0);
        Arena {
            generation,
            current,
            prev: Vec::new(),
            used: Ghost(0),
            closed_used: Ghost(0),
            first_capacity: Ghost(capacity_in_words as nat),
            cache: MemoizationCache::new(),
        }
    }

    /// Hand out `words.len() + 1` words: the header `header`, then `words`.
    /// When the current chunk cannot fit them, a new chunk of
    /// `max(2 * requested, previous capacity)` words becomes current. Returns
    /// the index of the word after the header.
    #[verifier::spinoff_prover]
    fn reserve(&mut self, header: u64, words: &Vec<u64>) -> (a: usize)
        requires
            old(self).wf(),
            old(self).has_room(words@.len() + 1),
        ensures
            final(self).wf(),
            final(self).extends(old(self)),
            final(self).used() == old(self).used() + words@.len() + 1,
            a >= 1,
            old(self).end() <= a - 1,
            final(self).end() == a + words@.len(),
            final(self).word(a - 1) == header,
            forall|k: int| 0 <= k < words@.len() ==> #[trigger] final(self).word(a + k) == words@[k],
            old(self).current_free() >= words@.len() + 1 ==> final(self).chunk_count()
                == old(self).chunk_count(),
            old(self).current_free() < words@.len() + 1 ==> {
                &&& final(self).chunk_count() == old(self).chunk_count() + 1
                &&& final(self).current_capacity() == if 2 * (words@.len() + 1)
                    > old(self).current_capacity() {
                    2 * (words@.len() + 1)
                } else {
                    old(self).current_capacity()
                }
            },
    {
        let requested_size = words.len() + 1;
        if !self.current.can_fit(requested_size) {
            let prev_chunk_capacity = self.current.capacity();
            let new_capacity = if 2 * requested_size > prev_chunk_capacity {
                2 * requested_size
            } else {
                prev_chunk_capacity
            };
            let new_base = self.current.base + prev_chunk_capacity;
            let mut chunk = Chunk::with_capacity(new_capacity, new_base);
            std::mem::swap(&mut self.current, &mut chunk);
            let ghost old_prev = self.prev@;
            self.prev.push(chunk);
            proof {
                self.closed_used@ = (self.closed_used@ + old(self).current.index) as nat;
                assert(self.prev@.drop_last() =~= old_prev);
                assert(self.current.data@.len() <= self.first_capacity@ + 2 * (old(self).used@ + requested_size));
                assert(self.current.base <= self.closed_used@ + old(self).used@ + requested_size);
                assert forall|j: int| 0 <= j < self.prev@.len() implies (#[trigger] self.prev@[j]).wf() by {
                    if j < old_prev.len() {
                        assert(old_prev[j] == self.prev@[j]);
                    }
                }
                assert forall|j: int| 0 <= j < self.prev@.len() - 1 implies (#[trigger] self.prev@[j + 1]).base
                    == self.prev@[j].base + self.prev@[j].data@.len() by {
                    if j + 1 < old_prev.len() {
                        assert(old_prev[j + 1] == self.prev@[j + 1]);
                        assert(old_prev[j] == self.prev@[j]);
                    }
                }
                assert forall|i: int| i < old(self).end() implies #[trigger] self.word(i) == old(
                    self,
                ).word(i) by {
                    assert(!self.current.covers(i));
                }
            }
        }
        let ghost mid = *self;
        assert(self.current.index + requested_size <= self.current.data@.len());
        assert(self.current.data@.len() <= self.first_capacity@ + 2 * (old(self).used@ + requested_size));
        assert(self.current.data@.len() <= usize::MAX);
        let start = self.current.index;
        self.current.data.set(start, header);
        let mut k: usize = 0;
        while k < words.len()
            invariant
                0 <= k <= words@.len(),
                start == mid.current.index,
                start + 1 + words@.len() <= self.current.data@.len(),
                self.current.data@.len() == mid.current.data@.len(),
                self.current.data@.len() <= usize::MAX,
                self.current.base == mid.current.base,
                self.current.index == mid.current.index,
                self.prev@ == mid.prev@,
                self.used == mid.used,
                self.closed_used == mid.closed_used,
                self.first_capacity == mid.first_capacity,
                self.generation == mid.generation,
                self.cache == mid.cache,
                self.current.data@[start as int] == header,
                forall|i: int| 0 <= i < start ==> self.current.data@[i] == mid.current.data@[i],
                forall|j: int| 0 <= j < k ==> #[trigger] self.current.data@[start + 1 + j] == words@[j],
            decreases words@.len() - k,
        {
            self.current.data.set(start + 1 + k, words[k]);
            k = k + 1;
        }
        self.current.index = start + requested_size;
        proof {
            self.used@ = (self.used@ + requested_size) as nat;
            assert forall|i: int| i < old(self).end() implies #[trigger] self.word(i) == old(
                self,
            ).word(i) by {
                assert(self.word(i) == mid.word(i));
            }
            assert(self.word(start + self.current.base) == header);
            assert forall|j: int| 0 <= j < words@.len() implies #[trigger] self.word(
                self.current.base + start + 1 + j,
            ) == words@[j] by {
                assert(self.current.data@[start + 1 + j] == words@[j]);
                assert(self.current.covers(self.current.base + start + 1 + j));
            }
        }
        self.current.base + start + 1
    }

    /// Read the word with index `i` (zero where nothing was handed out).
    pub fn read_word(&self, i: usize) -> (r: u64)
        requires
            self.wf(),
        ensures
            r == self.word(i as int),
    {
        if self.current.base <= i && i - self.current.base < self.current.index {
            return self.current.data[i - self.current.base];
        }
        let mut j = self.prev.len();
        proof {
            assert(self.prev@.take(j as int) =~= self.prev@);
        }
        while j > 0
            invariant
                j <= self.prev@.len(),
                self.wf(),
                !self.current.covers(i as int),
                words_in(self.prev@.take(j as int), i as int) == words_in(self.prev@, i as int),
            decreases j,
        {
            let c = &self.prev[j - 1];
            proof {
                assert(self.prev@.take(j as int).last() == self.prev@[j - 1]);
                assert(self.prev@.take(j as int).drop_last() =~= self.prev@.take(j - 1));
                assert(self.prev@[j - 1].wf());
            }
            if c.base <= i && i - c.base < c.index {
                return c.data[i - c.base];
            }
            j = j - 1;
        }
        proof {
            assert(self.prev@.take(0) =~= Seq::<Chunk>::empty());
        }
        0
    }

    /// Place a block with header `header` and fields `words` after every word
    /// handed out so far, and return a pointer to it.
    fn place(&mut self, size: usize, tag: u8, words: &Vec<u64>) -> (r: Value)
        requires
            old(self).wf(),
            size == words@.len(),
            old(self).has_room(words@.len() + 1),
        ensures
            final(self).wf(),
            final(self).extends(old(self)),
            final(self).used() == old(self).used() + words@.len() + 1,
            r.0 % 8 == 0,
            word_index(r.0) >= 1,
            old(self).end() <= word_index(r.0) - 1,
            final(self).end() == word_index(r.0) + size,
            block_fits(final(self).mem(), r.0, final(self).end()),
            final(self).word(word_index(r.0) - 1) == crate::value::header_bits(size as int, tag),
            forall|k: int| 0 <= k < size ==> #[trigger] final(self).word(word_index(r.0) + k) == words@[k],
            old(self).current_free() >= size + 1 ==> final(self).chunk_count() == old(self).chunk_count(),
            old(self).current_free() < size + 1 ==> {
                &&& final(self).chunk_count() == old(self).chunk_count() + 1
                &&& final(self).current_capacity() == if 2 * (size + 1) > old(self).current_capacity() {
                    2 * (size + 1)
                } else {
                    old(self).current_capacity() as int
                }
            },
    {
        proof {
            assert(size + 1 <= MAX_WORDS);
        }
        let header = make_header(size as u64, tag);
        let a = self.reserve(header, words);
        proof {
            assert(word_index((a * 8) as u64) == a);
        }
        Value((a as u64) * 8)
    }

    /// A builder for a block of `size` fields (each an immediate zero until
    /// set) with tag `tag`.
    pub fn block_with_size_and_tag(&self, size: usize, tag: u8) -> (b: BlockBuilder)
        ensures
            b.spec_tag() == tag,
            b.spec_fields() == Seq::new(size as nat, |k: int| Value(1)),
    {
        let mut fields: Vec<Value> = Vec::new();
        let mut k: usize = 0;
        while k < size
            invariant
                k <= size,
                fields@ == Seq::new(k as nat, |j: int| Value(1)),
            decreases size - k,
        {
            fields.push(Value(1));
            k = k + 1;
            proof {
                assert(fields@ =~= Seq::new(k as nat, |j: int| Value(1)));
            }
        }
        BlockBuilder { tag, fields }
    }

    /// A builder for a block of `size` fields with tag 0 (tuple, record,
    /// cons cell).
    pub fn block_with_size(&self, size: usize) -> (b: BlockBuilder)
        ensures
            b.spec_tag() == 0,
            b.spec_fields() == Seq::new(size as nat, |k: int| Value(1)),
    {
        self.block_with_size_and_tag(size, 0)
    }

    /// Write field `index` of `block`.
    pub fn set_field(&self, block: &mut BlockBuilder, index: usize, value: Value)
        requires
            index < old(block).spec_fields().len(),
        ensures
            final(block).spec_tag() == old(block).spec_tag(),
            final(block).spec_fields() == old(block).spec_fields().update(index as int, value),
    {
        block.fields.set(index, value);
    }

    /// Place `block` in the arena and return a pointer to it. Its fields keep
    /// their meaning when they were readable before.
    #[verifier::spinoff_prover]
    pub fn build(&mut self, block: BlockBuilder) -> (r: Value)
        requires
            old(self).wf(),
            old(self).has_room(block.spec_fields().len() + 1),
        ensures
            final(self).wf(),
            final(self).extends(old(self)),
            final(self).used() == old(self).used() + block.spec_fields().len() + 1,
            old(self).current_free() >= block.spec_fields().len() + 1 ==> final(self).chunk_count() == old(self).chunk_count(),
            old(self).current_free() < block.spec_fields().len() + 1 ==> {
                &&& final(self).chunk_count() == old(self).chunk_count() + 1
                &&& final(self).current_capacity() == if 2 * (block.spec_fields().len() + 1) > old(self).current_capacity() {
                    2 * (block.spec_fields().len() + 1)
                } else {
                    old(self).current_capacity()
                }
            },
            !r.spec_is_int(),
            is_block_repr(final(self).denote_value(r)),
            repr_tag(final(self).denote_value(r)) == block.spec_tag(),
            repr_size(final(self).denote_value(r)) == block.spec_fields().len(),
            block.spec_tag() < NO_SCAN_TAG ==> {
                &&& final(self).denote_value(r) is Block
                &&& final(self).denote_value(r)->Block_ptr == r.0
                &&& forall|k: int|
                    0 <= k < block.spec_fields().len() && !(old(self).denote_value(
                        #[trigger] block.spec_fields()[k],
                    ) is Foreign) ==> final(self).denote_value(r)->fields[k] == old(
                        self,
                    ).denote_value(block.spec_fields()[k])
            },
            block.spec_tag() >= NO_SCAN_TAG ==> final(self).denote_value(r) == (Repr::Raw {
                ptr: r.0,
                tag: block.spec_tag(),
                words: block.spec_fields().map_values(|v: Value| v.0),
            }),
    {
        let size = block.fields.len();
        let mut words: Vec<u64> = Vec::new();
        let mut k: usize = 0;
        while k < size
            invariant
                k <= size,
                size == block.fields@.len(),
                words@.len() == k,
                forall|j: int| 0 <= j < k ==> #[trigger] words@[j] == block.fields@[j].0,
            decreases size - k,
        {
            words.push(block.fields[k].0);
            k = k + 1;
        }
        let ghost pre = *self;
        let r = self.place(size, block.tag, &words);
        proof {
            let a = word_index(r.0);
            let m = self.mem();
            let h = m(a - 1);
            assert(h == crate::value::header_bits(size as int, block.tag));
            assert(crate::value::header_size(h) == size);
            assert(crate::value::header_tag(h) == block.tag);
            let fs = block.fields@;
            if block.tag < NO_SCAN_TAG {
                lemma_denote_fields_len(m, a, size as nat);
                let d = denote_fields(m, a, size as nat);
                assert forall|k: int|
                    0 <= k < fs.len() && !(pre.denote_value(#[trigger] fs[k]) is Foreign) implies d[k]
                    == pre.denote_value(fs[k]) by {
                    assert(m(a + k) == fs[k].0);
                    assert(Value(m(a + k)) == fs[k]);
                    assert forall|i: int| i < pre.end() implies #[trigger] pre.mem()(i) == m(i) by {
                        assert(self.word(i) == pre.word(i));
                    }
                    lemma_denote_stable(pre.mem(), m, fs[k], pre.end(), a - 1);
                }
            } else {
                assert(raw_fields(m, a, size as nat) =~= fs.map_values(|v: Value| v.0));
            }
        }
        r
    }

    /// The session identifier given at construction.
    pub fn generation(&self) -> (r: usize)
        ensures
            r == self.spec_generation(),
    {
        self.generation
    }

    /// Whether `v` points to a block lying wholly below word `limit`.
    pub fn fits_below(&self, v: Value, limit: usize) -> (r: bool)
        requires
            self.wf(),
        ensures
            r == block_fits(self.mem(), v.0, limit as int),
    {
        if v.0 % 8 != 0 || v.0 / 8 == 0 || v.0 / 8 > limit as u64 {
            return false;
        }
        let a = (v.0 / 8) as usize;
        let h = self.read_word(a - 1);
        h / 1024 <= (limit - a) as u64
    }

    /// Index of the first word after every word handed out.
    pub fn end_index(&self) -> (r: usize)
        requires
            self.wf(),
        ensures
            r == self.end(),
    {
        self.current.base + self.current.index
    }

    /// The field count and tag of the block that `v` points to.
    pub fn block_header(&self, v: Value, limit: usize) -> (r: (usize, u8))
        requires
            self.wf(),
            is_block_repr(denote(self.mem(), v, limit as int)),
        ensures
            r.0 == repr_size(denote(self.mem(), v, limit as int)),
            r.1 == repr_tag(denote(self.mem(), v, limit as int)),
    {
        let a = (v.0 / 8) as usize;
        let h = self.read_word(a - 1);
        proof {
            if header_tag(h) < NO_SCAN_TAG {
                lemma_denote_fields_len(self.mem(), a as int, header_size(h) as nat);
            }
        }
        ((h / 1024) as usize, (h % 256) as u8)
    }

    /// Field `k` of the block that `v` points to. A scanned field is read with
    /// the block's header as its limit.
    pub fn field(&self, v: Value, limit: usize, k: usize) -> (r: Value)
        requires
            self.wf(),
            is_block_repr(denote(self.mem(), v, limit as int)),
            k < repr_size(denote(self.mem(), v, limit as int)),
        ensures
            denote(self.mem(), v, limit as int) is Raw ==> r.0 == denote(
                self.mem(),
                v,
                limit as int,
            )->words[k as int],
            denote(self.mem(), v, limit as int) is Block ==> denote(
                self.mem(),
                r,
                word_index(v.0) - 1,
            ) == denote(self.mem(), v, limit as int)->fields[k as int],
            r == Value(self.mem()(word_index(v.0) + k)),
    {
        let a = (v.0 / 8) as usize;
        proof {
            let m = self.mem();
            let h = m(a - 1);
            if header_tag(h) < NO_SCAN_TAG {
                lemma_denote_fields_len(m, a as int, header_size(h) as nat);
            }
        }
        Value(self.read_word(a + k))
    }

    /// The limit under which the fields of the block that `v` points to are
    /// read: the index of its header.
    pub fn field_limit(v: Value) -> (r: usize)
        requires
            v.0 % 8 == 0,
            v.0 / 8 >= 1,
            v.0 / 8 <= usize::MAX,
        ensures
            r == word_index(v.0) - 1,
    {
        (v.0 / 8) as usize - 1
    }
}

/// A copy of a block's tag and fields, as read from an arena.
pub struct Block {
    tag: u8,
    fields: Vec<Value>,
}

impl Block {
    pub closed spec fn spec_tag(&self) -> u8 {
        self.tag
    }

    pub closed spec fn spec_fields(&self) -> Seq<Value> {
        self.fields@
    }

    pub fn size(&self) -> (r: usize)
        ensures
            r == self.spec_fields().len(),
    {
        self.fields.len()
    }

    pub fn tag(&self) -> (r: u8)
        ensures
            r == self.spec_tag(),
    {
        self.tag
    }

    pub fn field(&self, i: usize) -> (r: Value)
        requires
            i < self.spec_fields().len(),
        ensures
            r == self.spec_fields()[i as int],
    {
        self.fields[i]
    }
}

/// Relies on `std::rc::Rc::as_ptr`: the address of the value an `Rc` holds,
/// the same for every clone of it. Nothing is promised of the number itself.
#[verifier::external_body]
fn rc_address<T>(r: &std::rc::Rc<T>) -> usize {
    std::rc::Rc::as_ptr(r) as usize
}

/// Relies on `str::as_ptr`: the address of a string's bytes, the same for
/// every reference to that string. Nothing is promised of the number itself.
#[verifier::external_body]
fn str_address(s: &str) -> usize {
    s.as_ptr() as usize
}

/// Relies on `std::sync::Arc::as_ptr`: the address of the value an `Arc`
/// holds, the same for every clone of it. Nothing is promised of the number
/// itself.
#[verifier::external_body]
fn arc_address<T>(r: &std::sync::Arc<T>) -> usize {
    std::sync::Arc::as_ptr(r) as usize
}

impl Arena {
    /// The block that `v` points to, if it points to a block of this arena.
    pub fn as_block(&self, v: Value) -> (r: Option<Block>)
        requires
            self.wf(),
        ensures
            r is Some <==> is_block_repr(self.denote_value(v)),
            r matches Some(b) ==> {
                &&& b.spec_tag() == repr_tag(self.denote_value(v))
                &&& b.spec_fields().len() == repr_size(self.denote_value(v))
                &&& self.denote_value(v) is Raw ==> forall|k: int|
                    0 <= k < b.spec_fields().len() ==> (#[trigger] b.spec_fields()[k]).0
                        == self.denote_value(v)->words[k]
                &&& self.denote_value(v) is Block ==> forall|k: int|
                    0 <= k < b.spec_fields().len() ==> denote(
                        self.mem(),
                        #[trigger] b.spec_fields()[k],
                        word_index(v.0) - 1,
                    ) == self.denote_value(v)->fields[k]
            },
    {
        if v.is_int() {
            return None;
        }
        let limit = self.end_index();
        if !self.fits_below(v, limit) {
            return None;
        }
        let (size, tag) = self.block_header(v, limit);
        let mut fields: Vec<Value> = Vec::new();
        let mut k: usize = 0;
        while k < size
            invariant
                self.wf(),
                limit == self.end(),
                is_block_repr(self.denote_value(v)),
                size == repr_size(self.denote_value(v)),
                k <= size,
                fields@.len() == k,
                self.denote_value(v) is Raw ==> forall|j: int|
                    0 <= j < k ==> (#[trigger] fields@[j]).0 == self.denote_value(v)->words[j],
                self.denote_value(v) is Block ==> forall|j: int|
                    0 <= j < k ==> denote(self.mem(), #[trigger] fields@[j], word_index(v.0) - 1)
                        == self.denote_value(v)->fields[j],
            decreases size - k,
        {
            fields.push(self.field(v, limit, k));
            k = k + 1;
        }
        Some(Block { tag, fields })
    }

    /// Encode `value` in this arena.
    pub fn add<T: OcamlRep>(&mut self, value: &T) -> (r: Value)
        requires
            old(self).wf(),
            T::encodable(value.model()),
            old(self).has_room(T::cost(value.model())),
        ensures
            final(self).wf(),
            final(self).extends(old(self)),
            final(self).used() <= old(self).used() + T::cost(value.model()),
            !(final(self).denote_value(r) is Foreign),
            T::encodes(value.model(), final(self).denote_value(r)),
    {
        value.to_ocamlrep(self)
    }

    /// Begin a root conversion: memoization becomes active, with an empty
    /// cache. Root conversions do not nest.
    pub fn start_root(&mut self)
        requires
            old(self).wf(),
            !old(self).in_root(),
        ensures
            final(self).wf(),
            final(self).in_root(),
            final(self).used() == old(self).used(),
            final(self).end() == old(self).end(),
            final(self).first_capacity() == old(self).first_capacity(),
            final(self).spec_generation() == old(self).spec_generation(),
            forall|i: int| #[trigger] final(self).word(i) == old(self).word(i),
            forall|v: Value| #[trigger] final(self).denote_value(v) == old(self).denote_value(v),
            forall|p: usize, s: usize| #[trigger] final(self).cached(p, s).is_none(),
    {
        let ghost a0 = *self;
        self.cache.start();
        proof {
            lemma_same_memory(&a0, self);
        }
    }

    /// End a root conversion: the memoized values are forgotten.
    pub fn finish_root(&mut self)
        requires
            old(self).wf(),
        ensures
            final(self).wf(),
            !final(self).in_root(),
            final(self).used() == old(self).used(),
            final(self).end() == old(self).end(),
            final(self).first_capacity() == old(self).first_capacity(),
            final(self).spec_generation() == old(self).spec_generation(),
            forall|i: int| #[trigger] final(self).word(i) == old(self).word(i),
            forall|v: Value| #[trigger] final(self).denote_value(v) == old(self).denote_value(v),
    {
        let ghost a0 = *self;
        self.cache.finish();
        proof {
            lemma_same_memory(&a0, self);
        }
    }

    /// Encode `value` as a root conversion: memoization is active, with an
    /// empty cache, for the span of this call only. Root conversions do not
    /// nest.
    pub fn add_root<T: OcamlRep>(&mut self, value: &T) -> (r: Value)
        requires
            old(self).wf(),
            !old(self).in_root(),
            T::encodable(value.model()),
            old(self).has_room(T::cost(value.model())),
        ensures
            final(self).wf(),
            final(self).extends(old(self)),
            final(self).used() <= old(self).used() + T::cost(value.model()),
            !(final(self).denote_value(r) is Foreign),
            T::encodes(value.model(), final(self).denote_value(r)),
    {
        let ghost a0 = *self;
        self.start_root();
        let ghost a1 = *self;
        let r = value.to_ocamlrep(self);
        let ghost a2 = *self;
        self.finish_root();
        proof {
            assert forall|i: int| i < a0.end() implies #[trigger] self.word(i) == a0.word(i) by {
                assert(a2.word(i) == a1.word(i));
                assert(a1.word(i) == a0.word(i));
            }
        }
        r
    }

    /// Encode the value that `r` holds, sharing it: within one root
    /// conversion every clone of `r` is encoded once, and later ones get the
    /// same bits.
    pub fn add_rc<T: OcamlRep>(&mut self, r: &std::rc::Rc<T>) -> (v: Value)
        requires
            old(self).wf(),
            T::encodable((**r).model()),
            old(self).has_room(T::cost((**r).model())),
        ensures
            final(self).wf(),
            final(self).extends(old(self)),
            final(self).used() <= old(self).used() + T::cost((**r).model()),
            exists|p: usize, n: usize|
                {
                    &&& #[trigger] old(self).cached(p, n) matches Some(bits) ==> v.0 == bits
                    &&& old(self).cached(p, n) is None ==> {
                        &&& !(final(self).denote_value(v) is Foreign)
                        &&& T::encodes((**r).model(), final(self).denote_value(v))
                        &&& old(self).in_root() ==> final(self).cached(p, n) == Some(v.0)
                    }
                },
    {
        let ptr = rc_address(r);
        let size = std::mem::size_of::<T>();
        let v = self.memoized(ptr, size, &**r);
        proof {
            assert(old(self).cached(ptr, size) is Some || old(self).cached(ptr, size) is None);
        }
        v
    }

    /// Encode the value that `r` holds, sharing it: within one root
    /// conversion every clone of `r` is encoded once, and later ones get the
    /// same bits.
    pub fn add_arc<T: OcamlRep>(&mut self, r: &std::sync::Arc<T>) -> (v: Value)
        requires
            old(self).wf(),
            T::encodable((**r).model()),
            old(self).has_room(T::cost((**r).model())),
        ensures
            final(self).wf(),
            final(self).extends(old(self)),
            final(self).used() <= old(self).used() + T::cost((**r).model()),
            exists|p: usize, n: usize|
                {
                    &&& #[trigger] old(self).cached(p, n) matches Some(bits) ==> v.0 == bits
                    &&& old(self).cached(p, n) is None ==> {
                        &&& !(final(self).denote_value(v) is Foreign)
                        &&& T::encodes((**r).model(), final(self).denote_value(v))
                        &&& old(self).in_root() ==> final(self).cached(p, n) == Some(v.0)
                    }
                },
    {
        let ptr = arc_address(r);
        let size = std::mem::size_of::<T>();
        let v = self.memoized(ptr, size, &**r);
        proof {
            assert(old(self).cached(ptr, size) is Some || old(self).cached(ptr, size) is None);
        }
        v
    }

    /// Encode the string `s`, sharing it: within one root conversion every
    /// reference to these bytes is encoded once, and later ones get the same
    /// bits.
    pub fn add_str_shared(&mut self, s: &String) -> (v: Value)
        requires
            old(self).wf(),
            old(self).has_room(String::cost(s.model())),
        ensures
            final(self).wf(),
            final(self).extends(old(self)),
            final(self).used() <= old(self).used() + String::cost(s.model()),
            exists|p: usize, n: usize|
                {
                    &&& #[trigger] old(self).cached(p, n) matches Some(bits) ==> v.0 == bits
                    &&& old(self).cached(p, n) is None ==> {
                        &&& !(final(self).denote_value(v) is Foreign)
                        &&& String::encodes(s.model(), final(self).denote_value(v))
                        &&& old(self).in_root() ==> final(self).cached(p, n) == Some(v.0)
                    }
                },
    {
        let ptr = str_address(s.as_str());
        let size = s.as_str().len();
        let v = self.memoized(ptr, size, s);
        proof {
            assert(old(self).cached(ptr, size) is Some || old(self).cached(ptr, size) is None);
        }
        v
    }

    /// Encode `value`, whose source is the `size` bytes at address `ptr`,
    /// unless that source was already encoded in the current root conversion:
    /// then the value it was given is returned again, so that it is shared.
    pub fn memoized<T: OcamlRep>(&mut self, ptr: usize, size: usize, value: &T) -> (r: Value)
        requires
            old(self).wf(),
            T::encodable(value.model()),
            old(self).has_room(T::cost(value.model())),
        ensures
            final(self).wf(),
            final(self).extends(old(self)),
            final(self).used() <= old(self).used() + T::cost(value.model()),
            old(self).cached(ptr, size) matches Some(bits) ==> r.0 == bits,
            old(self).cached(ptr, size) is None ==> {
                &&& !(final(self).denote_value(r) is Foreign)
                &&& T::encodes(value.model(), final(self).denote_value(r))
                &&& old(self).in_root() ==> final(self).cached(ptr, size) == Some(r.0)
            },
    {
        match self.cache.get(ptr, size) {
            Some(bits) => Value(bits),
            None => {
                let r = value.to_ocamlrep(self);
                let ghost a1 = *self;
                self.cache.insert(ptr, size, r.0);
                proof {
                    lemma_same_memory(&a1, self);
                    assert forall|i: int| i < old(self).end() implies #[trigger] self.word(i) == old(self).word(i) by {
                        assert(a1.word(i) == old(self).word(i));
                    }
                }
                r
            },
        }
    }
}

/// Two arenas with the same chunks have the same memory.
proof fn lemma_same_memory(a1: &Arena, a2: &Arena)
    requires
        a1.current == a2.current,
        a1.prev == a2.prev,
        a1.used == a2.used,
        a1.closed_used == a2.closed_used,
        a1.first_capacity == a2.first_capacity,
        a1.generation == a2.generation,
    ensures
        a1.mem() == a2.mem(),
        a1.wf() == a2.wf(),
        a1.end() == a2.end(),
        a1.used() == a2.used(),
        a1.first_capacity() == a2.first_capacity(),
        a1.spec_generation() == a2.spec_generation(),
        forall|i: int| #[trigger] a1.word(i) == a2.word(i),
        forall|v: Value| #[trigger] a1.denote_value(v) == a2.denote_value(v),
{
    assert(a1.mem() =~= a2.mem());
}

/// A value that was readable in an arena keeps its meaning in every arena that
/// extends it.
pub proof fn lemma_extends_denote(a1: &Arena, a2: &Arena, v: Value)
    requires
        a2.extends(a1),
        !(a1.denote_value(v) is Foreign),
    ensures
        a2.denote_value(v) == a1.denote_value(v),
{
    assert forall|i: int| i < a1.end() implies #[trigger] a1.mem()(i) == a2.mem()(i) by {
        assert(a2.word(i) == a1.word(i));
    }
    lemma_denote_stable(a1.mem(), a2.mem(), v, a1.end(), a2.end());
}

} // verus!
