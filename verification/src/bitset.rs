use vstd::prelude::*;

verus! {

/// Whether bit `j` (counted from the least significant bit) of `w` is set.
pub open spec fn bit_at(w: u64, j: int) -> bool {
    (w >> (j as u64)) & 1u64 == 1u64
}

/// Whether bit `i` is set in a sequence of 64-bit blocks, block `k` holding bits `64 * k .. 64 * k + 63`.
pub open spec fn blocks_contain(blocks: Seq<u64>, i: int) -> bool {
    0 <= i < 64 * blocks.len() && bit_at(blocks[i / 64], i % 64)
}

/// The blocks `blocks` padded with zero blocks up to a length of `size`.
pub open spec fn padded(blocks: Seq<u64>, size: int) -> Seq<u64> {
    if size > blocks.len() {
        blocks + Seq::new((size - blocks.len()) as nat, |i: int| 0u64)
    } else {
        blocks
    }
}

/// The blocks `blocks` with all trailing zero blocks removed.
pub open spec fn trimmed(blocks: Seq<u64>) -> Seq<u64>
    decreases blocks.len(),
{
    if blocks.len() > 0 && blocks.last() == 0 {
        trimmed(blocks.drop_last())
    } else {
        blocks
    }
}

/// The bits that `insert(bit)` sets in its block. The mask is computed as a shifted `i32` that is
/// then widened, so inserting bit 31 sign-extends and sets bits 31 to 63.
pub open spec fn insert_mask_bits(bit: int) -> Set<int> {
    if bit < 31 {
        set![bit]
    } else {
        Set::new(|i: int| 31 <= i < 64)
    }
}

/// Index of the single set bit of a one-bit word, as computed by a sequence of mask tests.
pub open spec fn lsb_index(b: u64) -> u64 {
    (64u64 - (if b > 0 {
        1u64
    } else {
        0u64
    }) - (if b & 0x00000000ffffffffu64 > 0 {
        32u64
    } else {
        0u64
    }) - (if b & 0x0000ffff0000ffffu64 > 0 {
        16u64
    } else {
        0u64
    }) - (if b & 0x00ff00ff00ff00ffu64 > 0 {
        8u64
    } else {
        0u64
    }) - (if b & 0x0f0f0f0f0f0f0f0fu64 > 0 {
        4u64
    } else {
        0u64
    }) - (if b & 0x3333333333333333u64 > 0 {
        2u64
    } else {
        0u64
    }) - (if b & 0x5555555555555555u64 > 0 {
        1u64
    } else {
        0u64
    })) as u64
}

/// `w & !(w - 1)` isolates the lowest set bit of `w`, whose index the mask tests of `lsb_index`
/// recover; `w & (w - 1)` clears exactly that bit.
proof fn lemma_lowest_bit(w: u64)
    requires
        w != 0,
    ensures
        lsb_index(w & !((w - 1) as u64)) < 64,
        bit_at(w, lsb_index(w & !((w - 1) as u64)) as int),
        forall|j: int|
            0 <= j < lsb_index(w & !((w - 1) as u64)) ==> !#[trigger] bit_at(w, j),
        forall|j: int|
            0 <= j < 64 ==> #[trigger] bit_at(w & ((w - 1) as u64), j) == (bit_at(w, j) && j
                != lsb_index(w & !((w - 1) as u64))),
{
    assert(w != 0 ==> lsb_index(w & !((w - 1) as u64)) < 64 && (w >> lsb_index(
        w & !((w - 1) as u64),
    )) & 1 == 1) by (bit_vector);
    assert forall|j: int| 0 <= j < lsb_index(w & !((w - 1) as u64)) implies !#[trigger] bit_at(
        w,
        j,
    ) by {
        let jj = j as u64;
        assert(w != 0 && jj < lsb_index(w & !((w - 1) as u64)) ==> (w >> jj) & 1 == 0)
            by (bit_vector);
    }
    assert forall|j: int| 0 <= j < 64 implies #[trigger] bit_at(w & ((w - 1) as u64), j) == (
    bit_at(w, j) && j != lsb_index(w & !((w - 1) as u64))) by {
        let jj = j as u64;
        assert(w != 0 && jj < 64 ==> ((((w & ((w - 1) as u64)) >> jj) & 1) == 1 <==> ((w >> jj)
            & 1 == 1 && jj != lsb_index(w & !((w - 1) as u64))))) by (bit_vector);
    }
}

/// Setting the widened `1i32 << bit` mask in a block.
proof fn lemma_insert_mask(bit: usize, b: u64)
    requires
        bit < 32,
    ensures
        forall|j: int|
            0 <= j < 64 ==> #[trigger] bit_at(b | ((1i32 << bit) as u64), j) == (bit_at(b, j)
                || insert_mask_bits(bit as int).contains(j)),
{
    assert forall|j: int| 0 <= j < 64 implies #[trigger] bit_at(b | ((1i32 << bit) as u64), j) == (
    bit_at(b, j) || insert_mask_bits(bit as int).contains(j)) by {
        let jj = j as u64;
        assert(bit < 32 && jj < 64 ==> ((((b | ((1i32 << bit) as u64)) >> jj) & 1 == 1) <==> ((b
            >> jj) & 1 == 1 || (if bit < 31 {
            jj == bit
        } else {
            31 <= jj
        })))) by (bit_vector);
    }
}

/// Clearing bit `bit & 0x3f` of a block.
proof fn lemma_clear_bit(bit: usize, b: u64)
    ensures
        forall|j: int|
            0 <= j < 64 ==> #[trigger] bit_at(b & !(1u64 << (bit & 0x3f)), j) == (bit_at(b, j)
                && j != (bit % 64)),
{
    assert forall|j: int| 0 <= j < 64 implies #[trigger] bit_at(b & !(1u64 << (bit & 0x3f)), j)
        == (bit_at(b, j) && j != (bit % 64)) by {
        let jj = j as u64;
        assert(jj < 64 ==> ((((b & !(1u64 << (bit & 0x3f))) >> jj) & 1 == 1) <==> ((b >> jj) & 1
            == 1 && jj != (bit & 0x3f)))) by (bit_vector);
        assert(bit & 0x3f == bit % 64) by (bit_vector);
    }
}

/// A zero block has no bit set.
proof fn lemma_zero_block()
    ensures
        forall|j: int| 0 <= j < 64 ==> !#[trigger] bit_at(0u64, j),
{
    assert forall|j: int| 0 <= j < 64 implies !#[trigger] bit_at(0u64, j) by {
        let jj = j as u64;
        assert((0u64 >> jj) & 1 == 0) by (bit_vector);
    }
}

/// Appending zero blocks, or removing trailing zero blocks, leaves the set bits unchanged.
proof fn lemma_zero_tail(blocks: Seq<u64>, more: Seq<u64>)
    requires
        forall|k: int| 0 <= k < more.len() ==> more[k] == 0,
    ensures
        forall|i: int| blocks_contain(blocks + more, i) == blocks_contain(blocks, i),
{
    lemma_zero_block();
    assert forall|i: int| blocks_contain(blocks + more, i) == blocks_contain(blocks, i) by {
        if 0 <= i < 64 * (blocks + more).len() {
            if i >= 64 * blocks.len() {
                assert(i / 64 >= blocks.len());
                assert((blocks + more)[i / 64] == 0);
            } else {
                assert(i / 64 < blocks.len());
            }
        }
    }
}

proof fn lemma_trimmed(blocks: Seq<u64>)
    ensures
        trimmed(blocks).len() <= blocks.len(),
        trimmed(blocks) == blocks.subrange(0, trimmed(blocks).len() as int),
        forall|k: int| trimmed(blocks).len() <= k < blocks.len() ==> blocks[k] == 0,
        trimmed(blocks).len() == 0 || trimmed(blocks).last() != 0,
    decreases blocks.len(),
{
    if blocks.len() > 0 && blocks.last() == 0 {
        lemma_trimmed(blocks.drop_last());
        assert forall|k: int| trimmed(blocks).len() <= k < blocks.len() implies blocks[k] == 0 by {
            if k < blocks.len() - 1 {
                assert(blocks.drop_last()[k] == blocks[k]);
            }
        }
    }
}

/// A set of small unsigned integers, stored as a bit field: `Small` holds the bits `0..64`,
/// `Large` holds block `k` for the bits `64 * k .. 64 * k + 63`.
#[derive(Debug)]
pub enum BitSet {
    Small(u64),
    Large(Vec<u64>),
}

impl View for BitSet {
    type V = Set<int>;

    /// The indices of the set bits.
    open spec fn view(&self) -> Set<int> {
        Set::new(|i: int| self.has(i))
    }
}

impl BitSet {
    /// The blocks of the bit field: a `Small` set is one block.
    pub open spec fn blocks(&self) -> Seq<u64> {
        match self {
            BitSet::Small(bits) => seq![*bits],
            BitSet::Large(vec) => vec@,
        }
    }

    /// Whether bit `i` is in the set.
    pub open spec fn has(&self, i: int) -> bool {
        blocks_contain(self.blocks(), i)
    }

    /// Equality as this type's `==` decides it: two `Small` sets compare their bits, a `Small` set
    /// equals a `Large` one of at most one block with the same bits, and two `Large` sets compare
    /// their blocks one by one.
    pub open spec fn same(&self, other: &BitSet) -> bool {
        match (self, other) {
            (BitSet::Small(a), BitSet::Small(b)) => a == b,
            (BitSet::Small(a), BitSet::Large(v)) | (BitSet::Large(v), BitSet::Small(a)) => {
                (v.len() == 0 && a == 0) || (v.len() == 1 && v@[0] == a)
            },
            (BitSet::Large(v), BitSet::Large(w)) => v@ == w@,
        }
    }

    /// The representation that `insert` and `remove` keep: a `Large` set never ends in a zero
    /// block.
    pub open spec fn is_canonical(&self) -> bool {
        match self {
            BitSet::Small(_) => true,
            BitSet::Large(v) => v.len() == 0 || v@.last() != 0,
        }
    }

    /// Returns a new, empty set.
    pub fn new() -> (s: Self)
        ensures
            s == BitSet::Small(0),
            s@ == Set::<int>::empty(),
    {
        proof {
            lemma_zero_block();
        }
        let s = BitSet::Small(0);
        assert(s@ =~= Set::<int>::empty());
        s
    }

    /// Makes room for `size` blocks: a `Small` set becomes `Large` when more than one block is
    /// asked for, and a `Large` set is padded with zero blocks.
    fn grow(&mut self, size: usize)
        ensures
            (*old(self) is Small && size <= 1) ==> *final(self) == *old(self),
            (*old(self) is Large || size > 1) ==> *final(self) is Large,
            (*old(self) is Large || size > 1) ==> final(self).blocks() == padded(
                old(self).blocks(),
                size as int,
            ),
            final(self)@ == old(self)@,
    {
        let ghost before = self.blocks();
        match self {
            BitSet::Small(bits) => {
                let b = *bits;
                if size > 1 {
                    let mut v: Vec<u64> = Vec::new();
                    v.push(b);
                    while v.len() < size
                        invariant
                            1 <= v.len() <= size,
                            v@ == seq![b] + Seq::new((v.len() - 1) as nat, |i: int| 0u64),
                        decreases size - v.len(),
                    {
                        v.push(0);
                        assert(v@ =~= seq![b] + Seq::new((v.len() - 1) as nat, |i: int| 0u64));
                    }
                    *self = BitSet::Large(v);
                }
            },
            BitSet::Large(vec) => {
                let ghost start = vec@;
                while vec.len() < size
                    invariant
                        start.len() <= vec.len(),
                        vec.len() <= size || vec.len() == start.len(),
                        vec@ == start + Seq::new((vec.len() - start.len()) as nat, |i: int| 0u64),
                    decreases size - vec.len(),
                {
                    vec.push(0);
                    assert(vec@ =~= start + Seq::new(
                        (vec.len() - start.len()) as nat,
                        |i: int| 0u64,
                    ));
                }
                assert(vec@ =~= padded(start, size as int));
            },
        }
        proof {
            let after = self.blocks();
            let more = Seq::new((after.len() - before.len()) as nat, |i: int| 0u64);
            if after.len() > before.len() {
                assert(after =~= before + more);
            } else {
                assert(after =~= before + more);
            }
            lemma_zero_tail(before, more);
            assert(self@ =~= old(self)@);
        }
    }

    /// Drops the trailing zero blocks of a `Large` set.
    fn shrink(&mut self)
        ensures
            *old(self) is Small ==> *final(self) == *old(self),
            *old(self) is Large ==> *final(self) is Large && final(self).blocks() == trimmed(
                old(self).blocks(),
            ),
            final(self)@ == old(self)@,
    {
        let ghost before = self.blocks();
        if let BitSet::Large(vec) = self {
            let ghost start = vec@;
            proof {
                lemma_trimmed(start);
            }
            while vec.len() > 0 && vec[vec.len() - 1] == 0
                invariant
                    trimmed(start).len() <= vec.len() <= start.len(),
                    vec@ == start.subrange(0, vec.len() as int),
                    trimmed(vec@) == trimmed(start),
                    forall|k: int| vec.len() <= k < start.len() ==> start[k] == 0,
                decreases vec.len(),
            {
                assert(trimmed(vec@) == trimmed(vec@.drop_last()));
                vec.pop();
                proof {
                    lemma_trimmed(vec@);
                }
            }
            assert(vec@ == trimmed(start));
        }
        proof {
            let after = self.blocks();
            lemma_trimmed(before);
            let more = before.subrange(after.len() as int, before.len() as int);
            assert(before =~= after + more);
            lemma_zero_tail(after, more);
            assert(self@ =~= old(self)@);
        }
    }

    /// Inserts `bit` into the set.
    ///
    /// The mask is the `i32` value `1 << bit` widened to 64 bits, so the shift must stay below 32
    /// and `bit` 31 sets the bits 31 to 63. A `Large` set needs a first block to write into.
    pub fn insert(&mut self, bit: usize)
        requires
            bit < 32,
            *old(self) is Large ==> old(self).blocks().len() > 0,
        ensures
            final(self)@ == old(self)@.union(insert_mask_bits(bit as int)),
            old(self).is_canonical() ==> final(self).is_canonical(),
            *old(self) is Small <==> *final(self) is Small,
            final(self).blocks().len() == old(self).blocks().len(),
            forall|k: int|
                1 <= k < old(self).blocks().len() ==> final(self).blocks()[k] == old(
                    self,
                ).blocks()[k],
    {
        self.grow(bit / 64);
        let mask = (1i32 << bit) as u64;
        match self {
            BitSet::Small(bits) => {
                *bits = *bits | mask;
            },
            BitSet::Large(vec) => {
                let b = vec[bit / 64] | mask;
                vec.set(bit / 64, b);
            },
        }
        proof {
            let before = old(self).blocks();
            let after = self.blocks();
            lemma_insert_mask(bit, before[0]);
            assert(after[0] == before[0] | mask);
            assert forall|i: int| #[trigger] self.has(i) == (old(self).has(i) || insert_mask_bits(
                bit as int,
            ).contains(i)) by {
                if 0 <= i < 64 {
                    assert(i / 64 == 0);
                    assert(i % 64 == i);
                } else if i >= 64 {
                    assert(i / 64 >= 1);
                }
            }
            assert(self@ =~= old(self)@.union(insert_mask_bits(bit as int)));
            if before.len() == 1 && before[0] != 0 {
                let b0 = before[0];
                assert(b0 != 0 ==> b0 | mask != 0) by (bit_vector);
            }
        }
    }

    /// Removes `bit` from the set. A `Small` set only looks at `bit % 64`; a `Large` set clears the
    /// bit where its block exists. Trailing zero blocks are dropped afterwards.
    pub fn remove(&mut self, bit: usize)
        ensures
            *old(self) is Small ==> final(self)@ == old(self)@.remove((bit % 64) as int),
            *old(self) is Large ==> final(self)@ == old(self)@.remove(bit as int),
            final(self).is_canonical(),
            *old(self) is Small <==> *final(self) is Small,
            *old(self) is Large ==> final(self).blocks().len() <= old(self).blocks().len(),
            *old(self) is Large ==> final(self).blocks().len() == 0 || final(self).blocks().last()
                != 0,
    {
        assert(bit & 0x3f < 64) by (bit_vector);
        match self {
            BitSet::Small(bits) => {
                *bits = *bits & !(1u64 << (bit & 0x03f));
            },
            BitSet::Large(vec) => {
                let block = bit / 64;
                if vec.len() > block {
                    let b = vec[block] & !(1u64 << (bit & 0x3f));
                    vec.set(block, b);
                }
            },
        }
        proof {
            let before = old(self).blocks();
            let after = self.blocks();
            let target = if *old(self) is Small {
                (bit % 64) as int
            } else {
                bit as int
            };
            assert forall|i: int| #[trigger] self.has(i) == (old(self).has(i) && i != target) by {
                if 0 <= i < 64 * before.len() {
                    let k = i / 64;
                    lemma_clear_bit(bit, before[k]);
                    if *old(self) is Small {
                        assert(k == 0);
                        assert(i % 64 == i);
                    } else if k == bit / 64 {
                        assert((bit % 64) == (bit as int) % 64);
                        assert((i == bit) == (i % 64 == bit % 64));
                    } else {
                        assert(i != bit);
                    }
                }
            }
            assert(self@ =~= old(self)@.remove(target));
        }
        let ghost mid_blocks = self.blocks();
        assert(mid_blocks.len() == old(self).blocks().len());
        self.shrink();
        proof {
            lemma_trimmed(mid_blocks);
            if *old(self) is Large {
                lemma_trimmed(self.blocks());
            }
        }
    }

    /// An iterator over the set bits, in increasing order.
    pub fn iter(&self) -> (it: BlockIter<'_>)
        requires
            64 * self.blocks().len() <= usize::MAX + 1,
        ensures
            it.wf(),
            it.elems() == self@,
    {
        proof {
            lemma_zero_block();
        }
        match self {
            BitSet::Small(bits) => {
                let empty: &[u64] = &[];
                let it = BlockIter { remaining: empty, offset: 0, current: *bits };
                proof {
                    assert(it.remaining@.len() == 0);
                    assert forall|i: int| it.yields(i) == self.has(i) by {
                        if 0 <= i < 64 {
                            assert(i / 64 == 0 && i % 64 == i);
                        }
                    }
                    assert(it.elems() =~= self@);
                }
                it
            },
            BitSet::Large(blocks) => {
                let slice = blocks.as_slice();
                if slice.len() == 0 {
                    let empty: &[u64] = &[];
                    let it = BlockIter { remaining: empty, offset: 0, current: 0 };
                    proof {
                        assert(it.elems() =~= self@);
                    }
                    it
                } else {
                    let current = slice[0];
                    let (_, remaining) = slice.split_at(1);
                    let it = BlockIter { remaining, offset: 0, current };
                    proof {
                        assert(remaining@ =~= blocks@.subrange(1, blocks@.len() as int));
                        assert forall|i: int| it.yields(i) == self.has(i) by {
                            if 0 <= i < 64 {
                                assert(i / 64 == 0 && i % 64 == i);
                            } else if 64 <= i {
                                assert((i - 64) / 64 == i / 64 - 1);
                                assert((i - 64) % 64 == i % 64);
                            }
                        }
                        assert(it.elems() =~= self@);
                    }
                    it
                }
            },
        }
    }

    /// Builds a set by inserting each of `bits` in turn.
    pub fn from_iter(bits: Vec<usize>) -> (s: Self)
        requires
            forall|k: int| 0 <= k < bits.len() ==> bits[k] < 32,
        ensures
            s@ == Set::new(
                |i: int| exists|k: int| 0 <= k < bits.len() && #[trigger] insert_mask_bits(bits[k] as int).contains(i),
            ),
            s is Small,
    {
        let mut result = BitSet::new();
        let mut n: usize = 0;
        while n < bits.len()
            invariant
                n <= bits.len(),
                forall|k: int| 0 <= k < bits.len() ==> bits[k] < 32,
                result is Small,
                result@ == Set::new(
                    |i: int| exists|k: int| 0 <= k < n && #[trigger] insert_mask_bits(bits[k] as int).contains(i),
                ),
            decreases bits.len() - n,
        {
            let ghost prev = result@;
            result.insert(bits[n]);
            n += 1;
            proof {
                assert forall|i: int| result@.contains(i) == (exists|k: int| 0 <= k < n && #[trigger] insert_mask_bits(bits[k] as int).contains(i)) by {
                    if insert_mask_bits(bits[n - 1] as int).contains(i) {
                        assert(0 <= n - 1 < n);
                    }
                    if exists|k: int| 0 <= k < n && #[trigger] insert_mask_bits(bits[k] as int).contains(i) {
                        let k = choose|k: int| 0 <= k < n && #[trigger] insert_mask_bits(bits[k] as int).contains(i);
                        if k < n - 1 {
                            assert(prev.contains(i));
                        }
                    }
                }
                assert(result@ =~= Set::new(
                    |i: int| exists|k: int| 0 <= k < n && #[trigger] insert_mask_bits(bits[k] as int).contains(i),
                ));
            }
        }
        result
    }
}

impl BitSet {
    /// Compares two sets the way `==` does; see `same`.
    fn equals(&self, other: &BitSet) -> (r: bool)
        ensures
            r == self.same(other),
    {
        match (self, other) {
            (BitSet::Small(bits), BitSet::Small(other_bits)) => *bits == *other_bits,
            (BitSet::Small(bits), BitSet::Large(vec)) | (BitSet::Large(vec), BitSet::Small(bits)) => {
                if vec.len() == 0 {
                    *bits == 0
                } else if vec.len() == 1 {
                    *bits == vec[0]
                } else {
                    false
                }
            },
            (BitSet::Large(vec), BitSet::Large(other_vec)) => {
                if vec.len() != other_vec.len() {
                    return false;
                }
                let mut i: usize = 0;
                while i < vec.len()
                    invariant
                        vec.len() == other_vec.len(),
                        self.same(other) == (vec@ == other_vec@),
                        i <= vec.len(),
                        forall|k: int| 0 <= k < i ==> vec@[k] == other_vec@[k],
                    decreases vec.len() - i,
                {
                    if vec[i] != other_vec[i] {
                        assert(vec@[i as int] != other_vec@[i as int]);
                        return false;
                    }
                    i += 1;
                }
                assert(vec@ =~= other_vec@);
                true
            },
        }
    }
}

impl PartialEq for BitSet {
    fn eq(&self, other: &Self) -> (r: bool) {
        self.equals(other)
    }
}

impl vstd::std_specs::cmp::PartialEqSpecImpl for BitSet {
    open spec fn obeys_eq_spec() -> bool {
        true
    }

    open spec fn eq_spec(&self, other: &BitSet) -> bool {
        self.same(other)
    }
}

impl Eq for BitSet {

}

impl Clone for BitSet {
    fn clone(&self) -> (r: Self)
        ensures
            r.blocks() == self.blocks(),
            r is Small <==> self is Small,
    {
        match self {
            BitSet::Small(bits) => BitSet::Small(*bits),
            BitSet::Large(vec) => {
                let v = vec.clone();
                assert(v@ =~= vec@);
                BitSet::Large(v)
            },
        }
    }
}

/// Equal sets, as `==` decides, hold the same bits; and two sets in the representation that
/// `insert` and `remove` keep are equal whenever they hold the same bits.
pub proof fn lemma_eq_iff_same_bits(a: BitSet, b: BitSet)
    ensures
        a.same(&b) ==> a@ == b@,
        a.is_canonical() && b.is_canonical() && a@ == b@ ==> a.same(&b),
{
    if a.same(&b) {
        let more = Seq::<u64>::empty();
        assert(a.blocks() =~= b.blocks() + more || b.blocks() =~= a.blocks() + more || (a.blocks().len() == 1 && b.blocks().len() == 0) || (a.blocks().len() == 0 && b.blocks().len() == 1));
        assert forall|i: int| a.has(i) == b.has(i) by {
            lemma_zero_block();
            if a.blocks().len() != b.blocks().len() {
                if 0 <= i < 64 {
                    assert(i / 64 == 0);
                }
            }
        }
        assert(a@ =~= b@);
    }
    if a.is_canonical() && b.is_canonical() && a@ == b@ {
        lemma_canonical_same(a, b);
    }
}

proof fn lemma_canonical_same(a: BitSet, b: BitSet)
    requires
        a.is_canonical(),
        b.is_canonical(),
        a@ == b@,
    ensures
        a.same(&b),
{
    let ba = a.blocks();
    let bb = b.blocks();
    if ba.len() != bb.len() {
        // the longer one ends in a non-zero block, whose set bit the shorter one lacks
        let (long, short) = if ba.len() > bb.len() { (ba, bb) } else { (bb, ba) };
        let w = long.last();
        if w == 0 {
            // only an empty `Small` block can end in zero: it matches the empty `Large` set
            return;
        }
        lemma_nonzero_has_bit(w);
        let j = lsb_index(w & !((w - 1) as u64)) as int;
        let i = 64 * (long.len() - 1) + j;
        assert(i / 64 == long.len() - 1 && i % 64 == j);
        assert(blocks_contain(long, i));
        assert(!blocks_contain(short, i));
        if ba.len() > bb.len() {
            assert(a@.contains(i));
        } else {
            assert(b@.contains(i));
        }
        assert(false);
    } else {
        assert forall|k: int| 0 <= k < ba.len() implies ba[k] == bb[k] by {
            assert forall|j: int| 0 <= j < 64 implies bit_at(ba[k], j) == bit_at(bb[k], j) by {
                let i = 64 * k + j;
                assert(i / 64 == k && i % 64 == j);
                assert(a.has(i) == a@.contains(i));
                assert(b.has(i) == b@.contains(i));
            }
            lemma_word_ext(ba[k], bb[k]);
        }
        assert(ba =~= bb);
        match (a, b) {
            (BitSet::Small(x), BitSet::Small(y)) => {
                assert(ba[0] == bb[0]);
            },
            (BitSet::Large(v), BitSet::Large(w)) => {},
            (BitSet::Small(x), BitSet::Large(w)) => {
                assert(ba[0] == bb[0]);
            },
            (BitSet::Large(v), BitSet::Small(y)) => {
                assert(ba[0] == bb[0]);
            },
        }
    }
}

/// A non-zero word has a set bit: its lowest one.
proof fn lemma_nonzero_has_bit(w: u64)
    requires
        w != 0,
    ensures
        lsb_index(w & !((w - 1) as u64)) < 64,
        bit_at(w, lsb_index(w & !((w - 1) as u64)) as int),
{
    lemma_lowest_bit(w);
}

/// Two words with the same bits are equal.
proof fn lemma_word_ext(a: u64, b: u64)
    requires
        forall|j: int| 0 <= j < 64 ==> bit_at(a, j) == bit_at(b, j),
    ensures
        a == b,
{
    if a != b {
        let w = a ^ b;
        assert(a != b ==> a ^ b != 0) by (bit_vector);
        lemma_lowest_bit(w);
        let j = lsb_index(w & !((w - 1) as u64));
        assert(bit_at(a, j as int) == bit_at(b, j as int));
        assert(j < 64 && ((a ^ b) >> j) & 1 == 1 ==> ((a >> j) & 1 == 1) != ((b >> j) & 1 == 1)) by (bit_vector);
    }
}

/// An iterator over the set bits of a `BitSet`, in increasing order.
pub struct BlockIter<'a> {
    remaining: &'a [u64],
    offset: usize,
    current: u64,
}

impl<'a> BlockIter<'a> {
    /// Whether `i` is still to be yielded: a set bit of the current block at `offset`, or of a
    /// remaining block after it.
    pub closed spec fn yields(&self, i: int) -> bool {
        (self.offset <= i < self.offset + 64 && bit_at(self.current, i - self.offset))
            || blocks_contain(self.remaining@, i - self.offset - 64)
    }

    /// The bits still to be yielded.
    pub closed spec fn elems(&self) -> Set<int> {
        Set::new(|i: int| self.yields(i))
    }

    /// Every bit still to be yielded can be represented as a `usize`.
    pub closed spec fn wf(&self) -> bool {
        self.offset + 64 * (self.remaining@.len() + 1) <= usize::MAX + 1
    }

    /// The bits still to be yielded form a finite set.
    pub proof fn lemma_elems_finite(&self)
        ensures
            self.elems().finite(),
    {
        let r = vstd::set_lib::set_int_range(
            self.offset as int,
            self.offset + 64 * (self.remaining@.len() + 1),
        );
        vstd::set_lib::lemma_int_range(
            self.offset as int,
            self.offset + 64 * (self.remaining@.len() + 1),
        );
        assert(self.elems().subset_of(r));
        vstd::set_lib::lemma_len_subset(self.elems(), r);
    }

    /// Yields the smallest bit still to be yielded, or `None` when there is none left.
    pub fn next(&mut self) -> (r: Option<usize>)
        requires
            old(self).wf(),
        ensures
            final(self).wf(),
            match r {
                None => old(self).elems() == Set::<int>::empty() && final(self).elems() == Set::<int>::empty(),
                Some(k) => {
                    &&& old(self).elems().contains(k as int)
                    &&& forall|j: int| #[trigger] old(self).elems().contains(j) ==> k <= j
                    &&& final(self).elems() == old(self).elems().remove(k as int)
                },
            },
    {
        let ghost start = self.elems();
        while self.current == 0
            invariant
                self.wf(),
                self.elems() == start,
                start == old(self).elems(),
            decreases self.remaining@.len(),
        {
            if self.remaining.len() == 0 {
                proof {
                    lemma_zero_block();
                    assert forall|i: int| !self.yields(i) by {
                        if self.offset <= i < self.offset + 64 {
                            assert(!bit_at(0u64, i - self.offset));
                        }
                    }
                    assert(self.elems() =~= Set::<int>::empty());
                }
                return None;
            }
            let ghost prev = *self;
            self.current = self.remaining[0];
            self.offset = self.offset + 64;
            let (_, rest) = self.remaining.split_at(1);
            self.remaining = rest;
            proof {
                lemma_zero_block();
                assert(rest@ =~= prev.remaining@.subrange(1, prev.remaining@.len() as int));
                assert forall|i: int| self.yields(i) == prev.yields(i) by {
                    let d = i - prev.offset - 64;
                    if 0 <= d < 64 {
                        assert(d / 64 == 0 && d % 64 == d);
                    } else if d >= 64 {
                        assert((d - 64) / 64 == d / 64 - 1);
                        assert((d - 64) % 64 == d % 64);
                    }
                }
                assert(self.elems() =~= prev.elems());
            }
        }
        let ghost w = self.current;
        let bit = self.current & !(self.current - 1);
        self.current = self.current & (self.current - 1);

        let mut c: usize = 64;
        if bit > 0 {
            c -= 1
        };
        if bit & 0x00000000ffffffff > 0 {
            c -= 32
        };
        if bit & 0x0000ffff0000ffff > 0 {
            c -= 16
        };
        if bit & 0x00ff00ff00ff00ff > 0 {
            c -= 8
        };
        if bit & 0x0f0f0f0f0f0f0f0f > 0 {
            c -= 4
        };
        if bit & 0x3333333333333333 > 0 {
            c -= 2
        };
        if bit & 0x5555555555555555 > 0 {
            c -= 1
        };
        proof {
            lemma_lowest_bit(w);
            assert(c == lsb_index(bit));
            let k = self.offset + c;
            assert forall|j: int| #[trigger] start.contains(j) implies k <= j by {
                if self.offset <= j < self.offset + 64 && bit_at(w, j - self.offset) {
                } else {
                    assert(blocks_contain(self.remaining@, j - self.offset - 64));
                }
            }
            assert forall|i: int| self.yields(i) == (start.contains(i) && i != k) by {
            }
            assert(self.elems() =~= start.remove(k));
        }
        Some(self.offset + c)
    }
}

} // verus!
