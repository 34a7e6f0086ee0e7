//! A fixed-size field of flags, packed eight to a byte.

use vstd::prelude::*;

verus! {

/// Whether bit `offset` of `block` is one. Offsets run from zero, the
/// least significant bit, to seven.
pub open spec fn bit_is_set(block: u8, offset: u8) -> bool {
    (block >> offset) & 1 == 1
}

/// The bit at `offset` of `block` as a number: one if it is set, else zero.
pub open spec fn bit_value(block: u8, offset: u8) -> nat {
    if bit_is_set(block, offset) {
        1
    } else {
        0
    }
}

/// How many of the eight bits of `block` are one.
pub open spec fn set_bits(block: u8) -> nat {
    bit_value(block, 0) + bit_value(block, 1) + bit_value(block, 2) + bit_value(block, 3)
        + bit_value(block, 4) + bit_value(block, 5) + bit_value(block, 6) + bit_value(block, 7)
}

/// `u8::count_ones` of the standard library: the number of ones in the
/// binary representation of the byte. Taken on trust from its documentation.
pub assume_specification[ u8::count_ones ](block: u8) -> (ones: u32)
    ensures
        ones == set_bits(block),
;

/// How many flags of `flags` are raised.
pub open spec fn count_set(flags: Seq<bool>) -> nat
    decreases flags.len(),
{
    if flags.len() == 0 {
        0
    } else if flags.last() {
        count_set(flags.drop_last()) + 1
    } else {
        count_set(flags.drop_last())
    }
}

/// The flags that a sequence of blocks holds: flag `p` is bit `p % 8` of
/// block `p / 8`.
pub open spec fn flags_of(blocks: Seq<u8>) -> Seq<bool> {
    Seq::new(8 * blocks.len(), |p: int| bit_is_set(blocks[p / 8], (p % 8) as u8))
}

/// No more flags are raised than there are flags.
pub proof fn lemma_count_set_bound(flags: Seq<bool>)
    ensures
        count_set(flags) <= flags.len(),
    decreases flags.len(),
{
    if flags.len() > 0 {
        lemma_count_set_bound(flags.drop_last());
    }
}

/// One more block adds its set bits to the count.
proof fn lemma_count_set_block(blocks: Seq<u8>, block: u8)
    ensures
        count_set(flags_of(blocks.push(block))) == count_set(flags_of(blocks)) + set_bits(block),
{
    let base = 8 * blocks.len() as int;
    let f8 = flags_of(blocks.push(block));
    assert forall|k: int| 0 <= k < 8 implies #[trigger] f8[base + k] == bit_is_set(
        block,
        k as u8,
    ) by {
        assert((base + k) / 8 == blocks.len());
        assert((base + k) % 8 == k);
    }
    let f7 = f8.drop_last();
    let f6 = f7.drop_last();
    let f5 = f6.drop_last();
    let f4 = f5.drop_last();
    let f3 = f4.drop_last();
    let f2 = f3.drop_last();
    let f1 = f2.drop_last();
    let f0 = f1.drop_last();
    assert(f0 =~= flags_of(blocks)) by {
        assert forall|p: int| 0 <= p < base implies f0[p] == flags_of(blocks)[p] by {
            assert(f0[p] == f8[p]);
            assert(p / 8 < blocks.len());
        }
    }
    assert(count_set(f8) == count_set(f7) + bit_value(block, 7)) by {
        assert(f8.last() == f8[base + 7]);
    }
    assert(count_set(f7) == count_set(f6) + bit_value(block, 6)) by {
        assert(f7.last() == f8[base + 6]);
    }
    assert(count_set(f6) == count_set(f5) + bit_value(block, 5)) by {
        assert(f6.last() == f8[base + 5]);
    }
    assert(count_set(f5) == count_set(f4) + bit_value(block, 4)) by {
        assert(f5.last() == f8[base + 4]);
    }
    assert(count_set(f4) == count_set(f3) + bit_value(block, 3)) by {
        assert(f4.last() == f8[base + 3]);
    }
    assert(count_set(f3) == count_set(f2) + bit_value(block, 2)) by {
        assert(f3.last() == f8[base + 2]);
    }
    assert(count_set(f2) == count_set(f1) + bit_value(block, 1)) by {
        assert(f2.last() == f8[base + 1]);
    }
    assert(count_set(f1) == count_set(f0) + bit_value(block, 0)) by {
        assert(f1.last() == f8[base + 0]);
    }
}

/// A field of flags, each either raised or lowered, packed eight to a byte.
/// Its view is the sequence of the flags, in the order of their positions.
pub struct Bitfield {
    blocks: Vec<u8>,
}

impl View for Bitfield {
    type V = Seq<bool>;

    closed spec fn view(&self) -> Seq<bool> {
        flags_of(self.blocks@)
    }
}

impl Bitfield {
    /// Every position fits in a `u64`.
    #[verifier::type_invariant]
    spec fn positions_fit(&self) -> bool {
        8 * self.blocks@.len() <= u64::MAX
    }

    /// A field of `blocks` bytes with every flag raised.
    pub fn new(blocks: usize) -> (field: Bitfield)
        requires
            8 * blocks <= u64::MAX,
        ensures
            field@ == Seq::new(8 * (blocks as nat), |p: int| true),
    {
        let field = Bitfield { blocks: vec![0xffu8; blocks] };
        proof {
            assert forall|p: int| 0 <= p < 8 * blocks implies #[trigger] field@[p] by {
                let offset = (p % 8) as u8;
                assert(bit_is_set(0xffu8, offset)) by (bit_vector)
                    requires
                        offset < 8,
                ;
            }
            assert(field@ =~= Seq::new(8 * (blocks as nat), |p: int| true));
        }
        field
    }

    /// The number of bytes that hold the flags: an eighth of the number of flags.
    pub fn block_count(&self) -> (blocks: usize)
        ensures
            8 * blocks == self@.len(),
    {
        self.blocks.len()
    }

    /// Whether the flag at `position` is raised.
    pub fn get(&self, position: u64) -> (raised: bool)
        requires
            position < self@.len(),
        ensures
            raised == self@[position as int],
    {
        assert(self@.len() == 8 * self.blocks.len());
        let index: usize = (position / 8) as usize;
        let offset: u8 = (position % 8) as u8;
        (self.blocks[index] >> offset) & 1 == 1
    }

    /// Lowers the flag at `position` and leaves every other flag as it is.
    pub fn clear(&mut self, position: u64)
        requires
            position < old(self)@.len(),
        ensures
            final(self)@ == old(self)@.update(position as int, false),
    {
        proof {
            use_type_invariant(&*self);
        }
        assert(self@.len() == 8 * self.blocks.len());
        let index: usize = (position / 8) as usize;
        let offset: u8 = (position % 8) as u8;
        let before: u8 = self.blocks[index];
        let after: u8 = before & !(1u8 << offset);
        self.blocks[index] = after;
        proof {
            assert forall|p: int| 0 <= p < 8 * old(self).blocks@.len() implies #[trigger] self@[p]
                == old(self)@.update(position as int, false)[p] by {
                let other = (p % 8) as u8;
                if p / 8 == index {
                    assert(bit_is_set(after, other) == (other != offset && bit_is_set(
                        before,
                        other,
                    ))) by (bit_vector)
                        requires
                            after == before & !(1u8 << offset),
                            offset < 8,
                            other < 8,
                    ;
                }
            }
            assert(self@ =~= old(self)@.update(position as int, false));
        }
    }

    /// The number of raised flags.
    pub fn count_ones(&self) -> (ones: u64)
        ensures
            ones == count_set(self@),
    {
        proof {
            use_type_invariant(self);
        }
        let mut ones: u64 = 0;
        let mut index: usize = 0;
        while index < self.blocks.len()
            invariant
                index <= self.blocks@.len(),
                8 * self.blocks@.len() <= u64::MAX,
                ones == count_set(flags_of(self.blocks@.take(index as int))),
                ones <= 8 * index,
            decreases self.blocks@.len() - index,
        {
            let block: u8 = self.blocks[index];
            proof {
                let seen = self.blocks@.take(index as int);
                lemma_count_set_block(seen, block);
                assert(seen.push(block) =~= self.blocks@.take(index + 1));
                lemma_count_set_bound(flags_of(seen.push(block)));
            }
            ones = ones + block.count_ones() as u64;
            index = index + 1;
        }
        proof {
            assert(self.blocks@.take(index as int) =~= self.blocks@);
        }
        ones
    }
}

} // verus!
