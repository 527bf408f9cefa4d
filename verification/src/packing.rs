//! Variable-length lists packed into one backing array, one block per owner.

use vstd::prelude::*;

verus! {

/// The blocks one after the other.
pub open spec fn joined<T>(blocks: Seq<Seq<T>>) -> Seq<T>
    decreases blocks.len(),
{
    if blocks.len() == 0 {
        Seq::empty()
    } else {
        joined(blocks.drop_last()) + blocks.last()
    }
}

/// Where block `s` begins among the joined blocks.
pub open spec fn offset<T>(blocks: Seq<Seq<T>>, s: int) -> int {
    joined(blocks.take(s)).len() as int
}

/// The contents of each vector.
pub open spec fn contents<T>(blocks: Seq<Vec<T>>) -> Seq<Seq<T>> {
    Seq::new(blocks.len(), |s: int| blocks[s]@)
}

/// The next block begins where this one ends.
pub proof fn lemma_offset_step<T>(blocks: Seq<Seq<T>>, s: int)
    requires
        0 <= s < blocks.len(),
    ensures
        offset(blocks, s + 1) == offset(blocks, s) + blocks[s].len(),
        joined(blocks.take(s + 1)) == joined(blocks.take(s)) + blocks[s],
{
    assert(blocks.take(s + 1).drop_last() =~= blocks.take(s));
    assert(blocks.take(s + 1).last() == blocks[s]);
}

/// Block `s` lies among the joined blocks at its offset.
pub proof fn lemma_block_of_joined<T>(blocks: Seq<Seq<T>>, s: int)
    requires
        0 <= s < blocks.len(),
    ensures
        0 <= offset(blocks, s),
        offset(blocks, s) + blocks[s].len() <= joined(blocks).len(),
        joined(blocks).subrange(offset(blocks, s), offset(blocks, s) + blocks[s].len())
            == blocks[s],
    decreases blocks.len(),
{
    let front = blocks.drop_last();
    if s == blocks.len() - 1 {
        assert(blocks.take(s) =~= front);
        assert(joined(blocks).subrange(offset(blocks, s), offset(blocks, s) + blocks[s].len())
            =~= blocks[s]);
    } else {
        lemma_block_of_joined(front, s);
        assert(front.take(s) =~= blocks.take(s));
        assert(joined(blocks).subrange(offset(blocks, s), offset(blocks, s) + blocks[s].len())
            =~= joined(front).subrange(offset(front, s), offset(front, s) + front[s].len()));
    }
}

/// All blocks taken, the offset is the length of the whole.
pub proof fn lemma_offset_end<T>(blocks: Seq<Seq<T>>)
    ensures
        offset(blocks, blocks.len() as int) == joined(blocks).len(),
{
    assert(blocks.take(blocks.len() as int) =~= blocks);
}

/// Every entry of the joined blocks lies in one of them.
pub proof fn lemma_entry_of_joined<T>(blocks: Seq<Seq<T>>, i: int) -> (place: (int, int))
    requires
        0 <= i < joined(blocks).len(),
    ensures
        0 <= place.0 < blocks.len(),
        0 <= place.1 < blocks[place.0].len(),
        i == offset(blocks, place.0) + place.1,
        joined(blocks)[i] == blocks[place.0][place.1],
    decreases blocks.len(),
{
    let front = blocks.drop_last();
    if i < joined(front).len() {
        let place = lemma_entry_of_joined(front, i);
        assert(front.take(place.0) =~= blocks.take(place.0));
        place
    } else {
        let s = blocks.len() - 1;
        assert(blocks.take(s) =~= front);
        (s, i - joined(front).len())
    }
}

/// Packs the blocks into one array. The second result tells where each block begins.
pub fn pack<T: Copy>(blocks: &Vec<Vec<T>>) -> (packed: (Vec<T>, Vec<usize>))
    ensures
        packed.0@ == joined(contents(blocks@)),
        packed.1@.len() == blocks@.len(),
        forall|s: int|
            0 <= s < blocks@.len() ==> (#[trigger] packed.1@[s]) == offset(contents(blocks@), s),
{
    let mut flat: Vec<T> = Vec::new();
    let mut starts: Vec<usize> = Vec::new();
    let mut s: usize = 0;
    assert(contents(blocks@).take(0) =~= Seq::empty());
    while s < blocks.len()
        invariant
            s <= blocks@.len(),
            starts@.len() == s,
            flat@ == joined(contents(blocks@).take(s as int)),
            forall|t: int|
                0 <= t < s ==> (#[trigger] starts@[t]) == offset(contents(blocks@), t),
        decreases blocks@.len() - s,
    {
        starts.push(flat.len());
        let block = &blocks[s];
        let ghost before = flat@;
        let mut i: usize = 0;
        while i < block.len()
            invariant
                i <= block@.len(),
                flat@ == before + block@.subrange(0, i as int),
            decreases block@.len() - i,
        {
            flat.push(block[i]);
            assert(flat@ =~= before + block@.subrange(0, i + 1));
            i += 1;
        }
        proof {
            assert(block@.subrange(0, block@.len() as int) =~= block@);
            lemma_offset_step(contents(blocks@), s as int);
        }
        s += 1;
    }
    assert(contents(blocks@).take(blocks@.len() as int) =~= contents(blocks@));
    (flat, starts)
}

/// The vector in the opposite order.
pub fn reversed<T>(items: Vec<T>) -> (turned: Vec<T>)
    ensures
        turned@.len() == items@.len(),
        forall|i: int| 0 <= i < items@.len() ==> turned@[i] == items@[items@.len() - 1 - i],
{
    let mut items = items;
    let ghost all = items@;
    let mut turned: Vec<T> = Vec::new();
    while items.len() > 0
        invariant
            items@.len() + turned@.len() == all.len(),
            forall|i: int| 0 <= i < items@.len() ==> items@[i] == all[i],
            forall|i: int| 0 <= i < turned@.len() ==> turned@[i] == all[all.len() - 1 - i],
        decreases items@.len(),
    {
        let item = items.pop().unwrap();
        turned.push(item);
    }
    turned
}

} // verus!
