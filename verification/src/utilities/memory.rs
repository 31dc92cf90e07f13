//! Addresses, regions of an address space, and the way a run of bytes falls
//! onto a sequence of regions.
use vstd::prelude::*;

verus! {

/// A position in the linear address space of a device. An implementation
/// that is verified says what `spec_offset` is; one that is not promises to
/// keep the contracts, and may leave it at that.
pub trait Address: Copy {
    /// The position, counted in bytes from the start of the address space.
    open spec fn spec_offset(self) -> nat {
        0
    }

    fn offset(self) -> (offset: u32)
        ensures
            offset == self.spec_offset(),
    ;

    /// The position `distance` bytes further on.
    fn forward(self, distance: usize) -> (address: Self)
        requires
            self.spec_offset() + distance <= u32::MAX,
        ensures
            address.spec_offset() == self.spec_offset() + distance,
    ;
}

/// Anything that can tell whether an address falls within it. A region is
/// the half-open interval from `spec_location()` to `spec_end()`, which an
/// implementation that is verified says what they are.
pub trait Region<A: Address> {
    /// The first position inside the region.
    open spec fn spec_location(&self) -> nat {
        0
    }

    /// The first position past the region.
    open spec fn spec_end(&self) -> nat {
        0
    }

    /// Both bounds of the region as machine integers.
    fn span(&self) -> (span: (u32, u32))
        ensures
            span.0 == self.spec_location(),
            span.1 == self.spec_end(),
            span.0 <= span.1,
    ;

    fn contains(&self, address: A) -> (inside: bool)
        ensures
            inside == (self.spec_location() <= address.spec_offset() < self.spec_end()),
    ;
}

/// Whether `address` falls within `region`.
pub open spec fn covers<A: Address, R: Region<A>>(region: &R, address: A) -> bool {
    region.spec_location() <= address.spec_offset() < region.spec_end()
}

/// The part of a run of bytes that falls into one block of a sequence of
/// blocks.
#[derive(Clone, Copy, Debug, PartialEq, Eq, Structural)]
pub struct Overlap {
    /// Index of the block in the sequence.
    pub block: usize,
    /// Index of the first byte of the run that lies in the block.
    pub start: usize,
    /// Index past the last byte of the run that lies in the block.
    pub end: usize,
    /// Position of the byte at `start` in the address space.
    pub address: u32,
}

/// `x` limited to the indices `0..=len` of a run of `len` bytes.
pub open spec fn clamp(x: int, len: nat) -> nat {
    if x < 0 {
        0
    } else if x > len {
        len
    } else {
        x as nat
    }
}

/// Bounds of every region of a sequence, in order.
pub open spec fn spans<A: Address, R: Region<A>>(blocks: Seq<R>) -> Seq<(nat, nat)> {
    Seq::new(blocks.len(), |k: int| (blocks[k].spec_location(), blocks[k].spec_end()))
}

/// What a run of `len` bytes that starts at position `base` has in common
/// with block number `block`, which spans `location..end`: nothing, or the
/// bytes from index `clamp(location - base)` up to `clamp(end - base)`.
pub open spec fn overlap_of(block: int, location: nat, end: nat, base: nat, len: nat) -> Option<
    Overlap,
> {
    let start = clamp(location - base, len);
    let stop = clamp(end - base, len);
    if start < stop {
        Some(
            Overlap {
                block: block as usize,
                start: start as usize,
                end: stop as usize,
                address: (base + start) as u32,
            },
        )
    } else {
        None
    }
}

/// The overlaps of a run of bytes with each block of a sequence, in the
/// order of the blocks, leaving out the blocks that the run does not touch.
pub open spec fn overlaps_of(spans: Seq<(nat, nat)>, base: nat, len: nat) -> Seq<Overlap>
    decreases spans.len(),
{
    if spans.len() == 0 {
        Seq::empty()
    } else {
        let before = overlaps_of(spans.drop_last(), base, len);
        match overlap_of(spans.len() - 1, spans.last().0, spans.last().1, base, len) {
            Some(overlap) => before.push(overlap),
            None => before,
        }
    }
}

/// Whether block `k` of a sequence begins where the one before it ends.
pub open spec fn adjoins(spans: Seq<(nat, nat)>, k: int) -> bool {
    spans[k].0 == spans[k - 1].1
}

/// Whether each block of a sequence begins where the one before it ends.
pub open spec fn contiguous(spans: Seq<(nat, nat)>) -> bool {
    &&& forall|k: int| 0 <= k < spans.len() ==> (#[trigger] spans[k]).0 <= spans[k].1
    &&& forall|k: int| 0 < k < spans.len() ==> #[trigger] adjoins(spans, k)
}

/// Whether piece `i` of a sequence of overlaps takes up the run of bytes
/// where the piece before it stops, in a later block.
pub open spec fn continues(found: Seq<Overlap>, i: int) -> bool {
    &&& found[i].start == found[i - 1].end
    &&& found[i - 1].block < found[i].block
}

/// Whether an overlap is a non-empty piece of a run of bytes that starts at
/// `base`, and lies within the block it names.
pub open spec fn fits(piece: Overlap, spans: Seq<(nat, nat)>, base: nat) -> bool {
    &&& piece.start < piece.end
    &&& piece.address == base + piece.start
    &&& piece.block < spans.len()
    &&& spans[piece.block as int].0 <= piece.address
    &&& piece.address + (piece.end - piece.start) <= spans[piece.block as int].1
}

/// Whether a sequence of overlaps cuts the indices `from..to` of a run of
/// bytes that starts at `base` into consecutive, non-empty pieces, each
/// within the block it names, the blocks in ascending order.
#[verifier::opaque]
pub open spec fn tiles(
    found: Seq<Overlap>,
    spans: Seq<(nat, nat)>,
    base: nat,
    from: nat,
    to: nat,
) -> bool {
    &&& from <= to
    &&& found.len() == 0 ==> from == to
    &&& found.len() > 0 ==> found[0].start == from && found.last().end == to
    &&& forall|i: int| 0 <= i < found.len() ==> fits(#[trigger] found[i], spans, base)
    &&& forall|i: int| 0 < i < found.len() ==> #[trigger] continues(found, i)
}

proof fn lemma_tiles_extend(
    before: Seq<Overlap>,
    spans: Seq<(nat, nat)>,
    base: nat,
    from: nat,
    middle: nat,
)
    requires
        spans.len() > 0,
        tiles(before, spans.drop_last(), base, from, middle),
    ensures
        tiles(before, spans, base, from, middle),
        forall|i: int| 0 <= i < before.len() ==> (#[trigger] before[i]).block < spans.len() - 1,
{
    reveal(tiles);
    let shorter = spans.drop_last();
    assert forall|i: int| 0 <= i < before.len() implies fits(#[trigger] before[i], spans, base)
        && before[i].block < spans.len() - 1 by {
        assert(fits(before[i], shorter, base));
        assert(shorter[before[i].block as int] == spans[before[i].block as int]);
    }
}

proof fn lemma_tiles_push(
    before: Seq<Overlap>,
    spans: Seq<(nat, nat)>,
    base: nat,
    from: nat,
    middle: nat,
    piece: Overlap,
)
    requires
        tiles(before, spans, base, from, middle),
        forall|i: int| 0 <= i < before.len() ==> (#[trigger] before[i]).block < piece.block,
        fits(piece, spans, base),
        piece.start == middle,
    ensures
        tiles(before.push(piece), spans, base, from, piece.end as nat),
{
    reveal(tiles);
    let found = before.push(piece);
    assert forall|i: int| 0 <= i < found.len() implies fits(#[trigger] found[i], spans, base) by {
        if i < before.len() {
            assert(found[i] == before[i]);
        }
    }
    assert forall|i: int| 0 < i < found.len() implies #[trigger] continues(found, i) by {
        assert(found[i - 1] == before[i - 1]);
        if i < before.len() {
            assert(found[i] == before[i]);
            assert(continues(before, i));
        } else {
            assert(before.last() == before[i - 1]);
        }
    }
    if before.len() > 0 {
        assert(found[0] == before[0]);
    }
}

/// Overlapping a run of bytes with contiguous blocks loses nothing and
/// doubles nothing: the overlaps are consecutive pieces of the run, and
/// together they are exactly the bytes whose positions lie between the start
/// of the first block and the end of the last.
pub proof fn lemma_overlaps_tile(spans: Seq<(nat, nat)>, base: nat, len: nat)
    requires
        contiguous(spans),
        0 < spans.len() <= usize::MAX,
        base + len <= u32::MAX,
        len <= usize::MAX,
    ensures
        tiles(
            overlaps_of(spans, base, len),
            spans,
            base,
            clamp(spans[0].0 - base, len),
            clamp(spans.last().1 - base, len),
        ),
    decreases spans.len(),
{
    let from = clamp(spans[0].0 - base, len);
    let last = spans.len() - 1;
    let shorter = spans.drop_last();
    let before = overlaps_of(shorter, base, len);
    let middle = clamp(spans[last].0 - base, len);
    if spans.len() == 1 {
        assert(before =~= Seq::<Overlap>::empty());
        assert(tiles(before, spans, base, from, middle)) by {
            reveal(tiles);
        }
    } else {
        assert(shorter.last() == spans[last - 1]);
        assert(shorter[0] == spans[0]);
        assert(contiguous(shorter)) by {
            assert forall|k: int| 0 <= k < shorter.len() implies (#[trigger] shorter[k]).0
                <= shorter[k].1 by {
                assert(shorter[k] == spans[k]);
            }
            assert forall|k: int| 0 < k < shorter.len() implies #[trigger] adjoins(shorter, k) by {
                assert(adjoins(spans, k));
                assert(shorter[k] == spans[k]);
                assert(shorter[k - 1] == spans[k - 1]);
            }
        }
        assert(adjoins(spans, last));
        lemma_overlaps_tile(shorter, base, len);
        lemma_tiles_extend(before, spans, base, from, middle);
    }
    match overlap_of(last, spans[last].0, spans[last].1, base, len) {
        Some(piece) => {
            assert(piece.block == last);
            lemma_tiles_push(before, spans, base, from, middle, piece);
        },
        None => {},
    }
}

/// Index of the first byte that the pieces from number `count` on hold, of
/// pieces that reach up to index `to`.
pub open spec fn reached(found: Seq<Overlap>, count: int, to: nat) -> nat {
    if count < found.len() {
        found[count].start as nat
    } else {
        to
    }
}

/// Pieces that tile a run of bytes take it up one after the other: each
/// piece holds the bytes from where the pieces before it have reached to
/// where the pieces up to it reach.
pub proof fn lemma_tiles_reach(
    found: Seq<Overlap>,
    spans: Seq<(nat, nat)>,
    base: nat,
    from: nat,
    to: nat,
    count: int,
)
    requires
        tiles(found, spans, base, from, to),
        0 <= count <= found.len(),
    ensures
        reached(found, 0, to) == from,
        from <= reached(found, count, to),
        count > 0 ==> {
            &&& fits(found[count - 1], spans, base)
            &&& found[count - 1].start == reached(found, count - 1, to)
            &&& found[count - 1].end == reached(found, count, to)
        },
    decreases count,
{
    reveal(tiles);
    if count > 0 {
        lemma_tiles_reach(found, spans, base, from, to, count - 1);
        if count < found.len() {
            assert(continues(found, count));
        } else {
            assert(found.last() == found[count - 1]);
        }
    }
}

/// Each overlap of a run of bytes with a sequence of blocks is a non-empty
/// piece of the run and lies within the block it names.
pub proof fn lemma_overlaps_fit(spans: Seq<(nat, nat)>, base: nat, len: nat)
    requires
        spans.len() <= usize::MAX,
        base + len <= u32::MAX,
        len <= usize::MAX,
    ensures
        overlaps_of(spans, base, len).len() <= spans.len(),
        forall|i: int|
            0 <= i < overlaps_of(spans, base, len).len() ==> {
                let piece = #[trigger] overlaps_of(spans, base, len)[i];
                &&& fits(piece, spans, base)
                &&& piece.end <= len
                &&& overlap_of(
                    piece.block as int,
                    spans[piece.block as int].0,
                    spans[piece.block as int].1,
                    base,
                    len,
                ) == Some(piece)
            },
    decreases spans.len(),
{
    if spans.len() > 0 {
        let shorter = spans.drop_last();
        lemma_overlaps_fit(shorter, base, len);
        let before = overlaps_of(shorter, base, len);
        let found = overlaps_of(spans, base, len);
        assert forall|i: int| 0 <= i < found.len() implies {
            let piece = #[trigger] found[i];
            &&& fits(piece, spans, base)
            &&& piece.end <= len
            &&& overlap_of(
                piece.block as int,
                spans[piece.block as int].0,
                spans[piece.block as int].1,
                base,
                len,
            ) == Some(piece)
        } by {
            if i < before.len() {
                assert(found[i] == before[i]);
                assert(fits(before[i], shorter, base));
                assert(shorter[before[i].block as int] == spans[before[i].block as int]);
            }
        }
    }
}

/// Overlap number `i` of a run of bytes with a sequence of blocks is a
/// non-empty piece of the run and lies within the block it names. Unless it
/// begins with the run, it begins with the block.
pub proof fn lemma_overlap_fits(spans: Seq<(nat, nat)>, base: nat, len: nat, i: int)
    requires
        spans.len() <= usize::MAX,
        base + len <= u32::MAX,
        len <= usize::MAX,
        0 <= i < overlaps_of(spans, base, len).len(),
    ensures
        fits(overlaps_of(spans, base, len)[i], spans, base),
        overlaps_of(spans, base, len)[i].end <= len,
        overlaps_of(spans, base, len)[i].start > 0 ==> overlaps_of(spans, base, len)[i].address
            == spans[overlaps_of(spans, base, len)[i].block as int].0,
{
    lemma_overlaps_fit(spans, base, len);
}

/// Partitions a run of `len` bytes that starts at `base` over `blocks`: for
/// each block that holds some of the bytes, in the order of the blocks, the
/// indices of the bytes it holds and the position of the first of them.
pub fn overlaps<A: Address, R: Region<A>>(blocks: &[R], len: usize, base: A) -> (found: Vec<
    Overlap,
>)
    requires
        base.spec_offset() + len <= u32::MAX,
    ensures
        found@ == overlaps_of(spans(blocks@), base.spec_offset(), len as nat),
{
    let first = base.offset();
    let mut found: Vec<Overlap> = Vec::new();
    let mut k: usize = 0;
    assert(spans(blocks@.take(0)) =~= Seq::<(nat, nat)>::empty());
    while k < blocks.len()
        invariant
            k <= blocks@.len(),
            first == base.spec_offset(),
            first + len <= u32::MAX,
            found@ == overlaps_of(spans(blocks@.take(k as int)), first as nat, len as nat),
        decreases blocks@.len() - k,
    {
        let (location, end) = blocks[k].span();
        let start: usize = if location <= first {
            0
        } else if location - first > len as u32 {
            len
        } else {
            (location - first) as usize
        };
        let stop: usize = if end <= first {
            0
        } else if end - first > len as u32 {
            len
        } else {
            (end - first) as usize
        };
        proof {
            let longer = spans(blocks@.take(k + 1));
            assert(longer.drop_last() =~= spans(blocks@.take(k as int)));
            assert(longer.last() == (location as nat, end as nat));
            assert(start == clamp(location - first, len as nat));
            assert(stop == clamp(end - first, len as nat));
        }
        if start < stop {
            found.push(Overlap { block: k, start, end: stop, address: first + start as u32 });
        }
        k += 1;
    }
    assert(blocks@.take(k as int) =~= blocks@);
    found
}

} // verus!
