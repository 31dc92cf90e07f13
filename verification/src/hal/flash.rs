//! The interface of a flash memory that reads and writes any range of
//! bytes, and what is built on that interface alone.
use crate::utilities::memory::Address;
use vstd::prelude::*;
use vstd::slice::slice_subrange;
use vstd::slice::slice_to_vec;

verus! {

/// A flash memory that reads and writes ranges of bytes. Every operation but
/// `write_from_blocks` returns at once: with the memory in the middle of an
/// earlier operation it answers `WouldBlock`, and the caller tries again.
///
/// What the trait asks of every flash is little: that a read keeps the
/// length of its buffer, and that a flash which answers `WouldBlock` comes
/// closer to taking the operation. The drivers say of themselves what they
/// read and write.
pub trait ReadWrite {
    type Error;

    type Address: Address;

    /// What an implementation needs to hold of itself between calls. Every
    /// implementation says so itself.
    spec fn inv(&self) -> bool;

    /// A bound on waiting: how many more times the memory may answer
    /// `WouldBlock` before it takes an operation.
    open spec fn patience(&self) -> nat {
        0
    }

    /// Size of the buffer through which `write_from_blocks` passes the
    /// blocks on.
    open spec fn transfer_size() -> nat {
        0
    }

    /// The position of the first byte of the memory and the bytes that the
    /// memory holds and `read` reaches, where an implementation says what it
    /// holds.
    open spec fn contents(&self) -> Option<(nat, Seq<u8>)> {
        None
    }

    /// An identifying name for the flash chip.
    fn label() -> &'static str;

    /// Fills `bytes` with what the memory holds from `address` on, and
    /// leaves the memory as it is.
    fn read(&mut self, address: Self::Address, bytes: &mut [u8]) -> (result: Result<
        (),
        nb::Error<Self::Error>,
    >)
        requires
            old(self).inv(),
        ensures
            final(self).inv(),
            final(self).contents() == old(self).contents(),
            final(bytes)@.len() == old(bytes)@.len(),
            result is Ok ==> held_at(old(self).contents(), address.spec_offset(), final(bytes)@),
            result matches Err(nb::Error::WouldBlock) ==> final(self).patience() < old(
                self,
            ).patience(),
            lies_in(old(self).contents(), address.spec_offset(), old(bytes)@.len()) ==> !(
            result matches Err(nb::Error::Other(_))),
    ;

    /// Makes the memory hold `bytes` from `address` on.
    fn write(&mut self, address: Self::Address, bytes: &[u8]) -> (result: Result<
        (),
        nb::Error<Self::Error>,
    >)
        requires
            old(self).inv(),
            address.spec_offset() + bytes@.len() <= u32::MAX,
        ensures
            final(self).inv(),
            result matches Err(nb::Error::WouldBlock) ==> final(self).patience() < old(
                self,
            ).patience(),
    ;

    /// The first address of the memory, and the address past its last.
    fn range(&self) -> (Self::Address, Self::Address);

    /// Erases the whole memory.
    fn erase(&mut self) -> (result: Result<(), nb::Error<Self::Error>>)
        requires
            old(self).inv(),
        ensures
            final(self).inv(),
            result matches Err(nb::Error::WouldBlock) ==> final(self).patience() < old(
                self,
            ).patience(),
    ;

    /// An iterator over the bytes of the memory from `address` on, which
    /// reads them as they are asked for.
    fn bytes(&self, address: Self::Address) -> (iterator: ReadIterator<Self::Address>)
        ensures
            !iterator.errored(),
            !iterator.at_end(),
            iterator.buffered().len() == 0,
            iterator.address() == address,
            iterator.position() == address.spec_offset(),
            forall|contents: Option<(nat, Seq<u8>)>| #[trigger] iterator.agrees(contents),
    {
        ReadIterator::new(address)
    }

    /// Writes the bytes of `blocks`, one block after the other, from
    /// `address` on, and waits where the memory is busy.
    fn write_from_blocks<const N: usize>(&mut self, address: Self::Address, blocks: &[[u8; N]]) -> (result:
        Result<(), Self::Error>)
        requires
            old(self).inv(),
            N > 0,
            Self::transfer_size() % (N as nat) == 0,
            address.spec_offset() + blocks@.len() * N <= u32::MAX,
        ensures
            final(self).inv(),
    ;
}

/// Whether `contents` says what a memory holds, and the `len` bytes at
/// position `offset` are among the bytes that it holds.
pub open spec fn lies_in(contents: Option<(nat, Seq<u8>)>, offset: nat, len: nat) -> bool {
    match contents {
        Some((base, memory)) => base <= offset && offset + len <= base + memory.len(),
        None => false,
    }
}

/// Whether `bytes` are what a memory holds at position `offset`, as far as
/// `contents` says what the memory holds.
pub open spec fn held_at(contents: Option<(nat, Seq<u8>)>, offset: nat, bytes: Seq<u8>) -> bool {
    match contents {
        Some((base, memory)) => {
            &&& base <= offset
            &&& offset + bytes.len() <= base + memory.len()
            &&& bytes == memory.subrange(offset - base, offset - base + bytes.len())
        },
        None => true,
    }
}

/// The bytes of a sequence of blocks, one block after the other.
pub open spec fn flattened<const N: usize>(blocks: Seq<[u8; N]>) -> Seq<u8> {
    Seq::new(blocks.len() * N as nat, |i: int| blocks[i / N as int]@[i % N as int])
}

/// Whether `transfers` cuts `bytes` into pieces of `size` bytes and a last
/// piece of what is left, which is shorter and may be empty.
pub open spec fn cut_into(transfers: Seq<Vec<u8>>, bytes: Seq<u8>, size: nat) -> bool {
    &&& transfers.len() > 0
    &&& (transfers.len() - 1) * size <= bytes.len() < transfers.len() * size
    &&& forall|c: int|
        0 <= c < transfers.len() - 1 ==> (#[trigger] transfers[c])@ == bytes.subrange(
            c * size,
            c * size + size,
        )
    &&& transfers.last()@ == bytes.subrange((transfers.len() - 1) * size, bytes.len() as int)
}

/// Gathers blocks into transfers of `size` bytes: as many full transfers as
/// the blocks fill, and then one of the bytes that are left, which may be
/// none.
pub fn transfers<const N: usize>(blocks: &[[u8; N]], size: usize) -> (transfers: Vec<Vec<u8>>)
    requires
        N > 0,
        size > 0,
        size % N == 0,
        blocks@.len() * N <= usize::MAX,
    ensures
        cut_into(transfers@, flattened(blocks@), size as nat),
{
    let ghost bytes = flattened(blocks@);
    let mut flat: Vec<u8> = Vec::new();
    let mut b: usize = 0;
    assert(0 * N == 0) by (nonlinear_arith);
    while b < blocks.len()
        invariant
            N > 0,
            b <= blocks@.len(),
            blocks@.len() * N <= usize::MAX,
            bytes == flattened(blocks@),
            flat@.len() == b * N,
            flat@.len() <= bytes.len(),
            forall|i: int| 0 <= i < flat@.len() ==> flat@[i] == bytes[i],
        decreases blocks@.len() - b,
    {
        let block = &blocks[b];
        let mut j: usize = 0;
        while j < N
            invariant
                N > 0,
                j <= N,
                b < blocks@.len(),
                blocks@.len() * N <= usize::MAX,
                bytes == flattened(blocks@),
                *block == blocks@[b as int],
                flat@.len() == b * N + j,
                flat@.len() <= bytes.len(),
                forall|i: int| 0 <= i < flat@.len() ==> flat@[i] == bytes[i],
            decreases N - j,
        {
            proof {
                let i = b * N + j;
                vstd::arithmetic::div_mod::lemma_fundamental_div_mod_converse(
                    i as int,
                    N as int,
                    b as int,
                    j as int,
                );
                assert((b + 1) * N <= blocks@.len() * N) by (nonlinear_arith)
                    requires
                        b < blocks@.len(),
                        N > 0,
                ;
                assert((b + 1) * N == b * N + N) by (nonlinear_arith);
            }
            flat.push(block[j]);
            j += 1;
        }
        proof {
            assert((b + 1) * N == b * N + N) by (nonlinear_arith);
        }
        b += 1;
    }
    assert(flat@ =~= bytes);
    let total = flat.len();
    let mut transfers: Vec<Vec<u8>> = Vec::new();
    let mut start: usize = 0;
    assert(0 * size == 0) by (nonlinear_arith);
    while total - start >= size
        invariant
            size > 0,
            start <= total,
            total == flat@.len(),
            flat@ == bytes,
            start == transfers@.len() * size,
            forall|c: int|
                0 <= c < transfers@.len() ==> (#[trigger] transfers@[c])@ == bytes.subrange(
                    c * size,
                    c * size + size,
                ),
        decreases total - start,
    {
        let ghost count = transfers@.len();
        transfers.push(slice_to_vec(slice_subrange(flat.as_slice(), start, start + size)));
        proof {
            assert((count + 1) * size == count * size + size) by (nonlinear_arith);
        }
        start += size;
    }
    let ghost count = transfers@.len();
    transfers.push(slice_to_vec(slice_subrange(flat.as_slice(), start, total)));
    proof {
        assert((count + 1) * size == count * size + size) by (nonlinear_arith);
        assert forall|c: int| 0 <= c < transfers@.len() - 1 implies (#[trigger] transfers@[c])@
            == bytes.subrange(c * size, c * size + size) by {}
    }
    transfers
}

/// The value of an erased byte of flash.
pub const ERASED: u8 = 0xFF;

/// Bytes in the unit that a flash controller programs at once.
pub const WORD_SIZE: usize = 4;

/// `memory` with `bytes` in place of what it held from position `address`
/// on.
pub open spec fn overlaid(memory: Seq<u8>, address: int, bytes: Seq<u8>) -> Seq<u8> {
    Seq::new(
        memory.len(),
        |i: int|
            if address <= i < address + bytes.len() {
                bytes[i - address]
            } else {
                memory[i]
            },
    )
}

/// `memory` with the positions `from..to` erased.
pub open spec fn erased(memory: Seq<u8>, from: int, to: int) -> Seq<u8> {
    Seq::new(
        memory.len(),
        |i: int|
            if from <= i < to {
                ERASED
            } else {
                memory[i]
            },
    )
}

/// Whether two memories hold the same outside the positions `from..to`.
pub open spec fn same_outside(before: Seq<u8>, after: Seq<u8>, from: int, to: int) -> bool {
    &&& after.len() == before.len()
    &&& forall|i: int| 0 <= i < before.len() && !(from <= i < to) ==> after[i] == before[i]
}

/// Whether `after` is `before` with the first `n` of `bytes` written at
/// `address`, but for block number `block` of the blocks of `size` bytes,
/// which may hold anything, and which is the block that the next byte would
/// have gone to.
pub open spec fn stopped_in(
    before: Seq<u8>,
    after: Seq<u8>,
    address: int,
    bytes: Seq<u8>,
    size: int,
    n: int,
    block: int,
) -> bool {
    &&& 0 <= n <= bytes.len()
    &&& block * size <= address + n < (block + 1) * size
    &&& same_outside(
        overlaid(before, address, bytes.take(n)),
        after,
        block * size,
        (block + 1) * size,
    )
}

/// What a write leaves that failed on the way: the blocks before the
/// failure written, the block of the failure holding anything, and the blocks
/// after it as they were.
pub open spec fn written_up_to_a_block(
    before: Seq<u8>,
    after: Seq<u8>,
    address: int,
    bytes: Seq<u8>,
    size: int,
) -> bool {
    exists|n: int, block: int| #[trigger] stopped_in(before, after, address, bytes, size, n, block)
}

/// A write in transfers whose transfer at `offset` failed, after the
/// transfers before it were written, failed as a whole where that transfer
/// failed.
pub proof fn lemma_transfer_stopped(
    before: Seq<u8>,
    middle: Seq<u8>,
    after: Seq<u8>,
    address: int,
    bytes: Seq<u8>,
    offset: int,
    chunk: Seq<u8>,
    size: int,
)
    requires
        0 <= offset,
        offset + chunk.len() <= bytes.len(),
        chunk == bytes.subrange(offset, offset + chunk.len()),
        middle == overlaid(before, address, bytes.take(offset)),
        written_up_to_a_block(middle, after, address + offset, chunk, size),
    ensures
        written_up_to_a_block(before, after, address, bytes, size),
{
    let (n, block) = choose|n: int, block: int| #[trigger]
        stopped_in(middle, after, address + offset, chunk, size, n, block);
    lemma_write_piecewise(before, address, bytes, offset, offset + n);
    assert(bytes.subrange(offset, offset + n) =~= chunk.take(n));
    assert(stopped_in(before, after, address, bytes, size, offset + n, block));
}

/// A write that was turned down before byte number `offset`, the bytes
/// before it written, failed in the block that this byte would have gone to.
pub proof fn lemma_stopped_before(
    before: Seq<u8>,
    after: Seq<u8>,
    address: int,
    bytes: Seq<u8>,
    offset: int,
    size: int,
)
    requires
        0 <= address,
        0 <= offset <= bytes.len(),
        size > 0,
        after == overlaid(before, address, bytes.take(offset)),
    ensures
        written_up_to_a_block(before, after, address, bytes, size),
{
    let block = (address + offset) / size;
    assert(block * size <= address + offset < (block + 1) * size) by (nonlinear_arith)
        requires
            block == (address + offset) / size,
            size > 0,
            0 <= address + offset,
    ;
    assert(stopped_in(before, after, address, bytes, size, offset, block));
}

/// A memory that was written to holds, where it was written, what was
/// written: reading there gives the bytes back.
pub proof fn lemma_read_after_write(memory: Seq<u8>, address: int, bytes: Seq<u8>)
    requires
        0 <= address,
        address + bytes.len() <= memory.len(),
    ensures
        overlaid(memory, address, bytes).subrange(address, address + bytes.len()) == bytes,
{
    assert(overlaid(memory, address, bytes).subrange(address, address + bytes.len()) =~= bytes);
}

/// Reading from an erased range gives erased bytes only.
pub proof fn lemma_read_after_erase(memory: Seq<u8>, from: int, to: int, address: int, len: int)
    requires
        0 <= from <= address,
        0 <= len,
        address + len <= to <= memory.len(),
    ensures
        forall|i: int|
            0 <= i < len ==> (#[trigger] erased(memory, from, to).subrange(address, address + len)[i])
                == ERASED,
{
}

/// Writing the bytes of a run piece by piece, in order, is writing the run.
pub proof fn lemma_write_piecewise(memory: Seq<u8>, address: int, bytes: Seq<u8>, start: int, end: int)
    requires
        0 <= start <= end <= bytes.len(),
    ensures
        overlaid(
            overlaid(memory, address, bytes.take(start)),
            address + start,
            bytes.subrange(start, end),
        ) == overlaid(memory, address, bytes.take(end)),
{
    assert(overlaid(
        overlaid(memory, address, bytes.take(start)),
        address + start,
        bytes.subrange(start, end),
    ) =~= overlaid(memory, address, bytes.take(end)));
}

/// The four-operation interface of a flash controller: a busy query, the
/// erase of one block, the programming of one word, and a fault flag that is
/// read and cleared. The controller also reads memory and erases all of it.
///
/// The contract describes the flash behind the controller: an erase leaves
/// a block of erased bytes, programming an erased word leaves the word in
/// memory, and nothing else changes, unless the controller raises its fault
/// flag, which stays up until it is taken. An operation is counted as done
/// when it is started; the controller is busy for a while after it, and not
/// for ever.
///
/// The drivers are proved against this contract. An implementation for a
/// real controller promises to keep it; it need not say what the ghost state
/// is that the contract speaks of.
pub trait CommandExecutor {
    /// What the controller reports when an operation goes wrong.
    type Fault;

    /// What an implementation needs to hold of itself between calls. Every
    /// implementation says so itself.
    spec fn inv(&self) -> bool;

    /// The bytes of the flash, by position.
    open spec fn memory(&self) -> Seq<u8> {
        Seq::empty()
    }

    /// Number of bytes in a block, the unit of erasure.
    open spec fn block_size(&self) -> nat {
        0
    }

    /// How many more times the controller will say that it is busy, if no
    /// further operation is started.
    open spec fn pending(&self) -> nat {
        0
    }

    /// The fault flag.
    open spec fn fault(&self) -> Option<Self::Fault> {
        None
    }

    /// Whether the controller is known never to raise its fault flag.
    open spec fn reliable(&self) -> bool {
        false
    }

    /// Whether the controller is in the middle of an operation.
    fn is_busy(&mut self) -> (busy: bool)
        requires
            old(self).inv(),
        ensures
            final(self).inv(),
            busy == (old(self).pending() > 0),
            busy ==> final(self).pending() < old(self).pending(),
            !busy ==> final(self).pending() == 0,
            final(self).memory() == old(self).memory(),
            final(self).block_size() == old(self).block_size(),
            final(self).fault() == old(self).fault(),
            final(self).reliable() == old(self).reliable(),
    ;

    /// Starts the erase of the block that begins at `address`.
    fn erase_block(&mut self, address: u32)
        requires
            old(self).inv(),
            old(self).pending() == 0,
            old(self).block_size() > 0,
            address as nat % old(self).block_size() == 0,
            address + old(self).block_size() <= old(self).memory().len(),
        ensures
            final(self).inv(),
            final(self).block_size() == old(self).block_size(),
            final(self).reliable() == old(self).reliable(),
            same_outside(
                old(self).memory(),
                final(self).memory(),
                address as int,
                address + old(self).block_size(),
            ),
            old(self).fault() is Some ==> final(self).fault() is Some,
            final(self).reliable() ==> final(self).fault() is None,
            final(self).fault() is None ==> final(self).memory() == erased(
                old(self).memory(),
                address as int,
                address + old(self).block_size(),
            ),
    ;

    /// Starts the programming of the word at `address`. Programming a word
    /// that is not erased leaves the word undefined.
    fn program_word(&mut self, address: u32, word: &[u8; 4])
        requires
            old(self).inv(),
            old(self).pending() == 0,
            address % 4 == 0,
            address + 4 <= old(self).memory().len(),
        ensures
            final(self).inv(),
            final(self).block_size() == old(self).block_size(),
            final(self).reliable() == old(self).reliable(),
            same_outside(old(self).memory(), final(self).memory(), address as int, address + 4),
            old(self).fault() is Some ==> final(self).fault() is Some,
            final(self).reliable() ==> final(self).fault() is None,
            final(self).fault() is None ==> forall|i: int|
                0 <= i < 4 && old(self).memory()[address + i] == ERASED
                    ==> #[trigger] final(self).memory()[address + i] == word@[i],
    ;

    /// Starts the erase of the whole flash.
    fn erase_all(&mut self)
        requires
            old(self).inv(),
            old(self).pending() == 0,
        ensures
            final(self).inv(),
            final(self).block_size() == old(self).block_size(),
            final(self).reliable() == old(self).reliable(),
            final(self).memory().len() == old(self).memory().len(),
            old(self).fault() is Some ==> final(self).fault() is Some,
            final(self).reliable() ==> final(self).fault() is None,
            final(self).fault() is None ==> final(self).memory() == erased(
                old(self).memory(),
                0,
                old(self).memory().len() as int,
            ),
    ;

    /// Reads the fault flag and clears it.
    fn take_fault(&mut self) -> (fault: Option<Self::Fault>)
        requires
            old(self).inv(),
        ensures
            final(self).inv(),
            fault == old(self).fault(),
            final(self).fault() is None,
            final(self).memory() == old(self).memory(),
            final(self).block_size() == old(self).block_size(),
            final(self).pending() == old(self).pending(),
            final(self).reliable() == old(self).reliable(),
    ;

    /// Copies what the flash holds from `address` on into `bytes`.
    fn read(&self, address: u32, bytes: &mut [u8])
        requires
            self.inv(),
            address + old(bytes)@.len() <= self.memory().len(),
        ensures
            final(bytes)@ == self.memory().subrange(address as int, address + old(bytes)@.len()),
    ;
}

/// Waits until the controller has finished its operation.
pub fn wait_until_not_busy<X: CommandExecutor>(executor: &mut X)
    requires
        old(executor).inv(),
    ensures
        final(executor).inv(),
        final(executor).pending() == 0,
        final(executor).memory() == old(executor).memory(),
        final(executor).block_size() == old(executor).block_size(),
        final(executor).fault() == old(executor).fault(),
        final(executor).reliable() == old(executor).reliable(),
{
    loop
        invariant
            executor.inv(),
            executor.memory() == old(executor).memory(),
            executor.block_size() == old(executor).block_size(),
            executor.fault() == old(executor).fault(),
            executor.reliable() == old(executor).reliable(),
        decreases executor.pending(),
    {
        if !executor.is_busy() {
            return ;
        }
    }
}

/// Programs `bytes` at `address` word by word, and waits after each word
/// until the controller has programmed it. Where the range was erased and
/// the controller raises no fault, the range holds `bytes` afterwards.
pub fn program_words<X: CommandExecutor>(executor: &mut X, address: u32, bytes: &[u8])
    requires
        old(executor).inv(),
        old(executor).pending() == 0,
        address % 4 == 0,
        bytes@.len() % 4 == 0,
        address + bytes@.len() <= old(executor).memory().len(),
        address + bytes@.len() <= u32::MAX,
    ensures
        final(executor).inv(),
        final(executor).pending() == 0,
        final(executor).block_size() == old(executor).block_size(),
        final(executor).reliable() == old(executor).reliable(),
        same_outside(
            old(executor).memory(),
            final(executor).memory(),
            address as int,
            address + bytes@.len(),
        ),
        old(executor).fault() is Some ==> final(executor).fault() is Some,
        final(executor).reliable() && (bytes@.len() > 0 || old(executor).fault() is None)
            ==> final(executor).fault() is None,
        final(executor).fault() is None && (forall|i: int|
            address <= i < address + bytes@.len() ==> old(executor).memory()[i] == ERASED)
            ==> final(executor).memory() == overlaid(old(executor).memory(), address as int, bytes@),
{
    let ghost before = executor.memory();
    let mut done: usize = 0;
    while done < bytes.len()
        invariant
            executor.inv(),
            executor.pending() == 0,
            executor.block_size() == old(executor).block_size(),
            executor.reliable() == old(executor).reliable(),
            before == old(executor).memory(),
            address % 4 == 0,
            done % 4 == 0,
            bytes@.len() % 4 == 0,
            done <= bytes@.len(),
            address + bytes@.len() <= before.len(),
            address + bytes@.len() <= u32::MAX,
            same_outside(before, executor.memory(), address as int, address + done),
            old(executor).fault() is Some ==> executor.fault() is Some,
            executor.reliable() && (done > 0 || old(executor).fault() is None)
                ==> executor.fault() is None,
            executor.fault() is None && (forall|i: int|
                address <= i < address + bytes@.len() ==> before[i] == ERASED) ==> forall|i: int|
                address <= i < address + done ==> executor.memory()[i] == bytes@[i - address],
        decreases bytes@.len() - done,
    {
        let word: [u8; 4] = [bytes[done], bytes[done + 1], bytes[done + 2], bytes[done + 3]];
        let ghost middle = executor.memory();
        let target = address + done as u32;
        executor.program_word(target, &word);
        wait_until_not_busy(executor);
        proof {
            let now = executor.memory();
            assert forall|i: int| 0 <= i < before.len() && !(address <= i < address + done + 4)
                implies now[i] == before[i] by {
                assert(now[i] == middle[i]);
            }
            if executor.fault() is None && (forall|i: int|
                address <= i < address + bytes@.len() ==> before[i] == ERASED) {
                assert forall|i: int| address <= i < address + done + 4 implies now[i] == bytes@[i
                    - address] by {
                    if i < address + done {
                        assert(now[i] == middle[i]);
                    } else {
                        let k = i - target;
                        assert(middle[target + k] == before[target + k]);
                        assert(now[target + k] == word@[k]);
                    }
                }
            }
        }
        done += 4;
    }
    proof {
        if executor.fault() is None && (forall|i: int|
            address <= i < address + bytes@.len() ==> before[i] == ERASED) {
            assert(executor.memory() =~= overlaid(before, address as int, bytes@));
        }
    }
}

/// Number of bytes that a `ReadIterator` reads at once.
pub const ITERATOR_BUFFER_SIZE: usize = 2048;

/// Hands out the bytes of a flash one by one, from an address on. It reads
/// the flash in pieces of `ITERATOR_BUFFER_SIZE` bytes, each when the one
/// before is used up, and ends for good at the first read that fails.
pub struct ReadIterator<A: Address> {
    errored: bool,
    buffer: Vec<u8>,
    address: A,
    at_end: bool,
    buffer_head: usize,
}

impl<A: Address> ReadIterator<A> {
    /// Whether a read has failed.
    pub closed spec fn errored(&self) -> bool {
        self.errored
    }

    /// The bytes read and not yet handed out.
    pub closed spec fn buffered(&self) -> Seq<u8> {
        self.buffer@.skip(self.buffer_head as int)
    }

    /// Where the next read begins.
    pub closed spec fn address(&self) -> A {
        self.address
    }

    /// Whether the address space ends before a further read.
    pub closed spec fn at_end(&self) -> bool {
        self.at_end
    }

    /// Position of the first byte of the last read.
    closed spec fn origin(&self) -> int {
        if self.at_end {
            self.address.spec_offset() as int
        } else {
            self.address.spec_offset() - ITERATOR_BUFFER_SIZE
        }
    }

    /// Position of the next byte that the iterator hands out.
    pub closed spec fn position(&self) -> int {
        self.origin() + self.buffer_head
    }

    /// Whether the bytes read and not yet handed out are those that the
    /// memory holds in their places, as far as `contents` says what the
    /// memory holds.
    pub open spec fn agrees(&self, contents: Option<(nat, Seq<u8>)>) -> bool {
        match contents {
            Some(held) => self.shows(held.0, held.1),
            None => true,
        }
    }

    /// Whether the bytes read and not yet handed out are those that
    /// `memory`, whose first byte has the position `base`, holds in their
    /// places.
    pub closed spec fn shows(&self, base: nat, memory: Seq<u8>) -> bool {
        &&& self.buffer_head < ITERATOR_BUFFER_SIZE ==> base <= self.origin() && self.origin()
            + ITERATOR_BUFFER_SIZE <= base + memory.len()
        &&& forall|j: int|
            self.buffer_head <= j < ITERATOR_BUFFER_SIZE ==> #[trigger] self.buffer@[j]
                == memory[self.origin() + j - base]
    }

    /// Whether `count` more bytes are sure to come: they are read already,
    /// or they and the rest of the last piece to read lie among the bytes that
    /// the memory holds, before the end of the address space.
    pub open spec fn reaches(&self, contents: Option<(nat, Seq<u8>)>, count: nat) -> bool {
        &&& !self.errored()
        &&& count <= self.buffered().len() || {
            &&& !self.at_end()
            &&& contents matches Some((base, memory))
            &&& base <= self.position()
            &&& self.position() + count + ITERATOR_BUFFER_SIZE <= base + memory.len()
            &&& base + memory.len() <= 0x1_0000_0000
        }
    }

    #[verifier::type_invariant]
    spec fn is_consistent(self) -> bool {
        &&& self.buffer@.len() == ITERATOR_BUFFER_SIZE
        &&& self.buffer_head <= ITERATOR_BUFFER_SIZE
        &&& self.at_end || self.address.spec_offset() + self.buffer_head >= ITERATOR_BUFFER_SIZE
    }

    /// An iterator over the bytes from `address` on, which has read none
    /// yet.
    pub fn new(address: A) -> (iterator: Self)
        ensures
            !iterator.errored(),
            !iterator.at_end(),
            iterator.buffered().len() == 0,
            iterator.address() == address,
            iterator.position() == address.spec_offset(),
            forall|contents: Option<(nat, Seq<u8>)>| #[trigger] iterator.agrees(contents),
    {
        ReadIterator {
            errored: false,
            buffer: vec![0u8; 2048],
            address,
            at_end: false,
            buffer_head: ITERATOR_BUFFER_SIZE,
        }
    }

    /// The byte that the iterator hands out once the read that it asked
    /// for has brought `piece`, or has failed. With a piece, the byte is the
    /// first of the piece, the rest of the piece is kept for later, and the
    /// next read begins behind the piece, or the address space has ended.
    /// Without, there is no byte, and the iterator has ended for good.
    pub fn resume(&mut self, piece: Option<Vec<u8>>) -> (byte: Option<u8>)
        requires
            !old(self).errored(),
            !old(self).at_end(),
            old(self).buffered().len() == 0,
            piece matches Some(bytes) ==> bytes@.len() == ITERATOR_BUFFER_SIZE,
        ensures
            final(self).errored() == (piece is None),
            match piece {
                Some(bytes) => {
                    &&& byte == Some(bytes@[0])
                    &&& final(self).buffered() == bytes@.skip(1)
                    &&& final(self).position() == old(self).position() + 1
                    &&& final(self).at_end() == (old(self).address().spec_offset() > 0xFFFF_FFFF
                        - ITERATOR_BUFFER_SIZE)
                    &&& final(self).at_end() ==> final(self).address() == old(self).address()
                    &&& !final(self).at_end() ==> final(self).address().spec_offset() == old(
                        self,
                    ).address().spec_offset() + ITERATOR_BUFFER_SIZE
                    &&& forall|contents: Option<(nat, Seq<u8>)>|
                        held_at(contents, old(self).address().spec_offset(), bytes@)
                            ==> #[trigger] final(self).agrees(contents)
                },
                None => {
                    &&& byte is None
                    &&& final(self).position() == old(self).position()
                    &&& final(self).address() == old(self).address()
                    &&& final(self).at_end() == old(self).at_end()
                    &&& final(self).buffered() == old(self).buffered()
                    &&& forall|contents: Option<(nat, Seq<u8>)>|
                        old(self).agrees(contents) ==> #[trigger] final(self).agrees(contents)
                },
            },
    {
        proof {
            use_type_invariant(&*self);
        }
        match piece {
            None => {
                self.errored = true;
                None
            },
            Some(bytes) => {
                let ghost read_at = self.address.spec_offset();
                self.buffer = bytes;
                if self.address.offset() as usize <= 0xFFFF_FFFF - ITERATOR_BUFFER_SIZE {
                    self.address = self.address.forward(ITERATOR_BUFFER_SIZE);
                } else {
                    self.at_end = true;
                }
                self.buffer_head = 0;
                let byte = self.buffer[0];
                self.buffer_head = 1;
                proof {
                    assert(self.origin() == read_at);
                    assert(self.buffer@.skip(1) =~= self.buffered());
                    assert forall|contents: Option<(nat, Seq<u8>)>|
                        held_at(contents, read_at, self.buffer@) implies #[trigger] self.agrees(
                        contents,
                    ) by {
                        match contents {
                            Some((base, memory)) => {
                                assert forall|j: int|
                                    1 <= j < ITERATOR_BUFFER_SIZE implies #[trigger] self.buffer@[j]
                                    == memory[self.origin() + j - base] by {
                                    assert(self.buffer@[j] == memory.subrange(
                                        read_at - base,
                                        read_at - base + ITERATOR_BUFFER_SIZE,
                                    )[j]);
                                }
                            },
                            None => {},
                        }
                    }
                }
                Some(byte)
            },
        }
    }

    /// The next byte of `reader`. With no byte left of the last read, the
    /// iterator first reads on, and waits where the flash is busy; it hands
    /// out a byte unless that read fails or the address space has ended. Of
    /// a flash that says what it holds, the byte is the one that the flash
    /// holds at the position of the iterator, and a read of bytes that the
    /// flash holds does not fail.
    pub fn next<R: ReadWrite<Address = A>>(&mut self, reader: &mut R) -> (byte: Option<u8>)
        requires
            old(reader).inv(),
        ensures
            final(reader).inv(),
            final(reader).contents() == old(reader).contents(),
            old(self).errored() ==> byte is None && *final(self) == *old(self),
            old(self).errored() || old(self).buffered().len() > 0 || old(self).at_end()
                ==> *final(reader) == *old(reader),
            final(self).errored() == (byte is None),
            0 <= old(self).position(),
            byte is Some ==> final(self).position() == old(self).position() + 1,
            byte is None ==> final(self).position() == old(self).position(),
            old(self).agrees(old(reader).contents()) ==> {
                &&& final(self).agrees(old(reader).contents())
                &&& byte matches Some(value) ==> held_at(
                    old(reader).contents(),
                    old(self).position() as nat,
                    seq![value],
                )
            },
            !old(self).errored() && old(self).buffered().len() > 0 ==> {
                &&& byte == Some(old(self).buffered()[0])
                &&& final(self).buffered() == old(self).buffered().skip(1)
                &&& final(self).address() == old(self).address()
                &&& final(self).at_end() == old(self).at_end()
            },
            !old(self).errored() && old(self).buffered().len() == 0 && byte is Some ==> {
                &&& !old(self).at_end()
                &&& final(self).buffered().len() == ITERATOR_BUFFER_SIZE - 1
                &&& final(self).at_end() == (old(self).address().spec_offset() > 0xFFFF_FFFF
                    - ITERATOR_BUFFER_SIZE)
                &&& !final(self).at_end() ==> final(self).address().spec_offset() == old(
                    self,
                ).address().spec_offset() + ITERATOR_BUFFER_SIZE
            },
            !old(self).at_end() ==> old(self).position() + old(self).buffered().len() == old(
                self,
            ).address().spec_offset(),
            !old(self).errored() && !old(self).at_end() && old(self).buffered().len() == 0
                && lies_in(
                old(reader).contents(),
                old(self).address().spec_offset(),
                ITERATOR_BUFFER_SIZE as nat,
            ) ==> byte is Some,
    {
        proof {
            use_type_invariant(&*self);
        }
        let ghost contents = reader.contents();
        if self.errored {
            return None;
        }
        if self.buffer_head == ITERATOR_BUFFER_SIZE {
            if self.at_end {
                self.errored = true;
                return None;
            }
            let mut buffer: Vec<u8> = vec![0u8; 2048];
            let mut failed = false;
            loop
                invariant_except_break
                    reader.inv(),
                    !failed,
                invariant
                    reader.contents() == contents,
                    contents == old(reader).contents(),
                    buffer@.len() == ITERATOR_BUFFER_SIZE,
                    *self == *old(self),
                    self.buffer_head == ITERATOR_BUFFER_SIZE,
                    !self.errored,
                    !self.at_end,
                ensures
                    reader.inv(),
                    buffer@.len() == ITERATOR_BUFFER_SIZE,
                    !failed ==> held_at(contents, self.address.spec_offset(), buffer@),
                    failed ==> !lies_in(
                        contents,
                        self.address.spec_offset(),
                        ITERATOR_BUFFER_SIZE as nat,
                    ),
                decreases reader.patience(),
            {
                match reader.read(self.address, buffer.as_mut_slice()) {
                    Ok(()) => {
                        break ;
                    },
                    Err(nb::Error::WouldBlock) => {},
                    Err(nb::Error::Other(_)) => {
                        failed = true;
                        break ;
                    },
                }
            }
            let ghost read_at = self.address.spec_offset();
            let ghost bytes = buffer@;
            let piece = if failed {
                None
            } else {
                Some(buffer)
            };
            let byte = self.resume(piece);
            proof {
                assert(old(self).position() == read_at);
                if failed {
                    if old(self).agrees(contents) {
                        assert(self.agrees(contents));
                    }
                } else {
                    assert(self.agrees(contents));
                    match contents {
                        Some((base, memory)) => {
                            assert(bytes[0] == memory.subrange(
                                read_at - base,
                                read_at - base + ITERATOR_BUFFER_SIZE,
                            )[0]);
                            assert(seq![bytes[0]] =~= memory.subrange(
                                read_at - base,
                                read_at - base + 1,
                            ));
                        },
                        None => {},
                    }
                }
            }
            return byte;
        }
        let byte = self.buffer[self.buffer_head];
        proof {
            assert(self.buffer@.skip(self.buffer_head as int).skip(1) =~= self.buffer@.skip(
                self.buffer_head + 1,
            ));
            match contents {
                Some((base, memory)) => {
                    if old(self).agrees(contents) {
                        assert(self.shows(base, memory));
                        assert(self.buffer@[self.buffer_head as int] == memory[self.position()
                            - base]);
                        assert(seq![byte] =~= memory.subrange(
                            self.position() - base,
                            self.position() - base + 1,
                        ));
                    }
                },
                None => {},
            }
        }
        self.buffer_head += 1;
        Some(byte)
    }

    /// The next `count` bytes of `reader`, or as many as there are before a
    /// read fails. Of a flash that says what it holds, the bytes are those
    /// that the flash holds from the position of the iterator on, and all
    /// `count` of them come where the flash holds that many and a piece more.
    pub fn take<R: ReadWrite<Address = A>>(&mut self, reader: &mut R, count: usize) -> (bytes:
        Vec<u8>)
        requires
            old(reader).inv(),
        ensures
            final(reader).inv(),
            final(reader).contents() == old(reader).contents(),
            bytes@.len() <= count,
            bytes@.len() < count ==> final(self).errored(),
            old(self).reaches(old(reader).contents(), count as nat) ==> bytes@.len() == count,
            0 <= old(self).position(),
            final(self).position() == old(self).position() + bytes@.len(),
            old(self).agrees(old(reader).contents()) ==> {
                &&& final(self).agrees(old(reader).contents())
                &&& bytes@.len() > 0 ==> held_at(
                    old(reader).contents(),
                    old(self).position() as nat,
                    bytes@,
                )
            },
    {
        let ghost contents = reader.contents();
        let ghost start = self.position();
        proof {
            use_type_invariant(&*self);
        }
        let mut bytes: Vec<u8> = Vec::new();
        while bytes.len() < count
            invariant
                reader.inv(),
                reader.contents() == contents,
                contents == old(reader).contents(),
                start == old(self).position(),
                0 <= start,
                bytes@.len() <= count,
                self.position() == start + bytes@.len(),
                old(self).agrees(contents) ==> {
                    &&& self.agrees(contents)
                    &&& bytes@.len() > 0 ==> held_at(contents, start as nat, bytes@)
                },
                old(self).reaches(contents, count as nat) ==> self.reaches(
                    contents,
                    (count - bytes@.len()) as nat,
                ),
            decreases count - bytes@.len(),
        {
            let ghost so_far = bytes@;
            match self.next(reader) {
                Some(byte) => {
                    bytes.push(byte);
                    proof {
                        match contents {
                            Some((base, memory)) => {
                                if old(self).agrees(contents) {
                                    let place = start + so_far.len() - base;
                                    assert(seq![byte] == memory.subrange(place, place + 1));
                                    assert(seq![byte][0] == byte);
                                    assert(memory.subrange(place, place + 1)[0] == memory[place]);
                                    assert forall|i: int| 0 <= i < bytes@.len() implies bytes@[i]
                                        == memory[start - base + i] by {
                                        if i < so_far.len() {
                                            assert(bytes@[i] == so_far[i]);
                                            assert(so_far == memory.subrange(
                                                start - base,
                                                start - base + so_far.len(),
                                            ));
                                        }
                                    }
                                    assert(bytes@ =~= memory.subrange(
                                        start - base,
                                        start - base + bytes@.len(),
                                    ));
                                }
                            },
                            None => {},
                        }
                    }
                },
                None => {
                    return bytes;
                },
            }
        }
        bytes
    }
}

} // verus!
