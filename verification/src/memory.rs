//! The bytes read from a mapping and which of them could be read; the
//! block-by-block copy that gives up on a block at its first unreadable
//! byte; the choice of the block size.

use vstd::prelude::*;
use crate::error::AppError;

verus! {

/// The page size used when the system reports none that is usable.
pub const FALLBACK_PAGE_SIZE: usize = 4096;

/// The number of `true` entries.
pub open spec fn count_true(s: Seq<bool>) -> nat
    decreases s.len(),
{
    if s.len() == 0 {
        0
    } else {
        count_true(s.drop_last()) + if s.last() {
            1nat
        } else {
            0nat
        }
    }
}

/// There are at most as many `true` entries as entries.
pub proof fn lemma_count_true_bound(s: Seq<bool>)
    ensures
        count_true(s) <= s.len(),
    decreases s.len(),
{
    if s.len() > 0 {
        lemma_count_true_bound(s.drop_last());
    }
}

/// A sequence of `true` entries only counts its length.
pub proof fn lemma_count_all_true(s: Seq<bool>)
    requires
        forall|i: int| 0 <= i < s.len() ==> s[i],
    ensures
        count_true(s) == s.len(),
    decreases s.len(),
{
    if s.len() > 0 {
        lemma_count_all_true(s.drop_last());
    }
}

/// The contents of a mapping as read: the bytes, which of them could be
/// read, and how many could.
#[derive(Debug)]
pub struct Dump {
    pub bytes: Vec<u8>,
    pub readable: Vec<bool>,
    pub readable_count: usize,
}

/// Whether `bytes`, with the flags `readable`, are what was read of
/// `source`: they cover it, hold its bytes where marked readable and zero
/// elsewhere.
pub open spec fn read_from(bytes: Seq<u8>, readable: Seq<bool>, source: Seq<u8>) -> bool {
    &&& bytes.len() == source.len()
    &&& readable.len() == source.len()
    &&& forall|i: int|
        0 <= i < source.len() ==> if readable[i] {
            bytes[i] == source[i]
        } else {
            bytes[i] == 0
        }
}

impl Dump {
    /// Whether the flags cover the bytes and the count counts the readable
    /// bytes.
    pub open spec fn wf(&self) -> bool {
        &&& self.readable@.len() == self.bytes@.len()
        &&& self.readable_count == count_true(self.readable@)
    }

    /// A dump in which every byte could be read.
    pub fn complete(bytes: Vec<u8>) -> (d: Dump)
        ensures
            d.wf(),
            d.bytes@ == bytes@,
            forall|i: int| 0 <= i < d.readable@.len() ==> d.readable@[i],
            d.readable_count == bytes@.len(),
            read_from(d.bytes@, d.readable@, bytes@),
    {
        let readable_count = bytes.len();
        let readable = vec![true; bytes.len()];
        proof {
            lemma_count_all_true(readable@);
        }
        Dump { bytes, readable, readable_count }
    }

    /// The number of bytes that could not be read.
    pub fn unreadable_count(&self) -> (n: usize)
        requires
            self.readable_count <= self.bytes@.len(),
        ensures
            n == self.bytes@.len() - self.readable_count,
    {
        self.bytes.len() - self.readable_count
    }
}

/// The block size for a page size that the system reports: the reported
/// size when it is a power of two of at least 4096 bytes, else 4096.
pub fn page_size_from(reported: usize) -> (size: usize)
    ensures
        size == if crate::elf::is_pow2(reported as nat) && reported >= FALLBACK_PAGE_SIZE {
            reported
        } else {
            FALLBACK_PAGE_SIZE
        },
        size >= FALLBACK_PAGE_SIZE,
        crate::elf::is_pow2(size as nat),
{
    proof {
        reveal_with_fuel(crate::elf::is_pow2, 14);
    }
    if crate::elf::is_power_of_two(reported as u64) && reported >= FALLBACK_PAGE_SIZE {
        reported
    } else {
        FALLBACK_PAGE_SIZE
    }
}

/// What follows a guarded copy of the current request.
#[derive(Clone, Copy, Debug, PartialEq, Eq, Structural)]
pub enum CopyAction {
    /// Take this many copied bytes (at least one).
    Receive(usize),
    /// Ask for the same bytes again: the copy was interrupted.
    Retry,
    /// Give up on the rest of the block: its bytes are unreadable, or
    /// nothing more could be copied.
    SkipBlock,
    /// Stop: the copy failed for another reason.
    Fail,
}

/// The action for what a guarded copy returned: the number of bytes
/// copied, or a negative value with whether the failure was an interruption
/// and whether it was a fault at an unreadable address.
pub fn copy_action(copied: isize, interrupted: bool, fault: bool) -> (a: CopyAction)
    ensures
        a == if copied < 0 {
            if interrupted {
                CopyAction::Retry
            } else if fault {
                CopyAction::SkipBlock
            } else {
                CopyAction::Fail
            }
        } else if copied == 0 {
            CopyAction::SkipBlock
        } else {
            CopyAction::Receive(copied as usize)
        },
{
    if copied < 0 {
        if interrupted {
            CopyAction::Retry
        } else if fault {
            CopyAction::SkipBlock
        } else {
            CopyAction::Fail
        }
    } else if copied == 0 {
        CopyAction::SkipBlock
    } else {
        CopyAction::Receive(copied as usize)
    }
}

/// A copy of a mapping, block by block, through a guarded kernel copy that
/// reports a fault at an unreadable page: what has been copied so far, the
/// current position and the end of the current block.
#[derive(Debug)]
pub struct KernelCopy {
    pub bytes: Vec<u8>,
    pub readable: Vec<bool>,
    pub readable_count: usize,
    pub block_size: usize,
    pub offset: usize,
    pub block_end: usize,
}

impl KernelCopy {
    /// Whether the state is consistent: flags cover the bytes, the count
    /// counts them, nothing at or after the position is marked, unmarked
    /// bytes are zero, and the position lies in the current block.
    pub open spec fn wf(&self) -> bool {
        &&& self.readable@.len() == self.bytes@.len()
        &&& self.readable_count == count_true(self.readable@)
        &&& self.block_size > 0
        &&& self.offset <= self.block_end <= self.bytes@.len()
        &&& forall|i: int| self.offset <= i < self.readable@.len() ==> !self.readable@[i]
        &&& forall|i: int| 0 <= i < self.bytes@.len() && !self.readable@[i] ==> self.bytes@[i] == 0
    }

    /// A copy of `len` bytes in blocks of `block_size` bytes, with nothing
    /// copied yet.
    pub fn new(len: usize, block_size: usize) -> (c: KernelCopy)
        requires
            block_size > 0,
        ensures
            c.wf(),
            c.bytes@.len() == len,
            c.readable_count == 0,
            c.offset == 0,
            c.block_end == if block_size < len { block_size } else { len },
            c.block_size == block_size,
            forall|source: Seq<u8>| source.len() == len ==> #[trigger] read_from(c.bytes@, c.readable@, source),
    {
        let bytes = vec![0u8; len];
        let readable = vec![false; len];
        proof {
            lemma_count_none(readable@);
        }
        assert forall|source: Seq<u8>| source.len() == len implies #[trigger] read_from(bytes@, readable@, source) by {
            assert forall|i: int| 0 <= i < source.len() implies !readable@[i] && bytes@[i] == 0 by {}
        }
        KernelCopy {
            bytes,
            readable,
            readable_count: 0,
            block_size,
            offset: 0,
            block_end: if block_size < len {
                block_size
            } else {
                len
            },
        }
    }

    /// The next bytes to copy, as their position and number: the rest of
    /// the current block, or the next block once the current one is done;
    /// nothing once every block is done.
    pub fn next_request(&mut self) -> (r: Option<(usize, usize)>)
        requires
            old(self).wf(),
        ensures
            final(self).wf(),
            final(self).bytes@ == old(self).bytes@,
            final(self).readable@ == old(self).readable@,
            final(self).readable_count == old(self).readable_count,
            final(self).block_size == old(self).block_size,
            old(self).offset < old(self).block_end ==> final(self).offset == old(self).offset
                && final(self).block_end == old(self).block_end,
            old(self).offset == old(self).block_end && old(self).block_end < old(self).bytes@.len()
                ==> final(self).offset == old(self).block_end && final(self).block_end == if old(
                self,
            ).block_end + old(self).block_size < old(self).bytes@.len() {
                old(self).block_end + old(self).block_size
            } else {
                old(self).bytes@.len() as int
            },
            old(self).offset == old(self).block_end && old(self).block_end == old(self).bytes@.len() ==> r is None,
            match r {
                Some((offset, count)) => offset == final(self).offset && count == final(self).block_end
                    - final(self).offset && count > 0,
                None => final(self).offset == final(self).bytes@.len() && old(self).offset == old(self).block_end,
            },
    {
        let len = self.bytes.len();
        if self.offset == self.block_end {
            if self.block_end == len {
                return None;
            }
            self.offset = self.block_end;
            self.block_end = if self.block_size < len - self.block_end {
                self.block_end + self.block_size
            } else {
                len
            };
        }
        Some((self.offset, self.block_end - self.offset))
    }

    /// Takes the bytes that a copy of the current request delivered: they
    /// are stored and marked readable, and the position moves past them.
    pub fn record_copied(&mut self, data: &[u8])
        requires
            old(self).wf(),
            0 < data@.len() <= old(self).block_end - old(self).offset,
        ensures
            final(self).wf(),
            final(self).offset == old(self).offset + data@.len(),
            final(self).block_end == old(self).block_end,
            final(self).block_size == old(self).block_size,
            final(self).readable_count == old(self).readable_count + data@.len(),
            final(self).bytes@ == old(self).bytes@.subrange(0, old(self).offset as int) + data@
                + old(self).bytes@.subrange(old(self).offset + data@.len(), old(self).bytes@.len() as int),
            final(self).readable@ == old(self).readable@.subrange(0, old(self).offset as int) + Seq::new(
                data@.len(),
                |_i: int| true,
            ) + old(self).readable@.subrange(old(self).offset + data@.len(), old(self).readable@.len() as int),
            forall|source: Seq<u8>|
                read_from(old(self).bytes@, old(self).readable@, source) && data@ == source.subrange(
                    old(self).offset as int,
                    old(self).offset + data@.len(),
                ) ==> #[trigger] read_from(final(self).bytes@, final(self).readable@, source),
    {
        let n = data.len();
        let start = self.offset;
        let total = self.readable.len();
        let ghost before = *self;
        let mut i: usize = 0;
        while i < n
            invariant
                i <= n,
                n == data@.len(),
                start == before.offset,
                start + n <= before.block_end,
                before.wf(),
                self.block_size == before.block_size,
                self.block_end == before.block_end,
                self.offset == start + i,
                self.readable@.len() == before.readable@.len(),
                total == self.readable@.len(),
                self.bytes@.len() == before.bytes@.len(),
                self.readable_count == before.readable_count + i,
                self.readable_count == count_true(self.readable@),
                forall|j: int| 0 <= j < start ==> self.readable@[j] == before.readable@[j],
                forall|j: int| start <= j < start + i ==> self.readable@[j],
                forall|j: int| start + i <= j < self.readable@.len() ==> !self.readable@[j],
                self.bytes@ == before.bytes@.subrange(0, start as int) + data@.take(i as int)
                    + before.bytes@.subrange(start + i, before.bytes@.len() as int),
            decreases n - i,
        {
            let ghost flags = self.readable@;
            self.bytes.set(start + i, data[i]);
            self.readable.set(start + i, true);
            proof {
                lemma_count_set_true(flags, (start + i) as int);
                lemma_count_true_bound(self.readable@);
            }
            self.readable_count = self.readable_count + 1;
            i = i + 1;
            self.offset = start + i;
            assert(self.bytes@ =~= before.bytes@.subrange(0, start as int) + data@.take(i as int)
                + before.bytes@.subrange(start + i, before.bytes@.len() as int));
        }
        assert(data@.take(n as int) =~= data@);
        assert(self.readable@ =~= before.readable@.subrange(0, start as int) + Seq::new(n as nat, |_i: int| true)
            + before.readable@.subrange(start + n, before.readable@.len() as int));
        assert forall|source: Seq<u8>|
            read_from(before.bytes@, before.readable@, source) && data@ == source.subrange(
                start as int,
                start + n,
            ) implies #[trigger] read_from(self.bytes@, self.readable@, source) by {
            assert forall|j: int| 0 <= j < source.len() implies if self.readable@[j] {
                self.bytes@[j] == source[j]
            } else {
                self.bytes@[j] == 0
            } by {
                if j < start {
                    assert(self.bytes@[j] == before.bytes@[j]);
                } else if j < start + n {
                    assert(self.bytes@[j] == data@[j - start]);
                    assert(source.subrange(start as int, start + n)[j - start] == source[j]);
                } else {
                    assert(self.bytes@[j] == before.bytes@[j]);
                }
            }
        }
        assert forall|j: int| 0 <= j < self.bytes@.len() && !self.readable@[j] implies self.bytes@[j] == 0 by {
            if j < start {
                assert(self.bytes@[j] == before.bytes@[j]);
            } else if j >= start + n {
                assert(self.bytes@[j] == before.bytes@[j]);
                assert(!before.readable@[j]);
            }
        }
    }

    /// Gives up on the rest of the current block: it was reported
    /// unreadable, or nothing more could be copied from it.
    pub fn skip_block(&mut self)
        requires
            old(self).wf(),
        ensures
            final(self).wf(),
            final(self).offset == old(self).block_end,
            final(self).block_end == old(self).block_end,
            final(self).block_size == old(self).block_size,
            final(self).bytes@ == old(self).bytes@,
            final(self).readable@ == old(self).readable@,
            final(self).readable_count == old(self).readable_count,
    {
        self.offset = self.block_end;
    }

    /// The dump of what was copied.
    pub fn finish(self) -> (d: Dump)
        requires
            self.wf(),
        ensures
            d.wf(),
            d.bytes@ == self.bytes@,
            d.readable@ == self.readable@,
            d.readable_count == self.readable_count,
            forall|i: int| 0 <= i < d.bytes@.len() && !d.readable@[i] ==> d.bytes@[i] == 0,
    {
        Dump { bytes: self.bytes, readable: self.readable, readable_count: self.readable_count }
    }
}

/// What a guarded copy of a request delivered.
#[derive(Debug)]
pub enum CopyReport {
    /// These bytes from the start of the request: at least one, at most
    /// as many as were asked for.
    Copied(Vec<u8>),
    /// Nothing more can be copied from the rest of the block: its next byte
    /// is unreadable, or the copy delivered nothing.
    Stopped,
}

/// Whether a request for `count` bytes at `address` is one that a copy of
/// the mapping from `start` to `end` in blocks of `block_size` bytes makes:
/// at least one byte, at most a block, within the mapping.
pub open spec fn in_request(start: usize, end: usize, block_size: usize, address: usize, count: usize) -> bool {
    start <= address && address + count <= end && 0 < count <= block_size
}

/// Whether every report that `copy` can give for a request at an address
/// of the mapping at `start` delivers the bytes of `source` there.
pub open spec fn delivers_from<F: FnMut(usize, usize) -> Result<CopyReport, AppError>>(
    copy: F,
    start: usize,
    source: Seq<u8>,
) -> bool {
    forall|address: usize, count: usize, report: Result<CopyReport, AppError>|
        #![trigger call_ensures(copy, (address, count), report)]
        call_ensures(copy, (address, count), report) && start <= address ==> (report matches Ok(
            CopyReport::Copied(data),
        ) ==> data@ == source.subrange(address - start, address - start + data@.len()))
}

/// Whether every report that `copy` can give for a request of the copy
/// delivers at least one and at most the requested number of bytes when it
/// delivers any.
pub open spec fn copies_within<F: FnMut(usize, usize) -> Result<CopyReport, AppError>>(
    copy: F,
    start: usize,
    end: usize,
    block_size: usize,
) -> bool {
    forall|address: usize, count: usize, report: Result<CopyReport, AppError>|
        #![trigger call_ensures(copy, (address, count), report)]
        call_ensures(copy, (address, count), report) && in_request(start, end, block_size, address, count) ==> (
        report matches Ok(CopyReport::Copied(data)) ==> 0 < data@.len() <= count)
}

/// Whether `copy` can fail on a request of the copy.
pub open spec fn may_fail<F: FnMut(usize, usize) -> Result<CopyReport, AppError>>(
    copy: F,
    start: usize,
    end: usize,
    block_size: usize,
) -> bool {
    exists|address: usize, count: usize, report: Result<CopyReport, AppError>|
        #![trigger call_ensures(copy, (address, count), report)]
        call_ensures(copy, (address, count), report) && in_request(start, end, block_size, address, count)
            && report is Err
}

/// Whether `error` is an error that `copy` can give on a request of the
/// copy.
pub open spec fn fails_with<F: FnMut(usize, usize) -> Result<CopyReport, AppError>>(
    copy: F,
    start: usize,
    end: usize,
    block_size: usize,
    error: AppError,
) -> bool {
    exists|address: usize, count: usize|
        #![trigger call_ensures(copy, (address, count), Err::<CopyReport, AppError>(error))]
        call_ensures(copy, (address, count), Err::<CopyReport, AppError>(error)) && in_request(
            start,
            end,
            block_size,
            address,
            count,
        )
}

/// Whether `copy` delivers the byte at position `index` of the mapping
/// whenever a request of the copy covers it: every report it can give for
/// such a request is a copy that reaches past that byte.
pub open spec fn copies_byte<F: FnMut(usize, usize) -> Result<CopyReport, AppError>>(
    copy: F,
    start: usize,
    end: usize,
    block_size: usize,
    index: int,
) -> bool {
    forall|address: usize, count: usize, report: Result<CopyReport, AppError>|
        #![trigger call_ensures(copy, (address, count), report)]
        call_ensures(copy, (address, count), report) && in_request(start, end, block_size, address, count)
            && address <= start + index < address + count ==> (report matches Ok(CopyReport::Copied(data))
            && start + index < address + data@.len())
}

/// Reads the bytes of the mapping from `start` to `end` block by block
/// through `copy`, which performs a guarded copy of `count` bytes at an
/// address. Each block is asked for from its start; a copy's bytes are
/// kept and marked readable and the rest of the block is asked for next,
/// until the block is done or `copy` stops, which leaves the rest of the
/// block zero and unreadable. So whatever memory `copy` reads, the dump
/// holds it where marked readable and zero elsewhere, and every byte that
/// `copy` delivers whenever it is asked for is marked readable. The first
/// error of `copy` ends the read; without one the read succeeds.
pub fn copy_mapping<F: FnMut(usize, usize) -> Result<CopyReport, AppError>>(
    start: usize,
    end: usize,
    block_size: usize,
    copy: &mut F,
) -> (r: Result<Dump, AppError>)
    requires
        start <= end,
        block_size > 0,
        forall|address: usize, count: usize|
            in_request(start, end, block_size, address, count) ==> call_requires(*old(copy), (address, count)),
        copies_within(*old(copy), start, end, block_size),
    ensures
        match r {
            Ok(d) => {
                &&& d.wf()
                &&& d.bytes@.len() == end - start
                &&& forall|source: Seq<u8>|
                    source.len() == end - start && delivers_from(*old(copy), start, source) ==> #[trigger] read_from(
                        d.bytes@,
                        d.readable@,
                        source,
                    )
                &&& forall|i: int|
                    0 <= i < end - start && #[trigger] copies_byte(*old(copy), start, end, block_size, i)
                        ==> d.readable@[i]
            },
            Err(e) => fails_with(*old(copy), start, end, block_size, e),
        },
        !may_fail(*old(copy), start, end, block_size) ==> r is Ok,
        start == end ==> (r matches Ok(d) && d.bytes@.len() == 0),
{
    let ghost f = *copy;
    let len = end - start;
    let mut state = KernelCopy::new(len, block_size);
    loop
        invariant
            state.wf(),
            state.bytes@.len() == len,
            len == end - start,
            start <= end,
            state.block_size == block_size,
            state.block_end - state.offset <= block_size,
            *copy == f,
            f == *old(copy),
            forall|address: usize, count: usize|
                in_request(start, end, block_size, address, count) ==> call_requires(f, (address, count)),
            copies_within(f, start, end, block_size),
            forall|source: Seq<u8>|
                source.len() == len && delivers_from(f, start, source) ==> #[trigger] read_from(
                    state.bytes@,
                    state.readable@,
                    source,
                ),
            forall|i: int|
                0 <= i < state.offset && #[trigger] copies_byte(f, start, end, block_size, i) ==> state.readable@[i],
        ensures
            state.wf(),
            state.bytes@.len() == len,
            state.offset == len,
            forall|source: Seq<u8>|
                source.len() == len && delivers_from(f, start, source) ==> #[trigger] read_from(
                    state.bytes@,
                    state.readable@,
                    source,
                ),
            forall|i: int|
                0 <= i < state.offset && #[trigger] copies_byte(f, start, end, block_size, i) ==> state.readable@[i],
        decreases len - state.offset,
    {
        let (offset, count) = match state.next_request() {
            Some(request) => request,
            None => break,
        };
        let address = start + offset;
        proof {
            broadcast use vstd::function::group_function_axioms;
            assert(in_request(start, end, block_size, address, count));
            assert(call_requires(f, (address, count)));
        }
        let report = copy(address, count);
        proof {
            broadcast use vstd::function::group_function_axioms;
            assert(call_ensures(f, (address, count), report));
        }
        match report {
            Err(e) => {
                assert(fails_with(f, start, end, block_size, e));
                return Err(e);
            },
            Ok(CopyReport::Stopped) => {
                let ghost before = state;
                state.skip_block();
                assert forall|i: int|
                    0 <= i < state.offset && #[trigger] copies_byte(f, start, end, block_size, i) implies state.readable@[i] by {
                    if i >= before.offset {
                        assert(address <= start + i < address + count);
                    }
                }
            },
            Ok(CopyReport::Copied(data)) => {
                let ghost before = state;
                state.record_copied(data.as_slice());
                assert forall|i: int|
                    0 <= i < state.offset && #[trigger] copies_byte(f, start, end, block_size, i) implies state.readable@[i] by {
                    if i < before.offset {
                        assert(state.readable@[i] == before.readable@[i]);
                    } else {
                        assert(state.readable@[i] == Seq::new(data@.len(), |_i: int| true)[i - before.offset]);
                    }
                }
            },
        }
    }
    Ok(state.finish())
}

proof fn lemma_count_none(s: Seq<bool>)
    requires
        forall|i: int| 0 <= i < s.len() ==> !s[i],
    ensures
        count_true(s) == 0,
    decreases s.len(),
{
    if s.len() > 0 {
        lemma_count_none(s.drop_last());
    }
}

/// Marking an unmarked entry adds one to the count.
pub proof fn lemma_count_set_true(s: Seq<bool>, k: int)
    requires
        0 <= k < s.len(),
        !s[k],
    ensures
        count_true(s.update(k, true)) == count_true(s) + 1,
    decreases s.len(),
{
    let t = s.update(k, true);
    if k == s.len() - 1 {
        assert(t.drop_last() =~= s.drop_last());
    } else {
        assert(t.drop_last() =~= s.drop_last().update(k, true));
        lemma_count_set_true(s.drop_last(), k);
    }
}

} // verus!
