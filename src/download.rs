//! Accounting and buffer rotation for streaming a download to the device.

use vstd::prelude::*;
use crate::client::NusbFastBootError;

verus! {

/// Bytes a transfer buffer aims for before it is rounded up to whole packets.
pub const BUFFER_TARGET: usize = 1024 * 1024;

/// Transfers that may be in flight at once.
pub const MAX_PENDING: usize = 3;

/// Error during data download
#[derive(Clone, Debug, PartialEq, Eq)]
pub enum DownloadError {
    NothingQueued,
    /// More or less data than the device was told to expect; `actual` counts
    /// what was handed over, the refused call included.
    IncorrectDataLength { actual: u64, expected: u32 },
    Nusb(NusbFastBootError),
}

/// The smallest multiple of `max_out` that is at least `BUFFER_TARGET`.
pub open spec fn spec_buffer_capacity(max_out: int) -> int {
    let t = BUFFER_TARGET as int;
    if t % max_out == 0 {
        t
    } else {
        t + max_out - t % max_out
    }
}

/// State of a download: how much is promised and left, the buffer being
/// filled, and how many filled buffers are in flight.
pub struct DataDownload {
    size: u32,
    left: u32,
    max_out: usize,
    capacity: usize,
    current: Vec<u8>,
    pending: usize,
}

/// Result of refusing or accepting `n` more bytes when `left` remain of `size`.
pub open spec fn spec_update_size(size: u32, left: u32, n: u32) -> Result<u32, DownloadError> {
    if n > left {
        Err(DownloadError::IncorrectDataLength { actual: (size - left + n) as u64, expected: size })
    } else {
        Ok((left - n) as u32)
    }
}

impl DataDownload {
    /// Capacity of each transfer buffer: about a megabyte, in whole packets.
    pub fn allocate_buffer(max_out: usize) -> (r: usize)
        requires
            max_out > 0,
            BUFFER_TARGET + max_out <= usize::MAX,
        ensures
            r == spec_buffer_capacity(max_out as int),
            r % max_out == 0,
            BUFFER_TARGET <= r < BUFFER_TARGET + max_out,
    {
        let rem = BUFFER_TARGET % max_out;
        proof {
            let (t, m) = (BUFFER_TARGET as int, max_out as int);
            assert(t == m * (t / m) + t % m) by (nonlinear_arith)
                requires m > 0;
            assert(t + m - t % m == m * (t / m + 1)) by (nonlinear_arith)
                requires m > 0, t == m * (t / m) + t % m;
            assert((m * (t / m + 1)) % m == 0) by (nonlinear_arith)
                requires m > 0;
        }
        if rem == 0 {
            BUFFER_TARGET
        } else {
            BUFFER_TARGET + max_out - rem
        }
    }

    pub closed spec fn spec_size(&self) -> u32 {
        self.size
    }

    pub closed spec fn spec_left(&self) -> u32 {
        self.left
    }

    pub closed spec fn spec_max_out(&self) -> usize {
        self.max_out
    }

    pub closed spec fn spec_capacity(&self) -> usize {
        self.capacity
    }

    /// Bytes held in the buffer being filled.
    pub closed spec fn spec_current(&self) -> Seq<u8> {
        self.current@
    }

    pub closed spec fn spec_pending(&self) -> usize {
        self.pending
    }

    pub closed spec fn wf(&self) -> bool {
        &&& self.left <= self.size
        &&& self.max_out > 0
        &&& self.capacity > 0
        &&& self.capacity <= u32::MAX
        &&& self.capacity % self.max_out == 0
        &&& self.current@.len() <= self.capacity
        &&& self.pending <= MAX_PENDING
    }

    /// Starts a download of `size` bytes over an endpoint whose packets hold
    /// `max_out` bytes.
    pub fn new(size: u32, max_out: usize) -> (r: DataDownload)
        requires
            max_out > 0,
            BUFFER_TARGET + max_out <= u32::MAX,
        ensures
            r.wf(),
            r.spec_size() == size,
            r.spec_left() == size,
            r.spec_max_out() == max_out,
            r.spec_capacity() == spec_buffer_capacity(max_out as int),
            r.spec_current().len() == 0,
            r.spec_pending() == 0,
    {
        let capacity = Self::allocate_buffer(max_out);
        DataDownload { size, left: size, max_out, capacity, current: Vec::new(), pending: 0 }
    }

    /// Total size of the data transfer
    pub fn size(&self) -> (r: u32)
        ensures
            r == self.spec_size(),
    {
        self.size
    }

    /// Data left to be sent/queued
    pub fn left(&self) -> (r: u32)
        ensures
            r == self.spec_left(),
    {
        self.left
    }

    /// Transfers handed to the device and not yet completed.
    pub fn pending(&self) -> (r: usize)
        ensures
            r == self.spec_pending(),
    {
        self.pending
    }

    /// Whether the buffer being filled has no room left.
    pub fn is_full(&self) -> (r: bool)
        ensures
            r == (self.spec_current().len() == self.spec_capacity()),
    {
        self.current.len() == self.capacity
    }

    /// Counts `n` more bytes against what is left, refusing an overrun.
    pub fn update_size(&mut self, n: u32) -> (r: Result<(), DownloadError>)
        requires
            old(self).wf(),
        ensures
            final(self).wf(),
            spec_update_size(old(self).spec_size(), old(self).spec_left(), n) is Ok ==> r is Ok
                && final(self).spec_left() == spec_update_size(old(self).spec_size(), old(self).spec_left(), n)->Ok_0,
            spec_update_size(old(self).spec_size(), old(self).spec_left(), n) is Err ==> r
                == Err::<(), DownloadError>(spec_update_size(old(self).spec_size(), old(self).spec_left(), n)->Err_0)
                && final(self).spec_left() == old(self).spec_left(),
            final(self).spec_size() == old(self).spec_size(),
            final(self).spec_capacity() == old(self).spec_capacity(),
            final(self).spec_max_out() == old(self).spec_max_out(),
            final(self).spec_current() == old(self).spec_current(),
            final(self).spec_pending() == old(self).spec_pending(),
    {
        if n > self.left {
            return Err(
                DownloadError::IncorrectDataLength {
                    actual: (self.size - self.left) as u64 + n as u64,
                    expected: self.size,
                },
            );
        }
        self.left = self.left - n;
        Ok(())
    }

    /// Copies from `data[from..]` into the buffer being filled, as much as it
    /// has room for, and returns the position in `data` reached.
    pub fn fill(&mut self, data: &[u8], from: usize) -> (r: usize)
        requires
            old(self).wf(),
            from <= data@.len(),
        ensures
            final(self).wf(),
            r == from + vstd::math::min(data@.len() - from, old(self).spec_capacity() - old(self).spec_current().len()),
            final(self).spec_current() == old(self).spec_current() + data@.subrange(from as int, r as int),
            final(self).spec_size() == old(self).spec_size(),
            final(self).spec_left() == old(self).spec_left(),
            final(self).spec_capacity() == old(self).spec_capacity(),
            final(self).spec_max_out() == old(self).spec_max_out(),
            final(self).spec_pending() == old(self).spec_pending(),
    {
        let room = self.capacity - self.current.len();
        let avail = data.len() - from;
        let take = if avail < room { avail } else { room };
        let end = from + take;
        let ghost before = self.current@;
        let mut i = from;
        while i < end
            invariant
                from <= i <= end,
                end <= data@.len(),
                self.current@ == before + data@.subrange(from as int, i as int),
                self.current@.len() <= self.capacity,
                before.len() + (end - from) <= self.capacity,
                self.size == old(self).size,
                self.left == old(self).left,
                self.max_out == old(self).max_out,
                self.capacity == old(self).capacity,
                self.pending == old(self).pending,
                old(self).wf(),
            decreases end - i,
        {
            self.current.push(data[i]);
            assert(data@.subrange(from as int, i + 1) =~= data@.subrange(from as int, i as int).push(data@[i as int]));
            i = i + 1;
        }
        end
    }

    /// Makes room for up to `max` bytes at the tail of the buffer being
    /// filled, counting them against what is left; returns where they start.
    /// The caller fills them in.
    pub fn reserve(&mut self, max: usize) -> (r: Result<usize, DownloadError>)
        requires
            old(self).wf(),
            old(self).spec_current().len() < old(self).spec_capacity(),
        ensures
            final(self).wf(),
            ({
                let n = vstd::math::min(max as int, old(self).spec_capacity() - old(self).spec_current().len());
                let u = spec_update_size(old(self).spec_size(), old(self).spec_left(), n as u32);
                &&& u is Ok ==> r == Ok::<usize, DownloadError>(old(self).spec_current().len() as usize)
                    && final(self).spec_left() == u->Ok_0
                    && final(self).spec_current() == old(self).spec_current() + Seq::new(n as nat, |i: int| 0u8)
                &&& u is Err ==> r == Err::<usize, DownloadError>(u->Err_0)
                    && final(self).spec_current() == old(self).spec_current()
                    && final(self).spec_left() == old(self).spec_left()
            }),
            final(self).spec_size() == old(self).spec_size(),
            final(self).spec_capacity() == old(self).spec_capacity(),
            final(self).spec_max_out() == old(self).spec_max_out(),
            final(self).spec_pending() == old(self).spec_pending(),
    {
        let room = self.capacity - self.current.len();
        let n = if room < max { room } else { max };
        if let Err(e) = self.update_size(n as u32) {
            return Err(e);
        }
        let start = self.current.len();
        let mut i: usize = 0;
        while i < n
            invariant
                i <= n,
                start + n <= self.capacity,
                self.current@ == old(self).current@ + Seq::new(i as nat, |k: int| 0u8),
                start == old(self).current@.len(),
                self.size == old(self).size,
                self.left == spec_update_size(old(self).size, old(self).left, n as u32)->Ok_0,
                self.max_out == old(self).max_out,
                self.capacity == old(self).capacity,
                self.pending == old(self).pending,
                old(self).wf(),
            decreases n - i,
        {
            self.current.push(0);
            assert(Seq::new((i + 1) as nat, |k: int| 0u8) =~= Seq::new(i as nat, |k: int| 0u8).push(0u8));
            i = i + 1;
        }
        Ok(start)
    }

    /// The tail of the buffer being filled, from `start`, for the caller to
    /// write into.
    pub fn tail_mut(&mut self, start: usize) -> (r: &mut [u8])
        requires
            old(self).wf(),
            start <= old(self).spec_current().len(),
        ensures
            r@ == old(self).spec_current().subrange(start as int, old(self).spec_current().len() as int),
            final(self).spec_current() == old(self).spec_current().subrange(0, start as int) + final(r)@,
            final(self).spec_size() == old(self).spec_size(),
            final(self).spec_left() == old(self).spec_left(),
            final(self).spec_capacity() == old(self).spec_capacity(),
            final(self).spec_max_out() == old(self).spec_max_out(),
            final(self).spec_pending() == old(self).spec_pending(),
    {
        let all = self.current.as_mut_slice();
        let (_, tail) = all.split_at_mut(start);
        tail
    }

    /// Hands out the full buffer for submission and starts filling `next`,
    /// which must be empty: a fresh one, or a completed one emptied.
    pub fn rotate(&mut self, next: Vec<u8>) -> (r: Vec<u8>)
        requires
            old(self).wf(),
            old(self).spec_current().len() == old(self).spec_capacity(),
            old(self).spec_pending() < MAX_PENDING,
            next@.len() == 0,
        ensures
            final(self).wf(),
            r@ == old(self).spec_current(),
            (r@.len() as int) % (old(self).spec_max_out() as int) == 0,
            final(self).spec_current().len() == 0,
            final(self).spec_pending() == old(self).spec_pending() + 1,
            final(self).spec_size() == old(self).spec_size(),
            final(self).spec_left() == old(self).spec_left(),
            final(self).spec_capacity() == old(self).spec_capacity(),
            final(self).spec_max_out() == old(self).spec_max_out(),
    {
        let mut next = next;
        std::mem::swap(&mut next, &mut self.current);
        self.pending = self.pending + 1;
        next
    }

    /// Records that the oldest in-flight transfer completed.
    pub fn completed(&mut self)
        requires
            old(self).wf(),
            old(self).spec_pending() > 0,
        ensures
            final(self).wf(),
            final(self).spec_pending() == old(self).spec_pending() - 1,
            final(self).spec_current() == old(self).spec_current(),
            final(self).spec_size() == old(self).spec_size(),
            final(self).spec_left() == old(self).spec_left(),
            final(self).spec_capacity() == old(self).spec_capacity(),
            final(self).spec_max_out() == old(self).spec_max_out(),
    {
        self.pending = self.pending - 1;
    }

    /// Checks that everything promised was handed over, and takes the last,
    /// possibly short, buffer if it holds anything.
    pub fn finish(&mut self) -> (r: Result<Option<Vec<u8>>, DownloadError>)
        requires
            old(self).wf(),
        ensures
            final(self).wf(),
            old(self).spec_left() != 0 <==> r is Err,
            old(self).spec_left() != 0 ==> r == Err::<Option<Vec<u8>>, DownloadError>(
                DownloadError::IncorrectDataLength {
                    actual: (old(self).spec_size() - old(self).spec_left()) as u64,
                    expected: old(self).spec_size(),
                },
            ),
            r is Ok ==> (r->Ok_0 is Some <==> old(self).spec_current().len() > 0),
            r matches Ok(Some(b)) ==> b@ == old(self).spec_current(),
            r is Ok ==> final(self).spec_current().len() == 0,
            final(self).spec_pending() == old(self).spec_pending(),
    {
        if self.left != 0 {
            return Err(
                DownloadError::IncorrectDataLength {
                    actual: (self.size - self.left) as u64,
                    expected: self.size,
                },
            );
        }
        if self.current.len() == 0 {
            return Ok(None);
        }
        let mut last: Vec<u8> = Vec::new();
        std::mem::swap(&mut last, &mut self.current);
        Ok(Some(last))
    }
}

/// Sum of the lengths handed over.
pub open spec fn sum_lengths(ns: Seq<u32>) -> int
    decreases ns.len(),
{
    if ns.len() == 0 {
        0
    } else {
        sum_lengths(ns.drop_last()) + ns.last()
    }
}

/// Counting the lengths `ns` in turn against a download of `size` bytes:
/// what is left at the end, or the index and error of the first refusal.
pub open spec fn run_updates(size: u32, ns: Seq<u32>) -> Result<u32, (int, DownloadError)>
    decreases ns.len(),
{
    if ns.len() == 0 {
        Ok(size)
    } else {
        match run_updates(size, ns.drop_last()) {
            Ok(left) => match spec_update_size(size, left, ns.last()) {
                Ok(l) => Ok(l),
                Err(e) => Err(((ns.len() - 1) as int, e)),
            },
            Err(x) => Err(x),
        }
    }
}

/// Lengths that stay within the size are all accepted, and what is left is
/// the size less their sum; lengths that sum to the size leave nothing, so
/// the download can finish.
pub proof fn lemma_download_within_size(size: u32, ns: Seq<u32>)
    requires
        sum_lengths(ns) <= size,
    ensures
        run_updates(size, ns) == Ok::<u32, (int, DownloadError)>((size - sum_lengths(ns)) as u32),
        sum_lengths(ns) == size ==> run_updates(size, ns) == Ok::<u32, (int, DownloadError)>(0),
    decreases ns.len(),
{
    if ns.len() > 0 {
        lemma_sum_lengths_nonneg(ns.drop_last());
        lemma_download_within_size(size, ns.drop_last());
    }
}

proof fn lemma_sum_lengths_nonneg(ns: Seq<u32>)
    ensures
        sum_lengths(ns) >= 0,
    decreases ns.len(),
{
    if ns.len() > 0 {
        lemma_sum_lengths_nonneg(ns.drop_last());
    }
}

/// The call that first takes the total past the size is refused, with the
/// total handed over so far, that call included.
pub proof fn lemma_download_overrun(size: u32, ns: Seq<u32>)
    requires
        ns.len() > 0,
        sum_lengths(ns.drop_last()) <= size < sum_lengths(ns),
    ensures
        run_updates(size, ns) == Err::<u32, (int, DownloadError)>((
            (ns.len() - 1) as int,
            DownloadError::IncorrectDataLength { actual: sum_lengths(ns) as u64, expected: size },
        )),
{
    lemma_download_within_size(size, ns.drop_last());
}

} // verus!
