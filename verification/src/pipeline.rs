//! Bookkeeping of the parallel decrypt pipelines.
//!
//! A reader numbers the batches it receives `0, 1, 2, …` and hands batch `s`
//! to worker `s % W`. Each worker's queue is FIFO, so worker `k` sees the
//! batches `k, k + W, k + 2W, …` in that order. The writer reads the queues in
//! strict rotation `0, 1, …, W - 1, 0, …`; its `t`-th read is from queue
//! `t % W`, which it has then read `t / W` times before. The laws below show
//! that this read is batch `t`: the rotation restores the wire order without
//! a reorder buffer.

use vstd::prelude::*;

verus! {

/// How many of the batch numbers `0 .. n` go to queue `k` of `w`.
pub open spec fn count_on_queue(n: int, w: int, k: int) -> int
    decreases n,
{
    if n <= 0 {
        0
    } else {
        count_on_queue(n - 1, w, k) + if (n - 1) % w == k {
            1int
        } else {
            0int
        }
    }
}

/// Before batch `t`, exactly `t / w` batches went to the queue of `t`.
pub proof fn lemma_count_before(t: int, w: int)
    requires
        0 <= t,
        0 < w,
    ensures
        count_on_queue(t, w, t % w) == t / w,
    decreases t,
{
    if t >= w {
        lemma_count_before(t - w, w);
        lemma_count_shift(t - w, w, t % w);
        vstd::arithmetic::div_mod::lemma_mod_add_multiples_vanish(t - w, w);
        vstd::arithmetic::div_mod::lemma_div_plus_one(t - w, w);
    } else {
        vstd::arithmetic::div_mod::lemma_small_mod(t as nat, w as nat);
        vstd::arithmetic::div_mod::lemma_basic_div(t, w);
        lemma_count_below(t, w, t);
    }
}

/// No batch below `k` goes to queue `k` when `k < w`.
proof fn lemma_count_below(n: int, w: int, k: int)
    requires
        0 <= n <= k < w,
    ensures
        count_on_queue(n, w, k) == 0,
    decreases n,
{
    if n > 0 {
        lemma_count_below(n - 1, w, k);
        vstd::arithmetic::div_mod::lemma_small_mod((n - 1) as nat, w as nat);
    }
}

/// Any `w` consecutive batch numbers put exactly one batch on each queue.
proof fn lemma_count_shift(n: int, w: int, k: int)
    requires
        0 <= n,
        0 < w,
        0 <= k < w,
    ensures
        count_on_queue(n + w, w, k) == count_on_queue(n, w, k) + 1,
    decreases n,
{
    let r0 = n % w;
    let i = if k >= r0 {
        k - r0
    } else {
        k + w - r0
    };
    vstd::arithmetic::div_mod::lemma_add_mod_noop(n, i, w);
    vstd::arithmetic::div_mod::lemma_small_mod(i as nat, w as nat);
    vstd::arithmetic::div_mod::lemma_small_mod(k as nat, w as nat);
    vstd::arithmetic::div_mod::lemma_mod_add_multiples_vanish(k, w);
    assert((n + i) % w == k);
    lemma_count_window(n, w, k, w);
}

/// Among the batch numbers `n .. n + j` (`j <= w`), queue `k` gets one when
/// its residue is reached.
proof fn lemma_count_window(n: int, w: int, k: int, j: int)
    requires
        0 <= n,
        0 < w,
        0 <= k < w,
        0 <= j <= w,
    ensures
        count_on_queue(n + j, w, k) == count_on_queue(n, w, k) + if exists|i: int|
            0 <= i < j && #[trigger] ((n + i) % w) == k {
            1int
        } else {
            0int
        },
    decreases j,
{
    if j > 0 {
        lemma_count_window(n, w, k, j - 1);
        let hit = (n + j - 1) % w == k;
        if hit {
            if exists|i: int| 0 <= i < j - 1 && #[trigger] ((n + i) % w) == k {
                let i = choose|i: int| 0 <= i < j - 1 && #[trigger] ((n + i) % w) == k;
                lemma_same_residue_far(n + i, n + j - 1, w);
            }
        } else {
            if exists|i: int| 0 <= i < j && #[trigger] ((n + i) % w) == k {
                let i = choose|i: int| 0 <= i < j && #[trigger] ((n + i) % w) == k;
                assert(i < j - 1);
            }
        }
    } else {
        if exists|i: int| 0 <= i < j && #[trigger] ((n + i) % w) == k {
            assert(false);
        }
    }
}

/// Two different numbers less than `w` apart have different residues.
proof fn lemma_same_residue_far(a: int, b: int, w: int)
    requires
        0 <= a < b < a + w,
        0 < w,
    ensures
        a % w != b % w,
{
    vstd::arithmetic::div_mod::lemma_sub_mod_noop(b, a, w);
    vstd::arithmetic::div_mod::lemma_small_mod((b - a) as nat, w as nat);
    vstd::arithmetic::div_mod::lemma_mod_self_0(w);
    if a % w == b % w {
        assert(((b % w) - (a % w)) % w == 0int % w);
        vstd::arithmetic::div_mod::lemma_small_mod(0, w as nat);
    }
}

/// The writer's `t`-th read takes batch `t`: batch `s` is the one on queue
/// `t % w` after as many earlier batches on that queue as the writer has read
/// from it before step `t` exactly when `s == t`.
pub proof fn lemma_rotation_in_order(w: int, s: int, t: int)
    requires
        0 < w,
        0 <= s,
        0 <= t,
        s % w == t % w,
        count_on_queue(s, w, s % w) == count_on_queue(t, w, t % w),
    ensures
        s == t,
{
    lemma_count_before(s, w);
    lemma_count_before(t, w);
    vstd::arithmetic::div_mod::lemma_fundamental_div_mod(s, w);
    vstd::arithmetic::div_mod::lemma_fundamental_div_mod(t, w);
}

/// Numbers batches and picks the worker queue for each.
pub struct Dispatcher {
    workers: usize,
    seq: u64,
}

impl Dispatcher {
    pub closed spec fn workers(&self) -> int {
        self.workers as int
    }

    /// The number the next batch gets.
    pub closed spec fn seq(&self) -> int {
        self.seq as int
    }

    /// A dispatcher over `workers` queues, at batch 0.
    pub fn new(workers: usize) -> (d: Self)
        requires
            workers > 0,
        ensures
            d.workers() == workers,
            d.seq() == 0,
    {
        Dispatcher { workers, seq: 0 }
    }

    /// Numbers the next batch; returns its number and the queue it goes to.
    pub fn dispatch(&mut self) -> (r: (u64, usize))
        requires
            old(self).workers() > 0,
        ensures
            r.0 == old(self).seq(),
            r.1 == old(self).seq() % old(self).workers(),
            final(self).workers() == old(self).workers(),
            final(self).seq() == (old(self).seq() + 1) % 0x1_0000_0000_0000_0000int,
    {
        let s = self.seq;
        let k = s % (self.workers as u64);
        self.seq = if s == u64::MAX {
            0
        } else {
            s + 1
        };
        (s, k as usize)
    }
}

/// Follows the writer's rotation over the worker queues.
pub struct Reassembler {
    workers: usize,
    expected: u64,
}

impl Reassembler {
    pub closed spec fn workers(&self) -> int {
        self.workers as int
    }

    /// How many batches have been taken.
    pub closed spec fn expected(&self) -> int {
        self.expected as int
    }

    /// A reassembler over `workers` queues, expecting batch 0.
    pub fn new(workers: usize) -> (r: Self)
        requires
            workers > 0,
        ensures
            r.workers() == workers,
            r.expected() == 0,
    {
        Reassembler { workers, expected: 0 }
    }

    /// The queue the next batch in order is read from.
    pub fn queue(&self) -> (k: usize)
        requires
            self.workers() > 0,
        ensures
            k == self.expected() % self.workers(),
    {
        (self.expected % (self.workers as u64)) as usize
    }

    /// Records that the expected batch was taken.
    pub fn advance(&mut self)
        ensures
            final(self).workers() == old(self).workers(),
            final(self).expected() == (old(self).expected() + 1) % 0x1_0000_0000_0000_0000int,
    {
        self.expected = if self.expected == u64::MAX {
            0
        } else {
            self.expected + 1
        };
    }
}

/// Whether a received datagram of `n` bytes in a buffer of `cap` bytes is
/// processed: empty ones and ones that fill the buffer (possibly truncated)
/// are dropped.
pub fn datagram_size_ok(n: usize, cap: usize) -> (ok: bool)
    ensures
        ok == (0 < n < cap),
{
    n != 0 && n < cap
}

/// Moves `len` bytes found at `start` in `buf` to `offset` and cuts `buf`
/// just after them, so the buffer ends with the moved bytes.
pub fn shift_packet(buf: &mut Vec<u8>, start: usize, len: usize, offset: usize)
    requires
        start + len <= old(buf)@.len(),
        offset <= start,
    ensures
        final(buf)@ == old(buf)@.subrange(0, offset as int) + old(buf)@.subrange(
            start as int,
            start + len,
        ),
{
    let ghost b0 = buf@;
    let total = buf.len();
    let mut i: usize = 0;
    while i < len
        invariant
            total == b0.len(),
            start + len <= b0.len(),
            offset <= start,
            i <= len,
            buf@.len() == b0.len(),
            forall|j: int| 0 <= j < i ==> #[trigger] buf@[offset + j] == b0[start + j],
            forall|j: int| 0 <= j < offset ==> #[trigger] buf@[j] == b0[j],
            forall|j: int| start + i <= j < b0.len() ==> #[trigger] buf@[j] == b0[j],
        decreases len - i,
    {
        let v = buf[start + i];
        buf.set(offset + i, v);
        i = i + 1;
    }
    let ghost b1 = buf@;
    buf.truncate(offset + len);
    proof {
        let want = b0.subrange(0, offset as int) + b0.subrange(start as int, start + len);
        assert forall|j: int| 0 <= j < want.len() implies #[trigger] buf@[j] == want[j] by {
            if j < offset {
                assert(b1[j] == b0[j]);
            } else {
                assert(b1[offset + (j - offset)] == b0[start + (j - offset)]);
            }
        }
        assert(buf@ =~= want);
    }
}


/// The buffer slot a pool reuses: the first whose reference count is 1 (no
/// view of it is alive), or none when every slot is still referenced.
pub fn reusable_slot(ref_counts: &[usize]) -> (r: Option<usize>)
    ensures
        r matches Some(i) ==> i < ref_counts@.len() && ref_counts@[i as int] == 1 && forall|j: int|
            0 <= j < i ==> ref_counts@[j] != 1,
        r is None ==> forall|j: int| 0 <= j < ref_counts@.len() ==> ref_counts@[j] != 1,
{
    let mut i: usize = 0;
    while i < ref_counts.len()
        invariant
            i <= ref_counts@.len(),
            forall|j: int| 0 <= j < i ==> ref_counts@[j] != 1,
        decreases ref_counts@.len() - i,
    {
        if ref_counts[i] == 1 {
            return Some(i);
        }
        i = i + 1;
    }
    None
}

} // verus!
