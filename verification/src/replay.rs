//! Anti-replay sliding window (WireGuard-style, 2048-bit).
//!
//! The window tracks the last `WINDOW_SIZE` nonces seen for a session.
//! Call `check_and_update` under the session's lock before decryption.
//! If it returns `false`, drop the packet immediately without decrypting.
//!
//! Unlike WireGuard, the update is not undone if decryption subsequently
//! fails: an attacker can advance the window only if they know the session
//! key (to construct a well-formed ciphertext that passes the nonce pre-check).

use vstd::prelude::*;

use crate::bits::{lemma_and, lemma_and_not, lemma_mask_test, lemma_or_bit, lemma_zero_word, word_bit};

verus! {

/// Number of nonces tracked behind the highest accepted one.
pub const WINDOW_SIZE: u64 = 2048;

/// Number of 64-bit words in the circular bitmap.
pub const BITMAP_WORDS: usize = 32;

/// Bit `p` of a circular bitmap held as 64-bit words.
pub open spec fn bitmap_bit(bm: Seq<u64>, p: int) -> bool {
    word_bit(bm[p / 64], (p % 64) as u64)
}

/// Whether nonce `m` lies in the window that ends at `last`.
pub open spec fn in_window(last: int, m: int) -> bool {
    0 <= m && last - WINDOW_SIZE < m <= last
}

/// The abstract state of a replay window: whether a packet was ever accepted,
/// the highest accepted nonce, and the accepted nonces still inside the window.
pub struct WindowModel {
    pub initialized: bool,
    pub last: int,
    pub seen: Set<int>,
}

/// What `check_and_update(n)` decides and the state it leaves, on the model.
pub open spec fn window_step(s: WindowModel, n: int) -> (bool, WindowModel) {
    if !s.initialized {
        (true, WindowModel { initialized: true, last: n, seen: set![n] })
    } else if n > s.last {
        (
            true,
            WindowModel {
                initialized: true,
                last: n,
                seen: s.seen.filter(|m: int| m > n - WINDOW_SIZE).insert(n),
            },
        )
    } else if s.last - n >= WINDOW_SIZE || s.seen.contains(n) {
        (false, s)
    } else {
        (true, WindowModel { initialized: true, last: s.last, seen: s.seen.insert(n) })
    }
}

/// Runs `window_step` over a sequence of nonces; returns the verdicts and the final state.
pub open spec fn window_run(s: WindowModel, ns: Seq<int>) -> (Seq<bool>, WindowModel)
    decreases ns.len(),
{
    if ns.len() == 0 {
        (seq![], s)
    } else {
        let (prefix, mid) = window_run(s, ns.drop_last());
        let (r, fin) = window_step(mid, ns.last());
        (prefix.push(r), fin)
    }
}

/// Whether the model would reject nonce `n` outright.
pub open spec fn rejects(s: WindowModel, n: int) -> bool {
    s.initialized && n <= s.last && (s.last - n >= WINDOW_SIZE || s.seen.contains(n))
}

/// A rejected nonce is answered `false` and leaves the window unchanged.
pub proof fn lemma_rejected_leaves_window(s: WindowModel, n: int)
    requires
        rejects(s, n),
    ensures
        window_step(s, n) == (false, s),
{
}

/// Once a nonce has been accepted, the window rejects it.
pub proof fn lemma_accepted_then_rejected(s: WindowModel, n: int)
    requires
        window_step(s, n).0,
    ensures
        rejects(window_step(s, n).1, n),
{
}

/// A rejected nonce stays rejected whatever nonce is processed next, and the
/// highest accepted nonce never decreases.
pub proof fn lemma_rejection_persists(s: WindowModel, n: int, m: int)
    requires
        rejects(s, n),
    ensures
        rejects(window_step(s, m).1, n),
        window_step(s, m).1.last >= s.last,
{
}

/// The verdict at position `k` of a run is the step taken from the state after the first `k` nonces.
pub proof fn lemma_run_index(s: WindowModel, ns: Seq<int>, k: int)
    requires
        0 <= k < ns.len(),
    ensures
        window_run(s, ns).0.len() == ns.len(),
        window_run(s, ns).0[k] == window_step(window_run(s, ns.take(k)).1, ns[k]).0,
        window_run(s, ns.take(k + 1)).1 == window_step(window_run(s, ns.take(k)).1, ns[k]).1,
    decreases ns.len(),
{
    assert(ns.take(k + 1).drop_last() =~= ns.take(k));
    assert(ns.take(k + 1).last() == ns[k]);
    if k < ns.len() - 1 {
        lemma_run_index(s, ns.drop_last(), k);
        assert(ns.drop_last().take(k) =~= ns.take(k));
        assert(ns.drop_last().take(k + 1) =~= ns.take(k + 1));
    } else {
        assert(ns.drop_last() =~= ns.take(k));
        lemma_run_len(s, ns.drop_last());
    }
}

/// A run yields one verdict per nonce.
pub proof fn lemma_run_len(s: WindowModel, ns: Seq<int>)
    ensures
        window_run(s, ns).0.len() == ns.len(),
    decreases ns.len(),
{
    if ns.len() > 0 {
        lemma_run_len(s, ns.drop_last());
    }
}

proof fn lemma_rejected_after(s: WindowModel, ns: Seq<int>, i: int, k: int)
    requires
        0 <= i < k <= ns.len(),
        window_run(s, ns).0[i],
    ensures
        rejects(window_run(s, ns.take(k)).1, ns[i]),
    decreases k - i,
{
    if k == i + 1 {
        lemma_run_index(s, ns, i);
        lemma_accepted_then_rejected(window_run(s, ns.take(i)).1, ns[i]);
    } else {
        lemma_rejected_after(s, ns, i, k - 1);
        lemma_run_index(s, ns, k - 1);
        lemma_rejection_persists(window_run(s, ns.take(k - 1)).1, ns[i], ns[k - 1]);
    }
}

/// No replay: in any sequence of calls, a nonce that was accepted once is
/// refused by every later call with the same nonce.
pub proof fn lemma_no_replay(s: WindowModel, ns: Seq<int>, i: int, j: int)
    requires
        0 <= i < j < ns.len(),
        ns[i] == ns[j],
        window_run(s, ns).0[i],
    ensures
        !window_run(s, ns).0[j],
{
    lemma_rejected_after(s, ns, i, j);
    lemma_run_index(s, ns, j);
    lemma_rejected_leaves_window(window_run(s, ns.take(j)).1, ns[j]);
}

/// The window before any packet: nothing accepted.
pub open spec fn empty_window() -> WindowModel {
    WindowModel { initialized: false, last: 0, seen: Set::empty() }
}

/// `s` is the window after accepting exactly the nonces of `accepted`: empty
/// exactly when nothing was accepted, `last` is the highest accepted nonce, and
/// `seen` holds the accepted nonces inside the window.
pub open spec fn window_of(s: WindowModel, accepted: Set<int>) -> bool {
    &&& (forall|m: int| #[trigger] accepted.contains(m) ==> 0 <= m)
    &&& (!s.initialized <==> accepted =~= Set::empty())
    &&& (s.initialized ==> accepted.contains(s.last) && forall|m: int| #[trigger]
        accepted.contains(m) ==> m <= s.last)
    &&& s.seen =~= accepted.filter(|m: int| in_window(s.last, m))
}

/// The verdict on nonce `n` in terms of the nonces accepted so far: accepted
/// when it is above all of them, or when it is new and less than
/// `WINDOW_SIZE` below each of them.
pub open spec fn accepts_after(accepted: Set<int>, n: int) -> bool {
    (forall|m: int| #[trigger] accepted.contains(m) ==> m < n) || (!accepted.contains(n) && forall|
        m: int,
    | #[trigger] accepted.contains(m) ==> m - n < WINDOW_SIZE)
}

/// The nonces accepted during a run from `s`.
pub open spec fn accepted_in_run(s: WindowModel, ns: Seq<int>) -> Set<int>
    decreases ns.len(),
{
    if ns.len() == 0 {
        Set::empty()
    } else {
        let before = accepted_in_run(s, ns.drop_last());
        if window_run(s, ns).0.last() {
            before.insert(ns.last())
        } else {
            before
        }
    }
}

/// One step, stated over the set of nonces accepted so far: the verdict is
/// `accepts_after`, and the accepted set grows by `n` exactly when `n` is
/// accepted (a rejected nonce leaves the window's future answers unchanged).
pub proof fn lemma_step_by_history(s: WindowModel, accepted: Set<int>, n: int)
    requires
        window_of(s, accepted),
        0 <= n,
    ensures
        window_step(s, n).0 == accepts_after(accepted, n),
        window_of(window_step(s, n).1, if window_step(s, n).0 { accepted.insert(n) } else { accepted }),
        !window_step(s, n).0 ==> window_step(s, n).1 == s,
{
    let (r, t) = window_step(s, n);
    if !s.initialized {
        let a2 = accepted.insert(n);
        assert(a2.filter(|m: int| in_window(n, m)) =~= set![n]);
        assert(!(a2 =~= Set::empty())) by {
            assert(a2.contains(n));
        }
        assert(forall|m: int| #[trigger] a2.contains(m) ==> m == n);
        assert(window_of(t, a2));
    } else if n > s.last {
        let a2 = accepted.insert(n);
        assert(a2.filter(|m: int| in_window(n, m)) =~= s.seen.filter(|m: int| m > n - WINDOW_SIZE).insert(
            n,
        ));
        assert(!(a2 =~= Set::empty())) by {
            assert(a2.contains(n));
        }
        assert(window_of(t, a2));
    } else {
        assert(accepted.contains(s.last));
        if s.last - n >= WINDOW_SIZE {
        } else if s.seen.contains(n) {
        } else {
            assert(!accepted.contains(n)) by {
                if accepted.contains(n) {
                    assert(accepted.filter(|m: int| in_window(s.last, m)).contains(n));
                }
            }
            let a2 = accepted.insert(n);
            assert(a2.filter(|m: int| in_window(s.last, m)) =~= s.seen.insert(n));
            assert(!(a2 =~= Set::empty())) by {
                assert(a2.contains(n));
            }
            assert(window_of(t, a2));
        }
    }
}

/// Runs from the empty window, stated over history: after any sequence of
/// nonces the window is that of the nonces accepted so far; each verdict is
/// `accepts_after` of the nonces accepted before it; and an accepted nonce is
/// less than `WINDOW_SIZE` below every nonce accepted earlier.
pub proof fn lemma_run_by_history(ns: Seq<int>, k: int)
    requires
        forall|i: int| 0 <= i < ns.len() ==> 0 <= #[trigger] ns[i],
        0 <= k < ns.len(),
    ensures
        window_of(window_run(empty_window(), ns).1, accepted_in_run(empty_window(), ns)),
        window_run(empty_window(), ns).0[k] == accepts_after(
            accepted_in_run(empty_window(), ns.take(k)),
            ns[k],
        ),
        window_run(empty_window(), ns).0[k] ==> forall|i: int|
            0 <= i < k && #[trigger] window_run(empty_window(), ns).0[i] ==> ns[i] - ns[k] < WINDOW_SIZE
                && ns[i] != ns[k],
{
    lemma_run_history(ns);
    lemma_run_history(ns.take(k));
    lemma_run_index(empty_window(), ns, k);
    lemma_step_by_history(window_run(empty_window(), ns.take(k)).1, accepted_in_run(empty_window(), ns.take(k)), ns[k]);
    assert forall|i: int|
        0 <= i < k && #[trigger] window_run(empty_window(), ns).0[i] implies accepted_in_run(
        empty_window(),
        ns.take(k),
    ).contains(ns[i]) by {
        lemma_accepted_member(ns, i, k);
    }
}

proof fn lemma_run_history(ns: Seq<int>)
    requires
        forall|i: int| 0 <= i < ns.len() ==> 0 <= #[trigger] ns[i],
    ensures
        window_of(window_run(empty_window(), ns).1, accepted_in_run(empty_window(), ns)),
    decreases ns.len(),
{
    if ns.len() == 0 {
        assert(empty_window().seen =~= Set::<int>::empty().filter(|m: int| in_window(0, m)));
    } else {
        let p = ns.drop_last();
        assert forall|i: int| 0 <= i < p.len() implies 0 <= #[trigger] p[i] by {
            assert(p[i] == ns[i]);
        }
        lemma_run_history(p);
        lemma_step_by_history(window_run(empty_window(), p).1, accepted_in_run(empty_window(), p), ns.last());
    }
}

proof fn lemma_accepted_member(ns: Seq<int>, i: int, k: int)
    requires
        0 <= i < k <= ns.len(),
        window_run(empty_window(), ns).0[i],
    ensures
        accepted_in_run(empty_window(), ns.take(k)).contains(ns[i]),
    decreases k - i,
{
    let t = ns.take(k);
    assert(t.drop_last() =~= ns.take(k - 1));
    if k == i + 1 {
        lemma_run_index(empty_window(), ns, i);
        lemma_run_len(empty_window(), t);
        lemma_run_index(empty_window(), t, i);
        assert(t.take(i) =~= ns.take(i));
    } else {
        lemma_accepted_member(ns, i, k - 1);
    }
}

pub struct ReplayWindow {
    /// Highest nonce accepted so far.
    last: u64,
    /// Circular bitmap: bit at index `n % WINDOW_SIZE` is set when nonce `n` was accepted.
    bitmap: [u64; BITMAP_WORDS],
    /// Whether any packet has been accepted yet (handles nonce = 0 correctly).
    initialized: bool,
}

impl View for ReplayWindow {
    type V = WindowModel;

    closed spec fn view(&self) -> WindowModel {
        WindowModel {
            initialized: self.initialized,
            last: self.last as int,
            seen: Set::new(
                |m: int| in_window(self.last as int, m) && bitmap_bit(self.bitmap@, m % 2048),
            ),
        }
    }
}

impl ReplayWindow {
    #[verifier::type_invariant]
    spec fn inv(self) -> bool {
        !self.initialized ==> forall|p: int| 0 <= p < 2048 ==> !#[trigger] bitmap_bit(self.bitmap@, p)
    }

    pub fn new() -> (w: Self)
        ensures
            w@ == empty_window(),
    {
        let bm = [0u64; BITMAP_WORDS];
        proof {
            lemma_zero_word();
            assert forall|p: int| 0 <= p < 2048 implies !#[trigger] bitmap_bit(bm@, p) by {
                assert(bm@[p / 64] == 0u64);
            }
        }
        let w = ReplayWindow { last: 0, bitmap: bm, initialized: false };
        proof {
            assert(w@.seen =~= Set::<int>::empty());
        }
        w
    }

    /// Returns `true` if `nonce` is valid and not a replay; marks it as seen.
    /// Returns `false` if the nonce is too old or was already seen.
    pub fn check_and_update(&mut self, nonce: u64) -> (accepted: bool)
        ensures
            (accepted, final(self)@) == window_step(old(self)@, nonce as int),
    {
        proof {
            use_type_invariant(&*self);
        }
        if !self.initialized {
            // Very first packet: any nonce is valid.
            let mut bm = self.bitmap;
            set_bit(&mut bm, nonce);
            let ghost n = nonce as int;
            let w = ReplayWindow { last: nonce, bitmap: bm, initialized: true };
            proof {
                assert forall|m: int| #[trigger] w@.seen.contains(m) <==> m == n by {
                    if in_window(n, m) && bitmap_bit(bm@, m % 2048) {
                        assert(m % 2048 == n % 2048);
                    }
                    if m == n {
                        assert(0 <= m % 2048 < 2048);
                    }
                }
                assert(w@.seen =~= set![n]);
            }
            *self = w;
            return true;
        }
        let ghost s0 = self@;
        let ghost lo = self.last as int;
        let ghost n = nonce as int;
        let mut bm = self.bitmap;
        let mut last = self.last;
        if nonce > last {
            let diff = nonce - last;
            if diff >= WINDOW_SIZE {
                // New nonce is far ahead: the entire window is stale, reset it.
                let mut k: usize = 0;
                while k < BITMAP_WORDS
                    invariant
                        k <= BITMAP_WORDS,
                        forall|j: int| 0 <= j < k ==> bm@[j] == 0u64,
                    decreases BITMAP_WORDS - k,
                {
                    bm[k] = 0;
                    k = k + 1;
                }
                proof {
                    lemma_zero_word();
                    assert forall|m: int| in_window(n, m) implies #[trigger] bitmap_bit(
                        bm@,
                        m % 2048,
                    ) == (m <= lo && s0.seen.contains(m)) by {
                        assert(bm@[(m % 2048) / 64] == 0u64);
                    }
                }
            } else {
                // Advance: clear the positions entering the window from the front.
                let start = ((last + 1) % WINDOW_SIZE) as usize;
                let end = (nonce % WINDOW_SIZE) as usize;
                let ghost old_bm = bm@;
                if start <= end {
                    clear_bitmap_range(&mut bm, start, end);
                } else {
                    clear_bitmap_range(&mut bm, start, WINDOW_SIZE as usize - 1);
                    clear_bitmap_range(&mut bm, 0, end);
                }
                proof {
                    lemma_advance_positions(lo, n, start as int, end as int);
                    assert forall|m: int| in_window(n, m) implies #[trigger] bitmap_bit(
                        bm@,
                        m % 2048,
                    ) == (m <= lo && s0.seen.contains(m)) by {
                        assert(0 <= m % 2048 < 2048);
                        if m <= lo {
                            assert(in_window(lo, m));
                        }
                    }
                }
            }
            last = nonce;
        } else {
            let diff = last - nonce;
            if diff >= WINDOW_SIZE {
                // Too old to be in the window.
                return false;
            }
            proof {
                assert forall|m: int| in_window(lo, m) implies #[trigger] bitmap_bit(
                    bm@,
                    m % 2048,
                ) == (m <= lo && s0.seen.contains(m)) by {}
            }
        }
        let ghost ln = last as int;
        assert(forall|m: int|
            in_window(ln, m) ==> #[trigger] bitmap_bit(bm@, m % 2048) == (m <= lo
                && s0.seen.contains(m)));
        assert(in_window(ln, n));
        assert(bitmap_bit(bm@, n % 2048) == (n <= lo && s0.seen.contains(n)));
        // Check and set the bit for this nonce.
        let idx = (nonce % WINDOW_SIZE) as usize;
        let word = idx / 64;
        let bit = idx % 64;
        let mask = 1u64 << (bit as u64);
        proof {
            lemma_mask_test(bm@[word as int], bit as u64);
        }
        if bm[word] & mask != 0 {
            // Already seen (replay).
            return false;
        }
        let ghost pre = bm@;
        bm[word] = bm[word] | mask;
        proof {
            lemma_or_bit(pre[word as int], bit as u64);
            assert forall|m: int| in_window(ln, m) implies #[trigger] bitmap_bit(bm@, m % 2048) == (
            m == n || (m <= lo && s0.seen.contains(m))) by {
                let p = m % 2048;
                assert(bitmap_bit(pre, p) == (m <= lo && s0.seen.contains(m)));
                if p / 64 == word as int {
                    assert(word_bit(pre[word as int] | (1u64 << (bit as u64)), (p % 64) as u64)
                        == ((p % 64) as u64 == bit as u64 || word_bit(
                        pre[word as int],
                        (p % 64) as u64,
                    )));
                }
                else {
                    assert(bm@[p / 64] == pre[p / 64]);
                }
                if p == n % 2048 {
                    assert(m == n);
                }
            }
        }
        let w = ReplayWindow { last, bitmap: bm, initialized: true };
        proof {
            assert(w@.seen =~= window_step(s0, n).1.seen);
        }
        *self = w;
        true
    }
}

/// The advance from `last` to `n` clears exactly the positions of the nonces in `(last, n]`.
proof fn lemma_advance_positions(last: int, n: int, start: int, end: int)
    requires
        0 <= last < n,
        n - last < 2048,
        start == (last + 1) % 2048,
        end == n % 2048,
    ensures
        forall|m: int|
            n - 2048 < m <= n ==> ((last < m) <==> (if start <= end {
                start <= #[trigger] (m % 2048) <= end
            } else {
                start <= m % 2048 || m % 2048 <= end
            })),
{
}

/// Sets the bit of `nonce` in the circular bitmap.
fn set_bit(bitmap: &mut [u64; BITMAP_WORDS], nonce: u64)
    ensures
        forall|p: int|
            0 <= p < 2048 ==> #[trigger] bitmap_bit(final(bitmap)@, p) == (p == nonce % 2048
                || bitmap_bit(old(bitmap)@, p)),
{
    let idx = (nonce % WINDOW_SIZE) as usize;
    let w = idx / 64;
    let b = idx % 64;
    let ghost old_bm = bitmap@;
    bitmap[w] = bitmap[w] | (1u64 << (b as u64));
    proof {
        lemma_or_bit(old_bm[w as int], b as u64);
        assert forall|p: int| 0 <= p < 2048 implies #[trigger] bitmap_bit(bitmap@, p) == (p
            == nonce % 2048 || bitmap_bit(old_bm, p)) by {
            if p / 64 == w as int {
                assert(word_bit(old_bm[w as int] | (1u64 << (b as u64)), (p % 64) as u64) == ((p
                    % 64) as u64 == b as u64 || word_bit(old_bm[w as int], (p % 64) as u64)));
            }
        }
    }
}

/// Clear all bits in `bitmap[start..=end]` (both inclusive, no wrap).
fn clear_bitmap_range(bitmap: &mut [u64; BITMAP_WORDS], start: usize, end: usize)
    requires
        start <= end,
        end < WINDOW_SIZE,
    ensures
        forall|p: int|
            0 <= p < 2048 ==> #[trigger] bitmap_bit(final(bitmap)@, p) == (bitmap_bit(
                old(bitmap)@,
                p,
            ) && !(start <= p <= end)),
{
    let ghost old_bm = bitmap@;
    let start_w = start / 64;
    let end_w = end / 64;
    if start_w == end_w {
        // Entire range within one 64-bit word.
        let hi = high_bits_from(start % 64);
        let lo = low_bits_to(end % 64);
        bitmap[start_w] = bitmap[start_w] & !(hi & lo);
        proof {
            lemma_and(hi, lo);
            lemma_and_not(old_bm[start_w as int], hi & lo);
            assert forall|p: int| 0 <= p < 2048 implies #[trigger] bitmap_bit(bitmap@, p) == (
            bitmap_bit(old_bm, p) && !(start <= p <= end)) by {
                if p / 64 == start_w as int {
                    let c = (p % 64) as u64;
                    assert(word_bit(old_bm[start_w as int] & !(hi & lo), c) == (word_bit(
                        old_bm[start_w as int],
                        c,
                    ) && !word_bit(hi & lo, c)));
                    assert(word_bit(hi & lo, c) == (word_bit(hi, c) && word_bit(lo, c)));
                }
            }
        }
    } else {
        // Clear high bits of the first word, full middle words, low bits of the last word.
        let hi = high_bits_from(start % 64);
        bitmap[start_w] = bitmap[start_w] & !hi;
        let mut k = start_w + 1;
        while k < end_w
            invariant
                start_w < end_w < BITMAP_WORDS,
                start_w + 1 <= k <= end_w,
                bitmap@.len() == BITMAP_WORDS,
                bitmap@[start_w as int] == old_bm[start_w as int] & !hi,
                forall|j: int| start_w < j < k ==> bitmap@[j] == 0u64,
                forall|j: int| 0 <= j < BITMAP_WORDS && (j < start_w || j >= k) && j != start_w
                    ==> bitmap@[j] == old_bm[j],
            decreases end_w - k,
        {
            bitmap[k] = 0;
            k = k + 1;
        }
        let lo = low_bits_to(end % 64);
        bitmap[end_w] = bitmap[end_w] & !lo;
        proof {
            lemma_zero_word();
            lemma_and_not(old_bm[start_w as int], hi);
            lemma_and_not(old_bm[end_w as int], lo);
            assert forall|p: int| 0 <= p < 2048 implies #[trigger] bitmap_bit(bitmap@, p) == (
            bitmap_bit(old_bm, p) && !(start <= p <= end)) by {
                let c = (p % 64) as u64;
                if p / 64 == start_w as int {
                    assert(word_bit(old_bm[start_w as int] & !hi, c) == (word_bit(
                        old_bm[start_w as int],
                        c,
                    ) && !word_bit(hi, c)));
                } else if p / 64 == end_w as int {
                    assert(word_bit(old_bm[end_w as int] & !lo, c) == (word_bit(
                        old_bm[end_w as int],
                        c,
                    ) && !word_bit(lo, c)));
                } else if start_w < p / 64 < end_w {
                    assert(bitmap@[p / 64] == 0u64);
                    assert(!word_bit(0u64, c));
                }
            }
        }
    }
}

/// Mask with bits `[from_bit, 63]` set.
fn high_bits_from(from_bit: usize) -> (mask: u64)
    requires
        from_bit < 64,
    ensures
        forall|c: u64| c < 64 ==> #[trigger] word_bit(mask, c) == (c >= from_bit),
{
    let mask = !0u64 << (from_bit as u64);
    proof {
        let f = from_bit as u64;
        assert forall|c: u64| c < 64 implies #[trigger] word_bit(mask, c) == (c >= f) by {
            assert((((!0u64 << f) >> c) & 1u64 == 1u64) == (c >= f)) by (bit_vector)
                requires
                    f < 64,
                    c < 64,
            ;
        }
    }
    mask
}

/// Mask with bits `[0, to_bit]` set.
fn low_bits_to(to_bit: usize) -> (mask: u64)
    ensures
        forall|c: u64| c < 64 ==> #[trigger] word_bit(mask, c) == (c <= to_bit),
{
    if to_bit >= 63 {
        proof {
            assert forall|c: u64| c < 64 implies #[trigger] word_bit(!0u64, c) by {
                assert(((!0u64 >> c) & 1u64) == 1u64) by (bit_vector)
                    requires
                        c < 64,
                ;
            }
        }
        !0u64
    } else {
        let t = to_bit as u64;
        let t1 = t + 1;
        let top = 1u64 << t1;
        assert(top >= 1u64) by (bit_vector)
            requires
                t1 < 64,
                top == 1u64 << t1,
        ;
        let mask = top - 1;
        proof {
            assert forall|c: u64| c < 64 implies #[trigger] word_bit(mask, c) == (c <= t) by {
                assert(((mask >> c) & 1u64 == 1u64) == (c <= t)) by (bit_vector)
                    requires
                        t < 63,
                        c < 64,
                        t1 == t + 1,
                        top == 1u64 << t1,
                        mask == (top - 1) as u64,
                ;
            }
        }
        mask
    }
}

} // verus!
