//! The pool of tunnel addresses a server hands to its clients.
//!
//! Addresses are kept as `u64` offsets from the subnet base address (enough
//! for IPv4 and for IPv6 subnets up to /64). A cursor walks the subnet in
//! order, wrapping around, and skips offsets that are in use.

use vstd::prelude::*;

use dashmap::DashSet;

use crate::net::IpAddress;

verus! {

#[verifier::external_type_specification]
#[verifier::external_body]
#[verifier::reject_recursive_types(K)]
#[verifier::reject_recursive_types(S)]
pub struct ExDashSet<K, S>(DashSet<K, S>);

/// The offsets a `DashSet<u64>` holds.
pub uninterp spec fn offset_set_items(s: DashSet<u64>) -> Set<u64>;

/// `DashSet::new`: an empty set.
#[verifier::external_body]
fn offset_set_new() -> (s: DashSet<u64>)
    ensures
        offset_set_items(s) == Set::<u64>::empty(),
{
    DashSet::new()
}

/// `DashSet::len`: the number of offsets held.
#[verifier::external_body]
fn offset_set_len(s: &DashSet<u64>) -> (n: usize)
    ensures
        n == offset_set_items(*s).len(),
{
    s.len()
}

/// `DashSet::insert`: adds `v`; returns whether it was absent.
#[verifier::external_body]
fn offset_set_insert(s: &mut DashSet<u64>, v: u64) -> (added: bool)
    ensures
        offset_set_items(*final(s)) == offset_set_items(*old(s)).insert(v),
        added == !offset_set_items(*old(s)).contains(v),
{
    s.insert(v)
}

/// `DashSet::remove`: removes `v`; returns it if it was present.
#[verifier::external_body]
fn offset_set_remove(s: &mut DashSet<u64>, v: u64) -> (r: Option<u64>)
    ensures
        offset_set_items(*final(s)) == offset_set_items(*old(s)).remove(v),
        r == (if offset_set_items(*old(s)).contains(v) {
            Some(v)
        } else {
            None
        }),
{
    s.remove(&v)
}

/// 2^64: the cursor counts modulo this.
pub open spec fn cursor_modulus() -> int {
    0x1_0000_0000_0000_0000
}

/// The numeric value of an address.
pub open spec fn ip_value(ip: IpAddress) -> int {
    match ip {
        IpAddress::V4(a) => a as int,
        IpAddress::V6(a) => a as int,
    }
}

/// The IPv4 netmask of a prefix length.
pub open spec fn v4_mask(prefix: u8) -> u32 {
    !0u32 << ((32 - prefix) as u32)
}

/// The IPv6 netmask of a prefix length.
pub open spec fn v6_mask(prefix: u8) -> u128 {
    !0u128 << ((128 - prefix) as u128)
}

/// First and last address of the subnet of `ip` with `prefix` bits of network.
pub open spec fn subnet_bounds(ip: IpAddress, prefix: u8) -> (int, int) {
    match ip {
        IpAddress::V4(a) => (
            (a & v4_mask(prefix)) as int,
            ((a & v4_mask(prefix)) | !v4_mask(prefix)) as int,
        ),
        IpAddress::V6(a) => (
            (a & v6_mask(prefix)) as int,
            ((a & v6_mask(prefix)) | !v6_mask(prefix)) as int,
        ),
    }
}

/// A prefix length that the address family of `ip` allows.
pub open spec fn valid_prefix(ip: IpAddress, prefix: u8) -> bool {
    match ip {
        IpAddress::V4(_) => 1 <= prefix <= 32,
        IpAddress::V6(_) => 1 <= prefix <= 128,
    }
}

pub open spec fn min_int(a: int, b: int) -> int {
    if a <= b {
        a
    } else {
        b
    }
}

/// The state of the pool.
pub struct PoolView {
    /// Subnet base address.
    pub start: int,
    /// Number of addresses in the subnet, at most `u64::MAX`.
    pub range_size: int,
    /// The cursor; the next candidate offset is `cursor % range_size`.
    pub cursor: int,
    /// Offsets in use.
    pub borrowed: Set<u64>,
    pub is_v4: bool,
}

/// What every pool satisfies.
pub open spec fn pool_wf(v: PoolView) -> bool {
    &&& 1 <= v.range_size <= u64::MAX
    &&& 0 <= v.cursor < cursor_modulus()
    &&& 0 <= v.start
    &&& v.borrowed.finite()
    &&& forall|o: u64| #[trigger] v.borrowed.contains(o) ==> o < v.range_size
    &&& v.is_v4 ==> v.start + v.range_size <= 0x1_0000_0000
    &&& !v.is_v4 ==> v.start + v.range_size <= 0x1_0000_0000_0000_0000_0000_0000_0000_0000
}

/// The pool a subnet starts as: nothing in use, the cursor on `ip`.
pub open spec fn initial_pool(ip: IpAddress, prefix: u8) -> PoolView {
    let (first, last) = subnet_bounds(ip, prefix);
    PoolView {
        start: first,
        range_size: min_int(last - first + 1, u64::MAX as int),
        cursor: min_int(ip_value(ip) - first, u64::MAX as int),
        borrowed: Set::empty(),
        is_v4: ip is V4,
    }
}

/// The address at `offset` in the pool.
pub open spec fn pool_addr(v: PoolView, offset: int) -> IpAddress {
    if v.is_v4 {
        IpAddress::V4((v.start + offset) as u32)
    } else {
        IpAddress::V6((v.start + offset) as u128)
    }
}

/// The offset of `ip` in the pool, if it lies in the subnet.
pub open spec fn pool_offset(v: PoolView, ip: IpAddress) -> Option<int> {
    if v.start <= ip_value(ip) < v.start + v.range_size {
        Some(ip_value(ip) - v.start)
    } else {
        None
    }
}

/// The offset the `i`-th step of a scan from the cursor looks at.
pub open spec fn scan_offset(v: PoolView, i: int) -> int {
    ((v.cursor + i) % cursor_modulus()) % v.range_size
}

/// Whether the `i`-th step of a scan finds a free offset.
pub open spec fn scan_free(v: PoolView, i: int) -> bool {
    !v.borrowed.contains(scan_offset(v, i) as u64)
}

/// What `next` does: `new` is the pool after the call, `r` what it returned.
pub open spec fn next_step(old: PoolView, new: PoolView, r: Option<IpAddress>) -> bool {
    if old.borrowed.len() >= old.range_size {
        r is None && new == old
    } else {
        match r {
            Some(ip) => exists|i: int|
                0 <= i < old.range_size && scan_free(old, i) && (forall|k: int|
                    0 <= k < i ==> !#[trigger] scan_free(old, k)) && ip == pool_addr(
                    old,
                    scan_offset(old, i),
                ) && new == PoolView {
                    cursor: (old.cursor + i + 1) % cursor_modulus(),
                    borrowed: old.borrowed.insert(scan_offset(old, i) as u64),
                    ..old
                },
            None => (forall|k: int| 0 <= k < old.range_size ==> !#[trigger] scan_free(old, k))
                && new == PoolView {
                cursor: (old.cursor + old.range_size) % cursor_modulus(),
                ..old
            },
        }
    }
}

/// What `release` does.
pub open spec fn release_step(old: PoolView, new: PoolView, ip: IpAddress) -> bool {
    match pool_offset(old, ip) {
        Some(off) => new == PoolView { borrowed: old.borrowed.remove(off as u64), ..old },
        None => new == old,
    }
}

/// Lock-free pool of tunnel addresses.
pub struct IpAddressGenerator {
    start: u128,
    range_size: u64,
    cursor: u64,
    borrowed: DashSet<u64>,
    is_v4: bool,
}

impl View for IpAddressGenerator {
    type V = PoolView;

    closed spec fn view(&self) -> PoolView {
        PoolView {
            start: self.start as int,
            range_size: self.range_size as int,
            cursor: self.cursor as int,
            borrowed: offset_set_items(self.borrowed),
            is_v4: self.is_v4,
        }
    }
}

proof fn lemma_v4_subnet(a: u32, s: u32)
    requires
        s < 32,
    ensures
        (a & (!0u32 << s)) <= a <= ((a & (!0u32 << s)) | !(!0u32 << s)),
{
    assert((a & (!0u32 << s)) <= a <= ((a & (!0u32 << s)) | !(!0u32 << s))) by (bit_vector)
        requires
            s < 32,
    ;
}

proof fn lemma_v6_subnet(a: u128, s: u128)
    requires
        s < 128,
    ensures
        (a & (!0u128 << s)) <= a <= ((a & (!0u128 << s)) | !(!0u128 << s)),
{
    assert((a & (!0u128 << s)) <= a <= ((a & (!0u128 << s)) | !(!0u128 << s))) by (bit_vector)
        requires
            s < 128,
    ;
}

impl IpAddressGenerator {
    /// A pool over the subnet of `start_with` with `prefix` bits of network,
    /// whose cursor starts on `start_with`.
    pub fn new(start_with: IpAddress, prefix: u8) -> (g: Self)
        requires
            valid_prefix(start_with, prefix),
        ensures
            g@ == initial_pool(start_with, prefix),
            pool_wf(g@),
    {
        let (start, end, is_v4) = Self::subnet_range(start_with, prefix);
        let span = end - start;
        let range_size: u64 = if span >= u64::MAX as u128 {
            u64::MAX
        } else {
            (span + 1) as u64
        };
        let addr: u128 = match start_with {
            IpAddress::V4(a) => a as u128,
            IpAddress::V6(a) => a,
        };
        let diff = addr - start;
        let initial_offset: u64 = if diff >= u64::MAX as u128 {
            u64::MAX
        } else {
            diff as u64
        };
        IpAddressGenerator {
            start,
            range_size,
            cursor: initial_offset,
            borrowed: offset_set_new(),
            is_v4,
        }
    }

    /// First and last address of the subnet, and whether it is IPv4.
    fn subnet_range(addr: IpAddress, prefix: u8) -> (r: (u128, u128, bool))
        requires
            valid_prefix(addr, prefix),
        ensures
            r.0 == subnet_bounds(addr, prefix).0,
            r.1 == subnet_bounds(addr, prefix).1,
            r.0 <= ip_value(addr) <= r.1,
            r.2 == (addr is V4),
            r.2 ==> r.1 <= u32::MAX,
    {
        match addr {
            IpAddress::V4(a) => {
                let s: u32 = 32 - prefix as u32;
                let mask = !0u32 << s;
                let base = a & mask;
                proof {
                    lemma_v4_subnet(a, s);
                }
                (base as u128, (base | !mask) as u128, true)
            },
            IpAddress::V6(a) => {
                let s: u128 = 128 - prefix as u128;
                let mask = !0u128 << s;
                let base = a & mask;
                proof {
                    lemma_v6_subnet(a, s);
                }
                (base, base | !mask, false)
            },
        }
    }

    /// The address at `offset`.
    fn offset_to_ip(&self, offset: u64) -> (ip: IpAddress)
        requires
            pool_wf(self@),
            offset < self@.range_size,
        ensures
            ip == pool_addr(self@, offset as int),
    {
        let addr = self.start + offset as u128;
        if self.is_v4 {
            IpAddress::V4(addr as u32)
        } else {
            IpAddress::V6(addr)
        }
    }

    /// The offset of `ip`, if it lies in the subnet.
    fn ip_to_offset(&self, ip: &IpAddress) -> (r: Option<u64>)
        requires
            pool_wf(self@),
        ensures
            r matches Some(o) ==> pool_offset(self@, *ip) == Some(o as int),
            r is None ==> pool_offset(self@, *ip) is None,
    {
        let addr: u128 = match ip {
            IpAddress::V4(a) => *a as u128,
            IpAddress::V6(a) => *a,
        };
        if addr < self.start {
            return None;
        }
        let off = addr - self.start;
        if off < self.range_size as u128 {
            Some(off as u64)
        } else {
            None
        }
    }

    /// Hands out the next free address at or after the cursor, wrapping
    /// around the subnet; `None` when every address is in use.
    pub fn next(&mut self) -> (r: Option<IpAddress>)
        requires
            pool_wf(old(self)@),
        ensures
            next_step(old(self)@, final(self)@, r),
            pool_wf(final(self)@),
    {
        let ghost v0 = self@;
        let used = offset_set_len(&self.borrowed);
        if used as u64 >= self.range_size {
            return None;
        }
        let mut i: u64 = 0;
        while i < self.range_size
            invariant
                v0 == old(self)@,
                pool_wf(v0),
                v0.borrowed.len() < v0.range_size,
                self@ == (PoolView { cursor: (v0.cursor + i) % cursor_modulus(), ..v0 }),
                i <= v0.range_size,
                forall|k: int| 0 <= k < i ==> !#[trigger] scan_free(v0, k),
            decreases self.range_size - i,
        {
            let offset = self.cursor % self.range_size;
            assert(offset == scan_offset(v0, i as int));
            self.cursor = if self.cursor == u64::MAX {
                0
            } else {
                self.cursor + 1
            };
            proof {
                vstd::arithmetic::div_mod::lemma_add_mod_noop(v0.cursor + i, 1, cursor_modulus());
                vstd::arithmetic::div_mod::lemma_small_mod(1, cursor_modulus() as nat);
                let c = (v0.cursor + i) % cursor_modulus();
                if c + 1 < cursor_modulus() {
                    vstd::arithmetic::div_mod::lemma_small_mod((c + 1) as nat, cursor_modulus() as nat);
                } else {
                    vstd::arithmetic::div_mod::lemma_mod_self_0(cursor_modulus());
                }
                assert(self.cursor == (v0.cursor + i + 1) % cursor_modulus());
            }
            if offset_set_insert(&mut self.borrowed, offset) {
                let ip = self.offset_to_ip(offset);
                proof {
                    assert(self@ == PoolView {
                        cursor: (v0.cursor + i + 1) % cursor_modulus(),
                        borrowed: v0.borrowed.insert(scan_offset(v0, i as int) as u64),
                        ..v0
                    });
                    assert(scan_free(v0, i as int));
                    assert(next_step(v0, self@, Some(ip)));
                }
                return Some(ip);
            }
            proof {
                assert(offset_set_items(self.borrowed) =~= v0.borrowed);
            }
            i = i + 1;
        }
        None
    }

    /// Returns `address` to the pool; addresses outside the subnet are ignored.
    pub fn release(&mut self, address: &IpAddress)
        requires
            pool_wf(old(self)@),
        ensures
            release_step(old(self)@, final(self)@, *address),
            pool_wf(final(self)@),
    {
        if let Some(offset) = self.ip_to_offset(address) {
            offset_set_remove(&mut self.borrowed, offset);
        }
    }
}

/// The address at an offset of the subnet lies in the subnet at that offset,
/// in the pool's address family.
pub proof fn lemma_pool_addr_offset(v: PoolView, off: int)
    requires
        pool_wf(v),
        0 <= off < v.range_size,
    ensures
        pool_offset(v, pool_addr(v, off)) == Some(off),
        (pool_addr(v, off) is V4) == v.is_v4,
{
}

/// `next` keeps the pool well formed.
pub proof fn lemma_next_keeps_wf(old: PoolView, new: PoolView, r: Option<IpAddress>)
    requires
        pool_wf(old),
        next_step(old, new, r),
    ensures
        pool_wf(new),
{
    if old.borrowed.len() < old.range_size {
        if r is Some {
            let i = choose|i: int|
                0 <= i < old.range_size && scan_free(old, i) && (forall|k: int|
                    0 <= k < i ==> !#[trigger] scan_free(old, k)) && r == Some(
                    pool_addr(old, scan_offset(old, i)),
                ) && new == PoolView {
                    cursor: (old.cursor + i + 1) % cursor_modulus(),
                    borrowed: old.borrowed.insert(scan_offset(old, i) as u64),
                    ..old
                };
            assert forall|o: u64| #[trigger] new.borrowed.contains(o) implies o < new.range_size by {
                if o != scan_offset(old, i) as u64 {
                    assert(old.borrowed.contains(o));
                }
            }
        }
    }
}

/// `next` hands out an address of the subnet, in the pool's family, that was
/// not in use, and marks it in use; nothing else changes in the set of
/// addresses in use.
pub proof fn lemma_next_hands_out_free(old: PoolView, new: PoolView, ip: IpAddress)
    requires
        pool_wf(old),
        next_step(old, new, Some(ip)),
    ensures
        pool_offset(old, ip) is Some,
        (ip is V4) == old.is_v4,
        !old.borrowed.contains(pool_offset(old, ip).unwrap() as u64),
        new.borrowed == old.borrowed.insert(pool_offset(old, ip).unwrap() as u64),
{
    let i = choose|i: int|
        0 <= i < old.range_size && scan_free(old, i) && (forall|k: int|
            0 <= k < i ==> !#[trigger] scan_free(old, k)) && Some(ip) == Some(
            pool_addr(old, scan_offset(old, i)),
        ) && new == PoolView {
            cursor: (old.cursor + i + 1) % cursor_modulus(),
            borrowed: old.borrowed.insert(scan_offset(old, i) as u64),
            ..old
        };
    lemma_pool_addr_offset(old, scan_offset(old, i));
}

/// Two addresses handed out one after the other, with no release between,
/// are different.
pub proof fn lemma_next_twice_distinct(
    v0: PoolView,
    v1: PoolView,
    v2: PoolView,
    a: IpAddress,
    b: IpAddress,
)
    requires
        pool_wf(v0),
        next_step(v0, v1, Some(a)),
        next_step(v1, v2, Some(b)),
    ensures
        a != b,
{
    lemma_next_hands_out_free(v0, v1, a);
    lemma_next_keeps_wf(v0, v1, Some(a));
    lemma_next_hands_out_free(v1, v2, b);
}

/// The scan step that looks at offset `o`, when the cursor does not wrap
/// during the scan.
proof fn scan_index_of(v: PoolView, o: int) -> (k: int)
    requires
        pool_wf(v),
        v.cursor + v.range_size <= cursor_modulus(),
        0 <= o < v.range_size,
    ensures
        0 <= k < v.range_size,
        scan_offset(v, k) == o,
{
    let m = v.range_size;
    let r0 = v.cursor % m;
    let k = if o >= r0 {
        o - r0
    } else {
        o + m - r0
    };
    vstd::arithmetic::div_mod::lemma_small_mod((v.cursor + k) as nat, cursor_modulus() as nat);
    vstd::arithmetic::div_mod::lemma_add_mod_noop(v.cursor, k, m);
    vstd::arithmetic::div_mod::lemma_small_mod(k as nat, m as nat);
    vstd::arithmetic::div_mod::lemma_small_mod(o as nat, m as nat);
    vstd::arithmetic::div_mod::lemma_mod_add_multiples_vanish(o, m);
    k
}

/// While some address is free and the cursor does not wrap around `u64`
/// during the scan, `next` hands one out.
pub proof fn lemma_next_finds_free(old: PoolView, new: PoolView, r: Option<IpAddress>)
    requires
        pool_wf(old),
        old.borrowed.len() < old.range_size,
        old.cursor + old.range_size <= cursor_modulus(),
        next_step(old, new, r),
    ensures
        r is Some,
{
    if r is None {
        let all = Set::<u64>::range(0, old.range_size as u64);
        assert forall|o: u64| all.contains(o) implies old.borrowed.contains(o) by {
            let k = scan_index_of(old, o as int);
            assert(!scan_free(old, k));
        }
        <u64 as vstd::set_lib::FiniteRange>::range_properties(0, old.range_size as u64);
        vstd::set_lib::lemma_len_subset(all, old.borrowed);
    }
}

/// In a full pool, releasing an address of the subnet and then asking for
/// one hands that same address back (when the cursor does not wrap around
/// `u64` during the scan).
pub proof fn lemma_release_then_next(
    v0: PoolView,
    v1: PoolView,
    v2: PoolView,
    ip: IpAddress,
    r: Option<IpAddress>,
)
    requires
        pool_wf(v0),
        v0.borrowed.len() == v0.range_size,
        pool_offset(v0, ip) is Some,
        (ip is V4) == v0.is_v4,
        release_step(v0, v1, ip),
        next_step(v1, v2, r),
        v1.cursor + v1.range_size <= cursor_modulus(),
    ensures
        r == Some(ip),
{
    let o = pool_offset(v0, ip).unwrap();
    let all = Set::<u64>::range(0, v0.range_size as u64);
    <u64 as vstd::set_lib::FiniteRange>::range_properties(0, v0.range_size as u64);
    assert(v0.borrowed.subset_of(all));
    vstd::set_lib::lemma_subset_equality(v0.borrowed, all);
    assert(v0.borrowed.contains(o as u64));
    assert(v1.borrowed.len() < v1.range_size);
    assert(pool_wf(v1)) by {
        assert forall|x: u64| #[trigger] v1.borrowed.contains(x) implies x < v1.range_size by {
            assert(v0.borrowed.contains(x));
        }
    }
    lemma_next_finds_free(v1, v2, r);
    let ip2 = r.unwrap();
    lemma_next_hands_out_free(v1, v2, ip2);
    let o2 = pool_offset(v1, ip2).unwrap();
    if o2 != o {
        assert(all.contains(o2 as u64));
        assert(v1.borrowed.contains(o2 as u64));
    }
    match ip {
        IpAddress::V4(a) => {
            match ip2 {
                IpAddress::V4(b) => {},
                IpAddress::V6(_) => {},
            }
        },
        IpAddress::V6(a) => {
            match ip2 {
                IpAddress::V4(_) => {},
                IpAddress::V6(b) => {},
            }
        },
    }
}

/// The address after `ip`, wrapping around at the top of its family.
pub open spec fn increment_ip_spec(ip: IpAddress) -> IpAddress {
    match ip {
        IpAddress::V4(a) => IpAddress::V4(((a + 1) % 0x1_0000_0000int) as u32),
        IpAddress::V6(a) => IpAddress::V6(
            ((a + 1) % 0x1_0000_0000_0000_0000_0000_0000_0000_0000int) as u128,
        ),
    }
}

/// The address after `ip`, wrapping around at the top of its family.
pub fn increment_ip(ip: IpAddress) -> (r: IpAddress)
    ensures
        r == increment_ip_spec(ip),
{
    match ip {
        IpAddress::V4(a) => IpAddress::V4(if a == u32::MAX { 0 } else { a + 1 }),
        IpAddress::V6(a) => IpAddress::V6(if a == u128::MAX { 0 } else { a + 1 }),
    }
}

} // verus!
