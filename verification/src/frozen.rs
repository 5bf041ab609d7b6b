//! Read-only open-addressed hash tables over byte-string keys, stored in a
//! single flat byte blob, together with the FNV-1a hashing they use.
//!
//! A frozen map blob is laid out as
//! `u32 num_slots | u32 num_entries | u32 string_pool_len | slot[num_slots] | pool`,
//! where a map slot is `u64 hash | u32 key_offset | u16 key_len | u32 value`
//! (18 bytes) and a set slot omits the value (14 bytes).  A populated slot's
//! hash is forced odd, so hash `0` uniquely marks an empty slot.

use vstd::prelude::*;

verus! {

pub const FNV_OFFSET: u64 = 0xcbf29ce484222325;

pub const FNV_PRIME: u64 = 0x100000001b3;

pub const MAP_SLOT: usize = 18;

pub const SET_SLOT: usize = 14;

pub const TBL_HEADER: usize = 12;

// ---------------------------------------------------------------------------
// Little-endian field extraction, as specification and as executable code.
// ---------------------------------------------------------------------------

/// The u16 stored little-endian at `off`.
pub open spec fn le16(s: Seq<u8>, off: int) -> u16
    recommends
        0 <= off,
        off + 2 <= s.len(),
{
    (s[off] + s[off + 1] * 0x100) as u16
}

/// The u32 stored little-endian at `off`.
pub open spec fn le32(s: Seq<u8>, off: int) -> u32
    recommends
        0 <= off,
        off + 4 <= s.len(),
{
    (s[off] + s[off + 1] * 0x100 + s[off + 2] * 0x1_0000 + s[off + 3] * 0x100_0000) as u32
}

/// The u64 stored little-endian at `off`.
pub open spec fn le64(s: Seq<u8>, off: int) -> u64
    recommends
        0 <= off,
        off + 8 <= s.len(),
{
    (s[off] + s[off + 1] * 0x100 + s[off + 2] * 0x1_0000 + s[off + 3] * 0x100_0000 + s[off + 4]
        * 0x1_0000_0000 + s[off + 5] * 0x100_0000_0000 + s[off + 6] * 0x1_0000_0000_0000 + s[off
        + 7] * 0x100_0000_0000_0000) as u64
}

/// Reads the little-endian u32 at `off`.
pub fn read_u32(data: &[u8], off: usize) -> (r: u32)
    requires
        off + 4 <= data@.len(),
    ensures
        r == le32(data@, off as int),
{
    data[off] as u32 + data[off + 1] as u32 * 0x100 + data[off + 2] as u32 * 0x1_0000 + data[off
        + 3] as u32 * 0x100_0000
}

/// Reads the little-endian u16 at `off`.
pub fn read_u16(data: &[u8], off: usize) -> (r: u16)
    requires
        off + 2 <= data@.len(),
    ensures
        r == le16(data@, off as int),
{
    data[off] as u16 + data[off + 1] as u16 * 0x100
}

/// Reads the little-endian u64 at `off`.
pub fn read_u64(data: &[u8], off: usize) -> (r: u64)
    requires
        off + 8 <= data@.len(),
    ensures
        r == le64(data@, off as int),
{
    data[off] as u64 + data[off + 1] as u64 * 0x100 + data[off + 2] as u64 * 0x1_0000 + data[off
        + 3] as u64 * 0x100_0000 + data[off + 4] as u64 * 0x1_0000_0000 + data[off + 5] as u64
        * 0x100_0000_0000 + data[off + 6] as u64 * 0x1_0000_0000_0000 + data[off + 7] as u64
        * 0x100_0000_0000_0000
}

// ---------------------------------------------------------------------------
// FNV-1a hashing.
// ---------------------------------------------------------------------------

/// One FNV-1a round: xor in a byte, multiply by the FNV prime (wrapping).
pub open spec fn fnv_step(h: u64, b: u8) -> u64 {
    vstd::wrapping::u64_specs::wrapping_mul(h ^ (b as u64), FNV_PRIME)
}

/// FNV-1a rounds folded over a byte sequence, starting from state `h`.
pub open spec fn fnv_fold(h: u64, s: Seq<u8>) -> u64
    decreases s.len(),
{
    if s.len() == 0 {
        h
    } else {
        fnv_step(fnv_fold(h, s.drop_last()), s.last())
    }
}

/// The hash the frozen tables store for key `s`: FNV-1a, forced odd so it
/// can never collide with the empty-slot sentinel `0`.
pub open spec fn fnv_spec(s: Seq<u8>) -> u64 {
    fnv_fold(FNV_OFFSET, s) | 1
}

/// A hash forced odd is never the empty-slot sentinel `0`.
pub proof fn lemma_odd_hash_nonzero(h: u64)
    ensures
        (h | 1) != 0,
{
    assert((h | 1) != 0) by (bit_vector);
}

/// The stored key hash is never the empty-slot sentinel.
pub proof fn lemma_fnv_nonzero(s: Seq<u8>)
    ensures
        fnv_spec(s) != 0,
{
    lemma_odd_hash_nonzero(fnv_fold(FNV_OFFSET, s));
}


/// FNV-1a hash of a byte string, forced odd (never zero).
pub fn fnv_hash(data: &[u8]) -> (r: u64)
    ensures
        r == fnv_spec(data@),
        r != 0,
{
    let mut h: u64 = FNV_OFFSET;
    let mut i: usize = 0;
    while i < data.len()
        invariant
            i <= data@.len(),
            h == fnv_fold(FNV_OFFSET, data@.take(i as int)),
        decreases data@.len() - i,
    {
        let b = data[i];
        proof {
            assert(data@.take(i + 1).drop_last() =~= data@.take(i as int));
            assert(data@.take(i + 1).last() == b);
        }
        h = (h ^ (b as u64)).wrapping_mul(FNV_PRIME);
        i += 1;
    }
    proof {
        assert(data@.take(data@.len() as int) =~= data@);
        lemma_odd_hash_nonzero(h);
    }
    h | 1
}

/// The NUL-separated virtual key used for pair lookups: `a || 0x00 || b`.
pub open spec fn pair_key(a: Seq<u8>, b: Seq<u8>) -> Seq<u8> {
    a + seq![0u8] + b
}

/// FNV-1a hash of the NUL-separated pair `a || 0x00 || b`, forced odd,
/// computed without materializing the virtual key.
pub fn fnv_hash_pair(a: &[u8], b: &[u8]) -> (r: u64)
    ensures
        r == fnv_spec(pair_key(a@, b@)),
        r != 0,
{
    let mut h: u64 = FNV_OFFSET;
    let mut i: usize = 0;
    while i < a.len()
        invariant
            i <= a@.len(),
            h == fnv_fold(FNV_OFFSET, a@.take(i as int)),
        decreases a@.len() - i,
    {
        let b0 = a[i];
        proof {
            assert(a@.take(i + 1).drop_last() =~= a@.take(i as int));
        }
        h = (h ^ (b0 as u64)).wrapping_mul(FNV_PRIME);
        i += 1;
    }
    proof {
        assert(a@.take(a@.len() as int) =~= a@);
    }
    h = (h ^ 0u64).wrapping_mul(FNV_PRIME);
    proof {
        assert((a@ + seq![0u8]).drop_last() =~= a@);
        assert((a@ + seq![0u8]).last() == 0u8);
        assert(h == fnv_fold(FNV_OFFSET, a@ + seq![0u8]));
    }
    let mut j: usize = 0;
    while j < b.len()
        invariant
            j <= b@.len(),
            h == fnv_fold(FNV_OFFSET, (a@ + seq![0u8]) + b@.take(j as int)),
        decreases b@.len() - j,
    {
        let b1 = b[j];
        proof {
            assert(((a@ + seq![0u8]) + b@.take(j + 1)).drop_last() =~= (a@ + seq![0u8])
                + b@.take(j as int));
            assert(((a@ + seq![0u8]) + b@.take(j + 1)).last() == b1);
        }
        h = (h ^ (b1 as u64)).wrapping_mul(FNV_PRIME);
        j += 1;
    }
    proof {
        assert((a@ + seq![0u8]) + b@.take(b@.len() as int) =~= pair_key(a@, b@));
        lemma_odd_hash_nonzero(h);
    }
    h | 1
}

/// FNV-1a hash of the concatenation `a || b` (no separator), forced odd,
/// computed without materializing the concatenation.
pub fn fnv_hash_concat(a: &[u8], b: &[u8]) -> (r: u64)
    ensures
        r == fnv_spec(a@ + b@),
        r != 0,
{
    let mut h: u64 = FNV_OFFSET;
    let mut i: usize = 0;
    while i < a.len()
        invariant
            i <= a@.len(),
            h == fnv_fold(FNV_OFFSET, a@.take(i as int)),
        decreases a@.len() - i,
    {
        let b0 = a[i];
        proof {
            assert(a@.take(i + 1).drop_last() =~= a@.take(i as int));
        }
        h = (h ^ (b0 as u64)).wrapping_mul(FNV_PRIME);
        i += 1;
    }
    proof {
        assert(a@.take(a@.len() as int) =~= a@);
    }
    let mut j: usize = 0;
    while j < b.len()
        invariant
            j <= b@.len(),
            h == fnv_fold(FNV_OFFSET, a@ + b@.take(j as int)),
        decreases b@.len() - j,
    {
        let b1 = b[j];
        proof {
            assert((a@ + b@.take(j + 1)).drop_last() =~= a@ + b@.take(j as int));
            assert((a@ + b@.take(j + 1)).last() == b1);
        }
        h = (h ^ (b1 as u64)).wrapping_mul(FNV_PRIME);
        j += 1;
    }
    proof {
        assert(a@ + b@.take(b@.len() as int) =~= a@ + b@);
        lemma_odd_hash_nonzero(h);
    }
    h | 1
}

} // verus!

verus! {

// ---------------------------------------------------------------------------
// Table layout, read as a specification of the blob bytes.
// ---------------------------------------------------------------------------

/// Slot size in bytes: maps carry a u32 value, sets do not.
pub open spec fn slot_size_of(with_value: bool) -> int {
    if with_value {
        18
    } else {
        14
    }
}

pub open spec fn tbl_num_slots(t: Seq<u8>) -> int {
    le32(t, 0) as int
}

pub open spec fn tbl_num_entries(t: Seq<u8>) -> int {
    le32(t, 4) as int
}

pub open spec fn tbl_pool_len(t: Seq<u8>) -> int {
    le32(t, 8) as int
}

/// Total byte size of the table: header, slots, string pool.
pub open spec fn tbl_size(t: Seq<u8>, ss: int) -> int {
    12 + tbl_num_slots(t) * ss + tbl_pool_len(t)
}

pub open spec fn tbl_pool_off(t: Seq<u8>, ss: int) -> int {
    12 + tbl_num_slots(t) * ss
}

pub open spec fn slot_hash(t: Seq<u8>, ss: int, i: int) -> u64 {
    le64(t, 12 + i * ss)
}

pub open spec fn slot_key_off(t: Seq<u8>, ss: int, i: int) -> int {
    le32(t, 12 + i * ss + 8) as int
}

pub open spec fn slot_key_len(t: Seq<u8>, ss: int, i: int) -> int {
    le16(t, 12 + i * ss + 12) as int
}

/// The stored value of a map slot (maps only, slot size 18).
pub open spec fn slot_val(t: Seq<u8>, i: int) -> u32 {
    le32(t, 12 + i * 18 + 14)
}

/// A populated slot: its stored hash is nonzero.
pub open spec fn slot_used(t: Seq<u8>, ss: int, i: int) -> bool {
    slot_hash(t, ss, i) != 0
}

/// The key bytes a populated slot points at in the string pool.
pub open spec fn slot_key(t: Seq<u8>, ss: int, i: int) -> Seq<u8> {
    t.subrange(
        tbl_pool_off(t, ss) + slot_key_off(t, ss, i),
        tbl_pool_off(t, ss) + slot_key_off(t, ss, i) + slot_key_len(t, ss, i),
    )
}

// ---------------------------------------------------------------------------
// Probing.
// ---------------------------------------------------------------------------

/// Lemire fast range reduction: the high 64 bits of the 128-bit product.
pub open spec fn fast_reduce_spec(h: u64, n: int) -> int {
    (h * n) / 0x1_0000_0000_0000_0000
}

/// The slot where probing for a slot's own hash begins.
pub open spec fn probe_start(t: Seq<u8>, ss: int, i: int) -> int {
    fast_reduce_spec(slot_hash(t, ss, i), tbl_num_slots(t))
}

/// Number of linear-probe steps from start slot `s` to slot `i`, wrapping.
pub open spec fn probe_dist(s: int, i: int, n: int) -> int {
    if i >= s {
        i - s
    } else {
        i - s + n
    }
}

/// The slot reached after `k` probe steps from start slot `s`.
pub open spec fn probe_at(s: int, k: int, n: int) -> int {
    (s + k) % n
}

/// Structural well-formedness of a frozen table blob: the header describes
/// the blob exactly, every populated slot points into the pool and stores
/// the forced-odd FNV-1a hash of its own key, no key is stored twice, and
/// every populated slot is reachable from its hash's probe start through
/// populated slots only (so a probe that hits an empty slot proves absence).
pub open spec fn tbl_wf(t: Seq<u8>, ss: int) -> bool {
    &&& tbl_num_slots(t) >= 1
    &&& t.len() == tbl_size(t, ss)
    &&& (forall|i: int|
        0 <= i < tbl_num_slots(t) && slot_used(t, ss, i) ==> {
            &&& 0 <= #[trigger] slot_key_off(t, ss, i)
            &&& slot_key_off(t, ss, i) + slot_key_len(t, ss, i) <= tbl_pool_len(t)
            &&& slot_hash(t, ss, i) == fnv_spec(slot_key(t, ss, i))
        })
    &&& (forall|i: int, j: int|
        0 <= i < tbl_num_slots(t) && 0 <= j < tbl_num_slots(t) && i != j && slot_used(t, ss, i)
            && slot_used(t, ss, j) ==> #[trigger] slot_key(t, ss, i) != #[trigger] slot_key(
            t,
            ss,
            j,
        ))
    &&& (forall|i: int, k: int|
        0 <= i < tbl_num_slots(t) && slot_used(t, ss, i) && 0 <= k <= probe_dist(
            probe_start(t, ss, i),
            i,
            tbl_num_slots(t),
        ) ==> slot_used(
            t,
            ss,
            #[trigger] probe_at(probe_start(t, ss, i), k, tbl_num_slots(t)),
        ))
}

/// The key set stored in the table.
pub open spec fn tbl_has(t: Seq<u8>, ss: int, key: Seq<u8>) -> bool {
    exists|i: int|
        0 <= i < tbl_num_slots(t) && slot_used(t, ss, i) && #[trigger] slot_key(t, ss, i) == key
}

/// The slot holding `key` (meaningful when `tbl_has` holds).
pub open spec fn tbl_index_of(t: Seq<u8>, ss: int, key: Seq<u8>) -> int {
    choose|i: int|
        0 <= i < tbl_num_slots(t) && slot_used(t, ss, i) && #[trigger] slot_key(t, ss, i) == key
}

/// The value a frozen map stores under `key` (meaningful when `tbl_has` holds).
pub open spec fn map_value_of(t: Seq<u8>, key: Seq<u8>) -> u32 {
    slot_val(t, tbl_index_of(t, 18, key))
}

/// What a frozen-map lookup returns for `key`.
pub open spec fn map_get_spec(t: Seq<u8>, key: Seq<u8>) -> Option<u32> {
    if tbl_has(t, 18, key) {
        Some(map_value_of(t, key))
    } else {
        None
    }
}

/// The key a lookup composes from its two arguments: NUL-separated for
/// pair lookups, plain concatenation otherwise.
pub open spec fn composed_key(a: Seq<u8>, b: Seq<u8>, sep: bool) -> Seq<u8> {
    if sep {
        pair_key(a, b)
    } else {
        a + b
    }
}

pub proof fn lemma_probe_at_dist(s: int, i: int, n: int)
    requires
        0 <= s < n,
        0 <= i < n,
    ensures
        0 <= probe_dist(s, i, n) < n,
        probe_at(s, probe_dist(s, i, n), n) == i,
{
    let d = probe_dist(s, i, n);
    if i >= s {
        assert((s + d) == i);
        vstd::arithmetic::div_mod::lemma_small_mod(i as nat, n as nat);
    } else {
        assert((s + d) == i + n);
        vstd::arithmetic::div_mod::lemma_mod_add_multiples_vanish(i, n);
        vstd::arithmetic::div_mod::lemma_small_mod(i as nat, n as nat);
    }
}


pub proof fn lemma_probe_at_step(s: int, k: int, n: int)
    requires
        n >= 1,
        0 <= s,
        0 <= k,
    ensures
        probe_at(s, k + 1, n) == if probe_at(s, k, n) + 1 == n {
            0int
        } else {
            probe_at(s, k, n) + 1
        },
{
    let x = s + k;
    vstd::arithmetic::div_mod::lemma_fundamental_div_mod(x, n);
    vstd::arithmetic::div_mod::lemma_mod_division_less_than_divisor(x, n);
    let q = x / n;
    let r = x % n;
    if r + 1 == n {
        assert(x + 1 == (q + 1) * n + 0) by (nonlinear_arith)
            requires
                x == n * q + r,
                r + 1 == n,
        ;
        vstd::arithmetic::div_mod::lemma_fundamental_div_mod_converse(x + 1, n, q + 1, 0);
    } else {
        assert(x + 1 == q * n + (r + 1)) by (nonlinear_arith)
            requires
                x == n * q + r,
        ;
        vstd::arithmetic::div_mod::lemma_fundamental_div_mod_converse(x + 1, n, q, r + 1);
    }
}

/// Lemire fast range reduction, executable: `(h * n) >> 64` on 128 bits.
pub(crate) fn fast_reduce(h: u64, n: usize) -> (r: usize)
    requires
        n >= 1,
    ensures
        r as int == fast_reduce_spec(h, n as int),
        r < n,
{
    proof {
        assert((h as int) * (n as int) < 0x1_0000_0000_0000_0000_0000_0000_0000_0000) by (nonlinear_arith)
            requires
                h <= 0xffff_ffff_ffff_ffffu64,
                n <= 0xffff_ffff_ffff_ffffu64,
        ;
    }
    let wide: u128 = (h as u128) * (n as u128);
    let shifted: u128 = wide >> 64u128;
    proof {
        vstd::bits::lemma_u128_shr_is_div(wide, 64);
        vstd::arithmetic::power2::lemma2_to64_rest();
        assert(wide < 0x1_0000_0000_0000_0000 * (n as int)) by (nonlinear_arith)
            requires
                wide == (h as int) * (n as int),
                h <= 0xffff_ffff_ffff_ffffu64,
                n >= 1,
        ;
        vstd::arithmetic::div_mod::lemma_multiply_divide_lt(
            wide as int,
            0x1_0000_0000_0000_0000,
            n as int,
        );
    }
    shifted as usize
}

} // verus!

verus! {

/// Slot `i` is populated and stores exactly `key`.
pub open spec fn slot_holds(t: Seq<u8>, ss: int, i: int, key: Seq<u8>) -> bool {
    slot_used(t, ss, i) && slot_key(t, ss, i) == key
}

/// Compares the pool bytes at `key_start .. key_start + key_len` against
/// the composed probe key, byte for byte.
fn key_matches(table: &[u8], key_start: usize, key_len: usize, a: &[u8], b: &[u8], sep: bool) -> (r:
    bool)
    requires
        key_start + key_len <= table@.len(),
        a@.len() + b@.len() + 1 <= usize::MAX,
    ensures
        r == (table@.subrange(key_start as int, key_start + key_len) == composed_key(a@, b@, sep)),
{
    let ghost stored = table@.subrange(key_start as int, key_start + key_len);
    let ghost ck = composed_key(a@, b@, sep);
    let tlen_check = table.len();
    let sep_len: usize = if sep {
        1
    } else {
        0
    };
    if key_len != a.len() + sep_len + b.len() {
        proof {
            assert(stored.len() != ck.len());
        }
        return false;
    }
    let mut i: usize = 0;
    while i < a.len()
        invariant
            i <= a@.len(),
            key_len == a@.len() + sep_len + b@.len(),
            sep_len == if sep { 1int } else { 0int },
            key_start + key_len <= table@.len(),
            table@.len() <= usize::MAX,
            stored == table@.subrange(key_start as int, key_start + key_len),
            ck == composed_key(a@, b@, sep),
            forall|d: int| 0 <= d < i ==> stored[d] == a@[d],
        decreases a@.len() - i,
    {
        if table[key_start + i] != a[i] {
            proof {
                assert(stored[i as int] == table@[key_start + i]);
                assert(ck[i as int] == a@[i as int]);
                assert(stored[i as int] != ck[i as int]);
            }
            return false;
        }
        proof {
            assert(stored[i as int] == table@[key_start + i]);
        }
        i += 1;
    }
    if sep {
        if table[key_start + a.len()] != 0 {
            proof {
                assert(ck[a@.len() as int] == 0u8);
                assert(stored[a@.len() as int] == table@[key_start + a@.len()]);
            }
            return false;
        }
        proof {
            assert(stored[a@.len() as int] == table@[key_start + a@.len()]);
            assert(stored[a@.len() as int] == 0u8);
        }
    }
    let boff = key_start + a.len() + sep_len;
    let mut j: usize = 0;
    while j < b.len()
        invariant
            j <= b@.len(),
            key_len == a@.len() + sep_len + b@.len(),
            sep_len == if sep { 1int } else { 0int },
            boff == key_start + a@.len() + sep_len,
            key_start + key_len <= table@.len(),
            table@.len() <= usize::MAX,
            stored == table@.subrange(key_start as int, key_start + key_len),
            ck == composed_key(a@, b@, sep),
            forall|d: int| 0 <= d < a@.len() ==> stored[d] == a@[d],
            sep ==> stored[a@.len() as int] == 0u8,
            forall|d: int| 0 <= d < j ==> stored[a@.len() + sep_len + d] == b@[d],
        decreases b@.len() - j,
    {
        if table[boff + j] != b[j] {
            proof {
                assert(stored[a@.len() + sep_len + j] == table@[boff + j]);
                assert(ck[a@.len() + sep_len + j] == b@[j as int]);
            }
            return false;
        }
        proof {
            assert(stored[a@.len() + sep_len + j] == table@[boff + j]);
        }
        j += 1;
    }
    proof {
        assert forall|d: int| 0 <= d < ck.len() implies stored[d] == ck[d] by {
            if d < a@.len() {
                assert(ck[d] == a@[d]);
            } else if sep && d == a@.len() {
                assert(ck[d] == 0u8);
            } else {
                assert(ck[d] == b@[d - a@.len() - sep_len]);
                assert(stored[a@.len() + sep_len + (d - a@.len() - sep_len)] == b@[d - a@.len()
                    - sep_len]);
            }
        }
        assert(stored =~= ck);
    }
    true
}

/// Linear-probe lookup shared by every frozen-table read operation.
///
/// Probes from the fast-range-reduced hash of the composed key; stops at
/// the first empty slot (absence) or at a slot whose hash and key bytes
/// both match (presence).  A full sweep without an empty slot is a miss.
fn probe_lookup(table: &[u8], with_value: bool, a: &[u8], b: &[u8], sep: bool) -> (r: Option<u32>)
    requires
        tbl_wf(table@, slot_size_of(with_value)),
        a@.len() + b@.len() + 1 <= usize::MAX,
    ensures
        r.is_some() == tbl_has(table@, slot_size_of(with_value), composed_key(a@, b@, sep)),
        r.is_some() && with_value ==> r == Some(map_value_of(table@, composed_key(a@, b@, sep))),
{
    let ghost ssi: int = slot_size_of(with_value);
    let ghost k: Seq<u8> = composed_key(a@, b@, sep);
    let ss: usize = if with_value {
        18
    } else {
        14
    };
    let tlen = table.len();
    proof {
        assert(tbl_num_slots(table@) * ssi >= ssi) by (nonlinear_arith)
            requires
                tbl_num_slots(table@) >= 1,
                ssi >= 0,
        ;
    }
    let n = read_u32(table, 0) as usize;
    let h = if sep {
        fnv_hash_pair(a, b)
    } else {
        fnv_hash_concat(a, b)
    };
    let pool_start = 12 + n * ss;
    let mut idx = fast_reduce(h, n);
    let ghost start: int = fast_reduce_spec(h, n as int);
    proof {
        vstd::arithmetic::div_mod::lemma_small_mod(start as nat, n as nat);
    }
    let mut step: usize = 0;
    while step < n
        invariant
            start == fast_reduce_spec(h, n as int),
            tbl_wf(table@, ssi),
            ssi == slot_size_of(with_value),
            ss == ssi,
            n as int == tbl_num_slots(table@),
            n >= 1,
            tlen == table@.len(),
            pool_start as int == tbl_pool_off(table@, ssi),
            pool_start <= tlen,
            h == fnv_spec(k),
            h != 0,
            k == composed_key(a@, b@, sep),
            a@.len() + b@.len() + 1 <= usize::MAX,
            0 <= start < n,
            step <= n,
            idx < n,
            idx as int == probe_at(start, step as int, n as int),
            forall|d: int|
                0 <= d < step ==> !slot_holds(
                    table@,
                    ssi,
                    #[trigger] probe_at(start, d, n as int),
                    k,
                ),
        decreases n - step,
    {
        proof {
            assert((idx as int) * ssi + ssi <= (n as int) * ssi) by (nonlinear_arith)
                requires
                    0 <= idx as int,
                    idx < n,
                    ssi >= 0,
            ;
            assert((idx as int) * ssi >= 0) by (nonlinear_arith)
                requires
                    0 <= idx as int,
                    ssi >= 0,
            ;
        }
        let slot_off = 12 + idx * ss;
        let sh = read_u64(table, slot_off);
        if sh == 0 {
            proof {
                if tbl_has(table@, ssi, k) {
                    let i = choose|i: int|
                        0 <= i < tbl_num_slots(table@) && slot_used(table@, ssi, i)
                            && #[trigger] slot_key(table@, ssi, i) == k;
                    assert(slot_hash(table@, ssi, i) == fnv_spec(k));
                    assert(probe_start(table@, ssi, i) == start);
                    lemma_probe_at_dist(start, i, n as int);
                    let d = probe_dist(start, i, n as int);
                    if d < step {
                        assert(!slot_holds(table@, ssi, probe_at(start, d, n as int), k));
                        assert(false);
                    } else {
                        assert(slot_used(
                            table@,
                            ssi,
                            probe_at(probe_start(table@, ssi, i), step as int, tbl_num_slots(
                                table@,
                            )),
                        ));
                        assert(false);
                    }
                }
            }
            return None;
        }
        if sh == h {
            let key_off = read_u32(table, slot_off + 8) as usize;
            let key_len = read_u16(table, slot_off + 12) as usize;
            proof {
                assert(slot_used(table@, ssi, idx as int));
                assert(key_off as int == slot_key_off(table@, ssi, idx as int));
                assert(key_len as int == slot_key_len(table@, ssi, idx as int));
                assert(key_off + key_len <= tbl_pool_len(table@));
            }
            if key_matches(table, pool_start + key_off, key_len, a, b, sep) {
                proof {
                    assert(slot_key(table@, ssi, idx as int) == table@.subrange(
                        (pool_start + key_off) as int,
                        pool_start + key_off + key_len,
                    ));
                    assert(slot_holds(table@, ssi, idx as int, k));
                    assert(tbl_has(table@, ssi, k));
                }
                if with_value {
                    proof {
                        let j = tbl_index_of(table@, 18, k);
                        assert(0 <= j < tbl_num_slots(table@) && slot_used(table@, 18, j)
                            && slot_key(table@, 18, j) == k);
                        assert(j == idx as int);
                    }
                    return Some(read_u32(table, slot_off + 14));
                } else {
                    return Some(0);
                }
            }
            proof {
                assert(slot_key(table@, ssi, idx as int) != k);
                assert(!slot_holds(table@, ssi, idx as int, k));
            }
        } else {
            proof {
                assert(slot_used(table@, ssi, idx as int));
                if slot_key(table@, ssi, idx as int) == k {
                    assert(slot_hash(table@, ssi, idx as int) == fnv_spec(k));
                    assert(false);
                }
                assert(!slot_holds(table@, ssi, idx as int, k));
            }
        }
        proof {
            lemma_probe_at_step(start, step as int, n as int);
        }
        idx += 1;
        if idx == n {
            idx = 0;
        }
        step += 1;
    }
    proof {
        if tbl_has(table@, ssi, k) {
            let i = choose|i: int|
                0 <= i < tbl_num_slots(table@) && slot_used(table@, ssi, i)
                    && #[trigger] slot_key(table@, ssi, i) == k;
            assert(slot_hash(table@, ssi, i) == fnv_spec(k));
            lemma_probe_at_dist(start, i, n as int);
            let d = probe_dist(start, i, n as int);
            assert(!slot_holds(table@, ssi, probe_at(start, d, n as int), k));
            assert(false);
        }
    }
    None
}

} // verus!

verus! {

/// Looks `key` up in a frozen map blob.
///
/// Returns `Some(value)` exactly when `key` was inserted at build time,
/// and `None` otherwise.
pub fn frozen_map_get(table: &[u8], key: &[u8]) -> (r: Option<u32>)
    requires
        tbl_wf(table@, 18),
        key@.len() + 1 <= usize::MAX,
    ensures
        r == map_get_spec(table@, key@),
{
    let empty: &[u8] = &key[0..0];
    proof {
        assert(composed_key(key@, empty@, false) =~= key@);
    }
    probe_lookup(table, true, key, empty, false)
}

/// Looks the NUL-separated virtual key `left || 0x00 || right` up in a
/// frozen map blob, without materializing it.
pub fn frozen_map_get_pair(table: &[u8], left: &[u8], right: &[u8]) -> (r: Option<u32>)
    requires
        tbl_wf(table@, 18),
        left@.len() + right@.len() + 1 <= usize::MAX,
    ensures
        r == map_get_spec(table@, pair_key(left@, right@)),
{
    probe_lookup(table, true, left, right, true)
}

/// Looks the concatenation `a || b` up in a frozen map blob, without
/// materializing it.
pub fn frozen_map_get_concat(table: &[u8], a: &[u8], b: &[u8]) -> (r: Option<u32>)
    requires
        tbl_wf(table@, 18),
        a@.len() + b@.len() + 1 <= usize::MAX,
    ensures
        r == map_get_spec(table@, a@ + b@),
{
    probe_lookup(table, true, a, b, false)
}

/// Membership test on a frozen set blob.
pub fn frozen_set_contains(table: &[u8], key: &[u8]) -> (r: bool)
    requires
        tbl_wf(table@, 14),
        key@.len() + 1 <= usize::MAX,
    ensures
        r == tbl_has(table@, 14, key@),
{
    let empty: &[u8] = &key[0..0];
    proof {
        assert(composed_key(key@, empty@, false) =~= key@);
    }
    probe_lookup(table, false, key, empty, false).is_some()
}

/// Total byte size of the frozen map blob that starts at `table[0]`,
/// computed from its header (the blob may be a prefix of `table`).
pub fn frozen_map_byte_len(table: &[u8]) -> (r: usize)
    requires
        table@.len() >= 12,
        tbl_size(table@, 18) <= table@.len(),
    ensures
        r as int == tbl_size(table@, 18),
{
    let tlen = table.len();
    let num_slots = read_u32(table, 0) as usize;
    let pool_len = read_u32(table, 8) as usize;
    12 + num_slots * 18 + pool_len
}

/// Total byte size of the frozen set blob that starts at `table[0]`,
/// computed from its header (the blob may be a prefix of `table`).
pub fn frozen_set_byte_len(table: &[u8]) -> (r: usize)
    requires
        table@.len() >= 12,
        tbl_size(table@, 14) <= table@.len(),
    ensures
        r as int == tbl_size(table@, 14),
{
    let tlen = table.len();
    let num_slots = read_u32(table, 0) as usize;
    let pool_len = read_u32(table, 8) as usize;
    12 + num_slots * 14 + pool_len
}

} // verus!

verus! {

// ---------------------------------------------------------------------------
// Builder-side slot accessors: the same slot layout, on a bare slot array
// without the 12-byte header in front.
// ---------------------------------------------------------------------------

pub open spec fn bs_hash(s: Seq<u8>, ss: int, i: int) -> u64 {
    le64(s, i * ss)
}

pub open spec fn bs_key_off(s: Seq<u8>, ss: int, i: int) -> int {
    le32(s, i * ss + 8) as int
}

pub open spec fn bs_key_len(s: Seq<u8>, ss: int, i: int) -> int {
    le16(s, i * ss + 12) as int
}

pub open spec fn bs_val(s: Seq<u8>, i: int) -> u32 {
    le32(s, i * 18 + 14)
}

pub open spec fn bs_used(s: Seq<u8>, ss: int, i: int) -> bool {
    bs_hash(s, ss, i) != 0
}

} // verus!

verus! {

/// A stored key never exceeds the 16-bit length field.
pub proof fn lemma_long_key_absent(t: Seq<u8>, ss: int, key: Seq<u8>)
    requires
        tbl_wf(t, ss),
        ss == 14 || ss == 18,
        key.len() > 0xFFFF,
    ensures
        !tbl_has(t, ss, key),
        ss == 18 ==> map_get_spec(t, key) == None::<u32>,
{
    let n = tbl_num_slots(t);
    assert(n * ss >= 0) by (nonlinear_arith)
        requires
            n >= 1,
            ss >= 1,
    ;
    assert forall|i: int|
        0 <= i < tbl_num_slots(t) && slot_used(t, ss, i) implies #[trigger] slot_key(t, ss, i)
        != key by {
        assert(0 <= slot_key_off(t, ss, i));
        assert(slot_key_off(t, ss, i) + slot_key_len(t, ss, i) <= tbl_pool_len(t));
        assert(slot_key(t, ss, i).len() == slot_key_len(t, ss, i));
        assert(slot_key(t, ss, i).len() <= 0xFFFF);
    }
}

} // verus!
