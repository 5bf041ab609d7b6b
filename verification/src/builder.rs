//! Offline construction of frozen table blobs.
//!
//! The builder packs a list of `(key, value)` entries into the flat blob
//! layout that `crate::frozen` reads: capacity is the next power of two
//! holding the load factor at or under 3/4 (minimum 4), insertion is
//! linear probing from the Lemire-reduced FNV-1a hash, and the emitted
//! blob carries the header, the slot array and the string pool.
//!
//! The contracts here close the loop with the readers: every entry handed
//! to the builder is found again by `frozen_map_get` with its value, and
//! nothing else is.

use vstd::prelude::*;
use vstd::string::StringSliceAdditionalSpecFns;

use crate::bpe::cps_sorted;

use crate::frozen::{
    bs_used, bs_hash, bs_key_off, bs_key_len, bs_val, le16, le32, le64, fnv_spec, fnv_hash,
    fast_reduce_spec, probe_at, probe_dist, slot_size_of, tbl_wf, tbl_has, tbl_num_entries,
    tbl_num_slots, tbl_pool_len, tbl_size, map_get_spec, lemma_probe_at_dist, lemma_probe_at_step,
    fast_reduce, read_u64,
};

verus! {

// ---------------------------------------------------------------------------
// Entry lists.
// ---------------------------------------------------------------------------

/// The key bytes of entry `e`.
pub open spec fn entry_key(entries: Seq<(Vec<u8>, u32)>, e: int) -> Seq<u8> {
    entries[e].0@
}

/// Total byte length of the first `m` keys: the pool offset of key `m`.
pub open spec fn keys_size(entries: Seq<(Vec<u8>, u32)>, m: int) -> int
    decreases m,
{
    if m <= 0 {
        0
    } else {
        keys_size(entries, m - 1) + entry_key(entries, m - 1).len()
    }
}

/// No key occurs twice.
pub open spec fn entries_distinct(entries: Seq<(Vec<u8>, u32)>) -> bool {
    forall|i: int, j: int|
        0 <= i < entries.len() && 0 <= j < entries.len() && i != j ==> #[trigger] entry_key(
            entries,
            i,
        ) != #[trigger] entry_key(entries, j)
}

/// What the builder accepts: counts and sizes that fit the blob's 32-bit
/// offsets and 16-bit key lengths comfortably, and pairwise-distinct keys.
pub open spec fn buildable(entries: Seq<(Vec<u8>, u32)>) -> bool {
    &&& entries.len() <= 0x0010_0000
    &&& (forall|e: int|
        0 <= e < entries.len() ==> #[trigger] entry_key(entries, e).len() <= 0xFFFF)
    &&& keys_size(entries, entries.len() as int) <= 0x0100_0000
    &&& entries_distinct(entries)
}

pub proof fn lemma_keys_size_mono(entries: Seq<(Vec<u8>, u32)>, a: int, b: int)
    requires
        a <= b,
    ensures
        keys_size(entries, a) <= keys_size(entries, b),
    decreases b - a,
{
    if a < b {
        lemma_keys_size_mono(entries, a, b - 1);
    }
}

pub proof fn lemma_keys_size_nonneg(entries: Seq<(Vec<u8>, u32)>, m: int)
    ensures
        keys_size(entries, m) >= 0,
    decreases m,
{
    if m > 0 {
        lemma_keys_size_nonneg(entries, m - 1);
    }
}

// ---------------------------------------------------------------------------
// Capacity.
// ---------------------------------------------------------------------------

/// Table capacity for `m` entries: doubling from 4 until the load factor
/// is at most 3/4, which always leaves at least one empty slot.
fn table_capacity(m: usize) -> (n: usize)
    requires
        m <= 0x0010_0000,
    ensures
        n >= 4,
        (n as int) * 3 >= 4 * (m as int),
        n as int <= 4 * (m as int) + 4,
        n > m,
{
    let mut cap: usize = 4;
    while cap * 3 < 4 * m
        invariant
            cap >= 4,
            m <= 0x0010_0000,
            cap as int <= 4 * (m as int) + 4,
        decreases 4 * (m as int) + 4 - cap as int,
    {
        cap = cap * 2;
    }
    cap
}

// ---------------------------------------------------------------------------
// Little-endian writers.
// ---------------------------------------------------------------------------

fn push_le32(out: &mut Vec<u8>, v: u32)
    ensures
        final(out)@.len() == old(out)@.len() + 4,
        final(out)@.take(old(out)@.len() as int) == old(out)@,
        le32(final(out)@, old(out)@.len() as int) == v,
{
    let b0: u8 = (v % 0x100) as u8;
    let b1: u8 = ((v / 0x100) % 0x100) as u8;
    let b2: u8 = ((v / 0x1_0000) % 0x100) as u8;
    let b3: u8 = ((v / 0x100_0000) % 0x100) as u8;
    out.push(b0);
    out.push(b1);
    out.push(b2);
    out.push(b3);
    proof {
        assert(final(out)@.take(old(out)@.len() as int) =~= old(out)@);
        assert(v as int == 0x100 * ((v as int) / 0x100) + (v as int) % 0x100) by {
            vstd::arithmetic::div_mod::lemma_fundamental_div_mod(v as int, 0x100);
        }
        assert((v as int) / 0x100 == 0x100 * (((v as int) / 0x100) / 0x100) + ((v as int) / 0x100)
            % 0x100) by {
            vstd::arithmetic::div_mod::lemma_fundamental_div_mod((v as int) / 0x100, 0x100);
        }
        assert((v as int) / 0x1_0000 == 0x100 * (((v as int) / 0x1_0000) / 0x100) + ((v as int)
            / 0x1_0000) % 0x100) by {
            vstd::arithmetic::div_mod::lemma_fundamental_div_mod((v as int) / 0x1_0000, 0x100);
        }
        assert(((v as int) / 0x100) / 0x100 == (v as int) / 0x1_0000) by {
            vstd::arithmetic::div_mod::lemma_div_denominator(v as int, 0x100, 0x100);
        }
        assert(((v as int) / 0x1_0000) / 0x100 == (v as int) / 0x100_0000) by {
            vstd::arithmetic::div_mod::lemma_div_denominator(v as int, 0x1_0000, 0x100);
        }
        assert((v as int) / 0x100_0000 < 0x100);
        assert((v as int) / 0x100_0000 >= 0) by {
            vstd::arithmetic::div_mod::lemma_div_is_ordered(0, v as int, 0x100_0000);
        }
    }
}

fn write_le16_at(s: &mut Vec<u8>, off: usize, v: u16)
    requires
        off + 2 <= old(s)@.len(),
    ensures
        final(s)@.len() == old(s)@.len(),
        le16(final(s)@, off as int) == v,
        forall|j: int|
            0 <= j < old(s)@.len() && !(off <= j < off + 2) ==> final(s)@[j] == old(s)@[j],
{
    let slen = s.len();
    let b0: u8 = (v % 0x100) as u8;
    let b1: u8 = ((v / 0x100) % 0x100) as u8;
    s.set(off, b0);
    s.set(off + 1, b1);
    proof {
        assert(v as int == 0x100 * ((v as int) / 0x100) + (v as int) % 0x100) by {
            vstd::arithmetic::div_mod::lemma_fundamental_div_mod(v as int, 0x100);
        }
        assert((v as int) / 0x100 < 0x100);
        assert((v as int) / 0x100 >= 0) by {
            vstd::arithmetic::div_mod::lemma_div_is_ordered(0, v as int, 0x100);
        }
    }
}

fn write_le32_at(s: &mut Vec<u8>, off: usize, v: u32)
    requires
        off + 4 <= old(s)@.len(),
    ensures
        final(s)@.len() == old(s)@.len(),
        le32(final(s)@, off as int) == v,
        forall|j: int|
            0 <= j < old(s)@.len() && !(off <= j < off + 4) ==> final(s)@[j] == old(s)@[j],
{
    let slen = s.len();
    let b0: u8 = (v % 0x100) as u8;
    let b1: u8 = ((v / 0x100) % 0x100) as u8;
    let b2: u8 = ((v / 0x1_0000) % 0x100) as u8;
    let b3: u8 = ((v / 0x100_0000) % 0x100) as u8;
    s.set(off, b0);
    s.set(off + 1, b1);
    s.set(off + 2, b2);
    s.set(off + 3, b3);
    proof {
        assert(v as int == 0x100 * ((v as int) / 0x100) + (v as int) % 0x100) by {
            vstd::arithmetic::div_mod::lemma_fundamental_div_mod(v as int, 0x100);
        }
        assert((v as int) / 0x100 == 0x100 * (((v as int) / 0x100) / 0x100) + ((v as int) / 0x100)
            % 0x100) by {
            vstd::arithmetic::div_mod::lemma_fundamental_div_mod((v as int) / 0x100, 0x100);
        }
        assert((v as int) / 0x1_0000 == 0x100 * (((v as int) / 0x1_0000) / 0x100) + ((v as int)
            / 0x1_0000) % 0x100) by {
            vstd::arithmetic::div_mod::lemma_fundamental_div_mod((v as int) / 0x1_0000, 0x100);
        }
        assert(((v as int) / 0x100) / 0x100 == (v as int) / 0x1_0000) by {
            vstd::arithmetic::div_mod::lemma_div_denominator(v as int, 0x100, 0x100);
        }
        assert(((v as int) / 0x1_0000) / 0x100 == (v as int) / 0x100_0000) by {
            vstd::arithmetic::div_mod::lemma_div_denominator(v as int, 0x1_0000, 0x100);
        }
        assert((v as int) / 0x100_0000 < 0x100);
        assert((v as int) / 0x100_0000 >= 0) by {
            vstd::arithmetic::div_mod::lemma_div_is_ordered(0, v as int, 0x100_0000);
        }
    }
}

fn write_le64_at(s: &mut Vec<u8>, off: usize, v: u64)
    requires
        off + 8 <= old(s)@.len(),
    ensures
        final(s)@.len() == old(s)@.len(),
        le64(final(s)@, off as int) == v,
        forall|j: int|
            0 <= j < old(s)@.len() && !(off <= j < off + 8) ==> final(s)@[j] == old(s)@[j],
{
    let slen = s.len();
    let b0: u8 = (v % 0x100) as u8;
    let b1: u8 = ((v / 0x100) % 0x100) as u8;
    let b2: u8 = ((v / 0x1_0000) % 0x100) as u8;
    let b3: u8 = ((v / 0x100_0000) % 0x100) as u8;
    let b4: u8 = ((v / 0x1_0000_0000) % 0x100) as u8;
    let b5: u8 = ((v / 0x100_0000_0000) % 0x100) as u8;
    let b6: u8 = ((v / 0x1_0000_0000_0000) % 0x100) as u8;
    let b7: u8 = ((v / 0x100_0000_0000_0000) % 0x100) as u8;
    s.set(off, b0);
    s.set(off + 1, b1);
    s.set(off + 2, b2);
    s.set(off + 3, b3);
    s.set(off + 4, b4);
    s.set(off + 5, b5);
    s.set(off + 6, b6);
    s.set(off + 7, b7);
    proof {
        let x = v as int;
        assert forall|k: int| 1 <= k <= 7 implies (x / #[trigger] pow_256(k - 1)) / 0x100 == x
            / pow_256(k) by {
            vstd::arithmetic::div_mod::lemma_div_denominator(x, pow_256(k - 1), 0x100);
            assert(pow_256(k - 1) * 0x100 == pow_256(k));
        }
        assert forall|k: int| 0 <= k <= 7 implies x / #[trigger] pow_256(k) == 0x100 * (x
            / pow_256(k + 1)) + (x / pow_256(k)) % 0x100 by {
            vstd::arithmetic::div_mod::lemma_fundamental_div_mod(x / pow_256(k), 0x100);
            vstd::arithmetic::div_mod::lemma_div_denominator(x, pow_256(k), 0x100);
            assert(pow_256(k) * 0x100 == pow_256(k + 1));
        }
        assert(x / pow_256(8) == 0) by {
            vstd::arithmetic::div_mod::lemma_basic_div(x, pow_256(8));
        }
        assert(x / pow_256(0) == x);
    }
}

/// `256^k` for small `k`, spelled out so the writers' proofs stay linear.
pub open spec fn pow_256(k: int) -> int {
    if k <= 0 {
        1
    } else if k == 1 {
        0x100
    } else if k == 2 {
        0x1_0000
    } else if k == 3 {
        0x100_0000
    } else if k == 4 {
        0x1_0000_0000
    } else if k == 5 {
        0x100_0000_0000
    } else if k == 6 {
        0x1_0000_0000_0000
    } else if k == 7 {
        0x100_0000_0000_0000
    } else {
        0x1_0000_0000_0000_0000
    }
}

} // verus!

verus! {

// ---------------------------------------------------------------------------
// Build-state predicates.
// ---------------------------------------------------------------------------

/// Entry `x` sits in slot `i`: the slot stores its hash, its pool range,
/// and (for maps) its value, and the pool range holds exactly its key.
pub open spec fn placed_at(
    entries: Seq<(Vec<u8>, u32)>,
    slots: Seq<u8>,
    pool: Seq<u8>,
    ss: int,
    x: int,
    i: int,
    wv: bool,
) -> bool {
    &&& bs_hash(slots, ss, i) == fnv_spec(entry_key(entries, x))
    &&& bs_key_off(slots, ss, i) == keys_size(entries, x)
    &&& bs_key_len(slots, ss, i) == entry_key(entries, x).len()
    &&& keys_size(entries, x) >= 0
    &&& keys_size(entries, x) + entry_key(entries, x).len() <= pool.len()
    &&& pool.subrange(
        keys_size(entries, x),
        keys_size(entries, x) + entry_key(entries, x).len(),
    ) == entry_key(entries, x)
    &&& (wv ==> bs_val(slots, i) == entries[x].1)
}

/// Every slot on the probe path from slot `i`'s hash start up to `i`
/// itself is populated.
pub open spec fn path_ok(slots: Seq<u8>, ss: int, n: int, i: int) -> bool {
    forall|k: int|
        0 <= k <= probe_dist(fast_reduce_spec(bs_hash(slots, ss, i), n), i, n) ==> bs_used(
            slots,
            ss,
            #[trigger] probe_at(fast_reduce_spec(bs_hash(slots, ss, i), n), k, n),
        )
}

/// Number of populated slots among the first `k`.
pub open spec fn count_used_upto(s: Seq<u8>, ss: int, k: int) -> int
    decreases k,
{
    if k <= 0 {
        0
    } else {
        count_used_upto(s, ss, k - 1) + if bs_used(s, ss, k - 1) {
            1int
        } else {
            0int
        }
    }
}

/// The whole invariant of the insertion phase after `e` entries are in.
pub open spec fn build_inv(
    entries: Seq<(Vec<u8>, u32)>,
    slots: Seq<u8>,
    pool: Seq<u8>,
    slot_of: Seq<int>,
    ss: int,
    n: int,
    e: int,
    wv: bool,
) -> bool {
    &&& ss == slot_size_of(wv)
    &&& slots.len() == n * ss
    &&& n >= 1
    &&& pool.len() == keys_size(entries, e)
    &&& count_used_upto(slots, ss, n) == e
    &&& slot_of.len() == e
    &&& (forall|x: int| 0 <= x < e ==> 0 <= #[trigger] slot_of[x] < n)
    &&& (forall|x: int|
        0 <= x < e ==> placed_at(entries, slots, pool, ss, x, #[trigger] slot_of[x], wv))
    &&& (forall|x: int| 0 <= x < e ==> path_ok(slots, ss, n, #[trigger] slot_of[x]))
    &&& (forall|x: int, y: int|
        0 <= x < e && 0 <= y < e && x != y ==> #[trigger] slot_of[x] != #[trigger] slot_of[y])
    &&& (forall|i: int|
        0 <= i < n && bs_used(slots, ss, i) ==> exists|x: int|
            0 <= x < e && #[trigger] slot_of[x] == i)
}

pub proof fn lemma_count_nonneg(s: Seq<u8>, ss: int, k: int)
    ensures
        count_used_upto(s, ss, k) >= 0,
    decreases k,
{
    if k > 0 {
        lemma_count_nonneg(s, ss, k - 1);
    }
}

pub proof fn lemma_count_exists_empty(s: Seq<u8>, ss: int, n: int)
    requires
        n >= 1,
        count_used_upto(s, ss, n) < n,
    ensures
        exists|i: int| 0 <= i < n && !(#[trigger] bs_used(s, ss, i)),
    decreases n,
{
    lemma_count_nonneg(s, ss, n - 1);
    if !bs_used(s, ss, n - 1) {
        assert(0 <= n - 1 < n && !bs_used(s, ss, n - 1));
    } else {
        lemma_count_exists_empty(s, ss, n - 1);
        let i = choose|i: int| 0 <= i < n - 1 && !(#[trigger] bs_used(s, ss, i));
        assert(0 <= i < n && !bs_used(s, ss, i));
    }
}

pub proof fn lemma_count_same(s1: Seq<u8>, s2: Seq<u8>, ss: int, k: int)
    requires
        forall|j: int| 0 <= j < k ==> bs_hash(s2, ss, j) == bs_hash(s1, ss, j),
    ensures
        count_used_upto(s2, ss, k) == count_used_upto(s1, ss, k),
    decreases k,
{
    if k > 0 {
        lemma_count_same(s1, s2, ss, k - 1);
    }
}

pub proof fn lemma_count_grow(s1: Seq<u8>, s2: Seq<u8>, ss: int, n: int, t: int)
    requires
        0 <= t < n,
        !bs_used(s1, ss, t),
        bs_used(s2, ss, t),
        forall|j: int| 0 <= j < n && j != t ==> bs_hash(s2, ss, j) == bs_hash(s1, ss, j),
    ensures
        count_used_upto(s2, ss, n) == count_used_upto(s1, ss, n) + 1,
    decreases n,
{
    if t == n - 1 {
        lemma_count_same(s1, s2, ss, n - 1);
    } else {
        lemma_count_grow(s1, s2, ss, n - 1, t);
    }
}

/// Distinct slots occupy disjoint byte ranges of the slot array.
#[verifier::spinoff_prover]
#[verifier::rlimit(100)]
pub proof fn lemma_other_slots_unchanged(s1: Seq<u8>, s2: Seq<u8>, ss: int, i: int, n: int)
    requires
        s1.len() == s2.len(),
        n * ss <= s1.len(),
        ss == 14 || ss == 18,
        0 <= i < n,
        forall|b: int| 0 <= b < s1.len() && !(i * ss <= b < i * ss + ss) ==> s2[b] == s1[b],
    ensures
        forall|j: int|
            0 <= j < n && j != i ==> bs_hash(s2, ss, j) == bs_hash(s1, ss, j) && bs_key_off(
                s2,
                ss,
                j,
            ) == bs_key_off(s1, ss, j) && bs_key_len(s2, ss, j) == bs_key_len(s1, ss, j) && (ss
                == 18 ==> bs_val(s2, j) == bs_val(s1, j)),
{
    assert forall|j: int| 0 <= j < n && j != i implies bs_hash(s2, ss, j) == bs_hash(s1, ss, j)
        && bs_key_off(s2, ss, j) == bs_key_off(s1, ss, j) && bs_key_len(s2, ss, j) == bs_key_len(
        s1,
        ss,
        j,
    ) && (ss == 18 ==> bs_val(s2, j) == bs_val(s1, j)) by {
        assert(j * ss + ss <= i * ss || i * ss + ss <= j * ss) by (nonlinear_arith)
            requires
                j != i,
                0 <= j,
                0 <= i,
                ss >= 1,
        ;
        assert(j * ss + ss <= n * ss) by (nonlinear_arith)
            requires
                j < n,
                0 <= j,
                ss >= 1,
        ;
        assert(j * ss >= 0) by (nonlinear_arith)
            requires
                0 <= j,
                ss >= 1,
        ;
        assert forall|b: int| j * ss <= b < j * ss + ss implies s2[b] == s1[b] by {
            assert(!(i * ss <= b < i * ss + ss));
        }
        assert(s2[j * ss + 0] == s1[j * ss + 0]);
        assert(s2[j * ss + 1] == s1[j * ss + 1]);
        assert(s2[j * ss + 2] == s1[j * ss + 2]);
        assert(s2[j * ss + 3] == s1[j * ss + 3]);
        assert(s2[j * ss + 4] == s1[j * ss + 4]);
        assert(s2[j * ss + 5] == s1[j * ss + 5]);
        assert(s2[j * ss + 6] == s1[j * ss + 6]);
        assert(s2[j * ss + 7] == s1[j * ss + 7]);
        assert(s2[j * ss + 8] == s1[j * ss + 8]);
        assert(s2[j * ss + 9] == s1[j * ss + 9]);
        assert(s2[j * ss + 10] == s1[j * ss + 10]);
        assert(s2[j * ss + 11] == s1[j * ss + 11]);
        assert(s2[j * ss + 12] == s1[j * ss + 12]);
        assert(s2[j * ss + 13] == s1[j * ss + 13]);
        if ss == 18 {
            assert(s2[j * ss + 14] == s1[j * ss + 14]);
            assert(s2[j * ss + 15] == s1[j * ss + 15]);
            assert(s2[j * ss + 16] == s1[j * ss + 16]);
            assert(s2[j * ss + 17] == s1[j * ss + 17]);
        }
    }
}

/// probe_at and probe_dist are inverse on one cycle.
pub proof fn lemma_probe_dist_of_at(s: int, k: int, n: int)
    requires
        0 <= s < n,
        0 <= k < n,
    ensures
        probe_dist(s, probe_at(s, k, n), n) == k,
{
    let x = s + k;
    if x < n {
        vstd::arithmetic::div_mod::lemma_small_mod(x as nat, n as nat);
    } else {
        vstd::arithmetic::div_mod::lemma_mod_add_multiples_vanish(x - n, n);
        vstd::arithmetic::div_mod::lemma_small_mod((x - n) as nat, n as nat);
    }
}

/// Writes one slot record: hash, key offset, key length, and (for maps)
/// the value.  Leaves every byte outside the slot's range untouched.
fn write_slot(
    slots: &mut Vec<u8>,
    with_value: bool,
    idx: usize,
    h: u64,
    key_off: u32,
    key_len: u16,
    val: u32,
)
    requires
        (idx as int) * slot_size_of(with_value) + slot_size_of(with_value) <= old(slots)@.len(),
        (idx as int) * slot_size_of(with_value) >= 0,
    ensures
        final(slots)@.len() == old(slots)@.len(),
        forall|j: int|
            0 <= j < old(slots)@.len() && !((idx as int) * slot_size_of(with_value) <= j < (
            idx as int) * slot_size_of(with_value) + slot_size_of(with_value))
                ==> final(slots)@[j] == old(slots)@[j],
        bs_hash(final(slots)@, slot_size_of(with_value), idx as int) == h,
        bs_key_off(final(slots)@, slot_size_of(with_value), idx as int) == key_off as int,
        bs_key_len(final(slots)@, slot_size_of(with_value), idx as int) == key_len as int,
        with_value ==> bs_val(final(slots)@, idx as int) == val,
{
    let sl = slots.len();
    let ss: usize = if with_value {
        18
    } else {
        14
    };
    let base = idx * ss;
    write_le64_at(slots, base, h);
    write_le32_at(slots, base + 8, key_off);
    write_le16_at(slots, base + 12, key_len);
    if with_value {
        write_le32_at(slots, base + 14, val);
    }
}

} // verus!

verus! {

pub proof fn lemma_count_empty(s: Seq<u8>, ss: int, k: int)
    requires
        forall|j: int| 0 <= j < k ==> !(#[trigger] bs_used(s, ss, j)),
    ensures
        count_used_upto(s, ss, k) == 0,
    decreases k,
{
    if k > 0 {
        lemma_count_empty(s, ss, k - 1);
    }
}

/// Packs `entries` into one frozen blob with slot layout chosen by
/// `with_value`.  The heart of the builder: linear-probe insertion that
/// provably lets every inserted key be found again.
#[verifier::loop_isolation(false)]
#[verifier::rlimit(100)]
fn build_table_entries(entries: &Vec<(Vec<u8>, u32)>, with_value: bool) -> (out: Vec<u8>)
    requires
        buildable(entries@),
    ensures
        tbl_wf(out@, slot_size_of(with_value)),
        tbl_num_entries(out@) == entries@.len(),
        forall|e: int|
            0 <= e < entries@.len() ==> tbl_has(
                out@,
                slot_size_of(with_value),
                #[trigger] entry_key(entries@, e),
            ),
        with_value ==> forall|e: int|
            0 <= e < entries@.len() ==> map_get_spec(out@, #[trigger] entry_key(entries@, e))
                == Some(entries@[e].1),
        forall|k: Seq<u8>|
            #[trigger] tbl_has(out@, slot_size_of(with_value), k) ==> exists|e: int|
                0 <= e < entries@.len() && entry_key(entries@, e) == k,
{
    let ghost ges = entries@;
    let ghost ssi = slot_size_of(with_value);
    let ghost wv = with_value;
    let m = entries.len();
    let n = table_capacity(m);
    let ss: usize = if with_value {
        18
    } else {
        14
    };
    proof {
        assert((n as int) * ssi <= (4 * (m as int) + 4) * 18) by (nonlinear_arith)
            requires
                1 <= n as int <= 4 * (m as int) + 4,
                1 <= ssi <= 18,
        ;
        assert((n as int) * ssi >= 0) by (nonlinear_arith)
            requires
                n as int >= 1,
                ssi >= 1,
        ;
    }
    let mut slots: Vec<u8> = vec![0u8; n * ss];
    let mut pool: Vec<u8> = Vec::new();
    let ghost mut slot_of: Seq<int> = Seq::empty();
    proof {
        assert forall|j: int| 0 <= j < n implies !(#[trigger] bs_used(slots@, ssi, j)) by {
            assert(j * ssi >= 0 && j * ssi + 8 <= (n as int) * ssi) by (nonlinear_arith)
                requires
                    0 <= j < n as int,
                    14 <= ssi <= 18,
            ;
        }
        lemma_count_empty(slots@, ssi, n as int);
        assert(build_inv(ges, slots@, pool@, slot_of, ssi, n as int, 0, wv));
    }
    let mut e: usize = 0;
    while e < m
        invariant
            e <= m,
            build_inv(ges, slots@, pool@, slot_of, ssi, n as int, e as int, wv),
        decreases m - e,
    {
        let klen = entries[e].0.len();
        let h = fnv_hash(entries[e].0.as_slice());
        let key_off = pool.len();
        proof {
            lemma_keys_size_mono(ges, e as int + 1, m as int);
            lemma_keys_size_nonneg(ges, e as int);
        }
        let ghost pool_before = pool@;
        let mut t: usize = 0;
        while t < klen
            invariant
                t <= klen,
                pool@ == pool_before + entry_key(ges, e as int).take(t as int),
            decreases klen - t,
        {
            pool.push(entries[e].0[t]);
            proof {
                assert(pool_before + entry_key(ges, e as int).take(t as int + 1) =~= (pool_before
                    + entry_key(ges, e as int).take(t as int)).push(
                    entry_key(ges, e as int)[t as int],
                ));
            }
            t += 1;
        }
        proof {
            assert(entry_key(ges, e as int).take(klen as int) =~= entry_key(ges, e as int));
            assert(pool@.len() == keys_size(ges, e as int + 1));
            assert forall|x: int| 0 <= x < e implies placed_at(
                ges,
                slots@,
                pool@,
                ssi,
                x,
                slot_of[x],
                wv,
            ) by {
                assert(placed_at(ges, slots@, pool_before, ssi, x, slot_of[x], wv));
                assert(pool@.subrange(
                    keys_size(ges, x),
                    keys_size(ges, x) + entry_key(ges, x).len(),
                ) =~= pool_before.subrange(
                    keys_size(ges, x),
                    keys_size(ges, x) + entry_key(ges, x).len(),
                ));
            }
            assert(pool@.subrange(keys_size(ges, e as int), keys_size(ges, e as int)
                + entry_key(ges, e as int).len()) =~= entry_key(ges, e as int));
        }
        let start_e = fast_reduce(h, n);
        let ghost start = start_e as int;
        proof {
            lemma_count_exists_empty(slots@, ssi, n as int);
        }
        let ghost iempty = choose|i: int| 0 <= i < n && !(#[trigger] bs_used(slots@, ssi, i));
        let ghost dempty = probe_dist(start, iempty, n as int);
        proof {
            lemma_probe_at_dist(start, iempty, n as int);
            vstd::arithmetic::div_mod::lemma_small_mod(start as nat, n as nat);
        }
        let mut idx = start_e;
        let mut step: usize = 0;
        let mut scanning = true;
        while scanning
            invariant
                step <= dempty,
                idx < n,
                idx as int == probe_at(start, step as int, n as int),
                forall|d: int|
                    0 <= d < step ==> bs_used(
                        slots@,
                        ssi,
                        #[trigger] probe_at(start, d, n as int),
                    ),
                !scanning ==> !bs_used(slots@, ssi, idx as int),
            decreases dempty - step + if scanning {
                1int
            } else {
                0int
            },
        {
            proof {
                assert((idx as int) * ssi + ssi <= (n as int) * ssi && (idx as int) * ssi >= 0)
                    by (nonlinear_arith)
                    requires
                        0 <= idx as int,
                        (idx as int) < n as int,
                        ssi >= 1,
                ;
            }
            let sh = read_u64(slots.as_slice(), idx * ss);
            if sh == 0 {
                scanning = false;
            } else {
                proof {
                    if step == dempty {
                        assert(idx as int == iempty);
                        assert(false);
                    }
                    lemma_probe_at_step(start, step as int, n as int);
                }
                idx += 1;
                if idx == n {
                    idx = 0;
                }
                step += 1;
            }
        }
        let ghost slots_before = slots@;
        proof {
            assert((idx as int) * ssi + ssi <= (n as int) * ssi && (idx as int) * ssi >= 0)
                by (nonlinear_arith)
                requires
                    0 <= idx as int,
                    (idx as int) < n as int,
                    ssi >= 1,
            ;
        }
        write_slot(&mut slots, with_value, idx, h, key_off as u32, klen as u16, entries[e].1);
        proof {
            lemma_other_slots_unchanged(slots_before, slots@, ssi, idx as int, n as int);
            lemma_count_grow(slots_before, slots@, ssi, n as int, idx as int);
            lemma_probe_dist_of_at(start, step as int, n as int);
            let slot_of_before = slot_of;
            slot_of = slot_of.push(idx as int);
            assert forall|j: int| 0 <= j < n && bs_used(slots_before, ssi, j) implies bs_used(
                slots@,
                ssi,
                j,
            ) by {}
            assert(placed_at(ges, slots@, pool@, ssi, e as int, idx as int, wv));
            assert forall|x: int| 0 <= x < e + 1 implies placed_at(
                ges,
                slots@,
                pool@,
                ssi,
                x,
                slot_of[x],
                wv,
            ) by {
                if x < e {
                    assert(placed_at(ges, slots_before, pool@, ssi, x, slot_of[x], wv));
                    crate::frozen::lemma_fnv_nonzero(entry_key(ges, x));
                    assert(bs_used(slots_before, ssi, slot_of[x]));
                    assert(slot_of[x] != idx as int);
                }
            }
            assert(path_ok(slots@, ssi, n as int, idx as int)) by {
                assert(bs_hash(slots@, ssi, idx as int) == h);
                assert(probe_dist(start, idx as int, n as int) == step);
                assert forall|k: int|
                    0 <= k <= probe_dist(
                        fast_reduce_spec(bs_hash(slots@, ssi, idx as int), n as int),
                        idx as int,
                        n as int,
                    ) implies bs_used(
                    slots@,
                    ssi,
                    #[trigger] probe_at(
                        fast_reduce_spec(bs_hash(slots@, ssi, idx as int), n as int),
                        k,
                        n as int,
                    ),
                ) by {
                    if k < step {
                        assert(bs_used(slots_before, ssi, probe_at(start, k, n as int)));
                    } else {
                        assert(probe_at(start, k, n as int) == idx as int);
                    }
                }
            }
            assert forall|x: int| 0 <= x < e + 1 implies path_ok(
                slots@,
                ssi,
                n as int,
                slot_of[x],
            ) by {
                if x < e {
                    assert(path_ok(slots_before, ssi, n as int, slot_of[x]));
                    assert(placed_at(ges, slots_before, pool@, ssi, x, slot_of[x], wv));
                    crate::frozen::lemma_fnv_nonzero(entry_key(ges, x));
                    assert(bs_used(slots_before, ssi, slot_of[x]));
                    assert(slot_of[x] != idx as int);
                    assert(bs_hash(slots@, ssi, slot_of[x]) == bs_hash(
                        slots_before,
                        ssi,
                        slot_of[x],
                    ));
                    let st = fast_reduce_spec(bs_hash(slots@, ssi, slot_of[x]), n as int);
                    assert forall|k: int|
                        0 <= k <= probe_dist(st, slot_of[x], n as int) implies bs_used(
                        slots@,
                        ssi,
                        #[trigger] probe_at(st, k, n as int),
                    ) by {
                        assert(bs_used(slots_before, ssi, probe_at(st, k, n as int)));
                    }
                }
            }
            assert forall|i: int| 0 <= i < n && bs_used(slots@, ssi, i) implies exists|x: int|
                0 <= x < e + 1 && #[trigger] slot_of[x] == i by {
                if i == idx as int {
                    assert(slot_of[e as int] == i);
                } else {
                    assert(bs_used(slots_before, ssi, i));
                    let x = choose|x: int| 0 <= x < e && #[trigger] slot_of_before[x] == i;
                    assert(slot_of[x] == i);
                }
            }
            assert(build_inv(ges, slots@, pool@, slot_of, ssi, n as int, e as int + 1, wv));
        }
        e += 1;
    }
    let pool_len = pool.len();
    let mut out: Vec<u8> = Vec::new();
    push_le32(&mut out, n as u32);
    let ghost h1 = out@;
    push_le32(&mut out, m as u32);
    let ghost h2 = out@;
    push_le32(&mut out, pool_len as u32);
    let ghost hdr = out@;
    let ghost gslots = slots@;
    let ghost gpool = pool@;
    out.append(&mut slots);
    out.append(&mut pool);
    proof {
        assert(out@ =~= hdr + gslots + gpool);
        assert forall|i: int| 0 <= i < 4 implies h2[i] == h1[i] by {
            assert(h2.take(4)[i] == h2[i]);
        }
        assert forall|i: int| 0 <= i < 8 implies hdr[i] == h2[i] by {
            assert(hdr.take(8)[i] == hdr[i]);
        }
        assert(le32(hdr, 0) == n as u32);
        assert(le32(hdr, 4) == m as u32);
        assert(le32(hdr, 8) == pool_len as u32);
        assert forall|i: int| 0 <= i < 12 implies out@[i] == hdr[i] by {}
        assert(le32(out@, 0) as int == n as int);
        assert(le32(out@, 4) as int == m as int);
        assert(le32(out@, 8) as int == gpool.len());
        assert forall|b: int| 0 <= b < (n as int) * ssi implies out@[12 + b] == gslots[b] by {}
        assert forall|p: int| 0 <= p < gpool.len() implies out@[12 + (n as int) * ssi + p]
            == gpool[p] by {}
        lemma_assemble(out@, ges, gslots, gpool, slot_of, ssi, n as int, m as int, wv);
    }
    out
}

} // verus!

verus! {

/// Carries the insertion-phase invariant over to the assembled blob:
/// the finished table is well formed, holds exactly the built entries,
/// and (for maps) returns each entry's value.
#[verifier::rlimit(100)]
proof fn lemma_assemble(
    out: Seq<u8>,
    ges: Seq<(Vec<u8>, u32)>,
    gslots: Seq<u8>,
    gpool: Seq<u8>,
    slot_of: Seq<int>,
    ssi: int,
    n: int,
    m: int,
    wv: bool,
)
    requires
        buildable(ges),
        ges.len() == m,
        n > m,
        n >= 1,
        build_inv(ges, gslots, gpool, slot_of, ssi, n, m, wv),
        out.len() == 12 + n * ssi + gpool.len(),
        le32(out, 0) as int == n,
        le32(out, 4) as int == m,
        le32(out, 8) as int == gpool.len(),
        forall|b: int| 0 <= b < n * ssi ==> out[12 + b] == gslots[b],
        forall|p: int| 0 <= p < gpool.len() ==> out[12 + n * ssi + p] == gpool[p],
    ensures
        tbl_wf(out, ssi),
        tbl_num_entries(out) as int == m,
        forall|e: int| 0 <= e < m ==> tbl_has(out, ssi, #[trigger] entry_key(ges, e)),
        wv ==> forall|e: int|
            0 <= e < m ==> map_get_spec(out, #[trigger] entry_key(ges, e)) == Some(ges[e].1),
        forall|k: Seq<u8>|
            #[trigger] tbl_has(out, ssi, k) ==> exists|e: int|
                0 <= e < m && entry_key(ges, e) == k,
{
    assert(tbl_num_slots(out) == n);
    assert(tbl_pool_len(out) == gpool.len());
    assert(tbl_size(out, ssi) == out.len());
    assert(ssi == 14 || ssi == 18);
    assert forall|i: int|
        #![trigger bs_hash(gslots, ssi, i)]
        #![trigger crate::frozen::slot_hash(out, ssi, i)]
        #![trigger crate::frozen::slot_key(out, ssi, i)]
        0 <= i < n implies crate::frozen::slot_hash(out, ssi, i) == bs_hash(gslots, ssi, i)
        && crate::frozen::slot_key_off(out, ssi, i) == bs_key_off(gslots, ssi, i)
        && crate::frozen::slot_key_len(out, ssi, i) == bs_key_len(gslots, ssi, i) && (ssi == 18
        ==> crate::frozen::slot_val(out, i) == bs_val(gslots, i)) by {
        assert(i * ssi >= 0 && i * ssi + ssi <= n * ssi) by (nonlinear_arith)
            requires
                0 <= i < n,
                14 <= ssi <= 18,
        ;
        assert(out[12 + (i * ssi + 0)] == gslots[i * ssi + 0]);
        assert(out[12 + (i * ssi + 1)] == gslots[i * ssi + 1]);
        assert(out[12 + (i * ssi + 2)] == gslots[i * ssi + 2]);
        assert(out[12 + (i * ssi + 3)] == gslots[i * ssi + 3]);
        assert(out[12 + (i * ssi + 4)] == gslots[i * ssi + 4]);
        assert(out[12 + (i * ssi + 5)] == gslots[i * ssi + 5]);
        assert(out[12 + (i * ssi + 6)] == gslots[i * ssi + 6]);
        assert(out[12 + (i * ssi + 7)] == gslots[i * ssi + 7]);
        assert(out[12 + (i * ssi + 8)] == gslots[i * ssi + 8]);
        assert(out[12 + (i * ssi + 9)] == gslots[i * ssi + 9]);
        assert(out[12 + (i * ssi + 10)] == gslots[i * ssi + 10]);
        assert(out[12 + (i * ssi + 11)] == gslots[i * ssi + 11]);
        assert(out[12 + (i * ssi + 12)] == gslots[i * ssi + 12]);
        assert(out[12 + (i * ssi + 13)] == gslots[i * ssi + 13]);
        if ssi == 18 {
            assert(out[12 + (i * ssi + 14)] == gslots[i * ssi + 14]);
            assert(out[12 + (i * ssi + 15)] == gslots[i * ssi + 15]);
            assert(out[12 + (i * ssi + 16)] == gslots[i * ssi + 16]);
            assert(out[12 + (i * ssi + 17)] == gslots[i * ssi + 17]);
        }
    }
    assert forall|i: int| 0 <= i < n && bs_used(gslots, ssi, i) implies crate::frozen::slot_key(
        out,
        ssi,
        i,
    ) == entry_key(ges, choose|x: int| 0 <= x < m && #[trigger] slot_of[x] == i) by {
        assert(exists|x: int| 0 <= x < m && #[trigger] slot_of[x] == i);
        let x = choose|x: int| 0 <= x < m && #[trigger] slot_of[x] == i;
        assert(placed_at(ges, gslots, gpool, ssi, x, i, wv));
        let ko = bs_key_off(gslots, ssi, i);
        let kl = bs_key_len(gslots, ssi, i);
        assert(ko == keys_size(ges, x));
        assert(kl == entry_key(ges, x).len());
        assert(crate::frozen::slot_key(out, ssi, i) =~= entry_key(ges, x)) by {
            assert forall|p: int| 0 <= p < kl implies out[12 + n * ssi + ko + p] == entry_key(
                ges,
                x,
            )[p] by {
                assert(out[12 + n * ssi + (ko + p)] == gpool[ko + p]);
                assert(gpool.subrange(ko, ko + kl)[p] == gpool[ko + p]);
            }
        }
    }
    assert forall|i: int|
        0 <= i < n && #[trigger] crate::frozen::slot_used(out, ssi, i) implies {
        &&& 0 <= crate::frozen::slot_key_off(out, ssi, i)
        &&& crate::frozen::slot_key_off(out, ssi, i) + crate::frozen::slot_key_len(out, ssi, i)
            <= tbl_pool_len(out)
        &&& crate::frozen::slot_hash(out, ssi, i) == fnv_spec(crate::frozen::slot_key(out, ssi, i))
    } by {
        assert(bs_used(gslots, ssi, i));
        assert(exists|x: int| 0 <= x < m && #[trigger] slot_of[x] == i);
        let x = choose|x: int| 0 <= x < m && #[trigger] slot_of[x] == i;
        assert(placed_at(ges, gslots, gpool, ssi, x, i, wv));
        lemma_keys_size_nonneg(ges, x);
    }
    assert forall|i: int, j: int|
        0 <= i < n && 0 <= j < n && i != j && crate::frozen::slot_used(out, ssi, i)
            && crate::frozen::slot_used(out, ssi, j) implies #[trigger] crate::frozen::slot_key(
        out,
        ssi,
        i,
    ) != #[trigger] crate::frozen::slot_key(out, ssi, j) by {
        assert(bs_used(gslots, ssi, i));
        assert(bs_used(gslots, ssi, j));
        assert(exists|x: int| 0 <= x < m && #[trigger] slot_of[x] == i);
        assert(exists|y: int| 0 <= y < m && #[trigger] slot_of[y] == j);
        let x = choose|x: int| 0 <= x < m && #[trigger] slot_of[x] == i;
        let y = choose|y: int| 0 <= y < m && #[trigger] slot_of[y] == j;
        assert(x != y);
        assert(entry_key(ges, x) != entry_key(ges, y));
    }
    assert forall|i: int, k: int|
        0 <= i < n && crate::frozen::slot_used(out, ssi, i) && 0 <= k <= probe_dist(
            crate::frozen::probe_start(out, ssi, i),
            i,
            tbl_num_slots(out) as int,
        ) implies crate::frozen::slot_used(
        out,
        ssi,
        #[trigger] probe_at(
            crate::frozen::probe_start(out, ssi, i),
            k,
            tbl_num_slots(out) as int,
        ),
    ) by {
        assert(bs_used(gslots, ssi, i));
        assert(exists|x: int| 0 <= x < m && #[trigger] slot_of[x] == i);
        let x = choose|x: int| 0 <= x < m && #[trigger] slot_of[x] == i;
        assert(path_ok(gslots, ssi, n, slot_of[x]));
        assert(path_ok(gslots, ssi, n, i));
        assert(crate::frozen::probe_start(out, ssi, i) == fast_reduce_spec(
            bs_hash(gslots, ssi, i),
            n,
        ));
        assert(bs_used(gslots, ssi, probe_at(fast_reduce_spec(bs_hash(gslots, ssi, i), n), k, n)));
    }
    assert(tbl_wf(out, ssi));
    assert forall|e: int| 0 <= e < m implies tbl_has(out, ssi, #[trigger] entry_key(ges, e)) by {
        let i = slot_of[e];
        assert(placed_at(ges, gslots, gpool, ssi, e, i, wv));
        crate::frozen::lemma_fnv_nonzero(entry_key(ges, e));
        assert(bs_used(gslots, ssi, i));
        let x = choose|x: int| 0 <= x < m && #[trigger] slot_of[x] == i;
        assert(x == e);
        assert(crate::frozen::slot_used(out, ssi, i) && crate::frozen::slot_key(out, ssi, i)
            == entry_key(ges, e));
    }
    if wv {
        assert forall|e: int| 0 <= e < m implies map_get_spec(out, #[trigger] entry_key(ges, e))
            == Some(ges[e].1) by {
            let i = slot_of[e];
            assert(placed_at(ges, gslots, gpool, ssi, e, i, wv));
            crate::frozen::lemma_fnv_nonzero(entry_key(ges, e));
            assert(bs_used(gslots, ssi, i));
            let x = choose|x: int| 0 <= x < m && #[trigger] slot_of[x] == i;
            assert(x == e);
            assert(crate::frozen::slot_used(out, ssi, i) && crate::frozen::slot_key(out, ssi, i)
                == entry_key(ges, e));
            assert(tbl_has(out, 18, entry_key(ges, e)));
            let j = crate::frozen::tbl_index_of(out, 18, entry_key(ges, e));
            assert(0 <= j < n && crate::frozen::slot_used(out, 18, j) && crate::frozen::slot_key(
                out,
                18,
                j,
            ) == entry_key(ges, e));
            if j != i {
                assert(crate::frozen::slot_key(out, ssi, i) != crate::frozen::slot_key(
                    out,
                    ssi,
                    j,
                ));
                assert(false);
            }
            assert(crate::frozen::map_value_of(out, entry_key(ges, e)) == crate::frozen::slot_val(
                out,
                i,
            ));
            assert(bs_val(gslots, i) == ges[e].1);
        }
    }
    assert forall|k: Seq<u8>| #[trigger] tbl_has(out, ssi, k) implies exists|e: int|
        0 <= e < m && entry_key(ges, e) == k by {
        let i = choose|i: int|
            0 <= i < tbl_num_slots(out) && crate::frozen::slot_used(out, ssi, i)
                && #[trigger] crate::frozen::slot_key(out, ssi, i) == k;
        assert(bs_used(gslots, ssi, i));
        assert(exists|x: int| 0 <= x < m && #[trigger] slot_of[x] == i);
        let x = choose|x: int| 0 <= x < m && #[trigger] slot_of[x] == i;
        assert(entry_key(ges, x) == crate::frozen::slot_key(out, ssi, i));
    }
}

} // verus!

verus! {

/// Builds a frozen map blob from `(key, value)` entries.
///
/// Every entry can then be read back: `frozen_map_get` returns exactly the
/// inserted value for each inserted key, and `None` for any other key.
pub fn build_frozen_map(entries: &Vec<(Vec<u8>, u32)>) -> (out: Vec<u8>)
    requires
        buildable(entries@),
    ensures
        tbl_wf(out@, 18),
        tbl_num_entries(out@) == entries@.len(),
        forall|e: int|
            0 <= e < entries@.len() ==> map_get_spec(out@, #[trigger] entry_key(entries@, e))
                == Some(entries@[e].1),
        forall|k: Seq<u8>|
            #[trigger] tbl_has(out@, 18, k) ==> exists|e: int|
                0 <= e < entries@.len() && entry_key(entries@, e) == k,
{
    build_table_entries(entries, true)
}

/// Builds a frozen set blob from a key list.
///
/// `frozen_set_contains` on the result accepts exactly the inserted keys.
pub fn build_frozen_set(keys: &Vec<Vec<u8>>) -> (out: Vec<u8>)
    requires
        keys@.len() <= 0x0010_0000,
        forall|e: int| 0 <= e < keys@.len() ==> (#[trigger] keys@[e]@).len() <= 0xFFFF,
        set_keys_size(keys@, keys@.len() as int) <= 0x0100_0000,
        forall|i: int, j: int|
            0 <= i < keys@.len() && 0 <= j < keys@.len() && i != j ==> #[trigger] keys@[i]@
                != #[trigger] keys@[j]@,
    ensures
        tbl_wf(out@, 14),
        tbl_num_entries(out@) == keys@.len(),
        forall|e: int| 0 <= e < keys@.len() ==> tbl_has(out@, 14, #[trigger] keys@[e]@),
        forall|k: Seq<u8>|
            #[trigger] tbl_has(out@, 14, k) ==> exists|e: int|
                0 <= e < keys@.len() && keys@[e]@ == k,
{
    let mut entries: Vec<(Vec<u8>, u32)> = Vec::new();
    let mut i: usize = 0;
    while i < keys.len()
        invariant
            i <= keys@.len(),
            entries@.len() == i,
            forall|e: int| 0 <= e < i ==> #[trigger] entry_key(entries@, e) == keys@[e]@,
        decreases keys@.len() - i,
    {
        let mut kcopy: Vec<u8> = Vec::new();
        let klen = keys[i].len();
        let mut t: usize = 0;
        while t < klen
            invariant
                t <= klen,
                i < keys@.len(),
                klen == keys@[i as int]@.len(),
                kcopy@ == keys@[i as int]@.take(t as int),
            decreases klen - t,
        {
            kcopy.push(keys[i][t]);
            proof {
                assert(keys@[i as int]@.take(t as int).push(keys@[i as int]@[t as int])
                    =~= keys@[i as int]@.take(t as int + 1));
            }
            t += 1;
        }
        proof {
            assert(keys@[i as int]@.take(klen as int) =~= keys@[i as int]@);
        }
        let ghost eb = entries@;
        entries.push((kcopy, 0u32));
        proof {
            assert(entry_key(entries@, i as int) == keys@[i as int]@);
            assert forall|e: int| 0 <= e < i + 1 implies #[trigger] entry_key(entries@, e)
                == keys@[e]@ by {
                if e < i {
                    assert(entries@[e] == eb[e]);
                    assert(entry_key(eb, e) == keys@[e]@);
                }
            }
        }
        i += 1;
    }
    proof {
        lemma_set_keys_size_eq(entries@, keys@, keys@.len() as int);
        assert(buildable(entries@));
    }
    let out = build_table_entries(&entries, false);
    proof {
        assert forall|e: int| 0 <= e < keys@.len() implies tbl_has(
            out@,
            14,
            #[trigger] keys@[e]@,
        ) by {
            assert(tbl_has(out@, 14, entry_key(entries@, e)));
        }
    }
    out
}

/// Total byte length of the first `m` keys of a plain key list.
pub open spec fn set_keys_size(keys: Seq<Vec<u8>>, m: int) -> int
    decreases m,
{
    if m <= 0 {
        0
    } else {
        set_keys_size(keys, m - 1) + keys[m - 1]@.len()
    }
}

proof fn lemma_set_keys_size_eq(entries: Seq<(Vec<u8>, u32)>, keys: Seq<Vec<u8>>, m: int)
    requires
        m <= entries.len(),
        m <= keys.len(),
        forall|e: int| 0 <= e < m ==> #[trigger] entry_key(entries, e) == keys[e]@,
    ensures
        keys_size(entries, m) == set_keys_size(keys, m),
    decreases m,
{
    if m > 0 {
        lemma_set_keys_size_eq(entries, keys, m - 1);
    }
}

} // verus!

verus! {

/// Number of `true` entries among the first `k`.
pub open spec fn count_true(s: Seq<bool>, k: int) -> int
    decreases k,
{
    if k <= 0 {
        0
    } else {
        count_true(s, k - 1) + if s[k - 1] {
            1int
        } else {
            0int
        }
    }
}

proof fn lemma_count_true_le(s: Seq<bool>, k: int)
    requires
        k >= 0,
    ensures
        count_true(s, k) <= k,
        count_true(s, k) >= 0,
    decreases k,
{
    if k > 0 {
        lemma_count_true_le(s, k - 1);
    }
}

proof fn lemma_count_true_set(s1: Seq<bool>, s2: Seq<bool>, k: int, t: int)
    requires
        0 <= t,
        !s1[t],
        s2 == s1.update(t, true),
        t < s1.len(),
    ensures
        t < k <= s1.len() ==> count_true(s2, k) == count_true(s1, k) + 1,
        k <= t ==> count_true(s2, k) == count_true(s1, k),
    decreases k,
{
    if k > 0 {
        lemma_count_true_set(s1, s2, k - 1, t);
    }
}

/// Smallest offset `b` such that every child byte `k` lands on an
/// unoccupied cell `b + k` (cells past the current end count as free).
#[verifier::loop_isolation(false)]
fn find_base(keys: &Vec<u8>, occupied: &Vec<bool>) -> (b: usize)
    requires
        keys@.len() >= 1,
        occupied@.len() <= 0x4000_0000,
    ensures
        b <= occupied@.len(),
        forall|k: int|
            0 <= k < keys@.len() ==> (b + keys@[k] >= occupied@.len() || !occupied@[b
                + #[trigger] keys@[k]]),
{
    let mut b: usize = 0;
    loop
        invariant
            b <= occupied@.len(),
        decreases occupied@.len() - b,
    {
        let mut ok = true;
        let mut t: usize = 0;
        while t < keys.len()
            invariant
                t <= keys@.len(),
                ok ==> forall|k: int|
                    0 <= k < t ==> (b + keys@[k] >= occupied@.len() || !occupied@[b
                        + #[trigger] keys@[k]]),
                !ok ==> b < occupied@.len(),
            decreases keys@.len() - t,
        {
            let pos = b + keys[t] as usize;
            if pos < occupied.len() && occupied[pos] {
                ok = false;
                t = keys.len();
            } else {
                t += 1;
            }
        }
        if ok {
            return b;
        }
        b += 1;
    }
}

/// Builds the in-memory edge-labeled trie, then packs it breadth-first
/// into the double-array form.  Returns `None` only if the packed array
/// would outgrow the 31-bit state indices `check` can store, which no
/// realistic vocabulary approaches.
#[verifier::loop_isolation(false)]
#[verifier::rlimit(100)]
pub fn build_trie(vocab: &Vec<Vec<u8>>) -> (r: Option<crate::claude::DATrie>)
    requires
        set_keys_size(vocab@, vocab@.len() as int) <= 0x0010_0000,
    ensures
        r.is_some(),
        r.is_some() ==> r.unwrap().wf() && r.unwrap().root == 0u32,
        r.is_some() ==> forall|x: int|
            0 <= x < vocab@.len() && (#[trigger] vocab@[x])@.len() >= 1 ==> r.unwrap().walk_accepts(
                vocab@[x]@,
                0,
                r.unwrap().root as int,
            ),
{
    let nv = vocab.len();
    let mut node_children: Vec<Vec<(u8, u32)>> = Vec::new();
    node_children.push(Vec::new());
    let mut node_terminal: Vec<bool> = Vec::new();
    node_terminal.push(false);
    let mut v: usize = 0;
    while v < nv
        invariant
            v <= nv,
            node_children@.len() == node_terminal@.len(),
            1 <= node_children@.len(),
            node_children@.len() <= 1 + set_keys_size(vocab@, v as int),
            rows_bounded(node_children@),
            rows_unique(node_children@),
            parent_unique(node_children@),
            forall|p: int, c: int|
                0 <= p < node_children@.len() && 0 <= c < node_children@[p]@.len()
                    ==> (#[trigger] node_children@[p]@[c]).1 >= 1,
            forall|n: int|
                1 <= n < node_children@.len() ==> #[trigger] has_parent(node_children@, n),
            forall|x: int|
                0 <= x < v ==> tri_accepts(node_children@, node_terminal@, (#[trigger] vocab@[x])@),
        decreases nv - v,
    {
        proof {
            lemma_set_keys_size_mono(vocab@, v as int + 1, nv as int);
            lemma_set_keys_size_nonneg(vocab@, v as int);
        }
        let ghost token = vocab@[v as int]@;
        let tok_len = vocab[v].len();
        let mut cur: usize = 0;
        let mut t: usize = 0;
        while t < tok_len
            invariant
                t <= tok_len,
                tok_len == token.len(),
                token == vocab@[v as int]@,
                v < nv,
                cur < node_children@.len(),
                node_children@.len() == node_terminal@.len(),
                node_children@.len() <= 1 + set_keys_size(vocab@, v as int) + t,
                rows_bounded(node_children@),
                rows_unique(node_children@),
                parent_unique(node_children@),
                forall|p: int, c: int|
                    0 <= p < node_children@.len() && 0 <= c < node_children@[p]@.len()
                        ==> (#[trigger] node_children@[p]@[c]).1 >= 1,
                forall|n: int|
                    1 <= n < node_children@.len() ==> #[trigger] has_parent(node_children@, n),
                forall|x: int|
                    0 <= x < v ==> tri_accepts(
                        node_children@,
                        node_terminal@,
                        (#[trigger] vocab@[x])@,
                    ),
                tri_reaches(node_children@, 0, token, 0, t as int, cur as int),
            decreases tok_len - t,
        {
            let byte = vocab[v][t];
            let mut found: u32 = 0;
            let mut have = false;
            let row_len = node_children[cur].len();
            let ghost row = node_children@[cur as int]@;
            let mut j: usize = 0;
            while j < row_len
                invariant
                    j <= row_len,
                    cur < node_children@.len(),
                    row == node_children@[cur as int]@,
                    row_len == row.len(),
                    !have ==> row_find(row, byte, 0) == row_find(row, byte, j as int),
                    have ==> row_find(row, byte, 0) == Some(found),
                    have ==> j == row_len,
                    have ==> (found as int) < node_children@.len(),
                decreases row_len - j,
            {
                let (k, idx) = node_children[cur][j];
                proof {
                    assert(row[j as int] == (k, idx));
                }
                if k == byte {
                    proof {
                        assert(row_find(row, byte, j as int) == Some(idx));
                    }
                    found = idx;
                    have = true;
                    j = row_len;
                } else {
                    proof {
                        assert(row_find(row, byte, j as int) == row_find(row, byte, j as int + 1));
                    }
                    j += 1;
                }
            }
            if have {
                proof {
                    lemma_reaches_step(
                        node_children@,
                        token,
                        0,
                        t as int,
                        0,
                        cur as int,
                        found,
                    );
                }
                cur = found as usize;
            } else {
                let idx = node_children.len();
                proof {
                    lemma_set_keys_size_mono(vocab@, v as int + 1, nv as int);
                    lemma_set_keys_size_nonneg(vocab@, v as int);
                    assert(row_find(row, byte, row.len() as int).is_none());
                    lemma_row_find_none(row, byte, 0);
                }
                let ghost ch1 = node_children@;
                let ghost term1 = node_terminal@;
                node_children.push(Vec::new());
                node_terminal.push(false);
                let ghost chmid = node_children@;
                node_children[cur].push((byte, idx as u32));
                let ghost ch2 = node_children@;
                let ghost entry = (byte, idx as u32);
                proof {
                    assert(chmid.len() == ch1.len() + 1);
                    assert(forall|n: int| 0 <= n < ch1.len() ==> (#[trigger] chmid[n])@ == ch1[n]@);
                    assert(rows_bounded(chmid)) by {
                        assert forall|p: int, c: int|
                            0 <= p < chmid.len() && 0 <= c < chmid[p]@.len() implies ((
                        #[trigger] chmid[p]@[c]).1 as int) < chmid.len() by {
                            if p < ch1.len() {
                                assert(chmid[p]@ == ch1[p]@);
                            } else {
                                assert(chmid[p]@.len() == 0);
                            }
                        }
                    }
                    assert(ch2[cur as int]@ == chmid[cur as int]@.push(entry));
                    assert(forall|n: int|
                        0 <= n < chmid.len() && n != cur as int ==> (#[trigger] ch2[n])@
                            == chmid[n]@);
                    // the new walks and rows stay well formed
                    assert(rows_bounded(ch2)) by {
                        assert forall|p: int, c: int|
                            0 <= p < ch2.len() && 0 <= c < ch2[p]@.len() implies ((
                        #[trigger] ch2[p]@[c]).1 as int) < ch2.len() by {
                            if p == cur as int {
                                if c < ch2[p]@.len() - 1 {
                                    assert(ch2[p]@[c] == chmid[p]@[c]);
                                }
                            } else {
                                assert(ch2[p]@ == chmid[p]@);
                            }
                        }
                    }
                    assert(rows_unique(ch2)) by {
                        assert forall|p: int, a: int, b2: int|
                            0 <= p < ch2.len() && 0 <= a < b2 < ch2[p]@.len() implies (
                        #[trigger] ch2[p]@[a]).0 != (#[trigger] ch2[p]@[b2]).0 by {
                            if p == cur as int {
                                if b2 < ch2[p]@.len() - 1 {
                                    assert(ch2[p]@[a] == row[a]);
                                    assert(ch2[p]@[b2] == row[b2]);
                                } else {
                                    assert(ch2[p]@[a] == row[a]);
                                    assert(ch2[p]@[b2] == entry);
                                    assert(row[a].0 != byte);
                                }
                            } else if p < ch1.len() {
                                assert(ch2[p]@ == ch1[p]@);
                            } else {
                                assert(ch2[p]@.len() <= 1);
                            }
                        }
                    }
                    assert forall|p: int, c: int|
                        0 <= p < ch2.len() && 0 <= c < ch2[p]@.len() implies (
                    #[trigger] ch2[p]@[c]).1 >= 1 by {
                        if p == cur as int {
                            if c < ch2[p]@.len() - 1 {
                                assert(ch2[p]@[c] == ch1[p]@[c]);
                            } else {
                                assert(ch2[p]@[c] == entry);
                            }
                        } else if p < ch1.len() {
                            assert(ch2[p]@ == ch1[p]@);
                        } else {
                            assert(ch2[p]@.len() == 0);
                        }
                    }
                    assert(parent_unique(ch2)) by {
                        assert forall|p1: int, j1: int, p2: int, j2: int|
                            0 <= p1 < ch2.len() && 0 <= j1 < ch2[p1]@.len() && 0 <= p2 < ch2.len()
                                && 0 <= j2 < ch2[p2]@.len() && (#[trigger] ch2[p1]@[j1]).1 == (
                        #[trigger] ch2[p2]@[j2]).1 implies p1 == p2 && j1 == j2 by {
                            let old1 = p1 != cur as int || j1 < ch1[cur as int]@.len();
                            let old2 = p2 != cur as int || j2 < ch1[cur as int]@.len();
                            if old1 {
                                if p1 == cur as int {
                                    assert(ch2[p1]@[j1] == ch1[p1]@[j1]);
                                } else if p1 < ch1.len() {
                                    assert(ch2[p1]@ == ch1[p1]@);
                                } else {
                                    assert(ch2[p1]@.len() == 0);
                                }
                            } else {
                                assert(ch2[p1]@[j1] == entry);
                            }
                            if old2 {
                                if p2 == cur as int {
                                    assert(ch2[p2]@[j2] == ch1[p2]@[j2]);
                                } else if p2 < ch1.len() {
                                    assert(ch2[p2]@ == ch1[p2]@);
                                } else {
                                    assert(ch2[p2]@.len() == 0);
                                }
                            } else {
                                assert(ch2[p2]@[j2] == entry);
                            }
                            if old1 && old2 {
                            } else if !old1 && !old2 {
                            } else if old1 && !old2 {
                                assert(((ch2[p1]@[j1]).1 as int) < ch1.len());
                                assert(false);
                            } else {
                                assert(((ch2[p2]@[j2]).1 as int) < ch1.len());
                                assert(false);
                            }
                        }
                    }
                    assert forall|n: int| 1 <= n < ch2.len() implies #[trigger] has_parent(
                        ch2,
                        n,
                    ) by {
                        if n < ch1.len() {
                            assert(has_parent(ch1, n));
                            let (pp, jj) = choose|pp: int, jj: int|
                                0 <= pp < n && 0 <= jj < ch1[pp]@.len() && (
                                #[trigger] ch1[pp]@[jj]).1 as int == n;
                            if pp == cur as int {
                                assert(ch2[pp]@[jj] == ch1[pp]@[jj]);
                            } else {
                                assert(ch2[pp]@ == ch1[pp]@);
                            }
                            assert((ch2[pp]@[jj]).1 as int == n);
                        } else if n == idx as int {
                            assert(ch2[cur as int]@[row.len() as int] == entry);
                            assert((cur as int) < n);
                        } else {
                            assert(false);
                        }
                    }
                    // prior tokens stay accepted
                    assert forall|x: int| 0 <= x < v implies tri_accepts(
                        ch2,
                        node_terminal@,
                        (#[trigger] vocab@[x])@,
                    ) by {
                        assert(tri_accepts(ch1, term1, vocab@[x]@));
                        let tok = vocab@[x]@;
                        let q = choose|q: int|
                            0 <= q < term1.len() && term1[q] && #[trigger] tri_reaches(
                                ch1,
                                0,
                                tok,
                                0,
                                tok.len() as int,
                                q,
                            );
                        lemma_reaches_extend_nodes(ch1, chmid, tok, 0, tok.len() as int, 0, q);
                        lemma_reaches_append_entry(
                            chmid,
                            ch2,
                            cur as int,
                            entry,
                            tok,
                            0,
                            tok.len() as int,
                            0,
                            q,
                        );
                        assert(node_terminal@[q] == term1[q]);
                    }
                    // the walk so far survives, then extends over the new edge
                    lemma_reaches_extend_nodes(ch1, chmid, token, 0, t as int, 0, cur as int);
                    lemma_reaches_append_entry(
                        chmid,
                        ch2,
                        cur as int,
                        entry,
                        token,
                        0,
                        t as int,
                        0,
                        cur as int,
                    );
                    lemma_row_find_append(row, entry, byte, 0);
                    assert(row_find(ch2[cur as int]@, byte, 0) == Some(idx as u32));
                    lemma_reaches_step(ch2, token, 0, t as int, 0, cur as int, idx as u32);
                }
                cur = idx;
            }
            t += 1;
        }
        let ghost term_before = node_terminal@;
        node_terminal.set(cur, true);
        proof {
            assert forall|x: int| 0 <= x < v + 1 implies tri_accepts(
                node_children@,
                node_terminal@,
                (#[trigger] vocab@[x])@,
            ) by {
                if x < v {
                    let tok = vocab@[x]@;
                    assert(tri_accepts(node_children@, term_before, tok));
                    let q = choose|q: int|
                        0 <= q < term_before.len() && term_before[q] && #[trigger] tri_reaches(
                            node_children@,
                            0,
                            tok,
                            0,
                            tok.len() as int,
                            q,
                        );
                    assert(node_terminal@[q]);
                } else {
                    assert(node_terminal@[cur as int]);
                    assert(tri_reaches(node_children@, 0, token, 0, token.len() as int, cur as int));
                }
            }
        }
        v += 1;
    }
    let num_nodes = node_children.len();
    let ghost gch = node_children@;
    let ghost gterm = node_terminal@;
    let initial_size = num_nodes + 512;
    let mut base: Vec<u32> = vec![0u32; initial_size];
    let mut check: Vec<u32> = vec![crate::claude::EMPTY_CELL; initial_size];
    let mut occupied: Vec<bool> = vec![false; initial_size];
    let mut da_pos: Vec<u32> = vec![0u32; num_nodes];
    occupied.set(0, true);
    let mut seen: Vec<bool> = vec![false; num_nodes];
    let ghost seen0 = seen@;
    seen.set(0, true);
    proof {
        lemma_count_true_none(seen0, num_nodes as int);
        lemma_count_true_set(seen0, seen@, num_nodes as int, 0);
    }
    let mut queue: Vec<usize> = Vec::new();
    queue.push(0);
    proof {
        assert(queue@[0] as int == 0);
        assert forall|m: int| 0 <= m < num_nodes && seen@[m] implies exists|q: int|
            0 <= q < queue@.len() && (#[trigger] queue@[q] as int) == m by {
            assert(m == 0);
            assert(queue@[0] as int == m);
        }
    }
    let mut qhead: usize = 0;
    while qhead < queue.len()
        invariant
            qhead <= queue@.len(),
            seen@.len() == num_nodes,
            queue@.len() <= count_true(seen@, num_nodes as int),
            num_nodes == gch.len(),
            gch == node_children@,
            gterm == node_terminal@,
            gch.len() <= 0x0010_0001,
            da_pos@.len() == num_nodes,
            base@.len() == check@.len(),
            base@.len() == occupied@.len(),
            base@.len() <= 0x4000_0000,
            base@.len() <= initial_size + 768 * (qhead as int),
            initial_size == num_nodes + 512,
            forall|q: int| 0 <= q < queue@.len() ==> (#[trigger] queue@[q]) < num_nodes,
            forall|q: int| 0 <= q < queue@.len() ==> seen@[#[trigger] queue@[q] as int],
            forall|q1: int, q2: int|
                0 <= q1 < q2 < queue@.len() ==> #[trigger] queue@[q1] != #[trigger] queue@[q2],
            seen@[0] && da_pos@[0] == 0,
            forall|m: int|
                0 <= m < num_nodes && seen@[m] ==> (#[trigger] da_pos@[m] as int) < base@.len()
                    && occupied@[da_pos@[m] as int],
            forall|m1: int, m2: int|
                0 <= m1 < num_nodes && 0 <= m2 < num_nodes && m1 != m2 && seen@[m1] && seen@[m2]
                    ==> #[trigger] da_pos@[m1] != #[trigger] da_pos@[m2],
            forall|m: int|
                0 <= m < num_nodes && seen@[m] ==> exists|q: int|
                    0 <= q < queue@.len() && (#[trigger] queue@[q] as int) == m,
            edges_done(
                gch,
                gterm,
                queue@,
                qhead as int,
                da_pos@,
                base@,
                check@,
                occupied@,
                seen@,
            ),
            forall|m: int|
                0 <= m < num_nodes && seen@[m] ==> m == 0 || #[trigger] reached_by_edges(
                    gch,
                    queue@,
                    qhead as int,
                    gch.len() as int,
                    0,
                    m,
                ),
        decreases num_nodes - qhead,
    {
        proof {
            lemma_count_true_le(seen@, num_nodes as int);
        }
        let trie_node = queue[qhead];
        let ghost old_qhead = qhead as int;
        qhead += 1;
        let s = da_pos[trie_node] as usize;
        let ch_len = node_children[trie_node].len();
        if ch_len == 0 {
            proof {
                assert forall|q: int, ci: int|
                    0 <= q < qhead as int && q < queue@.len() && 0 <= ci < gch[queue@[q] as int]@.len()
                        implies #[trigger] edge_ok(
                    gch,
                    gterm,
                    da_pos@,
                    base@,
                    check@,
                    occupied@,
                    seen@,
                    queue@[q] as int,
                    ci,
                ) by {
                    assert(q < old_qhead);
                }
                assert forall|m: int| 0 <= m < num_nodes && seen@[m] && m != 0 implies
                    #[trigger] reached_by_edges(
                    gch,
                    queue@,
                    qhead as int,
                    gch.len() as int,
                    0,
                    m,
                ) by {
                    assert(reached_by_edges(gch, queue@, old_qhead, gch.len() as int, 0, m));
                }
            }
            continue ;
        }
        let mut keys: Vec<u8> = Vec::new();
        let mut j: usize = 0;
        while j < ch_len
            invariant
                j <= ch_len,
                trie_node < gch.len(),
                ch_len == gch[trie_node as int]@.len(),
                keys@.len() == j,
                forall|x: int| 0 <= x < j ==> #[trigger] keys@[x] == gch[trie_node as int]@[x].0,
            decreases ch_len - j,
        {
            keys.push(node_children[trie_node][j].0);
            j += 1;
        }
        let b = find_base(&keys, &occupied);
        let max_pos = b + 256;
        proof {
            assert(qhead as int <= num_nodes as int);
            assert(768 * (qhead as int) <= 768 * (num_nodes as int)) by (nonlinear_arith)
                requires
                    qhead as int <= num_nodes as int,
            ;
            assert(max_pos < 0x3FFF_FC00);
        }
        if max_pos >= 0x3FFF_FC00 {
            return None;
        }
        let ghost gb0 = base@;
        let ghost gc0 = check@;
        let ghost go0 = occupied@;
        if max_pos >= base.len() {
            let new_size = max_pos + 512;
            let mut grow: usize = base.len();
            while grow < new_size
                invariant
                    base@.len() == check@.len(),
                    base@.len() == occupied@.len(),
                    base@.len() == grow,
                    gb0.len() <= grow <= new_size,
                    new_size <= 0x4000_0000,
                    forall|x: int| 0 <= x < gb0.len() ==> #[trigger] base@[x] == gb0[x],
                    forall|x: int| 0 <= x < gc0.len() ==> #[trigger] check@[x] == gc0[x],
                    forall|x: int| 0 <= x < go0.len() ==> #[trigger] occupied@[x] == go0[x],
                    forall|x: int| go0.len() <= x < grow ==> !(#[trigger] occupied@[x]),
                decreases new_size - grow,
            {
                base.push(0);
                check.push(crate::claude::EMPTY_CELL);
                occupied.push(false);
                grow += 1;
            }
        }
        proof {
            assert forall|m: int| 0 <= m < num_nodes && seen@[m] implies (
            #[trigger] da_pos@[m] as int) < base@.len() && occupied@[da_pos@[m] as int] by {
                assert(occupied@[da_pos@[m] as int] == go0[da_pos@[m] as int]);
            }
            assert forall|q: int, ci: int|
                0 <= q < old_qhead && q < queue@.len() && 0 <= ci < gch[queue@[q] as int]@.len()
                    implies #[trigger] edge_ok(
                gch,
                gterm,
                da_pos@,
                base@,
                check@,
                occupied@,
                seen@,
                queue@[q] as int,
                ci,
            ) by {
                assert(edge_ok(gch, gterm, da_pos@, gb0, gc0, go0, seen@, queue@[q] as int, ci));
                let n2 = queue@[q] as int;
                let s2 = da_pos@[n2] as int;
                assert(base@[s2] == gb0[s2]);
                let tc2 = gb0[s2] + gch[n2]@[ci].0;
                assert(check@[tc2] == gc0[tc2]);
                assert(occupied@[tc2] == go0[tc2]);
            }
        }
        proof {
            assert(seen@[trie_node as int]);
            assert(s < base@.len());
        }
        if s >= base.len() {
            return None;
        }
        let ghost gb1 = base@;
        base.set(s, b as u32);
        proof {
            assert(seen@[trie_node as int]);
            assert(s as int == da_pos@[trie_node as int] as int);
            assert forall|q: int, ci: int|
                0 <= q < old_qhead && q < queue@.len() && 0 <= ci < gch[queue@[q] as int]@.len()
                    implies #[trigger] edge_ok(
                gch,
                gterm,
                da_pos@,
                base@,
                check@,
                occupied@,
                seen@,
                queue@[q] as int,
                ci,
            ) by {
                assert(edge_ok(gch, gterm, da_pos@, gb1, check@, occupied@, seen@, queue@[q] as int, ci));
                let n2 = queue@[q] as int;
                assert(n2 != trie_node as int);
                assert(da_pos@[n2] != da_pos@[trie_node as int]);
                assert(base@[da_pos@[n2] as int] == gb1[da_pos@[n2] as int]);
            }
            assert forall|ci2: int| 0 <= ci2 < ch_len implies !occupied@[b + (
            #[trigger] gch[trie_node as int]@[ci2]).0] by {
                assert(keys@[ci2] == gch[trie_node as int]@[ci2].0);
                let cell = b + keys@[ci2];
                if cell >= go0.len() {
                    assert(!occupied@[cell]);
                } else {
                    assert(occupied@[cell] == go0[cell]);
                }
            }
        }
        proof {
            assert forall|m: int| 0 <= m < num_nodes && seen@[m] && m != 0 implies
                #[trigger] reached_by_edges(
                gch,
                queue@,
                old_qhead,
                trie_node as int,
                0,
                m,
            ) by {
                assert(reached_by_edges(gch, queue@, old_qhead, gch.len() as int, 0, m));
                let (q, ci) = choose|q: int, ci: int|
                    0 <= q < old_qhead && q < queue@.len() && 0 <= ci < gch[queue@[q] as int]@.len()
                        && ((#[trigger] gch[queue@[q] as int]@[ci]).1 as int) == m;
                assert((gch[queue@[q] as int]@[ci].1 as int) == m);
            }
        }
        let mut c: usize = 0;
        while c < ch_len
            invariant
                c <= ch_len,
                trie_node < gch.len(),
                ch_len == gch[trie_node as int]@.len(),
                num_nodes == gch.len(),
                gch == node_children@,
                gterm == node_terminal@,
                gch.len() <= 0x0010_0001,
                da_pos@.len() == num_nodes,
                base@.len() == check@.len(),
                base@.len() == occupied@.len(),
                base@.len() <= 0x4000_0000,
                b + 256 < base@.len(),
                s < base@.len(),
                s as int == da_pos@[trie_node as int] as int,
                base@[s as int] == b as u32,
                seen@.len() == num_nodes,
                queue@.len() <= count_true(seen@, num_nodes as int),
                1 <= qhead <= queue@.len(),
                qhead as int == old_qhead + 1,
                queue@[old_qhead] == trie_node,
                seen@[0] && da_pos@[0] == 0,
                seen@[trie_node as int],
                forall|q: int| 0 <= q < queue@.len() ==> (#[trigger] queue@[q]) < num_nodes,
                forall|q: int| 0 <= q < queue@.len() ==> seen@[#[trigger] queue@[q] as int],
                forall|q1: int, q2: int|
                    0 <= q1 < q2 < queue@.len() ==> #[trigger] queue@[q1] != #[trigger] queue@[q2],
                forall|m: int|
                    0 <= m < num_nodes && seen@[m] ==> (#[trigger] da_pos@[m] as int)
                        < base@.len() && occupied@[da_pos@[m] as int],
                forall|m1: int, m2: int|
                    0 <= m1 < num_nodes && 0 <= m2 < num_nodes && m1 != m2 && seen@[m1]
                        && seen@[m2] ==> #[trigger] da_pos@[m1] != #[trigger] da_pos@[m2],
                forall|m: int|
                    0 <= m < num_nodes && seen@[m] ==> exists|q: int|
                        0 <= q < queue@.len() && (#[trigger] queue@[q] as int) == m,
                edges_done(
                    gch,
                    gterm,
                    queue@,
                    old_qhead,
                    da_pos@,
                    base@,
                    check@,
                    occupied@,
                    seen@,
                ),
                forall|ci: int|
                    0 <= ci < c ==> #[trigger] edge_ok(
                        gch,
                        gterm,
                        da_pos@,
                        base@,
                        check@,
                        occupied@,
                        seen@,
                        trie_node as int,
                        ci,
                    ),
                forall|ci2: int|
                    c <= ci2 < ch_len ==> !occupied@[b + (
                    #[trigger] gch[trie_node as int]@[ci2]).0],
                forall|m: int|
                    0 <= m < num_nodes && seen@[m] ==> m == 0 || #[trigger] reached_by_edges(
                        gch,
                        queue@,
                        old_qhead,
                        trie_node as int,
                        c as int,
                        m,
                    ),
            decreases ch_len - c,
        {
            let (key, child_idx) = node_children[trie_node][c];
            let ghost e = gch[trie_node as int]@[c as int];
            proof {
                assert(e == (key, child_idx));
                assert(((e.1 as int) < gch.len()));
                assert(e.1 >= 1);
                if seen@[child_idx as int] {
                    assert(reached_by_edges(
                        gch,
                        queue@,
                        old_qhead,
                        trie_node as int,
                        c as int,
                        child_idx as int,
                    ));
                    if exists|q: int, ci: int|
                        0 <= q < old_qhead && q < queue@.len() && 0 <= ci < gch[queue@[q] as int]@.len()
                            && ((#[trigger] gch[queue@[q] as int]@[ci]).1 as int) == child_idx as int {
                        let (q, ci) = choose|q: int, ci: int|
                            0 <= q < old_qhead && q < queue@.len() && 0 <= ci < gch[queue@[q] as int]@.len()
                                && ((#[trigger] gch[queue@[q] as int]@[ci]).1 as int)
                                == child_idx as int;
                        assert(gch[queue@[q] as int]@[ci].1 == gch[trie_node as int]@[c as int].1);
                        assert(queue@[q] as int == trie_node as int && ci == c as int);
                        assert(queue@[q] != queue@[old_qhead] || q == old_qhead);
                        assert(false);
                    } else {
                        let ci = choose|ci: int|
                            0 <= ci < c as int && ci < gch[trie_node as int]@.len() && ((
                            #[trigger] gch[trie_node as int]@[ci]).1 as int) == child_idx as int;
                        assert(gch[trie_node as int]@[ci].1 == gch[trie_node as int]@[c as int].1);
                        assert(ci == c as int);
                        assert(false);
                    }
                }
            }
            let tpos = b + key as usize;
            let term: u32 = if node_terminal[child_idx as usize] {
                crate::claude::TERM_BIT
            } else {
                0
            };
            let ghost check_before = check@;
            let ghost occ_before = occupied@;
            let ghost dap_before = da_pos@;
            let ghost seen_mid = seen@;
            if s < 0x8000_0000 {
                check.set(tpos, s as u32 | term);
            }
            occupied.set(tpos, true);
            da_pos.set(child_idx as usize, tpos as u32);
            let ghost seen_before = seen@;
            seen.set(child_idx as usize, true);
            proof {
                lemma_count_true_set(seen_before, seen@, num_nodes as int, child_idx as int);
            }
            let ghost queue_before = queue@;
            queue.push(child_idx as usize);
            proof {
                assert(queue@ =~= queue_before.push(child_idx as usize));
                assert(queue@.len() == queue_before.len() + 1);
                assert(forall|q: int| 0 <= q < queue_before.len() ==> #[trigger] queue@[q] == queue_before[q]);
            }
            proof {
                // the fresh cell is distinct from every populated cell
                assert(!occ_before[tpos as int]);
                assert forall|m: int| 0 <= m < num_nodes && seen@[m] implies (
                #[trigger] da_pos@[m] as int) < base@.len() && occupied@[da_pos@[m] as int] by {
                    if m == child_idx as int {
                    } else {
                        assert(seen_mid[m]);
                        assert(da_pos@[m] == dap_before[m]);
                        assert(occ_before[dap_before[m] as int]);
                    }
                }
                assert forall|m1: int, m2: int|
                    0 <= m1 < num_nodes && 0 <= m2 < num_nodes && m1 != m2 && seen@[m1]
                        && seen@[m2] implies #[trigger] da_pos@[m1] != #[trigger] da_pos@[m2] by {
                    if m1 == child_idx as int {
                        assert(occ_before[dap_before[m2] as int]);
                    } else if m2 == child_idx as int {
                        assert(occ_before[dap_before[m1] as int]);
                    }
                }
                // already-realized edges are untouched
                assert forall|q: int, ci: int|
                    0 <= q < old_qhead && q < queue@.len() && 0 <= ci < gch[queue@[q] as int]@.len()
                        implies #[trigger] edge_ok(
                    gch,
                    gterm,
                    da_pos@,
                    base@,
                    check@,
                    occupied@,
                    seen@,
                    queue@[q] as int,
                    ci,
                ) by {
                    assert(queue@[q] == queue_before[q]);
                    assert(edge_ok(
                        gch,
                        gterm,
                        dap_before,
                        base@,
                        check_before,
                        occ_before,
                        seen_mid,
                        queue@[q] as int,
                        ci,
                    ));
                    let n2 = queue@[q] as int;
                    let e2 = gch[n2]@[ci];
                    let s2 = dap_before[n2] as int;
                    let tc2 = base@[s2] + e2.0;
                    assert(occ_before[tc2]);
                    assert(tc2 != tpos as int);
                    assert(seen_mid[e2.1 as int]);
                    assert(e2.1 as int != child_idx as int);
                    assert(da_pos@[n2] == dap_before[n2]);
                    assert(da_pos@[e2.1 as int] == dap_before[e2.1 as int]);
                }
                assert forall|ci: int| 0 <= ci < c + 1 implies #[trigger] edge_ok(
                    gch,
                    gterm,
                    da_pos@,
                    base@,
                    check@,
                    occupied@,
                    seen@,
                    trie_node as int,
                    ci,
                ) by {
                    if ci < c {
                        assert(edge_ok(
                            gch,
                            gterm,
                            dap_before,
                            base@,
                            check_before,
                            occ_before,
                            seen_mid,
                            trie_node as int,
                            ci,
                        ));
                        let e2 = gch[trie_node as int]@[ci];
                        let tc2 = base@[s as int] + e2.0;
                        assert(occ_before[tc2]);
                        assert(tc2 != tpos as int);
                        assert(seen_mid[e2.1 as int]);
                        assert(e2.1 as int != child_idx as int);
                        assert(da_pos@[e2.1 as int] == dap_before[e2.1 as int]);
                        assert(da_pos@[trie_node as int] == dap_before[trie_node as int]);
                    } else {
                        assert(base@[s as int] + e.0 == tpos as int);
                        assert(check@[tpos as int] == ((s as u32) | term));
                        assert(term == (if gterm[e.1 as int] {
                            0x8000_0000u32
                        } else {
                            0u32
                        }));
                        assert(da_pos@[e.1 as int] == tpos as u32);
                        assert(seen@[e.1 as int]);
                        assert(da_pos@[trie_node as int] == dap_before[trie_node as int]);
                    }
                }
                assert forall|ci2: int| c + 1 <= ci2 < ch_len implies !occupied@[b + (
                #[trigger] gch[trie_node as int]@[ci2]).0] by {
                    assert(!occ_before[b + gch[trie_node as int]@[ci2].0]);
                    assert(gch[trie_node as int]@[ci2].0 != gch[trie_node as int]@[c as int].0);
                }
                assert forall|m: int|
                    0 <= m < num_nodes && seen@[m] && m != 0 implies #[trigger] reached_by_edges(
                    gch,
                    queue@,
                    old_qhead,
                    trie_node as int,
                    c as int + 1,
                    m,
                ) by {
                    if m == child_idx as int {
                        assert((gch[trie_node as int]@[c as int].1 as int) == m);
                    } else {
                        assert(seen_mid[m]);
                        assert(reached_by_edges(
                            gch,
                            queue_before,
                            old_qhead,
                            trie_node as int,
                            c as int,
                            m,
                        ));
                        if exists|q: int, ci: int|
                            0 <= q < old_qhead && q < queue_before.len() && 0 <= ci
                                < gch[queue_before[q] as int]@.len() && ((
                            #[trigger] gch[queue_before[q] as int]@[ci]).1 as int) == m {
                            let (q, ci) = choose|q: int, ci: int|
                                0 <= q < old_qhead && q < queue_before.len() && 0 <= ci
                                    < gch[queue_before[q] as int]@.len() && ((
                                #[trigger] gch[queue_before[q] as int]@[ci]).1 as int) == m;
                            assert(queue@[q] == queue_before[q]);
                            assert((gch[queue@[q] as int]@[ci].1 as int) == m);
                        }
                    }
                }
                // the queued-node facts survive the push
                assert forall|m: int|
                    0 <= m < num_nodes && seen@[m] implies exists|q: int|
                    0 <= q < queue@.len() && (#[trigger] queue@[q] as int) == m by {
                    if m == child_idx as int {
                        assert(queue@[queue@.len() - 1] as int == m);
                    } else {
                        assert(seen_mid[m]);
                        assert(exists|q: int|
                            0 <= q < queue_before.len() && (#[trigger] queue_before[q] as int)
                                == m);
                        let q = choose|q: int|
                            0 <= q < queue_before.len() && (#[trigger] queue_before[q] as int)
                                == m;
                        assert(queue@[q] == queue_before[q]);
                        assert(queue@[q] as int == m);
                    }
                }
                assert forall|q1: int, q2: int|
                    0 <= q1 < q2 < queue@.len() implies #[trigger] queue@[q1]
                    != #[trigger] queue@[q2] by {
                    if q2 == queue@.len() - 1 {
                        assert(seen_mid[queue@[q1] as int]);
                    }
                }
            }
            c += 1;
        }
        proof {
            assert forall|q: int, ci: int|
                0 <= q < qhead as int && q < queue@.len() && 0 <= ci < gch[queue@[q] as int]@.len()
                    implies #[trigger] edge_ok(
                gch,
                gterm,
                da_pos@,
                base@,
                check@,
                occupied@,
                seen@,
                queue@[q] as int,
                ci,
            ) by {
                if q == old_qhead {
                    assert(queue@[q] == trie_node);
                }
            }
            assert forall|m: int| 0 <= m < num_nodes && seen@[m] && m != 0 implies
                #[trigger] reached_by_edges(
                gch,
                queue@,
                qhead as int,
                gch.len() as int,
                0,
                m,
            ) by {
                assert(reached_by_edges(gch, queue@, old_qhead, trie_node as int, ch_len as int, m));
                if !(exists|q: int, ci: int|
                    0 <= q < old_qhead && q < queue@.len() && 0 <= ci < gch[queue@[q] as int]@.len()
                        && ((#[trigger] gch[queue@[q] as int]@[ci]).1 as int) == m) {
                    let ci = choose|ci: int|
                        0 <= ci < ch_len as int && ci < gch[trie_node as int]@.len() && ((
                        #[trigger] gch[trie_node as int]@[ci]).1 as int) == m;
                    assert(queue@[old_qhead] as int == trie_node as int);
                    assert((gch[queue@[old_qhead] as int]@[ci].1 as int) == m);
                }
            }
        }
    }
    let mut actual_size = base.len();
    while actual_size > 0
        invariant
            actual_size <= base@.len(),
            base@.len() == occupied@.len(),
            forall|x: int| actual_size <= x < occupied@.len() ==> !(#[trigger] occupied@[x]),
        decreases actual_size,
    {
        if occupied[actual_size - 1] {
            break ;
        }
        actual_size -= 1;
    }
    let ghost gbase = base@;
    let ghost gcheck = check@;
    let ghost gocc = occupied@;
    let ghost gdap = da_pos@;
    let ghost gseen = seen@;
    let ghost gqueue = queue@;
    base.truncate(actual_size);
    check.truncate(actual_size);
    let trie = crate::claude::DATrie { root: 0, base, check };
    proof {
        assert(trie.base@ == gbase.take(actual_size as int));
        assert(trie.check@ == gcheck.take(actual_size as int));
        assert forall|q: int, ci: int|
            0 <= q < gqueue.len() && 0 <= ci < gch[gqueue[q] as int]@.len() implies gseen[(
        #[trigger] gch[gqueue[q] as int]@[ci]).1 as int] by {
            assert(edge_ok(
                gch,
                gterm,
                gdap,
                gbase,
                gcheck,
                gocc,
                gseen,
                gqueue[q] as int,
                ci,
            ));
        }
        assert forall|x: int|
            0 <= x < vocab@.len() && (#[trigger] vocab@[x])@.len() >= 1 implies trie.walk_accepts(
            vocab@[x]@,
            0,
            0,
        ) by {
            let tok = vocab@[x]@;
            assert(tri_accepts(gch, gterm, tok));
            let qq = choose|qq: int|
                0 <= qq < gterm.len() && gterm[qq] && #[trigger] tri_reaches(
                    gch,
                    0,
                    tok,
                    0,
                    tok.len() as int,
                    qq,
                );
            lemma_walk_da(
                gch,
                gterm,
                gqueue,
                gdap,
                gbase,
                gcheck,
                gocc,
                gseen,
                actual_size as int,
                trie,
                tok,
                0,
                0,
                qq,
            );
        }
    }
    Some(trie)
}


proof fn lemma_set_keys_size_mono(keys: Seq<Vec<u8>>, a: int, b: int)
    requires
        a <= b,
    ensures
        set_keys_size(keys, a) <= set_keys_size(keys, b),
    decreases b - a,
{
    if a < b {
        lemma_set_keys_size_mono(keys, a, b - 1);
    }
}

proof fn lemma_set_keys_size_nonneg(keys: Seq<Vec<u8>>, m: int)
    ensures
        set_keys_size(keys, m) >= 0,
    decreases m,
{
    if m > 0 {
        lemma_set_keys_size_nonneg(keys, m - 1);
    }
}

/// Serializes a trie to its blob form:
/// `u32 array_size | u32 root | u32[] base | u32[] check`.
#[verifier::loop_isolation(false)]
pub fn trie_to_blob(t: &crate::claude::DATrie) -> (out: Vec<u8>)
    requires
        t.wf(),
        t.base@.len() <= 0x0800_0000,
    ensures
        out@.len() == 8 + 8 * t.base@.len(),
        le32(out@, 0) == t.base@.len(),
        le32(out@, 4) == t.root,
        forall|i: int|
            0 <= i < t.base@.len() ==> le32(out@, 8 + 4 * i) == t.base@[i] && le32(
                out@,
                8 + 4 * (t.base@.len() + i),
            ) == t.check@[i],
{
    let n = t.base.len();
    let mut out: Vec<u8> = Vec::new();
    push_le32(&mut out, n as u32);
    push_le32(&mut out, t.root);
    let mut i: usize = 0;
    while i < n
        invariant
            i <= n,
            out@.len() == 8 + 4 * i,
            le32(out@, 0) == n as u32,
            le32(out@, 4) == t.root,
            forall|j: int| 0 <= j < i ==> le32(out@, 8 + 4 * j) == t.base@[j],
        decreases n - i,
    {
        let ghost before = out@;
        push_le32(&mut out, t.base[i]);
        proof {
            assert forall|j: int| 0 <= j < i + 1 implies le32(out@, 8 + 4 * j) == t.base@[j] by {
                if j < i {
                    assert(out@[8 + 4 * j] == before[8 + 4 * j]);
                    assert(out@[8 + 4 * j + 1] == before[8 + 4 * j + 1]);
                    assert(out@[8 + 4 * j + 2] == before[8 + 4 * j + 2]);
                    assert(out@[8 + 4 * j + 3] == before[8 + 4 * j + 3]);
                }
            }
            assert(out@[0] == before[0] && out@[1] == before[1] && out@[2] == before[2] && out@[3]
                == before[3]);
            assert(out@[4] == before[4] && out@[5] == before[5] && out@[6] == before[6] && out@[7]
                == before[7]);
        }
        i += 1;
    }
    let mut k: usize = 0;
    while k < n
        invariant
            k <= n,
            out@.len() == 8 + 4 * n + 4 * k,
            le32(out@, 0) == n as u32,
            le32(out@, 4) == t.root,
            forall|j: int| 0 <= j < n ==> le32(out@, 8 + 4 * j) == t.base@[j],
            forall|j: int| 0 <= j < k ==> le32(out@, 8 + 4 * (n + j)) == t.check@[j],
        decreases n - k,
    {
        let ghost before = out@;
        push_le32(&mut out, t.check[k]);
        proof {
            assert forall|j: int| 0 <= j < n implies le32(out@, 8 + 4 * j) == t.base@[j] by {
                assert(out@[8 + 4 * j] == before[8 + 4 * j]);
                assert(out@[8 + 4 * j + 1] == before[8 + 4 * j + 1]);
                assert(out@[8 + 4 * j + 2] == before[8 + 4 * j + 2]);
                assert(out@[8 + 4 * j + 3] == before[8 + 4 * j + 3]);
            }
            assert forall|j: int| 0 <= j < k + 1 implies le32(out@, 8 + 4 * (n + j))
                == t.check@[j] by {
                if j < k {
                    assert(out@[8 + 4 * (n + j)] == before[8 + 4 * (n + j)]);
                    assert(out@[8 + 4 * (n + j) + 1] == before[8 + 4 * (n + j) + 1]);
                    assert(out@[8 + 4 * (n + j) + 2] == before[8 + 4 * (n + j) + 2]);
                    assert(out@[8 + 4 * (n + j) + 3] == before[8 + 4 * (n + j) + 3]);
                }
            }
            assert(out@[0] == before[0] && out@[1] == before[1] && out@[2] == before[2] && out@[3]
                == before[3]);
            assert(out@[4] == before[4] && out@[5] == before[5] && out@[6] == before[6] && out@[7]
                == before[7]);
        }
        k += 1;
    }
    out
}

} // verus!

verus! {

proof fn lemma_count_true_none(s: Seq<bool>, k: int)
    requires
        forall|i: int| 0 <= i < k ==> !(#[trigger] s[i]),
    ensures
        count_true(s, k) == 0,
    decreases k,
{
    if k > 0 {
        lemma_count_true_none(s, k - 1);
    }
}

} // verus!

verus! {

/// The four little-endian bytes of `v`.
pub open spec fn u32_le(v: u32) -> Seq<u8> {
    seq![
        (v % 0x100) as u8,
        ((v / 0x100) % 0x100) as u8,
        ((v / 0x1_0000) % 0x100) as u8,
        ((v / 0x100_0000) % 0x100) as u8,
    ]
}

/// A `u32 length | UTF-8 bytes` string record.
pub open spec fn lp_str(s: Seq<char>) -> Seq<u8> {
    u32_le(vstd::utf8::encode_utf8(s).len() as u32) + vstd::utf8::encode_utf8(s)
}

/// The serialized form of a normalizer tree.
pub open spec fn norm_bytes(n: crate::bpe::Normalizer) -> Seq<u8>
    decreases n,
{
    match n {
        crate::bpe::Normalizer::Identity => seq![0u8],
        crate::bpe::Normalizer::Replace { pattern, content } => seq![1u8] + lp_str(pattern@)
            + lp_str(content@),
        crate::bpe::Normalizer::Prepend(p) => seq![2u8] + lp_str(p@),
        crate::bpe::Normalizer::Nfc => seq![3u8],
        crate::bpe::Normalizer::Sequence(ns) => seq![4u8] + u32_le(ns@.len() as u32)
            + norm_list_bytes(ns@, 0),
    }
}

/// The serialized forms of the normalizers from index `i` on.
pub open spec fn norm_list_bytes(ns: Seq<crate::bpe::Normalizer>, i: int) -> Seq<u8>
    decreases ns, ns.len() - i,
{
    if i < 0 || i >= ns.len() {
        Seq::empty()
    } else {
        norm_bytes(ns[i]) + norm_list_bytes(ns, i + 1)
    }
}

/// Every string and list in the tree fits its 32-bit length field.
pub open spec fn norm_ser_ok(n: crate::bpe::Normalizer) -> bool
    decreases n,
{
    match n {
        crate::bpe::Normalizer::Identity => true,
        crate::bpe::Normalizer::Replace { pattern, content } => vstd::utf8::encode_utf8(
            pattern@,
        ).len() <= 0xFFFF_FFFF && vstd::utf8::encode_utf8(content@).len() <= 0xFFFF_FFFF,
        crate::bpe::Normalizer::Prepend(p) => vstd::utf8::encode_utf8(p@).len() <= 0xFFFF_FFFF,
        crate::bpe::Normalizer::Nfc => true,
        crate::bpe::Normalizer::Sequence(ns) => ns@.len() <= 0xFFFF_FFFF && forall|i: int|
            0 <= i < ns@.len() ==> norm_ser_ok(#[trigger] ns@[i]),
    }
}

/// Appends a `u32 length | UTF-8 bytes` string record.
#[verifier::rlimit(100)]
fn push_lp_str(out: &mut Vec<u8>, s: &str)
    requires
        s.spec_bytes().len() <= 0xFFFF_FFFF,
    ensures
        final(out)@ == old(out)@ + lp_str(s@),
{
    let bytes = s.as_bytes();
    let blen = bytes.len();
    let ghost start = out@;
    push_le32(out, blen as u32);
    proof {
        assert(out@ =~= start + u32_le(blen as u32)) by {
            assert(out@.take(start.len() as int) == start);
            assert(le32(out@, start.len() as int) == blen as u32);
            lemma_u32_le_of_le32(out@, start.len() as int);
        }
    }
    let ghost mid = out@;
    let mut i: usize = 0;
    while i < blen
        invariant
            i <= blen,
            blen == bytes@.len(),
            out@ == mid + bytes@.take(i as int),
        decreases blen - i,
    {
        out.push(bytes[i]);
        proof {
            assert(mid + bytes@.take(i as int + 1) =~= (mid + bytes@.take(i as int)).push(
                bytes@[i as int],
            ));
        }
        i += 1;
    }
    proof {
        assert(bytes@.take(blen as int) =~= bytes@);
        assert(mid + bytes@ =~= start + lp_str(s@));
    }
}

/// The four bytes at `off` are exactly `u32_le` of the value they encode.
pub proof fn lemma_u32_le_of_le32(s: Seq<u8>, off: int)
    requires
        0 <= off,
        off + 4 <= s.len(),
    ensures
        s.subrange(off, off + 4) == u32_le(le32(s, off)),
{
    let v = le32(s, off);
    assert(s[off] + s[off + 1] * 0x100 + s[off + 2] * 0x1_0000 + s[off + 3] * 0x100_0000 < 0x1_0000_0000);
    assert(v == s[off] + s[off + 1] * 0x100 + s[off + 2] * 0x1_0000 + s[off + 3] * 0x100_0000);
    assert((v as int) % 0x100 == s[off]) by (nonlinear_arith)
        requires
            v == s[off] + s[off + 1] * 0x100 + s[off + 2] * 0x1_0000 + s[off + 3] * 0x100_0000,
            0 <= s[off] < 0x100,
            0 <= s[off + 1] < 0x100,
            0 <= s[off + 2] < 0x100,
            0 <= s[off + 3] < 0x100,
    ;
    assert(((v as int) / 0x100) % 0x100 == s[off + 1]) by (nonlinear_arith)
        requires
            v == s[off] + s[off + 1] * 0x100 + s[off + 2] * 0x1_0000 + s[off + 3] * 0x100_0000,
            0 <= s[off] < 0x100,
            0 <= s[off + 1] < 0x100,
            0 <= s[off + 2] < 0x100,
            0 <= s[off + 3] < 0x100,
    ;
    assert(((v as int) / 0x1_0000) % 0x100 == s[off + 2]) by (nonlinear_arith)
        requires
            v == s[off] + s[off + 1] * 0x100 + s[off + 2] * 0x1_0000 + s[off + 3] * 0x100_0000,
            0 <= s[off] < 0x100,
            0 <= s[off + 1] < 0x100,
            0 <= s[off + 2] < 0x100,
            0 <= s[off + 3] < 0x100,
    ;
    assert(((v as int) / 0x100_0000) % 0x100 == s[off + 3]) by (nonlinear_arith)
        requires
            v == s[off] + s[off + 1] * 0x100 + s[off + 2] * 0x1_0000 + s[off + 3] * 0x100_0000,
            0 <= s[off] < 0x100,
            0 <= s[off + 1] < 0x100,
            0 <= s[off + 2] < 0x100,
            0 <= s[off + 3] < 0x100,
    ;
    assert(s.subrange(off, off + 4) =~= u32_le(v));
}

/// Serializes a normalizer tree, appending its tagged form.
#[verifier::loop_isolation(false)]
pub fn serialize_normalizer(out: &mut Vec<u8>, n: &crate::bpe::Normalizer)
    requires
        norm_ser_ok(*n),
    ensures
        final(out)@ == old(out)@ + norm_bytes(*n),
    decreases *n,
{
    let ghost start = out@;
    match n {
        crate::bpe::Normalizer::Identity => {
            out.push(0u8);
            proof {
                assert(out@ =~= start + norm_bytes(*n));
            }
        },
        crate::bpe::Normalizer::Replace { pattern, content } => {
            out.push(1u8);
            push_lp_str(out, pattern.as_str());
            push_lp_str(out, content.as_str());
            proof {
                assert(out@ =~= start + norm_bytes(*n));
            }
        },
        crate::bpe::Normalizer::Prepend(p) => {
            out.push(2u8);
            push_lp_str(out, p.as_str());
            proof {
                assert(out@ =~= start + norm_bytes(*n));
            }
        },
        crate::bpe::Normalizer::Nfc => {
            out.push(3u8);
            proof {
                assert(out@ =~= start + norm_bytes(*n));
            }
        },
        crate::bpe::Normalizer::Sequence(ns) => {
            out.push(4u8);
            let ghost after_tag = out@;
            push_le32(out, ns.len() as u32);
            proof {
                assert(out@ =~= after_tag + u32_le(ns@.len() as u32)) by {
                    assert(out@.take(after_tag.len() as int) == after_tag);
                    assert(le32(out@, after_tag.len() as int) == ns@.len() as u32);
                    lemma_u32_le_of_le32(out@, after_tag.len() as int);
                }
            }
            let ghost head = out@;
            let mut i: usize = 0;
            while i < ns.len()
                invariant
                    i <= ns@.len(),
                    out@ + norm_list_bytes(ns@, i as int) == head + norm_list_bytes(ns@, 0),
                decreases ns@.len() - i,
            {
                let ghost before = out@;
                proof {
                    assert(ns@[i as int] == ns[i as int]);
                }
                serialize_normalizer(out, &ns[i]);
                proof {
                    assert(out@ + norm_list_bytes(ns@, i as int + 1) =~= before + norm_list_bytes(
                        ns@,
                        i as int,
                    ));
                }
                i += 1;
            }
            proof {
                assert(norm_list_bytes(ns@, ns@.len() as int) =~= Seq::<u8>::empty());
                assert(out@ =~= head + norm_list_bytes(ns@, 0));
                assert(out@ =~= start + norm_bytes(*n));
            }
        },
    }
}

} // verus!

verus! {

/// A pre-tokenizer step description, as the offline builder receives it.
pub enum StepDesc {
    Split(String),
    ByteLevel,
}

/// The serialized form of one step description.
pub open spec fn step_bytes(s: StepDesc) -> Seq<u8> {
    match s {
        StepDesc::Split(p) => seq![1u8] + lp_str(p@),
        StepDesc::ByteLevel => seq![2u8],
    }
}

/// The serialized forms of the steps from index `i` on.
pub open spec fn steps_bytes(ss: Seq<StepDesc>, i: int) -> Seq<u8>
    decreases ss.len() - i,
{
    if i < 0 || i >= ss.len() {
        Seq::empty()
    } else {
        step_bytes(ss[i]) + steps_bytes(ss, i + 1)
    }
}

/// Serializes the pre-tokenizer: a step count, then tagged steps.
#[verifier::loop_isolation(false)]
pub fn serialize_pre_tokenizer(out: &mut Vec<u8>, steps: &Vec<StepDesc>)
    requires
        steps@.len() <= 0xFFFF_FFFF,
        forall|i: int|
            0 <= i < steps@.len() ==> (#[trigger] steps@[i] matches StepDesc::Split(p)
                ==> vstd::utf8::encode_utf8(p@).len() <= 0xFFFF_FFFF),
    ensures
        final(out)@ == old(out)@ + u32_le(steps@.len() as u32) + steps_bytes(steps@, 0),
{
    let ghost start = out@;
    push_le32(out, steps.len() as u32);
    proof {
        assert(out@ =~= start + u32_le(steps@.len() as u32)) by {
            assert(out@.take(start.len() as int) == start);
            assert(le32(out@, start.len() as int) == steps@.len() as u32);
            lemma_u32_le_of_le32(out@, start.len() as int);
        }
    }
    let ghost head = out@;
    let mut i: usize = 0;
    while i < steps.len()
        invariant
            i <= steps@.len(),
            out@ + steps_bytes(steps@, i as int) == head + steps_bytes(steps@, 0),
        decreases steps@.len() - i,
    {
        let ghost before = out@;
        match &steps[i] {
            StepDesc::Split(p) => {
                out.push(1u8);
                push_lp_str(out, p.as_str());
                proof {
                    assert(steps@[i as int] == steps[i as int]);
                    assert(out@ =~= before + step_bytes(steps@[i as int]));
                }
            },
            StepDesc::ByteLevel => {
                out.push(2u8);
                proof {
                    assert(steps@[i as int] == steps[i as int]);
                    assert(out@ =~= before + step_bytes(steps@[i as int]));
                }
            },
        }
        proof {
            assert(out@ + steps_bytes(steps@, i as int + 1) =~= before + steps_bytes(
                steps@,
                i as int,
            ));
        }
        i += 1;
    }
    proof {
        assert(steps_bytes(steps@, steps@.len() as int) =~= Seq::<u8>::empty());
        assert(out@ =~= out@ + Seq::<u8>::empty());
    }
}

/// The serialized code-point list entries from index `i` on.
pub open spec fn cps_bytes(cps: Seq<u32>, i: int) -> Seq<u8>
    decreases cps.len() - i,
{
    if i < 0 || i >= cps.len() {
        Seq::empty()
    } else {
        u32_le(cps[i]) + cps_bytes(cps, i + 1)
    }
}

/// Everything before the merges map in a frozen HF tokenizer blob.
pub open spec fn hf_prefix_bytes(
    bf: bool,
    post_add: u32,
    n: crate::bpe::Normalizer,
    ss: Seq<StepDesc>,
    cps: Seq<u32>,
) -> Seq<u8> {
    seq![if bf { 1u8 } else { 0u8 }] + u32_le(post_add) + norm_bytes(n) + u32_le(ss.len() as u32)
        + steps_bytes(ss, 0) + u32_le(cps.len() as u32) + cps_bytes(cps, 0)
}

/// Assembles a complete frozen HF tokenizer blob.
///
/// Returns the blob and the byte offsets of the merges map, the left-side
/// set and the right-side set; everything before the merges map is
/// exactly `hf_prefix_bytes`, and the three table regions carry the
/// built tables with their lookup guarantees.
#[verifier::loop_isolation(false)]
#[verifier::rlimit(100)]
pub fn build_hf_blob(
    byte_fallback: bool,
    post_add: u32,
    normalizer: &crate::bpe::Normalizer,
    steps: &Vec<StepDesc>,
    cps: &Vec<u32>,
    merges: &Vec<(Vec<u8>, u32)>,
    lefts: &Vec<Vec<u8>>,
    rights: &Vec<Vec<u8>>,
) -> (r: (Vec<u8>, (usize, usize, usize)))
    requires
        norm_ser_ok(*normalizer),
        steps@.len() <= 0xFFFF_FFFF,
        forall|i: int|
            0 <= i < steps@.len() ==> (#[trigger] steps@[i] matches StepDesc::Split(p)
                ==> vstd::utf8::encode_utf8(p@).len() <= 0xFFFF_FFFF),
        cps@.len() <= 0xFFFF_FFFF,
        buildable(merges@),
        lefts@.len() <= 0x0010_0000,
        forall|e: int| 0 <= e < lefts@.len() ==> (#[trigger] lefts@[e]@).len() <= 0xFFFF,
        set_keys_size(lefts@, lefts@.len() as int) <= 0x0100_0000,
        forall|i: int, j: int|
            0 <= i < lefts@.len() && 0 <= j < lefts@.len() && i != j ==> #[trigger] lefts@[i]@
                != #[trigger] lefts@[j]@,
        rights@.len() <= 0x0010_0000,
        forall|e: int| 0 <= e < rights@.len() ==> (#[trigger] rights@[e]@).len() <= 0xFFFF,
        set_keys_size(rights@, rights@.len() as int) <= 0x0100_0000,
        forall|i: int, j: int|
            0 <= i < rights@.len() && 0 <= j < rights@.len() && i != j ==> #[trigger] rights@[i]@
                != #[trigger] rights@[j]@,
    ensures
        ({
            let (blob, offs) = r;
            let (m_off, l_off, r_off) = offs;
            &&& blob@.take(m_off as int) == hf_prefix_bytes(
                byte_fallback,
                post_add,
                *normalizer,
                steps@,
                cps@,
            )
            &&& m_off <= l_off <= r_off <= blob@.len()
            &&& tbl_wf(blob@.subrange(m_off as int, l_off as int), 18)
            &&& tbl_wf(blob@.subrange(l_off as int, r_off as int), 14)
            &&& tbl_wf(blob@.subrange(r_off as int, blob@.len() as int), 14)
            &&& (forall|e: int|
                0 <= e < merges@.len() ==> map_get_spec(
                    blob@.subrange(m_off as int, l_off as int),
                    #[trigger] entry_key(merges@, e),
                ) == Some(merges@[e].1))
            &&& (forall|k: Seq<u8>|
                #[trigger] tbl_has(blob@.subrange(m_off as int, l_off as int), 18, k)
                    ==> exists|e: int| 0 <= e < merges@.len() && entry_key(merges@, e) == k)
            &&& (forall|e: int|
                0 <= e < lefts@.len() ==> tbl_has(
                    blob@.subrange(l_off as int, r_off as int),
                    14,
                    #[trigger] lefts@[e]@,
                ))
            &&& (forall|k: Seq<u8>|
                #[trigger] tbl_has(blob@.subrange(l_off as int, r_off as int), 14, k)
                    ==> exists|e: int| 0 <= e < lefts@.len() && lefts@[e]@ == k)
            &&& (forall|e: int|
                0 <= e < rights@.len() ==> tbl_has(
                    blob@.subrange(r_off as int, blob@.len() as int),
                    14,
                    #[trigger] rights@[e]@,
                ))
            &&& (forall|k: Seq<u8>|
                #[trigger] tbl_has(blob@.subrange(r_off as int, blob@.len() as int), 14, k)
                    ==> exists|e: int| 0 <= e < rights@.len() && rights@[e]@ == k)
        }),
{
    let mut out: Vec<u8> = Vec::new();
    out.push(if byte_fallback {
        1u8
    } else {
        0u8
    });
    let ghost p0 = out@;
    push_le32(&mut out, post_add);
    proof {
        assert(out@ =~= p0 + u32_le(post_add)) by {
            assert(out@.take(p0.len() as int) == p0);
            assert(le32(out@, p0.len() as int) == post_add);
            lemma_u32_le_of_le32(out@, p0.len() as int);
        }
    }
    serialize_normalizer(&mut out, normalizer);
    serialize_pre_tokenizer(&mut out, steps);
    let ghost p1 = out@;
    push_le32(&mut out, cps.len() as u32);
    proof {
        assert(out@ =~= p1 + u32_le(cps@.len() as u32)) by {
            assert(out@.take(p1.len() as int) == p1);
            assert(le32(out@, p1.len() as int) == cps@.len() as u32);
            lemma_u32_le_of_le32(out@, p1.len() as int);
        }
    }
    let ghost p2 = out@;
    let mut ci: usize = 0;
    while ci < cps.len()
        invariant
            ci <= cps@.len(),
            out@ + cps_bytes(cps@, ci as int) == p2 + cps_bytes(cps@, 0),
        decreases cps@.len() - ci,
    {
        let ghost before = out@;
        push_le32(&mut out, cps[ci]);
        proof {
            assert(out@ =~= before + u32_le(cps@[ci as int])) by {
                assert(out@.take(before.len() as int) == before);
                assert(le32(out@, before.len() as int) == cps@[ci as int]);
                lemma_u32_le_of_le32(out@, before.len() as int);
            }
            assert(out@ + cps_bytes(cps@, ci as int + 1) =~= before + cps_bytes(cps@, ci as int));
        }
        ci += 1;
    }
    proof {
        assert(cps_bytes(cps@, cps@.len() as int) =~= Seq::<u8>::empty());
        assert(out@ =~= out@ + Seq::<u8>::empty());
        assert(out@ =~= hf_prefix_bytes(byte_fallback, post_add, *normalizer, steps@, cps@));
    }
    let m_off = out.len();
    let mut map_blob = build_frozen_map(merges);
    let ghost gmap = map_blob@;
    out.append(&mut map_blob);
    let l_off = out.len();
    let mut left_blob = build_frozen_set(lefts);
    let ghost gleft = left_blob@;
    out.append(&mut left_blob);
    let r_off = out.len();
    let mut right_blob = build_frozen_set(rights);
    let ghost gright = right_blob@;
    out.append(&mut right_blob);
    proof {
        assert(out@.take(m_off as int) =~= hf_prefix_bytes(
            byte_fallback,
            post_add,
            *normalizer,
            steps@,
            cps@,
        ));
        assert(out@.subrange(m_off as int, l_off as int) =~= gmap);
        assert(out@.subrange(l_off as int, r_off as int) =~= gleft);
        assert(out@.subrange(r_off as int, out@.len() as int) =~= gright);
    }
    (out, (m_off, l_off, r_off))
}

} // verus!

verus! {

/// What the standard-alphabet base64 decoder yields for a string, when
/// it accepts it.
pub uninterp spec fn b64_decode(s: Seq<char>) -> Option<Seq<u8>>;

/// Relies on base64's Engine::decode with the STANDARD general-purpose
/// engine: acceptance and output are functions of the input alone, and
/// the decoded bytes are never more numerous than the input characters.
#[verifier::external_body]
fn base64_decode(s: &str) -> (r: Option<Vec<u8>>)
    ensures
        r.is_some() == b64_decode(s@).is_some(),
        r.is_some() ==> r.unwrap()@ == b64_decode(s@).unwrap() && r.unwrap()@.len() <= s@.len(),
{
    base64::Engine::decode(&base64::engine::general_purpose::STANDARD, s).ok()
}

/// Whether every character is a decimal digit (and there is at least one).
pub open spec fn dec_digits_ok(s: Seq<char>) -> bool {
    s.len() >= 1 && forall|i: int| 0 <= i < s.len() ==> 48 <= (#[trigger] s[i]) as u32 <= 57
}

/// The decimal value of a digit string.
pub open spec fn dec_val(s: Seq<char>) -> int
    decreases s.len(),
{
    if s.len() == 0 {
        0
    } else {
        dec_val(s.drop_last()) * 10 + (s.last() as u32 - 48)
    }
}

/// Parses a decimal u32: `Some` exactly for all-digit strings whose
/// value fits.
#[verifier::loop_isolation(false)]
pub fn parse_u32_dec(chars: &Vec<char>) -> (r: Option<u32>)
    ensures
        r.is_some() == (dec_digits_ok(chars@) && dec_val(chars@) <= u32::MAX),
        r.is_some() ==> r.unwrap() as int == dec_val(chars@),
{
    if chars.len() == 0 {
        return None;
    }
    let mut acc: u32 = 0;
    let mut i: usize = 0;
    proof {
        assert(dec_val(chars@.take(0)) == 0);
    }
    while i < chars.len()
        invariant
            i <= chars@.len(),
            acc as int == dec_val(chars@.take(i as int)),
            forall|d: int| 0 <= d < i ==> 48 <= (#[trigger] chars@[d]) as u32 <= 57,
        decreases chars@.len() - i,
    {
        let c = chars[i];
        let cv = c as u32;
        if cv < 48 || cv > 57 {
            return None;
        }
        let d = cv - 48;
        if acc > (0xFFFF_FFFFu32 - d) / 10 {
            proof {
                assert(chars@.take(i as int + 1).drop_last() =~= chars@.take(i as int));
                assert(dec_val(chars@.take(i as int + 1)) == acc * 10 + d);
                assert((acc as int) * 10 + d > 0xFFFF_FFFF) by (nonlinear_arith)
                    requires
                        acc as int > ((0xFFFF_FFFF - d) as int) / 10,
                        0 <= d <= 9,
                ;
                if dec_digits_ok(chars@) {
                    lemma_dec_val_mono(chars@, i as int + 1);
                }
            }
            return None;
        }
        proof {
            assert((acc as int) * 10 + d <= 0xFFFF_FFFF) by (nonlinear_arith)
                requires
                    acc as int <= ((0xFFFF_FFFF - d) as int) / 10,
                    0 <= d <= 9,
            ;
            assert(chars@.take(i as int + 1).drop_last() =~= chars@.take(i as int));
        }
        acc = acc * 10 + d;
        i += 1;
    }
    proof {
        assert(chars@.take(chars@.len() as int) =~= chars@);
    }
    Some(acc)
}

/// Over an all-digit string, a prefix's value never exceeds the whole.
pub proof fn lemma_dec_val_mono(s: Seq<char>, k: int)
    requires
        0 <= k <= s.len(),
        forall|d: int| 0 <= d < s.len() ==> 48 <= (#[trigger] s[d]) as u32 <= 57,
    ensures
        dec_val(s.take(k)) <= dec_val(s),
    decreases s.len() - k,
{
    if k < s.len() {
        lemma_dec_val_mono(s, k + 1);
        assert(s.take(k + 1).drop_last() =~= s.take(k));
        assert(dec_val(s.take(k + 1)) == dec_val(s.take(k)) * 10 + (s[k] as u32 - 48));
        lemma_dec_val_nonneg_digits(s.take(k));
        assert(dec_val(s.take(k)) <= dec_val(s.take(k)) * 10 + (s[k] as u32 - 48))
            by (nonlinear_arith)
            requires
                dec_val(s.take(k)) >= 0,
                s[k] as u32 >= 48,
        ;
    } else {
        assert(s.take(k) =~= s);
    }
}

pub proof fn lemma_dec_val_nonneg_digits(s: Seq<char>)
    requires
        forall|d: int| 0 <= d < s.len() ==> 48 <= (#[trigger] s[d]) as u32 <= 57,
    ensures
        dec_val(s) >= 0,
    decreases s.len(),
{
    if s.len() > 0 {
        assert(s.drop_last()[s.len() - 2] == s[s.len() - 2] || s.len() < 2);
        assert(forall|d: int| 0 <= d < s.drop_last().len() ==> 48 <= (#[trigger] s.drop_last()[d])
            as u32 <= 57);
        lemma_dec_val_nonneg_digits(s.drop_last());
        assert(dec_val(s) == dec_val(s.drop_last()) * 10 + (s.last() as u32 - 48));
        assert(dec_val(s.drop_last()) * 10 >= 0) by (nonlinear_arith)
            requires
                dec_val(s.drop_last()) >= 0,
        ;
    }
}


} // verus!

verus! {

/// Parses the newline-delimited `base64-token SP decimal-rank` format of
/// a `.tiktoken` vocabulary file: exactly the entries `tiktoken_entries`
/// describes, in order.  Lines that do not decode, ranks that do not
/// parse, and oversized tokens are skipped.
#[verifier::loop_isolation(false)]
#[verifier::rlimit(100)]
pub fn parse_tiktoken(text: &str) -> (entries: Vec<(Vec<u8>, u32)>)
    ensures
        entries@.map_values(|e: (Vec<u8>, u32)| (e.0@, e.1)) == tiktoken_entries(text@, 0),
        forall|e: int|
            0 <= e < entries@.len() ==> (#[trigger] entry_key(entries@, e)).len() <= 0xFFFF,
{
    let chars = crate::bpe::str_chars(text);
    let ghost gt = text@;
    let mut entries: Vec<(Vec<u8>, u32)> = Vec::new();
    let n = chars.len();
    let mut i: usize = 0;
    proof {
        assert(entries@.map_values(|e: (Vec<u8>, u32)| (e.0@, e.1)) + tiktoken_entries(gt, 0)
            =~= tiktoken_entries(gt, 0));
    }
    while i < n
        invariant
            i <= n,
            n == gt.len(),
            chars@ == gt,
            entries@.map_values(|e: (Vec<u8>, u32)| (e.0@, e.1)) + tiktoken_entries(gt, i as int)
                == tiktoken_entries(gt, 0),
            forall|e: int|
                0 <= e < entries@.len() ==> (#[trigger] entry_key(entries@, e)).len() <= 0xFFFF,
        decreases n - i,
    {
        let ghost ebefore = entries@;
        let mut j = i;
        while j < n && chars[j] != '\n'
            invariant
                i <= j <= n,
                line_end(gt, i as int) == line_end(gt, j as int),
            decreases n - j,
        {
            j += 1;
        }
        proof {
            lemma_line_end_bounds(gt, i as int);
            assert(line_end(gt, i as int) == j as int);
        }
        let mut a = i;
        while a < j && (chars[a] == ' ' || chars[a] == '\t' || chars[a] == '\r')
            invariant
                i <= a <= j <= n,
                trim_front(gt, i as int, j as int) == trim_front(gt, a as int, j as int),
            decreases j - a,
        {
            a += 1;
        }
        proof {
            assert(trim_front(gt, i as int, j as int) == a as int);
        }
        let mut b = j;
        while b > a && (chars[b - 1] == ' ' || chars[b - 1] == '\t' || chars[b - 1] == '\r')
            invariant
                i <= a <= b <= j <= n,
                trim_back(gt, a as int, j as int) == trim_back(gt, a as int, b as int),
            decreases b - a,
        {
            b -= 1;
        }
        proof {
            assert(trim_back(gt, a as int, j as int) == b as int);
        }
        if a < b {
            let mut sp = a;
            while sp < b && chars[sp] != ' '
                invariant
                    a <= sp <= b <= n,
                    first_space(gt, a as int, b as int) == first_space(gt, sp as int, b as int),
                decreases b - sp,
            {
                sp += 1;
            }
            proof {
                assert(first_space(gt, a as int, b as int) == sp as int);
            }
            if sp < b && sp + 1 <= b {
                let mut tokv: Vec<char> = Vec::new();
                let mut t = a;
                while t < sp
                    invariant
                        a <= t <= sp <= n,
                        tokv@ == gt.subrange(a as int, t as int),
                    decreases sp - t,
                {
                    tokv.push(chars[t]);
                    proof {
                        assert(gt.subrange(a as int, t as int).push(gt[t as int]) =~= gt.subrange(
                            a as int,
                            t as int + 1,
                        ));
                    }
                    t += 1;
                }
                let mut rankv: Vec<char> = Vec::new();
                let mut u = sp + 1;
                while u < b
                    invariant
                        sp + 1 <= u <= b <= n,
                        rankv@ == gt.subrange(sp as int + 1, u as int),
                    decreases b - u,
                {
                    rankv.push(chars[u]);
                    proof {
                        assert(gt.subrange(sp as int + 1, u as int).push(gt[u as int])
                            =~= gt.subrange(sp as int + 1, u as int + 1));
                    }
                    u += 1;
                }
                let tok_s = crate::bpe::chars_to_string(&tokv);
                let decoded = base64_decode(tok_s.as_str());
                let rank = parse_u32_dec(&rankv);
                match (decoded, rank) {
                    (Some(bytes), Some(rk)) => {
                        if bytes.len() <= 0xFFFF {
                            let ghost before = entries@;
                            let ghost gb = bytes@;
                            entries.push((bytes, rk));
                            proof {
                                assert(line_entry(gt, i as int, j as int) =~= seq![(gb, rk)]);
                                assert forall|e: int| 0 <= e < entries@.len() implies (
                                #[trigger] entry_key(entries@, e)).len() <= 0xFFFF by {
                                    if e < before.len() {
                                        assert(entries@[e] == before[e]);
                                        assert(entry_key(before, e).len() <= 0xFFFF);
                                        assert(entry_key(entries@, e) == entry_key(before, e));
                                    } else {
                                        assert(entries@[e].0@ == gb);
                                        assert(entry_key(entries@, e) == gb);
                                    }
                                }
                                assert(entries@.map_values(|e: (Vec<u8>, u32)| (e.0@, e.1))
                                    =~= before.map_values(|e: (Vec<u8>, u32)| (e.0@, e.1)).push(
                                    (gb, rk),
                                ));
                            }
                        } else {
                            proof {
                                assert(line_entry(gt, i as int, j as int) =~= Seq::<
                                    (Seq<u8>, u32),
                                >::empty());
                            }
                        }
                    },
                    _ => {
                        proof {
                            assert(line_entry(gt, i as int, j as int) =~= Seq::<
                                (Seq<u8>, u32),
                            >::empty());
                        }
                    },
                }
            } else {
                proof {
                    assert(line_entry(gt, i as int, j as int) =~= Seq::<(Seq<u8>, u32)>::empty());
                }
            }
        } else {
            proof {
                assert(line_entry(gt, i as int, j as int) =~= Seq::<(Seq<u8>, u32)>::empty());
            }
        }
        let ghost iold: int = i as int;
        i = if j < n {
            j + 1
        } else {
            n
        };
        proof {
            assert(tiktoken_entries(gt, iold) == line_entry(gt, iold, j as int)
                + tiktoken_entries(gt, i as int));
            assert(entries@.map_values(|e: (Vec<u8>, u32)| (e.0@, e.1)) + tiktoken_entries(
                gt,
                i as int,
            ) =~= ebefore.map_values(|e: (Vec<u8>, u32)| (e.0@, e.1)) + tiktoken_entries(
                gt,
                iold,
            ));
        }
    }
    proof {
        assert(tiktoken_entries(gt, n as int) =~= Seq::<(Seq<u8>, u32)>::empty());
        assert(entries@.map_values(|e: (Vec<u8>, u32)| (e.0@, e.1)) =~= entries@.map_values(
            |e: (Vec<u8>, u32)| (e.0@, e.1),
        ) + Seq::<(Seq<u8>, u32)>::empty());
    }
    entries
}

} // verus!

verus! {

// ---------------------------------------------------------------------------
// The in-memory trie, as a specification.
// ---------------------------------------------------------------------------

/// First entry for byte `b` in a child row, scanning from `j`.
pub open spec fn row_find(row: Seq<(u8, u32)>, b: u8, j: int) -> Option<u32>
    decreases row.len() - j,
{
    if j < 0 || j >= row.len() {
        None
    } else if row[j].0 == b {
        Some(row[j].1)
    } else {
        row_find(row, b, j + 1)
    }
}

/// Walking `token[i..j]` from node `p` ends at node `q`.
pub open spec fn tri_reaches(
    ch: Seq<Vec<(u8, u32)>>,
    p: int,
    token: Seq<u8>,
    i: int,
    j: int,
    q: int,
) -> bool
    decreases j - i,
{
    if i >= j {
        p == q
    } else {
        0 <= p < ch.len() && match row_find(ch[p]@, token[i], 0) {
            None => false,
            Some(c) => tri_reaches(ch, c as int, token, i + 1, j, q),
        }
    }
}

} // verus!

verus! {

/// Child indices stored in rows stay inside the node table.
pub open spec fn rows_bounded(ch: Seq<Vec<(u8, u32)>>) -> bool {
    forall|p: int, c: int|
        0 <= p < ch.len() && 0 <= c < ch[p]@.len() ==> ((#[trigger] ch[p]@[c]).1 as int) < ch.len()
}

/// A found entry keeps its place when a row is extended.
pub proof fn lemma_row_find_append(row: Seq<(u8, u32)>, e: (u8, u32), b: u8, j: int)
    ensures
        row_find(row, b, j).is_some() ==> row_find(row.push(e), b, j) == row_find(row, b, j),
        row_find(row, b, j).is_none() && 0 <= j <= row.len() ==> row_find(row.push(e), b, j) == (
        if e.0 == b {
            Some(e.1)
        } else {
            None
        }),
    decreases row.len() - j,
{
    if 0 <= j < row.len() {
        assert(row.push(e)[j] == row[j]);
        lemma_row_find_append(row, e, b, j + 1);
        if row[j].0 == b {
            assert(row_find(row, b, j) == Some(row[j].1));
            assert(row_find(row.push(e), b, j) == Some(row[j].1));
        } else {
            assert(row_find(row, b, j) == row_find(row, b, j + 1));
            assert(row_find(row.push(e), b, j) == row_find(row.push(e), b, j + 1));
        }
    } else if j == row.len() {
        assert(row.push(e)[j] == e);
        assert(row_find(row, b, j).is_none());
        if e.0 == b {
            assert(row_find(row.push(e), b, j) == Some(e.1));
        } else {
            assert(row_find(row.push(e), b, j) == row_find(row.push(e), b, j + 1));
            assert(row_find(row.push(e), b, j + 1).is_none());
        }
    } else {
        assert(row_find(row, b, j).is_none());
    }
}

/// Walks survive appending fresh rows at the end of the node table.
pub proof fn lemma_reaches_extend_nodes(
    ch1: Seq<Vec<(u8, u32)>>,
    ch2: Seq<Vec<(u8, u32)>>,
    token: Seq<u8>,
    i: int,
    j: int,
    p: int,
    q: int,
)
    requires
        rows_bounded(ch1),
        ch1.len() <= ch2.len(),
        forall|n: int| 0 <= n < ch1.len() ==> (#[trigger] ch2[n])@ == ch1[n]@,
        tri_reaches(ch1, p, token, i, j, q),
    ensures
        tri_reaches(ch2, p, token, i, j, q),
    decreases j - i,
{
    if i < j {
        match row_find(ch1[p]@, token[i], 0) {
            None => {},
            Some(c) => {
                lemma_reaches_extend_nodes(ch1, ch2, token, i + 1, j, c as int, q);
            },
        }
    }
}

/// Walks survive appending one entry to one row, wherever it is.
pub proof fn lemma_reaches_append_entry(
    ch1: Seq<Vec<(u8, u32)>>,
    ch2: Seq<Vec<(u8, u32)>>,
    r: int,
    e: (u8, u32),
    token: Seq<u8>,
    i: int,
    j: int,
    p: int,
    q: int,
)
    requires
        rows_bounded(ch1),
        ch1.len() == ch2.len(),
        0 <= r < ch1.len(),
        ch2[r]@ == ch1[r]@.push(e),
        forall|n: int| 0 <= n < ch1.len() && n != r ==> (#[trigger] ch2[n])@ == ch1[n]@,
        tri_reaches(ch1, p, token, i, j, q),
    ensures
        tri_reaches(ch2, p, token, i, j, q),
    decreases j - i,
{
    if i < j {
        match row_find(ch1[p]@, token[i], 0) {
            None => {},
            Some(c) => {
                if p == r {
                    lemma_row_find_append(ch1[r]@, e, token[i], 0);
                }
                lemma_reaches_append_entry(ch1, ch2, r, e, token, i + 1, j, c as int, q);
            },
        }
    }
}

/// Extending a walk by one found edge.
pub proof fn lemma_reaches_step(
    ch: Seq<Vec<(u8, u32)>>,
    token: Seq<u8>,
    i: int,
    j: int,
    p: int,
    q: int,
    c: u32,
)
    requires
        i <= j < token.len(),
        tri_reaches(ch, p, token, i, j, q),
        0 <= q < ch.len(),
        row_find(ch[q]@, token[j], 0) == Some(c),
    ensures
        tri_reaches(ch, p, token, i, j + 1, c as int),
    decreases j - i,
{
    if i < j {
        match row_find(ch[p]@, token[i], 0) {
            None => {},
            Some(c0) => {
                lemma_reaches_step(ch, token, i + 1, j, c0 as int, q, c);
            },
        }
    } else {
        assert(p == q);
        assert(tri_reaches(ch, c as int, token, j + 1, j + 1, c as int));
    }
}

} // verus!

verus! {

/// Rows never store the same byte twice.
pub open spec fn rows_unique(ch: Seq<Vec<(u8, u32)>>) -> bool {
    forall|p: int, a: int, b: int|
        0 <= p < ch.len() && 0 <= a < b < ch[p]@.len() ==> (#[trigger] ch[p]@[a]).0 != (
        #[trigger] ch[p]@[b]).0
}

/// Every node but the root is the child of an earlier node.
pub open spec fn has_parent(ch: Seq<Vec<(u8, u32)>>, n: int) -> bool {
    exists|pp: int, jj: int|
        0 <= pp < n && 0 <= jj < ch[pp]@.len() && (#[trigger] ch[pp]@[jj]).1 as int == n
}

/// The whole token is walkable from the root to a terminal node.
pub open spec fn tri_accepts(ch: Seq<Vec<(u8, u32)>>, term: Seq<bool>, token: Seq<u8>) -> bool {
    exists|q: int|
        0 <= q < term.len() && term[q] && #[trigger] tri_reaches(
            ch,
            0,
            token,
            0,
            token.len() as int,
            q,
        )
}

/// A missed lookup means no entry from `j` on carries the byte.
pub proof fn lemma_row_find_none(row: Seq<(u8, u32)>, b: u8, j: int)
    requires
        0 <= j,
        row_find(row, b, j).is_none(),
    ensures
        forall|k: int| j <= k < row.len() ==> (#[trigger] row[k]).0 != b,
    decreases row.len() - j,
{
    if 0 <= j < row.len() {
        lemma_row_find_none(row, b, j + 1);
    }
}

} // verus!

verus! {

/// No node has two incoming edges.
pub open spec fn parent_unique(ch: Seq<Vec<(u8, u32)>>) -> bool {
    forall|p1: int, j1: int, p2: int, j2: int|
        0 <= p1 < ch.len() && 0 <= j1 < ch[p1]@.len() && 0 <= p2 < ch.len() && 0 <= j2
            < ch[p2]@.len() && (#[trigger] ch[p1]@[j1]).1 == (#[trigger] ch[p2]@[j2]).1 ==> p1
            == p2 && j1 == j2
}

} // verus!

verus! {

/// One trie edge realized in the double array: the transition cell of
/// child `ci` of node `n` is in bounds, populated, back-points to the
/// parent's cell with the child's terminal bit, and is the child's cell.
pub open spec fn edge_ok(
    ch: Seq<Vec<(u8, u32)>>,
    term: Seq<bool>,
    da_pos: Seq<u32>,
    base: Seq<u32>,
    check: Seq<u32>,
    occupied: Seq<bool>,
    seen: Seq<bool>,
    n: int,
    ci: int,
) -> bool {
    let e = ch[n]@[ci];
    let s = da_pos[n] as int;
    let tc = base[s] + e.0;
    &&& s < base.len()
    &&& tc < check.len()
    &&& occupied[tc]
    &&& check[tc] == ((s as u32) | (if term[e.1 as int] {
        0x8000_0000u32
    } else {
        0u32
    }))
    &&& da_pos[e.1 as int] as int == tc
    &&& seen[e.1 as int]
}

/// All edges of the first `hi` dequeued nodes are realized.
pub open spec fn edges_done(
    ch: Seq<Vec<(u8, u32)>>,
    term: Seq<bool>,
    queue: Seq<usize>,
    hi: int,
    da_pos: Seq<u32>,
    base: Seq<u32>,
    check: Seq<u32>,
    occupied: Seq<bool>,
    seen: Seq<bool>,
) -> bool {
    forall|q: int, ci: int|
        0 <= q < hi && q < queue.len() && 0 <= ci < ch[queue[q] as int]@.len() ==> #[trigger] edge_ok(
            ch,
            term,
            da_pos,
            base,
            check,
            occupied,
            seen,
            queue[q] as int,
            ci,
        )
}

/// Node `m` is the target of an already-realized edge: of a fully
/// processed node, or of one of the first `ci_cur` children of `n_cur`.
pub open spec fn reached_by_edges(
    ch: Seq<Vec<(u8, u32)>>,
    queue: Seq<usize>,
    hi: int,
    n_cur: int,
    ci_cur: int,
    m: int,
) -> bool {
    ||| (exists|q: int, ci: int|
        0 <= q < hi && q < queue.len() && 0 <= ci < ch[queue[q] as int]@.len() && ((
        #[trigger] ch[queue[q] as int]@[ci]).1 as int) == m)
    ||| (0 <= n_cur < ch.len() && exists|ci: int|
        0 <= ci < ci_cur && ci < ch[n_cur]@.len() && ((#[trigger] ch[n_cur]@[ci]).1 as int) == m)
}

/// A found byte names a concrete row entry.
pub proof fn lemma_row_find_index(row: Seq<(u8, u32)>, b: u8, j: int, c: u32)
    requires
        row_find(row, b, j) == Some(c),
    ensures
        exists|ci: int| j <= ci < row.len() && #[trigger] row[ci] == (b, c),
    decreases row.len() - j,
{
    if 0 <= j < row.len() {
        if row[j].0 == b {
            assert(row[j] == (b, c));
        } else {
            lemma_row_find_index(row, b, j + 1, c);
        }
    }
}

} // verus!

verus! {

/// Carries a walk in the in-memory trie over to the packed double array:
/// every realized edge is a valid transition, so a token that reaches a
/// terminal node is accepted by the packed trie.
#[verifier::rlimit(100)]
proof fn lemma_walk_da(
    ch: Seq<Vec<(u8, u32)>>,
    term: Seq<bool>,
    queue: Seq<usize>,
    dap: Seq<u32>,
    gbase: Seq<u32>,
    gcheck: Seq<u32>,
    gocc: Seq<bool>,
    gseen: Seq<bool>,
    actual: int,
    trie: crate::claude::DATrie,
    token: Seq<u8>,
    i: int,
    p: int,
    qq: int,
)
    requires
        0 <= i < token.len(),
        0 <= p < ch.len(),
        gseen.len() == ch.len(),
        dap.len() == ch.len(),
        term.len() == ch.len(),
        gbase.len() == gcheck.len(),
        gbase.len() == gocc.len(),
        gbase.len() <= 0x4000_0000,
        rows_bounded(ch),
        gseen[p],
        tri_reaches(ch, p, token, i, token.len() as int, qq),
        0 <= qq < term.len() && term[qq],
        forall|m: int|
            0 <= m < ch.len() && gseen[m] ==> (#[trigger] dap[m] as int) < gbase.len()
                && gocc[dap[m] as int],
        forall|m: int|
            0 <= m < ch.len() && gseen[m] ==> exists|q: int|
                0 <= q < queue.len() && (#[trigger] queue[q] as int) == m,
        forall|q: int| 0 <= q < queue.len() ==> (#[trigger] queue[q] as int) < ch.len(),
        edges_done(ch, term, queue, queue.len() as int, dap, gbase, gcheck, gocc, gseen),
        0 <= actual <= gbase.len(),
        forall|x: int| actual <= x < gocc.len() ==> !(#[trigger] gocc[x]),
        trie.base@ == gbase.take(actual),
        trie.check@ == gcheck.take(actual),
    ensures
        trie.walk_accepts(token, i, dap[p] as int),
    decreases token.len() - i,
{
    let c_opt = row_find(ch[p]@, token[i], 0);
    assert(c_opt.is_some());
    let c = c_opt.unwrap();
    lemma_row_find_index(ch[p]@, token[i], 0, c);
    let ci = choose|ci: int| 0 <= ci < ch[p]@.len() && #[trigger] ch[p]@[ci] == (token[i], c);
    let q0 = choose|q: int| 0 <= q < queue.len() && (#[trigger] queue[q] as int) == p;
    assert(edge_ok(ch, term, dap, gbase, gcheck, gocc, gseen, queue[q0] as int, ci));
    let e = ch[p]@[ci];
    let s = dap[p] as int;
    let tc = gbase[s] + e.0;
    assert(gocc[s]);
    assert(s < actual);
    assert(gocc[tc]);
    assert(tc < actual);
    assert(trie.base@[s] == gbase[s]);
    assert(trie.check@[tc] == gcheck[tc]);
    let s32 = dap[p];
    assert(s32 < 0x4000_0000u32);
    assert((s32 | 0x8000_0000u32) != 0xFFFF_FFFFu32 && ((s32 | 0x8000_0000u32) & 0x7FFF_FFFFu32)
        == s32 && ((s32 | 0x8000_0000u32) & 0x8000_0000u32) != 0u32 && s32 != 0xFFFF_FFFFu32 && (
    s32 & 0x7FFF_FFFFu32) == s32 && (s32 & 0x8000_0000u32) == 0u32 && (s32 | 0u32) == s32)
        by (bit_vector)
        requires
            s32 < 0x4000_0000u32,
    ;
    assert(trie.tr_spec(s, token[i]) == Some((tc, term[e.1 as int])));
    if i == token.len() - 1 {
        assert(tri_reaches(ch, c as int, token, i + 1, token.len() as int, qq));
        assert(c as int == qq);
        assert(term[e.1 as int]);
    } else {
        assert(gseen[e.1 as int]);
        assert(dap[e.1 as int] as int == tc);
        lemma_walk_da(
            ch,
            term,
            queue,
            dap,
            gbase,
            gcheck,
            gocc,
            gseen,
            actual,
            trie,
            token,
            i + 1,
            c as int,
            qq,
        );
    }
}

} // verus!

verus! {

/// Whitespace trimmed from line ends: space, tab, carriage return.
pub open spec fn is_line_ws(c: char) -> bool {
    c == ' ' || c == '\t' || c == '\r'
}

/// Index of the first newline at or after `i`, or the text length.
pub open spec fn line_end(text: Seq<char>, i: int) -> int
    decreases text.len() - i,
{
    if i < 0 || i >= text.len() {
        text.len() as int
    } else if text[i] == '\n' {
        i
    } else {
        line_end(text, i + 1)
    }
}

pub proof fn lemma_line_end_bounds(text: Seq<char>, i: int)
    requires
        0 <= i <= text.len(),
    ensures
        i <= line_end(text, i) <= text.len(),
    decreases text.len() - i,
{
    if i < text.len() && text[i] != '\n' {
        lemma_line_end_bounds(text, i + 1);
    }
}

/// First non-whitespace position in `[a, b)`, or `b`.
pub open spec fn trim_front(text: Seq<char>, a: int, b: int) -> int
    decreases b - a,
{
    if a >= b || a < 0 || a >= text.len() {
        a
    } else if is_line_ws(text[a]) {
        trim_front(text, a + 1, b)
    } else {
        a
    }
}

/// Position after the last non-whitespace character in `[a, b)`, or `a`.
pub open spec fn trim_back(text: Seq<char>, a: int, b: int) -> int
    decreases b - a,
{
    if b <= a || b < 1 || b > text.len() {
        b
    } else if is_line_ws(text[b - 1]) {
        trim_back(text, a, b - 1)
    } else {
        b
    }
}

/// First space in `[a, b)`, or `b`.
pub open spec fn first_space(text: Seq<char>, a: int, b: int) -> int
    decreases b - a,
{
    if a >= b || a < 0 || a >= text.len() {
        b
    } else if text[a] == ' ' {
        a
    } else {
        first_space(text, a + 1, b)
    }
}

/// The entries one line `[i, j)` contributes: after trimming, the part
/// before the first space must decode as base64, the part after it as a
/// decimal u32, and the token must fit the 16-bit key length; otherwise
/// the line contributes nothing.
pub open spec fn line_entry(text: Seq<char>, i: int, j: int) -> Seq<(Seq<u8>, u32)> {
    let a = trim_front(text, i, j);
    let b = trim_back(text, a, j);
    if a >= b {
        Seq::empty()
    } else {
        let sp = first_space(text, a, b);
        if sp >= b {
            Seq::empty()
        } else {
            match b64_decode(text.subrange(a, sp)) {
                None => Seq::empty(),
                Some(bytes) => {
                    let rank_chars = text.subrange(sp + 1, b);
                    if dec_digits_ok(rank_chars) && dec_val(rank_chars) <= u32::MAX && bytes.len()
                        <= 0xFFFF {
                        seq![(bytes, dec_val(rank_chars) as u32)]
                    } else {
                        Seq::empty()
                    }
                },
            }
        }
    }
}

/// All entries the `.tiktoken` text yields, line by line, from `i` on.
pub open spec fn tiktoken_entries(text: Seq<char>, i: int) -> Seq<(Seq<u8>, u32)>
    decreases text.len() - i,
{
    if i < 0 || i >= text.len() {
        Seq::empty()
    } else {
        let j = line_end(text, i);
        let j2 = if i <= j && j <= text.len() {
            j
        } else {
            text.len() as int
        };
        let nxt = if j2 < text.len() {
            j2 + 1
        } else {
            text.len() as int
        };
        line_entry(text, i, j2) + tiktoken_entries(text, nxt)
    }
}

} // verus!

verus! {

/// The four `u32_le` bytes read back as their value.
pub proof fn lemma_le32_of_u32_le(s: Seq<u8>, off: int, v: u32)
    requires
        0 <= off,
        off + 4 <= s.len(),
        s.subrange(off, off + 4) == u32_le(v),
    ensures
        le32(s, off) == v,
{
    assert(s[off] == u32_le(v)[0] && s[off + 1] == u32_le(v)[1] && s[off + 2] == u32_le(v)[2] && s[
        off + 3] == u32_le(v)[3]) by {
        assert(s.subrange(off, off + 4)[0] == s[off]);
        assert(s.subrange(off, off + 4)[1] == s[off + 1]);
        assert(s.subrange(off, off + 4)[2] == s[off + 2]);
        assert(s.subrange(off, off + 4)[3] == s[off + 3]);
    }
    let x = v as int;
    assert(x == 0x100 * (x / 0x100) + x % 0x100) by {
        vstd::arithmetic::div_mod::lemma_fundamental_div_mod(x, 0x100);
    }
    assert(x / 0x100 == 0x100 * ((x / 0x100) / 0x100) + (x / 0x100) % 0x100) by {
        vstd::arithmetic::div_mod::lemma_fundamental_div_mod(x / 0x100, 0x100);
    }
    assert(x / 0x1_0000 == 0x100 * ((x / 0x1_0000) / 0x100) + (x / 0x1_0000) % 0x100) by {
        vstd::arithmetic::div_mod::lemma_fundamental_div_mod(x / 0x1_0000, 0x100);
    }
    assert((x / 0x100) / 0x100 == x / 0x1_0000) by {
        vstd::arithmetic::div_mod::lemma_div_denominator(x, 0x100, 0x100);
    }
    assert((x / 0x1_0000) / 0x100 == x / 0x100_0000) by {
        vstd::arithmetic::div_mod::lemma_div_denominator(x, 0x1_0000, 0x100);
    }
    assert(x / 0x100_0000 < 0x100);
    assert(x / 0x100_0000 >= 0) by {
        vstd::arithmetic::div_mod::lemma_div_is_ordered(0, x, 0x100_0000);
    }
}

/// A serialized string record parses back: same length, same characters.
pub proof fn lemma_lp_str_round_trip(data: Seq<u8>, off: int, sv: Seq<char>)
    requires
        0 <= off,
        vstd::utf8::encode_utf8(sv).len() <= 0xFFFF_FFFF,
        off + lp_str(sv).len() <= data.len(),
        data.subrange(off, off + lp_str(sv).len()) == lp_str(sv),
    ensures
        crate::bpe::lp_str_parses(data, off),
        crate::bpe::lp_str_len(data, off) == lp_str(sv).len(),
        crate::bpe::lp_str_chars(data, off) == sv,
    decreases 0int,
{
    let bytes = vstd::utf8::encode_utf8(sv);
    let blen = bytes.len() as int;
    assert(lp_str(sv).len() == 4 + blen);
    assert(data.subrange(off, off + 4) =~= u32_le(blen as u32)) by {
        assert forall|k: int| 0 <= k < 4 implies #[trigger] data.subrange(off, off + 4)[k]
            == u32_le(blen as u32)[k] by {
            assert(data.subrange(off, off + lp_str(sv).len())[k] == data[off + k]);
            assert(lp_str(sv)[k] == u32_le(blen as u32)[k]);
        }
    }
    lemma_le32_of_u32_le(data, off, blen as u32);
    assert(data.subrange(off + 4, off + 4 + blen) =~= bytes) by {
        assert forall|k: int| 0 <= k < blen implies #[trigger] data.subrange(off + 4, off + 4
            + blen)[k] == bytes[k] by {
            assert(data.subrange(off, off + lp_str(sv).len())[4 + k] == data[off + 4 + k]);
            assert(lp_str(sv)[4 + k] == bytes[k]);
        }
    }
    vstd::utf8::encode_utf8_valid_utf8(sv);
    vstd::utf8::encode_utf8_decode_utf8(sv);
}

} // verus!

verus! {

/// Splitting a byte region that equals a concatenation.
pub proof fn lemma_subrange_split(data: Seq<u8>, off: int, a: Seq<u8>, b: Seq<u8>)
    requires
        0 <= off,
        off + a.len() + b.len() <= data.len(),
        data.subrange(off, off + a.len() + b.len()) == a + b,
    ensures
        data.subrange(off, off + a.len()) == a,
        data.subrange(off + a.len(), off + a.len() + b.len()) == b,
{
    assert(data.subrange(off, off + a.len()) =~= a) by {
        assert forall|k: int| 0 <= k < a.len() implies #[trigger] data.subrange(
            off,
            off + a.len(),
        )[k] == a[k] by {
            assert(data.subrange(off, off + a.len() + b.len())[k] == data[off + k]);
            assert((a + b)[k] == a[k]);
        }
    }
    assert(data.subrange(off + a.len(), off + a.len() + b.len()) =~= b) by {
        assert forall|k: int| 0 <= k < b.len() implies #[trigger] data.subrange(
            off + a.len(),
            off + a.len() + b.len(),
        )[k] == b[k] by {
            assert(data.subrange(off, off + a.len() + b.len())[a.len() + k] == data[off + a.len()
                + k]);
            assert((a + b)[a.len() + k] == b[k]);
        }
    }
}

/// No `Sequence` node in the tree is empty (the serialized form of an
/// empty sequence reloads as `Identity`, so round trips exclude it).
pub open spec fn norm_no_empty_seq(n: crate::bpe::Normalizer) -> bool
    decreases n,
{
    match n {
        crate::bpe::Normalizer::Sequence(ns) => ns@.len() >= 1 && forall|k: int|
            0 <= k < ns@.len() ==> norm_no_empty_seq(#[trigger] ns@[k]),
        _ => true,
    }
}

/// A serialized normalizer parses back as its own shape, consuming
/// exactly its serialized length.
pub proof fn lemma_parse_norm_round_trip(data: Seq<u8>, off: int, n: crate::bpe::Normalizer)
    requires
        0 <= off,
        norm_ser_ok(n),
        norm_no_empty_seq(n),
        off + norm_bytes(n).len() <= data.len(),
        data.subrange(off, off + norm_bytes(n).len()) == norm_bytes(n),
    ensures
        crate::bpe::parse_norm(data, off) == Some(
            (crate::bpe::norm_view(n), norm_bytes(n).len() as int),
        ),
    decreases n, 0int,
{
    let nb = norm_bytes(n);
    assert(data[off] == nb[0]) by {
        assert(data.subrange(off, off + nb.len())[0] == data[off]);
    }
    match n {
        crate::bpe::Normalizer::Identity => {},
        crate::bpe::Normalizer::Nfc => {},
        crate::bpe::Normalizer::Prepend(p) => {
            lemma_subrange_split(data, off, seq![2u8], lp_str(p@));
            lemma_lp_str_round_trip(data, off + 1, p@);
        },
        crate::bpe::Normalizer::Replace { pattern, content } => {
            assert(nb =~= seq![1u8] + (lp_str(pattern@) + lp_str(content@)));
            assert(data.subrange(off, off + 1 + (lp_str(pattern@) + lp_str(content@)).len())
                == seq![1u8] + (lp_str(pattern@) + lp_str(content@)));
            lemma_subrange_split(data, off, seq![1u8], lp_str(pattern@) + lp_str(content@));
            lemma_subrange_split(data, off + 1, lp_str(pattern@), lp_str(content@));
            lemma_lp_str_round_trip(data, off + 1, pattern@);
            lemma_lp_str_round_trip(data, off + 1 + lp_str(pattern@).len(), content@);
        },
        crate::bpe::Normalizer::Sequence(ns) => {
            assert(nb =~= seq![4u8] + (u32_le(ns@.len() as u32) + norm_list_bytes(ns@, 0)));
            assert(data.subrange(off, off + 1 + (u32_le(ns@.len() as u32) + norm_list_bytes(
                ns@,
                0,
            )).len()) == seq![4u8] + (u32_le(ns@.len() as u32) + norm_list_bytes(ns@, 0)));
            lemma_subrange_split(
                data,
                off,
                seq![4u8],
                u32_le(ns@.len() as u32) + norm_list_bytes(ns@, 0),
            );
            lemma_subrange_split(data, off + 1, u32_le(ns@.len() as u32), norm_list_bytes(ns@, 0));
            lemma_le32_of_u32_le(data, off + 1, ns@.len() as u32);
            lemma_parse_norm_list_round_trip(data, off + 5, ns@, 0);
            crate::bpe::lemma_norm_views_len_pub(ns@, 0);
        },
    }
}

/// Serialized normalizer lists parse back element by element.
pub proof fn lemma_parse_norm_list_round_trip(
    data: Seq<u8>,
    off: int,
    ns: Seq<crate::bpe::Normalizer>,
    i: int,
)
    requires
        0 <= i <= ns.len(),
        0 <= off,
        forall|k: int|
            0 <= k < ns.len() ==> norm_ser_ok(#[trigger] ns[k]) && norm_no_empty_seq(ns[k]),
        off + norm_list_bytes(ns, i).len() <= data.len(),
        data.subrange(off, off + norm_list_bytes(ns, i).len()) == norm_list_bytes(ns, i),
    ensures
        crate::bpe::parse_norm_list(data, off, ns.len() - i) == Some(
            (crate::bpe::norm_views(ns, i), off + norm_list_bytes(ns, i).len()),
        ),
    decreases ns, 1int, ns.len() - i,
{
    if i < ns.len() {
        lemma_subrange_split(data, off, norm_bytes(ns[i]), norm_list_bytes(ns, i + 1));
        lemma_parse_norm_round_trip(data, off, ns[i]);
        let clen = norm_bytes(ns[i]).len() as int;
        crate::bpe::lemma_parse_norm_bounds_pub(data, off);
        lemma_parse_norm_list_round_trip(data, off + clen, ns, i + 1);
        assert(seq![crate::bpe::norm_view(ns[i])] + crate::bpe::norm_views(ns, i + 1)
            =~= crate::bpe::norm_views(ns, i));
    } else {
        assert(norm_list_bytes(ns, i) =~= Seq::<u8>::empty());
        assert(crate::bpe::norm_views(ns, i) =~= Seq::<crate::bpe::NormView>::empty());
    }
}

} // verus!

verus! {

/// The abstract shape of a step description.
pub open spec fn desc_view(d: StepDesc) -> crate::bpe::StepView {
    match d {
        StepDesc::Split(p) => crate::bpe::StepView::Split(p@),
        StepDesc::ByteLevel => crate::bpe::StepView::ByteLevel,
    }
}

/// The abstract shapes of the step descriptions from index `i` on.
pub open spec fn desc_views(ds: Seq<StepDesc>, i: int) -> Seq<crate::bpe::StepView>
    decreases ds.len() - i,
{
    if i < 0 || i >= ds.len() {
        Seq::empty()
    } else {
        seq![desc_view(ds[i])] + desc_views(ds, i + 1)
    }
}

/// Every Split pattern fits its length field and compiles.
pub open spec fn descs_ok(ds: Seq<StepDesc>) -> bool {
    forall|k: int|
        0 <= k < ds.len() ==> (#[trigger] ds[k] matches StepDesc::Split(p)
            ==> vstd::utf8::encode_utf8(p@).len() <= 0xFFFF_FFFF && crate::matcher::regex_compiles(
            p@,
        ))
}

/// Serialized step lists parse back element by element.
pub proof fn lemma_parse_steps_round_trip(data: Seq<u8>, off: int, ds: Seq<StepDesc>, i: int)
    requires
        0 <= i <= ds.len(),
        0 <= off,
        descs_ok(ds),
        off + steps_bytes(ds, i).len() <= data.len(),
        data.subrange(off, off + steps_bytes(ds, i).len()) == steps_bytes(ds, i),
    ensures
        crate::bpe::parse_steps(data, off, ds.len() - i) == Some(
            (desc_views(ds, i), off + steps_bytes(ds, i).len()),
        ),
    decreases ds.len() - i,
{
    if i < ds.len() {
        assert(steps_bytes(ds, i) == step_bytes(ds[i]) + steps_bytes(ds, i + 1));
        lemma_subrange_split(data, off, step_bytes(ds[i]), steps_bytes(ds, i + 1));
        match ds[i] {
            StepDesc::Split(p) => {
                assert(step_bytes(ds[i]) =~= seq![1u8] + lp_str(p@));
                assert(data.subrange(off, off + 1 + lp_str(p@).len()) == seq![1u8] + lp_str(p@));
                lemma_subrange_split(data, off, seq![1u8], lp_str(p@));
                assert(data[off] == 1u8) by {
                    assert(data.subrange(off, off + 1)[0] == data[off]);
                }
                lemma_lp_str_round_trip(data, off + 1, p@);
                lemma_parse_steps_round_trip(data, off + step_bytes(ds[i]).len(), ds, i + 1);
                assert(seq![crate::bpe::StepView::Split(p@)] + desc_views(ds, i + 1)
                    =~= desc_views(ds, i));
            },
            StepDesc::ByteLevel => {
                assert(step_bytes(ds[i]) =~= seq![2u8]);
                assert(data[off] == 2u8) by {
                    assert(data.subrange(off, off + 1)[0] == data[off]);
                }
                lemma_parse_steps_round_trip(data, off + 1, ds, i + 1);
                assert(seq![crate::bpe::StepView::ByteLevel] + desc_views(ds, i + 1)
                    =~= desc_views(ds, i));
            },
        }
    } else {
        assert(steps_bytes(ds, i) =~= Seq::<u8>::empty());
        assert(desc_views(ds, i) =~= Seq::<crate::bpe::StepView>::empty());
    }
}

/// Reading the serialized code-point list entry by entry.
pub proof fn lemma_cps_bytes_read(data: Seq<u8>, off: int, cps: Seq<u32>, i: int)
    requires
        0 <= i <= cps.len(),
        0 <= off,
        off + cps_bytes(cps, i).len() <= data.len(),
        data.subrange(off, off + cps_bytes(cps, i).len()) == cps_bytes(cps, i),
    ensures
        cps_bytes(cps, i).len() == 4 * (cps.len() - i),
        forall|k: int|
            i <= k < cps.len() ==> le32(data, off + 4 * (k - i)) == #[trigger] cps[k],
    decreases cps.len() - i,
{
    if i < cps.len() {
        assert(cps_bytes(cps, i) == u32_le(cps[i]) + cps_bytes(cps, i + 1));
        lemma_subrange_split(data, off, u32_le(cps[i]), cps_bytes(cps, i + 1));
        lemma_le32_of_u32_le(data, off, cps[i]);
        lemma_cps_bytes_read(data, off + 4, cps, i + 1);
        assert forall|k: int| i <= k < cps.len() implies le32(data, off + 4 * (k - i))
            == #[trigger] cps[k] by {
            if k > i {
                assert(le32(data, off + 4 + 4 * (k - i - 1)) == cps[k]);
                assert(off + 4 + 4 * (k - i - 1) == off + 4 * (k - i));
            }
        }
    } else {
        assert(cps_bytes(cps, i) =~= Seq::<u8>::empty());
    }
}

} // verus!

verus! {

/// A blob assembled by `build_hf_blob` is a well-formed frozen tokenizer
/// blob, and the loader's computed offsets are the builder's.
#[verifier::rlimit(100)]
pub proof fn lemma_built_blob_loads(
    blob: Seq<u8>,
    m_off: int,
    l_off: int,
    r_off: int,
    bf: bool,
    post_add: u32,
    n: crate::bpe::Normalizer,
    ds: Seq<StepDesc>,
    cps: Seq<u32>,
)
    requires
        blob.take(m_off) == hf_prefix_bytes(bf, post_add, n, ds, cps),
        0 <= m_off <= l_off <= r_off <= blob.len(),
        tbl_wf(blob.subrange(m_off, l_off), 18),
        tbl_wf(blob.subrange(l_off, r_off), 14),
        tbl_wf(blob.subrange(r_off, blob.len() as int), 14),
        norm_ser_ok(n),
        norm_no_empty_seq(n),
        descs_ok(ds),
        ds.len() <= 0xFFFF_FFFF,
        cps.len() <= 0xFFFF_FFFF,
        cps_sorted(cps),
    ensures
        crate::bpe::hf_blob_parses(blob),
        crate::bpe::parse_norm(blob, 5) == Some(
            (crate::bpe::norm_view(n), norm_bytes(n).len() as int),
        ),
        crate::bpe::parse_pre_tokenizer(blob, crate::bpe::hf_norm_end(blob)) == Some(
            (desc_views(ds, 0), 4 + steps_bytes(ds, 0).len() as int),
        ),
        crate::bpe::hf_cp_count(blob) == cps.len(),
        crate::bpe::hf_merges_off(blob) == m_off,
        crate::bpe::hf_left_off(blob) == l_off,
        crate::bpe::hf_right_off(blob) == r_off,
        crate::bpe::hf_vocab_off(blob) == m_off - 4 * cps.len(),
        forall|i: int|
            0 <= i < cps.len() ==> le32(blob, crate::bpe::hf_vocab_off(blob) + 4 * i)
                == #[trigger] cps[i],
{
    let pfx = hf_prefix_bytes(bf, post_add, n, ds, cps);
    let nb = norm_bytes(n);
    let sb = steps_bytes(ds, 0);
    let cb = cps_bytes(cps, 0);
    assert(m_off == pfx.len());
    assert(blob.subrange(0, m_off) =~= blob.take(m_off));
    let r1 = u32_le(post_add) + (nb + (u32_le(ds.len() as u32) + (sb + (u32_le(cps.len() as u32)
        + cb))));
    assert(pfx =~= seq![if bf {
        1u8
    } else {
        0u8
    }] + r1);
    assert(blob.subrange(0, 1 + r1.len() as int) == seq![if bf {
        1u8
    } else {
        0u8
    }] + r1);
    lemma_subrange_split(
        blob,
        0,
        seq![if bf {
            1u8
        } else {
            0u8
        }],
        r1,
    );
    let r2 = nb + (u32_le(ds.len() as u32) + (sb + (u32_le(cps.len() as u32) + cb)));
    lemma_subrange_split(blob, 1, u32_le(post_add), r2);
    let r3 = u32_le(ds.len() as u32) + (sb + (u32_le(cps.len() as u32) + cb));
    lemma_subrange_split(blob, 5, nb, r3);
    let po = 5 + nb.len() as int;
    let r4 = sb + (u32_le(cps.len() as u32) + cb);
    lemma_subrange_split(blob, po, u32_le(ds.len() as u32), r4);
    let r5 = u32_le(cps.len() as u32) + cb;
    lemma_subrange_split(blob, po + 4, sb, r5);
    let co = po + 4 + sb.len() as int;
    lemma_subrange_split(blob, co, u32_le(cps.len() as u32), cb);
    let voff = co + 4;
    // the pieces parse back
    lemma_parse_norm_round_trip(blob, 5, n);
    assert(crate::bpe::hf_norm_end(blob) == po);
    lemma_le32_of_u32_le(blob, po, ds.len() as u32);
    lemma_parse_steps_round_trip(blob, po + 4, ds, 0);
    assert(crate::bpe::parse_pre_tokenizer(blob, po) == Some(
        (desc_views(ds, 0), 4 + sb.len() as int),
    ));
    assert(crate::bpe::hf_pre_end(blob) == co);
    lemma_le32_of_u32_le(blob, co, cps.len() as u32);
    assert(crate::bpe::hf_cp_count(blob) == cps.len());
    assert(crate::bpe::hf_vocab_off(blob) == voff);
    lemma_cps_bytes_read(blob, voff, cps, 0);
    assert(crate::bpe::hf_merges_off(blob) == voff + 4 * cps.len());
    assert(voff + 4 * cps.len() == m_off);
    // the code-point list the loader sees is `cps`
    assert(Seq::new(cps.len() as nat, |i: int| le32(blob, voff + 4 * i)) =~= cps);
    // table extents line up with the builder's regions
    lemma_region_ext(blob, m_off, l_off, 18);
    assert(crate::bpe::hf_left_off(blob) == l_off);
    lemma_region_ext(blob, l_off, r_off, 14);
    assert(crate::bpe::hf_right_off(blob) == r_off);
    lemma_region_ext(blob, r_off, blob.len() as int, 14);
}

/// A well-formed table region's declared extent is the region itself.
proof fn lemma_region_ext(blob: Seq<u8>, a: int, b: int, ss: int)
    requires
        0 <= a <= b <= blob.len(),
        tbl_wf(blob.subrange(a, b), ss),
        ss == 14 || ss == 18,
    ensures
        crate::bpe::ext_ok(blob, a, ss),
        a + crate::bpe::ext_len(blob, a, ss) == b,
{
    let t = blob.subrange(a, b);
    assert(tbl_num_slots(t) * ss >= ss) by (nonlinear_arith)
        requires
            tbl_num_slots(t) >= 1,
            ss >= 1,
    ;
    assert(t.len() >= 12);
    assert(le32(blob, a) == le32(t, 0)) by {
        assert(t[0] == blob[a] && t[1] == blob[a + 1] && t[2] == blob[a + 2] && t[3] == blob[a
            + 3]);
    }
    assert(le32(blob, a + 8) == le32(t, 8)) by {
        assert(t[8] == blob[a + 8] && t[9] == blob[a + 9] && t[10] == blob[a + 10] && t[11]
            == blob[a + 11]);
    }
    assert(crate::bpe::ext_len(blob, a, ss) == tbl_size(t, ss));
}

/// A tokenizer loaded from a built blob is well formed, and carries the
/// builder's normalizer and pre-tokenizer shapes: the counting theorem
/// applies to the shipped build-then-load pipeline.
pub proof fn lemma_loaded_tokenizer_wf(
    blob: Seq<u8>,
    m_off: int,
    l_off: int,
    r_off: int,
    bf: bool,
    post_add: u32,
    n: crate::bpe::Normalizer,
    ds: Seq<StepDesc>,
    cps: Seq<u32>,
    tok: crate::bpe::HfTokenizer,
)
    requires
        blob.take(m_off) == hf_prefix_bytes(bf, post_add, n, ds, cps),
        0 <= m_off <= l_off <= r_off <= blob.len(),
        tbl_wf(blob.subrange(m_off, l_off), 18),
        tbl_wf(blob.subrange(l_off, r_off), 14),
        tbl_wf(blob.subrange(r_off, blob.len() as int), 14),
        norm_ser_ok(n),
        norm_no_empty_seq(n),
        descs_ok(ds),
        ds.len() <= 0xFFFF_FFFF,
        cps.len() <= 0xFFFF_FFFF,
        cps_sorted(cps),
        tok.data@ == blob,
        crate::bpe::parse_norm(blob, 5) == Some(
            (crate::bpe::norm_view(tok.normalizer), crate::bpe::hf_norm_end(blob) - 5),
        ),
        crate::bpe::parse_pre_tokenizer(blob, crate::bpe::hf_norm_end(blob)) == Some(
            (
                crate::bpe::step_views(tok.pre_steps@, 0),
                crate::bpe::hf_pre_end(blob) - crate::bpe::hf_norm_end(blob),
            ),
        ),
        tok.vocab_count as int == crate::bpe::hf_cp_count(blob),
        tok.vocab_off as int == crate::bpe::hf_vocab_off(blob),
        tok.merges_off as int == crate::bpe::hf_merges_off(blob),
        tok.merge_left_off as int == crate::bpe::hf_left_off(blob),
        tok.merge_right_off as int == crate::bpe::hf_right_off(blob),
        forall|i: int| 0 <= i < tok.pre_steps@.len() ==> crate::bpe::step_wf(
            #[trigger] tok.pre_steps@[i],
        ),
    ensures
        tok.wf(),
        crate::bpe::norm_view(tok.normalizer) == crate::bpe::norm_view(n),
        crate::bpe::step_views(tok.pre_steps@, 0) == desc_views(ds, 0),
{
    lemma_built_blob_loads(blob, m_off, l_off, r_off, bf, post_add, n, ds, cps);
    assert(tok.merges_tbl() =~= blob.subrange(m_off, l_off));
    assert(tok.left_tbl() =~= blob.subrange(l_off, r_off));
    assert(tok.right_tbl() =~= blob.subrange(r_off, blob.len() as int));
    assert(tok.cps_seq() =~= Seq::new(cps.len() as nat, |i: int| le32(
        blob,
        crate::bpe::hf_vocab_off(blob) + 4 * i,
    )));
    assert(tok.cps_seq() =~= cps);
}

} // verus!
