//! The BPE merge loop shared by the tiktoken and HF counters.
//!
//! A piece is a sequence of byte-string parts.  As long as some adjacent
//! pair has a rank in the merges table, the leftmost pair of lowest rank
//! is merged into one part.  The count of surviving parts is the piece's
//! token count.  The two counters differ only in how the lookup key is
//! composed: plain concatenation (tiktoken) or NUL-separated (HF merges).

use vstd::prelude::*;

use crate::frozen::{composed_key, map_get_spec, tbl_wf};

verus! {

/// Rank of merging adjacent parts `a` and `b`, if the table knows the pair.
pub open spec fn rank_of(t: Seq<u8>, a: Seq<u8>, b: Seq<u8>, sep: bool) -> Option<u32> {
    map_get_spec(t, composed_key(a, b, sep))
}

/// Forward scan for the leftmost lowest-rank adjacent pair, from index
/// `i` with accumulator `acc` (mirrors the executable scan).
pub open spec fn scan_best(
    t: Seq<u8>,
    parts: Seq<Seq<u8>>,
    sep: bool,
    i: int,
    acc: Option<(u32, int)>,
) -> Option<(u32, int)>
    decreases parts.len() - i,
{
    if i < 0 || i + 1 >= parts.len() {
        acc
    } else {
        let acc2 = match rank_of(t, parts[i], parts[i + 1], sep) {
            None => acc,
            Some(r) => match acc {
                None => Some((r, i)),
                Some((ar, ai)) => if r < ar {
                    Some((r, i))
                } else {
                    acc
                },
            },
        };
        scan_best(t, parts, sep, i + 1, acc2)
    }
}

/// The leftmost adjacent pair of lowest rank, if any pair has a rank.
pub open spec fn best_pair(t: Seq<u8>, parts: Seq<Seq<u8>>, sep: bool) -> Option<(u32, int)> {
    scan_best(t, parts, sep, 0, None)
}

/// One merge: parts `i` and `i + 1` fuse into their concatenation.
pub open spec fn merge_step(parts: Seq<Seq<u8>>, i: int) -> Seq<Seq<u8>> {
    parts.take(i) + seq![parts[i] + parts[i + 1]] + parts.skip(i + 2)
}


/// The fully merged sequence of parts.
pub open spec fn bpe_merge_spec(t: Seq<u8>, parts: Seq<Seq<u8>>, sep: bool) -> Seq<Seq<u8>>
    decreases parts.len(),
{
    if parts.len() < 2 {
        parts
    } else {
        match best_pair(t, parts, sep) {
            None => parts,
            Some((r, i)) => {
                let j = if 0 <= i && i + 1 < parts.len() {
                    i
                } else {
                    0int
                };
                bpe_merge_spec(t, merge_step(parts, j), sep)
            },
        }
    }
}

/// The number of parts BPE merging leaves of `parts`.
pub open spec fn bpe_count_spec(t: Seq<u8>, parts: Seq<Seq<u8>>, sep: bool) -> int {
    bpe_merge_spec(t, parts, sep).len() as int
}

/// Total byte length of all parts.
pub open spec fn parts_total(parts: Seq<Seq<u8>>) -> int
    decreases parts.len(),
{
    if parts.len() == 0 {
        0
    } else {
        parts_total(parts.drop_last()) + parts.last().len()
    }
}





/// Appending one part adds exactly its length to the total.
pub proof fn lemma_parts_total_push(a: Seq<Seq<u8>>, x: Seq<u8>)
    ensures
        parts_total(a.push(x)) == parts_total(a) + x.len(),
{
    assert(a.push(x).drop_last() =~= a);
    assert(a.push(x).last() == x);
}

pub proof fn lemma_parts_total_concat(a: Seq<Seq<u8>>, b: Seq<Seq<u8>>)
    ensures
        parts_total(a + b) == parts_total(a) + parts_total(b),
    decreases b.len(),
{
    if b.len() == 0 {
        assert(a + b =~= a);
    } else {
        lemma_parts_total_concat(a, b.drop_last());
        assert((a + b).drop_last() =~= a + b.drop_last());
    }
}

/// Runs the merge loop and returns the surviving part count.
#[verifier::loop_isolation(false)]
pub fn bpe_merge_count(table: &[u8], pieces: Vec<Vec<u8>>, sep: bool) -> (r: usize)
    requires
        tbl_wf(table@, 18),
    ensures
        r as int == bpe_count_spec(table@, pieces@.map_values(|p: Vec<u8>| p@), sep),
{
    let ghost orig: Seq<Seq<u8>> = pieces@.map_values(|p: Vec<u8>| p@);
    let mut parts = pieces;
    let mut merging = true;
    while merging
        invariant
            bpe_merge_spec(table@, parts@.map_values(|p: Vec<u8>| p@), sep) == bpe_merge_spec(
                table@,
                orig,
                sep,
            ),
            tbl_wf(table@, 18),
            !merging ==> best_pair(table@, parts@.map_values(|p: Vec<u8>| p@), sep).is_none(),
        decreases parts@.len() + if merging {
            1int
        } else {
            0int
        },
    {
        let ghost pv = parts@.map_values(|p: Vec<u8>| p@);
        let n = parts.len();
        let mut best_rank: u32 = 0;
        let mut best_idx: usize = 0;
        let mut have = false;
        let mut i: usize = 0;
        if n < 2 {
            proof {
                assert(best_pair(table@, pv, sep).is_none());
            }
            merging = false;
        } else {
            while i < n - 1
                invariant
                    i <= n,
                    n == parts@.len(),
                    pv == parts@.map_values(|p: Vec<u8>| p@),
                    have ==> 0 <= best_idx as int && best_idx as int + 1 < n as int && rank_of(
                        table@,
                        pv[best_idx as int],
                        pv[best_idx as int + 1],
                        sep,
                    ) == Some(best_rank),
                    scan_best(
                        table@,
                        pv,
                        sep,
                        i as int,
                        if have {
                            Some((best_rank, best_idx as int))
                        } else {
                            None
                        },
                    ) == best_pair(table@, pv, sep),
                decreases n - i,
            {
                proof {
                    assert(pv[i as int] == parts@[i as int]@);
                    assert(pv[i as int + 1] == parts@[i as int + 1]@);
                }
                let a_len = parts[i].len();
                let b_len = parts[i + 1].len();
                let rk = if a_len <= 0xFFFF && b_len <= 0xFFFF && a_len + b_len <= 0xFFFF {
                    if sep {
                        crate::frozen::frozen_map_get_pair(
                            table,
                            parts[i].as_slice(),
                            parts[i + 1].as_slice(),
                        )
                    } else {
                        crate::frozen::frozen_map_get_concat(
                            table,
                            parts[i].as_slice(),
                            parts[i + 1].as_slice(),
                        )
                    }
                } else {
                    proof {
                        crate::frozen::lemma_long_key_absent(
                            table@,
                            18,
                            crate::frozen::composed_key(pv[i as int], pv[i as int + 1], sep),
                        );
                    }
                    None
                };
                match rk {
                    Some(r) => {
                        if !have || r < best_rank {
                            best_rank = r;
                            best_idx = i;
                            have = true;
                        }
                    },
                    None => {},
                }
                i += 1;
            }
            if !have {
                proof {
                    assert(best_pair(table@, pv, sep).is_none());
                }
                merging = false;
            } else {
                proof {
                    assert(best_pair(table@, pv, sep) == Some((best_rank, best_idx as int)));
                }
                let mut fused: Vec<u8> = Vec::new();
                let la = parts[best_idx].len();
                let mut t: usize = 0;
                while t < la
                    invariant
                        t <= la,
                        best_idx as int + 1 < parts@.len(),
                        la == parts@[best_idx as int]@.len(),
                        fused@ == parts@[best_idx as int]@.take(t as int),
                    decreases la - t,
                {
                    fused.push(parts[best_idx][t]);
                    proof {
                        assert(parts@[best_idx as int]@.take(t as int).push(
                            parts@[best_idx as int]@[t as int],
                        ) =~= parts@[best_idx as int]@.take(t as int + 1));
                    }
                    t += 1;
                }
                let lb = parts[best_idx + 1].len();
                let mut u: usize = 0;
                while u < lb
                    invariant
                        u <= lb,
                        best_idx as int + 1 < parts@.len(),
                        lb == parts@[best_idx as int + 1]@.len(),
                        fused@ == parts@[best_idx as int]@ + parts@[best_idx as int + 1]@.take(
                            u as int,
                        ),
                    decreases lb - u,
                {
                    fused.push(parts[best_idx + 1][u]);
                    proof {
                        assert(parts@[best_idx as int]@ + parts@[best_idx as int + 1]@.take(
                            u as int + 1,
                        ) =~= (parts@[best_idx as int]@ + parts@[best_idx as int + 1]@.take(
                            u as int,
                        )).push(parts@[best_idx as int + 1]@[u as int]));
                    }
                    u += 1;
                }
                proof {
                    assert(parts@[best_idx as int]@.take(la as int) =~= parts@[best_idx as int]@);
                    assert(parts@[best_idx as int + 1]@.take(lb as int) =~= parts@[best_idx
                        as int + 1]@);
                }
                parts.set(best_idx, fused);
                parts.remove(best_idx + 1);
                proof {
                    assert(parts@.map_values(|p: Vec<u8>| p@) =~= merge_step(
                        pv,
                        best_idx as int,
                    ));
                }
            }
        }
    }
    let r = parts.len();
    proof {
        assert(bpe_merge_spec(table@, parts@.map_values(|p: Vec<u8>| p@), sep)
            =~= parts@.map_values(|p: Vec<u8>| p@));
    }
    r
}

} // verus!
