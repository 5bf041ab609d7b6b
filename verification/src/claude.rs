//! Double-array trie segmenter: greedy longest-match token counting with
//! O(1) byte transitions.
//!
//! The trie is two parallel `u32` arrays `base` and `check` plus a root
//! index.  For state `s` and input byte `b`, the transition target is
//! `t = base[s] + b`; it is valid exactly when `t` is in bounds and
//! `check[t] & IDX_MASK == s`.  Bit 31 of `check[t]` marks `t` terminal:
//! the byte path from the root to `t` spells a vocabulary token.  An empty
//! cell has `check` all-ones.  Every transition is bounds-checked, so a
//! corrupt table can only lose transitions, never read out of bounds.

use vstd::prelude::*;

use crate::frozen::le32;
use vstd::string::StringSliceAdditionalSpecFns;

verus! {

pub const TERM_BIT: u32 = 0x8000_0000;

pub const IDX_MASK: u32 = 0x7FFF_FFFF;

pub const EMPTY_CELL: u32 = 0xFFFF_FFFF;

pub struct DATrie {
    pub root: u32,
    pub base: Vec<u32>,
    pub check: Vec<u32>,
}

impl DATrie {
    /// Structural bounds: the two arrays run in parallel and state indices
    /// fit the 31 bits that `check` can store.
    pub open spec fn wf(self) -> bool {
        &&& self.base@.len() == self.check@.len()
        &&& self.check@.len() <= 0x8000_0000
    }

    /// The transition function of the double array, as the executable
    /// code performs it: target in bounds, not empty, back-pointer match.
    pub open spec fn tr_spec(self, s: int, b: u8) -> Option<(int, bool)> {
        if !(0 <= s < self.check@.len()) {
            None
        } else {
            let t = self.base@[s] + b;
            if !(t < self.check@.len()) {
                None
            } else if self.check@[t] == EMPTY_CELL || (self.check@[t] & IDX_MASK) != s as u32 {
                None
            } else {
                Some((t, (self.check@[t] & TERM_BIT) != 0u32))
            }
        }
    }

    /// Longest terminal seen while walking on from state `cur` at byte
    /// position `i`; `best` is the best match length (from `pos`) so far.
    pub open spec fn scan_spec(self, bytes: Seq<u8>, pos: int, i: int, cur: int, best: int) -> int
        decreases bytes.len() - i,
    {
        if i < 0 || i >= bytes.len() {
            best
        } else {
            match self.tr_spec(cur, bytes[i]) {
                None => best,
                Some((t, term)) => self.scan_spec(
                    bytes,
                    pos,
                    i + 1,
                    t,
                    if term {
                        i - pos + 1
                    } else {
                        best
                    },
                ),
            }
        }
    }

    /// Greedy longest-match step length at position `pos`: the length of
    /// the longest vocabulary token starting there, or 1 if none starts
    /// there (the forced one-byte step on out-of-vocabulary input).
    pub open spec fn match_len_spec(self, bytes: Seq<u8>, pos: int) -> int {
        match self.tr_spec(self.root as int, bytes[pos]) {
            None => 1,
            Some((t, term)) => {
                let b = self.scan_spec(
                    bytes,
                    pos,
                    pos + 1,
                    t,
                    if term {
                        1int
                    } else {
                        0int
                    },
                );
                if b == 0 {
                    1
                } else {
                    b
                }
            },
        }
    }

    /// Walking `token[i..]` from state `s` follows valid transitions all
    /// the way and the last transition carries the terminal bit: the trie
    /// accepts the token as one whole vocabulary entry.
    pub open spec fn walk_accepts(self, token: Seq<u8>, i: int, s: int) -> bool
        decreases token.len() - i,
    {
        if i < 0 || i >= token.len() {
            false
        } else {
            match self.tr_spec(s, token[i]) {
                None => false,
                Some((t2, term)) => if i == token.len() - 1 {
                    term
                } else {
                    self.walk_accepts(token, i + 1, t2)
                },
            }
        }
    }

    /// Number of tokens the greedy segmentation emits from `pos` on.
    pub open spec fn count_spec(self, bytes: Seq<u8>, pos: int) -> int
        decreases bytes.len() - pos,
    {
        if pos < 0 || pos >= bytes.len() {
            0
        } else {
            let ml = self.match_len_spec(bytes, pos);
            let clamped = if ml < 1 {
                1int
            } else {
                ml
            };
            let step = if clamped > bytes.len() - pos {
                bytes.len() - pos
            } else {
                clamped
            };
            1 + self.count_spec(bytes, pos + step)
        }
    }

    /// The scan result stays between the running best and the number of
    /// bytes available from `pos`.
    pub proof fn lemma_scan_bounds(self, bytes: Seq<u8>, pos: int, i: int, cur: int, best: int)
        requires
            0 <= pos,
            pos < i,
            best <= i - pos,
        ensures
            best <= self.scan_spec(bytes, pos, i, cur, best),
            self.scan_spec(bytes, pos, i, cur, best) <= if bytes.len() - pos > best {
                bytes.len() - pos
            } else {
                best
            },
        decreases bytes.len() - i,
    {
        if 0 <= i < bytes.len() {
            match self.tr_spec(cur, bytes[i]) {
                None => {},
                Some((t, term)) => {
                    let nb = if term {
                        i - pos + 1
                    } else {
                        best
                    };
                    self.lemma_scan_bounds(bytes, pos, i + 1, t, nb);
                },
            }
        }
    }

    /// Every step is at least one byte and never leaves the input.
    pub proof fn lemma_match_len_bounds(self, bytes: Seq<u8>, pos: int)
        requires
            0 <= pos < bytes.len(),
        ensures
            1 <= self.match_len_spec(bytes, pos),
            self.match_len_spec(bytes, pos) <= bytes.len() - pos,
    {
        match self.tr_spec(self.root as int, bytes[pos]) {
            None => {},
            Some((t, term)) => {
                let b0 = if term {
                    1int
                } else {
                    0int
                };
                self.lemma_scan_bounds(bytes, pos, pos + 1, t, b0);
            },
        }
    }

    /// The token count never exceeds the number of bytes left.
    pub proof fn lemma_count_le_len(self, bytes: Seq<u8>, pos: int)
        requires
            0 <= pos,
        ensures
            self.count_spec(bytes, pos) <= bytes.len() - pos || bytes.len() <= pos,
            pos < bytes.len() ==> self.count_spec(bytes, pos) <= bytes.len() - pos,
            self.count_spec(bytes, pos) >= 0,
        decreases bytes.len() - pos,
    {
        if pos < bytes.len() {
            let ml = self.match_len_spec(bytes, pos);
            self.lemma_match_len_bounds(bytes, pos);
            self.lemma_count_le_len(bytes, pos + ml);
        }
    }

    /// One transition of the double array.
    pub fn transition(&self, s: u32, byte: u8) -> (r: Option<(u32, bool)>)
        requires
            self.wf(),
        ensures
            r.is_some() == self.tr_spec(s as int, byte).is_some(),
            r.is_some() ==> {
                let (t, term) = r.unwrap();
                self.tr_spec(s as int, byte) == Some((t as int, term))
            },
    {
        if s as usize >= self.base.len() {
            return None;
        }
        let t64: u64 = self.base[s as usize] as u64 + byte as u64;
        if t64 >= self.check.len() as u64 {
            return None;
        }
        let t = t64 as usize;
        let c = self.check[t];
        if c == EMPTY_CELL || (c & IDX_MASK) != s {
            return None;
        }
        Some((t as u32, c & TERM_BIT != 0))
    }

    /// Greedy longest-match step length at byte position `pos`.
    #[verifier::loop_isolation(false)]
    pub fn match_len(&self, bytes: &[u8], pos: usize) -> (r: usize)
        requires
            self.wf(),
            pos < bytes@.len(),
        ensures
            r as int == self.match_len_spec(bytes@, pos as int),
            1 <= r <= bytes@.len() - pos,
    {
        proof {
            self.lemma_match_len_bounds(bytes@, pos as int);
        }
        let (first, first_term) = match self.transition(self.root, bytes[pos]) {
            Some(v) => v,
            None => {
                return 1;
            },
        };
        let mut best: usize = if first_term {
            1
        } else {
            0
        };
        let mut cur: u32 = first;
        let mut i: usize = pos + 1;
        while i < bytes.len()
            invariant
                pos < i <= bytes@.len(),
                best <= i - pos,
                (cur as int) < self.check@.len(),
                self.scan_spec(bytes@, pos as int, i as int, cur as int, best as int)
                    == self.scan_spec(
                    bytes@,
                    pos as int,
                    pos + 1,
                    first as int,
                    if first_term {
                        1int
                    } else {
                        0int
                    },
                ),
            decreases bytes@.len() - i,
        {
            match self.transition(cur, bytes[i]) {
                Some((next, is_term)) => {
                    cur = next;
                    if is_term {
                        best = i - pos + 1;
                    }
                },
                None => {
                    proof {
                        assert(self.scan_spec(bytes@, pos as int, i as int, cur as int, best as int)
                            == best as int);
                    }
                    break ;
                },
            }
            i += 1;
        }
        if best == 0 {
            1
        } else {
            best
        }
    }

    /// Counts the tokens of the greedy longest-match segmentation.
    ///
    /// The count is exactly `count_spec` over the UTF-8 bytes of `text`;
    /// it is 0 for empty input and never exceeds the byte length.
    #[verifier::loop_isolation(false)]
    pub fn count_tokens(&self, text: &str) -> (r: usize)
        requires
            self.wf(),
        ensures
            r as int == self.count_spec(text.spec_bytes(), 0),
            r <= text.spec_bytes().len(),
            text@.len() == 0 ==> r == 0,
    {
        proof {
            vstd::utf8::encode_utf8_valid_utf8(text@);
            self.lemma_count_le_len(text.spec_bytes(), 0);
        }
        if text.is_empty() {
            proof {
                assert(text.spec_bytes() =~= Seq::<u8>::empty());
            }
            return 0;
        }
        let bytes = text.as_bytes();
        let mut count: usize = 0;
        let mut pos: usize = 0;
        while pos < bytes.len()
            invariant
                pos <= bytes@.len(),
                count + self.count_spec(bytes@, pos as int) == self.count_spec(bytes@, 0),
                count <= pos,
            decreases bytes@.len() - pos,
        {
            proof {
                self.lemma_count_le_len(bytes@, pos as int);
            }
            let step = self.match_len(bytes, pos);
            pos += step;
            count += 1;
        }
        count
    }

    /// Loads a trie from its serialized blob:
    /// `u32 array_size | u32 root | u32[array_size] base | u32[array_size] check`.
    #[verifier::loop_isolation(false)]
    pub fn new(data: &[u8]) -> (r: DATrie)
        requires
            data@.len() >= 8,
            8 + le32(data@, 0) * 8 <= data@.len(),
            le32(data@, 0) <= 0x8000_0000,
        ensures
            r.wf(),
            r.root == le32(data@, 4),
            r.base@.len() == le32(data@, 0),
            forall|i: int|
                0 <= i < le32(data@, 0) ==> r.base@[i] == le32(data@, 8 + 4 * i)
                    && r.check@[i] == le32(data@, 8 + 4 * (le32(data@, 0) + i)),
    {
        let dl = data.len();
        let array_size = crate::frozen::read_u32(data, 0) as usize;
        let root = crate::frozen::read_u32(data, 4);
        let mut base: Vec<u32> = Vec::new();
        let mut check: Vec<u32> = Vec::new();
        let mut i: usize = 0;
        while i < array_size
            invariant
                i <= array_size,
                base@.len() == i,
                check@.len() == i,
                forall|j: int|
                    0 <= j < i ==> base@[j] == le32(data@, 8 + 4 * j) && check@[j] == le32(
                        data@,
                        8 + 4 * (array_size + j),
                    ),
            decreases array_size - i,
        {
            base.push(crate::frozen::read_u32(data, 8 + 4 * i));
            check.push(crate::frozen::read_u32(data, 8 + 4 * (array_size + i)));
            i += 1;
        }
        DATrie { root, base, check }
    }
}

} // verus!
