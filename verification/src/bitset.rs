//! A growable set of indices backed by 64-bit words.

use vstd::prelude::*;
use vstd::std_specs::bits::{u64_trailing_zeros, axiom_u64_trailing_zeros};

verus! {

/// Whether bit `b` of `w` is one.
pub open spec fn word_bit(w: u64, b: nat) -> bool {
    b < 64 && (w >> (b as u64)) & 1u64 == 1u64
}

proof fn lemma_or_bit(w: u64, b: u64, j: u64)
    requires
        b < 64,
        j < 64,
    ensures
        ((w | (1u64 << b)) >> j) & 1u64 == 1u64 <==> (j == b || (w >> j) & 1u64 == 1u64),
{
    assert(((w | (1u64 << b)) >> j) & 1u64 == 1u64 <==> (j == b || (w >> j) & 1u64 == 1u64))
        by (bit_vector)
        requires
            b < 64,
            j < 64,
    ;
}

proof fn lemma_and_mask_bit(w: u64, b: u64)
    requires
        b < 64,
    ensures
        (w & (1u64 << b)) != 0u64 <==> (w >> b) & 1u64 == 1u64,
{
    assert((w & (1u64 << b)) != 0u64 <==> (w >> b) & 1u64 == 1u64) by (bit_vector)
        requires
            b < 64,
    ;
}

proof fn lemma_clear_bit(w: u64, b: u64, j: u64)
    requires
        b < 64,
        j < 64,
    ensures
        ((w & !(1u64 << b)) >> j) & 1u64 == 1u64 <==> (j != b && (w >> j) & 1u64 == 1u64),
{
    assert(((w & !(1u64 << b)) >> j) & 1u64 == 1u64 <==> (j != b && (w >> j) & 1u64 == 1u64))
        by (bit_vector)
        requires
            b < 64,
            j < 64,
    ;
}

proof fn lemma_and_bit(a: u64, b: u64, j: u64)
    requires
        j < 64,
    ensures
        ((a & b) >> j) & 1u64 == 1u64 <==> ((a >> j) & 1u64 == 1u64 && (b >> j) & 1u64 == 1u64),
{
    assert(((a & b) >> j) & 1u64 == 1u64 <==> ((a >> j) & 1u64 == 1u64 && (b >> j) & 1u64
        == 1u64)) by (bit_vector)
        requires
            j < 64,
    ;
}

proof fn lemma_zero_word_no_bits(j: u64)
    requires
        j < 64,
    ensures
        (0u64 >> j) & 1u64 != 1u64,
{
    assert((0u64 >> j) & 1u64 != 1u64) by (bit_vector);
}

/// Set of indices; index `i` lives in bit `i % 64` of word `i / 64`.
#[derive(Debug, Clone)]
pub struct BitSet {
    words: Vec<u64>,
}

impl View for BitSet {
    type V = Set<nat>;

    closed spec fn view(&self) -> Set<nat> {
        Set::new(|i: nat| self.has(i))
    }
}

impl Default for BitSet {
    fn default() -> (s: Self)
        ensures
            s.wf(),
            s@ == Set::<nat>::empty(),
    {
        let s = BitSet { words: Vec::new() };
        assert(s@ =~= Set::<nat>::empty());
        s
    }
}

impl BitSet {
    /// Whether index `i` is in the set.
    pub closed spec fn has(&self, i: nat) -> bool {
        &&& i / 64 < self.words.len()
        &&& word_bit(self.words[(i / 64) as int], i % 64)
    }

    /// Every index of the set fits in a `usize` once scaled by 64.
    pub closed spec fn wf(&self) -> bool {
        self.words.len() <= usize::MAX / 64
    }

    /// Number of backing words.
    pub closed spec fn word_count(&self) -> nat {
        self.words.len() as nat
    }

    /// Create an empty set with room for `capacity` bits.
    pub fn with_capacity(capacity: usize) -> (s: Self)
        requires
            capacity <= usize::MAX - 63,
        ensures
            s.wf(),
            s@ == Set::<nat>::empty(),
            s.word_count() * 64 >= capacity,
            s.word_count() * 64 < capacity + 64,
    {
        let num_words = capacity / 64 + if capacity % 64 == 0 { 0 } else { 1 };
        let mut words: Vec<u64> = Vec::new();
        while words.len() < num_words
            invariant
                words.len() <= num_words,
                forall|k: int| 0 <= k < words.len() ==> words[k] == 0u64,
            decreases num_words - words.len(),
        {
            words.push(0u64);
        }
        let s = BitSet { words };
        assert forall|i: nat| !s.has(i) by {
            if i / 64 < s.words.len() {
                lemma_zero_word_no_bits((i % 64) as u64);
            }
        }
        assert(s@ =~= Set::<nat>::empty());
        s
    }

    /// Add `index` to the set, growing the storage when needed.
    pub fn set(&mut self, index: usize)
        requires
            old(self).wf(),
            index / 64 < usize::MAX / 64,
        ensures
            final(self).wf(),
            final(self)@ == old(self)@.insert(index as nat),
    {
        let word_idx = index / 64;
        let bit_idx = index % 64;
        if word_idx >= self.words.len() {
            let ghost before = self.words@;
            while self.words.len() < word_idx + 1
                invariant
                    word_idx == index / 64,
                    index / 64 < usize::MAX / 64,
                    before.len() <= self.words.len() <= word_idx + 1,
                    forall|k: int| 0 <= k < before.len() ==> self.words[k] == before[k],
                    forall|k: int| before.len() <= k < self.words.len() ==> self.words[k] == 0u64,
                decreases word_idx + 1 - self.words.len(),
            {
                self.words.push(0u64);
            }
        }
        let ghost mid = *self;
        assert forall|i: nat| mid.has(i) == old(self).has(i) by {
            if i / 64 < mid.words.len() && i / 64 >= old(self).words.len() {
                lemma_zero_word_no_bits((i % 64) as u64);
            }
        }
        let w = self.words[word_idx];
        self.words.set(word_idx, w | (1u64 << (bit_idx as u64)));
        assert forall|i: nat| self.has(i) == (mid.has(i) || i == index as nat) by {
            if i / 64 == word_idx as nat {
                lemma_or_bit(w, bit_idx as u64, (i % 64) as u64);
            }
        }
        assert forall|i: nat| self@.contains(i) == old(self)@.insert(index as nat).contains(i) by {
            assert(self@.contains(i) == self.has(i));
            assert(old(self)@.contains(i) == old(self).has(i));
            assert(mid.has(i) == old(self).has(i));
            assert(self.has(i) == (mid.has(i) || i == index as nat));
        }
        assert(self@ =~= old(self)@.insert(index as nat));
    }

    /// Whether `index` is in the set.
    pub fn contains(&self, index: usize) -> (r: bool)
        ensures
            r == self@.contains(index as nat),
    {
        let word_idx = index / 64;
        let bit_idx = index % 64;
        if word_idx >= self.words.len() {
            return false;
        }
        proof {
            lemma_and_mask_bit(self.words[word_idx as int], bit_idx as u64);
        }
        (self.words[word_idx] & (1u64 << (bit_idx as u64))) != 0
    }

    /// Whether the two sets share an index.
    pub fn intersects(&self, other: &Self) -> (r: bool)
        ensures
            r == exists|i: nat| self@.contains(i) && other@.contains(i),
    {
        let len = if self.words.len() < other.words.len() {
            self.words.len()
        } else {
            other.words.len()
        };
        let mut i: usize = 0;
        while i < len
            invariant
                i <= len,
                len <= self.words.len(),
                len <= other.words.len(),
                forall|k: nat| k / 64 < i ==> !(self.has(k) && other.has(k)),
            decreases len - i,
        {
            let a = self.words[i];
            let b = other.words[i];
            if (a & b) != 0 {
                proof {
                    let c = a & b;
                    axiom_u64_trailing_zeros(c);
                    let t = u64_trailing_zeros(c);
                    lemma_and_bit(a, b, t as u64);
                    let k: nat = (i as nat) * 64 + t as nat;
                    assert(k / 64 == i as nat && k % 64 == t as nat);
                    assert(self.has(k) && other.has(k));
                    assert(self@.contains(k) && other@.contains(k));
                }
                return true;
            }
            proof {
                assert forall|k: nat| k / 64 <= i implies !(self.has(k) && other.has(k)) by {
                    if k / 64 == i as nat {
                        lemma_and_bit(a, b, (k % 64) as u64);
                        lemma_zero_word_no_bits((k % 64) as u64);
                    }
                }
            }
            i = i + 1;
        }
        proof {
            assert forall|k: nat| !(self@.contains(k) && other@.contains(k)) by {
                if k / 64 >= len {
                    assert(!(self.has(k) && other.has(k)));
                }
            }
        }
        false
    }

    /// Iterator over the indices of the set, smallest first.
    pub fn ones(&self) -> (it: OnesIter<'_>)
        requires
            self.wf(),
        ensures
            it.wf(),
            it.source() == *self,
            it.remaining() == self@,
    {
        let current_word = if self.words.len() == 0 { 0u64 } else { self.words[0] };
        let it = OnesIter { bitset: self, word_idx: 0, current_word };
        assert forall|i: nat| it.remaining().contains(i) == self@.contains(i) by {
            if i / 64 == 0 && self.words.len() == 0 {
                lemma_zero_word_no_bits((i % 64) as u64);
            }
        }
        assert(it.remaining() =~= self@);
        it
    }
}

/// Walks the indices of a `BitSet` in increasing order.
pub struct OnesIter<'a> {
    bitset: &'a BitSet,
    word_idx: usize,
    current_word: u64,
}

impl<'a> OnesIter<'a> {
    /// The set being walked.
    pub closed spec fn source(&self) -> BitSet {
        *self.bitset
    }

    /// Indices not yet returned.
    pub closed spec fn remaining(&self) -> Set<nat> {
        Set::new(
            |i: nat|
                (i / 64 == self.word_idx && word_bit(self.current_word, i % 64)) || (i / 64
                    > self.word_idx && self.bitset.has(i)),
        )
    }

    pub closed spec fn wf(&self) -> bool {
        &&& self.bitset.wf()
        &&& self.word_idx <= self.bitset.words.len()
        &&& self.word_idx == self.bitset.words.len() ==> self.current_word == 0
    }

    /// Return the smallest index not yet returned, and drop it.
    pub fn next(&mut self) -> (r: Option<usize>)
        requires
            old(self).wf(),
        ensures
            final(self).wf(),
            final(self).source() == old(self).source(),
            match r {
                None => old(self).remaining() == Set::<nat>::empty() && final(self).remaining()
                    == Set::<nat>::empty(),
                Some(i) => {
                    &&& old(self).remaining().contains(i as nat)
                    &&& forall|j: nat| #[trigger]
                        old(self).remaining().contains(j) ==> i as nat <= j
                    &&& final(self).remaining() == old(self).remaining().remove(i as nat)
                },
            },
    {
        let ghost start = old(self).remaining();
        loop
            invariant
                self.wf(),
                self.source() == old(self).source(),
                self.remaining() == start,
                start == old(self).remaining(),
            decreases self.bitset.words.len() - self.word_idx,
        {
            if self.current_word != 0 {
                let cw = self.current_word;
                let trailing = cw.trailing_zeros();
                proof {
                    axiom_u64_trailing_zeros(cw);
                }
                let w = self.word_idx;
                self.current_word = cw & !(1u64 << (trailing as u64));
                let res = w * 64 + trailing as usize;
                proof {
                    let t = trailing as nat;
                    assert(res as nat / 64 == w as nat && res as nat % 64 == t);
                    assert(start.contains(res as nat));
                    assert forall|j: nat| #[trigger] start.contains(j) implies res as nat <= j by {
                        if j / 64 == w as nat {
                            if j % 64 < t {
                                assert((cw >> ((j % 64) as u64)) & 1u64 == 0u64);
                            }
                        }
                    }
                    assert forall|j: nat| self.remaining().contains(j) == (start.contains(j) && j
                        != res as nat) by {
                        if j / 64 == w as nat {
                            lemma_clear_bit(cw, trailing as u64, (j % 64) as u64);
                        }
                    }
                    assert(self.remaining() =~= start.remove(res as nat));
                }
                return Some(res);
            }
            if self.word_idx + 1 >= self.bitset.words.len() {
                proof {
                    assert forall|j: nat| !start.contains(j) by {
                        if j / 64 == self.word_idx as nat {
                            lemma_zero_word_no_bits((j % 64) as u64);
                        }
                    }
                    assert(start =~= Set::<nat>::empty());
                }
                self.word_idx = self.bitset.words.len();
                proof {
                    assert forall|j: nat| !self.remaining().contains(j) by {
                        if j / 64 == self.word_idx as nat {
                            lemma_zero_word_no_bits((j % 64) as u64);
                        }
                    }
                    assert(self.remaining() =~= Set::<nat>::empty());
                }
                return None;
            }
            let ghost before = self.remaining();
            self.word_idx = self.word_idx + 1;
            self.current_word = self.bitset.words[self.word_idx];
            proof {
                assert forall|j: nat| self.remaining().contains(j) == before.contains(j) by {
                    if j / 64 == (self.word_idx - 1) as nat {
                        lemma_zero_word_no_bits((j % 64) as u64);
                    }
                }
                assert(self.remaining() =~= before);
            }
        }
    }
}

/// The members after setting each index of `indices` in turn, starting from
/// `start`.
pub open spec fn after_setting(start: Set<nat>, indices: Seq<nat>) -> Set<nat>
    decreases indices.len(),
{
    if indices.len() == 0 {
        start
    } else {
        after_setting(start, indices.drop_last()).insert(indices.last())
    }
}

/// Setting indices one after another into an empty set, in any order and
/// with repeats, leaves exactly those indices as members.
pub proof fn lemma_set_sequence(indices: Seq<nat>)
    ensures
        after_setting(Set::empty(), indices) == indices.to_set(),
    decreases indices.len(),
{
    if indices.len() > 0 {
        let p = indices.drop_last();
        lemma_set_sequence(p);
        assert(indices == p.push(indices.last()));
        assert forall|x: nat| after_setting(Set::empty(), indices).contains(x) <==> indices.to_set().contains(x) by {
            if indices.contains(x) {
                let k = choose|k: int| 0 <= k < indices.len() && indices[k] == x;
                if k < p.len() {
                    assert(p[k] == x);
                    assert(p.contains(x));
                }
            }
            if p.contains(x) {
                let k = choose|k: int| 0 <= k < p.len() && p[k] == x;
                assert(indices[k] == x);
            }
            assert(indices[indices.len() - 1] == indices.last());
        }
        assert(after_setting(Set::empty(), indices) =~= indices.to_set());
    }
}

/// Two sets intersect whichever is asked first, and no set intersects an
/// empty one.
pub proof fn lemma_intersects_symmetric(a: BitSet, b: BitSet)
    ensures
        (exists|i: nat| a@.contains(i) && b@.contains(i)) == (exists|i: nat| b@.contains(i) && a@.contains(i)),
        b@ == Set::<nat>::empty() ==> !(exists|i: nat| a@.contains(i) && b@.contains(i)),
{
    if exists|i: nat| a@.contains(i) && b@.contains(i) {
        let i = choose|i: nat| a@.contains(i) && b@.contains(i);
        assert(b@.contains(i) && a@.contains(i));
    }
    if exists|i: nat| b@.contains(i) && a@.contains(i) {
        let i = choose|i: nat| b@.contains(i) && a@.contains(i);
        assert(a@.contains(i) && b@.contains(i));
    }
}

} // verus!
