//! Wavelet tree over the characters of a text: each internal node splits its
//! alphabet range in two halves and keeps one bit per character saying which half
//! it belongs to.
use vstd::prelude::*;
use crate::util::{rank_of, rank0_of, lemma_rank_step, lemma_rank_le};
use crate::bitvec::BitVec;
use crate::rank_select::{BitModel, Access, Rank, Select, BitBuilder};
use crate::Build;
use crate::character_sequence::{CharacterModel, CharacterRank, CharacterSelect, CharacterAccess};
use crate::profiling::HeapSize;

verus! {

/// Relies on str::chars: the characters of the string, in order.
#[verifier::external_body]
fn chars_of(s: &str) -> (r: Vec<char>)
    ensures
        r@ == s@,
{
    s.chars().collect()
}

/// The characters of `t` not above `m`, in order.
pub open spec fn low_part(t: Seq<char>, m: char) -> Seq<char>
    decreases t.len(),
{
    if t.len() == 0 {
        Seq::empty()
    } else if t.last() <= m {
        low_part(t.drop_last(), m).push(t.last())
    } else {
        low_part(t.drop_last(), m)
    }
}

/// The characters of `t` above `m`, in order.
pub open spec fn high_part(t: Seq<char>, m: char) -> Seq<char>
    decreases t.len(),
{
    if t.len() == 0 {
        Seq::empty()
    } else if t.last() > m {
        high_part(t.drop_last(), m).push(t.last())
    } else {
        high_part(t.drop_last(), m)
    }
}

/// One bit per character of `t`: whether it is above `m`.
pub open spec fn split_bits(t: Seq<char>, m: char) -> Seq<bool> {
    Seq::new(t.len(), |i: int| t[i] > m)
}

/// Occurrences of `c` in `t`.
pub open spec fn char_count(t: Seq<char>, c: char) -> nat
    decreases t.len(),
{
    if t.len() == 0 {
        0
    } else {
        char_count(t.drop_last(), c) + if t.last() == c { 1nat } else { 0nat }
    }
}

/// `p` is where `r` occurrences of `c` have been seen, right after the last of them.
pub open spec fn is_char_select(t: Seq<char>, c: char, r: int, p: int) -> bool {
    &&& 0 <= p <= t.len()
    &&& char_count(t.take(p), c) == r
    &&& r > 0 ==> t[p - 1] == c
    &&& r == 0 ==> p == 0
}

/// Strictly increasing.
pub open spec fn sorted_chars(a: Seq<char>) -> bool {
    forall|i: int, j: int| 0 <= i < j < a.len() ==> a[i] < a[j]
}

/// Every character of `t` is in `a[l..=r]`.
pub open spec fn within(t: Seq<char>, a: Seq<char>, l: int, r: int) -> bool {
    forall|i: int| 0 <= i < t.len() ==> a[l] <= #[trigger] t[i] && t[i] <= a[r] && a.contains(t[i])
}

proof fn lemma_take_step(t: Seq<char>, i: int)
    requires
        0 <= i < t.len(),
    ensures
        t.take(i + 1).drop_last() =~= t.take(i),
        t.take(i + 1).last() == t[i],
{
}

/// The parts of a prefix have as many characters as the rank of the split bits.
proof fn lemma_parts_len(t: Seq<char>, m: char, i: int)
    requires
        0 <= i <= t.len(),
    ensures
        low_part(t.take(i), m).len() == rank0_of(split_bits(t, m), i),
        high_part(t.take(i), m).len() == rank_of(split_bits(t, m), i),
    decreases i,
{
    if i > 0 {
        lemma_parts_len(t, m, i - 1);
        lemma_take_step(t, i - 1);
        lemma_rank_step(split_bits(t, m), i - 1);
    } else {
        assert(t.take(0) =~= Seq::<char>::empty());
        assert(split_bits(t, m).take(0) =~= Seq::<bool>::empty());
    }
}

/// The parts of a prefix are prefixes of the parts.
proof fn lemma_parts_prefix(t: Seq<char>, m: char, i: int, j: int)
    requires
        0 <= i <= j <= t.len(),
    ensures
        low_part(t.take(i), m).len() <= low_part(t.take(j), m).len(),
        low_part(t.take(j), m).take(low_part(t.take(i), m).len() as int) =~= low_part(t.take(i), m),
        high_part(t.take(i), m).len() <= high_part(t.take(j), m).len(),
        high_part(t.take(j), m).take(high_part(t.take(i), m).len() as int) =~= high_part(t.take(i), m),
    decreases j - i,
{
    if i < j {
        lemma_parts_prefix(t, m, i, j - 1);
        lemma_take_step(t, j - 1);
    }
}

/// The character at `i` is where the rank of the split bits points in its part.
proof fn lemma_parts_index(t: Seq<char>, m: char, i: int)
    requires
        0 <= i < t.len(),
    ensures
        t[i] <= m ==> rank0_of(split_bits(t, m), i) < low_part(t, m).len() && low_part(t, m)[rank0_of(
            split_bits(t, m),
            i,
        )] == t[i],
        t[i] > m ==> rank_of(split_bits(t, m), i) < high_part(t, m).len() && high_part(t, m)[rank_of(
            split_bits(t, m),
            i,
        ) as int] == t[i],
{
    lemma_parts_len(t, m, i);
    lemma_parts_len(t, m, i + 1);
    lemma_parts_prefix(t, m, i + 1, t.len() as int);
    lemma_take_step(t, i);
    assert(t.take(t.len() as int) =~= t);
    let s = t.take(i + 1);
    if t[i] <= m {
        assert(low_part(s, m) == low_part(t.take(i), m).push(t[i]));
        let k = low_part(t.take(i), m).len() as int;
        assert(low_part(t, m).take(k + 1)[k] == low_part(t, m)[k]);
    } else {
        assert(high_part(s, m) == high_part(t.take(i), m).push(t[i]));
        let k = high_part(t.take(i), m).len() as int;
        assert(high_part(t, m).take(k + 1)[k] == high_part(t, m)[k]);
    }
}

/// Splitting off the other characters does not change the count of `c`.
proof fn lemma_parts_count(t: Seq<char>, m: char, c: char)
    ensures
        c <= m ==> char_count(low_part(t, m), c) == char_count(t, c),
        c > m ==> char_count(high_part(t, m), c) == char_count(t, c),
    decreases t.len(),
{
    if t.len() > 0 {
        lemma_parts_count(t.drop_last(), m, c);
        let p = low_part(t.drop_last(), m);
        let q = high_part(t.drop_last(), m);
        assert(p.push(t.last()).drop_last() =~= p);
        assert(q.push(t.last()).drop_last() =~= q);
    }
}

/// A text of one repeated character counts it at every position.
proof fn lemma_count_uniform(t: Seq<char>, c: char)
    requires
        forall|i: int| 0 <= i < t.len() ==> t[i] == c,
    ensures
        char_count(t, c) == t.len(),
    decreases t.len(),
{
    if t.len() > 0 {
        lemma_count_uniform(t.drop_last(), c);
    }
}

/// A character occurs at most as often as the text is long.
proof fn lemma_count_le(t: Seq<char>, c: char)
    ensures
        char_count(t, c) <= t.len(),
    decreases t.len(),
{
    if t.len() > 0 {
        lemma_count_le(t.drop_last(), c);
    }
}

/// The characters of the parts stay in their halves of the alphabet range.
proof fn lemma_parts_within(t: Seq<char>, a: Seq<char>, l: int, r: int, mid: int)
    requires
        sorted_chars(a),
        0 <= l <= mid < r < a.len(),
        within(t, a, l, r),
    ensures
        within(low_part(t, a[mid]), a, l, mid),
        within(high_part(t, a[mid]), a, mid + 1, r),
    decreases t.len(),
{
    if t.len() > 0 {
        let s = t.drop_last();
        assert forall|i: int| 0 <= i < s.len() implies a[l] <= #[trigger] s[i] && s[i] <= a[r] && a.contains(
            s[i],
        ) by {
            assert(s[i] == t[i]);
        }
        lemma_parts_within(s, a, l, r, mid);
        let c = t.last();
        assert(a[l] <= t[t.len() - 1] && a.contains(t[t.len() - 1]));
        if c > a[mid] {
            let j = choose|j: int| 0 <= j < a.len() && a[j] == c;
            if j <= mid {
                if j < mid {
                    assert(a[j] < a[mid]);
                }
                assert(false);
            }
            if j > mid + 1 {
                assert(a[mid + 1] < a[j]);
            }
        }
    }
}

/// The occurrences of `c` before `i` and at `i`.
proof fn lemma_count_step(t: Seq<char>, c: char, i: int)
    requires
        0 <= i < t.len(),
    ensures
        char_count(t.take(i + 1), c) == char_count(t.take(i), c) + if t[i] == c { 1nat } else { 0nat },
{
    lemma_take_step(t, i);
}

/// Each character is one more occurrence of itself, and `select` of that count gives the
/// position right after it.
pub proof fn law_wavelet_identity(t: Seq<char>, i: int, p: int)
    requires
        0 <= i < t.len(),
        is_char_select(t, t[i], char_count(t.take(i + 1), t[i]) as int, p),
    ensures
        char_count(t.take(i + 1), t[i]) == char_count(t.take(i), t[i]) + 1,
        p == i + 1,
{
    let c = t[i];
    lemma_count_step(t, c, i);
    let r = char_count(t.take(i + 1), c);
    if p < i + 1 {
        lemma_count_mono(t, c, p, i);
        lemma_count_step(t, c, p - 1);
        assert(false);
    } else if p > i + 1 {
        lemma_count_mono(t, c, i + 1, p - 1);
        lemma_count_step(t, c, p - 1);
        assert(false);
    }
}

/// Counts never decrease along the text.
proof fn lemma_count_mono(t: Seq<char>, c: char, i: int, j: int)
    requires
        0 <= i <= j <= t.len(),
    ensures
        char_count(t.take(i), c) <= char_count(t.take(j), c),
    decreases j - i,
{
    if i < j {
        lemma_count_mono(t, c, i, j - 1);
        lemma_count_step(t, c, j - 1);
    }
}

/// A node of a wavelet tree: a leaf counts the characters that reach it; an internal
/// node keeps one bit per arriving character, one when it goes right.
#[derive(Debug, PartialEq, Eq)]
pub enum WaveletTreeNode<T> {
    Internal { left: Box<WaveletTreeNode<T>>, right: Box<WaveletTreeNode<T>>, bit_vec: T },
    Leaf { len: usize },
}

impl<T: BitModel> WaveletTreeNode<T> {
    /// The node stands for the text `t` over the alphabet range `a[l..=r]`.
    pub open spec fn node_ok(&self, t: Seq<char>, a: Seq<char>, l: int, r: int) -> bool
        decreases self,
    {
        &&& 0 <= l <= r < a.len()
        &&& within(t, a, l, r)
        &&& match self {
            WaveletTreeNode::Leaf { len } => l == r && *len == t.len(),
            WaveletTreeNode::Internal { left, right, bit_vec } => {
                let mid = l + (r - l) / 2;
                &&& l < r
                &&& bit_vec.inv()
                &&& bit_vec.bits() == split_bits(t, a[mid])
                &&& left.node_ok(low_part(t, a[mid]), a, l, mid)
                &&& right.node_ok(high_part(t, a[mid]), a, mid + 1, r)
            },
        }
    }
}

/// A text, stored as a wavelet tree whose internal nodes use the bit structure `T`.
pub struct WaveletTree<T> {
    alphabet: Vec<char>,
    root: WaveletTreeNode<T>,
    len: usize,
    text: Ghost<Seq<char>>,
}

impl<T: BitModel> View for WaveletTree<T> {
    type V = Seq<char>;

    closed spec fn view(&self) -> Seq<char> {
        self.text@
    }
}

/// Sorted distinct characters of `text`.
fn alphabet_of(text: &Vec<char>) -> (r: Vec<char>)
    ensures
        sorted_chars(r@),
        forall|i: int| 0 <= i < text@.len() ==> r@.contains(#[trigger] text@[i]),
        forall|j: int| 0 <= j < r@.len() ==> text@.contains(#[trigger] r@[j]),
        r@.len() <= text@.len(),
{
    let mut a: Vec<char> = Vec::new();
    let mut i: usize = 0;
    while i < text.len()
        invariant
            i <= text@.len(),
            sorted_chars(a@),
            forall|x: int| 0 <= x < i ==> a@.contains(#[trigger] text@[x]),
            forall|j: int| 0 <= j < a@.len() ==> text@.take(i as int).contains(#[trigger] a@[j]),
            a@.len() <= i,
        decreases text@.len() - i,
    {
        let c = text[i];
        let mut p: usize = 0;
        while p < a.len() && a[p] < c
            invariant
                p <= a@.len(),
                forall|x: int| 0 <= x < p ==> a@[x] < c,
            decreases a@.len() - p,
        {
            p = p + 1;
        }
        let ghost old_a = a@;
        proof {
            assert forall|j: int| 0 <= j < a@.len() implies text@.take(i + 1).contains(#[trigger] a@[j]) by {
                let w = choose|w: int| 0 <= w < i && text@.take(i as int)[w] == a@[j];
                assert(text@.take(i + 1)[w] == a@[j]);
            }
        }
        if p < a.len() && a[p] == c {
            proof {
                assert(text@.take(i + 1)[i as int] == c);
                assert forall|x: int| 0 <= x < i + 1 implies a@.contains(#[trigger] text@[x]) by {
                    if x == i {
                        assert(a@[p as int] == c);
                    }
                }
            }
        } else {
            a.insert(p, c);
            proof {
                assert(a@ == old_a.insert(p as int, c));
                assert forall|x: int, y: int| 0 <= x < y < a@.len() implies a@[x] < a@[y] by {
                    if p < old_a.len() {
                        assert(c < old_a[p as int]);
                    }
                }
                assert forall|x: int| 0 <= x < i + 1 implies a@.contains(#[trigger] text@[x]) by {
                    if x == i {
                        assert(a@[p as int] == c);
                    } else {
                        let w = choose|w: int| 0 <= w < old_a.len() && old_a[w] == text@[x];
                        if w < p {
                            assert(a@[w] == text@[x]);
                        } else {
                            assert(a@[w + 1] == text@[x]);
                        }
                    }
                }
                assert forall|j: int| 0 <= j < a@.len() implies text@.take(i + 1).contains(#[trigger] a@[j]) by {
                    if j == p {
                        assert(text@.take(i + 1)[i as int] == c);
                    } else if j < p {
                        assert(a@[j] == old_a[j]);
                        let w = choose|w: int| 0 <= w < i && text@.take(i as int)[w] == old_a[j];
                        assert(text@.take(i + 1)[w] == a@[j]);
                    } else {
                        assert(a@[j] == old_a[j - 1]);
                        let w = choose|w: int| 0 <= w < i && text@.take(i as int)[w] == old_a[j - 1];
                        assert(text@.take(i + 1)[w] == a@[j]);
                    }
                }
            }
        }
        i = i + 1;
    }
    proof {
        assert(text@.take(i as int) =~= text@);
    }
    a
}

/// Builds the node for `text` over the alphabet range `alphabet[l..=r]`.
fn build_tree<T: BitModel, B: BitBuilder<T>>(
    text: Vec<char>,
    alphabet: &Vec<char>,
    l: usize,
    r: usize,
    spec: &B,
) -> (node: WaveletTreeNode<T>)
    requires
        sorted_chars(alphabet@),
        l <= r < alphabet@.len(),
        within(text@, alphabet@, l as int, r as int),
        text@.len() <= usize::MAX / 128,
        spec.ready(),
    ensures
        node.node_ok(text@, alphabet@, l as int, r as int),
    decreases r - l,
{
    if l == r {
        return WaveletTreeNode::Leaf { len: text.len() };
    }
    let mid = l + (r - l) / 2;
    let m = alphabet[mid];
    let mut bits = BitVec::new();
    let mut low: Vec<char> = Vec::new();
    let mut high: Vec<char> = Vec::new();
    let mut i: usize = 0;
    proof {
        assert(text@.take(0) =~= Seq::<char>::empty());
        assert(split_bits(text@, m).take(0) =~= Seq::<bool>::empty());
    }
    while i < text.len()
        invariant
            i <= text@.len(),
            text@.len() <= usize::MAX / 128,
            bits.wf(),
            bits@ =~= split_bits(text@, m).take(i as int),
            low@ == low_part(text@.take(i as int), m),
            high@ == high_part(text@.take(i as int), m),
        decreases text@.len() - i,
    {
        let c = text[i];
        proof {
            lemma_take_step(text@, i as int);
        }
        bits.push(c > m);
        if c > m {
            high.push(c);
        } else {
            low.push(c);
        }
        i = i + 1;
    }
    proof {
        assert(text@.take(i as int) =~= text@);
        assert(split_bits(text@, m).take(i as int) =~= split_bits(text@, m));
        assert(bits@ == split_bits(text@, m));
        lemma_parts_within(text@, alphabet@, l as int, r as int, mid as int);
        lemma_parts_len(text@, m, text@.len() as int);
        lemma_rank_le(split_bits(text@, m), text@.len() as int);
    }
    let left = build_tree(low, alphabet, l, mid, spec);
    let right = build_tree(high, alphabet, mid + 1, r, spec);
    let bit_vec = spec.build_bits(bits);
    let node = WaveletTreeNode::Internal { left: Box::new(left), right: Box::new(right), bit_vec };
    proof {
        assert(mid == l + (r - l) / 2);
        assert(node.node_ok(text@, alphabet@, l as int, r as int));
    }
    node
}

impl<T: BitModel> WaveletTree<T> {
    pub closed spec fn wf(&self) -> bool {
        &&& sorted_chars(self.alphabet@)
        &&& self.alphabet@.len() >= 1
        &&& self.len == self.text@.len()
        &&& self.root.node_ok(self.text@, self.alphabet@, 0, self.alphabet@.len() - 1)
        &&& forall|j: int| 0 <= j < self.alphabet@.len() ==> self.text@.contains(#[trigger] self.alphabet@[j])
    }

    /// The sorted distinct characters of the text.
    pub closed spec fn alphabet_spec(&self) -> Seq<char> {
        self.alphabet@
    }

    /// Builds the tree of a non-empty text, each internal node with a bit structure that
    /// `spec` builds.
    pub fn new<B: BitBuilder<T>>(data: &str, spec: &B) -> (r: Self)
        requires
            data@.len() >= 1,
            data@.len() <= usize::MAX / 128,
            spec.ready(),
        ensures
            r.wf(),
            r@ == data@,
            r.alphabet_spec().len() >= 1,
            sorted_chars(r.alphabet_spec()),
            forall|c: char| r.alphabet_spec().contains(c) <==> data@.contains(c),
            r.root_spec().node_ok(data@, r.alphabet_spec(), 0, r.alphabet_spec().len() - 1),
    {
        let text = chars_of(data);
        let alphabet = alphabet_of(&text);
        let len = text.len();
        proof {
            assert(text@.contains(text@[0]));
            assert(alphabet@.len() >= 1);
            let last = alphabet@.len() - 1;
            assert forall|i: int| 0 <= i < text@.len() implies alphabet@[0] <= #[trigger] text@[i]
                && text@[i] <= alphabet@[last] && alphabet@.contains(text@[i]) by {
                let j = choose|j: int| 0 <= j < alphabet@.len() && alphabet@[j] == text@[i];
                if j > 0 {
                    assert(alphabet@[0] < alphabet@[j]);
                }
                if j < last {
                    assert(alphabet@[j] < alphabet@[last]);
                }
            }
        }
        let ghost t = text@;
        let root = build_tree(text, &alphabet, 0, alphabet.len() - 1, spec);
        let r = WaveletTree { alphabet, root, len, text: Ghost(t) };
        proof {
            r.lemma_alphabet();
        }
        r
    }

    /// Whether `c` occurs in the text.
    pub fn contains(&self, c: &char) -> (r: bool)
        requires
            self.wf(),
        ensures
            r == self@.contains(*c),
    {
        let mut i: usize = 0;
        while i < self.alphabet.len()
            invariant
                self.wf(),
                i <= self.alphabet@.len(),
                forall|j: int| 0 <= j < i ==> self.alphabet@[j] != *c,
            decreases self.alphabet@.len() - i,
        {
            if self.alphabet[i] == *c {
                proof {
                    assert(self.text@.contains(self.alphabet@[i as int]));
                }
                return true;
            }
            i = i + 1;
        }
        proof {
            if self@.contains(*c) {
                let x = choose|x: int| 0 <= x < self.text@.len() && self.text@[x] == *c;
                assert(within(self.text@, self.alphabet@, 0, self.alphabet@.len() - 1));
                assert(self.alphabet@.contains(self.text@[x]));
            }
        }
        false
    }

    pub fn len(&self) -> (r: usize)
        requires
            self.wf(),
        ensures
            r == self@.len(),
    {
        self.len
    }

    pub fn is_empty(&self) -> (r: bool)
        requires
            self.wf(),
        ensures
            r == (self@.len() == 0),
    {
        self.len == 0
    }

    /// The sorted distinct characters of the text.
    pub fn alphabet(&self) -> (r: &[char])
        ensures
            r@ == self.alphabet_spec(),
    {
        self.alphabet.as_slice()
    }

    /// The root node.
    pub closed spec fn root_spec(&self) -> WaveletTreeNode<T> {
        self.root
    }

    /// The root node, which stands for the whole text over the whole alphabet.
    pub fn root(&self) -> (r: &WaveletTreeNode<T>)
        ensures
            *r == self.root_spec(),
            self.wf() ==> r.node_ok(self@, self.alphabet_spec(), 0, self.alphabet_spec().len() - 1),
    {
        &self.root
    }
}

impl<T: BitModel + Access + Rank> WaveletTree<T> {
    /// The character at `index`; absent past the end.
    pub fn access(&self, index: usize) -> (r: Option<char>)
        requires
            self.wf(),
        ensures
            r == if index < self@.len() { Some(self@[index as int]) } else { None::<char> },
    {
        if index >= self.len {
            return None;
        }
        let ghost a = self.alphabet@;
        let mut node = &self.root;
        let mut idx = index;
        let mut l: usize = 0;
        let mut r: usize = self.alphabet.len() - 1;
        let ghost mut t = self.text@;
        loop
            invariant
                self.wf(),
                a == self.alphabet@,
                sorted_chars(a),
                node.node_ok(t, a, l as int, r as int),
                idx < t.len(),
                index < self.text@.len(),
                t[idx as int] == self.text@[index as int],
            decreases r - l,
        {
            match node {
                WaveletTreeNode::Internal { left, right, bit_vec } => {
                    let mid = l + (r - l) / 2;
                    let ghost m = a[mid as int];
                    proof {
                        lemma_parts_index(t, m, idx as int);
                        lemma_rank_le(split_bits(t, m), idx as int);
                    }
                    let bit = match bit_vec.access(idx) {
                        Some(b) => b,
                        None => false,
                    };
                    if bit {
                        idx = match bit_vec.rank(idx) {
                            Some(x) => x,
                            None => 0,
                        };
                        node = right;
                        l = mid + 1;
                        proof {
                            t = high_part(t, m);
                        }
                    } else {
                        idx = match bit_vec.rank0(idx) {
                            Some(x) => x,
                            None => 0,
                        };
                        node = left;
                        r = mid;
                        proof {
                            t = low_part(t, m);
                        }
                    }
                },
                WaveletTreeNode::Leaf { .. } => {
                    let c = self.alphabet[l];
                    proof {
                        assert(l == r);
                        assert(a[l as int] <= t[idx as int] && t[idx as int] <= a[r as int]);
                        assert(t[idx as int] == c);
                        assert(self@ == self.text@);
                        assert(self@[index as int] == c);
                    }
                    return Some(c);
                },
            }
        }
    }

    /// Occurrences of `c` in `[0, index)`; absent past the end or when `c` does not occur.
    pub fn rank(&self, c: char, index: usize) -> (r: Option<usize>)
        requires
            self.wf(),
        ensures
            r == if index <= self@.len() && self@.contains(c) {
                Some(char_count(self@.take(index as int), c) as usize)
            } else {
                None::<usize>
            },
    {
        let ghost a = self.alphabet@;
        proof {
            self.lemma_contains(c);
        }
        if index > self.len {
            return None;
        }
        let mut node = &self.root;
        let mut idx = index;
        let mut l: usize = 0;
        let mut r: usize = self.alphabet.len() - 1;
        let ghost mut t = self.text@;
        proof {
            lemma_count_le(self.text@.take(index as int), c);
            if a.contains(c) {
                let j = choose|j: int| 0 <= j < a.len() && a[j] == c;
                if j > 0 {
                    assert(a[0] < a[j]);
                }
                if j < a.len() - 1 {
                    assert(a[j] < a[a.len() - 1]);
                }
            }
        }
        loop
            invariant
                self.wf(),
                a == self.alphabet@,
                sorted_chars(a),
                node.node_ok(t, a, l as int, r as int),
                idx <= t.len(),
                index <= self.text@.len(),
                char_count(t.take(idx as int), c) == char_count(self.text@.take(index as int), c),
                a.contains(c) ==> a[l as int] <= c && c <= a[r as int],
                a.contains(c) == self.text@.contains(c),
            decreases r - l,
        {
            match node {
                WaveletTreeNode::Internal { left, right, bit_vec } => {
                    let mid = l + (r - l) / 2;
                    let m = self.alphabet[mid];
                    let ghost tp = t.take(idx as int);
                    proof {
                        lemma_parts_len(t, m, idx as int);
                        lemma_parts_prefix(t, m, idx as int, t.len() as int);
                        assert(t.take(t.len() as int) =~= t);
                        lemma_parts_count(tp, m, c);
                        lemma_rank_le(split_bits(t, m), idx as int);
                        assert forall|x: int| 0 <= x < idx implies #[trigger] tp[x] == t[x] by {}
                        assert(low_part(tp, m) == low_part(t.take(idx as int), m));
                    }
                    if c <= m {
                        idx = match bit_vec.rank0(idx) {
                            Some(x) => x,
                            None => 0,
                        };
                        node = left;
                        r = mid;
                        proof {
                            t = low_part(t, m);
                        }
                    } else {
                        idx = match bit_vec.rank(idx) {
                            Some(x) => x,
                            None => 0,
                        };
                        node = right;
                        l = mid + 1;
                        proof {
                            if a.contains(c) {
                                let j = choose|j: int| 0 <= j < a.len() && a[j] == c;
                                if j <= mid {
                                    if j < mid {
                                        assert(a[j] < a[mid as int]);
                                    }
                                    assert(false);
                                }
                                if j > mid + 1 {
                                    assert(a[mid + 1] < a[j]);
                                }
                            }
                            t = high_part(t, m);
                        }
                    }
                },
                WaveletTreeNode::Leaf { .. } => {
                    if self.alphabet[l] != c {
                        return None;
                    }
                    proof {
                        assert forall|x: int| 0 <= x < t.take(idx as int).len() implies #[trigger] t.take(
                            idx as int,
                        )[x] == c by {
                            assert(a[l as int] <= t[x] && t[x] <= a[r as int]);
                        }
                        lemma_count_uniform(t.take(idx as int), c);
                    }
                    return Some(idx);
                },
            }
        }
    }
}

impl<T: BitModel> WaveletTree<T> {
    /// The alphabet is strictly increasing and holds exactly the characters of the text, and
    /// the root stands for the text over the whole alphabet.
    pub proof fn lemma_alphabet(&self)
        requires
            self.wf(),
        ensures
            self.alphabet_spec().len() >= 1,
            sorted_chars(self.alphabet_spec()),
            forall|c: char| self.alphabet_spec().contains(c) <==> self@.contains(c),
            self.root_spec().node_ok(self@, self.alphabet_spec(), 0, self.alphabet_spec().len() - 1),
    {
        assert forall|c: char| self.alphabet_spec().contains(c) <==> self@.contains(c) by {
            self.lemma_contains(c);
        }
    }

    /// A character occurs in the text exactly when it is in the alphabet.
    proof fn lemma_contains(&self, c: char)
        requires
            self.wf(),
        ensures
            self.alphabet@.contains(c) == self.text@.contains(c),
    {
        if self.alphabet@.contains(c) {
            let j = choose|j: int| 0 <= j < self.alphabet@.len() && self.alphabet@[j] == c;
            assert(self.text@.contains(self.alphabet@[j]));
        }
        if self.text@.contains(c) {
            let x = choose|x: int| 0 <= x < self.text@.len() && self.text@[x] == c;
            assert(within(self.text@, self.alphabet@, 0, self.alphabet@.len() - 1));
            assert(self.alphabet@.contains(self.text@[x]));
        }
    }
}

/// `c` is one of `a[l..=r]`.
pub open spec fn in_range(a: Seq<char>, l: int, r: int, c: char) -> bool {
    a.contains(c) && a[l] <= c && c <= a[r]
}

impl<T: BitModel + Select> WaveletTree<T> {
    /// Position after the `rank`-th `c` in the text `t` of `node`.
    fn select_inner(
        &self,
        node: &WaveletTreeNode<T>,
        c: char,
        l: usize,
        r: usize,
        rank: usize,
        Ghost(t): Ghost<Seq<char>>,
    ) -> (res: Option<usize>)
        requires
            self.wf(),
            node.node_ok(t, self.alphabet@, l as int, r as int),
        ensures
            res.is_some() <==> (in_range(self.alphabet@, l as int, r as int, c) && rank <= char_count(t, c)),
            res.is_some() ==> is_char_select(t, c, rank as int, res.unwrap() as int),
        decreases r - l,
    {
        let ghost a = self.alphabet@;
        match node {
            WaveletTreeNode::Leaf { len } => {
                proof {
                    assert(l == r);
                }
                if self.alphabet[l] != c {
                    return None;
                }
                proof {
                    assert forall|x: int| 0 <= x < t.len() implies #[trigger] t[x] == c by {
                        assert(a[l as int] <= t[x] && t[x] <= a[r as int]);
                    }
                    lemma_count_uniform(t, c);
                    assert(a.contains(a[l as int]));
                }
                if rank > *len {
                    return None;
                }
                proof {
                    assert forall|x: int| 0 <= x < t.take(rank as int).len() implies #[trigger] t.take(
                        rank as int,
                    )[x] == c by {}
                    lemma_count_uniform(t.take(rank as int), c);
                }
                Some(rank)
            },
            WaveletTreeNode::Internal { left, right, bit_vec } => {
                let mid = l + (r - l) / 2;
                let m = self.alphabet[mid];
                let ghost bits = split_bits(t, m);
                let ghost n = t.len() as int;
                proof {
                    assert(t.take(n) =~= t);
                    lemma_parts_len(t, m, n);
                    lemma_parts_count(t, m, c);
                    if a.contains(c) {
                        let j = choose|j: int| 0 <= j < a.len() && a[j] == c;
                        if c > m && j <= mid {
                            if j < mid {
                                assert(a[j] < a[mid as int]);
                            }
                            assert(false);
                        }
                        if c > m && j > mid + 1 {
                            assert(a[mid + 1] < a[j]);
                        }
                        if c <= m && j > mid {
                            assert(a[mid as int] < a[j]);
                        }
                        if c <= m && mid < r {
                            assert(a[mid as int] < a[r as int]);
                        }
                    }
                }
                if c <= m {
                    let ghost low = low_part(t, m);
                    let q = match self.select_inner(left, c, l, mid, rank, Ghost(low)) {
                        Some(q) => q,
                        None => {
                            return None;
                        },
                    };
                    proof {
                        lemma_count_le(low.take(q as int), c);
                    }
                    let res = bit_vec.select0(q);
                    proof {
                        let p = res.unwrap() as int;
                        lemma_parts_len(t, m, p);
                        lemma_parts_prefix(t, m, p, n);
                        lemma_parts_count(t.take(p), m, c);
                        if rank > 0 {
                            lemma_rank_step(bits, p - 1);
                            lemma_parts_index(t, m, p - 1);
                            assert(low_part(t.take(p), m) =~= low.take(q as int));
                        } else {
                            assert(low_part(t.take(p), m) =~= low.take(q as int));
                        }
                    }
                    res
                } else {
                    let ghost high = high_part(t, m);
                    let q = match self.select_inner(right, c, mid + 1, r, rank, Ghost(high)) {
                        Some(q) => q,
                        None => {
                            return None;
                        },
                    };
                    proof {
                        lemma_count_le(high.take(q as int), c);
                    }
                    let res = bit_vec.select(q);
                    proof {
                        let p = res.unwrap() as int;
                        lemma_parts_len(t, m, p);
                        lemma_parts_prefix(t, m, p, n);
                        lemma_parts_count(t.take(p), m, c);
                        if rank > 0 {
                            lemma_rank_step(bits, p - 1);
                            lemma_parts_index(t, m, p - 1);
                            assert(high_part(t.take(p), m) =~= high.take(q as int));
                        } else {
                            assert(high_part(t.take(p), m) =~= high.take(q as int));
                        }
                    }
                    res
                }
            },
        }
    }

    /// Position right after the `rank`-th occurrence of `c` (0 for `rank == 0`); absent when
    /// `c` does not occur or occurs fewer times.
    pub fn select(&self, c: char, rank: usize) -> (r: Option<usize>)
        requires
            self.wf(),
        ensures
            r.is_some() <==> (self@.contains(c) && rank <= char_count(self@, c)),
            r.is_some() ==> is_char_select(self@, c, rank as int, r.unwrap() as int),
    {
        proof {
            self.lemma_contains(c);
            let a = self.alphabet@;
            if a.contains(c) {
                let j = choose|j: int| 0 <= j < a.len() && a[j] == c;
                if j > 0 {
                    assert(a[0] < a[j]);
                }
                if j < a.len() - 1 {
                    assert(a[j] < a[a.len() - 1]);
                }
            }
        }
        self.select_inner(&self.root, c, 0, self.alphabet.len() - 1, rank, Ghost(self.text@))
    }
}

/// Parameters of a wavelet tree: the builder of the bit structure of its nodes.
pub struct WaveletTreeSpec<B> {
    bit_vec_spec: B,
}

impl<B> WaveletTreeSpec<B> {
    pub fn new(bit_vec_spec: B) -> (r: Self)
        ensures
            r.node_spec() == bit_vec_spec,
    {
        WaveletTreeSpec { bit_vec_spec }
    }

    /// The builder of the nodes' bit structures.
    pub closed spec fn node_spec(&self) -> B {
        self.bit_vec_spec
    }
}

impl<T: BitModel> WaveletTree<T> {
    /// The builder of wavelet trees whose nodes are built by `spec`.
    pub fn spec<B: BitBuilder<T>>(spec: B) -> (r: WaveletTreeSpec<B>)
        ensures
            r.node_spec() == spec,
    {
        WaveletTreeSpec::new(spec)
    }
}

impl<'a, T: BitModel, B: BitBuilder<T>> Build<&'a str, WaveletTree<T>> for WaveletTreeSpec<B> {
    open spec fn accepts(&self, data: &&'a str) -> bool {
        &&& self.node_spec().ready()
        &&& data@.len() >= 1
        &&& data@.len() <= usize::MAX / 128
    }

    open spec fn builds(&self, data: &&'a str, out: &WaveletTree<T>) -> bool {
        out.wf() && out@ == data@
    }

    fn build(&self, data: &'a str) -> (r: WaveletTree<T>) {
        WaveletTree::new(data, &self.bit_vec_spec)
    }
}

impl<T: BitModel> CharacterModel for WaveletTree<T> {
    closed spec fn chars(&self) -> Seq<char> {
        self@
    }

    closed spec fn char_inv(&self) -> bool {
        self.wf()
    }
}

impl<T: BitModel + Access + Rank> CharacterRank for WaveletTree<T> {
    fn rank(&self, c: char, index: usize) -> (r: Option<usize>) {
        WaveletTree::rank(self, c, index)
    }
}

impl<T: BitModel + Access + Rank> CharacterAccess for WaveletTree<T> {
    fn access(&self, index: usize) -> (r: Option<char>) {
        WaveletTree::access(self, index)
    }
}

impl<T: BitModel + Select> CharacterSelect for WaveletTree<T> {
    fn select(&self, c: char, index: usize) -> (r: Option<usize>) {
        WaveletTree::select(self, c, index)
    }
}

/// Heap space of a node: a word for a leaf's count; the bit structure and both children
/// for an internal node.
pub open spec fn node_heap_bits<T: HeapSize>(n: WaveletTreeNode<T>) -> nat
    decreases n,
{
    match n {
        WaveletTreeNode::Internal { left, right, bit_vec } => node_heap_bits(*left) + node_heap_bits(*right)
            + bit_vec.heap_bits(),
        WaveletTreeNode::Leaf { .. } => 64,
    }
}

impl<T: HeapSize> HeapSize for WaveletTreeNode<T> {
    open spec fn heap_bits(&self) -> nat {
        node_heap_bits(*self)
    }

    fn heap_size_in_bits(&self) -> (r: usize)
        decreases self,
    {
        match self {
            WaveletTreeNode::Internal { left, right, bit_vec } => {
                let a = left.heap_size_in_bits();
                let b = right.heap_size_in_bits();
                let c = bit_vec.heap_size_in_bits();
                proof {
                    crate::profiling::lemma_capped_add(node_heap_bits(**left), node_heap_bits(**right));
                    crate::profiling::lemma_capped_add(
                        node_heap_bits(**left) + node_heap_bits(**right),
                        bit_vec.heap_bits(),
                    );
                }
                let ab = crate::profiling::add_capped(a, b);
                crate::profiling::add_capped(ab, c)
            },
            WaveletTreeNode::Leaf { .. } => 64,
        }
    }
}

impl<T: HeapSize> WaveletTree<T> {
    /// The root node, as a value.
    pub closed spec fn root_node(&self) -> WaveletTreeNode<T> {
        self.root
    }

    /// The alphabet, as a value.
    pub closed spec fn alphabet_chars(&self) -> Seq<char> {
        self.alphabet@
    }
}

impl<T: HeapSize> HeapSize for WaveletTree<T> {
    /// 32 bits per alphabet character, then the nodes.
    open spec fn heap_bits(&self) -> nat {
        32 * self.alphabet_chars().len() + node_heap_bits(self.root_node())
    }

    fn heap_size_in_bits(&self) -> (r: usize) {
        let a = crate::profiling::mul_capped(self.alphabet.len(), 32);
        let nodes = self.root.heap_size_in_bits();
        proof {
            crate::profiling::lemma_capped_add(32 * self.alphabet@.len(), node_heap_bits(self.root));
        }
        crate::profiling::add_capped(a, nodes)
    }
}

impl<T: BitModel, B: BitBuilder<T>> Build<String, WaveletTree<T>> for WaveletTreeSpec<B> {
    open spec fn accepts(&self, data: &String) -> bool {
        &&& self.node_spec().ready()
        &&& data@.len() >= 1
        &&& data@.len() <= usize::MAX / 128
    }

    open spec fn builds(&self, data: &String, out: &WaveletTree<T>) -> bool {
        out.wf() && out@ == data@
    }

    fn build(&self, data: String) -> (r: WaveletTree<T>) {
        WaveletTree::new(data.as_str(), &self.bit_vec_spec)
    }
}

impl<'a, T: BitModel, B: BitBuilder<T>> Build<&'a String, WaveletTree<T>> for WaveletTreeSpec<B> {
    open spec fn accepts(&self, data: &&'a String) -> bool {
        &&& self.node_spec().ready()
        &&& data@.len() >= 1
        &&& data@.len() <= usize::MAX / 128
    }

    open spec fn builds(&self, data: &&'a String, out: &WaveletTree<T>) -> bool {
        out.wf() && out@ == data@
    }

    fn build(&self, data: &'a String) -> (r: WaveletTree<T>) {
        WaveletTree::new(data.as_str(), &self.bit_vec_spec)
    }
}

} // verus!
