use vstd::prelude::*;
use vstd::string::StringSliceAdditionalSpecFns;
use crate::text::{chars_of, string_of};

verus! {

/// A node of a Huffman tree: a leaf holds a byte value, an inner node two subtrees.
/// `frequency` is how often the leaf's byte occurs, or the sum of the subtrees'.
#[derive(PartialEq, Eq, Debug)]
pub struct HuffmanNode {
    pub frequency: usize,
    pub value: Option<u8>,
    pub left: Option<Box<HuffmanNode>>,
    pub right: Option<Box<HuffmanNode>>,
}

/// How many times `b` occurs in `s`.
pub open spec fn occurrences(s: Seq<u8>, b: u8) -> nat
    decreases s.len(),
{
    if s.len() == 0 {
        0
    } else {
        occurrences(s.drop_last(), b) + if s.last() == b { 1nat } else { 0nat }
    }
}

/// The sum of the first `k` weights.
pub open spec fn weight_sum(w: Seq<usize>, k: int) -> nat
    decreases k,
{
    if k <= 0 {
        0
    } else {
        weight_sum(w, k - 1) + w[k - 1] as nat
    }
}

proof fn lemma_weight_sum_bump(w: Seq<usize>, b: int, k: int)
    requires
        0 <= b < w.len(),
        0 <= k <= w.len(),
        w[b] < usize::MAX,
    ensures
        weight_sum(w.update(b, (w[b] + 1) as usize), k) == weight_sum(w, k) + if b < k { 1nat } else { 0nat },
    decreases k,
{
    if k > 0 {
        lemma_weight_sum_bump(w, b, k - 1);
    }
}

proof fn lemma_weight_sum_zero(w: Seq<usize>, k: int)
    requires
        0 <= k <= w.len(),
        forall|u: int| 0 <= u < k ==> w[u] == 0,
    ensures
        weight_sum(w, k) == 0,
    decreases k,
{
    if k > 0 {
        lemma_weight_sum_zero(w, k - 1);
    }
}

proof fn lemma_values_nonempty(t: HuffmanNode)
    requires
        t.wf(),
    ensures
        exists|b: u8| t.values().contains(b),
    decreases t,
{
    match t.value {
        Some(v) => {
            assert(t.values().contains(v));
        },
        None => {
            let l = t.left.unwrap();
            lemma_values_nonempty(*l);
            let b = choose|b: u8| l.values().contains(b);
            assert(t.values().contains(b));
        },
    }
}

proof fn lemma_occurrences_bound(s: Seq<u8>, b: u8)
    ensures
        occurrences(s, b) <= s.len(),
    decreases s.len(),
{
    if s.len() > 0 {
        lemma_occurrences_bound(s.drop_last(), b);
    }
}

proof fn lemma_occurs_last(s: Seq<u8>)
    requires
        s.len() > 0,
    ensures
        occurrences(s, s.last()) > 0,
{
}

/// The frequencies of a queue of nodes, added up.
pub open spec fn freq_sum(q: Seq<HuffmanNode>) -> nat
    decreases q.len(),
{
    if q.len() == 0 {
        0
    } else {
        freq_sum(q.drop_last()) + q.last().freq()
    }
}

/// The leaf values of a queue of nodes.
pub open spec fn queue_values(q: Seq<HuffmanNode>) -> Set<u8>
    decreases q.len(),
{
    if q.len() == 0 {
        Set::empty()
    } else {
        queue_values(q.drop_last()) + q.last().values()
    }
}

proof fn lemma_queue_remove(q: Seq<HuffmanNode>, i: int)
    requires
        0 <= i < q.len(),
    ensures
        freq_sum(q) == freq_sum(q.remove(i)) + q[i].freq(),
        queue_values(q) == queue_values(q.remove(i)) + q[i].values(),
    decreases q.len(),
{
    if i == q.len() - 1 {
        assert(q.remove(i) =~= q.drop_last());
    } else {
        lemma_queue_remove(q.drop_last(), i);
        assert(q.remove(i).drop_last() =~= q.drop_last().remove(i));
        assert(q.remove(i).last() == q.last());
    }
    assert(queue_values(q) =~= queue_values(q.remove(i)) + q[i].values());
}

proof fn lemma_queue_push(q: Seq<HuffmanNode>, n: HuffmanNode)
    ensures
        freq_sum(q.push(n)) == freq_sum(q) + n.freq(),
        queue_values(q.push(n)) == queue_values(q) + n.values(),
{
    assert(q.push(n).drop_last() =~= q);
}

/// Whether `a` leaves a Huffman queue before `b`: lower frequency first, then the
/// higher value, an inner node (no value) last.
pub open spec fn leaves_before(a: (nat, Option<u8>), b: (nat, Option<u8>)) -> bool {
    a.0 < b.0 || (a.0 == b.0 && match (a.1, b.1) {
        (Some(x), Some(y)) => x > y,
        (Some(_), None) => true,
        _ => false,
    })
}

impl HuffmanNode {
    /// How many levels the tree under this node has, the node included.
    pub open spec fn height(&self) -> nat
        decreases self,
    {
        let l = match self.left {
            Some(l) => l.height(),
            None => 0,
        };
        let r = match self.right {
            Some(r) => r.height(),
            None => 0,
        };
        1 + if l > r { l } else { r }
    }

    pub open spec fn freq(&self) -> nat {
        self.frequency as nat
    }

    pub open spec fn symbol(&self) -> Option<u8> {
        self.value
    }

    /// Leaves carry a value and no subtrees; inner nodes carry no value, both
    /// subtrees, and the sum of their frequencies.
    pub open spec fn wf(&self) -> bool
        decreases self,
    {
        match (self.left, self.right) {
            (None, None) => self.value is Some,
            (Some(l), Some(r)) => self.value is None && l.wf() && r.wf() && self.frequency == l.frequency
                + r.frequency,
            _ => false,
        }
    }

    /// The byte values at the leaves.
    pub open spec fn values(&self) -> Set<u8>
        decreases self,
    {
        let here = match self.value {
            Some(v) => set![v],
            None => Set::empty(),
        };
        let l = match self.left {
            Some(l) => l.values(),
            None => Set::empty(),
        };
        let r = match self.right {
            Some(r) => r.values(),
            None => Set::empty(),
        };
        here + l + r
    }

    /// Whether the leaf for `b`, if any, carries the count of `b` in `s`.
    pub open spec fn counts_match(&self, s: Seq<u8>) -> bool
        decreases self,
    {
        &&& (self.value matches Some(v) ==> self.frequency == occurrences(s, v))
        &&& (self.left matches Some(l) ==> l.counts_match(s))
        &&& (self.right matches Some(r) ==> r.counts_match(s))
    }

    /// A leaf for `value`, seen `frequency` times.
    pub fn leaf(value: u8, frequency: usize) -> (r: HuffmanNode)
        ensures
            r.wf(),
            r.freq() == frequency,
            r.symbol() == Some(value),
            r.values() == set![value],
            r.height() == 1,
    {
        let r = HuffmanNode { value: Some(value), frequency, left: None, right: None };
        assert(r.values() =~= set![value]);
        r
    }

    /// An inner node over `left` and `right`.
    pub fn node(frequency: usize, right: HuffmanNode, left: HuffmanNode) -> (r: HuffmanNode)
        ensures
            r.freq() == frequency,
            r.symbol() is None,
            r.values() == left.values() + right.values(),
            forall|s: Seq<u8>| left.counts_match(s) && right.counts_match(s) ==> #[trigger] r.counts_match(s),
            r.height() == 1 + if left.height() > right.height() { left.height() } else { right.height() },
            (left.wf() && right.wf() && frequency == left.freq() + right.freq()) ==> r.wf(),
    {
        let r = HuffmanNode { frequency, value: None, left: Some(Box::new(left)), right: Some(Box::new(right)) };
        assert(r.values() =~= left.values() + right.values());
        r
    }

    fn key(&self) -> (r: (usize, Option<u8>))
        ensures
            r.0 == self.freq(),
            r.1 == self.symbol(),
    {
        (self.frequency, self.value)
    }

    /// The Huffman tree of the bytes of `data`: one leaf per distinct byte carrying
    /// its count, the two nodes that leave the queue first (see `leaves_before`)
    /// merged until one is left. `None` for empty input.
    pub fn tree(data: &str) -> (r: Option<Box<HuffmanNode>>)
        ensures
            r is None <==> data.spec_bytes().len() == 0,
            r matches Some(t) ==> {
                &&& t.wf()
                &&& t.freq() == data.spec_bytes().len()
                &&& t.counts_match(data.spec_bytes())
                &&& t.values() == Set::new(|b: u8| occurrences(data.spec_bytes(), b) > 0)
                &&& t.height() <= t.freq()
            },
    {
        let bytes = data.as_bytes();
        let ghost s = data.spec_bytes();
        let n = bytes.len();
        let mut weights: Vec<usize> = Vec::new();
        let mut v: usize = 0;
        while v < 256
            invariant
                v <= 256,
                weights@.len() == v,
                forall|u: int| 0 <= u < v ==> weights@[u] == 0,
            decreases 256 - v,
        {
            weights.push(0);
            v += 1;
        }
        proof {
            lemma_weight_sum_zero(weights@, 256);
            assert forall|u: int| 0 <= u < 256 implies (#[trigger] weights@[u]) == occurrences(s.subrange(0, 0), u as u8) by {}
        }
        let mut i: usize = 0;
        while i < n
            invariant
                bytes@ == s,
                n == s.len(),
                i <= n,
                weights@.len() == 256,
                forall|u: int| 0 <= u < 256 ==> (#[trigger] weights@[u]) == occurrences(s.subrange(0, i as int), u as u8),
                weight_sum(weights@, 256) == i,
            decreases n - i,
        {
            let b = bytes[i];
            proof {
                let p = s.subrange(0, i + 1);
                assert(p.drop_last() =~= s.subrange(0, i as int));
                lemma_occurrences_bound(s.subrange(0, i as int), b);
                assert(weights@[b as int] == occurrences(s.subrange(0, i as int), (b as int) as u8));
                lemma_weight_sum_bump(weights@, b as int, 256);
            }
            let w = weights[b as usize];
            weights.set(b as usize, w + 1);
            i += 1;
            proof {
                assert forall|u: int| 0 <= u < 256 implies (#[trigger] weights@[u]) == occurrences(s.subrange(0, i as int), u as u8) by {
                    let p = s.subrange(0, i as int);
                    assert(p.drop_last() =~= s.subrange(0, i - 1));
                    assert(p.last() == b);
                }
            }
        }
        assert(s.subrange(0, n as int) =~= s);
        let mut queue: Vec<HuffmanNode> = Vec::new();
        let mut v: usize = 0;
        while v < 256
            invariant
                n == s.len(),
                weights@.len() == 256,
                forall|u: int| 0 <= u < 256 ==> (#[trigger] weights@[u]) == occurrences(s, u as u8),
                weight_sum(weights@, 256) == n,
                v <= 256,
                freq_sum(queue@) == weight_sum(weights@, v as int),
                queue_values(queue@) == Set::new(|b: u8| b < v && occurrences(s, b) > 0),
                forall|k: int| 0 <= k < queue@.len() ==> (#[trigger] queue@[k]).wf() && queue@[k].counts_match(s),
                forall|k: int| 0 <= k < queue@.len() ==> 1 <= (#[trigger] queue@[k]).height() <= queue@[k].freq(),
            decreases 256 - v,
        {
            if weights[v] > 0 {
                let leaf = HuffmanNode::leaf(v as u8, weights[v]);
                proof {
                    lemma_queue_push(queue@, leaf);
                }
                queue.push(leaf);
            }
            proof {
                assert(queue_values(queue@) =~= Set::new(|b: u8| b < v + 1 && occurrences(s, b) > 0));
            }
            v += 1;
        }
        assert(Set::new(|b: u8| b < 256 && occurrences(s, b) > 0) =~= Set::new(|b: u8| occurrences(s, b) > 0));
        while queue.len() > 1
            invariant
                n == s.len(),
                freq_sum(queue@) == n,
                queue_values(queue@) == Set::new(|b: u8| occurrences(s, b) > 0),
                forall|k: int| 0 <= k < queue@.len() ==> (#[trigger] queue@[k]).wf() && queue@[k].counts_match(s),
                forall|k: int| 0 <= k < queue@.len() ==> 1 <= (#[trigger] queue@[k]).height() <= queue@[k].freq(),
            decreases queue@.len(),
        {
            let ghost q0 = queue@;
            let left = pop_first(&mut queue);
            let ghost q1 = queue@;
            let right = pop_first(&mut queue);
            proof {
                let i = choose|i: int| 0 <= i < q0.len() && left == q0[i] && q1 == q0.remove(i);
                lemma_queue_remove(q0, i);
                let j = choose|j: int| 0 <= j < q1.len() && right == q1[j] && queue@ == q1.remove(j);
                lemma_queue_remove(q1, j);
                assert(left.wf() && left.counts_match(s) && 1 <= left.height() <= left.freq()) by {
                    assert(q0[i] == left);
                }
                assert(right.wf() && right.counts_match(s) && 1 <= right.height() <= right.freq()) by {
                    assert(q1[j] == right);
                    assert(q1[j] == q0[if j < i { j } else { j + 1 }]);
                }
                assert forall|k: int| 0 <= k < queue@.len() implies (#[trigger] queue@[k]).wf() && queue@[k].counts_match(s)
                    && 1 <= queue@[k].height() <= queue@[k].freq() by {
                    let k1 = if k < j { k } else { k + 1 };
                    let k0 = if k1 < i { k1 } else { k1 + 1 };
                    assert(queue@[k] == q1[k1]);
                    assert(q1[k1] == q0[k0]);
                }
            }
            let merged = HuffmanNode::node(left.frequency + right.frequency, right, left);
            proof {
                lemma_queue_push(queue@, merged);
            }
            queue.push(merged);
            proof {
                assert forall|k: int| 0 <= k < queue@.len() implies (#[trigger] queue@[k]).wf() && queue@[k].counts_match(s)
                    && 1 <= queue@[k].height() <= queue@[k].freq() by {
                    if k == queue@.len() - 1 {
                        assert(queue@[k] == merged);
                    }
                }
            }
        }
        if queue.len() == 0 {
            proof {
                assert(queue_values(queue@) =~= Set::empty());
                if n > 0 {
                    lemma_occurs_last(s);
                    assert(Set::new(|b: u8| occurrences(s, b) > 0).contains(s.last()));
                }
            }
            None
        } else {
            let ghost q = queue@;
            let root = queue.pop().unwrap();
            proof {
                assert(q.drop_last() =~= Seq::<HuffmanNode>::empty());
                assert(root == q.last());
                assert(q[0].wf() && q[0].counts_match(s));
                assert(queue_values(q.drop_last()) =~= Set::empty());
                assert(queue_values(q) =~= root.values());
                assert(freq_sum(q.drop_last()) == 0);
                assert(root.freq() == n);
                assert(root.values() == Set::new(|b: u8| occurrences(s, b) > 0));
                assert(root.counts_match(s));
                assert(root.height() <= root.freq());
                if n == 0 {
                    lemma_values_nonempty(root);
                    let b = root.values().choose();
                    assert(occurrences(s, b) > 0);
                    lemma_occurrences_bound(s, b);
                }
            }
            Some(Box::new(root))
        }
    }
}

/// Takes out the node that leaves the queue first; among equals, the earliest.
fn pop_first(queue: &mut Vec<HuffmanNode>) -> (r: HuffmanNode)
    requires
        old(queue)@.len() > 0,
    ensures
        exists|i: int| 0 <= i < old(queue)@.len() && r == old(queue)@[i] && final(queue)@ == old(queue)@.remove(i),
        forall|j: int|
            0 <= j < old(queue)@.len() ==> !leaves_before(
                ((#[trigger] old(queue)@[j]).freq(), old(queue)@[j].symbol()),
                (r.freq(), r.symbol()),
            ),
{
    let mut best: usize = 0;
    let mut k: usize = 1;
    while k < queue.len()
        invariant
            queue@ == old(queue)@,
            queue@.len() > 0,
            best < queue@.len(),
            1 <= k <= queue@.len(),
            forall|j: int|
                0 <= j < k ==> !leaves_before(
                    ((#[trigger] queue@[j]).freq(), queue@[j].symbol()),
                    (queue@[best as int].freq(), queue@[best as int].symbol()),
                ),
        decreases queue@.len() - k,
    {
        let a = queue[k].key();
        let b = queue[best].key();
        let earlier = a.0 < b.0 || (a.0 == b.0 && match (a.1, b.1) {
            (Some(x), Some(y)) => x > y,
            (Some(_), None) => true,
            _ => false,
        });
        if earlier {
            best = k;
        }
        k += 1;
    }
    queue.remove(best)
}


/// A byte value with its frequency and its code: the low `length` bits of `bits`.
#[derive(Debug, Clone, Copy, PartialEq, Eq, Structural)]
pub struct HuffmanCode {
    pub value: u8,
    pub frequency: usize,
    pub length: usize,
    pub bits: u128,
}

/// How many levels a subtree has; nothing has none.
pub open spec fn depth(node: Option<Box<HuffmanNode>>) -> nat {
    match node {
        None => 0,
        Some(n) => n.height(),
    }
}

/// The codes of the leaves of `node` in pre-order, left before right: a step left
/// appends a 0 bit, a step right a 1 bit; `indent` is the depth of `node`.
pub open spec fn tree_codes(node: Option<Box<HuffmanNode>>, indent: usize, bits: u128) -> Seq<HuffmanCode>
    decreases node,
{
    match node {
        None => seq![],
        Some(n) => {
            let here = match n.value {
                Some(v) => seq![HuffmanCode { value: v, frequency: n.frequency, length: indent, bits }],
                None => seq![],
            };
            here + tree_codes(n.left, (indent + 1) as usize, bits << 1) + tree_codes(
                n.right,
                (indent + 1) as usize,
                (bits << 1) | 1,
            )
        },
    }
}

/// Some code in `codes` is for `b`.
pub open spec fn has_code(codes: Seq<HuffmanCode>, b: u8) -> bool {
    exists|k: int| 0 <= k < codes.len() && (#[trigger] codes[k]).value == b
}

proof fn lemma_tree_code_values(node: Option<Box<HuffmanNode>>, indent: usize, bits: u128, b: u8)
    requires
        node matches Some(n) && n.values().contains(b),
    ensures
        has_code(tree_codes(node, indent, bits), b),
    decreases node,
{
    let n = node.unwrap();
    let here = match n.value {
        Some(v) => seq![HuffmanCode { value: v, frequency: n.frequency, length: indent, bits }],
        None => seq![],
    };
    let l = tree_codes(n.left, (indent + 1) as usize, bits << 1);
    let r = tree_codes(n.right, (indent + 1) as usize, (bits << 1) | 1);
    let all = tree_codes(node, indent, bits);
    assert(all == here + l + r);
    if n.value == Some(b) {
        assert(all[0].value == b);
    } else if n.left matches Some(ln) && ln.values().contains(b) {
        lemma_tree_code_values(n.left, (indent + 1) as usize, bits << 1, b);
        let k = choose|k: int| 0 <= k < l.len() && (#[trigger] l[k]).value == b;
        assert(all[here.len() + k] == l[k]);
    } else {
        lemma_tree_code_values(n.right, (indent + 1) as usize, (bits << 1) | 1, b);
        let k = choose|k: int| 0 <= k < r.len() && (#[trigger] r[k]).value == b;
        assert(all[here.len() + l.len() + k] == r[k]);
    }
}

fn collect(output: &mut Vec<HuffmanCode>, node: &Option<Box<HuffmanNode>>, indent: usize, bits: u128)
    requires
        indent + depth(*node) <= usize::MAX,
    ensures
        final(output)@ == old(output)@ + tree_codes(*node, indent, bits),
    decreases *node,
{
    match node {
        None => {
            assert(old(output)@ + seq![] =~= old(output)@);
        },
        Some(n) => {
            let ghost o0 = output@;
            if let Some(value) = n.value {
                output.push(HuffmanCode { value, frequency: n.frequency, length: indent, bits });
            }
            let ghost o1 = output@;
            collect(output, &n.left, indent + 1, bits << 1);
            let ghost o2 = output@;
            collect(output, &n.right, indent + 1, (bits << 1) | 0x1);
            proof {
                let here = match n.value {
                    Some(v) => seq![HuffmanCode { value: v, frequency: n.frequency, length: indent, bits }],
                    None => seq![],
                };
                assert(o1 =~= o0 + here);
                assert(output@ =~= o0 + (here + tree_codes(n.left, (indent + 1) as usize, bits << 1)
                    + tree_codes(n.right, (indent + 1) as usize, (bits << 1) | 1)));
            }
        },
    }
}

/// Code `a` comes before code `b`: shorter first, then the lower value.
pub open spec fn code_le(a: HuffmanCode, b: HuffmanCode) -> bool {
    a.length < b.length || (a.length == b.length && a.value <= b.value)
}

/// Relies on `slice::sort_by_key`: the same codes, in ascending order of
/// `(length, value)`.
#[verifier::external_body]
fn sort_codes(v: &mut Vec<HuffmanCode>)
    ensures
        final(v)@.to_multiset() == old(v)@.to_multiset(),
        forall|i: int, j: int| 0 <= i < j < final(v)@.len() ==> code_le(final(v)@[i], final(v)@[j]),
{
    v.sort_by_key(|c| (c.length, c.value));
}

/// `bits` shifted left once for each step from `from` up to `to`.
pub open spec fn widen(bits: u128, from: usize, to: usize) -> u128
    decreases to - from,
{
    if from < to { widen(bits << 1, (from + 1) as usize, to) } else { bits }
}

/// The next code and its length once the first `k` codes of `s` are numbered.
pub open spec fn canon_state(s: Seq<HuffmanCode>, k: int) -> (u128, usize)
    decreases k,
{
    if k <= 0 {
        (0, 0)
    } else {
        let (b, l) = canon_state(s, k - 1);
        let c = s[k - 1];
        let to = if l < c.length { c.length } else { l };
        (widen(b, l, c.length).wrapping_add(1), to)
    }
}

/// `s` with canonical codes: in order, each code the previous one plus one, shifted
/// left to its length.
pub open spec fn canonical_of(s: Seq<HuffmanCode>) -> Seq<HuffmanCode> {
    Seq::new(
        s.len(),
        |k: int| HuffmanCode { bits: widen(canon_state(s, k).0, canon_state(s, k).1, s[k].length), ..s[k] },
    )
}

pub open spec fn sorted_codes(s: Seq<HuffmanCode>) -> bool {
    forall|i: int, j: int| 0 <= i < j < s.len() ==> code_le(s[i], s[j])
}

impl HuffmanCode {
    pub open spec fn spec_value(&self) -> u8 {
        self.value
    }

    /// The byte this code stands for.
    pub fn value(&self) -> (r: u8)
        ensures
            r == self.spec_value(),
    {
        self.value
    }

    pub open spec fn spec_frequency(&self) -> usize {
        self.frequency
    }

    pub open spec fn spec_length(&self) -> usize {
        self.length
    }

    pub open spec fn spec_bits(&self) -> u128 {
        self.bits
    }

    /// How often the byte occurred, as recorded with the code.
    pub fn frequency(&self) -> (r: usize)
        ensures
            r == self.spec_frequency(),
    {
        self.frequency
    }

    /// How many bits the code has.
    pub fn length(&self) -> (r: usize)
        ensures
            r == self.spec_length(),
    {
        self.length
    }

    /// The code, in the low `length` bits.
    pub fn bits(&self) -> (r: u128)
        ensures
            r == self.spec_bits(),
    {
        self.bits
    }

    /// The code written out in binary, zero-padded to its length.
    pub fn text(&self) -> (r: String)
        ensures
            r@ == code_text(*self),
    {
        string_of(&code_chars(self))
    }

    /// The codes of the leaves of `tree` in pre-order: a leaf's code spells the
    /// path to it, 0 for left and 1 for right.
    pub fn from_tree(tree: &Option<Box<HuffmanNode>>) -> (r: Vec<HuffmanCode>)
        requires
            depth(*tree) <= usize::MAX,
        ensures
            r@ == tree_codes(*tree, 0, 0),
    {
        let mut result: Vec<HuffmanCode> = Vec::new();
        collect(&mut result, tree, 0, 0);
        assert(result@ =~= tree_codes(*tree, 0, 0));
        result
    }

    /// The same codes sorted by length and value, renumbered canonically.
    pub fn as_canonical(codes: &Vec<HuffmanCode>) -> (r: Vec<HuffmanCode>)
        ensures
            exists|p: Seq<HuffmanCode>|
                p.to_multiset() == codes@.to_multiset() && sorted_codes(p) && r@ == canonical_of(p),
    {
        let mut sorted: Vec<HuffmanCode> = Vec::new();
        let mut i: usize = 0;
        while i < codes.len()
            invariant
                i <= codes@.len(),
                sorted@ == codes@.subrange(0, i as int),
            decreases codes@.len() - i,
        {
            sorted.push(codes[i]);
            i += 1;
            assert(sorted@ =~= codes@.subrange(0, i as int));
        }
        assert(sorted@ =~= codes@);
        sort_codes(&mut sorted);
        let ghost p = sorted@;
        let mut bits: u128 = 0;
        let mut length: usize = 0;
        let mut k: usize = 0;
        while k < sorted.len()
            invariant
                sorted@.len() == p.len(),
                k <= p.len(),
                forall|j: int| k <= j < p.len() ==> sorted@[j] == p[j],
                forall|j: int| 0 <= j < k ==> sorted@[j] == canonical_of(p)[j],
                (bits, length) == canon_state(p, k as int),
            decreases p.len() - k,
        {
            let target = sorted[k].length;
            let ghost b0 = bits;
            let ghost l0 = length;
            while length < target
                invariant
                    l0 <= length,
                    length <= target || length == l0,
                    widen(bits, length, target) == widen(b0, l0, target),
                decreases target - length,
            {
                bits = bits << 1;
                length += 1;
            }
            assert(widen(bits, length, target) == bits);
            let code = HuffmanCode { bits, ..sorted[k] };
            sorted.set(k, code);
            bits = bits.wrapping_add(1);
            k += 1;
        }
        assert(sorted@ =~= canonical_of(p));
        sorted
    }
}


/// Code lengths with how many codes have each, and the symbols in code order.
#[derive(Debug)]
pub struct HuffmanTable {
    pub counts: Vec<(usize, usize)>,
    pub symbols: Vec<u8>,
}

/// How many of `codes` have length `l`.
pub open spec fn count_len(codes: Seq<HuffmanCode>, l: usize) -> nat
    decreases codes.len(),
{
    if codes.len() == 0 {
        0
    } else {
        count_len(codes.drop_last(), l) + if codes.last().length == l { 1nat } else { 0nat }
    }
}

/// The values of `codes`, in order.
pub open spec fn code_values(codes: Seq<HuffmanCode>) -> Seq<u8> {
    codes.map_values(|c: HuffmanCode| c.value)
}

/// The counts of a table, added up.
pub open spec fn total(c: Seq<(usize, usize)>) -> nat
    decreases c.len(),
{
    if c.len() == 0 {
        0
    } else {
        c[0].1 as nat + total(c.drop_first())
    }
}

/// Lengths strictly ascending, every count positive.
pub open spec fn ascending(c: Seq<(usize, usize)>) -> bool {
    &&& forall|i: int, j: int| 0 <= i < j < c.len() ==> c[i].0 < c[j].0
    &&& forall|i: int| 0 <= i < c.len() ==> (#[trigger] c[i]).1 >= 1
}

/// `c` lists, by ascending length, how many of `codes` have each length that occurs.
pub open spec fn describes(c: Seq<(usize, usize)>, codes: Seq<HuffmanCode>) -> bool {
    &&& ascending(c)
    &&& forall|i: int| 0 <= i < c.len() ==> (#[trigger] c[i]).1 == count_len(codes, c[i].0)
    &&& forall|l: usize| count_len(codes, l) > 0 ==> exists|i: int| 0 <= i < c.len() && (#[trigger] c[i]).0 == l
}

proof fn lemma_total_bump(c: Seq<(usize, usize)>, i: int, v: (usize, usize))
    requires
        0 <= i < c.len(),
        v.1 == c[i].1 + 1,
    ensures
        total(c.update(i, v)) == total(c) + 1,
    decreases c.len(),
{
    if i > 0 {
        lemma_total_bump(c.drop_first(), i - 1, v);
        assert(c.update(i, v).drop_first() =~= c.drop_first().update(i - 1, v));
    } else {
        assert(c.update(i, v).drop_first() =~= c.drop_first());
    }
}

proof fn lemma_total_insert(c: Seq<(usize, usize)>, i: int, v: (usize, usize))
    requires
        0 <= i <= c.len(),
    ensures
        total(c.insert(i, v)) == total(c) + v.1,
    decreases c.len(),
{
    if i > 0 {
        lemma_total_insert(c.drop_first(), i - 1, v);
        assert(c.insert(i, v).drop_first() =~= c.drop_first().insert(i - 1, v));
    } else {
        assert(c.insert(i, v).drop_first() =~= c);
    }
}

impl HuffmanTable {
    pub open spec fn length_counts(&self) -> Seq<(usize, usize)> {
        self.counts@
    }

    pub open spec fn symbol_list(&self) -> Seq<u8> {
        self.symbols@
    }

    /// Lengths ascending with positive counts, enough of them for every symbol.
    pub open spec fn wf(&self) -> bool {
        ascending(self.counts@) && total(self.counts@) >= self.symbols@.len()
    }

    /// The lengths that occur, ascending, each with how many codes have it.
    pub fn counts(&self) -> (r: &Vec<(usize, usize)>)
        ensures
            r@ == self.length_counts(),
    {
        &self.counts
    }

    /// The symbols in code order.
    pub fn symbols(&self) -> (r: &Vec<u8>)
        ensures
            r@ == self.symbol_list(),
    {
        &self.symbols
    }

    /// The table of `codes`: how many codes have each length, and their values in order.
    pub fn from_codes(codes: &Vec<HuffmanCode>) -> (r: HuffmanTable)
        ensures
            describes(r.length_counts(), codes@),
            r.symbol_list() == code_values(codes@),
            r.wf(),
    {
        let mut counts: Vec<(usize, usize)> = Vec::new();
        let mut symbols: Vec<u8> = Vec::new();
        let mut k: usize = 0;
        while k < codes.len()
            invariant
                k <= codes@.len(),
                describes(counts@, codes@.subrange(0, k as int)),
                total(counts@) == k,
                symbols@ == codes@.subrange(0, k as int).map_values(|c: HuffmanCode| c.value),
            decreases codes@.len() - k,
        {
            let code = codes[k];
            let ghost pre = codes@.subrange(0, k as int);
            let ghost next = codes@.subrange(0, k + 1);
            assert(next.drop_last() =~= pre);
            assert(next.last() == code);
            let mut i: usize = 0;
            while i < counts.len() && counts[i].0 < code.length
                invariant
                    i <= counts@.len(),
                    forall|j: int| 0 <= j < i ==> counts@[j].0 < code.length,
                decreases counts@.len() - i,
            {
                i += 1;
            }
            let ghost c0 = counts@;
            if i < counts.len() && counts[i].0 == code.length {
                let (l, c) = counts[i];
                proof {
                    lemma_count_len_bound(pre, l);
                }
                counts.set(i, (l, c + 1));
                proof {
                    lemma_total_bump(c0, i as int, (l, (c + 1) as usize));
                    assert forall|j: int| 0 <= j < counts@.len() implies (#[trigger] counts@[j]).1 == count_len(next, counts@[j].0) by {
                        if j != i {
                            assert(c0[j].0 != l);
                        }
                    }
                    assert forall|m: usize| count_len(next, m) > 0 implies exists|j: int| 0 <= j < counts@.len() && (#[trigger] counts@[j]).0 == m by {
                        assert(count_len(next, m) == count_len(pre, m) + if code.length == m { 1nat } else { 0nat });
                        if m != l {
                            let j = choose|j: int| 0 <= j < c0.len() && (#[trigger] c0[j]).0 == m;
                            assert(counts@[j].0 == m);
                        } else {
                            assert(counts@[i as int].0 == m);
                        }
                    }
                }
            } else {
                counts.insert(i, (code.length, 1));
                proof {
                    lemma_total_insert(c0, i as int, (code.length, 1));
                    assert(count_len(pre, code.length) == 0) by {
                        if count_len(pre, code.length) > 0 {
                            let j = choose|j: int| 0 <= j < c0.len() && (#[trigger] c0[j]).0 == code.length;
                            if j < i {
                            } else {
                                assert(c0[i as int].0 <= c0[j].0);
                            }
                        }
                    }
                    assert forall|a: int, b: int| 0 <= a < b < counts@.len() implies counts@[a].0 < counts@[b].0 by {
                        if b < i {
                            assert(counts@[a] == c0[a] && counts@[b] == c0[b]);
                        } else if a < i && b == i {
                            assert(counts@[a] == c0[a]);
                        } else if a < i {
                            assert(counts@[a] == c0[a] && counts@[b] == c0[b - 1]);
                            assert(c0[i as int].0 <= c0[b - 1].0);
                        } else if a == i {
                            assert(counts@[b] == c0[b - 1]);
                            assert(c0[i as int].0 <= c0[b - 1].0);
                        } else {
                            assert(counts@[a] == c0[a - 1] && counts@[b] == c0[b - 1]);
                        }
                    }
                    assert forall|j: int| 0 <= j < counts@.len() implies (#[trigger] counts@[j]).1 == count_len(next, counts@[j].0) && counts@[j].1 >= 1 by {
                        if j < i {
                            assert(counts@[j] == c0[j]);
                        } else if j > i {
                            assert(counts@[j] == c0[j - 1]);
                        }
                    }
                    assert forall|m: usize| count_len(next, m) > 0 implies exists|j: int| 0 <= j < counts@.len() && (#[trigger] counts@[j]).0 == m by {
                        assert(count_len(next, m) == count_len(pre, m) + if code.length == m { 1nat } else { 0nat });
                        if m != code.length {
                            let j = choose|j: int| 0 <= j < c0.len() && (#[trigger] c0[j]).0 == m;
                            if j < i {
                                assert(counts@[j].0 == m);
                            } else {
                                assert(counts@[j + 1].0 == m);
                            }
                        } else {
                            assert(counts@[i as int].0 == m);
                        }
                    }
                }
            }
            symbols.push(code.value);
            k += 1;
            assert(symbols@ =~= next.map_values(|c: HuffmanCode| c.value));
        }
        assert(codes@.subrange(0, k as int) =~= codes@);
        HuffmanTable { counts, symbols }
    }
}

proof fn lemma_count_len_bound(codes: Seq<HuffmanCode>, l: usize)
    ensures
        count_len(codes, l) <= codes.len(),
    decreases codes.len(),
{
    if codes.len() > 0 {
        lemma_count_len_bound(codes.drop_last(), l);
    }
}


/// The counts left once `k` symbols have each taken one from the shortest length.
pub open spec fn drain(c: Seq<(usize, usize)>, k: nat) -> Seq<(usize, usize)>
    decreases k,
{
    if k == 0 {
        c
    } else {
        let d = drain(c, (k - 1) as nat);
        if d.len() == 0 {
            d
        } else if d[0].1 <= 1 {
            d.drop_first()
        } else {
            d.update(0, (d[0].0, (d[0].1 - 1) as usize))
        }
    }
}

/// The code of symbol `k` when a table is read back: one more than the previous
/// code, shifted left once whenever a length runs out.
pub open spec fn table_bits(c: Seq<(usize, usize)>, k: nat) -> u128
    decreases k,
{
    if k == 0 {
        0
    } else {
        let d = drain(c, (k - 1) as nat);
        let b = table_bits(c, (k - 1) as nat).wrapping_add(1);
        if d.len() > 0 && d[0].1 <= 1 { b << 1 } else { b }
    }
}

/// The codes read back from counts `c` for `symbols`.
pub open spec fn table_codes(c: Seq<(usize, usize)>, symbols: Seq<u8>) -> Seq<HuffmanCode> {
    Seq::new(
        symbols.len(),
        |k: int| HuffmanCode {
            value: symbols[k],
            frequency: drain(c, k as nat)[0].1,
            length: drain(c, k as nat)[0].0,
            bits: table_bits(c, k as nat),
        },
    )
}

proof fn lemma_drain_step(c: Seq<(usize, usize)>, k: nat)
    requires
        ascending(drain(c, k)),
        drain(c, k).len() > 0,
    ensures
        ascending(drain(c, k + 1)),
        total(drain(c, k + 1)) + 1 == total(drain(c, k)),
{
    let d = drain(c, k);
    let e = drain(c, k + 1);
    if d[0].1 <= 1 {
        assert(e == d.drop_first());
    } else {
        assert(e == d.update(0, (d[0].0, (d[0].1 - 1) as usize)));
        assert(e.drop_first() =~= d.drop_first());
    }
}

impl HuffmanCode {
    /// Reads the codes back from a table: each symbol in turn takes the shortest
    /// length left and the next code. The table's counts are used up on the way.
    pub fn from_table(table: &mut HuffmanTable) -> (r: Vec<HuffmanCode>)
        requires
            old(table).wf(),
        ensures
            r@ == table_codes(old(table).length_counts(), old(table).symbol_list()),
            final(table).symbol_list() == old(table).symbol_list(),
            final(table).length_counts() == drain(old(table).length_counts(), old(table).symbol_list().len()),
    {
        let ghost c = table.counts@;
        let mut result: Vec<HuffmanCode> = Vec::new();
        let mut bits: u128 = 0;
        let n = table.symbols.len();
        let mut k: usize = 0;
        while k < n
            invariant
                n == table.symbols@.len(),
                table.symbols@ == old(table).symbols@,
                c == old(table).counts@,
                k <= n,
                table.counts@ == drain(c, k as nat),
                ascending(table.counts@),
                total(table.counts@) + k >= n,
                bits == table_bits(c, k as nat),
                result@ == table_codes(c, table.symbols@).subrange(0, k as int),
            decreases n - k,
        {
            assert(table.counts@.len() > 0);
            let (length, count) = table.counts[0];
            assert(count >= 1);
            result.push(HuffmanCode { value: table.symbols[k], frequency: count, length, bits });
            proof {
                lemma_drain_step(c, k as nat);
            }
            bits = bits.wrapping_add(1);
            if count - 1 == 0 {
                bits = bits << 1;
                table.counts.remove(0);
                assert(table.counts@ =~= drain(c, (k + 1) as nat));
            } else {
                table.counts.set(0, (length, count - 1));
            }
            k += 1;
            assert(result@ =~= table_codes(c, table.symbols@).subrange(0, k as int));
        }
        assert(result@ =~= table_codes(c, table.symbols@));
        result
    }
}

/// The binary digits of `n`, most significant first; "0" for zero.
pub open spec fn binary(n: nat) -> Seq<char>
    decreases n,
{
    if n < 2 {
        seq![if n == 0 { '0' } else { '1' }]
    } else {
        binary(n / 2).push(if n % 2 == 0 { '0' } else { '1' })
    }
}

/// The binary digits of `n`, padded with leading zeros to at least `width`.
pub open spec fn padded(n: nat, width: nat) -> Seq<char> {
    let b = binary(n);
    if b.len() >= width { b } else { Seq::new((width - b.len()) as nat, |i: int| '0') + b }
}

/// How a code is written out.
pub open spec fn code_text(c: HuffmanCode) -> Seq<char> {
    padded(c.bits as nat, c.length as nat)
}

fn push_binary(out: &mut Vec<char>, n: u128)
    ensures
        final(out)@ == old(out)@ + binary(n as nat),
    decreases n,
{
    if n < 2 {
        out.push(if n == 0 { '0' } else { '1' });
    } else {
        push_binary(out, n / 2);
        out.push(if n % 2 == 0 { '0' } else { '1' });
    }
}

fn code_chars(code: &HuffmanCode) -> (r: Vec<char>)
    ensures
        r@ == code_text(*code),
{
    let mut digits: Vec<char> = Vec::new();
    push_binary(&mut digits, code.bits);
    assert(digits@ =~= binary(code.bits as nat));
    if digits.len() >= code.length {
        return digits;
    }
    let mut r: Vec<char> = Vec::new();
    let pad = code.length - digits.len();
    let mut i: usize = 0;
    while i < pad
        invariant
            i <= pad,
            r@ == Seq::new(i as nat, |j: int| '0'),
        decreases pad - i,
    {
        r.push('0');
        i += 1;
        assert(r@ =~= Seq::new(i as nat, |j: int| '0'));
    }
    let mut j: usize = 0;
    let ghost zeros = r@;
    while j < digits.len()
        invariant
            j <= digits@.len(),
            r@ == zeros + digits@.subrange(0, j as int),
        decreases digits@.len() - j,
    {
        r.push(digits[j]);
        j += 1;
        assert(r@ =~= zeros + digits@.subrange(0, j as int));
    }
    assert(digits@.subrange(0, j as int) =~= digits@);
    r
}

/// The first of `codes` for byte `b`, if any.
pub open spec fn first_code(codes: Seq<HuffmanCode>, b: u8) -> Option<HuffmanCode>
    decreases codes.len(),
{
    if codes.len() == 0 {
        None
    } else if codes[0].value == b {
        Some(codes[0])
    } else {
        first_code(codes.drop_first(), b)
    }
}

/// The bytes of `s` written out with `codes`, each by the first code for it.
pub open spec fn encoded(s: Seq<u8>, codes: Seq<HuffmanCode>) -> Seq<char>
    decreases s.len(),
{
    if s.len() == 0 {
        seq![]
    } else {
        encoded(s.drop_last(), codes) + match first_code(codes, s.last()) {
            Some(c) => code_text(c),
            None => seq![],
        }
    }
}

fn find_code(codes: &Vec<HuffmanCode>, b: u8) -> (r: Option<HuffmanCode>)
    ensures
        r == first_code(codes@, b),
{
    let mut i: usize = 0;
    assert(codes@.subrange(0, codes@.len() as int) =~= codes@);
    while i < codes.len()
        invariant
            i <= codes@.len(),
            first_code(codes@, b) == first_code(codes@.subrange(i as int, codes@.len() as int), b),
        decreases codes@.len() - i,
    {
        let ghost rest = codes@.subrange(i as int, codes@.len() as int);
        if codes[i].value == b {
            return Some(codes[i]);
        }
        assert(rest.drop_first() =~= codes@.subrange(i + 1, codes@.len() as int));
        i += 1;
    }
    None
}


proof fn lemma_first_code_found(codes: Seq<HuffmanCode>, b: u8)
    requires
        has_code(codes, b),
    ensures
        first_code(codes, b) matches Some(c) && c.value == b,
    decreases codes.len(),
{
    if codes[0].value != b {
        let k = choose|k: int| 0 <= k < codes.len() && (#[trigger] codes[k]).value == b;
        assert(codes.drop_first()[k - 1] == codes[k]);
        lemma_first_code_found(codes.drop_first(), b);
    }
}

/// Huffman-codes the bytes of `data`. The codes are canonical, ordered by length
/// and value, every byte of `data` has one, and the text is each byte's code in
/// turn. The table gives the count of codes per length and the symbols in order.
pub fn encode(data: &str) -> (r: (String, HuffmanTable))
    ensures
        exists|t: Option<Box<HuffmanNode>>, p: Seq<HuffmanCode>|
            {
                &&& (t is None <==> data.spec_bytes().len() == 0)
                &&& (t matches Some(n) ==> n.wf() && n.counts_match(data.spec_bytes()))
                &&& p.to_multiset() == tree_codes(t, 0, 0).to_multiset()
                &&& sorted_codes(p)
                &&& forall|b: u8| occurrences(data.spec_bytes(), b) > 0 ==> #[trigger] has_code(canonical_of(p), b)
                &&& r.0@ == encoded(data.spec_bytes(), canonical_of(p))
                &&& describes(r.1.length_counts(), canonical_of(p))
                &&& r.1.symbol_list() == code_values(canonical_of(p))
            },
{
    let tree = HuffmanNode::tree(data);
    let codes = HuffmanCode::from_tree(&tree);
    let canonical = HuffmanCode::as_canonical(&codes);
    let ghost p = choose|p: Seq<HuffmanCode>|
        p.to_multiset() == codes@.to_multiset() && sorted_codes(p) && canonical@ == canonical_of(p);
    let bytes = data.as_bytes();
    let ghost s = data.spec_bytes();
    proof {
        broadcast use vstd::seq_lib::group_to_multiset_ensures;
        assert forall|b: u8| occurrences(s, b) > 0 implies #[trigger] has_code(canonical_of(p), b) by {
            let t = tree.unwrap();
            assert(t.values().contains(b));
            lemma_tree_code_values(tree, 0, 0, b);
            let k = choose|k: int| 0 <= k < codes@.len() && (#[trigger] codes@[k]).value == b;
            assert(codes@.contains(codes@[k]));
            assert(p.to_multiset().count(codes@[k]) > 0);
            assert(p.contains(codes@[k]));
            let j = choose|j: int| 0 <= j < p.len() && p[j] == codes@[k];
            assert(canonical_of(p)[j].value == b);
        }
    }
    let mut out: Vec<char> = Vec::new();
    let mut i: usize = 0;
    while i < bytes.len()
        invariant
            bytes@ == s,
            canonical@ == canonical_of(p),
            forall|b: u8| occurrences(s, b) > 0 ==> #[trigger] has_code(canonical_of(p), b),
            i <= s.len(),
            out@ == encoded(s.subrange(0, i as int), canonical@),
        decreases s.len() - i,
    {
        let b = bytes[i];
        proof {
            let q = s.subrange(0, i + 1);
            assert(q.drop_last() =~= s.subrange(0, i as int));
            assert(q.last() == b);
            lemma_occurrences_bound(q, b);
            assert(occurrences(q, b) > 0);
            lemma_occurrences_prefix(s, i + 1, b);
            lemma_first_code_found(canonical@, b);
        }
        let code = find_code(&canonical, b).unwrap();
        let text = code_chars(&code);
        let ghost before = out@;
        let mut j: usize = 0;
        while j < text.len()
            invariant
                j <= text@.len(),
                out@ == before + text@.subrange(0, j as int),
            decreases text@.len() - j,
        {
            out.push(text[j]);
            j += 1;
            assert(out@ =~= before + text@.subrange(0, j as int));
        }
        assert(text@.subrange(0, j as int) =~= text@);
        i += 1;
    }
    assert(s.subrange(0, i as int) =~= s);
    let table = HuffmanTable::from_codes(&canonical);
    (string_of(&out), table)
}

proof fn lemma_occurrences_prefix(s: Seq<u8>, k: int, b: u8)
    requires
        0 <= k <= s.len(),
    ensures
        occurrences(s.subrange(0, k), b) <= occurrences(s, b),
    decreases s.len() - k,
{
    if k < s.len() {
        lemma_occurrences_prefix(s, k + 1, b);
        assert(s.subrange(0, k + 1).drop_last() =~= s.subrange(0, k));
    } else {
        assert(s.subrange(0, k) =~= s);
    }
}

/// The byte of the first of `codes` whose text is `text`, if any.
pub open spec fn first_match(codes: Seq<HuffmanCode>, text: Seq<char>) -> Option<u8>
    decreases codes.len(),
{
    if codes.len() == 0 {
        None
    } else if code_text(codes[0]) == text {
        Some(codes[0].value)
    } else {
        first_match(codes.drop_first(), text)
    }
}

/// Reads `s` from `i` on, one character at a time after the pending `pending`: as
/// soon as what is pending is the text of a code, that code's byte comes out.
pub open spec fn read_codes(s: Seq<char>, i: int, pending: Seq<char>, codes: Seq<HuffmanCode>) -> Seq<u8>
    decreases s.len() - i,
{
    if i < 0 || i >= s.len() {
        seq![]
    } else {
        let p = pending.push(s[i]);
        match first_match(codes, p) {
            Some(v) => seq![v] + read_codes(s, i + 1, seq![], codes),
            None => read_codes(s, i + 1, p, codes),
        }
    }
}

fn same_chars(a: &Vec<char>, b: &Vec<char>) -> (r: bool)
    ensures
        r == (a@ == b@),
{
    if a.len() != b.len() {
        return false;
    }
    let mut i: usize = 0;
    while i < a.len()
        invariant
            a@.len() == b@.len(),
            i <= a@.len(),
            forall|j: int| 0 <= j < i ==> a@[j] == b@[j],
        decreases a@.len() - i,
    {
        if a[i] != b[i] {
            return false;
        }
        i += 1;
    }
    assert(a@ =~= b@);
    true
}

/// Decodes `data` with the codes read back from `table` (see `from_table`).
pub fn decode(data: &str, table: HuffmanTable) -> (r: Option<Vec<u8>>)
    requires
        table.wf(),
    ensures
        r matches Some(v) && v@ == read_codes(
            data@,
            0,
            seq![],
            table_codes(table.length_counts(), table.symbol_list()),
        ),
{
    let mut table = table;
    let codes = HuffmanCode::from_table(&mut table);
    let mut texts: Vec<Vec<char>> = Vec::new();
    let mut k: usize = 0;
    while k < codes.len()
        invariant
            k <= codes@.len(),
            texts@.len() == k,
            forall|j: int| 0 <= j < k ==> (#[trigger] texts@[j])@ == code_text(codes@[j]),
        decreases codes@.len() - k,
    {
        texts.push(code_chars(&codes[k]));
        k += 1;
    }
    let s = chars_of(data);
    let mut result: Vec<u8> = Vec::new();
    let mut binary: Vec<char> = Vec::new();
    let mut i: usize = 0;
    while i < s.len()
        invariant
            s@ == data@,
            i <= s@.len(),
            texts@.len() == codes@.len(),
            forall|j: int| 0 <= j < codes@.len() ==> (#[trigger] texts@[j])@ == code_text(codes@[j]),
            result@ + read_codes(s@, i as int, binary@, codes@) == read_codes(s@, 0, seq![], codes@),
        decreases s@.len() - i,
    {
        let ghost pending = binary@;
        binary.push(s[i]);
        let mut found: Option<u8> = None;
        assert(codes@.subrange(0, codes@.len() as int) =~= codes@);
        let mut k: usize = 0;
        while k < texts.len()
            invariant
                texts@.len() == codes@.len(),
                forall|j: int| 0 <= j < codes@.len() ==> (#[trigger] texts@[j])@ == code_text(codes@[j]),
                k <= codes@.len(),
                found is None ==> first_match(codes@, binary@) == first_match(
                    codes@.subrange(k as int, codes@.len() as int),
                    binary@,
                ),
                found is Some ==> found == first_match(codes@, binary@),
            decreases codes@.len() - k,
        {
            if found.is_none() {
                let ghost rest = codes@.subrange(k as int, codes@.len() as int);
                assert(rest.drop_first() =~= codes@.subrange(k + 1, codes@.len() as int));
                if same_chars(&texts[k], &binary) {
                    found = Some(codes[k].value);
                }
            }
            k += 1;
        }
        proof {
            if found is None {
                assert(codes@.subrange(k as int, codes@.len() as int) =~= Seq::<HuffmanCode>::empty());
            }
        }
        let ghost before = result@;
        match found {
            Some(v) => {
                result.push(v);
                binary = Vec::new();
                assert(result@ + read_codes(s@, i + 1, binary@, codes@) =~= before + (seq![v] + read_codes(s@, i + 1, seq![], codes@)));
            },
            None => {},
        }
        i += 1;
    }
    assert(result@ =~= result@ + read_codes(s@, i as int, binary@, codes@));
    Some(result)
}

} // verus!
