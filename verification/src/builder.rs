//! Building the Huffman tree from a message: frequency counting, one leaf
//! per distinct byte plus the zero-weight end-of-message leaf, and repeated
//! greedy merging of the two lightest nodes.
use vstd::prelude::*;
use crate::tree::{
    Node, Tree, HuffmanValue, leaves, num_eom, num_val, code_of, encodable, is_inner,
    lemma_leaves_nonempty, lemma_num_eom_is_num_val, lemma_num_val_contains,
};

verus! {

impl Node {
    /// The weight stored at this node's root.
    pub open spec fn spec_count(&self) -> usize {
        match self {
            Node::Inner { count, .. } => *count,
            Node::Leaf { count, .. } => *count,
        }
    }

    /// The aggregate frequency count of this node.
    pub fn count(&self) -> (r: usize)
        ensures
            r == self.spec_count(),
    {
        match self {
            Node::Inner { count, .. } => *count,
            Node::Leaf { count, .. } => *count,
        }
    }

    /// A leaf with the given weight and value.
    pub fn new(count: usize, value: HuffmanValue) -> (r: Node)
        ensures
            r@ == Tree::Leaf(value),
            r.spec_count() == count,
    {
        Node::Leaf { count, value }
    }

    /// Joins two subtrees under a new inner node whose weight is the sum of
    /// theirs.
    pub fn join(left: Node, right: Node) -> (r: Node)
        requires
            left.spec_count() + right.spec_count() <= usize::MAX,
        ensures
            r@ == Tree::Inner(Box::new(left@), Box::new(right@)),
            r.spec_count() == left.spec_count() + right.spec_count(),
            r == (Node::Inner {
                count: (left.spec_count() + right.spec_count()) as usize,
                left: Box::new(left),
                right: Box::new(right),
            }),
    {
        let count = left.count() + right.count();
        Node::Inner { count, left: Box::new(left), right: Box::new(right) }
    }
}

/// The sum of `f` over a node sequence.
pub open spec fn sum_over(s: Seq<Node>, f: spec_fn(Node) -> int) -> int
    decreases s.len(),
{
    if s.len() == 0 {
        0
    } else {
        sum_over(s.drop_last(), f) + f(s.last())
    }
}

proof fn lemma_sum_over_remove(s: Seq<Node>, f: spec_fn(Node) -> int, i: int)
    requires
        0 <= i < s.len(),
    ensures
        sum_over(s.remove(i), f) == sum_over(s, f) - f(s[i]),
    decreases s.len(),
{
    if i == s.len() - 1 {
        assert(s.remove(i) =~= s.drop_last());
    } else {
        assert(s.remove(i).drop_last() =~= s.drop_last().remove(i));
        assert(s.remove(i).last() == s.last());
        lemma_sum_over_remove(s.drop_last(), f, i);
        assert(s.drop_last()[i] == s[i]);
    }
}

proof fn lemma_sum_over_push(s: Seq<Node>, f: spec_fn(Node) -> int, x: Node)
    ensures
        sum_over(s.push(x), f) == sum_over(s, f) + f(x),
{
    assert(s.push(x).drop_last() =~= s);
    assert(s.push(x).last() == x);
}

proof fn lemma_sum_over_nonneg(s: Seq<Node>, f: spec_fn(Node) -> int)
    requires
        forall|i: int| 0 <= i < s.len() ==> f(#[trigger] s[i]) >= 0,
    ensures
        sum_over(s, f) >= 0,
    decreases s.len(),
{
    if s.len() > 0 {
        assert forall|i: int| 0 <= i < s.drop_last().len() implies f(
            #[trigger] s.drop_last()[i],
        ) >= 0 by {
            assert(s.drop_last()[i] == s[i]);
        }
        lemma_sum_over_nonneg(s.drop_last(), f);
        assert(f(s[s.len() - 1]) >= 0);
    }
}

proof fn lemma_sum_over_elem(s: Seq<Node>, f: spec_fn(Node) -> int, i: int)
    requires
        0 <= i < s.len(),
        forall|k: int| 0 <= k < s.len() ==> f(#[trigger] s[k]) >= 0,
    ensures
        f(s[i]) <= sum_over(s, f),
{
    lemma_sum_over_remove(s, f, i);
    assert forall|k: int| 0 <= k < s.remove(i).len() implies f(#[trigger] s.remove(i)[k])
        >= 0 by {
        if k < i {
            assert(s.remove(i)[k] == s[k]);
        } else {
            assert(s.remove(i)[k] == s[k + 1]);
        }
    }
    lemma_sum_over_nonneg(s.remove(i), f);
}

proof fn lemma_sum_over_two(s: Seq<Node>, f: spec_fn(Node) -> int, i: int, j: int)
    requires
        0 <= i < s.len(),
        0 <= j < s.len(),
        i != j,
        forall|k: int| 0 <= k < s.len() ==> f(#[trigger] s[k]) >= 0,
    ensures
        f(s[i]) + f(s[j]) <= sum_over(s, f),
{
    lemma_sum_over_remove(s, f, j);
    let s1 = s.remove(j);
    let i1 = if i < j {
        i
    } else {
        i - 1
    };
    assert(s1[i1] == s[i]);
    assert forall|k: int| 0 <= k < s1.len() implies f(#[trigger] s1[k]) >= 0 by {
        if k < j {
            assert(s1[k] == s[k]);
        } else {
            assert(s1[k] == s[k + 1]);
        }
    }
    lemma_sum_over_elem(s1, f, i1);
}

/// Some node of the forest already gives `v` a codeword.
pub open spec fn forest_code(s: Seq<Node>, v: HuffmanValue) -> bool {
    exists|i: int| 0 <= i < s.len() && #[trigger] code_of(s[i]@, v) is Some
}

proof fn lemma_forest_code_push(s: Seq<Node>, x: Node, v: HuffmanValue)
    requires
        forest_code(s, v),
    ensures
        forest_code(s.push(x), v),
{
    let i = choose|i: int| 0 <= i < s.len() && #[trigger] code_of(s[i]@, v) is Some;
    assert(s.push(x)[i] == s[i]);
    assert(code_of(s.push(x)[i]@, v) is Some);
}

/// The two merged nodes leave the forest; their join arrives at its back.
pub open spec fn merged(s: Seq<Node>, i1: int, i2: int, joined: Node) -> Seq<Node> {
    let hi = if i1 > i2 {
        i1
    } else {
        i2
    };
    let lo = if i1 > i2 {
        i2
    } else {
        i1
    };
    s.remove(hi).remove(lo).push(joined)
}

proof fn lemma_forest_code_merge(s: Seq<Node>, i1: int, i2: int, joined: Node, v: HuffmanValue)
    requires
        0 <= i1 < s.len(),
        0 <= i2 < s.len(),
        i1 != i2,
        joined@ == Tree::Inner(Box::new(s[i1]@), Box::new(s[i2]@)),
        forest_code(s, v),
    ensures
        forest_code(merged(s, i1, i2, joined), v),
{
    let sn = merged(s, i1, i2, joined);
    let hi = if i1 > i2 {
        i1
    } else {
        i2
    };
    let lo = if i1 > i2 {
        i2
    } else {
        i1
    };
    let w = choose|i: int| 0 <= i < s.len() && #[trigger] code_of(s[i]@, v) is Some;
    if w == i1 || w == i2 {
        assert(code_of(joined@, v) is Some);
        assert(sn[sn.len() - 1] == joined);
        assert(code_of(sn[sn.len() - 1]@, v) is Some);
    } else {
        let q1 = if w < hi {
            w
        } else {
            w - 1
        };
        assert(s.remove(hi)[q1] == s[w]);
        let q2 = if q1 < lo {
            q1
        } else {
            q1 - 1
        };
        assert(s.remove(hi).remove(lo)[q2] == s.remove(hi)[q1]);
        assert(sn[q2] == s[w]);
        assert(code_of(sn[q2]@, v) is Some);
    }
}

/// The index of a lightest node.
fn find_min(nodes: &Vec<Node>) -> (r: usize)
    requires
        nodes@.len() >= 1,
    ensures
        r < nodes@.len(),
        forall|i: int|
            0 <= i < nodes@.len() ==> nodes@[r as int].spec_count() <= #[trigger] nodes@[i].spec_count(),
{
    let mut best: usize = 0;
    let mut i: usize = 1;
    while i < nodes.len()
        invariant
            best < i,
            i <= nodes@.len(),
            forall|k: int|
                0 <= k < i ==> nodes@[best as int].spec_count() <= #[trigger] nodes@[k].spec_count(),
        decreases nodes@.len() - i,
    {
        if nodes[i].count() < nodes[best].count() {
            best = i;
        }
        i += 1;
    }
    best
}

/// The index of a lightest node other than `skip`.
fn find_min_except(nodes: &Vec<Node>, skip: usize) -> (r: usize)
    requires
        nodes@.len() >= 2,
        skip < nodes@.len(),
    ensures
        r < nodes@.len(),
        r != skip,
        forall|i: int|
            0 <= i < nodes@.len() && i != skip ==> nodes@[r as int].spec_count()
                <= #[trigger] nodes@[i].spec_count(),
{
    let mut best: usize = if skip == 0 {
        1
    } else {
        0
    };
    let mut i: usize = 0;
    while i < nodes.len()
        invariant
            best < nodes@.len(),
            best != skip,
            skip < nodes@.len(),
            i <= nodes@.len(),
            forall|k: int|
                0 <= k < i && k != skip ==> nodes@[best as int].spec_count()
                    <= #[trigger] nodes@[k].spec_count(),
        decreases nodes@.len() - i,
    {
        if i != skip && nodes[i].count() < nodes[best].count() {
            best = i;
        }
        i += 1;
    }
    best
}

/// How often byte `b` occurs in `msg`.
pub open spec fn count_byte(msg: Seq<u8>, b: u8) -> int
    decreases msg.len(),
{
    if msg.len() == 0 {
        0
    } else {
        count_byte(msg.drop_last(), b) + (if msg.last() == b {
            1int
        } else {
            0
        })
    }
}

/// A byte occurs at least once exactly when the message contains it.
pub proof fn lemma_count_byte_contains(msg: Seq<u8>, b: u8)
    ensures
        count_byte(msg, b) >= 0,
        (count_byte(msg, b) > 0) == msg.contains(b),
    decreases msg.len(),
{
    if msg.len() == 0 {
        if msg.contains(b) {
            let i = choose|i: int| 0 <= i < msg.len() && msg[i] == b;
        }
    } else {
        lemma_count_byte_contains(msg.drop_last(), b);
        if msg.last() == b {
            assert(msg[msg.len() - 1] == b);
            assert(msg.contains(b));
        } else {
            if count_byte(msg, b) > 0 {
                let i = choose|i: int|
                    0 <= i < msg.drop_last().len() && msg.drop_last()[i] == b;
                assert(msg[i] == b);
                assert(msg.contains(b));
            }
            if msg.contains(b) {
                let i = choose|i: int| 0 <= i < msg.len() && msg[i] == b;
                assert(i < msg.len() - 1);
                assert(msg.drop_last()[i] == b);
                assert(msg.drop_last().contains(b));
            }
        }
    }
}

/// How many leaves the built tree holds for value `v`: one for the
/// end-of-message marker, one for each byte value that occurs in the
/// message, none otherwise.
pub open spec fn leaf_multiplicity(msg: Seq<u8>, v: HuffmanValue) -> int {
    match v {
        HuffmanValue::Symbol(b) => if msg.contains(b) {
            1
        } else {
            0
        },
        HuffmanValue::EndOfMessage => 1,
    }
}

/// The weights of a tree built for `msg`: every symbol leaf weighs that
/// byte's frequency, the end-of-message leaf weighs nothing, every inner
/// node weighs the sum of its children, and the first-selected child — the
/// lighter one, or its equal — stands on the left.
pub open spec fn weights_ok(n: Node, msg: Seq<u8>) -> bool
    decreases n,
{
    match n {
        Node::Leaf { count, value } => match value {
            HuffmanValue::Symbol(b) => count == count_byte(msg, b),
            HuffmanValue::EndOfMessage => count == 0,
        },
        Node::Inner { count, left, right } => {
            &&& count == left.spec_count() + right.spec_count()
            &&& left.spec_count() <= right.spec_count()
            &&& weights_ok(*left, msg)
            &&& weights_ok(*right, msg)
        },
    }
}

/// How many leaves across the whole forest carry value `v`.
pub open spec fn forest_num_val(s: Seq<Node>, v: HuffmanValue) -> int
    decreases s.len(),
{
    if s.len() == 0 {
        0
    } else {
        forest_num_val(s.drop_last(), v) + num_val(s.last()@, v)
    }
}

proof fn lemma_forest_num_val_remove(s: Seq<Node>, v: HuffmanValue, i: int)
    requires
        0 <= i < s.len(),
    ensures
        forest_num_val(s.remove(i), v) == forest_num_val(s, v) - num_val(s[i]@, v),
    decreases s.len(),
{
    if i == s.len() - 1 {
        assert(s.remove(i) =~= s.drop_last());
    } else {
        assert(s.remove(i).drop_last() =~= s.drop_last().remove(i));
        assert(s.remove(i).last() == s.last());
        lemma_forest_num_val_remove(s.drop_last(), v, i);
        assert(s.drop_last()[i] == s[i]);
    }
}

proof fn lemma_forest_num_val_push(s: Seq<Node>, v: HuffmanValue, x: Node)
    ensures
        forest_num_val(s.push(x), v) == forest_num_val(s, v) + num_val(x@, v),
{
    assert(s.push(x).drop_last() =~= s);
    assert(s.push(x).last() == x);
}

/// Every node of the merged forest keeps its weights: the survivors are the
/// untouched nodes, and the join was checked on its own.
proof fn lemma_weights_ok_merge(s: Seq<Node>, i1: int, i2: int, joined: Node, msg: Seq<u8>)
    requires
        0 <= i1 < s.len(),
        0 <= i2 < s.len(),
        i1 != i2,
        forall|p: int| 0 <= p < s.len() ==> #[trigger] weights_ok(s[p], msg),
        weights_ok(joined, msg),
    ensures
        forall|q: int|
            0 <= q < merged(s, i1, i2, joined).len() ==> #[trigger] weights_ok(
                merged(s, i1, i2, joined)[q],
                msg,
            ),
{
    let sn = merged(s, i1, i2, joined);
    let hi = if i1 > i2 {
        i1
    } else {
        i2
    };
    let lo = if i1 > i2 {
        i2
    } else {
        i1
    };
    assert forall|q: int| 0 <= q < sn.len() implies #[trigger] weights_ok(sn[q], msg) by {
        if q == sn.len() - 1 {
            assert(sn[q] == joined);
        } else {
            let p1 = if q < lo {
                q
            } else {
                q + 1
            };
            assert(s.remove(hi).remove(lo)[q] == s.remove(hi)[p1]);
            let p0 = if p1 < hi {
                p1
            } else {
                p1 + 1
            };
            assert(s.remove(hi)[p1] == s[p0]);
            assert(sn[q] == s[p0]);
            assert(weights_ok(s[p0], msg));
        }
    }
}

impl Node {
    /// Builds the Huffman tree for a non-empty message: one leaf per
    /// distinct byte value weighted by its frequency, one zero-weight
    /// end-of-message leaf added unconditionally, then repeated merging of
    /// the two lightest nodes until one root remains. The extra leaf both
    /// reserves a terminator and guarantees an inner root even for a message
    /// of one distinct byte.
    pub fn tree_for_message(bytes: &[u8]) -> (r: Node)
        requires
            bytes@.len() > 0,
        ensures
            encodable(r@, bytes@),
            num_eom(r@) == 1,
            leaves(r@).len() <= 257,
            r.spec_count() == bytes@.len(),
            weights_ok(r, bytes@),
            forall|v: HuffmanValue| #[trigger] num_val(r@, v) == leaf_multiplicity(bytes@, v),
            forall|b: u8|
                leaves(r@).contains(HuffmanValue::Symbol(b)) <==> bytes@.contains(b),
    {
        let ghost count_f = |n: Node| n.spec_count() as int;
        let ghost leaf_f = |n: Node| leaves(n@).len() as int;
        let n = bytes.len();

        let mut freq: Vec<usize> = Vec::new();
        let mut q: usize = 0;
        while q < 256
            invariant
                q <= 256,
                freq@.len() == q,
                sum_freq(freq@) == 0,
                forall|w: int| 0 <= w < q ==> freq@[w] == 0,
            decreases 256 - q,
        {
            proof {
                assert(freq@.push(0usize).drop_last() =~= freq@);
            }
            freq.push(0);
            q += 1;
        }

        proof {
            assert(bytes@.take(0) =~= Seq::<u8>::empty());
        }
        let mut idx: usize = 0;
        while idx < n
            invariant
                n == bytes@.len(),
                idx <= n,
                freq@.len() == 256,
                sum_freq(freq@) == idx,
                forall|w: int|
                    0 <= w < 256 ==> freq@[w] == count_byte(bytes@.take(idx as int), w as u8),
            decreases n - idx,
        {
            let b = bytes[idx] as usize;
            proof {
                lemma_sum_freq_elem(freq@, b as int);
            }
            let f = freq[b];
            proof {
                lemma_sum_freq_update(freq@, b as int, (f + 1) as usize);
            }
            freq[b] = f + 1;
            proof {
                assert(bytes@.take(idx as int + 1).drop_last() =~= bytes@.take(idx as int));
                assert(bytes@.take(idx as int + 1).last() == bytes@[idx as int]);
                assert forall|w: int|
                    0 <= w < 256 implies freq@[w] == count_byte(
                    bytes@.take(idx as int + 1),
                    w as u8,
                ) by {
                    assert(count_byte(bytes@.take(idx as int + 1), w as u8) == count_byte(
                        bytes@.take(idx as int),
                        w as u8,
                    ) + (if bytes@[idx as int] == w as u8 {
                        1int
                    } else {
                        0
                    }));
                }
            }
            idx += 1;
        }
        proof {
            assert(bytes@.take(n as int) =~= bytes@);
            assert forall|w: int| 0 <= w < 256 implies freq@[w] == count_byte(
                bytes@,
                w as u8,
            ) by {}
        }

        let mut nodes: Vec<Node> = Vec::new();
        let mut v: usize = 0;
        while v < 256
            invariant
                v <= 256,
                n == bytes@.len(),
                freq@.len() == 256,
                forall|w: int| 0 <= w < 256 ==> freq@[w] == count_byte(bytes@, w as u8),
                sum_over(nodes@, count_f) == sum_freq(freq@.take(v as int)),
                sum_over(nodes@, leaf_f) <= v,
                forall|val: HuffmanValue| #[trigger] forest_num_val(nodes@, val) == (match val {
                    HuffmanValue::Symbol(b) => if (b as int) < v as int && freq@[b as int] > 0 {
                        1int
                    } else {
                        0int
                    },
                    HuffmanValue::EndOfMessage => 0int,
                }),
                forall|q2: int|
                    0 <= q2 < nodes@.len() ==> #[trigger] weights_ok(nodes@[q2], bytes@),
                forall|w: int|
                    0 <= w < v && freq@[w] > 0 ==> forest_code(
                        nodes@,
                        HuffmanValue::Symbol(w as u8),
                    ),
                count_f == (|n: Node| n.spec_count() as int),
                leaf_f == (|n: Node| leaves(n@).len() as int),
            decreases 256 - v,
        {
            let ghost s0 = nodes@;
            let fv = freq[v];
            if fv > 0 {
                let leaf = Node::new(fv, HuffmanValue::Symbol(v as u8));
                proof {
                    lemma_sum_over_push(s0, count_f, leaf);
                    lemma_sum_over_push(s0, leaf_f, leaf);
                }
                nodes.push(leaf);
                proof {
                    assert(code_of(nodes@[nodes@.len() - 1]@, HuffmanValue::Symbol(v as u8))
                        is Some);
                    assert forall|w: int|
                        0 <= w < v + 1 && freq@[w] > 0 implies forest_code(
                        nodes@,
                        HuffmanValue::Symbol(w as u8),
                    ) by {
                        if w < v {
                            lemma_forest_code_push(s0, leaf, HuffmanValue::Symbol(w as u8));
                        }
                    }
                    assert forall|val: HuffmanValue| #[trigger] forest_num_val(nodes@, val) == (
                    match val {
                        HuffmanValue::Symbol(b) => if (b as int) < v as int + 1 && freq@[b as int]
                            > 0 {
                            1int
                        } else {
                            0int
                        },
                        HuffmanValue::EndOfMessage => 0int,
                    }) by {
                        lemma_forest_num_val_push(s0, val, leaf);
                        assert(leaf@ == Tree::Leaf(HuffmanValue::Symbol(v as u8)));
                    }
                    assert forall|q2: int|
                        0 <= q2 < nodes@.len() implies #[trigger] weights_ok(
                        nodes@[q2],
                        bytes@,
                    ) by {
                        if q2 < s0.len() {
                            assert(nodes@[q2] == s0[q2]);
                        } else {
                            assert(nodes@[q2] == leaf);
                            assert(fv == count_byte(bytes@, v as u8));
                        }
                    }
                }
            }
            proof {
                assert(freq@.take(v as int + 1).drop_last() =~= freq@.take(v as int));
                assert(freq@.take(v as int + 1).last() == freq@[v as int]);
            }
            v += 1;
        }
        proof {
            assert(freq@.take(256) =~= freq@);
            assert forall|k: int| 0 <= k < bytes@.len() implies freq@[bytes@[k] as int] > 0 by {
                assert(bytes@.contains(bytes@[k]));
                lemma_count_byte_contains(bytes@, bytes@[k]);
            }
            assert(forest_code(nodes@, HuffmanValue::Symbol(bytes@[0] as u8)));
            assert(bytes@[0] as u8 == bytes@[0]);
            let i0 = choose|i: int|
                0 <= i < nodes@.len() && #[trigger] code_of(
                    nodes@[i]@,
                    HuffmanValue::Symbol(bytes@[0]),
                ) is Some;
            assert(nodes@.len() >= 1);
        }

        let ghost s1 = nodes@;
        let eom_leaf = Node::new(0, HuffmanValue::EndOfMessage);
        proof {
            lemma_sum_over_push(s1, count_f, eom_leaf);
            lemma_sum_over_push(s1, leaf_f, eom_leaf);
        }
        nodes.push(eom_leaf);
        proof {
            assert(code_of(nodes@[nodes@.len() - 1]@, HuffmanValue::EndOfMessage) is Some);
            assert forall|k: int|
                0 <= k < bytes@.len() implies forest_code(
                nodes@,
                HuffmanValue::Symbol(bytes@[k]),
            ) by {
                assert(bytes@.contains(bytes@[k]));
                lemma_count_byte_contains(bytes@, bytes@[k]);
                assert(freq@[bytes@[k] as int] > 0);
                lemma_forest_code_push(s1, eom_leaf, HuffmanValue::Symbol(bytes@[k]));
            }
            assert forall|val: HuffmanValue| #[trigger] forest_num_val(nodes@, val)
                == leaf_multiplicity(bytes@, val) by {
                lemma_forest_num_val_push(s1, val, eom_leaf);
                assert(eom_leaf@ == Tree::Leaf(HuffmanValue::EndOfMessage));
                match val {
                    HuffmanValue::Symbol(b) => {
                        lemma_count_byte_contains(bytes@, b);
                        assert(freq@[b as int] == count_byte(bytes@, b));
                    },
                    HuffmanValue::EndOfMessage => {},
                }
            }
            assert forall|q2: int|
                0 <= q2 < nodes@.len() implies #[trigger] weights_ok(nodes@[q2], bytes@) by {
                if q2 < s1.len() {
                    assert(nodes@[q2] == s1[q2]);
                } else {
                    assert(nodes@[q2] == eom_leaf);
                }
            }
        }

        while nodes.len() > 1
            invariant
                n == bytes@.len(),
                nodes@.len() >= 1,
                sum_over(nodes@, count_f) == n,
                sum_over(nodes@, leaf_f) <= 257,
                forall|val: HuffmanValue| #[trigger] forest_num_val(nodes@, val)
                    == leaf_multiplicity(bytes@, val),
                forall|q2: int|
                    0 <= q2 < nodes@.len() ==> #[trigger] weights_ok(nodes@[q2], bytes@),
                forall|k: int|
                    0 <= k < bytes@.len() ==> forest_code(nodes@, HuffmanValue::Symbol(bytes@[k])),
                forest_code(nodes@, HuffmanValue::EndOfMessage),
                nodes@.len() == 1 ==> is_inner(nodes@[0]@),
                count_f == (|n: Node| n.spec_count() as int),
                leaf_f == (|n: Node| leaves(n@).len() as int),
            decreases nodes@.len(),
        {
            let ghost s0 = nodes@;
            let i1 = find_min(&nodes);
            let i2 = find_min_except(&nodes, i1);
            let (hi, lo) = if i1 > i2 {
                (i1, i2)
            } else {
                (i2, i1)
            };
            proof {
                assert forall|k: int| 0 <= k < s0.len() implies count_f(#[trigger] s0[k])
                    >= 0 by {}
                lemma_sum_over_two(s0, count_f, i1 as int, i2 as int);
                lemma_sum_over_remove(s0, count_f, hi as int);
                lemma_sum_over_remove(s0, leaf_f, hi as int);
                lemma_sum_over_remove(s0.remove(hi as int), count_f, lo as int);
                lemma_sum_over_remove(s0.remove(hi as int), leaf_f, lo as int);
                assert(s0.remove(hi as int)[lo as int] == s0[lo as int]);
            }
            let n_hi = nodes.remove(hi);
            let n_lo = nodes.remove(lo);
            let (left, right) = if i1 < i2 {
                (n_lo, n_hi)
            } else {
                (n_hi, n_lo)
            };
            let joined = Node::join(left, right);
            proof {
                lemma_sum_over_push(nodes@, count_f, joined);
                lemma_sum_over_push(nodes@, leaf_f, joined);
                assert(left == s0[i1 as int] && right == s0[i2 as int]);
                assert(joined@ == Tree::Inner(Box::new(s0[i1 as int]@), Box::new(s0[i2 as int]@)));
                assert(leaves(joined@) == leaves(s0[i1 as int]@) + leaves(s0[i2 as int]@));
                assert(s0[i1 as int].spec_count() <= s0[i2 as int].spec_count());
                assert(weights_ok(s0[i1 as int], bytes@));
                assert(weights_ok(s0[i2 as int], bytes@));
                assert(weights_ok(joined, bytes@));
            }
            nodes.push(joined);
            proof {
                assert(nodes@ =~= merged(s0, i1 as int, i2 as int, joined));
                assert forall|k: int|
                    0 <= k < bytes@.len() implies forest_code(
                    nodes@,
                    HuffmanValue::Symbol(bytes@[k]),
                ) by {
                    lemma_forest_code_merge(
                        s0,
                        i1 as int,
                        i2 as int,
                        joined,
                        HuffmanValue::Symbol(bytes@[k]),
                    );
                }
                lemma_forest_code_merge(
                    s0,
                    i1 as int,
                    i2 as int,
                    joined,
                    HuffmanValue::EndOfMessage,
                );
                assert forall|val: HuffmanValue| #[trigger] forest_num_val(nodes@, val)
                    == leaf_multiplicity(bytes@, val) by {
                    lemma_forest_num_val_remove(s0, val, hi as int);
                    lemma_forest_num_val_remove(s0.remove(hi as int), val, lo as int);
                    lemma_forest_num_val_push(
                        s0.remove(hi as int).remove(lo as int),
                        val,
                        joined,
                    );
                    assert(num_val(joined@, val) == num_val(s0[i1 as int]@, val) + num_val(
                        s0[i2 as int]@,
                        val,
                    ));
                }
                lemma_weights_ok_merge(s0, i1 as int, i2 as int, joined, bytes@);
                assert forall|q2: int|
                    0 <= q2 < nodes@.len() implies #[trigger] weights_ok(
                    nodes@[q2],
                    bytes@,
                ) by {
                    assert(nodes@[q2] == merged(s0, i1 as int, i2 as int, joined)[q2]);
                }
            }
        }

        proof {
            assert(nodes@.len() == 1);
            assert(nodes@.drop_last() =~= Seq::<Node>::empty());
            assert(sum_over(Seq::<Node>::empty(), count_f) == 0);
            assert(sum_over(Seq::<Node>::empty(), leaf_f) == 0);
            assert(nodes@.last() == nodes@[0]);
            assert(count_f(nodes@[0]) == nodes@[0].spec_count());
            assert(leaf_f(nodes@[0]) == leaves(nodes@[0]@).len());
            assert(sum_over(nodes@, count_f) == nodes@[0].spec_count());
            assert(sum_over(nodes@, leaf_f) == leaves(nodes@[0]@).len());
            assert forall|val: HuffmanValue| #[trigger] num_val(nodes@[0]@, val)
                == leaf_multiplicity(bytes@, val) by {
                assert(forest_num_val(Seq::<Node>::empty(), val) == 0);
                assert(forest_num_val(nodes@, val) == num_val(nodes@[0]@, val));
            }
            lemma_num_eom_is_num_val(nodes@[0]@);
            assert(num_eom(nodes@[0]@) == 1);
            assert forall|b: u8|
                leaves(nodes@[0]@).contains(HuffmanValue::Symbol(b)) <==> bytes@.contains(
                b,
            ) by {
                lemma_num_val_contains(nodes@[0]@, HuffmanValue::Symbol(b));
            }
            assert(weights_ok(nodes@[0], bytes@));
            assert forall|k: int|
                0 <= k < bytes@.len() implies code_of(
                nodes@[0]@,
                HuffmanValue::Symbol(bytes@[k]),
            ) is Some by {
                let i = choose|i: int|
                    0 <= i < nodes@.len() && #[trigger] code_of(
                        nodes@[i]@,
                        HuffmanValue::Symbol(bytes@[k]),
                    ) is Some;
            }
            let ie = choose|i: int|
                0 <= i < nodes@.len() && #[trigger] code_of(
                    nodes@[i]@,
                    HuffmanValue::EndOfMessage,
                ) is Some;
            assert(code_of(nodes@[0]@, HuffmanValue::EndOfMessage) is Some);
        }
        let root = match nodes.pop() {
            Some(root) => root,
            None => {
                proof {
                    assert(false);
                }
                Node::new(0, HuffmanValue::EndOfMessage)
            },
        };
        root
    }
}

/// The sum of a frequency table.
pub open spec fn sum_freq(s: Seq<usize>) -> int
    decreases s.len(),
{
    if s.len() == 0 {
        0
    } else {
        sum_freq(s.drop_last()) + s.last()
    }
}

proof fn lemma_sum_freq_nonneg(s: Seq<usize>)
    ensures
        sum_freq(s) >= 0,
    decreases s.len(),
{
    if s.len() > 0 {
        lemma_sum_freq_nonneg(s.drop_last());
    }
}

proof fn lemma_sum_freq_elem(s: Seq<usize>, i: int)
    requires
        0 <= i < s.len(),
    ensures
        s[i] <= sum_freq(s),
    decreases s.len(),
{
    if i == s.len() - 1 {
        lemma_sum_freq_nonneg(s.drop_last());
    } else {
        lemma_sum_freq_elem(s.drop_last(), i);
        assert(s.drop_last()[i] == s[i]);
    }
}

proof fn lemma_sum_freq_update(s: Seq<usize>, i: int, x: usize)
    requires
        0 <= i < s.len(),
    ensures
        sum_freq(s.update(i, x)) == sum_freq(s) - s[i] + x,
    decreases s.len(),
{
    if i == s.len() - 1 {
        assert(s.update(i, x).drop_last() =~= s.drop_last());
        assert(s.update(i, x).last() == x);
    } else {
        assert(s.update(i, x).drop_last() =~= s.drop_last().update(i, x));
        assert(s.update(i, x).last() == s.last());
        lemma_sum_freq_update(s.drop_last(), i, x);
        assert(s.drop_last()[i] == s[i]);
    }
}

} // verus!
