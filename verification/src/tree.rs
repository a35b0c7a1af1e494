//! The Huffman tree: its runtime representation, its mathematical shape, and
//! the specification functions that the codec's contracts are stated over.
use vstd::prelude::*;
use crate::bits::byte_bits;

verus! {

/// A value carried by a leaf: an input byte, or the end-of-message marker.
#[derive(Debug, PartialEq, Eq, Hash, Clone, Copy, Structural)]
pub enum HuffmanValue {
    Symbol(u8),
    EndOfMessage,
}

/// A Huffman tree node. `count` is the aggregate frequency used only while
/// the tree is built; it is never serialized.
#[derive(Debug)]
pub enum Node {
    Inner { count: usize, left: Box<Node>, right: Box<Node> },
    Leaf { count: usize, value: HuffmanValue },
}

/// The mathematical shape of a tree: the same nodes without their weights.
pub enum Tree {
    Inner(Box<Tree>, Box<Tree>),
    Leaf(HuffmanValue),
}

impl Node {
    /// The weightless shape of this node.
    pub open spec fn as_tree(self) -> Tree
        decreases self,
    {
        match self {
            Node::Inner { left, right, .. } => Tree::Inner(
                Box::new(left.as_tree()),
                Box::new(right.as_tree()),
            ),
            Node::Leaf { value, .. } => Tree::Leaf(value),
        }
    }
}

impl View for Node {
    type V = Tree;

    open spec fn view(&self) -> Tree {
        self.as_tree()
    }
}

pub open spec fn is_inner(t: Tree) -> bool {
    match t {
        Tree::Inner(_, _) => true,
        Tree::Leaf(_) => false,
    }
}

/// The leaf values of `t` in preorder.
pub open spec fn leaves(t: Tree) -> Seq<HuffmanValue>
    decreases t,
{
    match t {
        Tree::Leaf(v) => seq![v],
        Tree::Inner(l, r) => leaves(*l) + leaves(*r),
    }
}

/// How many leaves of `t` carry the end-of-message marker.
pub open spec fn num_eom(t: Tree) -> int
    decreases t,
{
    match t {
        Tree::Leaf(v) => if v == HuffmanValue::EndOfMessage {
            1
        } else {
            0
        },
        Tree::Inner(l, r) => num_eom(*l) + num_eom(*r),
    }
}

/// One structural bit per node in preorder: `1` for a leaf, `0` for an inner
/// node followed by its left then its right subtree.
pub open spec fn shape_bits(t: Tree) -> Seq<bool>
    decreases t,
{
    match t {
        Tree::Leaf(_) => seq![true],
        Tree::Inner(l, r) => seq![false] + shape_bits(*l) + shape_bits(*r),
    }
}

/// The fixed nine-bit extended encoding of one leaf value: a flag bit (`1`
/// for end-of-message) and eight payload bits, least significant first.
pub open spec fn leaf9(v: HuffmanValue) -> Seq<bool> {
    match v {
        HuffmanValue::EndOfMessage => seq![true] + Seq::new(8, |k: int| false),
        HuffmanValue::Symbol(b) => seq![false] + byte_bits(b),
    }
}

/// The nine-bit groups of a leaf sequence, in order.
pub open spec fn values_bits(vs: Seq<HuffmanValue>) -> Seq<bool>
    decreases vs.len(),
{
    if vs.len() == 0 {
        Seq::empty()
    } else {
        values_bits(vs.drop_last()) + leaf9(vs.last())
    }
}

/// The serialized tree: structural prefix, then the leaf value block.
pub open spec fn header_bits(t: Tree) -> Seq<bool> {
    shape_bits(t) + values_bits(leaves(t))
}

/// The root-to-leaf bit path of `v` in `t` (`false` left, `true` right),
/// taking the leftmost leaf that holds `v`.
pub open spec fn code_of(t: Tree, v: HuffmanValue) -> Option<Seq<bool>>
    decreases t,
{
    match t {
        Tree::Leaf(w) => if w == v {
            Some(Seq::empty())
        } else {
            None
        },
        Tree::Inner(l, r) => match code_of(*l, v) {
            Some(p) => Some(seq![false] + p),
            None => match code_of(*r, v) {
                Some(p) => Some(seq![true] + p),
                None => None,
            },
        },
    }
}

pub open spec fn symbol_code(t: Tree, b: u8) -> Seq<bool> {
    code_of(t, HuffmanValue::Symbol(b)).unwrap()
}

pub open spec fn eom_code(t: Tree) -> Seq<bool> {
    code_of(t, HuffmanValue::EndOfMessage).unwrap()
}

/// Walks `t` from its root along the bits of `s` starting at `i`; the leaf
/// value reached and the position of the first unread bit, or nothing if the
/// bits run out on an inner node.
pub open spec fn descend(t: Tree, s: Seq<bool>, i: int) -> Option<(HuffmanValue, int)>
    decreases t,
{
    match t {
        Tree::Leaf(v) => Some((v, i)),
        Tree::Inner(l, r) => if 0 <= i < s.len() {
            descend(if s[i] { *r } else { *l }, s, i + 1)
        } else {
            None
        },
    }
}

/// The bytes decoded from `s[i..]` against `t`: one leaf per codeword until
/// the end-of-message leaf, or until the bits run out (whatever was decoded
/// by then is the result). The inner bound check only justifies termination;
/// it always holds when `t` is rooted at an inner node.
pub open spec fn decode_msg(t: Tree, s: Seq<bool>, i: int) -> Seq<u8>
    decreases s.len() - i,
{
    match descend(t, s, i) {
        Some((v, j)) => match v {
            HuffmanValue::EndOfMessage => Seq::empty(),
            HuffmanValue::Symbol(b) => if i < j <= s.len() {
                seq![b] + decode_msg(t, s, j)
            } else {
                seq![b]
            },
        },
        None => Seq::empty(),
    }
}

/// `pat` stands letter for letter at position `i` of `s`.
pub open spec fn bits_at(s: Seq<bool>, i: int, pat: Seq<bool>) -> bool {
    &&& 0 <= i
    &&& i + pat.len() <= s.len()
    &&& forall|m: int| 0 <= m < pat.len() ==> s[i + m] == pat[m]
}

/// The concatenated codewords of the message bytes, in input order.
pub open spec fn codes_concat(t: Tree, msg: Seq<u8>) -> Seq<bool>
    decreases msg.len(),
{
    if msg.len() == 0 {
        Seq::empty()
    } else {
        codes_concat(t, msg.drop_last()) + symbol_code(t, msg.last())
    }
}

/// The full payload: every byte's codeword, then the terminator codeword.
pub open spec fn payload_bits(t: Tree, msg: Seq<u8>) -> Seq<bool> {
    codes_concat(t, msg) + eom_code(t)
}

/// `t` can encode `msg`: it is rooted at an inner node and gives a codeword
/// to the terminator and to every byte of the message.
pub open spec fn encodable(t: Tree, msg: Seq<u8>) -> bool {
    &&& is_inner(t)
    &&& code_of(t, HuffmanValue::EndOfMessage) is Some
    &&& forall|k: int| 0 <= k < msg.len() ==> code_of(t, HuffmanValue::Symbol(msg[k])) is Some
}

/// A pattern standing at `i` splits at any seam of a concatenation.
pub proof fn lemma_bits_at_concat(s: Seq<bool>, i: int, a: Seq<bool>, b: Seq<bool>)
    requires
        bits_at(s, i, a + b),
    ensures
        bits_at(s, i, a),
        bits_at(s, i + a.len(), b),
{
    assert(forall|m: int| 0 <= m < a.len() ==> s[i + m] == (a + b)[m] && (a + b)[m] == a[m]);
    assert(forall|m: int|
        0 <= m < b.len() ==> s[i + a.len() + m] == (a + b)[a.len() + m] && (a + b)[a.len() + m]
            == b[m]);
}

pub proof fn lemma_leaves_nonempty(t: Tree)
    ensures
        leaves(t).len() >= 1,
    decreases t,
{
    match t {
        Tree::Leaf(_) => {},
        Tree::Inner(l, r) => {
            lemma_leaves_nonempty(*l);
            lemma_leaves_nonempty(*r);
        },
    }
}

/// How many leaves of `t` carry the value `v`.
pub open spec fn num_val(t: Tree, v: HuffmanValue) -> int
    decreases t,
{
    match t {
        Tree::Leaf(w) => if w == v {
            1
        } else {
            0
        },
        Tree::Inner(l, r) => num_val(*l, v) + num_val(*r, v),
    }
}

pub proof fn lemma_num_eom_is_num_val(t: Tree)
    ensures
        num_eom(t) == num_val(t, HuffmanValue::EndOfMessage),
    decreases t,
{
    match t {
        Tree::Leaf(_) => {},
        Tree::Inner(l, r) => {
            lemma_num_eom_is_num_val(*l);
            lemma_num_eom_is_num_val(*r);
        },
    }
}

/// A value is carried by some leaf exactly when it is counted at least once.
pub proof fn lemma_num_val_contains(t: Tree, v: HuffmanValue)
    ensures
        num_val(t, v) >= 0,
        (num_val(t, v) > 0) == leaves(t).contains(v),
    decreases t,
{
    match t {
        Tree::Leaf(w) => {
            assert(leaves(t)[0] == w);
            if w == v {
                assert(leaves(t).contains(v));
            } else {
                if leaves(t).contains(v) {
                    let i = choose|i: int| 0 <= i < leaves(t).len() && leaves(t)[i] == v;
                }
            }
        },
        Tree::Inner(l, r) => {
            lemma_num_val_contains(*l, v);
            lemma_num_val_contains(*r, v);
            assert(leaves(t) == leaves(*l) + leaves(*r));
            if num_val(t, v) > 0 {
                if num_val(*l, v) > 0 {
                    let i = choose|i: int| 0 <= i < leaves(*l).len() && leaves(*l)[i] == v;
                    assert(leaves(t)[i] == v);
                    assert(leaves(t).contains(v));
                } else {
                    let i = choose|i: int| 0 <= i < leaves(*r).len() && leaves(*r)[i] == v;
                    assert(leaves(t)[leaves(*l).len() + i] == v);
                    assert(leaves(t).contains(v));
                }
            } else {
                if leaves(t).contains(v) {
                    let i = choose|i: int| 0 <= i < leaves(t).len() && leaves(t)[i] == v;
                    if i < leaves(*l).len() {
                        assert(leaves(*l)[i] == v);
                        assert(leaves(*l).contains(v));
                    } else {
                        assert(leaves(*r)[i - leaves(*l).len()] == v);
                        assert(leaves(*r).contains(v));
                    }
                }
            }
        },
    }
}

pub proof fn lemma_num_eom_bounds(t: Tree)
    ensures
        0 <= num_eom(t) <= leaves(t).len(),
    decreases t,
{
    match t {
        Tree::Leaf(_) => {},
        Tree::Inner(l, r) => {
            lemma_num_eom_bounds(*l);
            lemma_num_eom_bounds(*r);
        },
    }
}

/// A codeword is shorter than the number of leaves, and never empty below an
/// inner root.
pub proof fn lemma_code_len(t: Tree, v: HuffmanValue)
    requires
        code_of(t, v) is Some,
    ensures
        code_of(t, v).unwrap().len() < leaves(t).len(),
        is_inner(t) ==> code_of(t, v).unwrap().len() >= 1,
    decreases t,
{
    match t {
        Tree::Leaf(_) => {},
        Tree::Inner(l, r) => {
            lemma_leaves_nonempty(*l);
            lemma_leaves_nonempty(*r);
            if code_of(*l, v) is Some {
                lemma_code_len(*l, v);
            } else if code_of(*r, v) is Some {
                lemma_code_len(*r, v);
            }
        },
    }
}

/// Descending consumes bits: it never moves backwards nor past the end, and
/// from an inner root it reads at least one bit.
pub proof fn lemma_descend_bounds(t: Tree, s: Seq<bool>, i: int)
    requires
        0 <= i,
        descend(t, s, i) is Some,
    ensures
        i <= descend(t, s, i).unwrap().1 <= s.len() || i > s.len(),
        i <= s.len() ==> i <= descend(t, s, i).unwrap().1 <= s.len(),
        is_inner(t) ==> i < descend(t, s, i).unwrap().1,
    decreases t,
{
    match t {
        Tree::Leaf(_) => {},
        Tree::Inner(l, r) => {
            if s[i] {
                lemma_descend_bounds(*r, s, i + 1);
            } else {
                lemma_descend_bounds(*l, s, i + 1);
            }
        },
    }
}

/// Following a codeword's own bits reaches its leaf exactly at the
/// codeword's end.
pub proof fn lemma_descend_code(t: Tree, v: HuffmanValue, p: Seq<bool>, s: Seq<bool>, i: int)
    requires
        code_of(t, v) == Some(p),
        bits_at(s, i, p),
    ensures
        descend(t, s, i) == Some((v, i + p.len())),
    decreases t,
{
    match t {
        Tree::Leaf(_) => {},
        Tree::Inner(l, r) => {
            if code_of(*l, v) is Some {
                let pl = code_of(*l, v).unwrap();
                assert(p == seq![false] + pl);
                assert(s[i + 0] == p[0]);
                assert(forall|m: int|
                    0 <= m < pl.len() ==> s[i + 1 + m] == p[1 + m] && p[1 + m] == pl[m]);
                assert(bits_at(s, i + 1, pl));
                lemma_descend_code(*l, v, pl, s, i + 1);
            } else {
                let pr = code_of(*r, v).unwrap();
                assert(p == seq![true] + pr);
                assert(s[i + 0] == p[0]);
                assert(forall|m: int|
                    0 <= m < pr.len() ==> s[i + 1 + m] == p[1 + m] && p[1 + m] == pr[m]);
                assert(bits_at(s, i + 1, pr));
                lemma_descend_code(*r, v, pr, s, i + 1);
            }
        },
    }
}

} // verus!
