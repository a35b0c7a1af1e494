//! Serialization of a tree to its bit header and the strict parser that
//! rebuilds the tree from a header prefix of unknown length.
use vstd::prelude::*;
use crate::bits::{
    Bits, bit_seq, bits_new, bits_push, bits_len, bits_get, push_byte, read_byte, bits_to_byte8,
    byte_bits, max_bits, lemma_byte_bits_inverse,
};
use crate::tree::{
    Node, Tree, HuffmanValue, leaves, num_eom, shape_bits, values_bits, header_bits, leaf9,
    bits_at, is_inner, lemma_leaves_nonempty, lemma_bits_at_concat, lemma_num_eom_bounds,
};

verus! {

/// Reading `s` from position `i` as a preorder structural prefix yields a
/// tree of `t`'s shape and stops exactly at `j`: the shape bits of `t` stand
/// letter for letter at `i`. Leaf values are not read here, so any tree of
/// the right shape parses.
pub open spec fn shape_parses(s: Seq<bool>, i: int, t: Tree, j: int) -> bool {
    bits_at(s, i, shape_bits(t)) && j == i + shape_bits(t).len()
}

/// The leaf value carried by the nine-bit group at position `p`.
pub open spec fn value9_at(s: Seq<bool>, p: int) -> HuffmanValue {
    if s[p] {
        HuffmanValue::EndOfMessage
    } else {
        HuffmanValue::Symbol(bits_to_byte8(s, p + 1))
    }
}

/// The preorder leaves of `t` are exactly the nine-bit groups starting at
/// `e`.
pub open spec fn leaves_match(s: Seq<bool>, e: int, t: Tree) -> bool {
    forall|k: int| 0 <= k < leaves(t).len() ==> leaves(t)[k] == value9_at(s, e + 9 * k)
}

/// The whole header at the front of `s` parses to the valid tree `t`, with
/// the payload starting at `j`: the shape parses, the leaf value block is
/// fully present and matches, exactly one leaf is the end-of-message marker,
/// and the root is an inner node.
pub open spec fn header_parses(s: Seq<bool>, t: Tree, j: int) -> bool {
    let e = shape_bits(t).len() as int;
    &&& shape_parses(s, 0, t, e)
    &&& j == e + 9 * leaves(t).len()
    &&& j <= s.len()
    &&& leaves_match(s, e, t)
    &&& num_eom(t) == 1
    &&& is_inner(t)
}

/// Some valid tree header stands at the front of `s`.
pub open spec fn valid_header(s: Seq<bool>) -> bool {
    exists|t: Tree, j: int| header_parses(s, t, j)
}

/// Two trees with the same arrangement of inner nodes and leaves.
pub open spec fn same_shape(t1: Tree, t2: Tree) -> bool
    decreases t1,
{
    match (t1, t2) {
        (Tree::Leaf(_), Tree::Leaf(_)) => true,
        (Tree::Inner(l1, r1), Tree::Inner(l2, r2)) => same_shape(*l1, *l2) && same_shape(
            *r1,
            *r2,
        ),
        _ => false,
    }
}

/// The structural bits depend on the shape alone.
pub proof fn lemma_same_shape_shape_bits(t1: Tree, t2: Tree)
    requires
        same_shape(t1, t2),
    ensures
        shape_bits(t1) == shape_bits(t2),
    decreases t1,
{
    match (t1, t2) {
        (Tree::Inner(l1, r1), Tree::Inner(l2, r2)) => {
            lemma_same_shape_shape_bits(*l1, *l2);
            lemma_same_shape_shape_bits(*r1, *r2);
        },
        (Tree::Leaf(_), Tree::Leaf(_)) => {
            assert(shape_bits(t1) =~= shape_bits(t2));
        },
        _ => {},
    }
}

pub proof fn lemma_same_shape_sym(t1: Tree, t2: Tree)
    requires
        same_shape(t1, t2),
    ensures
        same_shape(t2, t1),
    decreases t1,
{
    match (t1, t2) {
        (Tree::Inner(l1, r1), Tree::Inner(l2, r2)) => {
            lemma_same_shape_sym(*l1, *l2);
            lemma_same_shape_sym(*r1, *r2);
        },
        _ => {},
    }
}

pub proof fn lemma_same_shape_trans(t1: Tree, t2: Tree, t3: Tree)
    requires
        same_shape(t1, t2),
        same_shape(t2, t3),
    ensures
        same_shape(t1, t3),
    decreases t1,
{
    match (t1, t2) {
        (Tree::Inner(l1, r1), Tree::Inner(l2, r2)) => {
            match t3 {
                Tree::Inner(l3, r3) => {
                    lemma_same_shape_trans(*l1, *l2, *l3);
                    lemma_same_shape_trans(*r1, *r2, *r3);
                },
                Tree::Leaf(_) => {},
            }
        },
        _ => {},
    }
}

pub proof fn lemma_same_shape_leaf_count(t1: Tree, t2: Tree)
    requires
        same_shape(t1, t2),
    ensures
        leaves(t1).len() == leaves(t2).len(),
    decreases t1,
{
    match (t1, t2) {
        (Tree::Inner(l1, r1), Tree::Inner(l2, r2)) => {
            lemma_same_shape_leaf_count(*l1, *l2);
            lemma_same_shape_leaf_count(*r1, *r2);
        },
        _ => {},
    }
}

/// A tree is determined by its shape together with its preorder leaves.
pub proof fn lemma_tree_determined(t1: Tree, t2: Tree)
    requires
        same_shape(t1, t2),
        leaves(t1) == leaves(t2),
    ensures
        t1 == t2,
    decreases t1,
{
    match (t1, t2) {
        (Tree::Inner(l1, r1), Tree::Inner(l2, r2)) => {
            lemma_same_shape_leaf_count(*l1, *l2);
            let n = leaves(*l1).len() as int;
            assert(leaves(t1) == leaves(*l1) + leaves(*r1));
            assert(leaves(t2) == leaves(*l2) + leaves(*r2));
            assert(leaves(*l1) =~= (leaves(*l1) + leaves(*r1)).subrange(0, n));
            assert(leaves(*l2) =~= (leaves(*l2) + leaves(*r2)).subrange(0, n));
            assert(leaves(*r1) =~= (leaves(*l1) + leaves(*r1)).subrange(
                n,
                (leaves(*l1) + leaves(*r1)).len() as int,
            ));
            assert(leaves(*r2) =~= (leaves(*l2) + leaves(*r2)).subrange(
                n,
                (leaves(*l2) + leaves(*r2)).len() as int,
            ));
            assert(leaves(*l1) == leaves(*l2));
            assert(leaves(*r1) == leaves(*r2));
            lemma_tree_determined(*l1, *l2);
            lemma_tree_determined(*r1, *r2);
            assert(*l1 == *l2);
            assert(*r1 == *r2);
            assert(t1 =~~= t2);
        },
        (Tree::Leaf(v1), Tree::Leaf(v2)) => {
            assert(leaves(t1) == seq![v1]);
            assert(leaves(t2) == seq![v2]);
            assert(leaves(t1)[0] == leaves(t2)[0]);
            assert(seq![v1][0] == v1);
            assert(seq![v2][0] == v2);
            assert(v1 == v2);
            assert(t1 == Tree::Leaf(v1));
            assert(t2 == Tree::Leaf(v2));
            assert(t1 == t2);
        },
        _ => {},
    }
}

/// A parse moves strictly forward and never past the end.
pub proof fn lemma_shape_parses_bounds(s: Seq<bool>, i: int, t: Tree, j: int)
    requires
        shape_parses(s, i, t, j),
    ensures
        i < j <= s.len(),
{
    lemma_leaves_nonempty(t);
    lemma_shape_bits_len(t);
}

/// At one position the structural prefix has at most one reading: any two
/// trees whose shape bits stand there have the same shape, so their parses
/// end at the same place.
proof fn lemma_shape_unique(s: Seq<bool>, i: int, t1: Tree, t2: Tree)
    requires
        bits_at(s, i, shape_bits(t1)),
        bits_at(s, i, shape_bits(t2)),
    ensures
        same_shape(t1, t2),
    decreases t1,
{
    match (t1, t2) {
        (Tree::Inner(l1, r1), Tree::Inner(l2, r2)) => {
            assert(shape_bits(t1) == (seq![false] + shape_bits(*l1)) + shape_bits(*r1));
            assert(shape_bits(t2) == (seq![false] + shape_bits(*l2)) + shape_bits(*r2));
            lemma_bits_at_concat(s, i, seq![false] + shape_bits(*l1), shape_bits(*r1));
            lemma_bits_at_concat(s, i, seq![false], shape_bits(*l1));
            lemma_bits_at_concat(s, i, seq![false] + shape_bits(*l2), shape_bits(*r2));
            lemma_bits_at_concat(s, i, seq![false], shape_bits(*l2));
            lemma_shape_unique(s, i + 1, *l1, *l2);
            lemma_same_shape_shape_bits(*l1, *l2);
            lemma_shape_unique(s, i + 1 + shape_bits(*l1).len(), *r1, *r2);
        },
        (Tree::Leaf(_), Tree::Leaf(_)) => {},
        (Tree::Leaf(_), Tree::Inner(l2, r2)) => {
            assert(s[i + 0] == shape_bits(t1)[0]);
            assert(shape_bits(t2) == (seq![false] + shape_bits(*l2)) + shape_bits(*r2));
            assert(shape_bits(t2)[0] == false);
            assert(s[i + 0] == shape_bits(t2)[0]);
        },
        (Tree::Inner(l1, r1), Tree::Leaf(_)) => {
            assert(s[i + 0] == shape_bits(t2)[0]);
            assert(shape_bits(t1) == (seq![false] + shape_bits(*l1)) + shape_bits(*r1));
            assert(shape_bits(t1)[0] == false);
            assert(s[i + 0] == shape_bits(t1)[0]);
        },
    }
}

/// A parse reads only shape: any tree of the same shape parses there too.
pub proof fn lemma_shape_parses_same_shape(s: Seq<bool>, i: int, t1: Tree, j: int, t2: Tree)
    requires
        shape_parses(s, i, t1, j),
        same_shape(t1, t2),
    ensures
        shape_parses(s, i, t2, j),
{
    lemma_same_shape_shape_bits(t1, t2);
}

pub proof fn lemma_shape_bits_len(t: Tree)
    ensures
        shape_bits(t).len() == 2 * leaves(t).len() - 1,
    decreases t,
{
    match t {
        Tree::Leaf(_) => {},
        Tree::Inner(l, r) => {
            lemma_shape_bits_len(*l);
            lemma_shape_bits_len(*r);
        },
    }
}

pub proof fn lemma_values_bits_len(vs: Seq<HuffmanValue>)
    ensures
        values_bits(vs).len() == 9 * vs.len(),
    decreases vs.len(),
{
    if vs.len() == 0 {
    } else {
        lemma_values_bits_len(vs.drop_last());
    }
}

pub proof fn lemma_values_bits_index(vs: Seq<HuffmanValue>, k: int)
    requires
        0 <= k < vs.len(),
    ensures
        forall|m: int| 0 <= m < 9 ==> #[trigger] values_bits(vs)[9 * k + m] == leaf9(vs[k])[m],
    decreases vs.len(),
{
    lemma_values_bits_len(vs.drop_last());
    if k == vs.len() - 1 {
        assert(forall|m: int|
            0 <= m < 9 ==> #[trigger] values_bits(vs)[9 * k + m] == leaf9(vs.last())[m]);
    } else {
        lemma_values_bits_index(vs.drop_last(), k);
        assert(forall|m: int|
            0 <= m < 9 ==> #[trigger] values_bits(vs)[9 * k + m] == values_bits(vs.drop_last())[9
                * k + m]);
    }
}

/// A nine-bit group decodes back to the leaf value it was written from.
pub proof fn lemma_value9_of_leaf9(s: Seq<bool>, p: int, v: HuffmanValue)
    requires
        bits_at(s, p, leaf9(v)),
    ensures
        value9_at(s, p) == v,
{
    match v {
        HuffmanValue::EndOfMessage => {
            assert(s[p + 0] == leaf9(v)[0]);
        },
        HuffmanValue::Symbol(b) => {
            assert(s[p + 0] == leaf9(v)[0]);
            assert(forall|m: int|
                0 <= m < 8 ==> s[p + 1 + m] == leaf9(v)[1 + m] && leaf9(v)[1 + m] == byte_bits(
                    b,
                )[m]);
            lemma_byte_bits_inverse(s, p + 1, b);
        },
    }
}

/// A serialized valid tree, standing at the front of a bit sequence, parses
/// back to itself, with the payload starting right after the header.
pub proof fn lemma_header_of_serialized(t: Tree, s: Seq<bool>)
    requires
        bits_at(s, 0, header_bits(t)),
        num_eom(t) == 1,
        is_inner(t),
    ensures
        header_parses(s, t, header_bits(t).len() as int),
{
    let sb = shape_bits(t);
    let vb = values_bits(leaves(t));
    lemma_values_bits_len(leaves(t));
    lemma_bits_at_concat(s, 0, sb, vb);
    let e = sb.len() as int;
    assert forall|k: int| 0 <= k < leaves(t).len() implies leaves(t)[k] == value9_at(
        s,
        e + 9 * k,
    ) by {
        lemma_values_bits_index(leaves(t), k);
        assert(forall|m: int|
            0 <= m < 9 ==> #[trigger] s[e + 9 * k + m] == vb[9 * k + m]);
        assert(forall|m: int|
            0 <= m < 9 ==> #[trigger] leaf9(leaves(t)[k])[m] == vb[9 * k + m]);
        assert(bits_at(s, e + 9 * k, leaf9(leaves(t)[k])));
        lemma_value9_of_leaf9(s, e + 9 * k, leaves(t)[k]);
    }
}

/// At most one valid tree header stands at the front of a bit sequence.
pub proof fn lemma_header_unique(s: Seq<bool>, t1: Tree, j1: int, t2: Tree, j2: int)
    requires
        header_parses(s, t1, j1),
        header_parses(s, t2, j2),
    ensures
        t1 == t2,
        j1 == j2,
{
    lemma_shape_unique(s, 0, t1, t2);
    lemma_same_shape_shape_bits(t1, t2);
    lemma_same_shape_leaf_count(t1, t2);
    let e = shape_bits(t1).len() as int;
    assert forall|k: int| 0 <= k < leaves(t1).len() implies leaves(t1)[k] == leaves(t2)[k] by {
        assert(leaves(t1)[k] == value9_at(s, e + 9 * k));
        assert(leaves(t2)[k] == value9_at(s, e + 9 * k));
    }
    assert(leaves(t1) =~= leaves(t2));
    lemma_tree_determined(t1, t2);
}

/// Appends the preorder structural bits of `n` and collects its leaf values
/// in the same order.
fn ser_shape(n: &Node, bits: &mut Bits, values: &mut Vec<HuffmanValue>)
    requires
        bit_seq(*old(bits)).len() + shape_bits(n@).len() <= max_bits(),
    ensures
        bit_seq(*final(bits)) == bit_seq(*old(bits)) + shape_bits(n@),
        final(values)@ == old(values)@ + leaves(n@),
    decreases *n,
{
    match n {
        Node::Leaf { value, .. } => {
            bits_push(bits, true);
            values.push(*value);
            proof {
                assert(bit_seq(*bits) =~= bit_seq(*old(bits)) + shape_bits(n@));
                assert(values@ =~= old(values)@ + leaves(n@));
            }
        },
        Node::Inner { left, right, .. } => {
            proof {
                assert(shape_bits(n@) == (seq![false] + shape_bits(left@)) + shape_bits(
                    right@,
                ));
            }
            bits_push(bits, false);
            ser_shape(&**left, bits, values);
            ser_shape(&**right, bits, values);
            proof {
                assert(bit_seq(*bits) =~= bit_seq(*old(bits)) + shape_bits(n@));
                assert(values@ =~= old(values)@ + leaves(n@));
            }
        },
    }
}

impl Node {
    /// A compact representation of the tree: one structural bit per node in
    /// preorder, then the nine-bit value group of each leaf in the same
    /// order.
    pub(crate) fn serialize(&self) -> (r: Bits)
        requires
            11 * leaves(self@).len() <= max_bits(),
        ensures
            bit_seq(r) == header_bits(self@),
    {
        let ghost t = self@;
        proof {
            lemma_shape_bits_len(t);
            lemma_leaves_nonempty(t);
        }
        let mut bits = bits_new();
        let mut values: Vec<HuffmanValue> = Vec::new();
        ser_shape(self, &mut bits, &mut values);
        proof {
            assert(bit_seq(bits) =~= shape_bits(t));
            assert(values@ =~= leaves(t));
        }
        let n = values.len();
        let mut k: usize = 0;
        while k < n
            invariant
                n == values.len(),
                values@ == leaves(t),
                k <= n,
                bit_seq(bits) == shape_bits(t) + values_bits(values@.take(k as int)),
                11 * leaves(t).len() <= max_bits(),
                leaves(t).len() >= 1,
            decreases n - k,
        {
            proof {
                lemma_shape_bits_len(t);
                lemma_values_bits_len(values@.take(k as int));
            }
            let v = values[k];
            match v {
                HuffmanValue::EndOfMessage => {
                    bits_push(&mut bits, true);
                    push_byte(&mut bits, 0);
                    proof {
                        assert(0u8 & 1 == 0 && (0u8 >> 1) & 1 == 0 && (0u8 >> 2) & 1 == 0 && (0u8
                            >> 3) & 1 == 0 && (0u8 >> 4) & 1 == 0 && (0u8 >> 5) & 1 == 0 && (0u8
                            >> 6) & 1 == 0 && (0u8 >> 7) & 1 == 0) by (bit_vector);
                        assert(byte_bits(0u8) =~= Seq::new(8, |m: int| false));
                    }
                },
                HuffmanValue::Symbol(sv) => {
                    bits_push(&mut bits, false);
                    push_byte(&mut bits, sv);
                },
            }
            proof {
                assert(values@.take(k as int + 1).drop_last() =~= values@.take(k as int));
                assert(values@.take(k as int + 1).last() == values@[k as int]);
                assert(bit_seq(bits) =~= shape_bits(t) + values_bits(
                    values@.take(k as int + 1),
                ));
            }
            k += 1;
        }
        proof {
            assert(values@.take(n as int) =~= values@);
        }
        bits
    }
}

/// Parses one preorder subtree from the structural bits at `i`; its leaves
/// hold a placeholder value until the value block is read.
fn parse_shape(bits: &Bits, i: usize) -> (r: Option<(Node, usize, usize)>)
    requires
        i <= bit_seq(*bits).len(),
        bit_seq(*bits).len() <= usize::MAX,
    ensures
        (r matches Some((n, j, lc)) ==> {
            &&& shape_parses(bit_seq(*bits), i as int, n@, j as int)
            &&& i < j <= bit_seq(*bits).len()
            &&& lc == leaves(n@).len()
            &&& lc <= j - i
        }),
        r is None ==> forall|t: Tree, jj: int| !shape_parses(bit_seq(*bits), i as int, t, jj),
    decreases bit_seq(*bits).len() - i,
{
    let ghost s = bit_seq(*bits);
    let len = bits_len(bits);
    if i >= len {
        proof {
            assert forall|t: Tree, jj: int| !shape_parses(s, i as int, t, jj) by {
                lemma_shape_bits_len(t);
                lemma_leaves_nonempty(t);
            }
        }
        return None;
    }
    if bits_get(bits, i) {
        let n = Node::Leaf { count: 0, value: HuffmanValue::Symbol(0) };
        proof {
            assert(shape_bits(n@) =~= seq![true]);
            assert(s[i as int + 0] == shape_bits(n@)[0]);
            assert(bits_at(s, i as int, shape_bits(n@)));
            assert(leaves(n@).len() == 1);
        }
        return Some((n, i + 1, 1));
    }
    match parse_shape(bits, i + 1) {
        None => {
            proof {
                assert forall|t: Tree, jj: int| !shape_parses(s, i as int, t, jj) by {
                    match t {
                        Tree::Leaf(_) => {
                            if shape_parses(s, i as int, t, jj) {
                                assert(s[i as int + 0] == shape_bits(t)[0]);
                            }
                        },
                        Tree::Inner(l, r) => {
                            if shape_parses(s, i as int, t, jj) {
                                assert(shape_bits(t) == (seq![false] + shape_bits(*l))
                                    + shape_bits(*r));
                                lemma_bits_at_concat(
                                    s,
                                    i as int,
                                    seq![false] + shape_bits(*l),
                                    shape_bits(*r),
                                );
                                lemma_bits_at_concat(s, i as int, seq![false], shape_bits(*l));
                                assert(shape_parses(
                                    s,
                                    i as int + 1,
                                    *l,
                                    i as int + 1 + shape_bits(*l).len(),
                                ));
                            }
                        },
                    }
                }
            }
            None
        },
        Some((left, k, lcl)) => {
            match parse_shape(bits, k) {
                None => {
                    proof {
                        assert forall|t: Tree, jj: int| !shape_parses(s, i as int, t, jj) by {
                            match t {
                                Tree::Leaf(_) => {
                                    if shape_parses(s, i as int, t, jj) {
                                        assert(s[i as int + 0] == shape_bits(t)[0]);
                                    }
                                },
                                Tree::Inner(l, r) => {
                                    if shape_parses(s, i as int, t, jj) {
                                        assert(shape_bits(t) == (seq![false] + shape_bits(*l))
                                            + shape_bits(*r));
                                        lemma_bits_at_concat(
                                            s,
                                            i as int,
                                            seq![false] + shape_bits(*l),
                                            shape_bits(*r),
                                        );
                                        lemma_bits_at_concat(
                                            s,
                                            i as int,
                                            seq![false],
                                            shape_bits(*l),
                                        );
                                        lemma_shape_unique(s, i as int + 1, *l, left@);
                                        lemma_same_shape_shape_bits(*l, left@);
                                        assert(i as int + 1 + shape_bits(*l).len() == k as int);
                                        assert(shape_parses(
                                            s,
                                            k as int,
                                            *r,
                                            k as int + shape_bits(*r).len(),
                                        ));
                                    }
                                },
                            }
                        }
                    }
                    None
                },
                Some((right, j, lcr)) => {
                    let n = Node::Inner {
                        count: 0,
                        left: Box::new(left),
                        right: Box::new(right),
                    };
                    proof {
                        assert(n@ == Tree::Inner(Box::new(left@), Box::new(right@)));
                        assert(shape_bits(n@) == (seq![false] + shape_bits(left@)) + shape_bits(
                            right@,
                        ));
                        assert(leaves(n@) == leaves(left@) + leaves(right@));
                        assert forall|m: int|
                            0 <= m < shape_bits(n@).len() implies s[i as int + m] == shape_bits(
                            n@,
                        )[m] by {
                            if m == 0 {
                            } else if m < 1 + shape_bits(left@).len() {
                                assert(s[i as int + 1 + (m - 1)] == shape_bits(left@)[m - 1]);
                            } else {
                                assert(s[k as int + (m - 1 - shape_bits(left@).len())]
                                    == shape_bits(right@)[m - 1 - shape_bits(left@).len()]);
                            }
                        }
                        assert(bits_at(s, i as int, shape_bits(n@)));
                    }
                    Some((n, j, lcl + lcr))
                },
            }
        },
    }
}

/// Rebuilds `n` with each placeholder leaf replaced by the value of its
/// nine-bit group, groups read in preorder from position `p`; also the
/// position after the last group read and the number of end-of-message
/// leaves seen.
fn fill_values(n: &Node, bits: &Bits, p: usize) -> (r: (Node, usize, usize))
    requires
        p + 9 * leaves(n@).len() <= bit_seq(*bits).len(),
        bit_seq(*bits).len() <= usize::MAX,
    ensures
        same_shape(r.0@, n@),
        r.1 == p + 9 * leaves(n@).len(),
        leaves(r.0@).len() == leaves(n@).len(),
        forall|k: int|
            0 <= k < leaves(r.0@).len() ==> leaves(r.0@)[k] == value9_at(
                bit_seq(*bits),
                p + 9 * k,
            ),
        r.2 == num_eom(r.0@),
    decreases *n,
{
    let ghost s = bit_seq(*bits);
    match n {
        Node::Leaf { .. } => {
            proof {
                assert(leaves(n@).len() == 1);
            }
            if bits_get(bits, p) {
                let m = Node::Leaf { count: 0, value: HuffmanValue::EndOfMessage };
                proof {
                    assert(leaves(m@) == seq![HuffmanValue::EndOfMessage]);
                    assert(leaves(m@)[0] == value9_at(s, p as int + 9 * 0));
                }
                (m, p + 9, 1)
            } else {
                let b = read_byte(bits, p + 1);
                let m = Node::Leaf { count: 0, value: HuffmanValue::Symbol(b) };
                proof {
                    assert(leaves(m@) == seq![HuffmanValue::Symbol(b)]);
                    assert(leaves(m@)[0] == value9_at(s, p as int + 9 * 0));
                }
                (m, p + 9, 0)
            }
        },
        Node::Inner { left, right, .. } => {
            proof {
                assert(leaves(n@) == leaves(left@) + leaves(right@));
                lemma_leaves_nonempty(left@);
                lemma_leaves_nonempty(right@);
            }
            let (ml, p1, e1) = fill_values(&**left, bits, p);
            let (mr, p2, e2) = fill_values(&**right, bits, p1);
            proof {
                lemma_num_eom_bounds(ml@);
                lemma_num_eom_bounds(mr@);
            }
            let m = Node::Inner { count: 0, left: Box::new(ml), right: Box::new(mr) };
            proof {
                assert(m@ == Tree::Inner(Box::new(ml@), Box::new(mr@)));
                assert(leaves(m@) == leaves(ml@) + leaves(mr@));
                let lcl = leaves(ml@).len() as int;
                assert forall|k: int|
                    0 <= k < leaves(m@).len() implies leaves(m@)[k] == value9_at(
                    s,
                    p + 9 * k,
                ) by {
                    if k < lcl {
                        assert(leaves(m@)[k] == leaves(ml@)[k]);
                    } else {
                        assert(leaves(m@)[k] == leaves(mr@)[k - lcl]);
                        assert(leaves(mr@)[k - lcl] == value9_at(s, p1 + 9 * (k - lcl)));
                        assert(p1 + 9 * (k - lcl) == p + 9 * k);
                    }
                }
            }
            (m, p2, e1 + e2)
        },
    }
}

impl Node {
    /// Parses a serialized tree from the front of `bits`: the structural
    /// prefix, then one nine-bit group per leaf, validated to hold exactly
    /// one end-of-message leaf below an inner root. Returns the tree and the
    /// position where the payload starts, or nothing when no valid header
    /// stands there.
    pub(crate) fn deserialize(bits: &Bits) -> (r: Option<(Node, usize)>)
        ensures
            (r matches Some((n, j)) ==> header_parses(bit_seq(*bits), n@, j as int)),
            r is None ==> !valid_header(bit_seq(*bits)),
    {
        let ghost s = bit_seq(*bits);
        let len = bits_len(bits);
        let parsed = parse_shape(bits, 0);
        match parsed {
            None => {
                proof {
                    assert forall|t: Tree, jj: int| !header_parses(s, t, jj) by {
                        if header_parses(s, t, jj) {
                            assert(shape_parses(s, 0, t, shape_bits(t).len() as int));
                        }
                    }
                }
                None
            },
            Some((shape, e, leaf_count)) => {
                proof {
                    lemma_shape_parses_bounds(s, 0, shape@, e as int);
                }
                if leaf_count > (len - e) / 9 {
                    proof {
                        let lc = leaf_count as int;
                        let rem = (len - e) as int;
                        assert(9 * lc > rem) by (nonlinear_arith)
                            requires
                                lc > rem / 9,
                                rem >= 0,
                        ;
                        assert forall|t: Tree, jj: int| !header_parses(s, t, jj) by {
                            if header_parses(s, t, jj) {
                                lemma_shape_unique(s, 0, t, shape@);
                                lemma_same_shape_shape_bits(t, shape@);
                                lemma_same_shape_leaf_count(t, shape@);
                                assert(jj == e + 9 * lc);
                            }
                        }
                    }
                    return None;
                }
                proof {
                    let lc = leaf_count as int;
                    let rem = (len - e) as int;
                    assert(9 * lc <= rem) by (nonlinear_arith)
                        requires
                            lc <= rem / 9,
                            rem >= 0,
                    ;
                }
                let (filled, j, eom_count) = fill_values(&shape, bits, e);
                proof {
                    lemma_same_shape_sym(filled@, shape@);
                }
                let ok_eom = eom_count == 1;
                let ok_root = match &filled {
                    Node::Inner { .. } => true,
                    Node::Leaf { .. } => false,
                };
                if ok_eom && ok_root {
                    proof {
                        lemma_shape_parses_same_shape(s, 0, shape@, e as int, filled@);
                        lemma_same_shape_shape_bits(shape@, filled@);
                        lemma_same_shape_leaf_count(shape@, filled@);
                        assert(header_parses(s, filled@, j as int));
                    }
                    Some((filled, j))
                } else {
                    proof {
                        assert forall|t: Tree, jj: int| !header_parses(s, t, jj) by {
                            if header_parses(s, t, jj) {
                                lemma_shape_unique(s, 0, t, shape@);
                                lemma_same_shape_trans(t, shape@, filled@);
                                lemma_same_shape_shape_bits(t, shape@);
                                lemma_same_shape_shape_bits(t, filled@);
                                lemma_same_shape_leaf_count(t, filled@);
                                assert(shape_bits(t).len() == e as int);
                                assert forall|k: int|
                                    0 <= k < leaves(t).len() implies leaves(t)[k] == leaves(
                                    filled@,
                                )[k] by {
                                    assert(leaves(t)[k] == value9_at(
                                        s,
                                        shape_bits(t).len() + 9 * k,
                                    ));
                                    assert(leaves(filled@)[k] == value9_at(s, e + 9 * k));
                                }
                                assert(leaves(t) =~= leaves(filled@));
                                lemma_tree_determined(t, filled@);
                            }
                        }
                    }
                    None
                }
            },
        }
    }
}

} // verus!
