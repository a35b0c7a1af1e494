//! The codebook, the payload encoder and the bit-walking decoder, with the
//! proofs that decoding a payload recovers exactly the encoded message.
use vstd::prelude::*;
use crate::bits::{
    Bits, bit_seq, bits_new, bits_push, bits_pop, bits_len, bits_get, bits_clone, bits_extend,
    max_bits,
};
use crate::tree::{
    Node, Tree, HuffmanValue, leaves, code_of, symbol_code, eom_code, codes_concat, payload_bits,
    encodable, descend, decode_msg, bits_at, is_inner, lemma_leaves_nonempty, lemma_code_len,
    lemma_descend_bounds, lemma_descend_code, lemma_bits_at_concat,
};

verus! {

/// A codebook slot, seen as the bit sequence it records.
pub open spec fn opt_code(c: Option<Bits>) -> Option<Seq<bool>> {
    match c {
        Some(b) => Some(bit_seq(b)),
        None => None,
    }
}

/// What one codebook slot becomes after walking a subtree reached along
/// `prefix`: the first recording wins, later ones leave it alone.
pub open spec fn book_entry(
    slot: Option<Seq<bool>>,
    c: Option<Seq<bool>>,
    prefix: Seq<bool>,
) -> Option<Seq<bool>> {
    if slot is Some {
        slot
    } else {
        match c {
            Some(p) => Some(prefix + p),
            None => None,
        }
    }
}

/// Walks `n` depth first, left before right, recording against each leaf
/// value the path that led to it (the running `path`, restored on return).
fn build_codebook(n: &Node, path: &mut Bits, codes: &mut Vec<Option<Bits>>, eom: &mut Option<Bits>)
    requires
        old(codes)@.len() == 256,
        bit_seq(*old(path)).len() + leaves(n@).len() <= max_bits(),
    ensures
        final(codes)@.len() == 256,
        bit_seq(*final(path)) == bit_seq(*old(path)),
        forall|v: int|
            0 <= v < 256 ==> opt_code(#[trigger] final(codes)@[v]) == book_entry(
                opt_code(old(codes)@[v]),
                code_of(n@, HuffmanValue::Symbol(v as u8)),
                bit_seq(*old(path)),
            ),
        opt_code(*final(eom)) == book_entry(
            opt_code(*old(eom)),
            code_of(n@, HuffmanValue::EndOfMessage),
            bit_seq(*old(path)),
        ),
    decreases *n,
{
    let ghost path0 = bit_seq(*old(path));
    match n {
        Node::Leaf { value, .. } => {
            proof {
                assert(n@ == Tree::Leaf(*value));
            }
            match value {
                HuffmanValue::Symbol(sv) => {
                    let idx = *sv as usize;
                    if codes[idx].is_none() {
                        let recorded = bits_clone(path);
                        codes[idx] = Some(recorded);
                        proof {
                            assert(path0 + Seq::<bool>::empty() =~= path0);
                        }
                    }
                },
                HuffmanValue::EndOfMessage => {
                    if eom.is_none() {
                        let recorded = bits_clone(path);
                        *eom = Some(recorded);
                        proof {
                            assert(path0 + Seq::<bool>::empty() =~= path0);
                        }
                    }
                },
            }
        },
        Node::Inner { left, right, .. } => {
            proof {
                assert(n@ == Tree::Inner(Box::new(left@), Box::new(right@)));
                assert(leaves(n@) == leaves(left@) + leaves(right@));
                lemma_leaves_nonempty(left@);
                lemma_leaves_nonempty(right@);
            }
            let ghost codes0 = codes@;
            let ghost eom0 = *eom;
            bits_push(path, false);
            build_codebook(&**left, path, codes, eom);
            bits_pop(path);
            proof {
                assert(path0.push(false).drop_last() =~= path0);
            }
            let ghost codes1 = codes@;
            let ghost eom1 = *eom;
            bits_push(path, true);
            build_codebook(&**right, path, codes, eom);
            bits_pop(path);
            proof {
                assert(path0.push(true).drop_last() =~= path0);
                assert forall|v: int| 0 <= v < 256 implies opt_code(#[trigger] codes@[v])
                    == book_entry(
                    opt_code(codes0[v]),
                    code_of(n@, HuffmanValue::Symbol(v as u8)),
                    path0,
                ) by {
                    let val = HuffmanValue::Symbol(v as u8);
                    let cl = code_of(left@, val);
                    let cr = code_of(right@, val);
                    if opt_code(codes0[v]) is Some {
                    } else if cl is Some {
                        let pl = cl.unwrap();
                        assert(path0.push(false) + pl =~= path0 + (seq![false] + pl));
                    } else if cr is Some {
                        let pr = cr.unwrap();
                        assert(path0.push(true) + pr =~= path0 + (seq![true] + pr));
                    }
                }
                {
                    let val = HuffmanValue::EndOfMessage;
                    let cl = code_of(left@, val);
                    let cr = code_of(right@, val);
                    if opt_code(eom0) is Some {
                    } else if cl is Some {
                        let pl = cl.unwrap();
                        assert(path0.push(false) + pl =~= path0 + (seq![false] + pl));
                    } else if cr is Some {
                        let pr = cr.unwrap();
                        assert(path0.push(true) + pr =~= path0 + (seq![true] + pr));
                    }
                }
            }
        },
    }
}

/// The payload concatenation grows by one codeword per message byte.
proof fn lemma_codes_concat_snoc(t: Tree, msg: Seq<u8>, k: int)
    requires
        0 <= k < msg.len(),
    ensures
        codes_concat(t, msg.take(k + 1)) == codes_concat(t, msg.take(k)) + symbol_code(
            t,
            msg[k],
        ),
{
    assert(msg.take(k + 1).drop_last() =~= msg.take(k));
    assert(msg.take(k + 1).last() == msg[k]);
}

/// Each codeword is shorter than the leaf count, so the payload is bounded
/// by it.
proof fn lemma_codes_concat_len(t: Tree, msg: Seq<u8>)
    requires
        forall|k: int| 0 <= k < msg.len() ==> code_of(t, HuffmanValue::Symbol(msg[k])) is Some,
        leaves(t).len() >= 1,
    ensures
        codes_concat(t, msg).len() <= (leaves(t).len() - 1) * msg.len(),
    decreases msg.len(),
{
    if msg.len() == 0 {
    } else {
        assert(forall|k: int|
            0 <= k < msg.drop_last().len() ==> msg.drop_last()[k] == msg[k]);
        lemma_codes_concat_len(t, msg.drop_last());
        lemma_code_len(t, HuffmanValue::Symbol(msg.last()));
        let ll = leaves(t).len() as int;
        let nn = msg.len() as int;
        assert((ll - 1) * (nn - 1) + (ll - 1) == (ll - 1) * nn) by (nonlinear_arith);
    }
}

/// The codeword stream of a message, read from the front: the first byte's
/// codeword, then the rest's stream.
proof fn lemma_codes_concat_first(t: Tree, msg: Seq<u8>)
    requires
        msg.len() > 0,
    ensures
        codes_concat(t, msg) == symbol_code(t, msg[0]) + codes_concat(t, msg.drop_first()),
    decreases msg.len(),
{
    if msg.len() == 1 {
        assert(msg.take(0) =~= Seq::<u8>::empty());
        assert(msg.drop_last() =~= Seq::<u8>::empty());
        assert(msg.drop_first() =~= Seq::<u8>::empty());
        assert(codes_concat(t, msg) =~= symbol_code(t, msg[0]) + codes_concat(
            t,
            msg.drop_first(),
        ));
    } else {
        lemma_codes_concat_first(t, msg.drop_last());
        assert(msg.drop_last()[0] == msg[0]);
        assert(msg.drop_last().drop_first() =~= msg.drop_first().drop_last());
        assert(msg.drop_first().last() == msg.last());
        assert((symbol_code(t, msg[0]) + codes_concat(t, msg.drop_first().drop_last()))
            + symbol_code(t, msg.last()) =~= symbol_code(t, msg[0]) + (codes_concat(
            t,
            msg.drop_first().drop_last(),
        ) + symbol_code(t, msg.drop_first().last())));
        assert(codes_concat(t, msg) =~= symbol_code(t, msg[0]) + codes_concat(
            t,
            msg.drop_first(),
        ));
    }
}

/// The whole payload is shorter than the leaf count times the message
/// length plus one: each of its codewords is.
pub proof fn lemma_payload_len(t: Tree, msg: Seq<u8>)
    requires
        encodable(t, msg),
    ensures
        payload_bits(t, msg).len() <= (leaves(t).len() - 1) * (msg.len() + 1),
{
    lemma_leaves_nonempty(t);
    lemma_codes_concat_len(t, msg);
    lemma_code_len(t, HuffmanValue::EndOfMessage);
    let ll = leaves(t).len() as int;
    let nn = msg.len() as int;
    assert((ll - 1) * nn + (ll - 1) == (ll - 1) * (nn + 1)) by (nonlinear_arith);
}

/// Decoding a stream that carries the message's codewords and then the
/// terminator codeword recovers exactly the message, whatever bits follow
/// the terminator.
pub proof fn lemma_decode_payload(t: Tree, msg: Seq<u8>, s: Seq<bool>, i: int)
    requires
        encodable(t, msg),
        bits_at(s, i, payload_bits(t, msg)),
    ensures
        decode_msg(t, s, i) == msg,
    decreases msg.len(),
{
    if msg.len() == 0 {
        assert(payload_bits(t, msg) =~= eom_code(t));
        assert(bits_at(s, i, eom_code(t)));
        lemma_descend_code(t, HuffmanValue::EndOfMessage, eom_code(t), s, i);
        assert(decode_msg(t, s, i) =~= Seq::<u8>::empty());
    } else {
        let c0 = symbol_code(t, msg[0]);
        lemma_codes_concat_first(t, msg);
        assert(payload_bits(t, msg) =~= c0 + payload_bits(t, msg.drop_first()));
        lemma_bits_at_concat(s, i, c0, payload_bits(t, msg.drop_first()));
        lemma_descend_code(t, HuffmanValue::Symbol(msg[0]), c0, s, i);
        lemma_code_len(t, HuffmanValue::Symbol(msg[0]));
        let j = i + c0.len();
        assert forall|k: int|
            0 <= k < msg.drop_first().len() implies code_of(
            t,
            HuffmanValue::Symbol(msg.drop_first()[k]),
        ) is Some by {
            assert(msg.drop_first()[k] == msg[k + 1]);
        }
        lemma_decode_payload(t, msg.drop_first(), s, j);
        assert(decode_msg(t, s, i) == seq![msg[0]] + decode_msg(t, s, j));
        assert(seq![msg[0]] + msg.drop_first() =~= msg);
    }
}

/// Descending reads only the bits at and after the cursor.
proof fn lemma_descend_offset(t: Tree, s1: Seq<bool>, i1: int, s2: Seq<bool>, i2: int)
    requires
        0 <= i1 <= s1.len(),
        0 <= i2 <= s2.len(),
        s1.len() - i1 == s2.len() - i2,
        forall|m: int| 0 <= m < s1.len() - i1 ==> #[trigger] s1[i1 + m] == s2[i2 + m],
    ensures
        descend(t, s1, i1) is Some <==> descend(t, s2, i2) is Some,
        descend(t, s1, i1) is Some ==> {
            &&& descend(t, s1, i1).unwrap().0 == descend(t, s2, i2).unwrap().0
            &&& descend(t, s1, i1).unwrap().1 - i1 == descend(t, s2, i2).unwrap().1 - i2
        },
    decreases t,
{
    match t {
        Tree::Leaf(_) => {},
        Tree::Inner(l, r) => {
            if i1 < s1.len() {
                assert(s1[i1 + 0] == s2[i2 + 0]);
                assert forall|m: int|
                    0 <= m < s1.len() - (i1 + 1) implies #[trigger] s1[i1 + 1 + m] == s2[i2 + 1
                    + m] by {
                    assert(s1[i1 + (1 + m)] == s2[i2 + (1 + m)]);
                }
                if s1[i1] {
                    lemma_descend_offset(*r, s1, i1 + 1, s2, i2 + 1);
                } else {
                    lemma_descend_offset(*l, s1, i1 + 1, s2, i2 + 1);
                }
            }
        },
    }
}

/// Decoding codewords followed by bits that do not complete any codeword
/// yields exactly the encoded symbols, with the trailing bits ignored.
proof fn lemma_decode_truncated_at(t: Tree, msg: Seq<u8>, s: Seq<bool>, i: int, extra: Seq<bool>)
    requires
        encodable(t, msg),
        bits_at(s, i, codes_concat(t, msg)),
        i + codes_concat(t, msg).len() + extra.len() == s.len(),
        forall|m: int|
            0 <= m < extra.len() ==> s[i + codes_concat(t, msg).len() + m] == extra[m],
        descend(t, extra, 0) is None,
    ensures
        decode_msg(t, s, i) == msg,
    decreases msg.len(),
{
    if msg.len() == 0 {
        assert(codes_concat(t, msg).len() == 0);
        lemma_descend_offset(t, s, i, extra, 0);
        assert(decode_msg(t, s, i) =~= Seq::<u8>::empty());
    } else {
        let c0 = symbol_code(t, msg[0]);
        lemma_codes_concat_first(t, msg);
        assert(codes_concat(t, msg) =~= c0 + codes_concat(t, msg.drop_first()));
        lemma_bits_at_concat(s, i, c0, codes_concat(t, msg.drop_first()));
        lemma_descend_code(t, HuffmanValue::Symbol(msg[0]), c0, s, i);
        lemma_code_len(t, HuffmanValue::Symbol(msg[0]));
        let j = i + c0.len();
        assert forall|k: int|
            0 <= k < msg.drop_first().len() implies code_of(
            t,
            HuffmanValue::Symbol(msg.drop_first()[k]),
        ) is Some by {
            assert(msg.drop_first()[k] == msg[k + 1]);
        }
        assert(forall|m: int|
            0 <= m < extra.len() ==> s[j + codes_concat(t, msg.drop_first()).len() + m]
                == extra[m]);
        lemma_decode_truncated_at(t, msg.drop_first(), s, j, extra);
        assert(decode_msg(t, s, i) == seq![msg[0]] + decode_msg(t, s, j));
        assert(seq![msg[0]] + msg.drop_first() =~= msg);
    }
}

/// Decoding stops at the first end-of-message leaf reached: whatever
/// trailing bits follow the terminator codeword, of any value, the decoded
/// message is the same.
pub proof fn lemma_padding_safe(t: Tree, msg: Seq<u8>, pad1: Seq<bool>, pad2: Seq<bool>)
    requires
        encodable(t, msg),
    ensures
        decode_msg(t, payload_bits(t, msg) + pad1, 0) == msg,
        decode_msg(t, payload_bits(t, msg) + pad2, 0) == msg,
{
    assert(bits_at(payload_bits(t, msg) + pad1, 0, payload_bits(t, msg)));
    lemma_decode_payload(t, msg, payload_bits(t, msg) + pad1, 0);
    assert(bits_at(payload_bits(t, msg) + pad2, 0, payload_bits(t, msg)));
    lemma_decode_payload(t, msg, payload_bits(t, msg) + pad2, 0);
}

/// With the terminator missing — the codewords followed only by bits that
/// complete no codeword — the decoder returns exactly the symbols already
/// decoded, without error.
pub proof fn lemma_truncated_payload(t: Tree, msg: Seq<u8>, extra: Seq<bool>)
    requires
        encodable(t, msg),
        descend(t, extra, 0) is None,
    ensures
        decode_msg(t, codes_concat(t, msg) + extra, 0) == msg,
{
    let s = codes_concat(t, msg) + extra;
    assert(bits_at(s, 0, codes_concat(t, msg)));
    lemma_decode_truncated_at(t, msg, s, 0, extra);
}

impl Node {
    /// The compressed payload: one codeword per input byte in input order,
    /// then the terminator codeword.
    pub(crate) fn encode(&self, bytes: &[u8]) -> (r: Bits)
        requires
            encodable(self@, bytes@),
            leaves(self@).len() * (bytes@.len() + 1) <= max_bits(),
        ensures
            bit_seq(r) == payload_bits(self@, bytes@),
    {
        let ghost t = self@;
        proof {
            lemma_leaves_nonempty(t);
            assert(leaves(t).len() <= leaves(t).len() * (bytes@.len() + 1))
                by (nonlinear_arith)
                requires
                    leaves(t).len() >= 1,
                    bytes@.len() >= 0,
            ;
        }
        let mut codes: Vec<Option<Bits>> = Vec::new();
        let mut q: usize = 0;
        while q < 256
            invariant
                q <= 256,
                codes@.len() == q,
                forall|v: int| 0 <= v < q ==> codes@[v] is None,
            decreases 256 - q,
        {
            codes.push(None);
            q += 1;
        }
        let mut eom: Option<Bits> = None;
        let mut path = bits_new();
        build_codebook(self, &mut path, &mut codes, &mut eom);
        proof {
            assert forall|v: int| 0 <= v < 256 implies opt_code(#[trigger] codes@[v]) == (
            match code_of(t, HuffmanValue::Symbol(v as u8)) {
                Some(p) => Some(p),
                None => None,
            }) by {
                if code_of(t, HuffmanValue::Symbol(v as u8)) is Some {
                    assert(Seq::<bool>::empty() + code_of(
                        t,
                        HuffmanValue::Symbol(v as u8),
                    ).unwrap() =~= code_of(t, HuffmanValue::Symbol(v as u8)).unwrap());
                }
            }
            assert(Seq::<bool>::empty() + eom_code(t) =~= eom_code(t));
        }
        let mut out = bits_new();
        let n = bytes.len();
        let ghost ll = leaves(t).len() as int;
        let mut k: usize = 0;
        while k < n
            invariant
                n == bytes@.len(),
                k <= n,
                encodable(t, bytes@),
                ll == leaves(t).len(),
                ll >= 1,
                ll * (n + 1) <= max_bits(),
                codes@.len() == 256,
                forall|v: int|
                    0 <= v < 256 ==> opt_code(#[trigger] codes@[v]) == (match code_of(
                        t,
                        HuffmanValue::Symbol(v as u8),
                    ) {
                        Some(p) => Some(p),
                        None => None,
                    }),
                opt_code(eom) == Some(eom_code(t)),
                bit_seq(out) == codes_concat(t, bytes@.take(k as int)),
            decreases n - k,
        {
            let b = bytes[k];
            proof {
                assert(forall|m: int|
                    0 <= m < k ==> bytes@.take(k as int)[m] == bytes@[m]);
                lemma_codes_concat_len(t, bytes@.take(k as int));
                lemma_code_len(t, HuffmanValue::Symbol(b));
                assert((ll - 1) * (k as int) + (ll - 1) <= ll * (n + 1))
                    by (nonlinear_arith)
                    requires
                        0 <= k < n,
                        ll >= 1,
                ;
                assert(opt_code(codes@[b as int]) == Some(symbol_code(t, b)));
            }
            match &codes[b as usize] {
                Some(c) => {
                    bits_extend(&mut out, c);
                },
                None => {
                    proof {
                        assert(false);
                    }
                },
            }
            proof {
                lemma_codes_concat_snoc(t, bytes@, k as int);
            }
            k += 1;
        }
        proof {
            assert(bytes@.take(n as int) =~= bytes@);
            lemma_codes_concat_len(t, bytes@);
            lemma_code_len(t, HuffmanValue::EndOfMessage);
            assert((ll - 1) * (n as int) + (ll - 1) <= ll * (n + 1))
                by (nonlinear_arith)
                requires
                    0 <= n,
                    ll >= 1,
            ;
        }
        match &eom {
            Some(c) => {
                bits_extend(&mut out, c);
            },
            None => {
                proof {
                    assert(false);
                }
            },
        }
        out
    }
}

/// One codeword step: walks from `n` along the bits from `i` to the first
/// leaf, handing back its value and the position after the bits read.
fn walk(n: &Node, bits: &Bits, i: usize) -> (r: Option<(HuffmanValue, usize)>)
    requires
        i <= bit_seq(*bits).len(),
        bit_seq(*bits).len() <= usize::MAX,
    ensures
        (r matches Some((v, j)) ==> descend(n@, bit_seq(*bits), i as int) == Some((
            v,
            j as int,
        )) && i <= j <= bit_seq(*bits).len()),
        r is None ==> descend(n@, bit_seq(*bits), i as int) is None,
    decreases *n,
{
    match n {
        Node::Leaf { value, .. } => Some((*value, i)),
        Node::Inner { left, right, .. } => {
            let len = bits_len(bits);
            if i < len {
                if bits_get(bits, i) {
                    walk(&**right, bits, i + 1)
                } else {
                    walk(&**left, bits, i + 1)
                }
            } else {
                None
            }
        },
    }
}

impl Node {
    /// Walks the tree from `start`, one codeword at a time: a symbol leaf
    /// appends its byte and restarts at the root; the end-of-message leaf
    /// stops decoding; running out of bits returns what was decoded so far.
    pub(crate) fn decode(&self, bits: &Bits, start: usize) -> (r: Vec<u8>)
        requires
            is_inner(self@),
            start <= bit_seq(*bits).len(),
        ensures
            r@ == decode_msg(self@, bit_seq(*bits), start as int),
    {
        let ghost s = bit_seq(*bits);
        let ghost t = self@;
        let _len = bits_len(bits);
        let mut ret: Vec<u8> = Vec::new();
        let mut i = start;
        loop
            invariant
                is_inner(t),
                t == self@,
                s == bit_seq(*bits),
                i <= s.len(),
                s.len() <= usize::MAX,
                decode_msg(t, s, start as int) == ret@ + decode_msg(t, s, i as int),
            decreases s.len() - i,
        {
            match walk(self, bits, i) {
                None => {
                    proof {
                        assert(decode_msg(t, s, i as int) =~= Seq::<u8>::empty());
                        assert(ret@ + decode_msg(t, s, i as int) =~= ret@);
                    }
                    return ret;
                },
                Some((v, j)) => {
                    match v {
                        HuffmanValue::EndOfMessage => {
                            proof {
                                assert(decode_msg(t, s, i as int) =~= Seq::<u8>::empty());
                                assert(ret@ + decode_msg(t, s, i as int) =~= ret@);
                            }
                            return ret;
                        },
                        HuffmanValue::Symbol(b) => {
                            proof {
                                lemma_descend_bounds(t, s, i as int);
                                assert(decode_msg(t, s, i as int) == seq![b] + decode_msg(
                                    t,
                                    s,
                                    j as int,
                                ));
                                assert(ret@ + (seq![b] + decode_msg(t, s, j as int)) =~= (ret@
                                    + seq![b]) + decode_msg(t, s, j as int));
                                assert(ret@.push(b) =~= ret@ + seq![b]);
                            }
                            ret.push(b);
                            i = j;
                        },
                    }
                },
            }
        }
    }
}

} // verus!
