//! The code table derived from a Huffman tree, and the encode and decode transforms.
use super::tree::{
    entries_multiset, has_entry, lemma_entries_multiset_has_entry, lemma_lower_count_not_shallower,
    lemma_subtree_leaf_counted, subtree, HuffmanTree,
};
use super::HuffmanError;
use crate::bits::{bits_len, bits_of, bits_valid, copy_bits, extend_bits, get_bit, new_bits, push_bit};
use crate::token::Token;
use bit_vec::BitVec;
use vstd::prelude::*;

verus! {

/// The codes of the leaves below `t`, left to right, where the path to `t` is `p`.
pub open spec fn codes_at<T: View>(t: HuffmanTree<T>, p: Seq<bool>) -> Seq<(T::V, Seq<bool>)>
    decreases t,
{
    match t {
        HuffmanTree::Leaf { token, .. } => seq![(token@, p)],
        HuffmanTree::InternalNode { left, right, .. } => codes_at(*left, p.push(false)) + codes_at(
            *right,
            p.push(true),
        ),
    }
}

/// The code table of a tree: each leaf's root-to-leaf path, `false` for left and
/// `true` for right; a tree that is a single leaf gives its token the code `[false]`.
pub open spec fn tree_codes<T: View>(t: HuffmanTree<T>) -> Seq<(T::V, Seq<bool>)> {
    match t {
        HuffmanTree::Leaf { token, .. } => seq![(token@, seq![false])],
        HuffmanTree::InternalNode { .. } => codes_at(t, Seq::empty()),
    }
}

/// No code of the table is a prefix of another entry's code.
pub open spec fn prefix_free<V>(table: Seq<(V, Seq<bool>)>) -> bool {
    forall|i: int, j: int|
        0 <= i < table.len() && 0 <= j < table.len() && i != j ==> !(#[trigger] table[i].1).is_prefix_of(
            #[trigger] table[j].1,
        )
}

/// Every code of the table holds at least one bit.
pub open spec fn codes_nonempty<V>(table: Seq<(V, Seq<bool>)>) -> bool {
    forall|i: int| 0 <= i < table.len() ==> (#[trigger] table[i].1).len() > 0
}

/// The code of the first entry for token `v`.
pub open spec fn lookup_code<V>(table: Seq<(V, Seq<bool>)>, v: V) -> Option<Seq<bool>>
    decreases table.len(),
{
    if table.len() == 0 {
        None
    } else if table[0].0 == v {
        Some(table[0].1)
    } else {
        lookup_code(table.drop_first(), v)
    }
}

/// The token of the first entry whose code is `c`.
pub open spec fn lookup_token<V>(table: Seq<(Seq<bool>, V)>, c: Seq<bool>) -> Option<V>
    decreases table.len(),
{
    if table.len() == 0 {
        None
    } else if table[0].0 == c {
        Some(table[0].1)
    } else {
        lookup_token(table.drop_first(), c)
    }
}

/// The codes of the tokens, one after another; `None` when a token has no code.
pub open spec fn encode_tokens<V>(table: Seq<(V, Seq<bool>)>, ts: Seq<V>) -> Option<Seq<bool>>
    decreases ts.len(),
{
    if ts.len() == 0 {
        Some(Seq::empty())
    } else {
        match (lookup_code(table, ts[0]), encode_tokens(table, ts.drop_first())) {
            (Some(c), Some(rest)) => Some(c + rest),
            _ => None,
        }
    }
}

/// The number of bits that the known tokens of `ts` take.
pub open spec fn encoded_len<V>(table: Seq<(V, Seq<bool>)>, ts: Seq<V>) -> int
    decreases ts.len(),
{
    if ts.len() == 0 {
        0
    } else {
        (match lookup_code(table, ts[0]) {
            Some(c) => c.len() as int,
            None => 0,
        }) + encoded_len(table, ts.drop_first())
    }
}

/// Left-to-right decoding: bits join the candidate one at a time, and a
/// candidate that is a code in the table gives its token and starts afresh.
/// `None` when the bits end inside a candidate.
pub open spec fn decode_from<V>(table: Seq<(Seq<bool>, V)>, bits: Seq<bool>, cand: Seq<bool>) -> Option<Seq<V>>
    decreases bits.len(),
{
    if bits.len() == 0 {
        if cand.len() == 0 {
            Some(Seq::empty())
        } else {
            None
        }
    } else {
        let c = cand.push(bits[0]);
        match lookup_token(table, c) {
            Some(v) => match decode_from(table, bits.drop_first(), Seq::empty()) {
                Some(rest) => Some(seq![v] + rest),
                None => None,
            },
            None => decode_from(table, bits.drop_first(), c),
        }
    }
}

/// The tokens that a bit sequence decodes to under the table.
pub open spec fn decode_bits<V>(table: Seq<(Seq<bool>, V)>, bits: Seq<bool>) -> Option<Seq<V>> {
    decode_from(table, bits, Seq::empty())
}

/// The views of a sequence of tokens.
pub open spec fn views<T: View>(s: Seq<T>) -> Seq<T::V> {
    s.map_values(|t: T| t@)
}

/// A decode map as (code, token view) pairs.
pub open spec fn decode_table<T: View>(d: Seq<(BitVec<u32>, T)>) -> Seq<(Seq<bool>, T::V)> {
    d.map_values(|e: (BitVec<u32>, T)| (bits_of(e.0), e.1@))
}

/// An encode map as (token view, code) pairs.
pub open spec fn encode_table<T: View>(e: Seq<(T, BitVec<u32>)>) -> Seq<(T::V, Seq<bool>)> {
    e.map_values(|x: (T, BitVec<u32>)| (x.0@, bits_of(x.1)))
}

/// The decode map that holds the entries of an encode map, each turned round.
pub open spec fn inverse_table<V>(table: Seq<(V, Seq<bool>)>) -> Seq<(Seq<bool>, V)> {
    table.map_values(|x: (V, Seq<bool>)| (x.1, x.0))
}

/// Every code of an encode map keeps `BitVec`'s representation rules.
pub open spec fn codes_valid<T>(e: Seq<(T, BitVec<u32>)>) -> bool {
    forall|k: int| 0 <= k < e.len() ==> bits_valid((#[trigger] e[k]).1)
}

/// Every code of a decode map keeps `BitVec`'s representation rules.
pub open spec fn keys_valid<T>(d: Seq<(BitVec<u32>, T)>) -> bool {
    forall|k: int| 0 <= k < d.len() ==> bits_valid((#[trigger] d[k]).0)
}

/// The two maps of a code table: token to code, and code to token.
pub struct HuffmanEncoder<T> {
    pub encoder: Vec<(T, BitVec<u32>)>,
    pub decoder: Vec<(BitVec<u32>, T)>,
}

impl<T: View> HuffmanEncoder<T> {
    /// The token-to-code entries.
    pub open spec fn table(self) -> Seq<(T::V, Seq<bool>)> {
        encode_table(self.encoder@)
    }

    /// The code-to-token entries.
    pub open spec fn inverse(self) -> Seq<(Seq<bool>, T::V)> {
        decode_table(self.decoder@)
    }

    /// The decode map is the encode map turned round, and the codes are
    /// non-empty and prefix-free.
    pub open spec fn well_formed(self) -> bool {
        &&& self.inverse() == inverse_table(self.table())
        &&& prefix_free(self.table())
        &&& codes_nonempty(self.table())
    }
}

/// Every code below `t` extends the path `p`, by at least one bit when `t` is internal.
proof fn lemma_codes_extend<T: View>(t: HuffmanTree<T>, p: Seq<bool>)
    ensures
        forall|k: int|
            0 <= k < codes_at(t, p).len() ==> {
                &&& p.is_prefix_of(#[trigger] codes_at(t, p)[k].1)
                &&& (t is InternalNode ==> codes_at(t, p)[k].1.len() > p.len())
            },
    decreases t,
{
    if let HuffmanTree::InternalNode { left, right, .. } = t {
        let pl = p.push(false);
        let pr = p.push(true);
        lemma_codes_extend(*left, pl);
        lemma_codes_extend(*right, pr);
        let l = codes_at(*left, pl);
        let r = codes_at(*right, pr);
        assert forall|k: int| 0 <= k < codes_at(t, p).len() implies {
            &&& p.is_prefix_of(#[trigger] codes_at(t, p)[k].1)
            &&& codes_at(t, p)[k].1.len() > p.len()
        } by {
            let c = codes_at(t, p)[k].1;
            if k < l.len() {
                assert(c == l[k].1);
                assert(pl.is_prefix_of(c));
                assert(c.subrange(0, p.len() as int) =~= pl.subrange(0, p.len() as int));
            } else {
                assert(c == r[k - l.len()].1);
                assert(pr.is_prefix_of(c));
                assert(c.subrange(0, p.len() as int) =~= pr.subrange(0, p.len() as int));
            }
        }
    }
}

/// The codes below any node are prefix-free.
proof fn lemma_codes_prefix_free<T: View>(t: HuffmanTree<T>, p: Seq<bool>)
    ensures
        prefix_free(codes_at(t, p)),
    decreases t,
{
    if let HuffmanTree::InternalNode { left, right, .. } = t {
        let pl = p.push(false);
        let pr = p.push(true);
        lemma_codes_prefix_free(*left, pl);
        lemma_codes_prefix_free(*right, pr);
        lemma_codes_extend(*left, pl);
        lemma_codes_extend(*right, pr);
        let l = codes_at(*left, pl);
        let r = codes_at(*right, pr);
        let all = codes_at(t, p);
        assert(all == l + r);
        assert forall|i: int, j: int|
            0 <= i < all.len() && 0 <= j < all.len() && i != j implies !(#[trigger] all[i].1).is_prefix_of(
            #[trigger] all[j].1,
        ) by {
            let n = p.len() as int;
            if i < l.len() && j < l.len() {
                assert(all[i] == l[i] && all[j] == l[j]);
            } else if i >= l.len() && j >= l.len() {
                assert(all[i] == r[i - l.len()] && all[j] == r[j - l.len()]);
            } else if i < l.len() {
                assert(all[i] == l[i] && all[j] == r[j - l.len()]);
                assert(pl.is_prefix_of(all[i].1));
                assert(pr.is_prefix_of(all[j].1));
                assert(all[i].1[n] == pl[n]);
                assert(all[j].1[n] == pr[n]);
                if all[i].1.is_prefix_of(all[j].1) {
                    assert(all[j].1.subrange(0, all[i].1.len() as int)[n] == all[j].1[n]);
                }
            } else {
                assert(all[i] == r[i - l.len()] && all[j] == l[j]);
                assert(pr.is_prefix_of(all[i].1));
                assert(pl.is_prefix_of(all[j].1));
                assert(all[i].1[n] == pr[n]);
                assert(all[j].1[n] == pl[n]);
                if all[i].1.is_prefix_of(all[j].1) {
                    assert(all[j].1.subrange(0, all[i].1.len() as int)[n] == all[j].1[n]);
                }
            }
        }
    }
}

/// The code table of any tree is prefix-free, and each of its codes holds at least one bit.
pub proof fn lemma_tree_codes_prefix_free<T: View>(t: HuffmanTree<T>)
    ensures
        prefix_free(tree_codes(t)),
        codes_nonempty(tree_codes(t)),
{
    if t is InternalNode {
        lemma_codes_prefix_free(t, Seq::empty());
        lemma_codes_extend(t, Seq::empty());
    }
}

impl<T: Token> HuffmanEncoder<T> {
    /// Derives the code table from a tree, walking it depth first, left before right.
    pub fn from_huffman_tree(tree: Box<HuffmanTree<T>>) -> (r: Self)
        requires
            tree.height() < usize::MAX,
        ensures
            r.table() == tree_codes(*tree),
            r.well_formed(),
            codes_valid(r.encoder@),
            keys_valid(r.decoder@),
    {
        let ghost t = *tree;
        let mut encoder: Vec<(T, BitVec<u32>)> = Vec::new();
        let mut decoder: Vec<(BitVec<u32>, T)> = Vec::new();
        proof {
            assert(encode_table(encoder@) =~= Seq::empty());
            assert(decode_table(decoder@) =~= inverse_table(encode_table(encoder@)));
        }
        match *tree {
            HuffmanTree::Leaf { token, .. } => {
                let mut code = new_bits();
                push_bit(&mut code, false);
                decoder.push((copy_bits(&code), token.duplicate()));
                encoder.push((token, code));
                proof {
                    assert(bits_of(code) =~= seq![false]);
                    assert(encode_table(encoder@) =~= tree_codes(t));
                    assert(decode_table(decoder@) =~= inverse_table(encode_table(encoder@)));
                }
            },
            HuffmanTree::InternalNode { left, right, .. } => {
                let mut left_encoding = new_bits();
                push_bit(&mut left_encoding, false);
                let mut right_encoding = new_bits();
                push_bit(&mut right_encoding, true);
                proof {
                    assert(bits_of(left_encoding) =~= Seq::<bool>::empty().push(false));
                    assert(bits_of(right_encoding) =~= Seq::<bool>::empty().push(true));
                }
                Self::get_encoding_from_node(left, left_encoding, &mut encoder, &mut decoder);
                Self::get_encoding_from_node(right, right_encoding, &mut encoder, &mut decoder);
                proof {
                    assert(encode_table(encoder@) =~= tree_codes(t));
                }
            },
        }
        proof {
            lemma_tree_codes_prefix_free(t);
        }
        HuffmanEncoder { encoder, decoder }
    }

    fn get_encoding_from_node(
        current_node: Box<HuffmanTree<T>>,
        encoding: BitVec<u32>,
        encoder: &mut Vec<(T, BitVec<u32>)>,
        decoder: &mut Vec<(BitVec<u32>, T)>,
    )
        requires
            bits_of(encoding).len() + current_node.height() < usize::MAX,
            decode_table(old(decoder)@) == inverse_table(encode_table(old(encoder)@)),
            bits_valid(encoding),
            codes_valid(old(encoder)@),
            keys_valid(old(decoder)@),
        ensures
            codes_valid(final(encoder)@),
            keys_valid(final(decoder)@),
            encode_table(final(encoder)@) == encode_table(old(encoder)@) + codes_at(
                *current_node,
                bits_of(encoding),
            ),
            decode_table(final(decoder)@) == inverse_table(encode_table(final(encoder)@)),
        decreases current_node,
    {
        let ghost t = *current_node;
        let ghost e0 = encoder@;
        let ghost d0 = decoder@;
        match *current_node {
            HuffmanTree::Leaf { token, .. } => {
                decoder.push((copy_bits(&encoding), token.duplicate()));
                encoder.push((token, encoding));
                proof {
                    assert(encode_table(encoder@) =~= encode_table(e0) + codes_at(t, bits_of(encoding)));
                    assert(decode_table(decoder@) =~= decode_table(d0).push((bits_of(encoding), token@)));
                    assert(decode_table(decoder@) =~= inverse_table(encode_table(encoder@)));
                }
            },
            HuffmanTree::InternalNode { left, right, .. } => {
                let mut left_encoding = copy_bits(&encoding);
                push_bit(&mut left_encoding, false);
                let mut right_encoding = encoding;
                push_bit(&mut right_encoding, true);
                let ghost e1 = encoder@;
                Self::get_encoding_from_node(left, left_encoding, encoder, decoder);
                let ghost e2 = encoder@;
                Self::get_encoding_from_node(right, right_encoding, encoder, decoder);
                proof {
                    assert(encode_table(encoder@) =~= encode_table(e0) + codes_at(t, bits_of(encoding)));
                }
            },
        }
    }
}

proof fn lemma_lookup_code_at<V>(table: Seq<(V, Seq<bool>)>, v: V, i: int)
    requires
        0 <= i <= table.len(),
        forall|k: int| 0 <= k < i ==> (#[trigger] table[k]).0 != v,
        i < table.len() ==> table[i].0 == v,
    ensures
        lookup_code(table, v) == if i < table.len() {
            Some(table[i].1)
        } else {
            None
        },
    decreases table.len(),
{
    if table.len() > 0 && i > 0 {
        assert(table[0].0 != v);
        assert forall|k: int| 0 <= k < i - 1 implies (#[trigger] table.drop_first()[k]).0 != v by {
            assert(table.drop_first()[k] == table[k + 1]);
        }
        lemma_lookup_code_at(table.drop_first(), v, i - 1);
    }
}

proof fn lemma_lookup_token_at<V>(table: Seq<(Seq<bool>, V)>, c: Seq<bool>, i: int)
    requires
        0 <= i <= table.len(),
        forall|k: int| 0 <= k < i ==> (#[trigger] table[k]).0 != c,
        i < table.len() ==> table[i].0 == c,
    ensures
        lookup_token(table, c) == if i < table.len() {
            Some(table[i].1)
        } else {
            None
        },
    decreases table.len(),
{
    if table.len() > 0 && i > 0 {
        assert(table[0].0 != c);
        assert forall|k: int| 0 <= k < i - 1 implies (#[trigger] table.drop_first()[k]).0 != c by {
            assert(table.drop_first()[k] == table[k + 1]);
        }
        lemma_lookup_token_at(table.drop_first(), c, i - 1);
    }
}

/// A found code is the code of an entry for the token.
proof fn lemma_lookup_code_entry<V>(table: Seq<(V, Seq<bool>)>, v: V) -> (i: int)
    requires
        lookup_code(table, v) is Some,
    ensures
        0 <= i < table.len(),
        table[i].0 == v,
        table[i].1 == lookup_code(table, v)->0,
    decreases table.len(),
{
    if table[0].0 == v {
        0
    } else {
        let j = lemma_lookup_code_entry(table.drop_first(), v);
        j + 1
    }
}

/// Under a prefix-free table, decoding the rest of the code of entry `i`
/// after its first `m` bits gives the entry's token and then goes on afresh.
proof fn lemma_decode_one_code<V>(table: Seq<(V, Seq<bool>)>, i: int, m: int, rest: Seq<bool>)
    requires
        prefix_free(table),
        0 <= i < table.len(),
        0 <= m < table[i].1.len(),
    ensures
        decode_from(inverse_table(table), table[i].1.skip(m) + rest, table[i].1.take(m)) == match decode_from(
            inverse_table(table),
            rest,
            Seq::empty(),
        ) {
            Some(r) => Some(seq![table[i].0] + r),
            None => None,
        },
    decreases table[i].1.len() - m,
{
    let d = inverse_table(table);
    let c = table[i].1;
    let bits = c.skip(m) + rest;
    assert(bits[0] == c[m]);
    let cand = c.take(m).push(bits[0]);
    assert(cand =~= c.take(m + 1));
    assert(bits.drop_first() =~= c.skip(m + 1) + rest);
    if m + 1 == c.len() {
        assert(cand =~= c);
        assert forall|k: int| 0 <= k < i implies (#[trigger] d[k]).0 != c by {
            if d[k].0 == c {
                assert(table[k].1 == c);
                assert(table[k].1.is_prefix_of(table[i].1));
            }
        }
        lemma_lookup_token_at(d, c, i);
        assert(c.skip(m + 1) + rest =~= rest);
    } else {
        assert forall|k: int| 0 <= k < d.len() implies (#[trigger] d[k]).0 != cand by {
            if d[k].0 == cand {
                assert(table[k].1 == cand);
                assert(table[k].1.is_prefix_of(table[i].1));
            }
        }
        lemma_lookup_token_at(d, cand, d.len() as int);
        lemma_decode_one_code(table, i, m + 1, rest);
    }
}

/// Decoding undoes encoding: under a prefix-free table of non-empty codes,
/// every sequence of tokens that all have codes encodes, and its bits decode
/// to the same tokens.
pub proof fn lemma_round_trip<V>(table: Seq<(V, Seq<bool>)>, ts: Seq<V>)
    requires
        prefix_free(table),
        codes_nonempty(table),
        forall|k: int| 0 <= k < ts.len() ==> lookup_code(table, #[trigger] ts[k]) is Some,
    ensures
        encode_tokens(table, ts) is Some,
        decode_bits(inverse_table(table), encode_tokens(table, ts)->0) == Some(ts),
    decreases ts.len(),
{
    if ts.len() == 0 {
    } else {
        let rest = ts.drop_first();
        assert forall|k: int| 0 <= k < rest.len() implies lookup_code(table, #[trigger] rest[k]) is Some by {
            assert(rest[k] == ts[k + 1]);
        }
        lemma_round_trip(table, rest);
        assert(lookup_code(table, ts[0]) is Some);
        let i = lemma_lookup_code_entry(table, ts[0]);
        let c = table[i].1;
        let rb = encode_tokens(table, rest)->0;
        lemma_decode_one_code(table, i, 0, rb);
        assert(c.skip(0) =~= c);
        assert(c.take(0) =~= Seq::<bool>::empty());
        assert(seq![ts[0]] + rest =~= ts);
    }
}

/// `bits` followed by the result of the rest, if there is one.
pub open spec fn prepend_bits(bits: Seq<bool>, rest: Option<Seq<bool>>) -> Option<Seq<bool>> {
    match rest {
        Some(r) => Some(bits + r),
        None => None,
    }
}

/// `vs` followed by the result of the rest, if there is one.
pub open spec fn prepend_tokens<V>(vs: Seq<V>, rest: Option<Seq<V>>) -> Option<Seq<V>> {
    match rest {
        Some(r) => Some(vs + r),
        None => None,
    }
}

/// Whether `key` holds the same bits as `candidate`, compared bit by bit;
/// `None` when a bit cannot be read.
fn bits_match(key: &BitVec<u32>, candidate: &BitVec<u32>) -> (r: Option<bool>)
    ensures
        r matches Some(m) ==> m == (bits_of(*key) == bits_of(*candidate)),
        bits_valid(*key) && bits_valid(*candidate) ==> r is Some,
{
    let n = bits_len(key);
    if n != bits_len(candidate) {
        return Some(false);
    }
    let mut i: usize = 0;
    while i < n
        invariant
            i <= n,
            n == bits_of(*key).len(),
            n == bits_of(*candidate).len(),
            forall|j: int| 0 <= j < i ==> bits_of(*key)[j] == bits_of(*candidate)[j],
        decreases n - i,
    {
        match (get_bit(key, i), get_bit(candidate, i)) {
            (Some(x), Some(y)) => {
                if x != y {
                    return Some(false);
                }
            },
            _ => {
                return None;
            },
        }
        i += 1;
    }
    proof {
        assert(bits_of(*key) =~= bits_of(*candidate));
    }
    Some(true)
}

/// The position of the first entry of the decode map whose code is
/// `candidate`; `None` when a code of the map cannot be read.
fn find_token<T: Token>(decoder: &Vec<(BitVec<u32>, T)>, candidate: &BitVec<u32>) -> (r: Option<Option<usize>>)
    ensures
        match r {
            Some(Some(k)) => k < decoder@.len() && lookup_token(decode_table(decoder@), bits_of(*candidate))
                == Some(decode_table(decoder@)[k as int].1),
            Some(None) => lookup_token(decode_table(decoder@), bits_of(*candidate)) is None,
            None => true,
        },
        keys_valid(decoder@) && bits_valid(*candidate) ==> r is Some,
{
    let ghost d = decode_table(decoder@);
    let mut i: usize = 0;
    while i < decoder.len()
        invariant
            i <= decoder@.len(),
            d == decode_table(decoder@),
            forall|k: int| 0 <= k < i ==> (#[trigger] d[k]).0 != bits_of(*candidate),
        decreases decoder@.len() - i,
    {
        match bits_match(&decoder[i].0, candidate) {
            Some(true) => {
                proof {
                    lemma_lookup_token_at(d, bits_of(*candidate), i as int);
                }
                return Some(Some(i));
            },
            Some(false) => {},
            None => {
                return None;
            },
        }
        i += 1;
    }
    proof {
        lemma_lookup_token_at(d, bits_of(*candidate), d.len() as int);
    }
    Some(None)
}

impl<T: Token> HuffmanEncoder<T> {
    /// The position of the first entry of the encode map for `token`.
    fn find_code(&self, token: &T) -> (r: Option<usize>)
        ensures
            match r {
                Some(k) => k < self.encoder@.len() && lookup_code(self.table(), token@) == Some(
                    self.table()[k as int].1,
                ),
                None => lookup_code(self.table(), token@) is None,
            },
    {
        let ghost t = self.table();
        let mut i: usize = 0;
        while i < self.encoder.len()
            invariant
                i <= self.encoder@.len(),
                t == self.table(),
                forall|k: int| 0 <= k < i ==> (#[trigger] t[k]).0 != token@,
            decreases self.encoder@.len() - i,
        {
            if self.encoder[i].0.same_token(token) {
                proof {
                    lemma_lookup_code_at(t, token@, i as int);
                }
                return Some(i);
            }
            i += 1;
        }
        proof {
            lemma_lookup_code_at(t, token@, t.len() as int);
        }
        None
    }

    /// The code of `token`, if the table has one.
    pub fn code_of(&self, token: &T) -> (r: Option<BitVec<u32>>)
        ensures
            match r {
                Some(b) => lookup_code(self.table(), token@) == Some(bits_of(b)),
                None => lookup_code(self.table(), token@) is None,
            },
    {
        match self.find_code(token) {
            Some(k) => Some(copy_bits(&self.encoder[k].1)),
            None => None,
        }
    }

    /// The token whose code is `code`, if the table has one and its codes
    /// can be read.
    pub fn token_of(&self, code: &BitVec<u32>) -> (r: Option<T>)
        ensures
            r matches Some(t) ==> lookup_token(self.inverse(), bits_of(*code)) == Some(t@),
            r is None && keys_valid(self.decoder@) && bits_valid(*code) ==> lookup_token(
                self.inverse(),
                bits_of(*code),
            ) is None,
    {
        match find_token(&self.decoder, code) {
            Some(Some(k)) => Some(self.decoder[k].1.duplicate()),
            _ => None,
        }
    }

    /// Encodes one segment of tokens: their codes, one after another.
    /// Fails with `UnknownToken` when a token has no code.
    pub fn encode_segment(&self, tokens: &Vec<T>) -> (r: Result<BitVec<u32>, HuffmanError>)
        requires
            codes_valid(self.encoder@),
            encoded_len(self.table(), views(tokens@)) <= usize::MAX,
        ensures
            match r {
                Ok(b) => encode_tokens(self.table(), views(tokens@)) == Some(bits_of(b)) && bits_valid(b),
                Err(e) => e == HuffmanError::UnknownToken && encode_tokens(
                    self.table(),
                    views(tokens@),
                ) is None,
            },
    {
        let ghost table = self.table();
        let ghost vs = views(tokens@);
        let mut out = new_bits();
        let mut i: usize = 0;
        proof {
            assert(vs.skip(0) =~= vs);
        }
        while i < tokens.len()
            invariant
                bits_valid(out),
                codes_valid(self.encoder@),
                i <= tokens@.len(),
                table == self.table(),
                vs == views(tokens@),
                encode_tokens(table, vs) == prepend_bits(bits_of(out), encode_tokens(table, vs.skip(i as int))),
                bits_of(out).len() + encoded_len(table, vs.skip(i as int)) == encoded_len(table, vs),
                encoded_len(table, vs) <= usize::MAX,
            decreases tokens@.len() - i,
        {
            let ghost s = vs.skip(i as int);
            proof {
                assert(s[0] == tokens@[i as int]@);
                assert(s.drop_first() =~= vs.skip(i + 1));
            }
            match self.find_code(&tokens[i]) {
                None => {
                    return Err(HuffmanError::UnknownToken);
                },
                Some(k) => {
                    let ghost before = bits_of(out);
                    proof {
                        lemma_encoded_len_nonneg(table, vs.skip(i + 1));
                    }
                    extend_bits(&mut out, &self.encoder[k].1);
                    proof {
                        match encode_tokens(table, vs.skip(i + 1)) {
                            Some(r) => {
                                assert(before + (table[k as int].1 + r) =~= bits_of(out) + r);
                            },
                            None => {},
                        }
                    }
                },
            }
            i += 1;
        }
        proof {
            assert(vs.skip(i as int) =~= Seq::<T::V>::empty());
            assert(bits_of(out) + Seq::<bool>::empty() =~= bits_of(out));
        }
        Ok(out)
    }

    /// Encodes each segment on its own, keeping their order. Fails with
    /// `UnknownToken` when a token of any segment has no code.
    pub fn encode(&self, input: &Vec<Vec<T>>) -> (r: Result<Vec<BitVec<u32>>, HuffmanError>)
        requires
            codes_valid(self.encoder@),
            forall|i: int|
                0 <= i < input@.len() ==> encoded_len(self.table(), views(#[trigger] input@[i]@))
                    <= usize::MAX,
        ensures
            match r {
                Ok(v) => v@.len() == input@.len() && forall|i: int|
                    0 <= i < input@.len() ==> encode_tokens(self.table(), views(input@[i]@)) == Some(
                        bits_of(#[trigger] v@[i]),
                    ) && bits_valid(v@[i]),
                Err(e) => e == HuffmanError::UnknownToken && exists|i: int|
                    0 <= i < input@.len() && encode_tokens(
                        self.table(),
                        views(#[trigger] input@[i]@),
                    ) is None,
            },
    {
        let mut out: Vec<BitVec<u32>> = Vec::new();
        let mut i: usize = 0;
        while i < input.len()
            invariant
                i <= input@.len(),
                out@.len() == i,
                codes_valid(self.encoder@),
                forall|j: int|
                    0 <= j < input@.len() ==> encoded_len(self.table(), views(#[trigger] input@[j]@))
                        <= usize::MAX,
                forall|j: int|
                    0 <= j < i ==> encode_tokens(self.table(), views(input@[j]@)) == Some(
                        bits_of(#[trigger] out@[j]),
                    ) && bits_valid(out@[j]),
            decreases input@.len() - i,
        {
            match self.encode_segment(&input[i]) {
                Ok(b) => out.push(b),
                Err(e) => {
                    return Err(e);
                },
            }
            i += 1;
        }
        Ok(out)
    }

    /// Decodes one bit sequence with a decode map. Fails with
    /// `UndecodableBitstream` when the bits end inside a candidate code.
    ///
    /// It also fails with `UndecodableBitstream` when a bit of `bits` or of a
    /// code in the map cannot be read, which only a vector that breaks
    /// `BitVec`'s representation rules can cause.
    pub fn decode_segment(decoder: &Vec<(BitVec<u32>, T)>, bits: &BitVec<u32>) -> (r: Result<Vec<T>, HuffmanError>)
        ensures
            match r {
                Ok(ts) => decode_bits(decode_table(decoder@), bits_of(*bits)) == Some(views(ts@)),
                Err(e) => e == HuffmanError::UndecodableBitstream && (bits_valid(*bits) && keys_valid(
                    decoder@,
                ) ==> decode_bits(decode_table(decoder@), bits_of(*bits)) is None),
            },
    {
        let ghost d = decode_table(decoder@);
        let ghost b = bits_of(*bits);
        let n = bits_len(bits);
        let mut candidate = new_bits();
        let mut tokens: Vec<T> = Vec::new();
        let mut i: usize = 0;
        proof {
            assert(b.skip(0) =~= b);
            assert(views(tokens@) =~= Seq::<T::V>::empty());
        }
        while i < n
            invariant
                i <= n,
                n == b.len(),
                b == bits_of(*bits),
                d == decode_table(decoder@),
                bits_valid(candidate),
                bits_of(candidate).len() <= i,
                decode_bits(d, b) == prepend_tokens(views(tokens@), decode_from(d, b.skip(i as int), bits_of(candidate))),
            decreases n - i,
        {
            let ghost s = b.skip(i as int);
            let ghost cand0 = bits_of(candidate);
            let ghost toks0 = views(tokens@);
            let bit = match get_bit(bits, i) {
                Some(x) => x,
                None => {
                    return Err(HuffmanError::UndecodableBitstream);
                },
            };
            push_bit(&mut candidate, bit);
            proof {
                assert(s[0] == bit);
                assert(s.drop_first() =~= b.skip(i + 1));
            }
            match find_token(decoder, &candidate) {
                None => {
                    return Err(HuffmanError::UndecodableBitstream);
                },
                Some(Some(k)) => {
                    tokens.push(decoder[k].1.duplicate());
                    candidate = new_bits();
                    proof {
                        assert(views(tokens@) =~= toks0.push(d[k as int].1));
                        match decode_from(d, b.skip(i + 1), Seq::empty()) {
                            Some(r) => {
                                assert(toks0 + (seq![d[k as int].1] + r) =~= views(tokens@) + r);
                            },
                            None => {},
                        }
                    }
                },
                Some(None) => {},
            }
            i += 1;
        }
        proof {
            assert(b.skip(i as int) =~= Seq::<bool>::empty());
            assert(views(tokens@) + Seq::<T::V>::empty() =~= views(tokens@));
        }
        if bits_len(&candidate) == 0 {
            Ok(tokens)
        } else {
            Err(HuffmanError::UndecodableBitstream)
        }
    }

    /// Decodes each bit sequence on its own, keeping their order. Fails with
    /// `UndecodableBitstream` when any of them ends inside a candidate code,
    /// or holds a bit that cannot be read.
    pub fn decode(decoder: &Vec<(BitVec<u32>, T)>, input: &Vec<BitVec<u32>>) -> (r: Result<Vec<Vec<T>>, HuffmanError>)
        ensures
            match r {
                Ok(v) => v@.len() == input@.len() && forall|i: int|
                    0 <= i < input@.len() ==> decode_bits(decode_table(decoder@), bits_of(input@[i]))
                        == Some(views(#[trigger] v@[i]@)),
                Err(e) => e == HuffmanError::UndecodableBitstream && exists|i: int|
                    0 <= i < input@.len() && (bits_valid(#[trigger] input@[i]) && keys_valid(decoder@)
                        ==> decode_bits(decode_table(decoder@), bits_of(input@[i])) is None),
            },
    {
        let mut out: Vec<Vec<T>> = Vec::new();
        let mut i: usize = 0;
        while i < input.len()
            invariant
                i <= input@.len(),
                out@.len() == i,
                forall|j: int|
                    0 <= j < i ==> decode_bits(decode_table(decoder@), bits_of(input@[j]))
                        == Some(views(#[trigger] out@[j]@)),
            decreases input@.len() - i,
        {
            match Self::decode_segment(decoder, &input[i]) {
                Ok(ts) => out.push(ts),
                Err(e) => {
                    return Err(e);
                },
            }
            i += 1;
        }
        Ok(out)
    }
}

proof fn lemma_encoded_len_nonneg<V>(table: Seq<(V, Seq<bool>)>, ts: Seq<V>)
    ensures
        encoded_len(table, ts) >= 0,
    decreases ts.len(),
{
    if ts.len() > 0 {
        lemma_encoded_len_nonneg(table, ts.drop_first());
    }
}

/// Decoding undoes encoding for every well-formed code table and every
/// sequence of tokens that the table knows.
pub proof fn lemma_encoder_round_trip<T: View>(enc: HuffmanEncoder<T>, ts: Seq<T::V>)
    requires
        enc.well_formed(),
        forall|k: int| 0 <= k < ts.len() ==> lookup_code(enc.table(), #[trigger] ts[k]) is Some,
    ensures
        encode_tokens(enc.table(), ts) is Some,
        decode_bits(enc.inverse(), encode_tokens(enc.table(), ts)->0) == Some(ts),
{
    lemma_round_trip(enc.table(), ts);
}

/// A token has a code exactly when some entry of the table is for it.
pub proof fn lemma_lookup_code_some<V>(table: Seq<(V, Seq<bool>)>, v: V)
    ensures
        lookup_code(table, v) is Some <==> exists|k: int| 0 <= k < table.len() && (#[trigger] table[k]).0 == v,
    decreases table.len(),
{
    if table.len() > 0 {
        lemma_lookup_code_some(table.drop_first(), v);
        if lookup_code(table, v) is Some && table[0].0 != v {
            let k = choose|k: int| 0 <= k < table.len() - 1 && (#[trigger] table.drop_first()[k]).0 == v;
            assert(table[k + 1] == table.drop_first()[k]);
        }
        if exists|k: int| 0 <= k < table.len() && (#[trigger] table[k]).0 == v {
            let k = choose|k: int| 0 <= k < table.len() && (#[trigger] table[k]).0 == v;
            if k > 0 {
                assert(table.drop_first()[k - 1] == table[k]);
            }
        }
    }
}

/// No code below `t` is longer than the path to `t` and the height of `t`.
proof fn lemma_codes_len<T: View>(t: HuffmanTree<T>, p: Seq<bool>)
    ensures
        forall|k: int|
            0 <= k < codes_at(t, p).len() ==> (#[trigger] codes_at(t, p)[k]).1.len() <= p.len() + t.height(),
    decreases t,
{
    if let HuffmanTree::InternalNode { left, right, .. } = t {
        lemma_codes_len(*left, p.push(false));
        lemma_codes_len(*right, p.push(true));
        let l = codes_at(*left, p.push(false));
        let r = codes_at(*right, p.push(true));
        assert forall|k: int| 0 <= k < codes_at(t, p).len() implies (#[trigger] codes_at(t, p)[k]).1.len()
            <= p.len() + t.height() by {
            if k < l.len() {
                assert(codes_at(t, p)[k] == l[k]);
            } else {
                assert(codes_at(t, p)[k] == r[k - l.len()]);
            }
        }
    }
}

/// No code of a tree's table is longer than the tree's height, or than one bit.
pub proof fn lemma_tree_codes_len<T: View>(t: HuffmanTree<T>)
    ensures
        forall|k: int|
            0 <= k < tree_codes(t).len() ==> (#[trigger] tree_codes(t)[k]).1.len() <= 1 + t.height(),
{
    if t is InternalNode {
        lemma_codes_len(t, Seq::empty());
    }
}

/// When no code is longer than `m` bits, `n` tokens take at most `n * m` bits.
pub(crate) proof fn lemma_encoded_len_bound<V>(table: Seq<(V, Seq<bool>)>, ts: Seq<V>, m: int)
    requires
        m >= 0,
        forall|k: int| 0 <= k < table.len() ==> (#[trigger] table[k]).1.len() <= m,
    ensures
        encoded_len(table, ts) <= ts.len() * m,
    decreases ts.len(),
{
    if ts.len() > 0 {
        lemma_encoded_len_bound(table, ts.drop_first(), m);
        if lookup_code(table, ts[0]) is Some {
            let i = lemma_lookup_code_entry(table, ts[0]);
        }
        assert(ts.len() * m == (ts.len() - 1) * m + m) by (nonlinear_arith);
    }
}

/// The token views of the leaves below `t` are the tokens of its codes.
proof fn lemma_codes_tokens<T: View>(t: HuffmanTree<T>, p: Seq<bool>, v: T::V)
    ensures
        (exists|k: int| 0 <= k < codes_at(t, p).len() && (#[trigger] codes_at(t, p)[k]).0 == v)
            <==> (exists|c: u32| #[trigger] t.leaf_multiset().count((v, c)) > 0),
    decreases t,
{
    match t {
        HuffmanTree::Leaf { token, count } => {
            if token@ == v {
                assert(t.leaf_multiset().count((v, count)) > 0);
                assert(codes_at(t, p)[0].0 == v);
            }
        },
        HuffmanTree::InternalNode { left, right, .. } => {
            let l = codes_at(*left, p.push(false));
            let r = codes_at(*right, p.push(true));
            let all = codes_at(t, p);
            lemma_codes_tokens(*left, p.push(false), v);
            lemma_codes_tokens(*right, p.push(true), v);
            if exists|k: int| 0 <= k < all.len() && (#[trigger] all[k]).0 == v {
                let k = choose|k: int| 0 <= k < all.len() && (#[trigger] all[k]).0 == v;
                if k < l.len() {
                    assert(all[k] == l[k]);
                    let c = choose|c: u32| #[trigger] left.leaf_multiset().count((v, c)) > 0;
                    assert(t.leaf_multiset().count((v, c)) > 0);
                } else {
                    assert(all[k] == r[k - l.len()]);
                    let c = choose|c: u32| #[trigger] right.leaf_multiset().count((v, c)) > 0;
                    assert(t.leaf_multiset().count((v, c)) > 0);
                }
            }
            if exists|c: u32| #[trigger] t.leaf_multiset().count((v, c)) > 0 {
                let c = choose|c: u32| #[trigger] t.leaf_multiset().count((v, c)) > 0;
                if left.leaf_multiset().count((v, c)) > 0 {
                    let k = choose|k: int| 0 <= k < l.len() && (#[trigger] l[k]).0 == v;
                    assert(all[k] == l[k]);
                } else {
                    assert(right.leaf_multiset().count((v, c)) > 0);
                    let k = choose|k: int| 0 <= k < r.len() && (#[trigger] r[k]).0 == v;
                    assert(all[k + l.len()] == r[k]);
                }
            }
        },
    }
}

/// The tokens of a tree's code table are the token views of its leaves.
pub proof fn lemma_tree_codes_tokens<T: View>(t: HuffmanTree<T>, v: T::V)
    ensures
        (exists|k: int| 0 <= k < tree_codes(t).len() && (#[trigger] tree_codes(t)[k]).0 == v)
            <==> (exists|c: u32| #[trigger] t.leaf_multiset().count((v, c)) > 0),
{
    match t {
        HuffmanTree::Leaf { token, count } => {
            if token@ == v {
                assert(t.leaf_multiset().count((v, count)) > 0);
                assert(tree_codes(t)[0].0 == v);
            } else {
                assert(tree_codes(t).len() == 1 && tree_codes(t)[0].0 == token@);
                assert forall|c: u32| #[trigger] t.leaf_multiset().count((v, c)) == 0 by {
                    assert((v, c) != (token@, count));
                }
            }
        },
        HuffmanTree::InternalNode { .. } => {
            assert(tree_codes(t) == codes_at(t, Seq::empty()));
            lemma_codes_tokens(t, Seq::empty(), v);
        },
    }
}

/// A sequence of tokens encodes exactly when each of its tokens has a code.
pub proof fn lemma_encode_tokens_some<V>(table: Seq<(V, Seq<bool>)>, ts: Seq<V>)
    ensures
        encode_tokens(table, ts) is Some <==> forall|k: int|
            0 <= k < ts.len() ==> lookup_code(table, #[trigger] ts[k]) is Some,
    decreases ts.len(),
{
    if ts.len() > 0 {
        let rest = ts.drop_first();
        lemma_encode_tokens_some(table, rest);
        if forall|k: int| 0 <= k < ts.len() ==> lookup_code(table, #[trigger] ts[k]) is Some {
            assert forall|k: int| 0 <= k < rest.len() implies lookup_code(table, #[trigger] rest[k]) is Some by {
                assert(rest[k] == ts[k + 1]);
            }
        }
        if encode_tokens(table, ts) is Some {
            assert forall|k: int| 0 <= k < ts.len() implies lookup_code(table, #[trigger] ts[k]) is Some by {
                if k > 0 {
                    assert(rest[k - 1] == ts[k]);
                }
            }
        }
    }
}

proof fn lemma_codes_at_len<T: View>(t: HuffmanTree<T>, p: Seq<bool>)
    ensures
        codes_at(t, p).len() == t.num_leaves(),
    decreases t,
{
    if let HuffmanTree::InternalNode { left, right, .. } = t {
        lemma_codes_at_len(*left, p.push(false));
        lemma_codes_at_len(*right, p.push(true));
    }
}

/// A tree's code table has one entry per leaf.
pub proof fn lemma_tree_codes_count<T: View>(t: HuffmanTree<T>)
    ensures
        tree_codes(t).len() == t.num_leaves(),
{
    if t is InternalNode {
        assert(tree_codes(t) == codes_at(t, Seq::empty()));
        lemma_codes_at_len(t, Seq::empty());
    }
}

proof fn lemma_decode_inside_code<V>(table: Seq<(V, Seq<bool>)>, i: int, j: int, m: int)
    requires
        prefix_free(table),
        0 <= i < table.len(),
        0 <= j <= m < table[i].1.len(),
        0 < m,
    ensures
        decode_from(inverse_table(table), table[i].1.take(m).skip(j), table[i].1.take(j)) is None,
    decreases m - j,
{
    let d = inverse_table(table);
    let c = table[i].1;
    let bits = c.take(m).skip(j);
    if j < m {
        assert(bits[0] == c[j]);
        let cand = c.take(j).push(bits[0]);
        assert(cand =~= c.take(j + 1));
        assert(bits.drop_first() =~= c.take(m).skip(j + 1));
        assert forall|k: int| 0 <= k < d.len() implies (#[trigger] d[k]).0 != cand by {
            if d[k].0 == cand {
                assert(table[k].1 == cand);
                assert(table[k].1.is_prefix_of(table[i].1));
            }
        }
        lemma_lookup_token_at(d, cand, d.len() as int);
        lemma_decode_inside_code(table, i, j + 1, m);
    } else {
        assert(bits.len() == 0);
        assert(c.take(j).len() > 0);
    }
}

/// Under a prefix-free table, the first bits of a code, short of the whole
/// code and at least one, do not decode.
pub proof fn lemma_truncated_code<V>(table: Seq<(V, Seq<bool>)>, i: int, m: int)
    requires
        prefix_free(table),
        0 <= i < table.len(),
        0 < m < table[i].1.len(),
    ensures
        decode_bits(inverse_table(table), table[i].1.take(m)) is None,
{
    lemma_decode_inside_code(table, i, 0, m);
    assert(table[i].1.take(m).skip(0) =~= table[i].1.take(m));
    assert(table[i].1.take(0) =~= Seq::<bool>::empty());
}

/// Each code below `t` is the path `p` followed by the path from `t` to a leaf
/// that holds the code's token.
proof fn lemma_codes_paths<T: View>(t: HuffmanTree<T>, p: Seq<bool>)
    ensures
        forall|k: int|
            0 <= k < codes_at(t, p).len() ==> {
                let c = (#[trigger] codes_at(t, p)[k]).1;
                &&& c.len() >= p.len()
                &&& subtree(t, c.skip(p.len() as int)) matches Some(HuffmanTree::Leaf { token, .. })
                    && token@ == codes_at(t, p)[k].0
            },
    decreases t,
{
    match t {
        HuffmanTree::Leaf { .. } => {
            assert(p.skip(p.len() as int) =~= Seq::<bool>::empty());
        },
        HuffmanTree::InternalNode { left, right, .. } => {
            let pl = p.push(false);
            let pr = p.push(true);
            lemma_codes_paths(*left, pl);
            lemma_codes_paths(*right, pr);
            lemma_codes_extend(*left, pl);
            lemma_codes_extend(*right, pr);
            let l = codes_at(*left, pl);
            let r = codes_at(*right, pr);
            assert forall|k: int| 0 <= k < codes_at(t, p).len() implies {
                let c = (#[trigger] codes_at(t, p)[k]).1;
                &&& c.len() >= p.len()
                &&& subtree(t, c.skip(p.len() as int)) matches Some(HuffmanTree::Leaf { token, .. })
                    && token@ == codes_at(t, p)[k].0
            } by {
                let n = p.len() as int;
                if k < l.len() {
                    let c = l[k].1;
                    assert(codes_at(t, p)[k] == l[k]);
                    assert(pl.is_prefix_of(c));
                    assert(c[n] == pl[n]);
                    assert(c.skip(n).drop_first() =~= c.skip(n + 1));
                    assert(c.skip(n)[0] == false);
                } else {
                    let c = r[k - l.len()].1;
                    assert(codes_at(t, p)[k] == r[k - l.len()]);
                    assert(pr.is_prefix_of(c));
                    assert(c[n] == pr[n]);
                    assert(c.skip(n).drop_first() =~= c.skip(n + 1));
                    assert(c.skip(n)[0] == true);
                }
            }
        },
    }
}

/// In the code table of a tree of two or more leaves, each code is the path
/// from the root to the leaf that holds its token.
pub proof fn lemma_tree_codes_paths<T: View>(t: HuffmanTree<T>)
    requires
        t is InternalNode,
    ensures
        forall|k: int|
            0 <= k < tree_codes(t).len() ==> (subtree(t, (#[trigger] tree_codes(t)[k]).1) matches Some(
                HuffmanTree::Leaf { token, .. },
            ) && token@ == tree_codes(t)[k].0),
{
    assert(tree_codes(t) == codes_at(t, Seq::empty()));
    lemma_codes_paths(t, Seq::empty());
    assert forall|k: int| 0 <= k < tree_codes(t).len() implies (subtree(t, (#[trigger] tree_codes(t)[k]).1) matches Some(
        HuffmanTree::Leaf { token, .. },
    ) && token@ == tree_codes(t)[k].0) by {
        assert(tree_codes(t)[k].1.skip(0) =~= tree_codes(t)[k].1);
    }
}

/// In the code table of a tree built from a frequency table, a token of
/// lower count never gets a shorter code than a token of higher count.
pub proof fn lemma_code_length_monotone<T: View>(t: HuffmanTree<T>, i: int, j: int)
    requires
        t.levels_ordered(),
        0 <= i < tree_codes(t).len(),
        0 <= j < tree_codes(t).len(),
        t is InternalNode ==> subtree(t, tree_codes(t)[i].1)->0.spec_count() < subtree(
            t,
            tree_codes(t)[j].1,
        )->0.spec_count(),
    ensures
        tree_codes(t)[i].1.len() >= tree_codes(t)[j].1.len(),
{
    if t is InternalNode {
        lemma_tree_codes_paths(t);
        lemma_lower_count_not_shallower(t, tree_codes(t)[i].1, tree_codes(t)[j].1);
    }
}

/// In the code table of the tree built from a frequency table with distinct
/// tokens, a token of lower count in the table never gets a shorter code than
/// a token of higher count.
pub proof fn lemma_table_code_length_monotone<T: View>(
    counts: Seq<(T, u32)>,
    t: HuffmanTree<T>,
    i: int,
    j: int,
    ci: u32,
    cj: u32,
)
    requires
        forall|a: int, b: int|
            0 <= a < counts.len() && 0 <= b < counts.len() && a != b ==> (#[trigger] counts[a]).0@
                != (#[trigger] counts[b]).0@,
        t.leaf_multiset() == entries_multiset(counts),
        t.levels_ordered(),
        0 <= i < tree_codes(t).len(),
        0 <= j < tree_codes(t).len(),
        has_entry(counts, tree_codes(t)[i].0, ci),
        has_entry(counts, tree_codes(t)[j].0, cj),
        ci < cj,
    ensures
        tree_codes(t)[i].1.len() >= tree_codes(t)[j].1.len(),
{
    if t is InternalNode {
        lemma_tree_codes_paths(t);
        let pi = tree_codes(t)[i].1;
        let pj = tree_codes(t)[j].1;
        lemma_subtree_leaf_counted(t, pi);
        lemma_subtree_leaf_counted(t, pj);
        if let Some(HuffmanTree::Leaf { token, count }) = subtree(t, pi) {
            lemma_entries_multiset_has_entry(counts, token@, count);
            let a = choose|a: int| 0 <= a < counts.len() && (#[trigger] counts[a]).0@ == token@ && counts[a].1 == count;
            let b = choose|b: int| 0 <= b < counts.len() && (#[trigger] counts[b]).0@ == token@ && counts[b].1 == ci;
            assert(a == b);
        }
        if let Some(HuffmanTree::Leaf { token, count }) = subtree(t, pj) {
            lemma_entries_multiset_has_entry(counts, token@, count);
            let a = choose|a: int| 0 <= a < counts.len() && (#[trigger] counts[a]).0@ == token@ && counts[a].1 == count;
            let b = choose|b: int| 0 <= b < counts.len() && (#[trigger] counts[b]).0@ == token@ && counts[b].1 == cj;
            assert(a == b);
        }
        lemma_code_length_monotone(t, i, j);
    } else {
        assert(tree_codes(t).len() == 1);
    }
}

} // verus!
