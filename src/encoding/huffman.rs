pub mod encoder;
pub mod tree;

use crate::bits::{bits_of, bits_valid};
use crate::token::Token;
use bit_vec::BitVec;
pub use encoder::HuffmanEncoder;
use encoder::{
    codes_nonempty, inverse_table, keys_valid, lemma_tree_codes_prefix_free, prefix_free, tree_codes,
    decode_bits, decode_table, encode_tokens, encoded_len, lookup_code, lemma_encode_tokens_some, lemma_encoded_len_bound, lemma_lookup_code_some,
    lemma_round_trip, lemma_tree_codes_count, lemma_tree_codes_len, lemma_tree_codes_tokens, views,
};
use tree::{
    entries_multiset, entries_total, huffman_tree_of, tree_view, in_table, lemma_built_tree_sizes, lemma_entries_multiset_tokens,
    lemma_tree_node_counts, HuffmanTree,
};
use vstd::prelude::*;

verus! {

/// The ways in which building, encoding or decoding can fail.
#[derive(Clone, Copy, Debug, PartialEq, Eq)]
pub enum HuffmanError {
    /// A tree was asked for from a frequency table with no entry.
    EmptyInput,
    /// A token to encode has no code in the table.
    UnknownToken,
    /// A bit sequence ends inside a code.
    UndecodableBitstream,
}

/// What compression hands on: the decode map and one bit sequence per segment.
pub struct CompressedData<T> {
    pub data: Vec<BitVec<u32>>,
    pub decoder: Vec<(BitVec<u32>, T)>,
}

/// Every token of every segment has an entry in the frequency table.
pub open spec fn tokens_in_table<T: View>(counts: Seq<(T, u32)>, segments: Seq<Vec<T>>) -> bool {
    forall|i: int, k: int|
        0 <= i < segments.len() && 0 <= k < segments[i]@.len() ==> in_table(
            counts,
            (#[trigger] segments[i]@[k])@,
        )
}

/// Builds the code table of the frequency table and encodes each segment with it.
///
/// Fails with `EmptyInput` when the table has no entry, and otherwise with
/// `UnknownToken` exactly when some token of the segments has no entry in it.
/// Each bit sequence decodes, with the returned decode map, to its segment.
pub fn compress<T: Token>(segments: &Vec<Vec<T>>, frequencies: &Vec<(T, u32)>) -> (r: Result<
    CompressedData<T>,
    HuffmanError,
>)
    requires
        entries_total(frequencies@) <= u32::MAX,
        forall|i: int|
            0 <= i < segments@.len() ==> (#[trigger] segments@[i])@.len() * frequencies@.len()
                <= usize::MAX,
    ensures
        frequencies@.len() == 0 ==> r == Err::<CompressedData<T>, HuffmanError>(
            HuffmanError::EmptyInput,
        ),
        frequencies@.len() > 0 ==> (r is Ok <==> tokens_in_table(frequencies@, segments@)),
        frequencies@.len() > 0 && r is Err ==> r == Err::<CompressedData<T>, HuffmanError>(
            HuffmanError::UnknownToken,
        ),
        r matches Ok(c) ==> {
            &&& c.data@.len() == segments@.len()
            &&& c.decoder@.len() == frequencies@.len()
            &&& forall|i: int|
                0 <= i < segments@.len() ==> decode_bits(decode_table(c.decoder@), bits_of(#[trigger] c.data@[i]))
                    == Some(views(segments@[i]@))
            &&& keys_valid(c.decoder@)
            &&& forall|i: int| 0 <= i < c.data@.len() ==> bits_valid(#[trigger] c.data@[i])
            &&& forall|v: T::V|
                #[trigger] in_table(frequencies@, v) <==> exists|k: int|
                    0 <= k < c.decoder@.len() && (#[trigger] decode_table(c.decoder@)[k]).1 == v
            &&& exists|t: HuffmanTree<T>|
                {
                    &&& t.well_formed()
                    &&& t.leaf_multiset() == entries_multiset(frequencies@)
                    &&& t.levels_ordered()
                    &&& tree_view(t) == huffman_tree_of(frequencies@)
                    &&& prefix_free(tree_codes(t))
                    &&& codes_nonempty(tree_codes(t))
                    &&& decode_table(c.decoder@) == inverse_table(tree_codes(t))
                    &&& forall|i: int|
                        0 <= i < segments@.len() ==> encode_tokens(
                            tree_codes(t),
                            views(#[trigger] segments@[i]@),
                        ) == Some(bits_of(c.data@[i]))
                }
        },
{
    let n = frequencies.len();
    let tree = match HuffmanTree::from_frequencies(frequencies) {
        Ok(t) => t,
        Err(e) => {
            return Err(e);
        },
    };
    let ghost t = *tree;
    proof {
        lemma_tree_node_counts(t);
        lemma_built_tree_sizes(frequencies@, t);
        lemma_tree_codes_len(t);
        lemma_tree_codes_count(t);
    }
    let encoder = HuffmanEncoder::from_huffman_tree(tree);
    let ghost table = encoder.table();
    proof {
        lemma_tree_codes_prefix_free(t);
    }
    proof {
        assert forall|i: int| 0 <= i < segments@.len() implies encoded_len(
            table,
            views(#[trigger] segments@[i]@),
        ) <= usize::MAX by {
            lemma_encoded_len_bound(table, views(segments@[i]@), n as int);
        }
        assert forall|v: T::V| lookup_code(table, v) is Some <==> #[trigger] in_table(frequencies@, v) by {
            lemma_lookup_code_some(table, v);
            lemma_tree_codes_tokens(t, v);
            lemma_entries_multiset_tokens(frequencies@, v);
        }
    }
    let data = encoder.encode(segments);
    match data {
        Ok(v) => {
            proof {
                assert forall|i: int| 0 <= i < segments@.len() implies decode_bits(
                    decode_table(encoder.decoder@),
                    bits_of(#[trigger] v@[i]),
                ) == Some(views(segments@[i]@)) by {
                    let ts = views(segments@[i]@);
                    lemma_encode_tokens_some(table, ts);
                    lemma_round_trip(table, ts);
                }
                assert forall|i: int, k: int|
                    0 <= i < segments@.len() && 0 <= k < segments@[i]@.len() implies in_table(
                    frequencies@,
                    (#[trigger] segments@[i]@[k])@,
                ) by {
                    let ts = views(segments@[i]@);
                    assert(encode_tokens(table, ts) == Some(bits_of(v@[i])));
                    lemma_encode_tokens_some(table, ts);
                    assert(ts[k] == segments@[i]@[k]@);
                    assert(lookup_code(table, ts[k]) is Some);
                }
                let d = decode_table(encoder.decoder@);
                assert(d == inverse_table(table));
                assert forall|w: T::V| #[trigger] in_table(frequencies@, w) <==> exists|k: int|
                    0 <= k < encoder.decoder@.len() && (#[trigger] d[k]).1 == w by {
                    lemma_lookup_code_some(table, w);
                    if in_table(frequencies@, w) {
                        let k = choose|k: int| 0 <= k < table.len() && (#[trigger] table[k]).0 == w;
                        assert(d[k].1 == w);
                    }
                    if exists|k: int| 0 <= k < encoder.decoder@.len() && (#[trigger] d[k]).1 == w {
                        let k = choose|k: int| 0 <= k < encoder.decoder@.len() && (#[trigger] d[k]).1 == w;
                        assert(table[k].0 == w);
                    }
                }
                assert forall|i: int| 0 <= i < segments@.len() implies encode_tokens(
                    tree_codes(t),
                    views(#[trigger] segments@[i]@),
                ) == Some(bits_of(v@[i])) by {
                    assert(encode_tokens(table, views(segments@[i]@)) == Some(bits_of(v@[i])));
                }
            }
            Ok(CompressedData { data: v, decoder: encoder.decoder })
        },
        Err(e) => {
            proof {
                let i = choose|i: int|
                    0 <= i < segments@.len() && encode_tokens(
                        table,
                        views(#[trigger] segments@[i]@),
                    ) is None;
                let ts = views(segments@[i]@);
                lemma_encode_tokens_some(table, ts);
                let k = choose|k: int| 0 <= k < ts.len() && lookup_code(table, #[trigger] ts[k]) is None;
                assert(ts[k] == segments@[i]@[k]@);
                assert(!in_table(frequencies@, segments@[i]@[k]@));
            }
            Err(e)
        },
    }
}

} // verus!
