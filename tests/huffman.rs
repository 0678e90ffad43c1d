use bit_vec::BitVec;
use compressor::application::frequency::{chars_of, frequencies_of, pieces_of};
use compressor::encoding::huffman::tree::check_leaves;
use compressor::encoding::huffman::{compress, HuffmanError};
use compressor::encoding::{HuffmanEncoder, HuffmanTree};

fn leaves_and_internal<T>(tree: &HuffmanTree<T>) -> (usize, usize) {
    match tree {
        HuffmanTree::Leaf { .. } => (1, 0),
        HuffmanTree::InternalNode { left, right, .. } => {
            let (l1, i1) = leaves_and_internal(left);
            let (l2, i2) = leaves_and_internal(right);
            (l1 + l2, i1 + i2 + 1)
        }
    }
}

fn bits(v: &[bool]) -> BitVec {
    let mut b = BitVec::new();
    for x in v {
        b.push(*x);
    }
    b
}

#[test]
fn test_from_frequencies() {
    let lyrics = CHAR_LYRICS;

    let counts = frequencies_of(&chars_of(lyrics));

    let tree = HuffmanTree::from_frequencies(&counts).unwrap();
    assert_eq!(tree.get_count(), u32::try_from(lyrics.len()).unwrap())
}

#[test]
fn test_char_leaves_have_correct_count() {
    let lyrics = CHAR_LYRICS;

    let counts = frequencies_of(&chars_of(lyrics));

    let tree = HuffmanTree::from_frequencies(&counts).unwrap();

    assert_eq!(tree.get_count(), u32::try_from(lyrics.len()).unwrap());

    assert!(check_leaves(&tree, &counts));
}

#[test]
fn test_str_leaves_have_correct_count() {
    let lyrics = STR_LYRICS;

    let counts = frequencies_of(&pieces_of(lyrics, ' '));

    let tree = HuffmanTree::from_frequencies(&counts).unwrap();

    assert_eq!(tree.get_count(), 27);

    assert!(check_leaves(&tree, &counts));
}

#[test]
fn test_from_huffman_tree() {
    let counts = vec![('a', 10), ('!', 38), ('\u{1F606}', 12)];
    let tree = HuffmanTree::from_frequencies(&counts).unwrap();
    let encoder = HuffmanEncoder::from_huffman_tree(tree);

    let expected_bits_for_a = vec![false, false];
    let expected_bits_for_exclaim = vec![true];
    let expected_bits_for_lols = vec![false, true];

    let bits_for_a = encoder.code_of(&'a').unwrap();
    assert_eq!(bits_for_a.len(), 2);
    assert_eq!(bits_for_a[0], expected_bits_for_a[0]);
    assert_eq!(bits_for_a[1], expected_bits_for_a[1]);
    assert_eq!(encoder.token_of(&bits_for_a).unwrap(), 'a');

    let bits_for_exclaim = encoder.code_of(&'!').unwrap();
    assert_eq!(bits_for_exclaim.len(), 1);
    assert_eq!(bits_for_exclaim[0], expected_bits_for_exclaim[0]);
    assert_eq!(encoder.token_of(&bits_for_exclaim).unwrap(), '!');

    let bits_for_lols = encoder.code_of(&'\u{1F606}').unwrap();
    assert_eq!(bits_for_lols.len(), 2);
    assert_eq!(bits_for_lols[0], expected_bits_for_lols[0]);
    assert_eq!(bits_for_lols[1], expected_bits_for_lols[1]);
    assert_eq!(encoder.token_of(&bits_for_lols).unwrap(), '\u{1F606}');
}

#[test]
fn test_encode_decode_returns_original_input() {
    let counts = vec![
        ('h', 1),
        ('i', 1),
        ('1', 1),
        ('2', 1),
        ('A', 1),
        ('|', 1),
        ('Z', 1),
        ('a', 2),
        ('!', 4),
        ('\u{1F606}', 1),
        ('\n', 1),
    ];
    let tree = HuffmanTree::from_frequencies(&counts).unwrap();
    let encoder = HuffmanEncoder::from_huffman_tree(tree);
    let input = "!!hi!\na!\u{1F606}\n12aA|Z";
    let input_lines: Vec<Vec<char>> = pieces_of(input, '\n')
        .iter()
        .map(|s| chars_of(s))
        .collect();
    let encoded_text = encoder.encode(&input_lines).unwrap();
    let decoded = HuffmanEncoder::decode(&encoder.decoder, &encoded_text).unwrap();
    let text: String = decoded.into_iter().flatten().collect();
    assert_eq!(input.as_bytes(), text.as_bytes());
}

#[test]
fn empty_table_is_refused() {
    let counts: Vec<(char, u32)> = vec![];
    assert!(matches!(
        HuffmanTree::from_frequencies(&counts),
        Err(HuffmanError::EmptyInput)
    ));
    assert!(matches!(
        compress(&vec![vec!['a']], &counts),
        Err(HuffmanError::EmptyInput)
    ));
}

#[test]
fn single_token_alphabet_round_trips() {
    let counts = vec![('A', 5)];
    let tree = HuffmanTree::from_frequencies(&counts).unwrap();
    assert_eq!(leaves_and_internal(&tree), (1, 0));
    let encoder = HuffmanEncoder::from_huffman_tree(tree);
    let code = encoder.code_of(&'A').unwrap();
    assert_eq!(code, bits(&[false]));
    let segment = vec!['A', 'A', 'A', 'A'];
    let encoded = encoder.encode_segment(&segment).unwrap();
    assert_eq!(encoded, bits(&[false, false, false, false]));
    let decoded = HuffmanEncoder::decode_segment(&encoder.decoder, &encoded).unwrap();
    assert_eq!(decoded, segment);
}

#[test]
fn unknown_token_fails_encoding() {
    let counts = vec![('a', 1), ('b', 2)];
    let encoder = HuffmanEncoder::from_huffman_tree(HuffmanTree::from_frequencies(&counts).unwrap());
    assert!(matches!(
        encoder.encode_segment(&vec!['x']),
        Err(HuffmanError::UnknownToken)
    ));
    assert!(matches!(
        encoder.encode(&vec![vec!['a'], vec!['b', 'x', 'a']]),
        Err(HuffmanError::UnknownToken)
    ));
    assert!(matches!(
        compress(&vec![vec!['a', 'x']], &counts),
        Err(HuffmanError::UnknownToken)
    ));
}

#[test]
fn truncated_code_fails_decoding() {
    let counts = vec![('a', 10), ('!', 38), ('e', 12)];
    let encoder = HuffmanEncoder::from_huffman_tree(HuffmanTree::from_frequencies(&counts).unwrap());
    let code = encoder.code_of(&'a').unwrap();
    assert_eq!(code.len(), 2);
    let truncated = bits(&[code[0]]);
    assert!(matches!(
        HuffmanEncoder::decode_segment(&encoder.decoder, &truncated),
        Err(HuffmanError::UndecodableBitstream)
    ));
    let mut longer = encoder.encode_segment(&vec!['!', 'e']).unwrap();
    longer.push(code[0]);
    assert!(matches!(
        HuffmanEncoder::decode(&encoder.decoder, &vec![bits(&[true]), longer]),
        Err(HuffmanError::UndecodableBitstream)
    ));
}

#[test]
fn concrete_three_token_codes() {
    let counts = vec![('a', 10), ('!', 38), ('e', 12)];
    let encoder = HuffmanEncoder::from_huffman_tree(HuffmanTree::from_frequencies(&counts).unwrap());
    assert_eq!(encoder.code_of(&'!').unwrap(), bits(&[true]));
    let a = encoder.code_of(&'a').unwrap();
    let e = encoder.code_of(&'e').unwrap();
    assert_eq!(a, bits(&[false, false]));
    assert_eq!(e, bits(&[false, true]));
    assert_eq!(a[0], e[0]);
    assert_ne!(a[1], e[1]);
}

#[test]
fn lower_frequency_never_gets_shorter_code() {
    let counts = vec![('a', 1), ('b', 1), ('c', 2), ('d', 4), ('e', 8)];
    let encoder = HuffmanEncoder::from_huffman_tree(HuffmanTree::from_frequencies(&counts).unwrap());
    let lens: Vec<usize> = counts
        .iter()
        .map(|(t, _)| encoder.code_of(t).unwrap().len())
        .collect();
    assert_eq!(lens, vec![4, 4, 3, 2, 1]);
    for (i, (_, ci)) in counts.iter().enumerate() {
        for (j, (_, cj)) in counts.iter().enumerate() {
            if ci < cj {
                assert!(lens[i] >= lens[j]);
            }
        }
    }
}

#[test]
fn tree_has_one_more_leaf_than_internal_nodes() {
    for n in 1..12u32 {
        let counts: Vec<(u32, u32)> = (0..n).map(|i| (i, i % 3 + 1)).collect();
        let counts: Vec<(char, u32)> = counts
            .iter()
            .map(|(i, c)| (char::from_u32('a' as u32 + i).unwrap(), *c))
            .collect();
        let tree = HuffmanTree::from_frequencies(&counts).unwrap();
        assert_eq!(leaves_and_internal(&tree), (n as usize, n as usize - 1));
        let total: u32 = counts.iter().map(|(_, c)| c).sum();
        assert_eq!(tree.get_count(), total);
    }
}

#[test]
fn codes_are_prefix_free() {
    let counts = frequencies_of(&chars_of(CHAR_LYRICS));
    let encoder = HuffmanEncoder::from_huffman_tree(HuffmanTree::from_frequencies(&counts).unwrap());
    assert_eq!(encoder.encoder.len(), counts.len());
    assert_eq!(encoder.decoder.len(), counts.len());
    for (i, (_, a)) in encoder.encoder.iter().enumerate() {
        assert!(a.len() > 0);
        for (j, (_, b)) in encoder.encoder.iter().enumerate() {
            if i != j && a.len() <= b.len() {
                assert!((0..a.len()).any(|k| a[k] != b[k]));
            }
        }
    }
}

#[test]
fn compress_round_trips_words() {
    let text = "the cat and the hat\nand the bat \n";
    let lines = pieces_of(text, '\n');
    let segments: Vec<Vec<String>> = lines.iter().map(|l| pieces_of(l, ' ')).collect();
    let all: Vec<String> = segments.iter().flatten().cloned().collect();
    let counts = frequencies_of(&all);
    let compressed = compress(&segments, &counts).unwrap();
    assert_eq!(compressed.data.len(), 2);
    assert_eq!(compressed.decoder.len(), counts.len());
    let decoded = HuffmanEncoder::decode(&compressed.decoder, &compressed.data).unwrap();
    assert_eq!(decoded, segments);
    let joined: String = decoded.into_iter().flatten().collect();
    assert_eq!(joined, text);
}

#[test]
fn encoding_appends_codes_in_order() {
    let counts = vec![('a', 10), ('!', 38), ('e', 12)];
    let encoder = HuffmanEncoder::from_huffman_tree(HuffmanTree::from_frequencies(&counts).unwrap());
    let encoded = encoder.encode_segment(&vec!['e', '!', 'a']).unwrap();
    assert_eq!(encoded, bits(&[false, true, true, false, false]));
    let empty = encoder.encode_segment(&vec![]).unwrap();
    assert_eq!(empty.len(), 0);
}

#[test]
fn equal_counts_take_table_order() {
    let counts = vec![('x', 1), ('y', 1), ('z', 1), ('w', 1)];
    let encoder = HuffmanEncoder::from_huffman_tree(HuffmanTree::from_frequencies(&counts).unwrap());
    assert_eq!(encoder.code_of(&'x').unwrap(), bits(&[false, false]));
    assert_eq!(encoder.code_of(&'y').unwrap(), bits(&[false, true]));
    assert_eq!(encoder.code_of(&'z').unwrap(), bits(&[true, false]));
    assert_eq!(encoder.code_of(&'w').unwrap(), bits(&[true, true]));
}

#[test]
fn check_leaves_notices_a_wrong_count() {
    let counts = vec![('a', 10), ('!', 38), ('e', 12)];
    let tree = HuffmanTree::from_frequencies(&counts).unwrap();
    assert!(check_leaves(&tree, &counts));
    let other = vec![('a', 10), ('!', 37), ('e', 12)];
    assert!(!check_leaves(&tree, &other));
}

#[test]
fn building_twice_gives_the_same_codes() {
    let counts = vec![('p', 2), ('q', 2), ('r', 1), ('s', 1), ('t', 2)];
    let e1 = HuffmanEncoder::from_huffman_tree(HuffmanTree::from_frequencies(&counts).unwrap());
    let e2 = HuffmanEncoder::from_huffman_tree(HuffmanTree::from_frequencies(&counts).unwrap());
    assert_eq!(e1.encoder, e2.encoder);
    assert_eq!(e1.decoder, e2.decoder);
}

#[test]
fn decode_reads_bits_not_blocks() {
    let counts = vec![('a', 10), ('!', 38), ('e', 12)];
    let encoder = HuffmanEncoder::from_huffman_tree(HuffmanTree::from_frequencies(&counts).unwrap());
    // two bits, both zero, with a stray bit set beyond them in the block
    let raw = rmp_serde::to_vec(&(vec![0b100u32], 2usize)).unwrap();
    let stray: BitVec = rmp_serde::from_slice(&raw).unwrap();
    assert_eq!(stray.len(), 2);
    assert_eq!(
        HuffmanEncoder::decode_segment(&encoder.decoder, &stray).unwrap(),
        vec!['a']
    );
    let decoder = vec![(stray, 'z')];
    assert_eq!(
        HuffmanEncoder::decode_segment(&decoder, &bits(&[false, false])).unwrap(),
        vec!['z']
    );
}

#[test]
fn decode_refuses_bits_without_storage() {
    let counts = vec![('a', 10), ('!', 38), ('e', 12)];
    let encoder = HuffmanEncoder::from_huffman_tree(HuffmanTree::from_frequencies(&counts).unwrap());
    let raw = rmp_serde::to_vec(&(Vec::<u32>::new(), 5usize)).unwrap();
    let short: BitVec = rmp_serde::from_slice(&raw).unwrap();
    assert!(matches!(
        HuffmanEncoder::decode_segment(&encoder.decoder, &short),
        Err(HuffmanError::UndecodableBitstream)
    ));
}

const CHAR_LYRICS: &str = "Hi, my name is, what? My name is, who?
                        My name is, chka-chka, Slim Shady
                        Hi, my name is, huh? My name is, what?
                        My name is, chka-chka, Slim Shady";

const STR_LYRICS: &str = "Hi, my name is, what? My name is, who?
My name is, chka-chka, Slim Shady
Hi, my name is, huh? My name is, what?
My name is, chka-chka, Slim Shady";
