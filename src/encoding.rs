pub mod huffman;

pub use huffman::encoder::HuffmanEncoder;
pub use huffman::tree::HuffmanTree;
