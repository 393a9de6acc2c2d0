//! Lossless byte-stream codecs: a Burrows-Wheeler block sorter, a move-to-front
//! re-ranker and a static Huffman coder, each a reversible map over bytes.

pub mod bwt;
pub mod bwt_inverse;
pub mod bwt_lemmas;
pub mod bytes;
pub mod coder;
pub mod huffman;
pub mod huffman_lemmas;
pub mod movetofront;
pub mod pipeline;

pub use bwt::Bwt;
pub use coder::{CodecError, Coder};
pub use huffman::{create_tree, Huffman, Node};
pub use movetofront::{get_list, MoveToFront};
