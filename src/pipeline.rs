use vstd::prelude::*;

use crate::bwt::Bwt;
use crate::bwt_inverse::lemma_bwt_round_trip;
use crate::coder::{CodecError, Coder};
use crate::huffman::Huffman;
use crate::huffman_lemmas::lemma_huffman_round_trip;
use crate::movetofront::{lemma_mtf_round_trip, MoveToFront};

verus! {

/// The three stages in a row, transform, move-to-front and Huffman, undone in
/// reverse order, give back any input below `2^32` bytes whose transform stays
/// below `2^32` bytes too: Huffman decoding gives the move-to-front ranks,
/// move-to-front decoding gives the transform, and every result of decoding
/// the transform is the input.
pub proof fn lemma_pipeline_round_trip(x: Seq<u8>, y1: Seq<u8>, y2: Seq<u8>, y3: Seq<u8>)
    requires
        x.len() < 0x1_0000_0000,
        y1.len() <= u32::MAX,
        <Bwt as Coder>::standard().encodes(x, y1),
        (MoveToFront {  }).encodes(y1, y2),
        (Huffman {  }).encodes(y2, y3),
    ensures
        (Huffman {  }).decodes(y3, Ok(y2)),
        (MoveToFront {  }).decodes(y2, Ok(y1)),
        forall|r: Result<Seq<u8>, CodecError>|
            #[trigger] <Bwt as Coder>::standard().decodes(y1, r) ==> r == Ok::<
                Seq<u8>,
                CodecError,
            >(x),
{
    lemma_mtf_round_trip(y1);
    lemma_huffman_round_trip(y2);
    assert forall|r: Result<Seq<u8>, CodecError>| #[trigger]
        <Bwt as Coder>::standard().decodes(y1, r) implies r == Ok::<Seq<u8>, CodecError>(x) by {
        lemma_bwt_round_trip(<Bwt as Coder>::standard(), x, y1, r);
    }
}

} // verus!
