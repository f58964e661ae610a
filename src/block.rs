use vstd::prelude::*;
use vstd::slice::slice_to_vec;

use crate::frame::ParseError;
use crate::parsing::ForwardByteParser;

verus! {

/// The 24-bit little-endian word of a block header (its first three bytes).
pub open spec fn header_word(s: Seq<u8>) -> nat
    recommends
        s.len() >= 3,
{
    (s[0] + 256 * s[1] + 65536 * s[2]) as nat
}

/// Bit 0 of the header word: this block is the last of its frame.
pub open spec fn word_is_last(w: nat) -> bool {
    w % 2 == 1
}

/// Bits 1-2 of the header word: 0 raw, 1 run-length, 2 compressed, 3 reserved.
pub open spec fn word_type(w: nat) -> nat {
    (w / 2) % 4
}

/// Bits 3-23 of the header word: the size of a raw block, the repeat count of
/// a run-length block.
pub open spec fn word_size(w: nat) -> nat {
    w / 8
}

/// What a block holds, as mathematical values.
pub enum BlockView {
    Raw { size: nat, data: Seq<u8> },
    Rle { byte: u8, repeat: nat },
    Unsupported,
}

/// The block at the start of `s`: whether it is the last one, what it holds,
/// and how many bytes it takes; `None` when `s` is too short for it.
pub open spec fn block_model(s: Seq<u8>) -> Option<(bool, BlockView, nat)> {
    if s.len() < 3 {
        None
    } else {
        let w = header_word(s);
        let last = word_is_last(w);
        let size = word_size(w);
        if word_type(w) == 0 {
            if s.len() < 3 + size {
                None
            } else {
                Some((last, BlockView::Raw { size, data: s.subrange(3, 3 + size as int) }, 3 + size))
            }
        } else if word_type(w) == 1 {
            if s.len() < 4 {
                None
            } else {
                Some((last, BlockView::Rle { byte: s[3], repeat: size }, 4))
            }
        } else {
            Some((last, BlockView::Unsupported, 3))
        }
    }
}

/// The bytes a block stands for; `None` for a block that cannot be decoded here.
pub open spec fn decoded(b: BlockView) -> Option<Seq<u8>> {
    match b {
        BlockView::Raw { data, .. } => Some(data),
        BlockView::Rle { byte, repeat } => Some(Seq::new(repeat, |i: int| byte)),
        BlockView::Unsupported => None,
    }
}

/// Decoding a raw block gives back exactly the payload bytes that follow its
/// header, as many as the size that the header declares.
pub proof fn lemma_raw_round_trip(s: Seq<u8>)
    requires
        block_model(s) matches Some((_, BlockView::Raw { .. }, _)),
    ensures
        ({
            let size = word_size(header_word(s));
            let b = block_model(s).unwrap().1;
            &&& b == BlockView::Raw { size, data: s.subrange(3, 3 + size as int) }
            &&& decoded(b) == Some(s.subrange(3, 3 + size as int))
            &&& decoded(b).unwrap().len() == size
        }),
{
}

/// Decoding a run-length block of repeat count `repeat` and byte `byte` gives
/// `repeat` bytes, each equal to `byte`.
pub proof fn lemma_rle_expansion(byte: u8, repeat: nat)
    ensures
        decoded(BlockView::Rle { byte, repeat }) matches Some(d) && d.len() == repeat && forall|
            i: int,
        |
            0 <= i < d.len() ==> d[i] == byte,
{
}

/// A block of type 2 or 3 is read as its 3-byte header alone, and decoding it
/// is refused.
pub proof fn lemma_unsupported_kinds(s: Seq<u8>)
    requires
        s.len() >= 3,
        word_type(header_word(s)) >= 2,
    ensures
        block_model(s) == Some((word_is_last(header_word(s)), BlockView::Unsupported, 3nat)),
        decoded(BlockView::Unsupported) is None,
{
}

/// One block of a data frame.
#[derive(Debug)]
pub enum Block {
    /// Stored bytes, `data.len() == size`.
    Raw { size: usize, data: Vec<u8> },
    /// `byte` repeated `repeat` times, kept unexpanded.
    RLE { byte: u8, repeat: usize },
    /// An entropy-coded block (type 2) or a block of the reserved type 3; its
    /// content is not read.
    Compressed,
}

impl Block {
    pub open spec fn view(&self) -> BlockView {
        match self {
            Block::Raw { size, data } => BlockView::Raw { size: *size as nat, data: data@ },
            Block::RLE { byte, repeat } => BlockView::Rle { byte: *byte, repeat: *repeat as nat },
            Block::Compressed => BlockView::Unsupported,
        }
    }

    /// Reads one block: its 3-byte header, then the payload that its type
    /// calls for. Returns whether it is the last block of its frame.
    pub fn parse(input: &mut ForwardByteParser) -> (r: Result<(bool, Block), ParseError>)
        ensures
            r is Err ==> final(input)@ == old(input)@,
            block_model(old(input)@) is None ==> r == Err::<(bool, Block), ParseError>(
                ParseError::Truncated,
            ),
            block_model(old(input)@) matches Some((last, b, n)) ==> (r matches Ok((l, blk)) && l == last
                && blk@ == b) && final(input)@ == old(input)@.subrange(
                n as int,
                old(input)@.len() as int,
            ),
    {
        let ghost s = input@;
        let saved = *input;
        let bytes = match input.slice(3) {
            Some(bytes) => bytes,
            None => {
                *input = saved;
                return Err(ParseError::Truncated);
            },
        };
        let data: u32 = bytes[0] as u32 + (bytes[1] as u32) * 256 + (bytes[2] as u32) * 65536;
        assert(data == header_word(s));
        let is_last = data % 2 == 1;
        let block_type = (data / 2) % 4;
        let block_size = (data / 8) as usize;
        let block = if block_type == 0 {
            match input.slice(block_size) {
                Some(content) => {
                    assert(s.subrange(3, s.len() as int).subrange(block_size as int, s.len() - 3)
                        =~= s.subrange(3 + block_size, s.len() as int));
                    assert(s.subrange(3, s.len() as int).subrange(0, block_size as int)
                        =~= s.subrange(3, 3 + block_size));
                    Block::Raw { size: block_size, data: slice_to_vec(content) }
                },
                None => {
                *input = saved;
                return Err(ParseError::Truncated);
            },
            }
        } else if block_type == 1 {
            match input.u8() {
                Some(byte) => {
                    assert(s.subrange(3, s.len() as int).subrange(1, s.len() - 3) =~= s.subrange(
                        4,
                        s.len() as int,
                    ));
                    Block::RLE { byte, repeat: block_size }
                },
                None => {
                *input = saved;
                return Err(ParseError::Truncated);
            },
            }
        } else {
            Block::Compressed
        };
        Ok((is_last, block))
    }

    /// The bytes the block stands for: the stored bytes of a raw block, the
    /// byte of a run-length block repeated; a compressed block is refused.
    pub fn decode(&self) -> (r: Result<Vec<u8>, ParseError>)
        ensures
            decoded(self@) is None ==> r == Err::<Vec<u8>, ParseError>(
                ParseError::UnsupportedBlockKind,
            ),
            decoded(self@) matches Some(d) ==> (r matches Ok(v) && v@ == d),
    {
        match self {
            Block::Raw { size: _, data } => Ok(slice_to_vec(data.as_slice())),
            Block::RLE { byte, repeat } => {
                let mut out: Vec<u8> = Vec::new();
                let mut i: usize = 0;
                while i < *repeat
                    invariant
                        i <= *repeat,
                        out@ =~= Seq::new(i as nat, |k: int| *byte),
                    decreases *repeat - i,
                {
                    out.push(*byte);
                    i = i + 1;
                }
                Ok(out)
            },
            Block::Compressed => Err(ParseError::UnsupportedBlockKind),
        }
    }
}

} // verus!
