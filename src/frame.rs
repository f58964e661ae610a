use vstd::arithmetic::power2::{
    lemma2_to64,
    lemma2_to64_rest,
    lemma_pow2_strictly_increases,
    pow2,
};
use vstd::bits::lemma_u64_shl_is_mul;
use vstd::prelude::*;
use vstd::slice::slice_to_vec;

use crate::block::{Block, BlockView, block_model};
use crate::parsing::{
    ForwardByteParser,
    le_value,
    lemma_le_value_bound,
    lemma_le_value_four,
    lemma_pow256_monotonic,
    lemma_pow256_seven,
};

verus! {

/// Why a frame, a frame header or a block could not be decoded.
#[derive(Debug, PartialEq, Eq, Structural)]
pub enum ParseError {
    /// Fewer bytes remain than a mandatory field requires.
    Truncated,
    /// The magic number names neither a data frame nor a skippable frame.
    FormatMismatch,
    /// The block is entropy-coded or of the reserved type: valid, but not
    /// decodable here.
    UnsupportedBlockKind,
}

pub const DATA_FRAME_MAGIC_NUMBER: u32 = 0xFD2FB528;

/// A magic number that holds every bit of this mask marks a skippable frame.
pub const SKIPPABLE_FRAME_MASK: u32 = 0x184D2A50;

/// The flags of a frame header descriptor byte and the field widths they select.
#[derive(Debug, Clone, Copy, PartialEq, Eq, Structural)]
pub struct FrameDescriptor {
    pub is_single_segment: bool,
    pub has_content_checksum: bool,
    /// Width in bytes of the frame content size field: 0, 1, 2, 4 or 8.
    pub fcs_field_size: u8,
    /// Width in bytes of the dictionary id field: 0, 1, 2 or 4.
    pub did_field_size: u8,
}

/// Bits 6-7 select the content size width `{0, 2, 4, 8}`, except in a
/// single-segment frame, where it is 1.
pub open spec fn fcs_size_of(d: u8) -> u8 {
    if (d / 32) % 2 == 1 {
        1
    } else if d / 64 == 0 {
        0
    } else if d / 64 == 1 {
        2
    } else if d / 64 == 2 {
        4
    } else {
        8
    }
}

/// Bits 0-1 select the dictionary id width `{0, 1, 2, 4}`.
pub open spec fn did_size_of(d: u8) -> u8 {
    if d % 4 == 0 {
        0
    } else if d % 4 == 1 {
        1
    } else if d % 4 == 2 {
        2
    } else {
        4
    }
}

/// The descriptor byte `d` decoded: bit 5 single segment, bit 2 checksum;
/// bits 3-4 are ignored.
pub open spec fn descriptor_of(d: u8) -> FrameDescriptor {
    FrameDescriptor {
        is_single_segment: (d / 32) % 2 == 1,
        has_content_checksum: (d / 4) % 2 == 1,
        fcs_field_size: fcs_size_of(d),
        did_field_size: did_size_of(d),
    }
}

/// The window size that a window descriptor byte encodes: a 5-bit exponent
/// (high bits) and a 3-bit mantissa (low bits).
pub open spec fn window_size_of(w: u8) -> nat {
    let base = pow2((10 + w / 8) as nat);
    (base + (base / 8) * (w % 8)) as nat
}

/// A little-endian field of `width` bytes of `s` starting at `start`; absent
/// when the width is 0.
pub open spec fn field_value(s: Seq<u8>, start: int, width: nat) -> Option<u64> {
    if width == 0 {
        None
    } else {
        Some(le_value(s.subrange(start, start + width)) as u64)
    }
}

/// The frame header at the start of `s` and its length in bytes; `None` when
/// `s` is too short for it.
pub open spec fn header_model(s: Seq<u8>) -> Option<(FrameHeader, nat)> {
    if s.len() == 0 {
        None
    } else {
        let d = descriptor_of(s[0]);
        let did_start: int = if d.is_single_segment { 1 } else { 2 };
        let fcs_start: int = did_start + d.did_field_size;
        let len = fcs_start + d.fcs_field_size;
        if s.len() < len {
            None
        } else {
            Some(
                (
                    FrameHeader {
                        has_content_checksum: d.has_content_checksum,
                        is_single_segment: d.is_single_segment,
                        fcs_field_size: d.fcs_field_size,
                        did_field_size: d.did_field_size,
                        fc_size: field_value(s, fcs_start, d.fcs_field_size as nat),
                        window_descriptor: if d.is_single_segment {
                            None
                        } else {
                            Some(window_size_of(s[1]) as u64)
                        },
                        dictionary_id: field_value(s, did_start, d.did_field_size as nat),
                    },
                    len as nat,
                ),
            )
        }
    }
}

/// The header of a data frame.
#[derive(Debug, Clone, Copy, PartialEq, Eq, Structural)]
pub struct FrameHeader {
    pub has_content_checksum: bool,
    pub is_single_segment: bool,
    /// Frame content size field width.
    pub fcs_field_size: u8,
    /// Dictionary id field width.
    pub did_field_size: u8,
    pub fc_size: Option<u64>,
    /// The window size; present exactly when the frame is not single-segment.
    pub window_descriptor: Option<u64>,
    pub dictionary_id: Option<u64>,
}

impl FrameDescriptor {
    /// Reads the descriptor byte.
    pub fn parse(input: &mut ForwardByteParser) -> (r: Result<FrameDescriptor, ParseError>)
        ensures
            old(input)@.len() == 0 ==> r == Err::<FrameDescriptor, ParseError>(
                ParseError::Truncated,
            ) && final(input)@ == old(input)@,
            old(input)@.len() > 0 ==> r == Ok::<FrameDescriptor, ParseError>(
                descriptor_of(old(input)@[0]),
            ) && final(input)@ == old(input)@.subrange(1, old(input)@.len() as int),
    {
        let descriptor = match input.u8() {
            Some(d) => d,
            None => return Err(ParseError::Truncated),
        };
        let is_single_segment = (descriptor / 32) % 2 == 1;
        let fcs_flag = descriptor / 64;
        let fcs_field_size: u8 = if is_single_segment {
            1
        } else if fcs_flag == 0 {
            0
        } else if fcs_flag == 1 {
            2
        } else if fcs_flag == 2 {
            4
        } else {
            8
        };
        let did_flag = descriptor % 4;
        let did_field_size: u8 = if did_flag == 0 {
            0
        } else if did_flag == 1 {
            1
        } else if did_flag == 2 {
            2
        } else {
            4
        };
        Ok(
            FrameDescriptor {
                is_single_segment,
                has_content_checksum: (descriptor / 4) % 2 == 1,
                fcs_field_size,
                did_field_size,
            },
        )
    }
}

/// The window size that a window descriptor byte encodes.
fn window_size(window_byte: u8) -> (r: u64)
    ensures
        r == window_size_of(window_byte),
{
    let exponent: u64 = (window_byte / 8) as u64;
    let mantissa: u64 = (window_byte % 8) as u64;
    proof {
        lemma2_to64();
        lemma2_to64_rest();
        if 10 + exponent < 41 {
            lemma_pow2_strictly_increases((10 + exponent) as nat, 41);
        }
        lemma_u64_shl_is_mul(1, (10 + exponent) as u64);
    }
    let base: u64 = 1u64 << (10 + exponent);
    assert(base <= 0x200_0000_0000);
    assert((base / 8) * mantissa <= 0x40_0000_0000 * 7) by (nonlinear_arith)
        requires
            base <= 0x200_0000_0000,
            mantissa <= 7,
    ;
    base + (base / 8) * mantissa
}

impl FrameHeader {
    /// Reads a little-endian field of `size` bytes; `None` when `size` is 0.
    fn read_bytes(input: &mut ForwardByteParser, size: usize) -> (r: Result<
        Option<u64>,
        ParseError,
    >)
        requires
            size <= 8,
        ensures
            size > old(input)@.len() ==> r == Err::<Option<u64>, ParseError>(
                ParseError::Truncated,
            ) && final(input)@ == old(input)@,
            size <= old(input)@.len() ==> r == Ok::<Option<u64>, ParseError>(
                field_value(old(input)@, 0, size as nat),
            ) && final(input)@ == old(input)@.subrange(size as int, old(input)@.len() as int),
    {
        if size == 0 {
            assert(old(input)@.subrange(0, old(input)@.len() as int) =~= old(input)@);
            return Ok(None);
        }
        let bytes = match input.slice(size) {
            Some(bytes) => bytes,
            None => return Err(ParseError::Truncated),
        };
        let mut value: u64 = 0;
        let mut i: usize = size;
        assert(bytes@.subrange(size as int, size as int) =~= Seq::<u8>::empty());
        while i > 0
            invariant
                i <= size <= 8,
                bytes@.len() == size,
                value as nat == le_value(bytes@.subrange(i as int, size as int)),
            decreases i,
        {
            proof {
                let t = bytes@.subrange(i - 1, size as int);
                assert(t.drop_first() =~= bytes@.subrange(i as int, size as int));
                lemma_le_value_bound(bytes@.subrange(i as int, size as int));
                lemma_pow256_monotonic((size - i) as nat, 7);
                lemma_pow256_seven();
            }
            value = value * 256 + bytes[i - 1] as u64;
            i = i - 1;
        }
        assert(bytes@.subrange(0, size as int) =~= bytes@);
        Ok(Some(value))
    }

    /// Reads a frame header: the descriptor byte, the window descriptor
    /// unless the frame is single-segment, the dictionary id and the frame
    /// content size.
    pub fn parse(input: &mut ForwardByteParser) -> (r: Result<FrameHeader, ParseError>)
        ensures
            r is Err ==> final(input)@ == old(input)@,
            header_model(old(input)@) is None ==> r == Err::<FrameHeader, ParseError>(
                ParseError::Truncated,
            ),
            header_model(old(input)@) matches Some((h, n)) ==> r == Ok::<FrameHeader, ParseError>(
                h,
            ) && final(input)@ == old(input)@.subrange(n as int, old(input)@.len() as int),
    {
        let ghost s = input@;
        let saved = *input;
        let desc = match FrameDescriptor::parse(input) {
            Ok(d) => d,
            Err(e) => {
                *input = saved;
                return Err(e);
            },
        };
        let window_descriptor = if !desc.is_single_segment {
            match input.u8() {
                Some(w) => Some(window_size(w)),
                None => {
                *input = saved;
                return Err(ParseError::Truncated);
            },
            }
        } else {
            None
        };
        let ghost did_start: int = if desc.is_single_segment { 1 } else { 2 };
        assert(input@ =~= s.subrange(did_start, s.len() as int));
        let dictionary_id = match Self::read_bytes(input, desc.did_field_size as usize) {
            Ok(v) => v,
            Err(e) => {
                *input = saved;
                return Err(e);
            },
        };
        let ghost fcs_start: int = did_start + desc.did_field_size;
        assert(input@ =~= s.subrange(fcs_start, s.len() as int));
        let fc_size = match Self::read_bytes(input, desc.fcs_field_size as usize) {
            Ok(v) => v,
            Err(e) => {
                *input = saved;
                return Err(e);
            },
        };
        proof {
            let len = fcs_start + desc.fcs_field_size;
            assert(s.subrange(did_start, s.len() as int).subrange(0, desc.did_field_size as int)
                =~= s.subrange(did_start, fcs_start));
            assert(s.subrange(fcs_start, s.len() as int).subrange(0, desc.fcs_field_size as int)
                =~= s.subrange(fcs_start, len));
            assert(input@ =~= s.subrange(len, s.len() as int));
        }
        Ok(
            FrameHeader {
                has_content_checksum: desc.has_content_checksum,
                is_single_segment: desc.is_single_segment,
                fcs_field_size: desc.fcs_field_size,
                did_field_size: desc.did_field_size,
                fc_size,
                window_descriptor,
                dictionary_id,
            },
        )
    }
}

/// The blocks of a data frame at the start of `s`, up to and including the
/// first one marked last, with the number of bytes they take; `None` when `s`
/// ends before that block does.
pub open spec fn blocks_model(s: Seq<u8>) -> Option<(Seq<BlockView>, nat)>
    decreases s.len(),
{
    match block_model(s) {
        None => None,
        Some((last, b, n)) => {
            if last {
                Some((seq![b], n))
            } else if 0 < n <= s.len() {
                match blocks_model(s.subrange(n as int, s.len() as int)) {
                    None => None,
                    Some((bs, m)) => Some((seq![b] + bs, n + m)),
                }
            } else {
                None
            }
        },
    }
}

/// `r` with the blocks `prefix`, taking `k` bytes, put in front.
pub open spec fn after_prefix(
    prefix: Seq<BlockView>,
    k: nat,
    r: Option<(Seq<BlockView>, nat)>,
) -> Option<(Seq<BlockView>, nat)> {
    match r {
        None => None,
        Some((bs, m)) => Some((prefix + bs, k + m)),
    }
}

pub open spec fn block_views(blocks: Seq<Block>) -> Seq<BlockView> {
    blocks.map_values(|b: Block| b@)
}

/// A data frame as mathematical values.
pub struct DataFrameView {
    pub header: FrameHeader,
    pub blocks: Seq<BlockView>,
    pub checksum: Option<u32>,
}

/// The data frame at the start of `s` (after its magic number) and its
/// length; `None` when `s` ends inside its header or its blocks. A checksum
/// cut short is taken as absent.
pub open spec fn data_frame_model(s: Seq<u8>) -> Option<(DataFrameView, nat)> {
    match header_model(s) {
        None => None,
        Some((h, hn)) => {
            let rest = s.subrange(hn as int, s.len() as int);
            match blocks_model(rest) {
                None => None,
                Some((bs, bn)) => {
                    let tail = rest.subrange(bn as int, rest.len() as int);
                    let has_checksum = h.has_content_checksum && tail.len() >= 4;
                    let checksum = if has_checksum {
                        Some(le_value(tail.subrange(0, 4)) as u32)
                    } else {
                        None
                    };
                    let cn: nat = if has_checksum { 4 } else { 0 };
                    Some((DataFrameView { header: h, blocks: bs, checksum }, hn + bn + cn))
                },
            }
        },
    }
}

/// A frame as mathematical values.
pub enum FrameView {
    Data(DataFrameView),
    Skippable { magic: u32, data: Seq<u8> },
}

/// The frame at the start of `s` and its length in bytes, or why it cannot
/// be read.
pub open spec fn frame_model(s: Seq<u8>) -> Result<(FrameView, nat), ParseError> {
    if s.len() < 4 {
        Err(ParseError::Truncated)
    } else {
        let magic = le_value(s.subrange(0, 4)) as u32;
        let rest = s.subrange(4, s.len() as int);
        if magic == DATA_FRAME_MAGIC_NUMBER {
            match data_frame_model(rest) {
                None => Err(ParseError::Truncated),
                Some((f, n)) => Ok((FrameView::Data(f), 4 + n)),
            }
        } else if magic & SKIPPABLE_FRAME_MASK == SKIPPABLE_FRAME_MASK {
            if rest.len() < 4 {
                Err(ParseError::Truncated)
            } else {
                let len = le_value(rest.subrange(0, 4));
                if rest.len() < 4 + len {
                    Err(ParseError::Truncated)
                } else {
                    Ok(
                        (
                            FrameView::Skippable { magic, data: rest.subrange(4, 4 + len as int) },
                            8 + len,
                        ),
                    )
                }
            }
        } else {
            Err(ParseError::FormatMismatch)
        }
    }
}

/// A magic number that is neither the data frame's nor one that holds the
/// skippable mask is refused as a format mismatch.
pub proof fn lemma_unknown_magic(s: Seq<u8>)
    requires
        s.len() >= 4,
        le_value(s.subrange(0, 4)) as u32 != DATA_FRAME_MAGIC_NUMBER,
        (le_value(s.subrange(0, 4)) as u32) & SKIPPABLE_FRAME_MASK != SKIPPABLE_FRAME_MASK,
    ensures
        frame_model(s) == Err::<(FrameView, nat), ParseError>(ParseError::FormatMismatch),
{
}

proof fn lemma_after_prefix_step(
    prefix: Seq<BlockView>,
    k: nat,
    b: BlockView,
    n: nat,
    r: Option<(Seq<BlockView>, nat)>,
)
    ensures
        after_prefix(
            prefix,
            k,
            match r {
                None => None,
                Some((bs, m)) => Some((seq![b] + bs, n + m)),
            },
        ) == after_prefix(prefix.push(b), k + n, r),
{
    if let Some((bs, m)) = r {
        assert(prefix + (seq![b] + bs) =~= prefix.push(b) + bs);
    }
}

/// A frame of compressed data: its header, its blocks in order, and the
/// checksum that may close it.
#[derive(Debug)]
pub struct ZstandardFrame {
    pub header: FrameHeader,
    pub blocks: Vec<Block>,
    pub checksum: Option<u32>,
}

impl ZstandardFrame {
    pub open spec fn view(&self) -> DataFrameView {
        DataFrameView { header: self.header, blocks: block_views(self.blocks@), checksum: self.checksum }
    }

    /// Reads a data frame that follows its magic number: the header, then
    /// blocks up to the one marked last, then the checksum if the header
    /// announces one and it is there.
    pub fn parse(input: &mut ForwardByteParser) -> (r: Result<ZstandardFrame, ParseError>)
        ensures
            r is Err ==> final(input)@ == old(input)@,
            data_frame_model(old(input)@) is None ==> r == Err::<ZstandardFrame, ParseError>(
                ParseError::Truncated,
            ),
            data_frame_model(old(input)@) matches Some((f, n)) ==> (r matches Ok(z) && z@ == f)
                && n <= old(input)@.len() && final(input)@ == old(input)@.subrange(
                n as int,
                old(input)@.len() as int,
            ),
    {
        let ghost s = input@;
        let saved = *input;
        let header = match FrameHeader::parse(input) {
            Ok(h) => h,
            Err(e) => {
                *input = saved;
                return Err(e);
            },
        };
        let ghost start = input@;
        let ghost hn = header_model(s).unwrap().1;
        assert(start == s.subrange(hn as int, s.len() as int));
        let mut blocks: Vec<Block> = Vec::new();
        let ghost mut k: nat = 0;
        assert(start.subrange(0, start.len() as int) =~= start);
        assert(forall|bs: Seq<BlockView>| block_views(blocks@) + bs =~= bs);
        loop
            invariant_except_break
                blocks_model(start) == after_prefix(block_views(blocks@), k, blocks_model(input@)),
            invariant
                s == old(input)@,
                saved@ == s,
                header_model(s) == Some((header, hn)),
                start == s.subrange(hn as int, s.len() as int),
                k <= start.len(),
                input@ == start.subrange(k as int, start.len() as int),
            ensures
                k <= start.len(),
                input@ == start.subrange(k as int, start.len() as int),
                blocks_model(start) == Some((block_views(blocks@), k)),
            decreases input@.len(),
        {
            let ghost before = input@;
            let ghost old_views = block_views(blocks@);
            let (is_last, block) = match Block::parse(input) {
                Ok(p) => p,
                Err(e) => {
                    assert(blocks_model(before) is None);
                    assert(blocks_model(start) is None);
                    assert(data_frame_model(s) is None);
                    *input = saved;
                    return Err(e);
                },
            };
            let ghost n = block_model(before).unwrap().2;
            proof {
                assert(input@ =~= start.subrange(k + n as int, start.len() as int));
                lemma_after_prefix_step(old_views, k, block@, n, blocks_model(input@));
            }
            blocks.push(block);
            assert(block_views(blocks@) =~= old_views.push(blocks@.last()@));
            proof {
                k = k + n;
            }
            if is_last {
                break;
            }
        }
        let ghost tail = input@;
        let checksum = if header.has_content_checksum {
            match input.le_u32() {
                Ok(c) => Some(c),
                Err(_) => None,
            }
        } else {
            None
        };
        proof {
            if checksum is Some {
                assert(input@ =~= s.subrange(s.len() - tail.len() + 4, s.len() as int));
            } else {
                assert(input@ =~= s.subrange(s.len() - tail.len(), s.len() as int));
            }
        }
        Ok(ZstandardFrame { header, blocks, checksum })
    }
}

/// A frame whose content is opaque: its full magic number and its payload.
#[derive(Debug)]
pub struct SkippableFrame {
    pub magic: u32,
    pub data: Vec<u8>,
}

impl SkippableFrame {
    /// The payload.
    pub fn decode(self) -> (r: Vec<u8>)
        ensures
            r@ == self.data@,
    {
        self.data
    }
}

/// A top-level frame.
#[derive(Debug)]
pub enum Frame {
    ZstandardFrame(ZstandardFrame),
    SkippableFrame(SkippableFrame),
}

impl Frame {
    pub open spec fn view(&self) -> FrameView {
        match self {
            Frame::ZstandardFrame(z) => FrameView::Data(z@),
            Frame::SkippableFrame(k) => FrameView::Skippable { magic: k.magic, data: k.data@ },
        }
    }

    /// Reads one frame: its magic number, then a data frame or the length and
    /// payload of a skippable frame.
    pub fn parse(input: &mut ForwardByteParser) -> (r: Result<Frame, ParseError>)
        ensures
            r is Err ==> final(input)@ == old(input)@,
            frame_model(old(input)@) matches Err(e) ==> r == Err::<Frame, ParseError>(e),
            frame_model(old(input)@) matches Ok((f, n)) ==> (r matches Ok(fr) && fr@ == f)
                && final(input)@ == old(input)@.subrange(n as int, old(input)@.len() as int),
    {
        let ghost s = input@;
        let saved = *input;
        let magic_number = match input.le_u32() {
            Ok(m) => m,
            Err(_) => {
                *input = saved;
                return Err(ParseError::Truncated);
            },
        };
        let ghost rest = input@;
        proof {
            lemma_le_value_four(s.subrange(0, 4));
        }
        if magic_number == DATA_FRAME_MAGIC_NUMBER {
            let frame = match ZstandardFrame::parse(input) {
                Ok(f) => f,
                Err(e) => {
                *input = saved;
                return Err(e);
            },
            };
            let ghost n = data_frame_model(rest).unwrap().1;
            assert(input@ =~= s.subrange(4 + n as int, s.len() as int));
            return Ok(Frame::ZstandardFrame(frame));
        }
        if magic_number & SKIPPABLE_FRAME_MASK == SKIPPABLE_FRAME_MASK {
            let length = match input.le_u32() {
                Ok(l) => l,
                Err(_) => {
                *input = saved;
                return Err(ParseError::Truncated);
            },
            };
            proof {
                lemma_le_value_four(rest.subrange(0, 4));
            }
            let data = match input.slice(length as usize) {
                Some(d) => d,
                None => {
                *input = saved;
                return Err(ParseError::Truncated);
            },
            };
            assert(rest.subrange(4, rest.len() as int).subrange(0, length as int) =~= rest.subrange(
                4,
                4 + length as int,
            ));
            assert(input@ =~= s.subrange(8 + length as int, s.len() as int));
            return Ok(
                Frame::SkippableFrame(SkippableFrame { magic: magic_number, data: slice_to_vec(data) }),
            );
        }
        *input = saved;
        Err(ParseError::FormatMismatch)
    }
}

/// Walks a buffer frame by frame. After a frame that cannot be read it
/// reports the error once and then ends, so that a clean end of input and a
/// failure stay apart.
pub struct FrameIterator<'a> {
    parser: ForwardByteParser<'a>,
    failed: bool,
}

impl<'a> FrameIterator<'a> {
    /// The bytes not yet walked, and whether a frame has failed.
    pub closed spec fn view(&self) -> (Seq<u8>, bool) {
        (self.parser@, self.failed)
    }

    pub fn new(data: &'a [u8]) -> (r: Self)
        ensures
            r@ == (data@, false),
    {
        Self { parser: ForwardByteParser::new(data), failed: false }
    }

    /// The next frame; `None` at the end of the input or after an error.
    pub fn next(&mut self) -> (r: Option<Result<Frame, ParseError>>)
        ensures
            old(self)@.1 || old(self)@.0.len() == 0 ==> r is None && final(self)@ == old(self)@,
            !old(self)@.1 && old(self)@.0.len() > 0 ==> match frame_model(old(self)@.0) {
                Err(e) => r == Some(Err::<Frame, ParseError>(e)) && final(self)@ == (old(self)@.0, true),
                Ok((f, n)) => (r matches Some(Ok(fr)) && fr@ == f) && final(self)@ == (
                    old(self)@.0.subrange(n as int, old(self)@.0.len() as int),
                    false,
                ),
            },
    {
        if self.failed || self.parser.is_empty() {
            return None;
        }
        match Frame::parse(&mut self.parser) {
            Ok(f) => Some(Ok(f)),
            Err(e) => {
                self.failed = true;
                Some(Err(e))
            },
        }
    }
}

} // verus!
