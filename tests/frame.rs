use zstd_rust::block::Block;
use zstd_rust::frame::{Frame, FrameDescriptor, FrameHeader, FrameIterator, ParseError};
use zstd_rust::parsing::ForwardByteParser;

#[test]
fn parse_skippable_frame() {
    let mock_data = [
        // Skippable frame with magic 0x184d2a55, length 3, content 0x10 0x20 0x30
        // and an extra byte at the end.
        0x55, 0x2a, 0x4d, 0x18, 0x03, 0x00, 0x00, 0x00, 0x10, 0x20, 0x30, 0x40,
    ];

    let mut parser = ForwardByteParser::new(&mock_data);

    let Frame::SkippableFrame(skippable) = Frame::parse(&mut parser).unwrap() else {
        panic!("unexpected frame type")
    };
    assert_eq!(0x184d2a55, skippable.magic);
    assert_eq!(1, parser.len());
    assert_eq!(vec![0x10, 0x20, 0x30], skippable.decode());
}

#[test]
fn parse_frame_header() {
    let mock_data = [
        0x87, // 10000111
              // (7-6 bits) 10 - Frame_Content_Size_Flag "2" -> FCS_Field_Size = "4"
              // (5th bit)   0 - Single_Segment_Flag
              // (4-3)       0 - unused/reserved
              // (2nd bit)   1 - content checksum will be present at the frame's end.
              // (1-0 bits) 11 - Dictionary_ID_Flag = 3 -> DID_Field_Size = 4
    ];

    let mut parser = ForwardByteParser::new(&mock_data);

    let frame_header = FrameDescriptor::parse(&mut parser).unwrap();

    assert_eq!(frame_header.is_single_segment, false);
    assert_eq!(frame_header.has_content_checksum, true);
    assert_eq!(frame_header.fcs_field_size, 4);
    assert_eq!(frame_header.did_field_size, 4);

    let mock_data = [
        0x24, // 00100100
              // (7-6 bits) 00 - Frame_Content_Size_Flag, overridden by single segment
              // (5th bit)   1 - Single_Segment_Flag -> FCS_Field_Size = 1
              // (4-3)       0 - unused/reserved
              // (2nd bit)   1 - content checksum will be present at the frame's end.
              // (1-0 bits) 00 - Dictionary_ID_Flag = 0 -> DID_Field_Size = 0
    ];

    let mut parser = ForwardByteParser::new(&mock_data);

    let frame_header = FrameDescriptor::parse(&mut parser).unwrap();

    assert_eq!(frame_header.is_single_segment, true);
    assert_eq!(frame_header.has_content_checksum, true);
    assert_eq!(frame_header.fcs_field_size, 1);
    assert_eq!(frame_header.did_field_size, 0);
}

#[test]
fn header_of_descriptor_alone_is_truncated() {
    let mut parser = ForwardByteParser::new(&[0x87]);
    assert_eq!(Err(ParseError::Truncated), FrameHeader::parse(&mut parser));
    let mut parser = ForwardByteParser::new(&[0x24]);
    assert_eq!(Err(ParseError::Truncated), FrameHeader::parse(&mut parser));
    let mut parser = ForwardByteParser::new(&[]);
    assert_eq!(Err(ParseError::Truncated), FrameDescriptor::parse(&mut parser));
}

#[test]
fn full_frame_header() {
    let data = [
        0x87, // not single segment, checksum, did 4 bytes, fcs 4 bytes
        0x0b, // window: exponent 1, mantissa 3 -> 2048 + 256 * 3
        0x04, 0x03, 0x02, 0x01, // dictionary id
        0x40, 0x30, 0x20, 0x10, // content size
        0xee,
    ];
    let mut parser = ForwardByteParser::new(&data);
    let header = FrameHeader::parse(&mut parser).unwrap();
    assert!(!header.is_single_segment);
    assert!(header.has_content_checksum);
    assert_eq!(Some(2816), header.window_descriptor);
    assert_eq!(Some(0x01020304), header.dictionary_id);
    assert_eq!(Some(0x10203040), header.fc_size);
    assert_eq!(1, parser.len());
}

#[test]
fn largest_window_and_eight_byte_content_size() {
    let data = [
        0xc0, // fcs flag 3 -> 8 bytes, no dictionary, no checksum
        0xff, // exponent 31, mantissa 7
        0x01, 0x02, 0x03, 0x04, 0x05, 0x06, 0x07, 0x88,
    ];
    let mut parser = ForwardByteParser::new(&data);
    let header = FrameHeader::parse(&mut parser).unwrap();
    let base: u64 = 1 << 41;
    assert_eq!(Some(base + (base / 8) * 7), header.window_descriptor);
    assert_eq!(None, header.dictionary_id);
    assert_eq!(8, header.fcs_field_size);
    assert_eq!(Some(0x8807060504030201), header.fc_size);
    assert!(parser.is_empty());
}

#[test]
fn single_segment_header_has_no_window() {
    let data = [0x21, 0x09, 0x05];
    let mut parser = ForwardByteParser::new(&data);
    let header = FrameHeader::parse(&mut parser).unwrap();
    assert!(header.is_single_segment);
    assert!(!header.has_content_checksum);
    assert_eq!(None, header.window_descriptor);
    assert_eq!(1, header.did_field_size);
    assert_eq!(Some(9), header.dictionary_id);
    assert_eq!(Some(5), header.fc_size);
    assert!(parser.is_empty());
}

fn data_frame() -> Vec<u8> {
    vec![
        0x28, 0xb5, 0x2f, 0xfd, // magic
        0x24, // single segment, checksum
        0x05, // content size
        0x18, 0x00, 0x00, 0x61, 0x62, 0x63, // raw, size 3, not last
        0x2b, 0x00, 0x00, 0x7a, // rle of 5, last
        0x01, 0x02, 0x03, 0x04, // checksum
    ]
}

#[test]
fn parse_data_frame() {
    let data = data_frame();
    let mut parser = ForwardByteParser::new(&data);
    let Frame::ZstandardFrame(frame) = Frame::parse(&mut parser).unwrap() else {
        panic!("expected a data frame")
    };
    assert_eq!(Some(5), frame.header.fc_size);
    assert_eq!(2, frame.blocks.len());
    assert_eq!(Ok(vec![0x61, 0x62, 0x63]), frame.blocks[0].decode());
    assert!(matches!(frame.blocks[1], Block::RLE { byte: 0x7a, repeat: 5 }));
    assert_eq!(Some(0x04030201), frame.checksum);
    assert!(parser.is_empty());
}

#[test]
fn cut_checksum_is_absent() {
    let mut data = data_frame();
    data.truncate(data.len() - 1);
    let mut parser = ForwardByteParser::new(&data);
    let Frame::ZstandardFrame(frame) = Frame::parse(&mut parser).unwrap() else {
        panic!("expected a data frame")
    };
    assert_eq!(None, frame.checksum);
    assert_eq!(3, parser.len());
}

#[test]
fn data_frame_cut_inside_a_block() {
    let mut data = data_frame();
    data.truncate(10);
    let mut parser = ForwardByteParser::new(&data);
    assert!(matches!(Frame::parse(&mut parser), Err(ParseError::Truncated)));
}

#[test]
fn unknown_magic_is_a_format_mismatch() {
    let data = [0x78, 0x56, 0x34, 0x12, 0x00, 0x00, 0x00, 0x00];
    let mut parser = ForwardByteParser::new(&data);
    assert!(matches!(Frame::parse(&mut parser), Err(ParseError::FormatMismatch)));
}

#[test]
fn short_magic_is_truncated() {
    let data = [0x28, 0xb5, 0x2f];
    let mut parser = ForwardByteParser::new(&data);
    assert!(matches!(Frame::parse(&mut parser), Err(ParseError::Truncated)));
}

#[test]
fn skippable_payload_cut_short() {
    let data = [0x50, 0x2a, 0x4d, 0x18, 0x05, 0x00, 0x00, 0x00, 0x10];
    let mut parser = ForwardByteParser::new(&data);
    assert!(matches!(Frame::parse(&mut parser), Err(ParseError::Truncated)));
}

#[test]
fn iterator_walks_every_frame_then_ends() {
    let mut data = data_frame();
    data.extend_from_slice(&[0x5f, 0x2a, 0x4d, 0x18, 0x01, 0x00, 0x00, 0x00, 0x99]);
    let mut frames = FrameIterator::new(&data);
    assert!(matches!(frames.next(), Some(Ok(Frame::ZstandardFrame(_)))));
    match frames.next() {
        Some(Ok(Frame::SkippableFrame(s))) => {
            assert_eq!(0x184d2a5f, s.magic);
            assert_eq!(vec![0x99], s.data);
        }
        _ => panic!("expected a skippable frame"),
    }
    assert!(frames.next().is_none());
}

#[test]
fn iterator_reports_an_error_once() {
    let data = [0x78, 0x56, 0x34, 0x12];
    let mut frames = FrameIterator::new(&data);
    assert!(matches!(frames.next(), Some(Err(ParseError::FormatMismatch))));
    assert!(frames.next().is_none());
}

#[test]
fn iterator_over_empty_input() {
    let mut frames = FrameIterator::new(&[]);
    assert!(frames.next().is_none());
}
