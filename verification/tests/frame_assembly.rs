//! Cutting PCM byte streams into exact 10 ms frames.

use gezellig::frames::{frame_bytes, FrameAssembler};

#[test]
fn constants_are_correct() {
    // 48000 Hz / 100 = 480 samples per 10ms frame per channel.
    assert_eq!(frame_bytes(48000, 1) / 2, 480);
    // Stereo: 480 * 2 = 960 samples per frame.
    assert_eq!(frame_bytes(48000, 2) / 2, 960);
}

#[test]
fn frames_are_exact_and_remainder_is_kept() {
    // Three full frames plus a partial remainder, fed in awkward pieces.
    let fs = 10;
    let mut assembler = FrameAssembler::new(fs);
    let data: Vec<u8> = (0..37u8).collect();
    let mut frames = Vec::new();
    for chunk in [&data[0..3], &data[3..16], &data[16..16], &data[16..33], &data[33..37]] {
        frames.extend(assembler.push_chunk(&chunk.to_vec()));
    }
    assert_eq!(frames.len(), 3);
    for frame in &frames {
        assert_eq!(frame.len(), fs);
    }
    let rejoined: Vec<u8> = frames.concat();
    assert_eq!(&rejoined[..], &data[0..30]);
    assert_eq!(&assembler.buffer[..], &data[30..37]);
}

#[test]
fn no_short_frame_is_emitted() {
    let mut assembler = FrameAssembler::new(8);
    assert!(assembler.push_chunk(&vec![1, 2, 3]).is_empty());
    assert!(assembler.push_chunk(&vec![4]).is_empty());
    let frames = assembler.push_chunk(&vec![5, 6, 7, 8, 9]);
    assert_eq!(frames.len(), 1);
    assert_eq!(frames[0], vec![1, 2, 3, 4, 5, 6, 7, 8]);
    assert_eq!(assembler.buffer, vec![9]);
}

#[test]
fn an_exact_fill_leaves_an_empty_buffer() {
    let mut assembler = FrameAssembler::new(4);
    let frames = assembler.push_chunk(&vec![1, 2, 3, 4, 5, 6, 7, 8]);
    assert_eq!(frames.len(), 2);
    assert!(assembler.buffer.is_empty());
}
