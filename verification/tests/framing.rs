use stft::framer::{ConfigurationError, Framer};

fn ramp(from: i16, len: usize) -> Vec<i16> {
    let mut out = Vec::with_capacity(len);
    let mut value = from;
    for _ in 0..len {
        out.push(value);
        value = value.wrapping_add(1);
    }
    out
}

#[test]
fn new_accepts_hop_up_to_frame_size() {
    let framer = Framer::new(4, 4).ok().expect("hop equal to the frame size is valid");
    assert_eq!(framer.frame_size(), 4);
    assert_eq!(framer.hop_size(), 4);
    assert_eq!(framer.pending_len(), 0);
    assert!(Framer::new(4, 1).is_ok());
}

#[test]
fn new_rejects_empty_frame() {
    assert_eq!(Framer::new(0, 0).err(), Some(ConfigurationError::EmptyFrame));
    assert_eq!(Framer::new(0, 3).err(), Some(ConfigurationError::EmptyFrame));
}

#[test]
fn new_rejects_hop_out_of_range() {
    assert_eq!(Framer::new(4, 0).err(), Some(ConfigurationError::HopOutOfRange));
    assert_eq!(Framer::new(4, 5).err(), Some(ConfigurationError::HopOutOfRange));
}

#[test]
fn process_cuts_overlapping_frames_in_order() {
    let mut framer = Framer::new(4, 2).ok().expect("valid sizes");
    let frames = framer.process(&[1, 2, 3, 4, 5, 6]);
    assert_eq!(frames, vec![vec![1i16, 2, 3, 4], vec![3i16, 4, 5, 6]]);
    assert_eq!(framer.pending_len(), 2);
}

#[test]
fn process_keeps_leftover_across_calls() {
    let mut framer = Framer::new(4, 2).ok().expect("valid sizes");
    assert_eq!(framer.process(&[1, 2, 3, 4, 5, 6]).len(), 2);
    let frames = framer.process(&[7, 8]);
    assert_eq!(frames, vec![vec![5i16, 6, 7, 8]]);
    assert_eq!(framer.pending_len(), 2);
    let frames = framer.process(&[9]);
    assert!(frames.is_empty());
    assert_eq!(framer.pending_len(), 3);
    let frames = framer.process(&[10]);
    assert_eq!(frames, vec![vec![7i16, 8, 9, 10]]);
}

#[test]
fn process_gives_nothing_before_a_whole_frame() {
    let mut framer = Framer::new(5, 2).ok().expect("valid sizes");
    assert!(framer.process(&[1, 2]).is_empty());
    assert!(framer.process(&[3, 4]).is_empty());
    assert_eq!(framer.pending_len(), 4);
    assert_eq!(framer.process(&[5]), vec![vec![1i16, 2, 3, 4, 5]]);
    assert_eq!(framer.pending_len(), 3);
}

#[test]
fn process_of_no_samples_gives_no_frame() {
    let mut framer = Framer::new(4, 2).ok().expect("valid sizes");
    assert!(framer.process(&[]).is_empty());
    assert_eq!(framer.pending_len(), 0);
    framer.process(&[1, 2, 3]);
    assert!(framer.process(&[]).is_empty());
    assert_eq!(framer.pending_len(), 3);
}

#[test]
fn process_of_exactly_one_frame_gives_that_frame() {
    let mut framer = Framer::new(6, 2).ok().expect("valid sizes");
    let samples = ramp(-3, 6);
    assert_eq!(framer.process(&samples), vec![samples.clone()]);
    assert_eq!(framer.pending_len(), 4);
}

#[test]
fn process_without_overlap_partitions_the_stream() {
    let mut framer = Framer::new(3, 3).ok().expect("valid sizes");
    let frames = framer.process(&[1, 2, 3, 4, 5, 6, 7]);
    assert_eq!(frames, vec![vec![1i16, 2, 3], vec![4i16, 5, 6]]);
    assert_eq!(framer.pending_len(), 1);
}

#[test]
fn frame_count_follows_the_formula() {
    // (len - frame) / hop + 1 frames once a whole frame fits
    let mut framer = Framer::new(10, 3).ok().expect("valid sizes");
    let frames = framer.process(&ramp(0, 100));
    assert_eq!(frames.len(), (100 - 10) / 3 + 1);
    for (k, frame) in frames.iter().enumerate() {
        assert_eq!(frame, &ramp((k * 3) as i16, 10));
    }
    assert_eq!(framer.pending_len(), 100 - 31 * 3);
}

#[test]
fn chunked_stream_gives_the_same_frames_as_whole_stream() {
    let stream = ramp(-50, 97);
    let mut whole = Framer::new(8, 3).ok().expect("valid sizes");
    let expected = whole.process(&stream);
    for split in 0..=stream.len() {
        let mut chunked = Framer::new(8, 3).ok().expect("valid sizes");
        let mut frames = chunked.process(&stream[..split]);
        frames.extend(chunked.process(&stream[split..]));
        assert_eq!(frames, expected);
        assert_eq!(chunked.pending_len(), whole.pending_len());
    }
}

#[test]
fn sample_by_sample_stream_gives_the_same_frames() {
    let stream = ramp(1000, 40);
    let mut whole = Framer::new(7, 2).ok().expect("valid sizes");
    let expected = whole.process(&stream);
    let mut single = Framer::new(7, 2).ok().expect("valid sizes");
    let mut frames = Vec::new();
    for sample in &stream {
        frames.extend(single.process(&[*sample]));
    }
    assert_eq!(frames, expected);
}

#[test]
fn advance_leaves_the_framer_as_it_was() {
    let mut framer = Framer::new(4, 2).ok().expect("valid sizes");
    framer.process(&[1, 2, 3]);
    let (frames, next) = framer.advance(&[4, 5, 6]);
    assert_eq!(frames, vec![vec![1i16, 2, 3, 4], vec![3i16, 4, 5, 6]]);
    assert_eq!(framer.pending_len(), 3);
    assert_eq!(next.pending_len(), 2);
    assert_eq!(next.frame_size(), 4);
    assert_eq!(next.hop_size(), 2);
    let (again, _) = framer.advance(&[4, 5, 6]);
    assert_eq!(again, frames);
}

#[test]
fn advance_and_process_agree() {
    let stream = ramp(7, 50);
    let mut by_process = Framer::new(9, 4).ok().expect("valid sizes");
    let mut by_advance = Framer::new(9, 4).ok().expect("valid sizes");
    for chunk in stream.chunks(7) {
        let expected = by_process.process(chunk);
        let (frames, next) = by_advance.advance(chunk);
        by_advance = next;
        assert_eq!(frames, expected);
        assert_eq!(by_advance.pending_len(), by_process.pending_len());
    }
}
