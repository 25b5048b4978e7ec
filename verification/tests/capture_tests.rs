use walkie_talkie_engine::capture::{CaptureAction, InputPipeline};
use walkie_talkie_engine::config::MAX_BUFFER_SIZE;
use walkie_talkie_engine::packet::unwrap_packet;

#[test]
fn new_input_pipeline_is_empty() {
    let pipeline = InputPipeline::new(2880, 0xABCD, 0);
    assert_eq!(pipeline.buffered_len(), 0);
    assert_eq!(pipeline.sequence_number(), 0);
    assert_eq!(pipeline.samples_per_frame(), 2880);
    assert_eq!(pipeline.own_node_id(), 0xABCD);
    assert!(!pipeline.frame_ready());
    assert!(pipeline.pending_frame().is_none());
}

#[test]
fn samples_accumulate_until_a_frame_is_complete() {
    let mut pipeline = InputPipeline::new(4, 1, 0);
    pipeline.push_samples(&[1, 2, 3]);
    assert_eq!(pipeline.buffered_len(), 3);
    assert!(!pipeline.frame_ready());
    assert_eq!(pipeline.next_action(true), CaptureAction::Wait);
    assert_eq!(pipeline.next_action(false), CaptureAction::Wait);
    pipeline.push_samples(&[4, 5]);
    assert_eq!(pipeline.buffered_len(), 5);
    assert!(pipeline.frame_ready());
    assert_eq!(pipeline.pending_frame().unwrap(), &[1, 2, 3, 4]);
    assert_eq!(pipeline.next_action(true), CaptureAction::Encode);
    assert_eq!(pipeline.next_action(false), CaptureAction::Discard);
}

#[test]
fn encoded_frame_becomes_a_packet() {
    let mut pipeline = InputPipeline::new(4, 0x0A0B_0C0D, 0);
    pipeline.push_samples(&[1, 2, 3, 4, 5, 6]);
    let packet = pipeline.complete_frame(true, Some(&[0xDE, 0xAD])).unwrap();
    assert_eq!(packet, vec![0x0D, 0x0C, 0x0B, 0x0A, 0x00, 0x00, 0xDE, 0xAD]);
    assert_eq!(pipeline.sequence_number(), 1);
    assert_eq!(pipeline.buffered_len(), 2);
    pipeline.push_samples(&[7, 8]);
    assert_eq!(pipeline.pending_frame().unwrap(), &[5, 6, 7, 8]);
}

#[test]
fn one_packet_per_complete_frame() {
    let mut pipeline = InputPipeline::new(3, 1, 0);
    pipeline.push_samples(&[1, 2, 3, 4, 5, 6, 7, 8]);
    let mut packets = Vec::new();
    while pipeline.next_action(true) == CaptureAction::Encode {
        let first = pipeline.pending_frame().unwrap()[0];
        let payload = [first as u8];
        packets.push(pipeline.complete_frame(true, Some(&payload)).unwrap());
    }
    assert_eq!(packets.len(), 2);
    assert_eq!(packets[0], vec![1, 0, 0, 0, 0, 0, 1]);
    assert_eq!(packets[1], vec![1, 0, 0, 0, 1, 0, 4]);
    assert_eq!(pipeline.buffered_len(), 2);
}

#[test]
fn sequence_numbers_are_consecutive_and_wrap() {
    let mut pipeline = InputPipeline::new(1, 77, 0);
    let mut expected: u16 = 0;
    for round in 0..70000u32 {
        pipeline.push_samples(&[0]);
        let packet = pipeline.complete_frame(true, Some(&[1])).unwrap();
        let (origin_id, seq, payload) = unwrap_packet(&packet).unwrap();
        assert_eq!(origin_id, 77);
        assert_eq!(seq, expected);
        assert_eq!(payload, &[1]);
        expected = expected.wrapping_add(1);
        if round == 65535 {
            assert_eq!(pipeline.sequence_number(), 0);
        }
    }
    assert_eq!(pipeline.sequence_number(), (70000u32 % 65536) as u16);
}

#[test]
fn sequence_resumes_where_the_last_session_stopped() {
    let mut pipeline = InputPipeline::new(2, 9, 65534);
    assert_eq!(pipeline.sequence_number(), 65534);
    pipeline.push_samples(&[0; 6]);
    let seqs: Vec<u16> = (0..3)
        .map(|_| {
            let packet = pipeline.complete_frame(true, Some(&[1])).unwrap();
            unwrap_packet(&packet).unwrap().1
        })
        .collect();
    assert_eq!(seqs, vec![65534, 65535, 0]);
    assert_eq!(pipeline.sequence_number(), 1);
}

#[test]
fn closed_gate_sends_nothing() {
    let mut pipeline = InputPipeline::new(2, 1, 0);
    for _ in 0..100 {
        pipeline.push_samples(&[i16::MAX, i16::MIN, i16::MAX, i16::MIN]);
        while pipeline.frame_ready() {
            assert_eq!(pipeline.next_action(false), CaptureAction::Discard);
            assert!(pipeline.complete_frame(false, None).is_none());
        }
    }
    assert_eq!(pipeline.sequence_number(), 0);
    assert_eq!(pipeline.buffered_len(), 0);
}

#[test]
fn closed_gate_ignores_an_encoded_payload() {
    let mut pipeline = InputPipeline::new(2, 1, 0);
    pipeline.push_samples(&[1, 2, 3]);
    assert!(pipeline.complete_frame(false, Some(&[9, 9])).is_none());
    assert_eq!(pipeline.sequence_number(), 0);
    assert_eq!(pipeline.buffered_len(), 1);
}

#[test]
fn muted_frames_do_not_use_sequence_numbers() {
    let mut pipeline = InputPipeline::new(2, 1, 0);
    pipeline.push_samples(&[0; 10]);
    let first = pipeline.complete_frame(true, Some(&[1])).unwrap();
    assert!(pipeline.complete_frame(false, None).is_none());
    assert!(pipeline.complete_frame(false, None).is_none());
    let second = pipeline.complete_frame(true, Some(&[2])).unwrap();
    assert_eq!(unwrap_packet(&first).unwrap().1, 0);
    assert_eq!(unwrap_packet(&second).unwrap().1, 1);
    assert_eq!(pipeline.buffered_len(), 2);
}

#[test]
fn encoder_failure_drops_the_frame_only() {
    let mut pipeline = InputPipeline::new(2, 1, 0);
    pipeline.push_samples(&[1, 2, 3, 4]);
    assert!(pipeline.complete_frame(true, None).is_none());
    assert_eq!(pipeline.sequence_number(), 0);
    assert_eq!(pipeline.buffered_len(), 2);
    let packet = pipeline.complete_frame(true, Some(&[5])).unwrap();
    assert_eq!(packet, vec![1, 0, 0, 0, 0, 0, 5]);
}

#[test]
fn empty_payload_is_never_transmitted() {
    let mut pipeline = InputPipeline::new(2, 1, 0);
    pipeline.push_samples(&[1, 2, 3, 4]);
    assert!(pipeline.complete_frame(true, Some(&[])).is_none());
    assert_eq!(pipeline.sequence_number(), 0);
    assert_eq!(pipeline.buffered_len(), 2);
}

#[test]
fn nothing_happens_without_a_complete_frame() {
    let mut pipeline = InputPipeline::new(4, 1, 0);
    pipeline.push_samples(&[1, 2, 3]);
    assert!(pipeline.complete_frame(true, Some(&[1])).is_none());
    assert_eq!(pipeline.buffered_len(), 3);
    assert_eq!(pipeline.sequence_number(), 0);
}

#[test]
fn samples_beyond_capacity_are_discarded() {
    let mut pipeline = InputPipeline::new(MAX_BUFFER_SIZE, 1, 0);
    let block: Vec<i16> = (0..MAX_BUFFER_SIZE as i32 + 100).map(|i| (i % 30000) as i16).collect();
    pipeline.push_samples(&block);
    assert_eq!(pipeline.buffered_len(), MAX_BUFFER_SIZE);
    assert_eq!(pipeline.pending_frame().unwrap(), &block[..MAX_BUFFER_SIZE]);
    pipeline.push_samples(&[1, 2, 3]);
    assert_eq!(pipeline.buffered_len(), MAX_BUFFER_SIZE);
    assert_eq!(pipeline.pending_frame().unwrap(), &block[..MAX_BUFFER_SIZE]);
}

#[test]
fn frame_longer_than_the_buffer_is_never_ready() {
    let mut pipeline = InputPipeline::new(MAX_BUFFER_SIZE + 1, 1, 0);
    pipeline.push_samples(&vec![0i16; 2 * MAX_BUFFER_SIZE]);
    assert_eq!(pipeline.buffered_len(), MAX_BUFFER_SIZE);
    assert!(!pipeline.frame_ready());
    assert_eq!(pipeline.next_action(true), CaptureAction::Wait);
}

#[test]
fn default_frame_geometry_roundtrip() {
    let mut pipeline = InputPipeline::new(2880, 5, 0);
    let burst: Vec<i16> = (0..1920).map(|i| i as i16).collect();
    let mut packets = 0;
    for _ in 0..6 {
        pipeline.push_samples(&burst);
        while pipeline.frame_ready() {
            assert_eq!(pipeline.pending_frame().unwrap().len(), 2880);
            assert!(pipeline.complete_frame(true, Some(&[0x55; 40])).is_some());
            packets += 1;
        }
    }
    assert_eq!(packets, 4);
    assert_eq!(pipeline.buffered_len(), 0);
    assert_eq!(pipeline.sequence_number(), 4);
}
