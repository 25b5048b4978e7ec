use walkie_talkie_engine::mixer::{DecodeJob, OutputPipeline};

const BLOCK: usize = 4;

fn payload_of(peer: u32, seq: u16) -> Vec<u8> {
    vec![peer as u8, (seq & 0xFF) as u8, (seq >> 8) as u8]
}

fn ingest_range(pipeline: &mut OutputPipeline, peer: u32, seqs: std::ops::Range<u16>) {
    for seq in seqs {
        pipeline.ingest(peer, seq, payload_of(peer, seq));
    }
}

/// Runs one block. Every decode job is answered with a frame of `BLOCK`
/// samples whose value is the serving peer's `level`; concealment is
/// answered with a frame of ones. Returns the output block, the played
/// (peer, payload) pairs, the peers that asked for concealment and the
/// dropped peers.
fn run_block(
    pipeline: &mut OutputPipeline,
    level: &dyn Fn(u32) -> i16,
) -> (Vec<i16>, Vec<(u32, Vec<u8>)>, Vec<u32>, Vec<u32>) {
    let mut played = Vec::new();
    let mut concealed = Vec::new();
    pipeline.begin_block(BLOCK);
    loop {
        match pipeline.next_job() {
            DecodeJob::Decode { peer, payload } => {
                played.push((peer, payload));
                pipeline.accept_decoded(&[level(peer); BLOCK]);
            }
            DecodeJob::Conceal { peer } => {
                concealed.push(peer);
                pipeline.accept_decoded(&[1; BLOCK]);
            }
            DecodeJob::Done => break,
        }
    }
    let mut frames = vec![0i16; BLOCK];
    let dropped = pipeline.finish_block(&mut frames);
    (frames, played, concealed, dropped)
}

#[test]
fn new_pipeline_has_no_peers() {
    let pipeline = OutputPipeline::new(16);
    assert_eq!(pipeline.peer_count(), 0);
    assert!(!pipeline.has_peer(1));
    assert!(pipeline.peer(1).is_none());
    assert_eq!(pipeline.block_len(), 0);
}

#[test]
fn block_without_peers_is_silent() {
    let mut pipeline = OutputPipeline::new(16);
    pipeline.begin_block(BLOCK);
    assert_eq!(pipeline.block_len(), BLOCK);
    assert!(matches!(pipeline.next_job(), DecodeJob::Done));
    let mut frames = vec![55i16; BLOCK];
    let dropped = pipeline.finish_block(&mut frames);
    assert_eq!(frames, vec![0; BLOCK]);
    assert!(dropped.is_empty());
}

#[test]
fn ingest_creates_peer_on_first_packet() {
    let mut pipeline = OutputPipeline::new(16);
    pipeline.ingest(42, 7, vec![1, 2, 3]);
    assert_eq!(pipeline.peer_count(), 1);
    assert!(pipeline.has_peer(42));
    let peer = pipeline.peer(42).unwrap();
    assert!(peer.is_buffering());
    assert_eq!(peer.packets_held(), 1);
    assert_eq!(peer.silence_counter(), 0);
    pipeline.ingest(42, 8, vec![4]);
    pipeline.ingest(43, 0, vec![5]);
    assert_eq!(pipeline.peer_count(), 2);
    assert_eq!(pipeline.peer(42).unwrap().packets_held(), 2);
    assert_eq!(pipeline.peer(43).unwrap().packets_held(), 1);
}

#[test]
fn happy_path_single_peer() {
    // Twenty packets, one arriving ahead of every output block.
    let mut pipeline = OutputPipeline::new(16);
    let mut played_seqs = Vec::new();
    for block in 0..20u16 {
        pipeline.ingest(9, block, payload_of(9, block));
        let (frames, played, concealed, dropped) = run_block(&mut pipeline, &|_| 300);
        assert!(concealed.is_empty());
        assert!(dropped.is_empty());
        if block < 5 {
            // Fewer than six packets held: still buffering.
            assert!(played.is_empty());
            assert_eq!(frames, vec![0; BLOCK]);
            assert!(pipeline.peer(9).unwrap().is_buffering());
        } else {
            // The sixth packet starts playout.
            assert_eq!(played.len(), 1);
            assert_eq!(frames, vec![300; BLOCK]);
            played_seqs.push(played[0].1.clone());
        }
    }
    // The stream stops. The five packets still held are played out.
    for _ in 0..5 {
        let (frames, played, _, _) = run_block(&mut pipeline, &|_| 300);
        assert_eq!(frames, vec![300; BLOCK]);
        played_seqs.push(played[0].1.clone());
    }
    let expected: Vec<Vec<u8>> = (0..20u16).map(|seq| payload_of(9, seq)).collect();
    assert_eq!(played_seqs, expected);
    // Everything is consumed: the next block underruns and buffering reasserts.
    let (frames, played, concealed, _) = run_block(&mut pipeline, &|_| 300);
    assert_eq!(frames, vec![0; BLOCK]);
    assert!(played.is_empty() && concealed.is_empty());
    let peer = pipeline.peer(9).unwrap();
    assert!(peer.is_buffering());
    assert_eq!(peer.packets_held(), 0);
    assert_eq!(peer.next_expected_seq(), Some(20));
}

#[test]
fn two_peers_saturate_the_mix() {
    let mut pipeline = OutputPipeline::new(16);
    ingest_range(&mut pipeline, 1, 0..6);
    ingest_range(&mut pipeline, 2, 100..106);
    let (frames, played, concealed, dropped) = run_block(&mut pipeline, &|_| 20000);
    assert_eq!(frames, vec![32767; BLOCK]);
    assert_eq!(played.len(), 2);
    assert!(concealed.is_empty());
    assert!(dropped.is_empty());
}

#[test]
fn two_quiet_peers_sum_exactly() {
    let mut pipeline = OutputPipeline::new(16);
    ingest_range(&mut pipeline, 1, 0..6);
    ingest_range(&mut pipeline, 2, 0..6);
    let (frames, mut played, _, _) = run_block(&mut pipeline, &|peer| {
        if peer == 1 {
            1000
        } else {
            -250
        }
    });
    assert_eq!(frames, vec![750; BLOCK]);
    played.sort();
    assert_eq!(played, vec![(1, payload_of(1, 0)), (2, payload_of(2, 0))]);
}

#[test]
fn negative_sum_saturates_too() {
    let mut pipeline = OutputPipeline::new(16);
    ingest_range(&mut pipeline, 1, 0..6);
    ingest_range(&mut pipeline, 2, 0..6);
    ingest_range(&mut pipeline, 3, 0..6);
    let (frames, _, _, _) = run_block(&mut pipeline, &|_| -20000);
    assert_eq!(frames, vec![-32768; BLOCK]);
}

#[test]
fn buffering_peer_adds_silence_to_the_mix() {
    let mut pipeline = OutputPipeline::new(16);
    ingest_range(&mut pipeline, 1, 0..6);
    ingest_range(&mut pipeline, 2, 0..3);
    let (frames, played, _, _) = run_block(&mut pipeline, &|_| 123);
    assert_eq!(frames, vec![123; BLOCK]);
    assert_eq!(played, vec![(1, payload_of(1, 0))]);
    assert!(pipeline.peer(2).unwrap().is_buffering());
}

#[test]
fn lost_packet_asks_for_concealment() {
    let mut pipeline = OutputPipeline::new(16);
    ingest_range(&mut pipeline, 5, 0..5);
    ingest_range(&mut pipeline, 5, 6..10);
    for seq in 0..5u16 {
        let (_, played, concealed, _) = run_block(&mut pipeline, &|_| 10);
        assert_eq!(played, vec![(5, payload_of(5, seq))]);
        assert!(concealed.is_empty());
    }
    let (frames, played, concealed, _) = run_block(&mut pipeline, &|_| 10);
    assert!(played.is_empty());
    assert_eq!(concealed, vec![5]);
    assert_eq!(frames, vec![1; BLOCK]);
    let (_, played, concealed, _) = run_block(&mut pipeline, &|_| 10);
    assert_eq!(played, vec![(5, payload_of(5, 6))]);
    assert!(concealed.is_empty());
}

#[test]
fn large_gap_resyncs_in_the_pipeline() {
    let mut pipeline = OutputPipeline::new(16);
    ingest_range(&mut pipeline, 5, 0..5);
    ingest_range(&mut pipeline, 5, 100..105);
    for seq in 0..5u16 {
        let (_, played, _, _) = run_block(&mut pipeline, &|_| 10);
        assert_eq!(played, vec![(5, payload_of(5, seq))]);
    }
    let (_, played, concealed, _) = run_block(&mut pipeline, &|_| 10);
    assert_eq!(played, vec![(5, payload_of(5, 100))]);
    assert!(concealed.is_empty());
    assert_eq!(pipeline.peer(5).unwrap().next_expected_seq(), Some(101));
}

#[test]
fn silent_peer_is_collected_after_the_limit() {
    let mut pipeline = OutputPipeline::new(16);
    pipeline.ingest(7, 0, vec![1]);
    for block in 1..=250usize {
        let (_, _, _, dropped) = run_block(&mut pipeline, &|_| 0);
        assert!(dropped.is_empty());
        assert_eq!(pipeline.peer(7).unwrap().silence_counter(), block);
    }
    let (_, _, _, dropped) = run_block(&mut pipeline, &|_| 0);
    assert_eq!(dropped, vec![7]);
    assert!(!pipeline.has_peer(7));
    assert_eq!(pipeline.peer_count(), 0);
}

#[test]
fn packet_resets_the_silence_counter() {
    let mut pipeline = OutputPipeline::new(16);
    pipeline.ingest(7, 0, vec![1]);
    for _ in 0..250 {
        run_block(&mut pipeline, &|_| 0);
    }
    pipeline.ingest(7, 1, vec![1]);
    let (_, _, _, dropped) = run_block(&mut pipeline, &|_| 0);
    assert!(dropped.is_empty());
    assert_eq!(pipeline.peer(7).unwrap().silence_counter(), 1);
}

#[test]
fn only_the_silent_peer_is_collected() {
    let mut pipeline = OutputPipeline::new(16);
    pipeline.ingest(1, 0, vec![1]);
    pipeline.ingest(2, 0, vec![1]);
    for block in 0..251u16 {
        pipeline.ingest(2, block, vec![1]);
        let (_, _, _, dropped) = run_block(&mut pipeline, &|_| 0);
        if block < 250 {
            assert!(dropped.is_empty());
        } else {
            assert_eq!(dropped, vec![1]);
        }
    }
    assert!(pipeline.has_peer(2));
    assert!(!pipeline.has_peer(1));
}

#[test]
fn peer_is_served_in_the_block_that_drops_it() {
    let mut pipeline = OutputPipeline::new(16);
    ingest_range(&mut pipeline, 7, 0..6);
    let mut frames = vec![0i16; 1];
    // One long frame is decoded in the first block of one sample; its
    // leftover then feeds one block after the other.
    pipeline.begin_block(1);
    assert!(matches!(pipeline.next_job(), DecodeJob::Decode { peer: 7, .. }));
    pipeline.accept_decoded(&[77; 300]);
    assert!(matches!(pipeline.next_job(), DecodeJob::Done));
    assert!(pipeline.finish_block(&mut frames).is_empty());
    assert_eq!(frames, vec![77]);
    for block in 2..=250usize {
        pipeline.begin_block(1);
        assert!(matches!(pipeline.next_job(), DecodeJob::Done));
        assert!(pipeline.finish_block(&mut frames).is_empty());
        assert_eq!(frames, vec![77]);
        assert_eq!(pipeline.peer(7).unwrap().silence_counter(), block);
    }
    // The 251st block without a packet still plays, and then drops the peer.
    pipeline.begin_block(1);
    assert!(matches!(pipeline.next_job(), DecodeJob::Done));
    assert_eq!(pipeline.finish_block(&mut frames), vec![7]);
    assert_eq!(frames, vec![77]);
    assert!(!pipeline.has_peer(7));
}

#[test]
fn jitter_buffer_is_bounded_after_every_block() {
    let mut pipeline = OutputPipeline::new(4);
    for round in 0..10u16 {
        ingest_range(&mut pipeline, 3, round * 7..round * 7 + 7);
        run_block(&mut pipeline, &|_| 0);
        assert!(pipeline.peer(3).unwrap().packets_held() <= 4);
    }
}

#[test]
fn leftover_carries_into_the_next_block() {
    let mut pipeline = OutputPipeline::new(16);
    ingest_range(&mut pipeline, 1, 0..6);
    pipeline.begin_block(BLOCK);
    assert!(matches!(pipeline.next_job(), DecodeJob::Decode { peer: 1, .. }));
    pipeline.accept_decoded(&[1, 2, 3, 4, 5, 6]);
    assert!(matches!(pipeline.next_job(), DecodeJob::Done));
    let mut frames = vec![0i16; BLOCK];
    pipeline.finish_block(&mut frames);
    assert_eq!(frames, vec![1, 2, 3, 4]);
    assert_eq!(pipeline.peer(1).unwrap().leftover_len(), 2);

    pipeline.begin_block(BLOCK);
    assert!(matches!(pipeline.next_job(), DecodeJob::Decode { peer: 1, .. }));
    pipeline.accept_decoded(&[7, 8]);
    assert!(matches!(pipeline.next_job(), DecodeJob::Done));
    pipeline.finish_block(&mut frames);
    assert_eq!(frames, vec![5, 6, 7, 8]);
    assert_eq!(pipeline.peer(1).unwrap().leftover_len(), 0);
    assert_eq!(pipeline.peer(1).unwrap().packets_held(), 4);
}

#[test]
fn failed_decodes_drain_the_buffer_without_sound() {
    let mut pipeline = OutputPipeline::new(16);
    ingest_range(&mut pipeline, 1, 0..6);
    pipeline.begin_block(BLOCK);
    let mut jobs = 0;
    loop {
        match pipeline.next_job() {
            DecodeJob::Done => break,
            _ => {
                jobs += 1;
                pipeline.accept_decoded(&[]);
            }
        }
    }
    assert_eq!(jobs, 6);
    let mut frames = vec![9i16; BLOCK];
    pipeline.finish_block(&mut frames);
    assert_eq!(frames, vec![0; BLOCK]);
    let peer = pipeline.peer(1).unwrap();
    assert!(peer.is_buffering());
    assert_eq!(peer.packets_held(), 0);
}

#[test]
fn decoded_samples_without_a_served_peer_are_dropped() {
    let mut pipeline = OutputPipeline::new(16);
    pipeline.accept_decoded(&[1000; BLOCK]);
    pipeline.begin_block(BLOCK);
    pipeline.accept_decoded(&[1000; BLOCK]);
    assert!(matches!(pipeline.next_job(), DecodeJob::Done));
    pipeline.accept_decoded(&[1000; BLOCK]);
    let mut frames = vec![9i16; BLOCK];
    pipeline.finish_block(&mut frames);
    assert_eq!(frames, vec![0; BLOCK]);
}

#[test]
fn packets_arriving_mid_block_wait_for_the_next_block() {
    let mut pipeline = OutputPipeline::new(16);
    ingest_range(&mut pipeline, 1, 0..6);
    pipeline.begin_block(BLOCK);
    // A peer first heard from while the block is being filled is not served in it.
    ingest_range(&mut pipeline, 2, 0..6);
    let mut served = Vec::new();
    loop {
        match pipeline.next_job() {
            DecodeJob::Decode { peer, .. } => {
                served.push(peer);
                pipeline.accept_decoded(&[10; BLOCK]);
            }
            DecodeJob::Conceal { .. } => panic!("no packet was lost"),
            DecodeJob::Done => break,
        }
    }
    let mut frames = vec![0i16; BLOCK];
    pipeline.finish_block(&mut frames);
    assert_eq!(served, vec![1]);
    assert_eq!(frames, vec![10; BLOCK]);
    let (frames, played, _, _) = run_block(&mut pipeline, &|_| 10);
    assert_eq!(played.len(), 2);
    assert_eq!(frames, vec![20; BLOCK]);
}

#[test]
fn output_is_repeatable_for_the_same_input() {
    let run = || {
        let mut pipeline = OutputPipeline::new(8);
        let mut blocks = Vec::new();
        for round in 0..12u16 {
            for peer in 1..=3u32 {
                if (round + peer as u16) % 4 != 0 {
                    pipeline.ingest(peer, round, payload_of(peer, round));
                }
            }
            let (frames, _, _, _) = run_block(&mut pipeline, &|peer| (peer as i16) * 1000);
            blocks.push(frames);
        }
        blocks
    };
    assert_eq!(run(), run());
}
