//! Pipeline scenarios on concrete values: out-of-order arrival, synthesis
//! failure gaps, a fatal write failure, and skipped decode failures.

use tts_pipeline::pipeline::ConsumeAction;
use tts_pipeline::pipeline::ConsumerKind;
use tts_pipeline::pipeline::PipelineState;
use tts_pipeline::pipeline::consume_decision;
use tts_pipeline::reorder::AudioFragment;
use tts_pipeline::reorder::ReorderBuffer;

fn frag_bytes(index: usize) -> Vec<u8> {
    vec![index as u8, 0xAA, 0xBB]
}

fn indices(released: &[AudioFragment]) -> Vec<usize> {
    released.iter().map(|f| f.index).collect()
}

#[test]
fn reverse_completion_order_releases_in_order() {
    // four fragments complete in order 3, 2, 1, 0; releases come out 0, 1, 2, 3
    let mut buffer = ReorderBuffer::new();
    let mut released: Vec<AudioFragment> = Vec::new();
    for index in [3usize, 2, 1].iter() {
        let out = buffer.on_arrival(*index, frag_bytes(*index));
        assert!(out.is_empty());
        released.extend(out);
    }
    let out = buffer.on_arrival(0, frag_bytes(0));
    assert_eq!(indices(&out), vec![0, 1, 2, 3]);
    released.extend(out);
    for (position, fragment) in released.iter().enumerate() {
        assert_eq!(fragment.index, position);
        assert_eq!(fragment.bytes, frag_bytes(position));
    }
    assert_eq!(buffer.released_count(), 4);
}

#[test]
fn every_permutation_releases_the_same_sequence() {
    let permutations: [[usize; 3]; 6] =
        [[0, 1, 2], [0, 2, 1], [1, 0, 2], [1, 2, 0], [2, 0, 1], [2, 1, 0]];
    for order in permutations.iter() {
        let mut buffer = ReorderBuffer::new();
        let mut released: Vec<AudioFragment> = Vec::new();
        for index in order.iter() {
            released.extend(buffer.on_arrival(*index, frag_bytes(*index)));
        }
        assert_eq!(indices(&released), vec![0, 1, 2]);
        for fragment in &released {
            assert_eq!(fragment.bytes, frag_bytes(fragment.index));
        }
    }
}

#[test]
fn gap_blocks_all_higher_indices() {
    // index 1 never arrives: 2 and 3 arrive but are never released
    let mut buffer = ReorderBuffer::new();
    let mut released: Vec<AudioFragment> = Vec::new();
    released.extend(buffer.on_arrival(2, frag_bytes(2)));
    released.extend(buffer.on_arrival(0, frag_bytes(0)));
    released.extend(buffer.on_arrival(3, frag_bytes(3)));
    assert_eq!(indices(&released), vec![0]);
    assert_eq!(buffer.released_count(), 1);
}

#[test]
fn indices_are_released_at_most_once() {
    // a duplicate of an already-released index is ignored
    let mut buffer = ReorderBuffer::new();
    let first = buffer.on_arrival(0, frag_bytes(0));
    assert_eq!(indices(&first), vec![0]);
    let again = buffer.on_arrival(0, vec![0xFF]);
    assert!(again.is_empty());
    assert_eq!(buffer.released_count(), 1);
}

#[test]
fn failed_chunk_truncates_release_sequence() {
    // five chunks; synthesis for index 2 fails; 3 and 4 complete fine
    let mut run = PipelineState::new(ConsumerKind::StreamingPlayer);
    let mut released: Vec<AudioFragment> = Vec::new();
    released.extend(run.on_synthesis_success(0, frag_bytes(0)));
    released.extend(run.on_synthesis_success(1, frag_bytes(1)));
    run.on_synthesis_failure(2);
    released.extend(run.on_synthesis_success(3, frag_bytes(3)));
    released.extend(run.on_synthesis_success(4, frag_bytes(4)));
    assert_eq!(indices(&released), vec![0, 1]);
    let outcome = run.outcome();
    assert_eq!(outcome.released_count, 2);
    assert_eq!(outcome.failed_indices, vec![2]);
    assert!(!outcome.fatal);
}

#[test]
fn write_failure_is_fatal_and_stops_the_writer() {
    // sequential writer; the write of the 2nd released fragment fails
    let mut run = PipelineState::new(ConsumerKind::SequentialWriter);
    let mut pending: Vec<AudioFragment> = Vec::new();
    for index in 0..3usize {
        pending.extend(run.on_synthesis_success(index, frag_bytes(index)));
    }
    assert_eq!(indices(&pending), vec![0, 1, 2]);
    let mut file: Vec<u8> = Vec::new();
    for fragment in pending {
        // the simulated sink accepts the first write and fails the second
        let write_ok = fragment.index == 0;
        if write_ok {
            file.extend_from_slice(&fragment.bytes);
        }
        let action = run.on_consume_result(fragment.index, write_ok);
        if action == ConsumeAction::Abort {
            break;
        }
    }
    assert_eq!(file, frag_bytes(0));
    let outcome = run.outcome();
    assert!(outcome.fatal);
    assert_eq!(outcome.released_count, 3);
}

#[test]
fn decode_failure_is_skipped_and_playback_continues() {
    // streaming player; fragment 2 of 5 cannot be decoded
    let mut run = PipelineState::new(ConsumerKind::StreamingPlayer);
    let mut pending: Vec<AudioFragment> = Vec::new();
    for index in 0..5usize {
        pending.extend(run.on_synthesis_success(index, frag_bytes(index)));
    }
    let mut played: usize = 0;
    for fragment in pending {
        let decode_ok = fragment.index != 2;
        if decode_ok {
            played += 1;
        }
        let action = run.on_consume_result(fragment.index, decode_ok);
        assert_ne!(action, ConsumeAction::Abort);
    }
    assert_eq!(played, 4);
    let outcome = run.outcome();
    assert!(!outcome.fatal);
    assert_eq!(outcome.released_count, 5);
    assert_eq!(outcome.failed_indices, Vec::<usize>::new());
}

#[test]
fn four_single_word_chunks_play_in_order_despite_reverse_completion() {
    // input "a b c d" forced into four single-word chunks; synthesis completes
    // in reverse order 3, 2, 1, 0; releases still come out 0, 1, 2, 3
    let chunks = tts_pipeline::chunker::split_input("a b c d", 1);
    assert_eq!(chunks, vec!["a", "b", "c", "d"]);
    let mut run = PipelineState::new(ConsumerKind::StreamingPlayer);
    let mut released: Vec<AudioFragment> = Vec::new();
    for index in (0..chunks.len()).rev() {
        let bytes = chunks[index].as_bytes().to_vec();
        released.extend(run.on_synthesis_result(index, Some(bytes)));
    }
    assert_eq!(indices(&released), vec![0, 1, 2, 3]);
    for fragment in &released {
        assert_eq!(fragment.bytes, chunks[fragment.index].as_bytes());
    }
    let outcome = run.outcome();
    assert_eq!(outcome.released_count, 4);
    assert!(!outcome.fatal);
    assert!(outcome.failed_indices.is_empty());
}

#[test]
fn synthesis_result_splits_into_publish_and_report() {
    let mut run = PipelineState::new(ConsumerKind::SequentialWriter);
    let released = run.on_synthesis_result(0, Some(frag_bytes(0)));
    assert_eq!(indices(&released), vec![0]);
    let released = run.on_synthesis_result(1, None);
    assert!(released.is_empty());
    let released = run.on_synthesis_result(2, Some(frag_bytes(2)));
    assert!(released.is_empty());
    let outcome = run.outcome();
    assert_eq!(outcome.released_count, 1);
    assert_eq!(outcome.failed_indices, vec![1]);
}

#[test]
fn consume_decisions_match_the_sink() {
    assert_eq!(consume_decision(ConsumerKind::StreamingPlayer, true), ConsumeAction::Advance);
    assert_eq!(consume_decision(ConsumerKind::SequentialWriter, true), ConsumeAction::Advance);
    assert_eq!(consume_decision(ConsumerKind::StreamingPlayer, false), ConsumeAction::Skip);
    assert_eq!(consume_decision(ConsumerKind::SequentialWriter, false), ConsumeAction::Abort);
}
