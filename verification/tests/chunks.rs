use std::sync::Arc;

use csv_records::csv_bytes::plan_chunks;
use csv_records::csv_bytes::AsBytes;
use csv_records::csv_bytes::ChunkPlan;
use csv_records::csv_bytes::FillQueueError;
use csv_records::csv_bytes::FillStep;
use csv_records::csv_bytes::PlanEnd;
use csv_records::csv_bytes::Producer;
use csv_records::csv_bytes::WorkChunk;
use csv_records::csv_bytes::SIZE_128_KIB;
use csv_records::csv_bytes::SIZE_1_MIB;
use csv_records::csv_bytes::SIZE_4_KIB;
use csv_records::finite_automata::Nfa;
use csv_records::finite_automata::Terminator;

const RECORD: &[u8] = b"a,b,c,d,e,f,g,h\n";

fn records(n: usize) -> Vec<u8> {
    RECORD.repeat(n)
}

/// Records of different lengths, some of them quoted.
fn mixed_records(n: usize) -> Vec<u8> {
    let mut all = Vec::new();
    for i in 0..n {
        let field = "x".repeat(i % 37);
        all.extend_from_slice(format!("{i},{field},\"a,\n{field}\",,e,f,\"\"\"\",{i}\r\n").as_bytes());
    }
    all
}

fn cuts(plan: &ChunkPlan) -> Vec<(usize, usize)> {
    plan.chunks.iter().map(|r| (r.start, r.end)).collect()
}

/// Fills a queue from reads of at most `size` bytes: the chunks and what is left.
fn fill(input: &[u8], size: usize) -> (Vec<Vec<u8>>, Vec<u8>) {
    let nfa = Nfa::default();
    let mut producer = Producer::new();
    let mut sent = Vec::new();
    let mut pos = 0;
    loop {
        let mut buffer = producer.next_buffer();
        assert_eq!(buffer, producer.leftover);
        let end = input.len().min(pos + size);
        buffer.extend_from_slice(&input[pos..end]);
        pos = end;
        match producer.step(&nfa, &buffer) {
            FillStep::Done => return (sent, producer.leftover),
            FillStep::Chunks(plan) => {
                assert_eq!(plan.end, PlanEnd::Leftover);
                assert_eq!(producer.leftover, &buffer[plan.rest..]);
                for range in plan.chunks {
                    sent.push(buffer[range].to_vec());
                }
            }
        }
    }
}

#[test]
fn sizes() {
    assert_eq!(SIZE_1_MIB, 1048576);
    assert_eq!(SIZE_128_KIB, 131072);
    assert_eq!(SIZE_4_KIB, 4096);
}

#[test]
fn a_work_chunk_reads_its_range() {
    let buffer: Arc<[u8]> = Arc::from(b"hello, world".to_vec().into_boxed_slice());
    let chunk = WorkChunk::<[u8]> { buffer: buffer.clone(), range: 7..12 };
    assert_eq!(chunk.as_bytes(), b"world");
    let empty = WorkChunk::<[u8]> { buffer, range: 3..3 };
    assert_eq!(empty.as_bytes(), b"");
    let chunk = WorkChunk { buffer: Arc::new(b"hello, world".to_vec()), range: 0..5 };
    assert_eq!(chunk.as_bytes(), b"hello");
    assert_eq!(b"abc".to_vec().as_bytes(), b"abc");
}

#[test]
fn a_read_fills_the_room_behind_what_is_left() {
    let nfa = Nfa::default();
    let mut producer = Producer::new();
    assert_eq!(producer.room(), 1048576);
    producer.step(&nfa, b"a,b\n");
    assert_eq!(producer.room(), 1048572);
    producer.leftover = vec![b'x'; SIZE_1_MIB];
    assert_eq!(producer.room(), 0);
    producer.leftover = vec![b'x'; SIZE_1_MIB + 1];
    assert_eq!(producer.room(), 0);
}

#[test]
fn chunks_fit_in_a_buffer() {
    let nfa = Nfa::default();
    let input = mixed_records(40000);
    assert!(input.len() > 2 * SIZE_1_MIB);
    let mut producer = Producer::new();
    let mut pos = 0;
    loop {
        let mut buffer = producer.next_buffer();
        let end = input.len().min(pos + producer.room());
        buffer.extend_from_slice(&input[pos..end]);
        pos = end;
        assert!(buffer.len() <= SIZE_1_MIB);
        match producer.step(&nfa, &buffer) {
            FillStep::Done => break,
            FillStep::Chunks(plan) => {
                assert!(plan.chunks.iter().all(|range| range.len() <= SIZE_1_MIB));
            }
        }
        assert!(producer.leftover.len() <= SIZE_1_MIB);
    }
    assert_eq!(pos, input.len());
}

#[test]
fn cuts_at_record_ends() {
    let buffer = records(20000);
    let plan = plan_chunks(&Nfa::default(), &buffer);
    assert_eq!(cuts(&plan), vec![(0, 127040), (127040, 254080)]);
    assert_eq!(plan.rest, 254080);
    assert_eq!(plan.end, PlanEnd::Leftover);
}

#[test]
fn a_short_buffer_is_not_cut() {
    let buffer = records(8191);
    assert_eq!(buffer.len(), SIZE_128_KIB - 16);
    let plan = plan_chunks(&Nfa::default(), &buffer);
    assert!(plan.chunks.is_empty());
    assert_eq!(plan.rest, 0);
    assert_eq!(plan.end, PlanEnd::Leftover);
    let plan = plan_chunks(&Nfa::default(), &records(8192));
    assert_eq!(cuts(&plan), vec![(0, 127040)]);
    assert_eq!(plan.rest, 127040);
    let plan = plan_chunks(&Nfa::default(), b"");
    assert!(plan.chunks.is_empty());
    assert_eq!(plan.end, PlanEnd::Leftover);
}

#[test]
fn a_buffer_without_record_ends_waits() {
    let plan = plan_chunks(&Nfa::default(), &vec![b'x'; 140000]);
    assert!(plan.chunks.is_empty());
    assert_eq!(plan.rest, 0);
    assert_eq!(plan.end, PlanEnd::Leftover);
}

#[test]
fn records_with_too_few_fields_fail() {
    let mut buffer = records(8192);
    buffer.extend_from_slice(&b"a,b\n".repeat(40000));
    let plan = plan_chunks(&Nfa::default(), &buffer);
    assert_eq!(cuts(&plan), vec![(0, 127040)]);
    assert_eq!(plan.rest, 127040);
    assert_eq!(plan.end, PlanEnd::Failed(FillQueueError::Failed));
}

/// A buffer in which the third record behind the start of the search ends in `term`.
fn ends_in(term: &[u8]) -> Vec<u8> {
    let mut buffer = vec![b'x'; SIZE_128_KIB - SIZE_4_KIB];
    buffer.push(b'\n');
    buffer.extend_from_slice(&records(2));
    buffer.extend_from_slice(b"a,b,c,d,e,f,g,");
    buffer.extend_from_slice(&vec![b'x'; SIZE_4_KIB]);
    buffer.extend_from_slice(term);
    buffer
}

#[test]
fn a_carriage_return_at_the_end_waits() {
    let nfa = Nfa::default();
    let buffer = ends_in(b"\r");
    let len = buffer.len();
    let plan = plan_chunks(&nfa, &buffer);
    assert!(plan.chunks.is_empty());
    assert_eq!(plan.rest, 0);
    assert_eq!(plan.end, PlanEnd::Leftover);
    let plan = plan_chunks(&nfa, &ends_in(b"\r\n"));
    assert_eq!(cuts(&plan), vec![(0, len + 1)]);
    assert_eq!(plan.end, PlanEnd::Leftover);
    let plan = plan_chunks(&nfa, &ends_in(b"\rx"));
    assert_eq!(cuts(&plan), vec![(0, len + 1)]);
    assert_eq!(plan.rest, len + 1);
    assert_eq!(plan.end, PlanEnd::Leftover);
}

#[test]
fn takes_the_byte_behind_a_lone_carriage_return() {
    let mut buffer = vec![b'x'; SIZE_128_KIB - SIZE_4_KIB];
    buffer.push(b'\n');
    buffer.extend_from_slice(&b"a,b,c,d,e,f,g,h\r".repeat(400));
    let plan = plan_chunks(&Nfa::default(), &buffer);
    assert_eq!(cuts(&plan), vec![(0, 127026)]);
    assert_eq!(&buffer[127024..127027], b"\ra,");
    let mut buffer = vec![b'x'; SIZE_128_KIB - SIZE_4_KIB];
    buffer.push(b'\n');
    buffer.extend_from_slice(&b"a,b,c,d,e,f,g,h\r\r".repeat(400));
    let plan = plan_chunks(&Nfa::default(), &buffer);
    assert_eq!(cuts(&plan), vec![(0, 127028)]);
    assert_eq!(&buffer[127026..127029], b"\r\ra");
}

#[test]
fn cuts_behind_another_terminator() {
    let mut nfa = Nfa::default();
    nfa.config.term = Terminator::Any(b';');
    let mut buffer = vec![b'x'; SIZE_128_KIB - SIZE_4_KIB];
    buffer.push(b'\n');
    buffer.extend_from_slice(&b"a,b,c,d,e,f,g,h;".repeat(400));
    let plan = plan_chunks(&nfa, &buffer);
    assert_eq!(cuts(&plan), vec![(0, 127025)]);
    assert_eq!(buffer[127024], b';');
    assert_eq!(buffer[127025], b'a');
}

#[test]
fn chunks_and_rest_are_the_buffer() {
    let buffer = mixed_records(20000);
    let plan = plan_chunks(&Nfa::default(), &buffer);
    assert!(plan.chunks.len() > 5);
    let mut joined = Vec::new();
    let mut at = 0;
    for range in plan.chunks {
        assert_eq!(range.start, at);
        assert!(range.end - range.start > SIZE_128_KIB - SIZE_4_KIB);
        assert_eq!(&buffer[range.end - 2..range.end], b"\r\n");
        at = range.end;
        joined.extend_from_slice(&buffer[range]);
    }
    assert_eq!(at, plan.rest);
    joined.extend_from_slice(&buffer[plan.rest..]);
    assert_eq!(joined, buffer);
    assert!(buffer.len() - plan.rest < SIZE_128_KIB);
}

#[test]
fn no_byte_is_lost_however_the_input_is_read() {
    let input = mixed_records(20000);
    let whole = fill(&input, input.len());
    assert!(whole.0.len() > 5);
    let mut joined = whole.0.concat();
    joined.extend_from_slice(&whole.1);
    assert_eq!(joined, input);
    for size in [50000, 131072, 200001, SIZE_1_MIB] {
        assert_eq!(fill(&input, size), whole);
    }
}

#[test]
fn an_empty_read_ends_the_input() {
    let nfa = Nfa::default();
    let mut producer = Producer::new();
    assert!(matches!(producer.step(&nfa, b""), FillStep::Done));
    assert!(matches!(producer.step(&nfa, b"a,b\n"), FillStep::Chunks(_)));
    assert_eq!(producer.leftover, b"a,b\n");
    assert!(matches!(producer.step(&nfa, b"a,b\n"), FillStep::Done));
    assert_eq!(producer.leftover, b"a,b\n");
    assert_eq!(producer.next_buffer(), b"a,b\n");
}
