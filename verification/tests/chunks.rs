use streaming::buffers::{absorb, digest, drop_front, ChunkBuffer, EngineState, Progress};
use streaming::dribble::{DribbleBuffer, Lcg, FRAGMENT_CAP, MAX_IDLE};
use streaming::reading::read_chunks;
use streaming::search::{contains, find, SliceContains};
use streaming::source::{FillError, IoError, MemReader, Source};

/// A source that hands out windows of scripted lengths, and fails at a
/// scripted call.
struct Scripted {
    data: Vec<u8>,
    pos: usize,
    cuts: Vec<usize>,
    calls: usize,
    granted: usize,
    fail_at: Option<usize>,
}

impl Scripted {
    fn new(data: &[u8], cuts: &[usize]) -> Scripted {
        Scripted {
            data: data.to_vec(),
            pos: 0,
            cuts: cuts.to_vec(),
            calls: 0,
            granted: 0,
            fail_at: None,
        }
    }

    fn failing(data: &[u8], cuts: &[usize], fail_at: usize) -> Scripted {
        let mut source = Scripted::new(data, cuts);
        source.fail_at = Some(fail_at);
        source
    }
}

impl Source for Scripted {
    fn fill_buf(&mut self) -> Result<&[u8], FillError> {
        let call = self.calls;
        self.calls += 1;
        if self.fail_at == Some(call) {
            return Err(FillError::Io(IoError { code: 5 }));
        }
        if self.pos == self.data.len() {
            return Err(FillError::EndOfInput);
        }
        let left = self.data.len() - self.pos;
        let wanted = if call < self.cuts.len() { self.cuts[call] } else { left };
        self.granted = wanted.min(left);
        Ok(&self.data[self.pos..self.pos + self.granted])
    }

    fn peek(&self) -> &[u8] {
        &self.data[self.pos..self.pos + self.granted]
    }

    fn consume(&mut self, n: usize) {
        assert!(n <= self.granted);
        self.pos += n;
        self.granted -= n;
    }
}

fn test_data() -> Vec<u8> {
    let text = "1\tLe\tle\tD\tDET\t_\t2\tdet\t_\t_\n\
                2\tchat\tchat\tN\tNC\t_\t3\tsuj\t_\t_\n\
                3\tdort\tdormir\tV\tV\t_\t0\troot\t_\t_\n\
                4\t.\t.\tPONCT\tPONCT\t_\t3\tponct\t_\t_\n\
                \n\
                1\tElle\telle\tCL\tCLS\t_\t2\tsuj\t_\t_\n\
                2\tmange\tmanger\tV\tV\t_\t0\troot\t_\t_\n\
                3\tune\tun\tD\tDET\t_\t4\tdet\t_\t_\n\
                4\tpomme\tpomme\tN\tNC\t_\t2\tobj\t_\t_\n\
                5\t.\t.\tPONCT\tPONCT\t_\t2\tponct\t_\t_\n\
                \n\
                1\tO\u{f9}\to\u{f9}\tADV\tADVWH\t_\t2\tmod\t_\t_\n\
                2\tvas\taller\tV\tV\t_\t0\troot\t_\t_\n\
                3\t-tu\ttu\tCL\tCLS\t_\t2\tsuj\t_\t_\n\
                4\t?\t?\tPONCT\tPONCT\t_\t2\tponct\t_\t_\n\
                \n";
    text.as_bytes().to_vec()
}

/// Fills and consumes until the end of the input; every chunk must hold
/// the boundary.
fn read_delimited<T: Source>(chunked: &mut T, boundary: &[u8]) -> Vec<u8> {
    let boundary_len = boundary.len();
    let mut read = vec![];
    loop {
        let consumed = {
            match chunked.fill_buf() {
                Ok(data) => {
                    read.extend_from_slice(data);
                    let data_len = data.len();
                    assert!(data_len >= boundary_len);
                    assert!(data.contains_slice(boundary));
                    data_len
                }
                Err(FillError::EndOfInput) => {
                    break;
                }
                Err(FillError::Io(err)) => {
                    panic!("{:?}", err);
                }
            }
        };
        chunked.consume(consumed);
    }
    read
}

/// Fills and consumes until the end of the input, and lists the chunks.
fn list_chunks<T: Source>(chunked: &mut T) -> Vec<Vec<u8>> {
    let mut chunks = vec![];
    loop {
        let consumed = match chunked.fill_buf() {
            Ok(data) => {
                chunks.push(data.to_vec());
                data.len()
            }
            Err(FillError::EndOfInput) => {
                break;
            }
            Err(FillError::Io(err)) => {
                panic!("{:?}", err);
            }
        };
        chunked.consume(consumed);
    }
    chunks
}

#[test]
fn dribble_buffer_read_to_string() {
    let data = test_data();
    let mut reader = MemReader::new(data.clone());
    let mut buffer = DribbleBuffer::new(&mut reader, Lcg::new(17));
    let mut bytes = vec![];
    assert_eq!(read_chunks(&mut buffer, &mut bytes), Ok(()));
    let via_buffer = String::from_utf8(bytes).unwrap();
    assert_eq!(std::str::from_utf8(&data).unwrap(), via_buffer.as_str());
}

#[test]
fn reading_chunks() {
    let data = test_data();
    let mut reader = MemReader::new(data.clone());
    let mut chunked = ChunkBuffer::new(&mut reader, &[10, 10]);
    let read = read_delimited(&mut chunked, &[10, 10]);
    assert_eq!(data, read);
}

#[test]
fn reading_chunks_via_dribble() {
    let data = test_data();
    let mut reader = MemReader::new(data.clone());
    let mut dribble = DribbleBuffer::new(&mut reader, Lcg::new(0));
    let mut chunked = ChunkBuffer::new(&mut dribble, &[10, 10]);
    let read = read_delimited(&mut chunked, &[10, 10]);
    assert_eq!(data, read);
}

#[test]
fn reading_chunks_via_dribble_many_seeds() {
    let data = test_data();
    for seed in 0..200u64 {
        let mut reader = MemReader::new(data.clone());
        let mut dribble = DribbleBuffer::new(&mut reader, Lcg::new(seed));
        let mut chunked = ChunkBuffer::new(&mut dribble, &[10, 10]);
        let read = read_delimited(&mut chunked, &[10, 10]);
        assert_eq!(data, read);
    }
}

#[test]
fn find_locates_the_first_occurrence() {
    assert_eq!(find(b"a\n\nb\n\nc", &[10, 10]), Some(1));
    assert_eq!(find(b"abcabc", b"bc"), Some(1));
    assert_eq!(find(b"abcabc", b"cab"), Some(2));
    assert_eq!(find(b"abcabc", b"abcabc"), Some(0));
    assert_eq!(find(b"aaab", b"aab"), Some(1));
}

#[test]
fn find_reports_a_missing_needle() {
    assert_eq!(find(b"a\nb\nc", &[10, 10]), None);
    assert_eq!(find(b"ab", b"abc"), None);
    assert_eq!(find(b"", b"a"), None);
    assert_eq!(find(b"abcabd", b"abe"), None);
}

#[test]
fn find_takes_the_empty_needle_at_the_start() {
    assert_eq!(find(b"abc", b""), Some(0));
    assert_eq!(find(b"", b""), Some(0));
}

#[test]
fn search_is_not_tied_to_line_feeds() {
    assert!(contains(b"one--two", b"--"));
    assert!(!contains(b"one\n\ntwo", b"--"));
    assert_eq!(find(b"xx<END>yy<END>", b"<END>"), Some(2));
}

#[test]
fn slice_contains_by_method() {
    let hay: &[u8] = b"a\n\nb";
    assert!(hay.contains_slice(&[10, 10]));
    assert_eq!(hay.contains_slice_pos(&[10, 10]), Some(1));
    assert!(!hay.contains_slice(b"c"));
    assert_eq!(hay.contains_slice_pos(b"c"), None);
    let held: Vec<u8> = b"xyz".to_vec();
    assert!(held.contains_slice(b"yz"));
    assert_eq!(held.contains_slice_pos(b"yz"), Some(1));
}

#[test]
fn mem_reader_offers_everything_once() {
    let mut reader = MemReader::new(b"abc".to_vec());
    assert_eq!(reader.fill_buf(), Ok(&b"abc"[..]));
    assert_eq!(reader.peek(), b"abc");
    reader.consume(1);
    assert_eq!(reader.peek(), b"bc");
    assert_eq!(reader.fill_buf(), Ok(&b"bc"[..]));
    reader.consume(2);
    assert_eq!(reader.fill_buf(), Err(FillError::EndOfInput));
    assert_eq!(reader.fill_buf(), Err(FillError::EndOfInput));
}

#[test]
fn absorb_takes_through_the_first_boundary() {
    let mut buffer = b"ab".to_vec();
    let step = absorb(&mut buffer, b"c\n\nd\n\ne", &[10, 10]);
    assert_eq!(step, (3, true));
    assert_eq!(buffer, b"abc\n\n".to_vec());
}

#[test]
fn absorb_takes_all_of_a_view_without_boundary() {
    let mut buffer = b"ab".to_vec();
    let step = absorb(&mut buffer, b"cd\ne", &[10, 10]);
    assert_eq!(step, (4, false));
    assert_eq!(buffer, b"abcd\ne".to_vec());
}

#[test]
fn absorb_sees_a_boundary_across_the_seam() {
    let mut buffer = b"ab\n".to_vec();
    let step = absorb(&mut buffer, b"\ncd", &[10, 10]);
    assert_eq!(step, (3, true));
    assert_eq!(buffer, b"ab\n\ncd".to_vec());
}

#[test]
fn absorb_with_a_boundary_longer_than_the_reads() {
    let boundary = b"<<END>>";
    let mut buffer: Vec<u8> = vec![];
    let pieces: [&[u8]; 6] = [b"x<", b"<E", b"N", b"D", b">", b">y"];
    let mut ready = vec![];
    for piece in pieces.iter() {
        let step = absorb(&mut buffer, piece, boundary);
        assert_eq!(step.0, piece.len());
        ready.push(step.1);
    }
    assert_eq!(ready, vec![false, false, false, false, false, true]);
    assert_eq!(buffer, b"x<<END>>y".to_vec());
}

#[test]
fn absorb_of_an_empty_view_changes_nothing() {
    let mut buffer = b"ab".to_vec();
    let step = absorb(&mut buffer, b"", &[10, 10]);
    assert_eq!(step, (0, false));
    assert_eq!(buffer, b"ab".to_vec());
}

#[test]
fn blank_line_records_one_read_each() {
    let mut source = Scripted::new(b"a\n\nb\n\nc", &[3, 3, 1]);
    let mut chunked = ChunkBuffer::new(&mut source, &[10, 10]);
    let chunks = list_chunks(&mut chunked);
    assert_eq!(chunks, vec![b"a\n\n".to_vec(), b"b\n\n".to_vec(), b"c".to_vec()]);
}

#[test]
fn blank_line_records_byte_by_byte() {
    let mut source = Scripted::new(b"a\n\nb\n\nc", &[1, 1, 1, 1, 1, 1, 1, 1, 1, 1, 1, 1]);
    let mut chunked = ChunkBuffer::new(&mut source, &[10, 10]);
    let chunks = list_chunks(&mut chunked);
    assert_eq!(chunks, vec![b"a\n\n".to_vec(), b"b\n\n".to_vec(), b"c".to_vec()]);
}

#[test]
fn collect_chunks_lists_the_records() {
    let mut source = Scripted::new(b"a\n\nb\n\nc", &[1, 1, 1, 1, 1, 1, 1, 1, 1, 1, 1, 1]);
    let mut chunked = ChunkBuffer::new(&mut source, &[10, 10]);
    let mut chunks = vec![b"kept".to_vec()];
    assert_eq!(chunked.collect_chunks(&mut chunks), Ok(()));
    assert_eq!(
        chunks,
        vec![b"kept".to_vec(), b"a\n\n".to_vec(), b"b\n\n".to_vec(), b"c".to_vec()]
    );
    assert_eq!(chunked.state(), EngineState::Empty);
    assert_eq!(chunked.fill_buf(), Err(FillError::EndOfInput));
}

#[test]
fn a_window_with_the_boundary_is_handed_out_whole() {
    let mut reader = MemReader::new(b"a\n\nb\n\nc".to_vec());
    let mut chunked = ChunkBuffer::new(&mut reader, &[10, 10]);
    assert_eq!(chunked.fill_buf(), Ok(&b"a\n\nb\n\nc"[..]));
    assert_eq!(chunked.state(), EngineState::Ready);
    chunked.consume(3);
    assert_eq!(chunked.state(), EngineState::Empty);
    assert_eq!(chunked.fill_buf(), Ok(&b"b\n\nc"[..]));
    chunked.consume(3);
    assert_eq!(chunked.fill_buf(), Ok(&b"c"[..]));
    assert_eq!(chunked.state(), EngineState::Exhausted);
    chunked.consume(1);
    assert_eq!(chunked.state(), EngineState::Empty);
    assert_eq!(chunked.fill_buf(), Err(FillError::EndOfInput));
}

#[test]
fn round_trip_with_other_boundaries() {
    let data = b"one--two----three--".to_vec();
    for seed in 0..50u64 {
        let mut reader = MemReader::new(data.clone());
        let mut dribble = DribbleBuffer::new(&mut reader, Lcg::new(seed));
        let mut chunked = ChunkBuffer::new(&mut dribble, b"--");
        let mut chunks = vec![];
        assert_eq!(chunked.collect_chunks(&mut chunks), Ok(()));
        assert_eq!(chunks.concat(), data);
        for chunk in chunks.iter() {
            assert!(contains(chunk, b"--"));
        }
    }
    let long = b"alpha<<END>>beta<<END>>gamma".to_vec();
    for seed in 0..50u64 {
        let mut reader = MemReader::new(long.clone());
        let mut dribble = DribbleBuffer::new(&mut reader, Lcg::new(seed));
        let mut chunked = ChunkBuffer::new(&mut dribble, b"<<END>>");
        let mut chunks = vec![];
        assert_eq!(chunked.collect_chunks(&mut chunks), Ok(()));
        assert_eq!(chunks.concat(), long);
        let last = chunks.len() - 1;
        for (i, chunk) in chunks.iter().enumerate() {
            assert!(!chunk.is_empty());
            if i < last {
                assert!(contains(chunk, b"<<END>>"));
            }
        }
    }
}

#[test]
fn every_chunk_but_the_last_holds_the_boundary() {
    let data = b"a\n\nbb\n\n\nccc\n\ndd\n".to_vec();
    for seed in 0..100u64 {
        let mut reader = MemReader::new(data.clone());
        let mut dribble = DribbleBuffer::new(&mut reader, Lcg::new(seed));
        let mut chunked = ChunkBuffer::new(&mut dribble, &[10, 10]);
        let chunks = list_chunks(&mut chunked);
        assert_eq!(chunks.concat(), data);
        let last = chunks.len() - 1;
        for (i, chunk) in chunks.iter().enumerate() {
            assert!(!chunk.is_empty());
            if i < last {
                assert!(contains(chunk, &[10, 10]));
            }
        }
    }
}

#[test]
fn two_fills_without_consume_agree() {
    let mut source = Scripted::new(b"ab\n\ncd\n\nef", &[2, 1, 4, 1, 5]);
    let mut chunked = ChunkBuffer::new(&mut source, &[10, 10]);
    let first = chunked.fill_buf().unwrap().to_vec();
    assert_eq!(first, b"ab\n\n".to_vec());
    let second = chunked.fill_buf().unwrap().to_vec();
    assert_eq!(first, second);
    chunked.consume(first.len());
    let third = chunked.fill_buf().unwrap().to_vec();
    let fourth = chunked.fill_buf().unwrap().to_vec();
    assert_eq!(third, b"cd\n\n".to_vec());
    assert_eq!(third, fourth);
    chunked.consume(third.len());
    let fifth = chunked.fill_buf().unwrap().to_vec();
    let sixth = chunked.fill_buf().unwrap().to_vec();
    assert_eq!(fifth, b"ef".to_vec());
    assert_eq!(fifth, sixth);
}

#[test]
fn two_fills_agree_on_the_window_of_a_dribbling_source() {
    // Seed 0 draws 5 first: the first fragment holds the boundary and is
    // handed out as it is.  The next draw is 0: asking the source again
    // would give an empty fragment.
    let mut reader = MemReader::new(b"a\n\nb\n\nc".to_vec());
    let mut dribble = DribbleBuffer::new(&mut reader, Lcg::new(0));
    let mut chunked = ChunkBuffer::new(&mut dribble, &[10, 10]);
    let first = chunked.fill_buf().unwrap().to_vec();
    assert_eq!(first, b"a\n\nb\n".to_vec());
    assert_eq!(chunked.state(), EngineState::Ready);
    let second = chunked.fill_buf().unwrap().to_vec();
    assert_eq!(first, second);
    assert_eq!(chunked.peek(), &first[..]);
}

#[test]
fn empty_input_ends_at_once() {
    let mut reader = MemReader::new(vec![]);
    let mut chunked = ChunkBuffer::new(&mut reader, &[10, 10]);
    assert_eq!(chunked.fill_buf(), Err(FillError::EndOfInput));
    assert_eq!(chunked.state(), EngineState::Empty);
    let mut chunks: Vec<Vec<u8>> = vec![];
    assert_eq!(chunked.collect_chunks(&mut chunks), Ok(()));
    assert_eq!(chunks, Vec::<Vec<u8>>::new());
    let mut reader = MemReader::new(vec![]);
    let mut dribble = DribbleBuffer::new(&mut reader, Lcg::new(3));
    let mut chunked = ChunkBuffer::new(&mut dribble, &[10, 10]);
    assert_eq!(chunked.fill_buf(), Err(FillError::EndOfInput));
    assert_eq!(list_chunks(&mut chunked), Vec::<Vec<u8>>::new());
}

#[test]
fn undelimited_tail_is_one_last_chunk() {
    let mut source = Scripted::new(b"a\n\ntail without end", &[3, 2, 2, 1, 4, 3, 3, 3]);
    let mut chunked = ChunkBuffer::new(&mut source, &[10, 10]);
    assert_eq!(chunked.fill_buf(), Ok(&b"a\n\n"[..]));
    chunked.consume(3);
    assert_eq!(chunked.fill_buf(), Ok(&b"tail without end"[..]));
    assert_eq!(chunked.state(), EngineState::Exhausted);
    assert_eq!(chunked.fill_buf(), Ok(&b"tail without end"[..]));
    chunked.consume(16);
    assert_eq!(chunked.fill_buf(), Err(FillError::EndOfInput));
}

#[test]
fn a_window_may_end_in_the_middle_of_the_tail() {
    // The window "a\n\nb" holds the boundary and is handed out as it is,
    // so the bytes after the last boundary come out in two chunks.
    let mut source = Scripted::new(b"a\n\nbc", &[4, 1, 1]);
    let mut chunked = ChunkBuffer::new(&mut source, &[10, 10]);
    let chunks = list_chunks(&mut chunked);
    assert_eq!(chunks, vec![b"a\n\nb".to_vec(), b"c".to_vec()]);
}

#[test]
fn stream_without_boundary_is_one_chunk() {
    for seed in 0..50u64 {
        let mut reader = MemReader::new(b"no boundary in here\n".to_vec());
        let mut dribble = DribbleBuffer::new(&mut reader, Lcg::new(seed));
        let mut chunked = ChunkBuffer::new(&mut dribble, &[10, 10]);
        let chunks = list_chunks(&mut chunked);
        assert_eq!(chunks, vec![b"no boundary in here\n".to_vec()]);
    }
}

#[test]
fn boundary_split_across_two_reads_is_found() {
    // The first window, "ab\n", is asked for twice: once for the direct
    // path, once by the top-up.  The next one, "\ncd", completes the
    // boundary.
    let mut source = Scripted::new(b"ab\n\ncd", &[3, 3, 3]);
    let mut chunked = ChunkBuffer::new(&mut source, &[10, 10]);
    assert_eq!(chunked.fill_buf(), Ok(&b"ab\n\ncd"[..]));
    assert_eq!(chunked.state(), EngineState::Ready);
    chunked.consume(6);
    assert_eq!(chunked.fill_buf(), Err(FillError::EndOfInput));
}

#[test]
fn boundary_split_byte_by_byte_is_found() {
    let mut source = Scripted::new(b"ab\n\ncd", &[1, 1, 1, 1, 1, 1, 1, 1, 1]);
    let mut chunked = ChunkBuffer::new(&mut source, &[10, 10]);
    assert_eq!(chunked.fill_buf(), Ok(&b"ab\n\n"[..]));
    assert_eq!(chunked.state(), EngineState::Ready);
    chunked.consume(4);
    assert_eq!(chunked.fill_buf(), Ok(&b"cd"[..]));
    assert_eq!(chunked.state(), EngineState::Exhausted);
}

#[test]
fn consume_from_the_buffer_keeps_the_rest_in_order() {
    let mut source = Scripted::new(b"ab\n\ncd\n\nef", &[1, 1, 1, 1, 1, 1, 1, 1, 1, 1, 1, 1, 1]);
    let mut chunked = ChunkBuffer::new(&mut source, &[10, 10]);
    assert_eq!(chunked.fill_buf(), Ok(&b"ab\n\n"[..]));
    chunked.consume(1);
    assert_eq!(chunked.state(), EngineState::Ready);
    assert_eq!(chunked.peek(), b"b\n\n");
    assert_eq!(chunked.fill_buf(), Ok(&b"b\n\n"[..]));
    chunked.consume(2);
    assert_eq!(chunked.state(), EngineState::Accumulating);
    assert_eq!(chunked.peek(), b"\n");
    assert_eq!(chunked.fill_buf(), Ok(&b"\ncd\n\n"[..]));
    chunked.consume(0);
    assert_eq!(chunked.state(), EngineState::Ready);
    chunked.consume(5);
    assert_eq!(chunked.state(), EngineState::Empty);
    assert_eq!(chunked.fill_buf(), Ok(&b"ef"[..]));
}

#[test]
fn io_error_is_handed_on_and_nothing_is_lost() {
    let mut source = Scripted::failing(b"ab\n\ncd", &[1, 1, 1, 1, 1, 1, 1, 1], 3);
    let mut chunked = ChunkBuffer::new(&mut source, &[10, 10]);
    assert_eq!(chunked.fill_buf(), Err(FillError::Io(IoError { code: 5 })));
    assert_eq!(chunked.state(), EngineState::Accumulating);
    assert_eq!(chunked.fill_buf(), Ok(&b"ab\n\n"[..]));
    chunked.consume(4);
    assert_eq!(chunked.fill_buf(), Ok(&b"cd"[..]));
}

#[test]
fn io_error_on_the_first_read() {
    let mut source = Scripted::failing(b"ab\n\ncd", &[], 0);
    let mut chunked = ChunkBuffer::new(&mut source, &[10, 10]);
    assert_eq!(chunked.fill_buf(), Err(FillError::Io(IoError { code: 5 })));
    assert_eq!(chunked.state(), EngineState::Empty);
    assert_eq!(chunked.fill_buf(), Ok(&b"ab\n\ncd"[..]));
}

#[test]
fn read_chunks_stops_at_an_io_error() {
    let mut source = Scripted::failing(b"ab\n\ncd", &[2, 2], 2);
    let mut bytes = b"..".to_vec();
    assert_eq!(read_chunks(&mut source, &mut bytes), Err(IoError { code: 5 }));
    assert_eq!(bytes, b"..ab\n\n".to_vec());
    assert_eq!(read_chunks(&mut source, &mut bytes), Ok(()));
    assert_eq!(bytes, b"..ab\n\ncd".to_vec());
    // The failure comes once the first chunk is out and the second is
    // under way: the first chunk is kept, the rest stays in the engine.
    let mut source = Scripted::failing(b"ab\n\ncd\n\nef", &[1, 1, 1, 1, 1, 1, 1, 1, 1, 1, 1, 1], 7);
    let mut chunked = ChunkBuffer::new(&mut source, &[10, 10]);
    let mut chunks = vec![];
    assert_eq!(chunked.collect_chunks(&mut chunks), Err(IoError { code: 5 }));
    assert_eq!(chunks, vec![b"ab\n\n".to_vec()]);
    assert_eq!(chunked.collect_chunks(&mut chunks), Ok(()));
    assert_eq!(chunks, vec![b"ab\n\n".to_vec(), b"cd\n\n".to_vec(), b"ef".to_vec()]);
}

#[test]
fn read_chunks_returns_the_whole_stream() {
    let mut reader = MemReader::new(b"a\n\nb\n\nc".to_vec());
    let mut bytes = vec![];
    assert_eq!(read_chunks(&mut reader, &mut bytes), Ok(()));
    assert_eq!(bytes, b"a\n\nb\n\nc".to_vec());
    let mut reader = MemReader::new(b"a\n\nb\n\nc".to_vec());
    let mut dribble = DribbleBuffer::new(&mut reader, Lcg::new(9));
    let mut chunked = ChunkBuffer::new(&mut dribble, &[10, 10]);
    let mut bytes = b"so far: ".to_vec();
    assert_eq!(read_chunks(&mut chunked, &mut bytes), Ok(()));
    assert_eq!(bytes, b"so far: a\n\nb\n\nc".to_vec());
}

#[test]
fn generator_steps_and_draws() {
    let mut rng = Lcg::new(0);
    assert_eq!(rng.next_len(), 5);
    assert_eq!(rng.state, 1442695040888963407);
    let mut draws = vec![];
    for _ in 0..11 {
        draws.push(rng.next_len());
    }
    assert_eq!(draws, vec![0, 1, 4, 5, 5, 2, 5, 0, 3, 1, 0]);
    let mut rng = Lcg::new(1);
    assert_eq!(rng.next_len(), 2);
    assert_eq!(rng.state, 7806831264735756412);
}

#[test]
fn dribble_fragments_follow_the_seed() {
    let mut reader = MemReader::new(b"0123456789abcdefghij".to_vec());
    let mut dribble = DribbleBuffer::new(&mut reader, Lcg::new(0));
    let mut fragments = vec![];
    loop {
        let n = match dribble.fill_buf() {
            Ok(view) => {
                fragments.push(view.to_vec());
                view.len()
            }
            Err(FillError::EndOfInput) => break,
            Err(FillError::Io(err)) => panic!("{:?}", err),
        };
        assert!(n <= FRAGMENT_CAP);
        dribble.consume(n);
    }
    let expected: Vec<Vec<u8>> = vec![
        b"01234".to_vec(),
        b"".to_vec(),
        b"5".to_vec(),
        b"6789".to_vec(),
        b"abcde".to_vec(),
        b"fghij".to_vec(),
    ];
    assert_eq!(fragments, expected);
}

#[test]
fn dribble_is_clipped_to_what_is_left() {
    let mut reader = MemReader::new(b"abc".to_vec());
    let mut dribble = DribbleBuffer::new(&mut reader, Lcg::new(0));
    assert_eq!(dribble.fill_buf(), Ok(&b"abc"[..]));
    dribble.consume(1);
    assert_eq!(dribble.peek(), b"bc");
    dribble.consume(2);
    assert_eq!(dribble.fill_buf(), Err(FillError::EndOfInput));
}

#[test]
fn dribble_stops_drawing_empty_fragments() {
    // Nothing is consumed, so every empty draw counts; after the last one
    // that is allowed, an empty draw gives one byte.
    let mut reader = MemReader::new(b"abcdefgh".to_vec());
    let mut dribble = DribbleBuffer::new(&mut reader, Lcg::new(285));
    let mut expected = Lcg::new(285);
    let mut empty = 0;
    for _ in 0..400 {
        let drawn = expected.next_len();
        let view = dribble.fill_buf().unwrap();
        if drawn == 0 && empty < MAX_IDLE {
            empty += 1;
            assert_eq!(view.len(), 0);
        } else if drawn == 0 {
            assert_eq!(view, b"a");
        } else {
            assert_eq!(view.len(), drawn);
        }
    }
    assert_eq!(empty, MAX_IDLE);
}

#[test]
fn dribble_hands_errors_on() {
    let mut source = Scripted::failing(b"abcdef", &[], 1);
    let mut dribble = DribbleBuffer::new(&mut source, Lcg::new(42));
    assert_eq!(dribble.fill_buf(), Ok(&b"abcd"[..]));
    assert_eq!(dribble.fill_buf(), Err(FillError::Io(IoError { code: 5 })));
    assert_eq!(dribble.peek(), b"");
    assert_eq!(dribble.fill_buf(), Ok(&b"ab"[..]));
}

#[test]
fn digest_absorbs_a_window() {
    let mut buffer = b"ab".to_vec();
    assert_eq!(digest(&mut buffer, Ok(b"c\n"), &[10, 10]), (2, Progress::More));
    assert_eq!(buffer, b"abc\n".to_vec());
    // The window holds a boundary of its own: it is taken through the end
    // of that one, though the seam holds one too.
    assert_eq!(digest(&mut buffer, Ok(b"\nd\n\ne"), &[10, 10]), (4, Progress::Chunk));
    assert_eq!(buffer, b"abc\n\nd\n\n".to_vec());
    let mut buffer = b"abc\n".to_vec();
    assert_eq!(digest(&mut buffer, Ok(b"\nd\ne"), &[10, 10]), (4, Progress::Chunk));
    assert_eq!(buffer, b"abc\n\nd\ne".to_vec());
    let mut buffer = b"ab".to_vec();
    assert_eq!(digest(&mut buffer, Ok(b"c\n\nd\n\ne"), &[10, 10]), (3, Progress::Chunk));
    assert_eq!(buffer, b"abc\n\n".to_vec());
}

#[test]
fn digest_at_the_end_of_the_input() {
    let mut buffer = b"tail".to_vec();
    assert_eq!(
        digest(&mut buffer, Err(FillError::EndOfInput), &[10, 10]),
        (0, Progress::LastChunk)
    );
    assert_eq!(buffer, b"tail".to_vec());
    let mut buffer: Vec<u8> = vec![];
    assert_eq!(
        digest(&mut buffer, Err(FillError::EndOfInput), &[10, 10]),
        (0, Progress::Stop(FillError::EndOfInput))
    );
    assert_eq!(buffer, Vec::<u8>::new());
}

#[test]
fn digest_hands_a_failure_on_as_it_is() {
    let mut buffer = b"ab".to_vec();
    let failure = FillError::Io(IoError { code: -7 });
    assert_eq!(digest(&mut buffer, Err(failure), &[10, 10]), (0, Progress::Stop(failure)));
    assert_eq!(buffer, b"ab".to_vec());
}

#[test]
fn drop_front_keeps_the_rest_in_order() {
    let mut buffer = b"abcdef".to_vec();
    drop_front(&mut buffer, 2);
    assert_eq!(buffer, b"cdef".to_vec());
    drop_front(&mut buffer, 0);
    assert_eq!(buffer, b"cdef".to_vec());
    drop_front(&mut buffer, 4);
    assert_eq!(buffer, Vec::<u8>::new());
    drop_front(&mut buffer, 0);
    assert_eq!(buffer, Vec::<u8>::new());
}

#[test]
fn one_byte_boundary() {
    for seed in 0..30u64 {
        let mut reader = MemReader::new(b"a,bc,,d".to_vec());
        let mut dribble = DribbleBuffer::new(&mut reader, Lcg::new(seed));
        let mut chunked = ChunkBuffer::new(&mut dribble, b",");
        let chunks = list_chunks(&mut chunked);
        assert_eq!(chunks.concat(), b"a,bc,,d".to_vec());
        let last = chunks.len() - 1;
        for chunk in chunks[..last].iter() {
            assert!(contains(chunk, b","));
        }
    }
    let mut source = Scripted::new(b"a,bc,,d", &[1, 1, 1, 1, 1, 1, 1, 1, 1, 1, 1, 1, 1]);
    let mut chunked = ChunkBuffer::new(&mut source, b",");
    assert_eq!(
        list_chunks(&mut chunked),
        vec![b"a,".to_vec(), b"bc,".to_vec(), b",".to_vec(), b"d".to_vec()]
    );
}

#[test]
fn fragmenting_the_source_changes_no_byte() {
    let data = test_data();
    let mut plain = MemReader::new(data.clone());
    let mut direct = ChunkBuffer::new(&mut plain, &[10, 10]);
    let direct_bytes = list_chunks(&mut direct).concat();
    for seed in [0u64, 1, 2, 3, 285, 1 << 40, u64::MAX] {
        let mut reader = MemReader::new(data.clone());
        let mut dribble = DribbleBuffer::new(&mut reader, Lcg::new(seed));
        let mut chunked = ChunkBuffer::new(&mut dribble, &[10, 10]);
        let dribbled_bytes = list_chunks(&mut chunked).concat();
        assert_eq!(direct_bytes, dribbled_bytes);
    }
    assert_eq!(direct_bytes, data);
}

#[test]
fn the_source_goes_on_where_the_engine_stopped() {
    let mut source = Scripted::new(b"ab\n\ncdef", &[1, 1, 1, 1, 1]);
    let mut chunked = ChunkBuffer::new(&mut source, &[10, 10]);
    assert_eq!(chunked.fill_buf(), Ok(&b"ab\n\n"[..]));
    chunked.consume(4);
    chunked.release();
    assert_eq!(source.fill_buf(), Ok(&b"cdef"[..]));
    let mut reader = MemReader::new(b"0123456789".to_vec());
    let mut dribble = DribbleBuffer::new(&mut reader, Lcg::new(0));
    assert_eq!(dribble.fill_buf(), Ok(&b"01234"[..]));
    dribble.consume(3);
    dribble.release();
    assert_eq!(reader.fill_buf(), Ok(&b"3456789"[..]));
}
