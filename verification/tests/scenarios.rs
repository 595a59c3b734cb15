use ascii_filter::{
    buffer_filter, fill_buf, filter_bytes, take_from_buffer, ByteReader, FilterWriter, Pipeline,
    TextSink,
};

fn run(input: &[u8], buf_size: usize, ascii_only: bool) -> Vec<u8> {
    filter_bytes(input.to_vec(), buf_size, ascii_only)
}

fn run_in_steps(input: &[u8], buf_size: usize, step: usize, ascii_only: bool) -> Vec<u8> {
    let mut r = ByteReader::with_step(input.to_vec(), step);
    let mut fw = FilterWriter::new(Vec::new(), ascii_only);
    buffer_filter(buf_size, buf_size / 2, &mut r, &mut fw);
    fw.into_inner()
}

fn drive(chunks: &[&[u8]], buf_size: usize, ascii_only: bool) -> Vec<u8> {
    let mut fw = FilterWriter::new(Vec::new(), ascii_only);
    let mut p = Pipeline::new(buf_size, buf_size / 2);
    let mut next = 0;
    while !p.is_finished() {
        let chunk: &[u8] = if next < chunks.len() { chunks[next] } else { &[] };
        next += 1;
        assert!(chunk.len() <= p.wanted());
        p.feed(chunk, &mut fw);
    }
    fw.into_inner()
}

#[test]
fn character_across_two_reads_is_kept_whole() {
    let input = [0xE4, 0xBD, 0xA0, b'A'];
    assert_eq!(run_in_steps(&input, 4, 2, false), "你A".as_bytes().to_vec());
}

#[test]
fn machine_fed_two_and_two_keeps_the_character_whole() {
    let out = drive(&[&[0xE4, 0xBD], &[0xA0, b'A']], 4, false);
    assert_eq!(out, "你A".as_bytes().to_vec());
}

#[test]
fn leading_malformed_bytes_are_dropped() {
    assert_eq!(run(&[0xFF, 0xFE, b'h', b'i'], 128, false), b"hi".to_vec());
}

#[test]
fn ascii_only_drops_wide_characters() {
    assert_eq!(run("abc你好 wor".as_bytes(), 128, true), b"abc wor".to_vec());
}

#[test]
fn short_final_read_flushes_trailing_character() {
    let input = "hi你".as_bytes();
    assert!(input.len() < 128);
    assert_eq!(run(input, 128, false), input.to_vec());
    assert_eq!(run("né".as_bytes(), 8, false), "né".as_bytes().to_vec());
}

#[test]
fn empty_stream_gives_empty_output() {
    assert_eq!(run(&[], 128, false), Vec::<u8>::new());
    assert_eq!(drive(&[], 16, true), Vec::<u8>::new());
}

#[test]
fn no_buffer_reads_nothing() {
    let mut out: Vec<u8> = Vec::new();
    let mut r = ByteReader::new(b"abc".to_vec());
    buffer_filter(0, 0, &mut r, &mut out);
    assert_eq!(out, Vec::<u8>::new());
    let mut buf = [0u8; 3];
    assert_eq!(r.read(&mut buf), 3);
    assert_eq!(&buf, b"abc");
    assert!(Pipeline::new(0, 0).is_finished());
    assert_eq!(Pipeline::new(0, 0).wanted(), 0);
}

#[test]
fn output_is_always_well_formed() {
    let input: Vec<u8> = vec![
        b'a', 0xC3, 0xA9, 0xFF, 0xE4, 0xBD, 0xA0, 0x80, 0xF0, 0x9F, 0x98, 0x80, 0xE4, 0xBD, b'z',
        0xC0, 0x80, 0xED, 0xA0, 0x80, 0xF4, 0x90, 0x80, 0x80, 0xF0, 0x9F,
    ];
    for buf_size in 1..40 {
        for step in 1..6 {
            let out = run_in_steps(&input, buf_size, step, false);
            assert!(std::str::from_utf8(&out).is_ok());
            let plain = run_in_steps(&input, buf_size, step, true);
            assert!(std::str::from_utf8(&plain).is_ok());
        }
    }
}

#[test]
fn roomy_buffer_keeps_exactly_the_well_formed_text() {
    let input: Vec<u8> = vec![
        b'a', 0xC3, 0xA9, 0xFF, 0xE4, 0xBD, 0xA0, 0x80, 0xF0, 0x9F, 0x98, 0x80, 0xE4, 0xBD, b'z',
        0xC0, 0x80, 0xED, 0xA0, 0x80, 0xF4, 0x90, 0x80, 0x80, 0xF0, 0x9F,
    ];
    let expected = "aé你😀z".as_bytes().to_vec();
    for buf_size in 7..40 {
        for step in 1..6 {
            assert_eq!(run_in_steps(&input, buf_size, step, false), expected);
        }
    }
    assert_eq!(run(&input, 128, false), expected);
}

#[test]
fn character_behind_the_midpoint_waits_for_the_next_round() {
    // The four-byte character starts at index 4 of a full buffer of eight.
    let input = "abcd😀efg".as_bytes();
    assert_eq!(run(input, 8, false), input.to_vec());
    // The three-byte character starts at index 6 and ends in the next round.
    let input = "abcdef你gh".as_bytes();
    assert_eq!(run(input, 8, false), input.to_vec());
    let mut w: Vec<u8> = Vec::new();
    assert_eq!(take_from_buffer(&input[..8], 8, 4, &mut w), 5);
    assert_eq!(w, b"abcde".to_vec());
}

fn run_with_limit(input: &[u8], buf_size: usize, limit: usize) -> Vec<u8> {
    let mut out: Vec<u8> = Vec::new();
    let mut r = ByteReader::new(input.to_vec());
    buffer_filter(buf_size, limit, &mut r, &mut out);
    out
}

fn sample_streams() -> Vec<Vec<u8>> {
    let tokens: Vec<Vec<u8>> = vec![
        b"A".to_vec(),
        "é".as_bytes().to_vec(),
        "你".as_bytes().to_vec(),
        "😀".as_bytes().to_vec(),
        vec![0xFF],
        vec![0xE4],
        vec![0xBD],
    ];
    let mut streams: Vec<Vec<u8>> = vec![vec![]];
    let mut frontier: Vec<Vec<u8>> = vec![vec![]];
    for _ in 0..3 {
        let mut next: Vec<Vec<u8>> = Vec::new();
        for s in &frontier {
            for t in &tokens {
                let mut longer = s.clone();
                longer.extend_from_slice(t);
                next.push(longer);
            }
        }
        streams.extend(next.iter().cloned());
        frontier = next;
    }
    streams
}

#[test]
fn second_run_changes_nothing_where_own_text_fits() {
    let streams = sample_streams();
    for size in 0..10usize {
        for limit in 0..10usize {
            let last_start = if limit < size { limit } else { size.saturating_sub(1) };
            let widest = if size < 4 { size } else { 4 };
            if size == 0 || last_start + widest <= size {
                for s in &streams {
                    let once = run_with_limit(s, size, limit);
                    assert_eq!(run_with_limit(&once, size, limit), once);
                }
            }
        }
    }
}

#[test]
fn room_behind_the_limit_keeps_all_well_formed_text() {
    let streams = sample_streams();
    for size in 4..10usize {
        for limit in 0..=(size - 4) {
            for s in &streams {
                let kept = String::from_utf8_lossy(s).replace('\u{FFFD}', "");
                assert_eq!(run_with_limit(s, size, limit), kept.as_bytes().to_vec());
            }
        }
    }
}

#[test]
fn tiny_buffer_may_change_text_on_a_second_run() {
    // In the first run the stray byte moves the character to the front of a
    // round; in the second run it starts at the limit and does not fit.
    let input = [0xFF, b'A', b'A', 0xE4, 0xBD, 0xA0];
    let once = run(&input, 4, false);
    assert_eq!(once, "AA你".as_bytes().to_vec());
    assert_eq!(run(&once, 4, false), b"AA".to_vec());
}

#[test]
fn tiny_buffer_can_starve_a_character() {
    // With four bytes of buffer the character starts at the limit and does not
    // fit behind it: its bytes are dropped one by one, never written in part.
    assert_eq!(run("AA你".as_bytes(), 4, false), b"AA".to_vec());
    assert_eq!(run("你".as_bytes(), 2, false), Vec::<u8>::new());
}

#[test]
fn ascii_only_output_stays_in_the_plain_set() {
    let mut input: Vec<u8> = (0u8..=255).collect();
    input.extend_from_slice("é你😀".as_bytes());
    let out = run(&input, 16, true);
    let mut expected: Vec<u8> = vec![0x09, 0x0A];
    expected.extend(0x20u8..=0x7E);
    assert_eq!(out, expected);
    for b in out {
        assert!(b == 0x09 || b == 0x0A || (0x20..=0x7E).contains(&b));
    }
}

#[test]
fn default_mode_keeps_control_characters() {
    let input: Vec<u8> = vec![0x00, 0x07, 0x1B, b'x', 0x7F];
    assert_eq!(run(&input, 16, false), input);
    assert_eq!(run(&input, 16, true), b"x".to_vec());
}

#[test]
fn second_run_changes_nothing() {
    let input: Vec<u8> = vec![
        0xFF, b'A', b'A', 0xE4, 0xBD, 0xA0, 0x01, b' ', 0xF0, 0x9F, 0x98, 0x80, 0xBD, b'\n', 0xC3,
    ];
    for buf_size in 7..20 {
        for ascii_only in [false, true] {
            let once = run(&input, buf_size, ascii_only);
            let twice = run(&once, buf_size, ascii_only);
            assert_eq!(once, twice);
        }
    }
    assert_eq!(run(&input, 128, false), "AA你\u{1} 😀\n".as_bytes().to_vec());
    assert_eq!(run(&input, 128, true), b"AA \n".to_vec());
}

#[test]
fn malformed_sequences_are_dropped() {
    // an overlong encoding, a surrogate, a value past the last scalar, a stray
    // continuation byte, and a character cut short by the end of the stream
    assert_eq!(run(&[0xC0, 0x80, b'a'], 16, false), b"a".to_vec());
    assert_eq!(run(&[0xED, 0xA0, 0x80, b'b'], 16, false), b"b".to_vec());
    assert_eq!(run(&[0xF4, 0x90, 0x80, 0x80, b'c'], 16, false), b"c".to_vec());
    assert_eq!(run(&[0x80, b'd', 0xBF], 16, false), b"d".to_vec());
    assert_eq!(run(&[b'e', 0xE4, 0xBD], 16, false), b"e".to_vec());
    assert_eq!(run(&[0xF8, 0x88, 0x80, 0x80, 0x80, b'f'], 16, false), b"f".to_vec());
}

#[test]
fn resolver_takes_the_unit_that_starts_at_the_limit() {
    let mut w: Vec<u8> = Vec::new();
    let buf = "ab你cd".as_bytes();
    assert_eq!(take_from_buffer(buf, buf.len(), 2, &mut w), 5);
    assert_eq!(w, "ab你".as_bytes().to_vec());
    let mut w: Vec<u8> = Vec::new();
    assert_eq!(take_from_buffer(buf, buf.len(), 1, &mut w), 2);
    assert_eq!(w, b"ab".to_vec());
    let mut w: Vec<u8> = Vec::new();
    assert_eq!(take_from_buffer(buf, buf.len(), 0, &mut w), 1);
    assert_eq!(w, b"a".to_vec());
}

#[test]
fn resolver_drops_stray_bytes_one_at_a_time() {
    let mut w: Vec<u8> = Vec::new();
    let buf = [0xFF, 0xFE, 0xE4, 0xBD, b'x'];
    assert_eq!(take_from_buffer(&buf, 5, 0, &mut w), 1);
    assert_eq!(take_from_buffer(&buf, 5, 1, &mut w), 2);
    assert_eq!(take_from_buffer(&buf, 5, 2, &mut w), 3);
    assert_eq!(w, Vec::<u8>::new());
    assert_eq!(take_from_buffer(&buf, 5, 100, &mut w), 5);
    assert_eq!(w, b"x".to_vec());
}

#[test]
fn resolver_on_nothing_takes_nothing() {
    let mut w: Vec<u8> = Vec::new();
    assert_eq!(take_from_buffer(b"abc", 0, 5, &mut w), 0);
    assert_eq!(w, Vec::<u8>::new());
}

#[test]
fn resolver_ignores_bytes_past_the_data_size() {
    let mut w: Vec<u8> = Vec::new();
    // Only the first two bytes count: the character is cut short there.
    assert_eq!(take_from_buffer("你".as_bytes(), 2, 2, &mut w), 2);
    assert_eq!(w, Vec::<u8>::new());
}

#[test]
fn filler_reads_in_pieces_until_full() {
    let mut buf = vec![0u8; 5];
    let mut r = ByteReader::with_step(b"abcdefgh".to_vec(), 2);
    assert_eq!(fill_buf(&mut buf, &mut r), Ok(()));
    assert_eq!(buf, b"abcde".to_vec());
    let mut buf = vec![b'-'; 5];
    assert_eq!(fill_buf(&mut buf, &mut r), Err(3));
    assert_eq!(buf, b"fgh--".to_vec());
    assert_eq!(fill_buf(&mut buf, &mut r), Err(0));
    let mut none: Vec<u8> = Vec::new();
    assert_eq!(fill_buf(&mut none, &mut r), Ok(()));
}

#[test]
fn filler_fills_exactly_at_the_end_of_the_source() {
    let mut buf = vec![0u8; 3];
    let mut r = ByteReader::new(b"xyz".to_vec());
    assert_eq!(fill_buf(&mut buf, &mut r), Ok(()));
    assert_eq!(buf, b"xyz".to_vec());
    assert_eq!(fill_buf(&mut buf, &mut r), Err(0));
}

#[test]
fn reader_hands_out_bytes_in_order() {
    let mut r = ByteReader::with_step(b"hello".to_vec(), 2);
    let mut buf = [0u8; 4];
    assert_eq!(r.read(&mut buf), 2);
    assert_eq!(&buf, &[b'h', b'e', 0, 0]);
    assert_eq!(r.read(&mut buf[..1]), 1);
    assert_eq!(buf[0], b'l');
    assert_eq!(r.read(&mut buf), 2);
    assert_eq!(&buf[..2], b"lo");
    assert_eq!(r.read(&mut buf), 0);
    let mut r = ByteReader::new(b"hello".to_vec());
    assert_eq!(r.read(&mut buf), 4);
    assert_eq!(&buf, b"hell");
    assert_eq!(r.read(&mut []), 0);
    assert_eq!(r.read(&mut buf), 1);
}

#[test]
fn writer_passes_text_unchanged_by_default() {
    let mut fw = FilterWriter::new(Vec::new(), false);
    assert_eq!(fw.write("abc你好 wor\u{7}".as_bytes()), 14);
    fw.flush();
    assert_eq!(fw.into_inner(), "abc你好 wor\u{7}".as_bytes().to_vec());
}

#[test]
fn writer_reports_every_byte_as_consumed() {
    let mut fw = FilterWriter::new(Vec::new(), true);
    assert_eq!(fw.write("a你\t\u{1}\n~\u{7f}".as_bytes()), 9);
    assert_eq!(fw.into_inner(), b"a\t\n~".to_vec());
    let mut v: Vec<u8> = vec![b'>'];
    assert_eq!(v.write(b"ok"), 2);
    v.flush();
    assert_eq!(v, b">ok".to_vec());
}

#[test]
fn writers_can_be_stacked() {
    let inner = FilterWriter::new(Vec::new(), true);
    let mut outer = FilterWriter::new(inner, false);
    outer.write("é-ok".as_bytes());
    assert_eq!(outer.into_inner().into_inner(), b"-ok".to_vec());
}

#[test]
fn machine_waits_until_the_buffer_is_full() {
    let mut out: Vec<u8> = Vec::new();
    let mut p = Pipeline::new(6, 3);
    assert_eq!(p.wanted(), 6);
    p.feed(b"ab", &mut out);
    assert_eq!(out, Vec::<u8>::new());
    assert_eq!(p.wanted(), 4);
    p.feed(b"cdef", &mut out);
    // a full round starts no unit beyond index 3
    assert_eq!(out, b"abcd".to_vec());
    assert_eq!(p.wanted(), 4);
    assert!(!p.is_finished());
    p.feed(b"", &mut out);
    assert_eq!(out, b"abcdef".to_vec());
    assert!(!p.is_finished());
    assert_eq!(p.wanted(), 6);
    p.feed(b"", &mut out);
    assert!(p.is_finished());
    assert_eq!(p.wanted(), 0);
}

#[test]
fn machine_and_whole_run_agree() {
    let input: Vec<u8> = vec![
        b'a', 0xC3, 0xA9, 0xFF, 0xE4, 0xBD, 0xA0, 0x80, 0xF0, 0x9F, 0x98, 0x80, 0xE4, 0xBD, b'z',
    ];
    for buf_size in 1..12 {
        for ascii_only in [false, true] {
            let whole = run(&input, buf_size, ascii_only);
            let pieces: Vec<&[u8]> = input.chunks(1).collect();
            assert_eq!(drive(&pieces, buf_size, ascii_only), whole);
        }
    }
}
