use transcribe_stream::event::TranscriptionEvent;
use transcribe_stream::reassembler::{process_stream, Reassembler};

fn interim(s: &str) -> TranscriptionEvent {
    TranscriptionEvent::Interim(s.to_string())
}

fn settled(s: &str) -> TranscriptionEvent {
    TranscriptionEvent::Final(s.to_string())
}

#[test]
fn worked_example() {
    let mut r = Reassembler::new();
    let evs = r.push_chunk(b"Hello\rHello world\n");
    assert_eq!(evs, vec![interim("Hello"), settled("Hello world")]);
    assert_eq!(r.finish(), None);
}

#[test]
fn worked_example_with_escape_code() {
    let mut r = Reassembler::new();
    let evs = r.push_chunk(b"Hel\x1b[2Klo\rHello world\n");
    assert_eq!(evs, vec![interim("Hello"), settled("Hello world")]);
}

#[test]
fn silent_until_end_of_stream() {
    let mut r = Reassembler::new();
    let evs = r.push_chunk(b"no boundary in here");
    assert_eq!(evs, Vec::new());
    assert_eq!(r.finish(), Some(settled("no boundary in here")));
}

#[test]
fn end_of_stream_settles_tail_after_interim() {
    let mut r = Reassembler::new();
    let evs = r.push_chunk(b"abc\rdef");
    assert_eq!(evs, vec![interim("abc")]);
    assert_eq!(r.finish(), Some(settled("def")));
}

#[test]
fn end_of_stream_with_blank_tail_emits_nothing() {
    let mut r = Reassembler::new();
    let evs = r.push_chunk(b"   \x1b[2K");
    assert_eq!(evs, Vec::new());
    assert_eq!(r.finish(), None);
}

#[test]
fn newline_after_carriage_return_emits_nothing() {
    let mut r = Reassembler::new();
    let evs = r.push_chunk(b"Hi\r\n");
    assert_eq!(evs, vec![interim("Hi")]);
}

#[test]
fn bare_newline_on_empty_accumulator_emits_nothing() {
    let mut r = Reassembler::new();
    let evs = r.push_chunk(b"\n\r\n");
    assert_eq!(evs, Vec::new());
}

#[test]
fn whitespace_only_segment_emits_nothing() {
    let mut r = Reassembler::new();
    let evs = r.push_chunk(b"   \n");
    assert_eq!(evs, Vec::new());
}

#[test]
fn malformed_segment_is_skipped() {
    let mut r = Reassembler::new();
    let evs = r.push_chunk(&[0xff, 0xfe, b'\n', b'o', b'k', b'\n']);
    assert_eq!(evs, vec![settled("ok")]);
}

#[test]
fn malformed_tail_is_dropped_at_end_of_stream() {
    let mut r = Reassembler::new();
    let evs = r.push_chunk(&[0xff]);
    assert_eq!(evs, Vec::new());
    assert_eq!(r.finish(), None);
}

#[test]
fn segments_survive_chunk_splits() {
    let mut r = Reassembler::new();
    let mut evs = r.push_chunk(b"Hel");
    evs.extend(r.push_chunk(b"lo\rwor"));
    evs.extend(r.push_chunk(b"ld\n"));
    assert_eq!(evs, vec![interim("Hello"), settled("world")]);
}

#[test]
fn multibyte_text_is_kept_whole() {
    let mut r = Reassembler::new();
    let evs = r.push_chunk("größer\n".as_bytes());
    assert_eq!(evs, vec![settled("größer")]);
}

#[test]
fn push_byte_accumulates_and_fires_on_boundary() {
    let mut r = Reassembler::new();
    assert_eq!(r.push_byte(b'a'), None);
    assert_eq!(r.push_byte(b'b'), None);
    assert_eq!(r.push_byte(b'\r'), Some(interim("ab")));
    assert_eq!(r.push_byte(b'\n'), None);
}

#[test]
fn unicode_whitespace_only_tail_emits_nothing() {
    let evs = process_stream("\u{a0}".as_bytes());
    assert_eq!(evs, Vec::new());
}

#[test]
fn unicode_whitespace_only_segment_emits_nothing() {
    let evs = process_stream("A\r\u{a0}\n".as_bytes());
    assert_eq!(evs, vec![interim("A")]);
}

#[test]
fn unicode_whitespace_is_trimmed_from_the_tail() {
    let mut r = Reassembler::new();
    let evs = r.push_chunk("A\u{a0}".as_bytes());
    assert_eq!(evs, Vec::new());
    assert_eq!(r.finish(), Some(settled("A")));
}

#[test]
fn payloads_are_trimmed_of_unicode_whitespace() {
    let evs = process_stream("\u{a0}one\u{2003}\rtwo\u{3000}\u{85}\n".as_bytes());
    assert_eq!(evs, vec![interim("one"), settled("two")]);
}

#[test]
fn process_stream_settles_the_tail() {
    let evs = process_stream(b"one\rone two\ntail");
    assert_eq!(evs, vec![interim("one"), settled("one two"), settled("tail")]);
}

#[test]
fn process_stream_of_empty_input_is_silent() {
    assert_eq!(process_stream(b""), Vec::new());
}

#[test]
fn event_accessors() {
    let i = interim("one");
    let f = settled("two");
    assert!(!i.is_settled());
    assert!(f.is_settled());
    assert_eq!(i.text(), "one");
    assert_eq!(f.text(), "two");
    assert_eq!(i.channel_name(), "interim_transcription");
    assert_eq!(f.channel_name(), "final_transcription");
}
