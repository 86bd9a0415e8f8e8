//! Byte-to-line reassembler: converts an unstructured byte stream into
//! discrete transcription events.
//!
//! Bytes accumulate until a boundary byte arrives. A carriage return marks an
//! interim rewrite of the current line; a newline finalizes it; the end of the
//! stream settles whatever is still accumulated. At every boundary the
//! accumulated bytes are decoded as UTF-8, cleaned of control sequences,
//! trimmed, and emitted when non-empty; a segment that does not decode is
//! dropped silently, and the accumulator is cleared unconditionally.

use vstd::prelude::*;
use vstd::utf8::{decode_utf8, valid_utf8};

use crate::event::{model_of, models_of, EventModel, TranscriptionEvent};
use crate::filter::{clean, clean_spec};

verus! {

/// Carriage return: the boundary that marks an interim rewrite of a line.
pub const CR: u8 = 0x0d;

/// Line feed: the boundary that finalizes a line.
pub const LF: u8 = 0x0a;

/// The text a boundary produces from accumulated bytes: they must decode as
/// UTF-8 and, once cleaned of control sequences and surrounding whitespace,
/// must still be non-empty; otherwise the segment yields nothing.
pub open spec fn segment_text(acc: Seq<u8>) -> Option<Seq<char>> {
    if !valid_utf8(acc) {
        None
    } else {
        let cleaned = clean_spec(acc);
        if cleaned.len() == 0 {
            None
        } else {
            Some(decode_utf8(cleaned))
        }
    }
}

/// The event a carriage return produces: the interim text of a non-empty
/// accumulator, or nothing.
pub open spec fn interim_of(acc: Seq<u8>) -> Option<EventModel> {
    if acc.len() > 0 {
        match segment_text(acc) {
            Some(t) => Some(EventModel::Interim(t)),
            None => None,
        }
    } else {
        None
    }
}

/// The event a newline or the end of the stream produces: the settled text of
/// a non-empty accumulator, or nothing.
pub open spec fn final_of(acc: Seq<u8>) -> Option<EventModel> {
    if acc.len() > 0 {
        match segment_text(acc) {
            Some(t) => Some(EventModel::Final(t)),
            None => None,
        }
    } else {
        None
    }
}

/// The accumulator after one byte: a boundary clears it unconditionally, any
/// other byte is appended.
pub open spec fn step_acc(acc: Seq<u8>, b: u8) -> Seq<u8> {
    if b == CR || b == LF {
        Seq::<u8>::empty()
    } else {
        acc.push(b)
    }
}

/// The event one byte produces.
pub open spec fn step_event(acc: Seq<u8>, b: u8) -> Option<EventModel> {
    if b == CR {
        interim_of(acc)
    } else if b == LF {
        final_of(acc)
    } else {
        None
    }
}

/// A singleton or empty sequence out of an optional event.
pub open spec fn emitted(ev: Option<EventModel>) -> Seq<EventModel> {
    match ev {
        Some(e) => seq![e],
        None => Seq::<EventModel>::empty(),
    }
}

/// The accumulator after a whole fragment, fed byte by byte.
pub open spec fn run_acc(acc: Seq<u8>, bytes: Seq<u8>) -> Seq<u8>
    decreases bytes.len(),
{
    if bytes.len() == 0 {
        acc
    } else {
        run_acc(step_acc(acc, bytes[0]), bytes.drop_first())
    }
}

/// The events a whole fragment produces, in byte order.
pub open spec fn run_events(acc: Seq<u8>, bytes: Seq<u8>) -> Seq<EventModel>
    decreases bytes.len(),
{
    if bytes.len() == 0 {
        Seq::<EventModel>::empty()
    } else {
        emitted(step_event(acc, bytes[0])) + run_events(step_acc(acc, bytes[0]), bytes.drop_first())
    }
}

/// Every event of a complete stream, read from a fresh reassembler through
/// end of stream.
pub open spec fn stream_events(bytes: Seq<u8>) -> Seq<EventModel> {
    run_events(Seq::<u8>::empty(), bytes) + emitted(
        final_of(run_acc(Seq::<u8>::empty(), bytes)),
    )
}

/// Relies on `String::from_utf8`: it returns `Ok` exactly when the bytes are
/// valid UTF-8, and the returned string is their decoding.
#[verifier::external_body]
fn decode_bytes(bytes: &Vec<u8>) -> (r: Option<String>)
    ensures
        (r is Some) <==> valid_utf8(bytes@),
        r matches Some(s) ==> s@ == decode_utf8(bytes@),
{
    match String::from_utf8(bytes.clone()) {
        Ok(s) => Some(s),
        Err(_) => None,
    }
}

/// The stateful accumulator between boundaries. Its view is the sequence of
/// bytes observed since the last boundary.
pub struct Reassembler {
    acc: Vec<u8>,
}

impl View for Reassembler {
    type V = Seq<u8>;

    closed spec fn view(&self) -> Seq<u8> {
        self.acc@
    }
}

impl Reassembler {
    /// A reassembler with nothing accumulated.
    pub fn new() -> (r: Self)
        ensures
            r@ == Seq::<u8>::empty(),
    {
        Reassembler { acc: Vec::new() }
    }

    /// The text of the current segment, if it decodes and cleans to something
    /// non-empty; the accumulator is cleared either way.
    fn take_segment(&mut self) -> (r: Option<String>)
        ensures
            final(self)@ == Seq::<u8>::empty(),
            match r {
                Some(s) => old(self)@.len() > 0 && segment_text(old(self)@) == Some(s@),
                None => old(self)@.len() == 0 || segment_text(old(self)@) is None,
            },
    {
        let r = if self.acc.len() == 0 {
            None
        } else {
            match decode_bytes(&self.acc) {
                None => None,
                Some(_) => {
                    let cleaned = clean(self.acc.as_slice());
                    if cleaned.len() == 0 {
                        None
                    } else {
                        proof {
                            crate::filter::lemma_clean_preserves_utf8(self.acc@);
                        }
                        decode_bytes(&cleaned)
                    }
                },
            }
        };
        self.acc.clear();
        r
    }

    /// Feed one byte. A carriage return emits the interim text of a non-empty
    /// accumulator and clears it; a newline emits the settled text likewise;
    /// any other byte is appended and emits nothing.
    pub fn push_byte(&mut self, b: u8) -> (ev: Option<TranscriptionEvent>)
        ensures
            final(self)@ == step_acc(old(self)@, b),
            model_of(ev) == step_event(old(self)@, b),
    {
        if b == CR {
            match self.take_segment() {
                Some(s) => Some(TranscriptionEvent::Interim(s)),
                None => None,
            }
        } else if b == LF {
            match self.take_segment() {
                Some(s) => Some(TranscriptionEvent::Final(s)),
                None => None,
            }
        } else {
            self.acc.push(b);
            None
        }
    }

    /// Feed a chunk of bytes in order, returning the events they produce, in
    /// the order their boundary bytes were read.
    pub fn push_chunk(&mut self, chunk: &[u8]) -> (evs: Vec<TranscriptionEvent>)
        ensures
            final(self)@ == run_acc(old(self)@, chunk@),
            models_of(evs@) == run_events(old(self)@, chunk@),
    {
        let ghost acc0: Seq<u8> = self@;
        let mut evs: Vec<TranscriptionEvent> = Vec::new();
        let mut i: usize = 0;
        proof {
            assert(chunk@.take(0) =~= Seq::<u8>::empty());
            assert(models_of(evs@) =~= Seq::<EventModel>::empty());
        }
        while i < chunk.len()
            invariant
                i <= chunk@.len(),
                self@ == run_acc(acc0, chunk@.take(i as int)),
                models_of(evs@) == run_events(acc0, chunk@.take(i as int)),
            decreases chunk@.len() - i,
        {
            let b = chunk[i];
            let ev = self.push_byte(b);
            proof {
                lemma_run_snoc(acc0, chunk@.take(i as int), b);
                assert(chunk@.take(i as int).push(b) =~= chunk@.take(i + 1));
            }
            match ev {
                Some(e) => {
                    proof {
                        assert(models_of(evs@.push(e)) =~= models_of(evs@).push(e@));
                        assert(models_of(evs@).push(e@) =~= run_events(acc0, chunk@.take(i + 1)));
                    }
                    evs.push(e);
                },
                None => {
                    proof {
                        assert(models_of(evs@) =~= run_events(acc0, chunk@.take(i + 1)));
                    }
                },
            }
            i = i + 1;
        }
        proof {
            assert(chunk@.take(i as int) =~= chunk@);
        }
        evs
    }

    /// End of stream: whatever is still accumulated is settled, not
    /// discarded, and emitted as one `Final` event when its cleaned text is
    /// non-empty.
    pub fn finish(&mut self) -> (ev: Option<TranscriptionEvent>)
        ensures
            final(self)@ == Seq::<u8>::empty(),
            model_of(ev) == final_of(old(self)@),
    {
        match self.take_segment() {
            Some(s) => Some(TranscriptionEvent::Final(s)),
            None => None,
        }
    }
}

/// Process a complete stream in one call: every event its bytes produce, with
/// the unterminated tail settled at the end.
pub fn process_stream(bytes: &[u8]) -> (evs: Vec<TranscriptionEvent>)
    ensures
        models_of(evs@) == stream_events(bytes@),
{
    let mut r = Reassembler::new();
    let mut evs = r.push_chunk(bytes);
    match r.finish() {
        Some(e) => {
            proof {
                assert(models_of(evs@.push(e)) =~= models_of(evs@).push(e@));
                assert(models_of(evs@).push(e@) =~= stream_events(bytes@));
            }
            evs.push(e);
        },
        None => {
            proof {
                assert(models_of(evs@) =~= stream_events(bytes@));
            }
        },
    }
    evs
}

/// Feeding one more byte after a fragment steps the accumulator and appends
/// that byte's event.
proof fn lemma_run_snoc(acc: Seq<u8>, bytes: Seq<u8>, b: u8)
    ensures
        run_acc(acc, bytes.push(b)) == step_acc(run_acc(acc, bytes), b),
        run_events(acc, bytes.push(b)) == run_events(acc, bytes) + emitted(
            step_event(run_acc(acc, bytes), b),
        ),
    decreases bytes.len(),
{
    if bytes.len() == 0 {
        assert(bytes.push(b)[0] == b);
        assert(bytes.push(b).drop_first() =~= Seq::<u8>::empty());
        assert(run_acc(step_acc(acc, b), bytes.push(b).drop_first()) == step_acc(acc, b));
        assert(run_events(step_acc(acc, b), bytes.push(b).drop_first()) =~= Seq::<
            EventModel,
        >::empty());
        assert(run_events(acc, bytes.push(b)) =~= emitted(step_event(acc, b)));
        assert(run_events(acc, bytes) + emitted(step_event(acc, b)) =~= emitted(
            step_event(acc, b),
        ));
    } else {
        assert(bytes.push(b)[0] == bytes[0]);
        assert(bytes.push(b).drop_first() =~= bytes.drop_first().push(b));
        lemma_run_snoc(step_acc(acc, bytes[0]), bytes.drop_first(), b);
        assert(run_events(acc, bytes.push(b)) =~= run_events(acc, bytes) + emitted(
            step_event(run_acc(acc, bytes), b),
        ));
    }
}

/// Running a concatenation runs the first part, then the second from the
/// accumulator the first one left.
pub proof fn lemma_run_concat(acc: Seq<u8>, xs: Seq<u8>, ys: Seq<u8>)
    ensures
        run_acc(acc, xs + ys) == run_acc(run_acc(acc, xs), ys),
        run_events(acc, xs + ys) == run_events(acc, xs) + run_events(run_acc(acc, xs), ys),
    decreases xs.len(),
{
    if xs.len() == 0 {
        assert(xs + ys =~= ys);
    } else {
        assert((xs + ys)[0] == xs[0]);
        assert((xs + ys).drop_first() =~= xs.drop_first() + ys);
        lemma_run_concat(step_acc(acc, xs[0]), xs.drop_first(), ys);
        assert(run_events(acc, xs + ys) =~= run_events(acc, xs) + run_events(
            run_acc(acc, xs),
            ys,
        ));
    }
}

/// A fragment containing neither boundary byte.
pub open spec fn boundary_free(bytes: Seq<u8>) -> bool {
    forall|i: int| 0 <= i < bytes.len() ==> bytes[i] != CR && bytes[i] != LF
}

proof fn lemma_run_boundary_free(acc: Seq<u8>, bytes: Seq<u8>)
    requires
        boundary_free(bytes),
    ensures
        run_acc(acc, bytes) == acc + bytes,
        run_events(acc, bytes) == Seq::<EventModel>::empty(),
    decreases bytes.len(),
{
    if bytes.len() == 0 {
        assert(acc + bytes =~= acc);
    } else {
        assert(bytes[0] != CR && bytes[0] != LF);
        assert(boundary_free(bytes.drop_first())) by {
            assert(forall|i: int|
                0 <= i < bytes.drop_first().len() ==> bytes.drop_first()[i] == bytes[i + 1]);
        }
        lemma_run_boundary_free(acc.push(bytes[0]), bytes.drop_first());
        assert(acc.push(bytes[0]) + bytes.drop_first() =~= acc + bytes);
        assert(run_events(acc, bytes) =~= Seq::<EventModel>::empty());
    }
}

/// Law: a stream without boundary bytes emits nothing until end of stream;
/// there it emits exactly the one `Final` event its cleaned content gives, or
/// none when that content is empty or malformed.
pub proof fn lemma_silent_until_end_of_stream(bytes: Seq<u8>)
    requires
        boundary_free(bytes),
    ensures
        run_events(Seq::<u8>::empty(), bytes) == Seq::<EventModel>::empty(),
        run_acc(Seq::<u8>::empty(), bytes) == bytes,
        stream_events(bytes) == emitted(final_of(bytes)),
{
    lemma_run_boundary_free(Seq::<u8>::empty(), bytes);
    assert(Seq::<u8>::empty() + bytes =~= bytes);
    assert(stream_events(bytes) =~= emitted(final_of(bytes)));
}

/// Law: two segments, each closed by a boundary byte, produce exactly the
/// events of their own boundaries, in byte order, and leave nothing
/// accumulated.
pub proof fn lemma_two_segments(t1: Seq<u8>, b1: u8, t2: Seq<u8>, b2: u8)
    requires
        boundary_free(t1),
        boundary_free(t2),
        b1 == CR || b1 == LF,
        b2 == CR || b2 == LF,
    ensures
        stream_events(t1 + seq![b1] + t2 + seq![b2]) == emitted(step_event(t1, b1)) + emitted(
            step_event(t2, b2),
        ),
{
    let sb1 = seq![b1];
    let sb2 = seq![b2];
    let bytes = t1 + sb1 + t2 + sb2;
    let tail = t2 + sb2;
    let rest = sb1 + tail;
    // a single boundary byte is one step from whatever is accumulated
    assert(sb1 =~= Seq::<u8>::empty().push(b1));
    assert(sb2 =~= Seq::<u8>::empty().push(b2));
    lemma_run_snoc(t1, Seq::<u8>::empty(), b1);
    lemma_run_snoc(t2, Seq::<u8>::empty(), b2);
    assert(run_events(t1, sb1) =~= emitted(step_event(t1, b1)));
    assert(run_events(t2, sb2) =~= emitted(step_event(t2, b2)));
    // the first segment accumulates silently, then its boundary fires
    assert(bytes =~= t1 + rest);
    lemma_run_concat(Seq::<u8>::empty(), t1, rest);
    lemma_run_boundary_free(Seq::<u8>::empty(), t1);
    assert(Seq::<u8>::empty() + t1 =~= t1);
    lemma_run_concat(t1, sb1, tail);
    assert(run_acc(t1, sb1) == Seq::<u8>::empty());
    // the second segment accumulates from an empty buffer, then its boundary fires
    lemma_run_concat(Seq::<u8>::empty(), t2, sb2);
    lemma_run_boundary_free(Seq::<u8>::empty(), t2);
    assert(Seq::<u8>::empty() + t2 =~= t2);
    assert(run_acc(Seq::<u8>::empty(), bytes) == Seq::<u8>::empty());
    assert(final_of(Seq::<u8>::empty()) is None);
    assert(stream_events(bytes) =~= emitted(step_event(t1, b1)) + emitted(step_event(t2, b2)));
}

/// Law: a fragment closed by a carriage return and a second closed by a
/// newline yield the interim event of the first, then the final event of the
/// second, each only when its cleaned text is non-empty, and nothing else.
pub proof fn lemma_interim_then_final(t1: Seq<u8>, t2: Seq<u8>)
    requires
        boundary_free(t1),
        boundary_free(t2),
    ensures
        stream_events(t1 + seq![CR] + t2 + seq![LF]) == emitted(interim_of(t1)) + emitted(
            final_of(t2),
        ),
{
    lemma_two_segments(t1, CR, t2, LF);
}

/// Law: a newline arriving while the accumulator is empty — in particular
/// right after any boundary byte cleared it — emits nothing.
pub proof fn lemma_bare_newline_after_clear(acc: Seq<u8>, b: u8)
    requires
        b == CR || b == LF,
    ensures
        step_acc(acc, b) == Seq::<u8>::empty(),
        step_event(step_acc(acc, b), LF) is None,
        step_acc(step_acc(acc, b), LF) == Seq::<u8>::empty(),
{
}

/// Law: a segment whose bytes do not decode as UTF-8 is dropped silently, and
/// a later segment is processed as if the malformed one had not been there.
pub proof fn lemma_malformed_segment_skipped(bad: Seq<u8>, good: Seq<u8>)
    requires
        boundary_free(bad),
        boundary_free(good),
        !valid_utf8(bad),
    ensures
        stream_events(bad + seq![LF] + good + seq![LF]) == emitted(final_of(good)),
{
    lemma_two_segments(bad, LF, good, LF);
    assert(final_of(bad) is None);
    assert(emitted(final_of(bad)) + emitted(final_of(good)) =~= emitted(final_of(good)));
}

} // verus!
