use vstd::prelude::*;

verus! {

/// Byte that ends every record of a log file. An encoded command never
/// holds it, so a record is the text up to and including the next one.
pub const NEWLINE: u8 = 10;

/// Where a record lies in a log file: its first byte and its length,
/// the closing newline included.
#[derive(Clone, Copy, Debug, PartialEq, Eq)]
pub struct Span {
    pub pos: u64,
    pub len: u64,
}

pub open spec fn no_newline(s: Seq<u8>, from: int, to: int) -> bool {
    forall|j: int| from <= j < to ==> #[trigger] s[j] != NEWLINE
}

/// `spans` are the complete records of `bytes`, in order: they follow each
/// other from the start of the file, each ends with its only newline, and
/// what follows the last one holds no newline (a write cut short).
pub open spec fn framed(bytes: Seq<u8>, spans: Seq<Span>) -> bool {
    &&& forall|i: int|
        0 <= i < spans.len() ==> {
            &&& (#[trigger] spans[i]).len >= 1
            &&& spans[i].pos + spans[i].len <= bytes.len()
            &&& bytes[spans[i].pos + spans[i].len - 1] == NEWLINE
            &&& no_newline(bytes, spans[i].pos as int, spans[i].pos + spans[i].len - 1)
        }
    &&& spans.len() > 0 ==> spans[0].pos == 0
    &&& forall|i: int|
        0 <= i < spans.len() - 1 ==> #[trigger] spans[i + 1].pos == spans[i].pos + spans[i].len
    &&& no_newline(bytes, framed_end(spans), bytes.len() as int)
}

/// Where the last complete record ends.
pub open spec fn framed_end(spans: Seq<Span>) -> int {
    if spans.len() == 0 {
        0
    } else {
        spans.last().pos + spans.last().len
    }
}

/// A record ready to append: the encoded command and its newline. `None`
/// when the encoding itself holds a newline, which would split the record.
pub fn frame_record(body: &Vec<u8>) -> (r: Option<Vec<u8>>)
    ensures
        r is Some <==> no_newline(body@, 0, body@.len() as int),
        r matches Some(v) ==> v@ == body@.push(NEWLINE),
{
    let mut out: Vec<u8> = Vec::new();
    let mut i: usize = 0;
    while i < body.len()
        invariant
            0 <= i <= body@.len(),
            out@ == body@.take(i as int),
            no_newline(body@, 0, i as int),
        decreases body@.len() - i,
    {
        if body[i] == NEWLINE {
            return None;
        }
        out.push(body[i]);
        i = i + 1;
        assert(out@ == body@.take(i as int));
    }
    out.push(NEWLINE);
    assert(body@.take(i as int) == body@);
    Some(out)
}

/// The complete records of a log file's contents. A final record without
/// its newline is the trace of a write cut short and is left out.
pub fn record_spans(bytes: &Vec<u8>) -> (r: Vec<Span>)
    ensures
        framed(bytes@, r@),
{
    let mut spans: Vec<Span> = Vec::new();
    let mut start: usize = 0;
    let mut i: usize = 0;
    while i < bytes.len()
        invariant
            0 <= start <= i <= bytes@.len(),
            framed_end(spans@) == start,
            no_newline(bytes@, start as int, i as int),
            forall|k: int|
                0 <= k < spans@.len() ==> {
                    &&& (#[trigger] spans@[k]).len >= 1
                    &&& spans@[k].pos + spans@[k].len <= start
                    &&& bytes@[spans@[k].pos + spans@[k].len - 1] == NEWLINE
                    &&& no_newline(bytes@, spans@[k].pos as int, spans@[k].pos + spans@[k].len - 1)
                },
            spans@.len() > 0 ==> spans@[0].pos == 0,
            forall|k: int|
                0 <= k < spans@.len() - 1 ==> #[trigger] spans@[k + 1].pos == spans@[k].pos
                    + spans@[k].len,
        decreases bytes@.len() - i,
    {
        if bytes[i] == NEWLINE {
            let span = Span { pos: start as u64, len: (i + 1 - start) as u64 };
            let ghost old_spans = spans@;
            spans.push(span);
            proof {
                assert forall|k: int| 0 <= k < spans@.len() - 1 implies #[trigger] spans@[k + 1].pos
                    == spans@[k].pos + spans@[k].len by {
                    if k + 1 < old_spans.len() {
                        assert(spans@[k + 1] == old_spans[k + 1]);
                    }
                }
            }
            start = i + 1;
        }
        i = i + 1;
    }
    spans
}

/// Bytes left by a write cut short after the last complete record change
/// nothing in the records that a replay finds: whatever spans frame the
/// longer file are those of the shorter one.
pub proof fn lemma_torn_tail_ignored(bytes: Seq<u8>, spans: Seq<Span>, tail: Seq<u8>, found: Seq<Span>)
    requires
        framed(bytes, spans),
        no_newline(tail, 0, tail.len() as int),
        framed(bytes + tail, found),
    ensures
        framed(bytes + tail, spans),
        found == spans,
{
    lemma_torn_tail_frames(bytes, spans, tail);
    lemma_framing_unique(bytes + tail, found, spans);
}

proof fn lemma_torn_tail_frames(bytes: Seq<u8>, spans: Seq<Span>, tail: Seq<u8>)
    requires
        framed(bytes, spans),
        no_newline(tail, 0, tail.len() as int),
    ensures
        framed(bytes + tail, spans),
{
    let all = bytes + tail;
    assert forall|i: int| 0 <= i < spans.len() implies {
        &&& all[spans[i].pos + spans[i].len - 1] == NEWLINE
        &&& no_newline(all, spans[i].pos as int, spans[i].pos + spans[i].len - 1)
    } by {
        assert(spans[i].pos + spans[i].len <= bytes.len());
        assert forall|j: int|
            spans[i].pos <= j < spans[i].pos + spans[i].len - 1 implies #[trigger] all[j]
            != NEWLINE by {
            assert(all[j] == bytes[j]);
        }
    }
    assert(framed_end(spans) <= bytes.len()) by {
        if spans.len() > 0 {
            assert(spans[spans.len() - 1] == spans.last());
        }
    }
    assert forall|j: int| framed_end(spans) <= j < all.len() implies #[trigger] all[j] != NEWLINE by {
        if j >= bytes.len() {
            assert(all[j] == tail[j - bytes.len()]);
        } else {
            assert(all[j] == bytes[j]);
        }
    }
}

proof fn lemma_span_at(bytes: Seq<u8>, s1: Seq<Span>, s2: Seq<Span>, i: int)
    requires
        framed(bytes, s1),
        framed(bytes, s2),
        0 <= i < s1.len(),
        i < s2.len(),
    ensures
        s1[i] == s2[i],
    decreases i,
{
    if i > 0 {
        lemma_span_at(bytes, s1, s2, i - 1);
        let j = i - 1;
        assert(s1[j + 1].pos == s1[j].pos + s1[j].len);
        assert(s2[j + 1].pos == s2[j].pos + s2[j].len);
    }
    let p = s1[i].pos as int;
    let e1 = p + s1[i].len - 1;
    let e2 = p + s2[i].len - 1;
    assert(bytes[e1] == NEWLINE);
    assert(bytes[e2] == NEWLINE);
    if e1 < e2 {
        assert(no_newline(bytes, p, e2));
        assert(bytes[e1] != NEWLINE);
    }
    if e2 < e1 {
        assert(no_newline(bytes, p, e1));
        assert(bytes[e2] != NEWLINE);
    }
}

proof fn lemma_no_longer(bytes: Seq<u8>, s1: Seq<Span>, s2: Seq<Span>)
    requires
        framed(bytes, s1),
        framed(bytes, s2),
    ensures
        s2.len() <= s1.len(),
{
    if s1.len() < s2.len() {
        let n = s1.len() as int;
        if n > 0 {
            lemma_span_at(bytes, s1, s2, n - 1);
            let j = n - 1;
            assert(s2[j + 1].pos == s2[j].pos + s2[j].len);
            assert(s1.last() == s1[n - 1]);
        }
        assert(s2[n].pos == framed_end(s1));
        let e = s2[n].pos + s2[n].len - 1;
        assert(bytes[e] == NEWLINE);
        assert(framed_end(s1) <= e < bytes.len());
        assert(bytes[e] != NEWLINE);
    }
}

/// The complete records of a file are determined by its bytes: there is one
/// way only to cut them into records.
pub proof fn lemma_framing_unique(bytes: Seq<u8>, s1: Seq<Span>, s2: Seq<Span>)
    requires
        framed(bytes, s1),
        framed(bytes, s2),
    ensures
        s1 == s2,
{
    lemma_no_longer(bytes, s1, s2);
    lemma_no_longer(bytes, s2, s1);
    assert forall|i: int| 0 <= i < s1.len() implies s1[i] == s2[i] by {
        lemma_span_at(bytes, s1, s2, i);
    }
    assert(s1 =~= s2);
}

} // verus!
