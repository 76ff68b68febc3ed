//! Byte-at-a-time assembly of `$...\r\n` sentences into a bounded buffer.
use vstd::prelude::*;

use crate::bounded::{
    clear_sentence, new_sentence, push_byte_char, sentence_as_bytes, sentence_bytes, utf8_of_byte,
};

verus! {

/// The largest sentence, in bytes, including the leading `$` and the terminators.
pub const MAX_LEN: usize = 82;

/// `$`, which opens a sentence.
pub const START: u8 = 0x24;

/// Carriage return, ignored.
pub const CR: u8 = 0x0D;

/// Line feed, which ends a sentence.
pub const LF: u8 = 0x0A;

/// One transition of the assembler: the buffer afterwards and the sentence
/// completed by this byte, if any. An empty buffer means no sentence is being built.
pub open spec fn step(buf: Seq<u8>, b: u8) -> (Seq<u8>, Option<Seq<u8>>) {
    if b == START {
        (seq![START], None)
    } else if b == CR {
        (buf, None)
    } else if b == LF {
        if buf.len() > 0 {
            (Seq::<u8>::empty(), Some(buf))
        } else {
            (buf, None)
        }
    } else if buf.len() > 0 && buf.len() + utf8_of_byte(b).len() <= MAX_LEN {
        (buf + utf8_of_byte(b), None)
    } else {
        (buf, None)
    }
}

/// The buffer after feeding `bytes` one by one from `buf`, and what each byte returned.
pub open spec fn run(buf: Seq<u8>, bytes: Seq<u8>) -> (Seq<u8>, Seq<Option<Seq<u8>>>)
    decreases bytes.len(),
{
    if bytes.len() == 0 {
        (buf, Seq::empty())
    } else {
        let prev = run(buf, bytes.drop_last());
        let next = step(prev.0, bytes.last());
        (next.0, prev.1.push(next.1))
    }
}

pub open spec fn sentence_view(r: Option<heapless::String<82>>) -> Option<Seq<u8>> {
    match r {
        Some(s) => Some(sentence_bytes(s)),
        None => None,
    }
}

pub struct NmeaAssembler {
    buf: heapless::String<82>,
}

impl View for NmeaAssembler {
    type V = Seq<u8>;

    closed spec fn view(&self) -> Seq<u8> {
        sentence_bytes(self.buf)
    }
}

impl NmeaAssembler {
    /// An assembler with no sentence under construction.
    pub fn new() -> (r: Self)
        ensures
            r@ == Seq::<u8>::empty(),
    {
        NmeaAssembler { buf: new_sentence() }
    }

    /// Feeds one byte; returns the completed sentence when `byte` ends one.
    pub fn push_byte(&mut self, byte: u8) -> (r: Option<heapless::String<82>>)
        ensures
            (final(self)@, sentence_view(r)) == step(old(self)@, byte),
    {
        if byte == START {
            clear_sentence(&mut self.buf);
            let _ = push_byte_char(&mut self.buf, byte);
            proof {
                assert(utf8_of_byte(byte) =~= seq![START]);
                assert(self@ =~= seq![START]);
            }
            None
        } else if byte == CR {
            None
        } else if byte == LF {
            let held = sentence_as_bytes(&self.buf).len();
            if held > 0 {
                let mut out = new_sentence();
                core::mem::swap(&mut out, &mut self.buf);
                Some(out)
            } else {
                None
            }
        } else {
            let held = sentence_as_bytes(&self.buf).len();
            if held > 0 {
                let _ = push_byte_char(&mut self.buf, byte);
            }
            None
        }
    }
}


/// True when no byte of `outs` completed a sentence.
pub open spec fn all_none(outs: Seq<Option<Seq<u8>>>) -> bool {
    forall|k: int| 0 <= k < outs.len() ==> (#[trigger] outs[k]) is None
}

proof fn lemma_run_len(buf: Seq<u8>, bytes: Seq<u8>)
    ensures
        run(buf, bytes).1.len() == bytes.len(),
    decreases bytes.len(),
{
    if bytes.len() > 0 {
        lemma_run_len(buf, bytes.drop_last());
    }
}

proof fn lemma_run_one(buf: Seq<u8>, b: u8)
    ensures
        run(buf, seq![b]) == (step(buf, b).0, seq![step(buf, b).1]),
{
    assert(seq![b].drop_last() =~= Seq::<u8>::empty());
    assert(seq![b].last() == b);
    assert(run(buf, Seq::<u8>::empty()) == (buf, Seq::<Option<Seq<u8>>>::empty()));
    assert(Seq::<Option<Seq<u8>>>::empty().push(step(buf, b).1) =~= seq![step(buf, b).1]);
}

proof fn lemma_run_concat(buf: Seq<u8>, a: Seq<u8>, b: Seq<u8>)
    ensures
        run(buf, a + b) == (run(run(buf, a).0, b).0, run(buf, a).1 + run(run(buf, a).0, b).1),
    decreases b.len(),
{
    let mid = run(buf, a).0;
    if b.len() == 0 {
        assert(a + b =~= a);
        assert(run(buf, a).1 + run(mid, b).1 =~= run(buf, a).1);
    } else {
        lemma_run_concat(buf, a, b.drop_last());
        assert((a + b).drop_last() =~= a + b.drop_last());
        assert((a + b).last() == b.last());
        let r = run(mid, b.drop_last());
        let x = step(r.0, b.last()).1;
        assert(run(buf, a).1 + r.1.push(x) =~= (run(buf, a).1 + r.1).push(x));
    }
}

/// With no sentence under way, bytes without a `$` start none and complete none.
proof fn lemma_idle(bytes: Seq<u8>)
    requires
        forall|i: int| 0 <= i < bytes.len() ==> bytes[i] != START,
    ensures
        run(Seq::empty(), bytes).0 == Seq::<u8>::empty(),
        all_none(run(Seq::empty(), bytes).1),
    decreases bytes.len(),
{
    if bytes.len() > 0 {
        lemma_idle(bytes.drop_last());
        let prev = run(Seq::empty(), bytes.drop_last());
        assert forall|k: int| 0 <= k < run(Seq::empty(), bytes).1.len() implies
            (#[trigger] run(Seq::empty(), bytes).1[k]) is None by {
            if k < prev.1.len() {
                assert(run(Seq::empty(), bytes).1[k] == prev.1[k]);
            }
        }
    }
}

/// After a `$`, plain ASCII bytes that fit are appended and complete nothing.
proof fn lemma_body(body: Seq<u8>)
    requires
        forall|i: int|
            0 <= i < body.len() ==> body[i] != START && body[i] != CR && body[i] != LF && body[i]
                < 0x80,
        body.len() + 1 <= MAX_LEN,
    ensures
        run(seq![START], body).0 == seq![START] + body,
        all_none(run(seq![START], body).1),
    decreases body.len(),
{
    if body.len() > 0 {
        lemma_body(body.drop_last());
        let prev = run(seq![START], body.drop_last());
        assert(utf8_of_byte(body.last()) =~= seq![body.last()]);
        assert(prev.0 + utf8_of_byte(body.last()) =~= seq![START] + body);
        assert forall|k: int| 0 <= k < run(seq![START], body).1.len() implies
            (#[trigger] run(seq![START], body).1[k]) is None by {
            if k < prev.1.len() {
                assert(run(seq![START], body).1[k] == prev.1[k]);
            }
        }
    }
}

/// A stream holding exactly one well-formed sentence `$body\r\n`, with no `$`
/// before or after it, completes exactly that sentence, at its line feed, and
/// nothing at any other byte.
pub proof fn lemma_single_sentence(pre: Seq<u8>, body: Seq<u8>, post: Seq<u8>)
    requires
        forall|i: int| 0 <= i < pre.len() ==> pre[i] != START,
        forall|i: int|
            0 <= i < body.len() ==> body[i] != START && body[i] != CR && body[i] != LF && body[i]
                < 0x80,
        body.len() + 3 <= MAX_LEN,
        forall|i: int| 0 <= i < post.len() ==> post[i] != START,
    ensures
        ({
            let input = pre + seq![START] + body + seq![CR, LF] + post;
            let outs = run(Seq::empty(), input).1;
            &&& outs.len() == input.len()
            &&& outs[pre.len() + body.len() + 2int] == Some(seq![START] + body)
            &&& forall|k: int|
                0 <= k < outs.len() && k != pre.len() + body.len() + 2 ==> (#[trigger] outs[k]) is None
        }),
{
    let e = Seq::<u8>::empty();
    let s1 = pre;
    let s2 = s1 + seq![START];
    let s3 = s2 + body;
    let s4 = s3 + seq![CR, LF];
    let input = s4 + post;
    assert(input =~= pre + seq![START] + body + seq![CR, LF] + post);
    lemma_run_len(e, input);
    lemma_idle(pre);
    lemma_run_len(e, pre);
    lemma_run_concat(e, s1, seq![START]);
    let r_start = run(run(e, s1).0, seq![START]);
    lemma_run_one(run(e, s1).0, START);
    lemma_run_concat(e, s2, body);
    lemma_body(body);
    lemma_run_len(seq![START], body);
    lemma_run_concat(e, s3, seq![CR, LF]);
    let t = seq![CR, LF];
    let full = seq![START] + body;
    lemma_run_concat(full, seq![CR], seq![LF]);
    assert(seq![CR] + seq![LF] =~= t);
    lemma_run_one(full, CR);
    lemma_run_one(full, LF);
    assert(run(full, t).1 =~= seq![None, Some(full)]);
    lemma_run_concat(e, s4, post);
    lemma_idle(post);
    lemma_run_len(e, post);
    let o1 = run(e, s1).1;
    let o2 = o1 + r_start.1;
    let o3 = o2 + run(seq![START], body).1;
    let o4 = o3 + run(full, t).1;
    let outs = o4 + run(e, post).1;
    assert(run(e, input).1 == outs);
    let m = pre.len() + body.len() + 2int;
    assert(outs[m] == Some(full));
    assert forall|k: int| 0 <= k < outs.len() && k != m implies (#[trigger] outs[k]) is None by {
        if k < pre.len() {
            assert(outs[k] == o1[k]);
        } else if k == pre.len() {
            assert(outs[k] == r_start.1[0]);
        } else if k < pre.len() + 1 + body.len() {
            assert(outs[k] == run(seq![START], body).1[k - pre.len() - 1]);
        } else if k == pre.len() + 1 + body.len() {
            assert(outs[k] == run(full, t).1[0]);
        } else {
            assert(outs[k] == run(e, post).1[k - m - 1]);
        }
    }
}

/// A `$` restarts the assembler: whatever was under way is dropped without
/// being completed, and everything that follows is as if it had never been.
pub proof fn lemma_restart(held: Seq<u8>, other: Seq<u8>, rest: Seq<u8>)
    ensures
        run(held, seq![START] + rest) == run(other, seq![START] + rest),
        run(held, seq![START] + rest).1[0] is None,
{
    lemma_run_one(held, START);
    lemma_run_one(other, START);
    lemma_run_concat(held, seq![START], rest);
    lemma_run_concat(other, seq![START], rest);
    lemma_run_len(seq![START], rest);
    assert((run(held, seq![START]).1 + run(seq![START], rest).1)[0] == run(held, seq![START]).1[0]);
}

} // verus!
