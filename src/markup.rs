use vstd::prelude::*;
use vstd::string::StringExecFns;
use vstd::utf8::{encode_utf8, encode_utf8_decode_utf8};

use crate::escaping::escape;
use crate::text::{escape_text, lemma_encode_append};

verus! {

/// The failure signal of a text sink. It carries no cause.
#[derive(Debug, Clone, Copy, PartialEq, Eq)]
pub struct FormatError;

/// A destination that accepts text, piece by piece, and answers each piece
/// with success or a bare failure.
pub trait TextSink {
    /// The text accepted so far, as UTF-8.
    spec fn accepted(&self) -> Seq<u8>;

    /// How many writes the sink has refused so far.
    spec fn refusals(&self) -> nat;

    /// What the sink stands on and writing does not move: for a sink over
    /// another sink, the refusals that came before it.
    spec fn baseline(&self) -> nat;

    /// What the sink keeps true between writes.
    spec fn wf(&self) -> bool;

    /// Writes `s`; a refusal is counted.
    fn write_str(&mut self, s: &str) -> (r: Result<(), FormatError>)
        requires
            old(self).wf(),
        ensures
            final(self).wf(),
            final(self).baseline() == old(self).baseline(),
            r is Ok ==> final(self).accepted() == old(self).accepted() + encode_utf8(s@),
            r is Ok ==> final(self).refusals() == old(self).refusals(),
            r is Err ==> final(self).refusals() == old(self).refusals() + 1,
    ;
}

/// A `String` accumulates what it is given, and never refuses.
impl TextSink for String {
    open spec fn accepted(&self) -> Seq<u8> {
        encode_utf8(self@)
    }

    open spec fn refusals(&self) -> nat {
        0
    }

    open spec fn baseline(&self) -> nat {
        0
    }

    open spec fn wf(&self) -> bool {
        true
    }

    fn write_str(&mut self, s: &str) -> (r: Result<(), FormatError>) {
        proof {
            lemma_encode_append(self@, s@);
        }
        self.append(s);
        Ok(())
    }
}

/// Writes `s` into `sink` with `&`, `<`, `>`, `"` and `'` replaced by their
/// entities. It fails exactly when the sink refuses the write.
pub fn write_escaped<S: TextSink>(sink: &mut S, s: &str) -> (r: Result<(), FormatError>)
    requires
        old(sink).wf(),
    ensures
        final(sink).wf(),
        final(sink).baseline() == old(sink).baseline(),
        r is Ok ==> final(sink).accepted() == old(sink).accepted() + encode_utf8(escape_text(s@)),
        r is Ok ==> final(sink).refusals() == old(sink).refusals(),
        r is Err ==> final(sink).refusals() == old(sink).refusals() + 1,
{
    match escape(s) {
        Ok(t) => sink.write_str(t.as_str()),
        Err(_) => {
            assert(false);
            Err(FormatError)
        },
    }
}

/// The body of a piece of markup: code that writes the markup into whatever
/// text sink it is handed, and may be run any number of times.
pub trait Render {
    /// The text that the body writes, in full, when the sink takes it all.
    spec fn markup(&self) -> Seq<char>;

    /// Whether the body runs to its end without giving up of its own accord.
    spec fn completes(&self) -> bool;

    /// Writes the markup into `sink`. The body succeeds exactly when it
    /// completes and the sink refused none of its writes: a refused write is
    /// passed on as a failure.
    fn render_to<S: TextSink>(&self, sink: &mut S) -> (r: Result<(), FormatError>)
        requires
            old(sink).wf(),
        ensures
            final(sink).wf(),
            final(sink).baseline() == old(sink).baseline(),
            final(sink).refusals() >= old(sink).refusals(),
            (r is Ok) == (self.completes() && final(sink).refusals() == old(sink).refusals()),
            r is Ok ==> final(sink).accepted() == old(sink).accepted() + encode_utf8(self.markup()),
    ;
}

/// A block of HTML markup whose rendering is put off until a destination is
/// known. Rendering it does not change it, so it can be rendered again.
pub struct Markup<F> {
    callback: F,
}

/// Wraps a body into a block of markup.
pub fn make_markup<F: Render>(f: F) -> (r: Markup<F>)
    ensures
        r.markup() == f.markup(),
        r.completes() == f.completes(),
{
    Markup { callback: f }
}

impl<F: Render> Markup<F> {
    /// Renders the markup into a text sink, and passes on the body's answer.
    pub fn render_fmt<S: TextSink>(&self, w: &mut S) -> (r: Result<(), FormatError>)
        requires
            old(w).wf(),
        ensures
            final(w).wf(),
            final(w).baseline() == old(w).baseline(),
            final(w).refusals() >= old(w).refusals(),
            (r is Ok) == (self.markup_completes() && final(w).refusals() == old(w).refusals()),
            r is Ok ==> final(w).accepted() == old(w).accepted() + encode_utf8(self.markup_text()),
    {
        self.callback.render_to(w)
    }

    /// The text of the markup.
    pub closed spec fn markup_text(&self) -> Seq<char> {
        self.callback.markup()
    }

    /// Whether the body runs to its end without giving up of its own accord.
    pub closed spec fn markup_completes(&self) -> bool {
        self.callback.completes()
    }

    /// The markup as a string.
    pub fn to_string(&self) -> (r: String)
        requires
            self.markup_completes(),
        ensures
            r@ == self.markup_text(),
    {
        let mut buf = String::new();
        let res = self.render_fmt(&mut buf);
        proof {
            assert(encode_utf8(Seq::<char>::empty()) =~= Seq::<u8>::empty());
            assert(encode_utf8(buf@) =~= encode_utf8(self.markup_text()));
            encode_utf8_decode_utf8(buf@);
            encode_utf8_decode_utf8(self.markup_text());
        }
        buf
    }
}

/// Markup nests: a block renders as its body does.
impl<F: Render> Render for Markup<F> {
    open spec fn markup(&self) -> Seq<char> {
        self.markup_text()
    }

    open spec fn completes(&self) -> bool {
        self.markup_completes()
    }

    fn render_to<S: TextSink>(&self, sink: &mut S) -> (r: Result<(), FormatError>) {
        self.render_fmt(sink)
    }
}

/// A destination that accepts bytes and, on failure, says why.
pub trait ByteSink {
    type Error;

    /// The bytes accepted so far.
    spec fn written(&self) -> Seq<u8>;

    /// The cause of the latest failed write, if any write failed.
    spec fn last_failure(&self) -> Option<Self::Error>;

    /// How many writes have failed so far.
    spec fn failures(&self) -> nat;

    /// Writes all of `bytes`; on failure some prefix of them may have been
    /// accepted.
    fn write_all(&mut self, bytes: &[u8]) -> (r: Result<(), Self::Error>)
        ensures
            r is Ok ==> final(self).written() == old(self).written() + bytes@,
            r is Ok ==> final(self).last_failure() == old(self).last_failure(),
            r is Ok ==> final(self).failures() == old(self).failures(),
            r matches Err(e) ==> final(self).last_failure() == Some(e),
            r is Err ==> final(self).failures() == old(self).failures() + 1,
    ;
}

/// Presents a byte sink as a text sink for the length of one rendering, and
/// keeps the cause of the failure that a text sink cannot report.
struct SinkAdaptor<W: ByteSink> {
    inner: W,
    error: Option<W::Error>,
    start: Ghost<nat>,
}

impl<W: ByteSink> TextSink for SinkAdaptor<W> {
    closed spec fn accepted(&self) -> Seq<u8> {
        self.inner.written()
    }

    closed spec fn refusals(&self) -> nat {
        self.inner.failures()
    }

    closed spec fn baseline(&self) -> nat {
        self.start@
    }

    /// An error is kept exactly when the inner sink failed since the start,
    /// and it is the inner sink's latest.
    closed spec fn wf(&self) -> bool {
        &&& self.inner.failures() >= self.start@
        &&& (self.error is Some) == (self.inner.failures() > self.start@)
        &&& self.error matches Some(e) ==> self.inner.last_failure() == Some(e)
    }

    fn write_str(&mut self, s: &str) -> (r: Result<(), FormatError>) {
        match self.inner.write_all(s.as_bytes()) {
            Ok(()) => Ok(()),
            Err(e) => {
                self.error = Some(e);
                Err(FormatError)
            },
        }
    }
}

impl<F: Render> Markup<F> {
    /// Renders the markup into a byte sink, as UTF-8, and hands the sink
    /// back. The result is an error exactly when a write failed during this
    /// rendering, and the error is the one the sink reported last; a body
    /// that gives up while every write went through is not an error.
    pub fn render<W: ByteSink>(&self, w: W) -> (r: (W, Result<(), W::Error>))
        ensures
            r.0.failures() >= w.failures(),
            (r.1 is Err) == (r.0.failures() > w.failures()),
            r.1 matches Err(e) ==> r.0.last_failure() == Some(e),
            r.1 is Ok && self.markup_completes() ==> r.0.written() == w.written() + encode_utf8(
                self.markup_text(),
            ),
    {
        let ghost start = w.failures();
        let mut output = SinkAdaptor { inner: w, error: None, start: Ghost(start) };
        let res = self.render_fmt(&mut output);
        let SinkAdaptor { inner, error, start: _ } = output;
        let r = match res {
            Ok(()) => Ok(()),
            Err(_) => match error {
                None => Ok(()),
                Some(e) => Err(e),
            },
        };
        (inner, r)
    }
}

/// One write of a template body: text taken as it is, or text to escape.
pub enum Piece {
    Raw(String),
    Escaped(String),
}

/// The text that a piece writes.
pub open spec fn piece_text(p: Piece) -> Seq<char> {
    match p {
        Piece::Raw(t) => t@,
        Piece::Escaped(t) => escape_text(t@),
    }
}

/// The text that a sequence of pieces writes, one after the other.
pub open spec fn pieces_text(ps: Seq<Piece>) -> Seq<char>
    decreases ps.len(),
{
    if ps.len() == 0 {
        seq![]
    } else {
        pieces_text(ps.drop_last()) + piece_text(ps.last())
    }
}

/// A body made of writes listed in advance, done in order.
impl Render for Vec<Piece> {
    open spec fn markup(&self) -> Seq<char> {
        pieces_text(self@)
    }

    open spec fn completes(&self) -> bool {
        true
    }

    fn render_to<S: TextSink>(&self, sink: &mut S) -> (r: Result<(), FormatError>) {
        let mut i: usize = 0;
        while i < self.len()
            invariant
                i <= self@.len(),
                sink.wf(),
                sink.baseline() == old(sink).baseline(),
                sink.refusals() == old(sink).refusals(),
                sink.accepted() == old(sink).accepted() + encode_utf8(
                    pieces_text(self@.subrange(0, i as int)),
                ),
            decreases self@.len() - i,
        {
            let ghost before = sink.accepted();
            let res = match &self[i] {
                Piece::Raw(t) => sink.write_str(t.as_str()),
                Piece::Escaped(t) => write_escaped(sink, t.as_str()),
            };
            if res.is_err() {
                return Err(FormatError);
            }
            proof {
                let done = self@.subrange(0, i as int);
                let next = self@.subrange(0, i + 1);
                assert(next.drop_last() =~= done);
                lemma_encode_append(pieces_text(done), piece_text(self@[i as int]));
                assert(sink.accepted() =~= old(sink).accepted() + encode_utf8(pieces_text(next)));
            }
            i = i + 1;
        }
        assert(self@.subrange(0, self@.len() as int) =~= self@);
        Ok(())
    }
}

/// Two bodies in sequence: the first, then the second.
impl<A: Render, B: Render> Render for (A, B) {
    open spec fn markup(&self) -> Seq<char> {
        self.0.markup() + self.1.markup()
    }

    open spec fn completes(&self) -> bool {
        self.0.completes() && self.1.completes()
    }

    fn render_to<S: TextSink>(&self, sink: &mut S) -> (r: Result<(), FormatError>) {
        let first = self.0.render_to(sink);
        if first.is_err() {
            return Err(FormatError);
        }
        let second = self.1.render_to(sink);
        if second.is_err() {
            return Err(FormatError);
        }
        proof {
            lemma_encode_append(self.0.markup(), self.1.markup());
            assert(sink.accepted() =~= old(sink).accepted() + encode_utf8(self.markup()));
        }
        Ok(())
    }
}

/// Markup that renders two blocks of markup in sequence gives, as a string,
/// the two blocks' own strings one after the other.
pub proof fn lemma_nesting<A: Render, B: Render>(a: Markup<A>, b: Markup<B>)
    ensures
        (a, b).markup() == a.markup_text() + b.markup_text(),
        (a, b).completes() == (a.markup_completes() && b.markup_completes()),
{
}

} // verus!
