use vstd::prelude::*;

use vstd::utf8::encode_utf8;

use crate::markup::{ByteSink, FormatError, TextSink};

verus! {

/// A destination for bytes as callers outside verified code write one: a
/// file, a socket, a buffer. `write_bytes` either takes all of `bytes` or
/// reports why it did not.
pub trait Writer {
    type Error;

    fn write_bytes(&mut self, bytes: &[u8]) -> Result<(), Self::Error>;
}

/// A byte sink over a `Writer`. It keeps, as its model, the bytes that the
/// writer took and the latest error that the writer reported.
pub struct WriterSink<W: Writer> {
    inner: W,
    sent: Ghost<Seq<u8>>,
    last: Ghost<Option<W::Error>>,
    refused: Ghost<nat>,
}

impl<W: Writer> WriterSink<W> {
    pub fn new(inner: W) -> (r: WriterSink<W>)
        ensures
            r.written() == Seq::<u8>::empty(),
            r.last_failure() is None,
            r.failures() == 0,
    {
        WriterSink { inner, sent: Ghost(Seq::empty()), last: Ghost(None), refused: Ghost(0) }
    }

    /// Gives the writer back.
    pub fn into_inner(self) -> W {
        self.inner
    }
}

impl<W: Writer> ByteSink for WriterSink<W> {
    type Error = W::Error;

    closed spec fn written(&self) -> Seq<u8> {
        self.sent@
    }

    closed spec fn last_failure(&self) -> Option<W::Error> {
        self.last@
    }

    closed spec fn failures(&self) -> nat {
        self.refused@
    }

    fn write_all(&mut self, bytes: &[u8]) -> (r: Result<(), W::Error>) {
        match self.inner.write_bytes(bytes) {
            Ok(()) => {
                self.sent = Ghost(self.sent@ + bytes@);
                Ok(())
            },
            Err(e) => {
                self.last = Ghost(Some(e));
                self.refused = Ghost(self.refused@ + 1);
                Err(e)
            },
        }
    }
}

/// A destination for text as callers outside verified code write one, such
/// as a formatter. `write_text` either takes all of `s` or refuses it.
pub trait TextWriter {
    fn write_text(&mut self, s: &str) -> Result<(), FormatError>;
}

/// A text sink over a `TextWriter`. It keeps, as its model, the text that
/// the writer took, as UTF-8, and how many writes it refused.
pub struct TextWriterSink<W: TextWriter> {
    inner: W,
    taken: Ghost<Seq<u8>>,
    refused: Ghost<nat>,
}

impl<W: TextWriter> TextWriterSink<W> {
    pub fn new(inner: W) -> (r: TextWriterSink<W>)
        ensures
            r.accepted() == Seq::<u8>::empty(),
            r.refusals() == 0,
            r.wf(),
    {
        TextWriterSink { inner, taken: Ghost(Seq::empty()), refused: Ghost(0) }
    }

    /// Gives the writer back.
    pub fn into_inner(self) -> W {
        self.inner
    }
}

impl<W: TextWriter> TextSink for TextWriterSink<W> {
    closed spec fn accepted(&self) -> Seq<u8> {
        self.taken@
    }

    closed spec fn refusals(&self) -> nat {
        self.refused@
    }

    closed spec fn baseline(&self) -> nat {
        0
    }

    open spec fn wf(&self) -> bool {
        true
    }

    fn write_str(&mut self, s: &str) -> (r: Result<(), FormatError>) {
        match self.inner.write_text(s) {
            Ok(()) => {
                self.taken = Ghost(self.taken@ + encode_utf8(s@));
                Ok(())
            },
            Err(e) => {
                self.refused = Ghost(self.refused@ + 1);
                Err(e)
            },
        }
    }
}

} // verus!
