use maud::{
    escape, make_markup, write_escaped, Escaper, FormatError, Piece, SliceSource, TextWriter,
    TextWriterSink, Writer, WriterSink,
};

#[test]
fn escape_keeps_plain_text() {
    for s in ["", "hello world", "déjà vu ✓", "a=b; c/d"] {
        assert_eq!(escape(s).unwrap(), s);
    }
}

#[test]
fn escape_replaces_reserved_characters() {
    assert_eq!(escape("<flim&flam>").unwrap(), "&lt;flim&amp;flam&gt;");
    assert_eq!(escape("\"'").unwrap(), "&quot;&#39;");
    assert_eq!(escape("é<ü>").unwrap(), "é&lt;ü&gt;");
}

#[test]
fn escape_long_input_crosses_buffers() {
    let input = "<".repeat(100);
    assert_eq!(escape(&input).unwrap(), "&lt;".repeat(100));
}

fn drain_with(input: &[u8], sizes: &[usize]) -> Vec<u8> {
    let mut e = Escaper::new(SliceSource::new(input));
    e.drain(sizes).unwrap()
}

#[test]
fn chunking_is_transparent() {
    let input = "a<b>&\"c'd\" é".as_bytes();
    let whole = drain_with(input, &[1000]);
    assert_eq!(whole, "a&lt;b&gt;&amp;&quot;c&#39;d&quot; é".as_bytes());
    for sizes in [&[1usize][..], &[2], &[3], &[5, 1], &[6], &[1, 2, 3, 4, 5, 6, 7]] {
        assert_eq!(drain_with(input, sizes), whole);
    }
}

#[test]
fn read_splits_an_entity_across_calls() {
    let mut e = Escaper::new(SliceSource::new(b"\"x"));
    let mut buf = [0u8; 4];
    assert_eq!(e.read(&mut buf).unwrap(), 4);
    assert_eq!(&buf, b"&quo");
    let mut buf = [9u8; 4];
    assert_eq!(e.read(&mut buf).unwrap(), 3);
    assert_eq!(&buf, b"t;x\x09");
    assert_eq!(e.read(&mut buf).unwrap(), 0);
}

#[test]
fn read_with_empty_buffer_writes_nothing() {
    let mut e = Escaper::new(SliceSource::new(b"<"));
    let mut buf: [u8; 0] = [];
    assert_eq!(e.read(&mut buf).unwrap(), 0);
    let mut buf = [0u8; 8];
    assert_eq!(e.read(&mut buf).unwrap(), 4);
    assert_eq!(&buf[..4], b"&lt;");
}

#[test]
fn to_string_twice_is_identical() {
    let m = make_markup(vec![Piece::Raw("<p>".to_string()), Piece::Escaped("a&b".to_string())]);
    let first = m.to_string();
    let second = m.to_string();
    assert_eq!(first, second);
    assert_eq!(first, "<p>a&amp;b");
}

#[test]
fn raw_escaped_raw_writes() {
    let m = make_markup(vec![
        Piece::Raw("a".to_string()),
        Piece::Escaped("<b>".to_string()),
        Piece::Raw("c".to_string()),
    ]);
    assert_eq!(m.to_string(), "a&lt;b&gt;c");
}

#[test]
fn nested_markup_concatenates() {
    let a = make_markup(vec![Piece::Escaped("x<y".to_string())]);
    let b = make_markup(vec![Piece::Raw("<br>".to_string())]);
    let expected = format!("{}{}", a.to_string(), b.to_string());
    let outer = make_markup((a, b));
    assert_eq!(outer.to_string(), expected);
    assert_eq!(expected, "x&lt;y<br>");
}

#[test]
fn write_escaped_into_string() {
    let mut s = String::from("pre:");
    assert_eq!(write_escaped(&mut s, "'&'"), Ok(()));
    assert_eq!(s, "pre:&#39;&amp;&#39;");
}

struct Memory {
    bytes: Vec<u8>,
}

impl Writer for Memory {
    type Error = String;

    fn write_bytes(&mut self, bytes: &[u8]) -> Result<(), String> {
        self.bytes.extend_from_slice(bytes);
        Ok(())
    }
}

struct Broken {
    reason: &'static str,
    calls: usize,
}

impl Writer for Broken {
    type Error = String;

    fn write_bytes(&mut self, _bytes: &[u8]) -> Result<(), String> {
        self.calls += 1;
        Err(format!("{} ({})", self.reason, self.calls))
    }
}

#[test]
fn render_to_bytes() {
    let m = make_markup(vec![Piece::Raw("<i>".to_string()), Piece::Escaped("ü&".to_string())]);
    let (sink, r) = m.render(WriterSink::new(Memory { bytes: b"x".to_vec() }));
    assert_eq!(r, Ok(()));
    assert_eq!(sink.into_inner().bytes, "x<i>ü&amp;".as_bytes());
}

#[test]
fn render_reports_the_sink_error() {
    let m = make_markup(vec![Piece::Raw("a".to_string()), Piece::Escaped("<b>".to_string())]);
    let (sink, r) = m.render(WriterSink::new(Broken { reason: "disk full", calls: 0 }));
    assert_eq!(r, Err("disk full (1)".to_string()));
    assert_eq!(sink.into_inner().calls, 1);
}

#[test]
fn render_nested_reports_the_sink_error() {
    let inner = make_markup(vec![Piece::Raw("x".to_string())]);
    let m = make_markup((inner, make_markup(vec![Piece::Raw("y".to_string())])));
    let (_, r) = m.render(WriterSink::new(Broken { reason: "closed", calls: 0 }));
    assert_eq!(r, Err("closed (1)".to_string()));
}

#[test]
fn render_fmt_into_string() {
    let m = make_markup(vec![Piece::Escaped("1 < 2".to_string())]);
    let mut s = String::from(">");
    assert_eq!(m.render_fmt(&mut s), Ok(()));
    assert_eq!(s, ">1 &lt; 2");
}

struct Refusing {
    taken: String,
    budget: usize,
}

impl TextWriter for Refusing {
    fn write_text(&mut self, s: &str) -> Result<(), FormatError> {
        if self.budget == 0 {
            return Err(FormatError);
        }
        self.budget -= 1;
        self.taken.push_str(s);
        Ok(())
    }
}

#[test]
fn render_fmt_passes_on_a_refusal() {
    let m = make_markup(vec![
        Piece::Raw("a".to_string()),
        Piece::Escaped("<b>".to_string()),
        Piece::Raw("c".to_string()),
    ]);
    let mut sink = TextWriterSink::new(Refusing { taken: String::new(), budget: 2 });
    assert_eq!(m.render_fmt(&mut sink), Err(FormatError));
    assert_eq!(sink.into_inner().taken, "a&lt;b&gt;");
    let mut sink = TextWriterSink::new(Refusing { taken: String::new(), budget: 3 });
    assert_eq!(m.render_fmt(&mut sink), Ok(()));
    assert_eq!(sink.into_inner().taken, "a&lt;b&gt;c");
}

#[test]
fn read_with_buffer_smaller_than_pending_leaves_the_rest() {
    let mut e = Escaper::new(SliceSource::new(b"'z"));
    let mut buf = [0u8; 1];
    assert_eq!(e.read(&mut buf).unwrap(), 1);
    assert_eq!(&buf, b"&");
    let mut buf = [0u8; 2];
    assert_eq!(e.read(&mut buf).unwrap(), 2);
    assert_eq!(&buf, b"#3");
    let mut buf = [0u8; 10];
    assert_eq!(e.read(&mut buf).unwrap(), 3);
    assert_eq!(&buf[..3], b"9;z");
}
