use vstd::prelude::*;
use vstd::utf8::*;

use crate::escaping::{entity_bytes, escape_bytes};

verus! {

/// The replacement of one character: an HTML entity for `&`, `<`, `>`, `"`
/// and `'`, the character itself otherwise.
pub open spec fn entity_text(c: char) -> Seq<char> {
    if c == '&' {
        seq!['&', 'a', 'm', 'p', ';']
    } else if c == '<' {
        seq!['&', 'l', 't', ';']
    } else if c == '>' {
        seq!['&', 'g', 't', ';']
    } else if c == '"' {
        seq!['&', 'q', 'u', 'o', 't', ';']
    } else if c == '\'' {
        seq!['&', '#', '3', '9', ';']
    } else {
        seq![c]
    }
}

/// Whether `c` is one of the characters that escaping replaces.
pub open spec fn is_reserved(c: char) -> bool {
    c == '&' || c == '<' || c == '>' || c == '"' || c == '\''
}

/// The escaped form of a text: each character replaced by its entity.
pub open spec fn escape_text(s: Seq<char>) -> Seq<char>
    decreases s.len(),
{
    if s.len() == 0 {
        seq![]
    } else {
        entity_text(s[0]) + escape_text(s.drop_first())
    }
}

proof fn lemma_escape_bytes_append(a: Seq<u8>, b: Seq<u8>)
    ensures
        escape_bytes(a + b) == escape_bytes(a) + escape_bytes(b),
    decreases a.len(),
{
    if a.len() == 0 {
        assert(a + b =~= b);
        assert(escape_bytes(a) + escape_bytes(b) =~= escape_bytes(b));
    } else {
        assert((a + b).drop_first() =~= a.drop_first() + b);
        lemma_escape_bytes_append(a.drop_first(), b);
        assert((a + b)[0] == a[0]);
        assert(escape_bytes(a + b) =~= escape_bytes(a) + escape_bytes(b));
    }
}

pub proof fn lemma_encode_append(a: Seq<char>, b: Seq<char>)
    ensures
        encode_utf8(a + b) == encode_utf8(a) + encode_utf8(b),
    decreases a.len(),
{
    if a.len() == 0 {
        assert(a + b =~= b);
        assert(encode_utf8(a) + encode_utf8(b) =~= encode_utf8(b));
    } else {
        assert((a + b).drop_first() =~= a.drop_first() + b);
        lemma_encode_append(a.drop_first(), b);
        assert((a + b)[0] == a[0]);
        assert(encode_utf8(a + b) =~= encode_utf8(a) + encode_utf8(b));
    }
}

/// Bytes of multi-byte encodings are never reserved, so escaping keeps them.
proof fn lemma_escape_high_bytes(s: Seq<u8>)
    requires
        forall|i: int| 0 <= i < s.len() ==> s[i] >= 0x80,
    ensures
        escape_bytes(s) == s,
    decreases s.len(),
{
    if s.len() > 0 {
        lemma_escape_high_bytes(s.drop_first());
        assert(escape_bytes(s) =~= s);
    }
}

proof fn lemma_encode_ascii(t: Seq<char>)
    requires
        forall|i: int| 0 <= i < t.len() ==> (t[i] as u32) <= 0x7f,
    ensures
        encode_utf8(t) == Seq::new(t.len(), |i: int| t[i] as u32 as u8),
    decreases t.len(),
{
    if t.len() > 0 {
        let v = t[0] as u32;
        assert((v & 0x7f) as u8 == v as u8) by (bit_vector)
            requires
                v <= 0x7f,
        ;
        lemma_encode_ascii(t.drop_first());
        assert(encode_utf8(t) =~= Seq::new(t.len(), |i: int| t[i] as u32 as u8));
    }
}

proof fn lemma_escape_char(c: char)
    ensures
        escape_bytes(encode_scalar(c as u32)) == encode_utf8(entity_text(c)),
{
    let v = c as u32;
    char_is_scalar(c);
    if v <= 0x7f {
        assert((v & 0x7f) as u8 == v as u8) by (bit_vector)
            requires
                v <= 0x7f,
        ;
        let b = v as u8;
        assert(encode_scalar(v) == seq![b]);
        assert(escape_bytes(seq![b]) =~= entity_bytes(b)) by {
            assert(seq![b].drop_first() =~= Seq::<u8>::empty());
            assert(seq![b][0] == b);
            assert(escape_bytes(seq![b].drop_first()) =~= Seq::<u8>::empty());
        }
        lemma_encode_ascii(entity_text(c));
        assert(encode_utf8(entity_text(c)) =~= entity_bytes(b));
    } else {
        assert(forall|x: u8| #![auto] (0x80u8 | x) >= 0x80u8) by (bit_vector);
        assert(forall|x: u8| #![auto] (0xC0u8 | x) >= 0x80u8) by (bit_vector);
        assert(forall|x: u8| #![auto] (0xE0u8 | x) >= 0x80u8) by (bit_vector);
        assert(forall|x: u8| #![auto] (0xF0u8 | x) >= 0x80u8) by (bit_vector);
        lemma_escape_high_bytes(encode_scalar(v));
        assert(entity_text(c) == seq![c]);
        assert(encode_utf8(seq![c]) =~= encode_scalar(v)) by {
            assert(seq![c].drop_first() =~= Seq::<char>::empty());
            assert(seq![c][0] == c);
            assert(encode_utf8(seq![c].drop_first()) =~= Seq::<u8>::empty());
        }
    }
}

/// Escaping commutes with UTF-8 encoding: escaping the bytes of a text gives
/// the bytes of the escaped text.
pub proof fn lemma_escape_encode(s: Seq<char>)
    ensures
        escape_bytes(encode_utf8(s)) == encode_utf8(escape_text(s)),
    decreases s.len(),
{
    if s.len() > 0 {
        lemma_escape_bytes_append(encode_scalar(s[0] as u32), encode_utf8(s.drop_first()));
        lemma_escape_char(s[0]);
        lemma_escape_encode(s.drop_first());
        lemma_encode_append(entity_text(s[0]), escape_text(s.drop_first()));
    }
}

/// Text without reserved characters is its own escaped form.
pub proof fn lemma_escape_plain(s: Seq<char>)
    requires
        forall|i: int| 0 <= i < s.len() ==> !is_reserved(#[trigger] s[i]),
    ensures
        escape_text(s) == s,
    decreases s.len(),
{
    if s.len() > 0 {
        assert(!is_reserved(s[0]));
        lemma_escape_plain(s.drop_first());
        assert(escape_text(s) =~= s);
    }
}

} // verus!
