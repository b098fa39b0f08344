use vstd::prelude::*;

use crate::cursor::SaveCursor;
use crate::error::SaveError;
use crate::save_data::{
    SaveData, le_u16, le_u32, lemma_u16_round_trip, lemma_u32_bytes_round_trip, lemma_u32_round_trip,
    read_u32, u16_le_bytes, u32_le_bytes, write_u16, write_u32,
};

verus! {

/// The character that a Windows-1252 byte stands for (the WHATWG index,
/// where the five unassigned bytes stand for the C1 control of the same value).
pub open spec fn win1252_char(b: u8) -> char {
    match b {
        0x80u8 => '\u{20AC}',
        0x82u8 => '\u{201A}',
        0x83u8 => '\u{0192}',
        0x84u8 => '\u{201E}',
        0x85u8 => '\u{2026}',
        0x86u8 => '\u{2020}',
        0x87u8 => '\u{2021}',
        0x88u8 => '\u{02C6}',
        0x89u8 => '\u{2030}',
        0x8Au8 => '\u{0160}',
        0x8Bu8 => '\u{2039}',
        0x8Cu8 => '\u{0152}',
        0x8Eu8 => '\u{017D}',
        0x91u8 => '\u{2018}',
        0x92u8 => '\u{2019}',
        0x93u8 => '\u{201C}',
        0x94u8 => '\u{201D}',
        0x95u8 => '\u{2022}',
        0x96u8 => '\u{2013}',
        0x97u8 => '\u{2014}',
        0x98u8 => '\u{02DC}',
        0x99u8 => '\u{2122}',
        0x9Au8 => '\u{0161}',
        0x9Bu8 => '\u{203A}',
        0x9Cu8 => '\u{0153}',
        0x9Eu8 => '\u{017E}',
        0x9Fu8 => '\u{0178}',
        _ => b as char,
    }
}

/// The text that Windows-1252 bytes decode to.
pub open spec fn win1252_text(b: Seq<u8>) -> Seq<char> {
    b.map_values(|x: u8| win1252_char(x))
}

/// Some Windows-1252 byte stands for `c`.
pub open spec fn win1252_has_byte(c: char) -> bool {
    exists|x: u8| #[trigger] win1252_char(x) == c
}

/// Every character of `s` has a Windows-1252 byte.
pub open spec fn win1252_representable(s: Seq<char>) -> bool {
    forall|i: int| 0 <= i < s.len() ==> win1252_has_byte(#[trigger] s[i])
}

/// The Windows-1252 bytes of representable text.
pub open spec fn win1252_bytes(s: Seq<char>) -> Seq<u8> {
    choose|b: Seq<u8>| win1252_text(b) == s
}

/// The UTF-16LE bytes of one character.
pub open spec fn utf16le_char(c: char) -> Seq<u8> {
    let v = c as u32;
    if v < 0x10000 {
        u16_le_bytes(v as u16)
    } else {
        let w = (v - 0x10000) as u32;
        u16_le_bytes((0xD800 + w / 1024) as u16) + u16_le_bytes((0xDC00 + w % 1024) as u16)
    }
}

/// The UTF-16LE bytes of a text.
pub open spec fn utf16le(s: Seq<char>) -> Seq<u8>
    decreases s.len(),
{
    if s.len() == 0 {
        Seq::empty()
    } else {
        utf16le(s.drop_last()) + utf16le_char(s.last())
    }
}

/// The text whose UTF-16LE bytes are `b`, when there is one.
pub open spec fn utf16le_text(b: Seq<u8>) -> Seq<char> {
    choose|t: Seq<char>| utf16le(t) == b
}

/// Relies on encoding_rs's UTF_16LE `decode_without_bom_handling`: when it
/// reports no error the input was well-formed UTF-16LE and the result is its
/// text; it reports an error exactly when no text has these bytes.
#[verifier::external_body]
fn decode_utf16le(b: &[u8]) -> (r: Option<String>)
    ensures
        match r {
            Some(s) => utf16le(s@) == b@,
            None => forall|t: Seq<char>| utf16le(t) != b@,
        },
{
    let (text, had_errors) = encoding_rs::UTF_16LE.decode_without_bom_handling(b);
    if had_errors {
        None
    } else {
        Some(text.into_owned())
    }
}

/// Relies on encoding_rs's WINDOWS_1252 `decode_without_bom_handling`: each
/// byte becomes one character of the index, and no byte is unmappable.
#[verifier::external_body]
fn decode_windows_1252(b: &[u8]) -> (r: Option<String>)
    ensures
        match r {
            Some(s) => s@ == win1252_text(b@),
            None => false,
        },
{
    let (text, had_errors) = encoding_rs::WINDOWS_1252.decode_without_bom_handling(b);
    if had_errors {
        None
    } else {
        Some(text.into_owned())
    }
}

/// Relies on encoding_rs's WINDOWS_1252 `encode`: it reports unmappable
/// characters exactly when some character has no byte, and otherwise gives
/// one byte per character that decodes back to it.
#[verifier::external_body]
fn encode_windows_1252(s: &str) -> (r: Option<Vec<u8>>)
    ensures
        match r {
            Some(b) => win1252_text(b@) == s@,
            None => !win1252_representable(s@),
        },
{
    let (bytes, _, had_errors) = encoding_rs::WINDOWS_1252.encode(s);
    if had_errors {
        None
    } else {
        Some(bytes.into_owned())
    }
}

/// Distinct bytes stand for distinct characters.
pub proof fn lemma_win1252_injective(x: u8, y: u8)
    requires
        win1252_char(x) == win1252_char(y),
    ensures
        x == y,
{
    assert(win1252_char(x) as u32 == win1252_char(y) as u32);
}

/// Text decoded from Windows-1252 is representable, and its bytes are the input.
pub proof fn lemma_win1252_round_trip(b: Seq<u8>)
    ensures
        win1252_representable(win1252_text(b)),
        win1252_bytes(win1252_text(b)) == b,
        win1252_text(b).len() == b.len(),
{
    let s = win1252_text(b);
    assert forall|i: int| 0 <= i < s.len() implies win1252_has_byte(#[trigger] s[i]) by {
        assert(win1252_char(b[i]) == s[i]);
    }
    let c = win1252_bytes(s);
    assert(win1252_text(c) == s);
    lemma_win1252_unique(c, b);
}

/// Two byte strings with the same Windows-1252 text are equal.
pub proof fn lemma_win1252_unique(c: Seq<u8>, b: Seq<u8>)
    requires
        win1252_text(c) == win1252_text(b),
    ensures
        c == b,
{
    assert(c.len() == win1252_text(c).len());
    assert forall|i: int| 0 <= i < c.len() implies c[i] == b[i] by {
        assert(win1252_text(c)[i] == win1252_char(c[i]));
        assert(win1252_text(b)[i] == win1252_char(b[i]));
        lemma_win1252_injective(c[i], b[i]);
    }
    assert(c =~= b);
}

/// The shape of one character's UTF-16LE bytes: one unit outside the low
/// surrogates, or a high and a low surrogate.
pub proof fn lemma_utf16le_char(c: char)
    ensures
        utf16le_char(c).len() == 2 || utf16le_char(c).len() == 4,
        utf16le_char(c).len() == 2 ==> le_u16(utf16le_char(c)) as u32 == c as u32 && !(0xDC00
            <= le_u16(utf16le_char(c)) <= 0xDFFF),
        utf16le_char(c).len() == 4 ==> 0xDC00 <= le_u16(utf16le_char(c).skip(2)) <= 0xDFFF && c as u32
            == 0x10000 + (le_u16(utf16le_char(c)) - 0xD800) * 1024 + (le_u16(utf16le_char(c).skip(2))
            - 0xDC00),
{
    let v = c as u32;
    if v < 0x10000 {
        lemma_u16_round_trip(v as u16);
    } else {
        let w = (v - 0x10000) as u32;
        let hi = (0xD800 + w / 1024) as u16;
        let lo = (0xDC00 + w % 1024) as u16;
        lemma_u16_round_trip(hi);
        lemma_u16_round_trip(lo);
        let bs = utf16le_char(c);
        assert(bs.take(2) =~= u16_le_bytes(hi));
        assert(bs.skip(2) =~= u16_le_bytes(lo));
        assert(le_u16(bs) == le_u16(bs.take(2)));
        assert(w == (w / 1024) * 1024 + w % 1024);
    }
}

/// Distinct characters have distinct UTF-16LE bytes.
pub proof fn lemma_utf16le_char_injective(c1: char, c2: char)
    requires
        utf16le_char(c1) == utf16le_char(c2),
    ensures
        c1 == c2,
{
    lemma_utf16le_char(c1);
    lemma_utf16le_char(c2);
    assert(c1 as u32 == c2 as u32);
}

/// Each character takes two or four bytes.
pub proof fn lemma_utf16le_len(s: Seq<char>)
    ensures
        2 * s.len() <= utf16le(s).len() <= 4 * s.len(),
        utf16le(s).len() % 2 == 0,
    decreases s.len(),
{
    if s.len() > 0 {
        lemma_utf16le_len(s.drop_last());
        lemma_utf16le_char(s.last());
    }
}

/// The unit at the end of a byte string.
pub open spec fn last_unit(b: Seq<u8>) -> u16 {
    le_u16(b.subrange(b.len() - 2, b.len() as int))
}

proof fn lemma_last_unit(p: Seq<u8>, c: char)
    ensures
        (0xDC00 <= last_unit(p + utf16le_char(c)) <= 0xDFFF) <==> utf16le_char(c).len() == 4,
{
    lemma_utf16le_char(c);
    let a = utf16le_char(c);
    let b = p + a;
    if a.len() == 2 {
        assert(b.subrange(b.len() - 2, b.len() as int) =~= a);
    } else {
        assert(b.subrange(b.len() - 2, b.len() as int) =~= a.skip(2));
        assert(le_u16(a.skip(2)) == le_u16(a.skip(2).take(2)));
    }
}

/// Distinct texts have distinct UTF-16LE bytes.
pub proof fn lemma_utf16le_injective(t1: Seq<char>, t2: Seq<char>)
    requires
        utf16le(t1) == utf16le(t2),
    ensures
        t1 == t2,
    decreases t1.len(),
{
    lemma_utf16le_len(t1);
    lemma_utf16le_len(t2);
    if t1.len() == 0 {
        assert(t2.len() == 0);
        assert(t1 =~= t2);
    } else {
        assert(t2.len() > 0);
        let head1 = utf16le(t1.drop_last());
        let head2 = utf16le(t2.drop_last());
        let a1 = utf16le_char(t1.last());
        let a2 = utf16le_char(t2.last());
        let b = utf16le(t1);
        assert(b == head1 + a1);
        assert(b == head2 + a2);
        lemma_last_unit(head1, t1.last());
        lemma_last_unit(head2, t2.last());
        lemma_utf16le_char(t1.last());
        lemma_utf16le_char(t2.last());
        assert(a1.len() == a2.len());
        assert(a1 =~= b.skip(b.len() - a1.len()));
        assert(a2 =~= b.skip(b.len() - a2.len()));
        lemma_utf16le_char_injective(t1.last(), t2.last());
        assert(head1 =~= b.take(b.len() - a1.len()));
        assert(head2 =~= b.take(b.len() - a2.len()));
        lemma_utf16le_injective(t1.drop_last(), t2.drop_last());
        assert(t1 =~= t1.drop_last().push(t1.last()));
        assert(t2 =~= t2.drop_last().push(t2.last()));
    }
}

/// Appends the UTF-16LE bytes of `s`.
fn write_utf16le(s: &str, out: &mut Vec<u8>)
    ensures
        final(out)@ == old(out)@ + utf16le(s@),
{
    let n = s.unicode_len();
    let mut i: usize = 0;
    while i < n
        invariant
            n == s@.len(),
            i <= n,
            out@ == old(out)@ + utf16le(s@.take(i as int)),
        decreases n - i,
    {
        let c = s.get_char(i);
        let v = c as u32;
        if v < 0x10000 {
            write_u16(v as u16, out);
        } else {
            let w = v - 0x10000;
            write_u16((0xD800 + w / 1024) as u16, out);
            write_u16((0xDC00 + w % 1024) as u16, out);
        }
        assert(s@.take(i + 1).drop_last() =~= s@.take(i as int));
        assert(out@ =~= old(out)@ + utf16le(s@.take(i + 1)));
        i = i + 1;
    }
    assert(s@.take(n as int) =~= s@);
}

/// Representable text has Windows-1252 bytes, one per character.
pub proof fn lemma_win1252_bytes(s: Seq<char>)
    requires
        win1252_representable(s),
    ensures
        win1252_text(win1252_bytes(s)) == s,
        win1252_bytes(s).len() == s.len(),
{
    let b = Seq::new(s.len(), |i: int| choose|x: u8| win1252_char(x) == s[i]);
    assert forall|i: int| 0 <= i < s.len() implies win1252_char(b[i]) == s[i] by {
        assert(win1252_has_byte(s[i]));
    }
    assert(win1252_text(b) =~= s);
    assert(win1252_text(win1252_bytes(s)) == s);
    assert(win1252_text(win1252_bytes(s)).len() == win1252_bytes(s).len());
}

pub proof fn lemma_i32_u32(i: i32)
    ensures
        (i as u32) as i32 == i,
{
    assert((i as u32) as i32 == i) by (bit_vector);
}

pub proof fn lemma_u32_i32(x: u32)
    ensures
        (x as i32) as u32 == x,
{
    assert((x as i32) as u32 == x) by (bit_vector);
}

/// A string of a save file: its text, and whether it is stored as UTF-16LE
/// (a negative length prefix) or as Windows-1252 (a positive one).
pub struct TextModel {
    pub text: Seq<char>,
    pub unicode: bool,
}

/// A decoded string. It keeps the encoding that it was read in, so that an
/// unedited string is written back byte for byte.
pub struct SaveString {
    text: String,
    unicode: bool,
}

/// The largest number of bytes that a UTF-16LE string can take.
pub open spec fn max_utf16_bytes() -> nat {
    0x1_0000_0000
}

/// The largest number of bytes that a Windows-1252 string can take.
pub open spec fn max_ansi_bytes() -> nat {
    0x7FFF_FFFF
}

/// The strings that can be written: empty text is never marked UTF-16, text
/// marked Windows-1252 has a byte for each character, and the length fits the
/// prefix.
pub open spec fn text_well_formed(m: TextModel) -> bool {
    &&& m.text.len() == 0 ==> !m.unicode
    &&& m.unicode ==> utf16le(m.text).len() <= max_utf16_bytes()
    &&& !m.unicode ==> win1252_representable(m.text) && m.text.len() <= max_ansi_bytes()
}

/// The encoding that newly entered text gets: Windows-1252 where every
/// character has a byte, UTF-16LE otherwise.
pub open spec fn text_policy(t: Seq<char>) -> TextModel {
    TextModel { text: t, unicode: t.len() > 0 && !win1252_representable(t) }
}

/// The decoder of strings: a signed 4-byte length; zero is the empty string,
/// `-n` is `2n` bytes of UTF-16LE, `n` is `n` bytes of Windows-1252.
pub open spec fn parse_text(b: Seq<u8>) -> Result<(TextModel, nat), SaveError> {
    if b.len() < 4 {
        Err(SaveError::UnexpectedEndOfFile)
    } else {
        let len = (le_u32(b) as i32) as int;
        if len == 0 {
            Ok((TextModel { text: Seq::empty(), unicode: false }, 4))
        } else if len < 0 {
            let n = -2 * len;
            if b.len() < 4 + n {
                Err(SaveError::UnexpectedEndOfFile)
            } else {
                let body = b.subrange(4, 4 + n);
                if exists|t: Seq<char>| utf16le(t) == body {
                    Ok((TextModel { text: utf16le_text(body), unicode: true }, (4 + n) as nat))
                } else {
                    Err(SaveError::StringEncodingError)
                }
            }
        } else {
            if b.len() < 4 + len {
                Err(SaveError::UnexpectedEndOfFile)
            } else {
                Ok(
                    (
                        TextModel { text: win1252_text(b.subrange(4, 4 + len)), unicode: false },
                        (4 + len) as nat,
                    ),
                )
            }
        }
    }
}

/// How many bytes a string takes: the 4-byte prefix and the body that it
/// announces, whether or not that body turns out to be valid text.
pub open spec fn text_extent(b: Seq<u8>) -> int {
    let len = (le_u32(b) as i32) as int;
    if len < 0 {
        4 - 2 * len
    } else {
        4 + len
    }
}

/// The bytes of a string.
pub open spec fn text_wire(m: TextModel) -> Seq<u8> {
    if m.text.len() == 0 {
        u32_le_bytes(0)
    } else if m.unicode {
        u32_le_bytes((-(utf16le(m.text).len() / 2)) as i32 as u32) + utf16le(m.text)
    } else {
        u32_le_bytes(m.text.len() as i32 as u32) + win1252_bytes(m.text)
    }
}

impl SaveString {
    pub closed spec fn view_text(&self) -> Seq<char> {
        self.text@
    }

    pub closed spec fn view_unicode(&self) -> bool {
        self.unicode
    }

    /// A string for newly entered text, in the narrowest encoding that holds it.
    pub fn new(text: String) -> (r: SaveString)
        requires
            text@.len() < 0x4000_0000,
        ensures
            r.model() == text_policy(text@),
            text_well_formed(r.model()),
    {
        proof {
            lemma_utf16le_len(text@);
        }
        if text.as_str().unicode_len() == 0 {
            return SaveString { text, unicode: false };
        }
        let unicode = match encode_windows_1252(text.as_str()) {
            Some(_) => false,
            None => true,
        };
        SaveString { text, unicode }
    }

    /// The empty string.
    pub fn empty() -> (r: SaveString)
        ensures
            r.model() == (TextModel { text: Seq::empty(), unicode: false }),
    {
        SaveString { text: String::new(), unicode: false }
    }

    pub fn as_str(&self) -> (r: &str)
        ensures
            r@ == self.model().text,
    {
        self.text.as_str()
    }

    /// Whether the string is stored as UTF-16LE.
    pub fn is_unicode(&self) -> (r: bool)
        ensures
            r == self.model().unicode,
    {
        self.unicode
    }
}

/// Decodes a string whose length prefix selects its encoding by its sign.
pub fn deserialize_from_string(input: &mut SaveCursor) -> (r: Result<SaveString, SaveError>)
    requires
        old(input).wf(),
    ensures
        final(input).wf(),
        final(input).data() == old(input).data(),
        old(input).pos() <= final(input).pos(),
        final(input).rest() == old(input).rest().skip(final(input).pos() - old(input).pos()),
        match r {
            Ok(v) => parse_text(old(input).rest()) == Ok::<(TextModel, nat), SaveError>(
                (v.model(), (final(input).pos() - old(input).pos()) as nat),
            ),
            Err(e) => parse_text(old(input).rest()) == Err::<(TextModel, nat), SaveError>(e),
        },
        r matches Err(SaveError::StringEncodingError) ==> final(input).pos() == old(input).pos()
            + text_extent(old(input).rest()),
{
    let ghost b = input.rest();
    proof {
        input.lemma_wf_bounds();
    }
    let word = read_u32(input)?;
    let len = word as i32;
    if len == 0 {
        let r = SaveString { text: String::new(), unicode: false };
        assert(r.model().text =~= Seq::<char>::empty());
        return Ok(r);
    }
    proof {
        input.lemma_wf_bounds();
        assert(input.rest() == b.skip(4));
    }
    if len < 0 {
        let n: u64 = (0i64 - len as i64) as u64 * 2;
        if n > input.remaining() as u64 {
            return Err(SaveError::UnexpectedEndOfFile);
        }
        let bytes = input.read(n as usize)?;
        assert(bytes@ =~= b.subrange(4, 4 + n));
        match decode_utf16le(bytes.as_slice()) {
            Some(text) => {
                proof {
                    lemma_utf16le_injective(text@, utf16le_text(bytes@));
                }
                Ok(SaveString { text, unicode: true })
            },
            None => Err(SaveError::StringEncodingError),
        }
    } else {
        let n = len as u32 as usize;
        let bytes = input.read(n)?;
        assert(bytes@ =~= b.subrange(4, 4 + n));
        match decode_windows_1252(bytes.as_slice()) {
            Some(text) => Ok(SaveString { text, unicode: false }),
            None => Err(SaveError::StringEncodingError),
        }
    }
}

impl SaveData for SaveString {
    type Model = TextModel;

    closed spec fn model(&self) -> TextModel {
        TextModel { text: self.text@, unicode: self.unicode }
    }

    open spec fn parse(b: Seq<u8>) -> Result<(TextModel, nat), SaveError> {
        parse_text(b)
    }

    open spec fn wire(m: TextModel) -> Seq<u8> {
        text_wire(m)
    }

    open spec fn well_formed(m: TextModel) -> bool {
        text_well_formed(m)
    }

    open spec fn exact() -> bool {
        true
    }

    fn deserialize(input: &mut SaveCursor) -> (r: Result<SaveString, SaveError>) {
        deserialize_from_string(input)
    }

    fn serialize(&self, out: &mut Vec<u8>) {
        let s = self.text.as_str();
        if s.unicode_len() == 0 {
            write_u32(0, out);
        } else if self.unicode {
            let mut body: Vec<u8> = Vec::new();
            write_utf16le(s, &mut body);
            proof {
                lemma_utf16le_len(s@);
            }
            let units = (body.len() / 2) as u64;
            let prefix = (0i64 - units as i64) as i32;
            write_u32(prefix as u32, out);
            out.append(&mut body);
        } else {
            match encode_windows_1252(s) {
                Some(mut bytes) => {
                    proof {
                        lemma_win1252_bytes(s@);
                        lemma_win1252_unique(bytes@, win1252_bytes(s@));
                    }
                    write_u32(bytes.len() as u32, out);
                    out.append(&mut bytes);
                },
                None => {},
            }
        }
    }

    proof fn lemma_parse_ok(b: Seq<u8>) {
        if b.len() >= 4 {
            let len = (le_u32(b) as i32) as int;
            if len < 0 {
                let n = -2 * len;
                if b.len() >= 4 + n {
                    let body = b.subrange(4, 4 + n);
                    if exists|t: Seq<char>| utf16le(t) == body {
                        let t = utf16le_text(body);
                        assert(utf16le(t) == body);
                        if t.len() == 0 {
                            assert(utf16le(t) =~= Seq::<u8>::empty());
                        }
                    }
                }
            } else if len > 0 && b.len() >= 4 + len {
                lemma_win1252_round_trip(b.subrange(4, 4 + len));
            }
        }
    }

    proof fn lemma_parse_wire(m: TextModel, tail: Seq<u8>) {
        let w = text_wire(m);
        let b = w + tail;
        if m.text.len() == 0 {
            lemma_u32_round_trip(0);
            assert(b.take(4) =~= u32_le_bytes(0));
            assert(le_u32(b) == le_u32(b.take(4)));
            assert(m.text =~= Seq::<char>::empty());
        } else if m.unicode {
            let body = utf16le(m.text);
            lemma_utf16le_len(m.text);
            let units = body.len() / 2;
            let x = (-units) as i32;
            lemma_u32_round_trip(x as u32);
            lemma_i32_u32(x);
            assert(b.take(4) =~= u32_le_bytes(x as u32));
            assert(le_u32(b) == le_u32(b.take(4)));
            assert(b.subrange(4, 4 + body.len() as int) =~= body);
            assert(utf16le(m.text) == body);
            let t = utf16le_text(body);
            lemma_utf16le_injective(t, m.text);
        } else {
            lemma_win1252_bytes(m.text);
            let body = win1252_bytes(m.text);
            let x = m.text.len() as i32;
            lemma_u32_round_trip(x as u32);
            lemma_i32_u32(x);
            assert(b.take(4) =~= u32_le_bytes(x as u32));
            assert(le_u32(b) == le_u32(b.take(4)));
            assert(b.subrange(4, 4 + body.len() as int) =~= body);
        }
    }

    proof fn lemma_wire_of_parse(b: Seq<u8>) {
        let word = le_u32(b);
        lemma_u32_i32(word);
        lemma_u32_bytes_round_trip(b.take(4));
        assert(le_u32(b) == le_u32(b.take(4)));
        let len = (word as i32) as int;
        if len < 0 {
            let n = -2 * len;
            let body = b.subrange(4, 4 + n);
            let t = utf16le_text(body);
            assert(utf16le(t) == body);
            if t.len() == 0 {
                assert(utf16le(t) =~= Seq::<u8>::empty());
            }
            assert(b.take(4 + n) =~= b.take(4) + body);
        } else if len > 0 {
            let body = b.subrange(4, 4 + len);
            lemma_win1252_round_trip(body);
            assert(b.take(4 + len) =~= b.take(4) + body);
        }
    }
}

} // verus!
