//! Paths into a document, and how a path is written out.
//!
//! A path is written as its steps one after the other with nothing between
//! them: a key as a quoted JSON string in square brackets, an index as its
//! decimal digits in square brackets. The path to the root is the empty text.

use vstd::prelude::*;

verus! {

/// One step from a node to one of its children, as a mathematical value.
pub ghost enum Step {
    /// Into the entry of an object that stands under this key.
    Key(Seq<char>),
    /// Into the item of an array at this position.
    Index(nat),
}

/// One step from a node to one of its children. A key is borrowed from the
/// document.
#[derive(Debug)]
pub enum JsonPath<'a> {
    Key(&'a String),
    Index(usize),
}

impl<'a> View for JsonPath<'a> {
    type V = Step;

    open spec fn view(&self) -> Step {
        match *self {
            JsonPath::Key(key) => Step::Key(key@),
            JsonPath::Index(index) => Step::Index(index as nat),
        }
    }
}

/// The steps that a buffer of path elements stands for.
pub open spec fn steps_of<'a>(path: Seq<JsonPath<'a>>) -> Seq<Step> {
    Seq::new(path.len(), |i: int| path[i]@)
}

/// The character for a digit below ten.
pub open spec fn digit(d: nat) -> char {
    (d + 48) as char
}

/// The decimal digits of `n`, most significant first, with no leading zero.
pub open spec fn decimal(n: nat) -> Seq<char>
    decreases n,
{
    if n < 10 {
        seq![digit(n)]
    } else {
        decimal(n / 10).push(digit(n % 10))
    }
}

/// The character for a hexadecimal digit, in lower case.
pub open spec fn hex_digit(d: nat) -> char {
    if d < 10 {
        (d + 48) as char
    } else {
        (d + 87) as char
    }
}

/// What stands for one character inside a quoted JSON string: the quotation
/// mark and the backslash behind a backslash, the five control characters
/// that have a short form in that form, any other character below U+0020 as
/// `\u00` and two hexadecimal digits, and every other character as itself.
pub open spec fn escaped(c: char) -> Seq<char> {
    if c == '"' {
        seq!['\\', '"']
    } else if c == '\\' {
        seq!['\\', '\\']
    } else if c == '\u{8}' {
        seq!['\\', 'b']
    } else if c == '\t' {
        seq!['\\', 't']
    } else if c == '\n' {
        seq!['\\', 'n']
    } else if c == '\u{c}' {
        seq!['\\', 'f']
    } else if c == '\r' {
        seq!['\\', 'r']
    } else if (c as nat) < 32 {
        seq!['\\', 'u', '0', '0', hex_digit(c as nat / 16), hex_digit(c as nat % 16)]
    } else {
        seq![c]
    }
}

/// The characters of `s`, each as [`escaped`] writes it.
pub open spec fn escape(s: Seq<char>) -> Seq<char>
    decreases s.len(),
{
    if s.len() == 0 {
        Seq::empty()
    } else {
        escaped(s.first()) + escape(s.drop_first())
    }
}

/// The JSON string literal for `s`: its escaped characters between two
/// quotation marks.
pub open spec fn quoted(s: Seq<char>) -> Seq<char> {
    seq!['"'] + escape(s) + seq!['"']
}

/// How one step is written.
pub open spec fn render_step(step: Step) -> Seq<char> {
    match step {
        Step::Key(key) => seq!['['] + quoted(key) + seq![']'],
        Step::Index(index) => seq!['['] + decimal(index) + seq![']'],
    }
}

/// How a path is written: its steps in order, with nothing between them.
pub open spec fn render_path(path: Seq<Step>) -> Seq<char>
    decreases path.len(),
{
    if path.len() == 0 {
        Seq::empty()
    } else {
        render_path(path.drop_last()) + render_step(path.last())
    }
}

/// The value of a hexadecimal digit, in either case.
pub open spec fn hex_value(c: char) -> Option<nat> {
    let n = c as nat;
    if 48 <= n <= 57 {
        Some((n - 48) as nat)
    } else if 97 <= n <= 102 {
        Some((n - 87) as nat)
    } else if 65 <= n <= 70 {
        Some((n - 55) as nat)
    } else {
        None
    }
}

/// The character that a backslash and `c` stand for in a JSON string, where
/// the two stand for one.
pub open spec fn short_escape(c: char) -> Option<char> {
    if c == '"' {
        Some('"')
    } else if c == '\\' {
        Some('\\')
    } else if c == '/' {
        Some('/')
    } else if c == 'b' {
        Some('\u{8}')
    } else if c == 't' {
        Some('\t')
    } else if c == 'n' {
        Some('\n')
    } else if c == 'f' {
        Some('\u{c}')
    } else if c == 'r' {
        Some('\r')
    } else {
        None
    }
}

/// The number that the four hexadecimal digits after `\u` at the start of `s`
/// write, if `s` starts so.
pub open spec fn unicode_escape(s: Seq<char>) -> Option<nat> {
    if s.len() >= 6 && s[0] == '\\' && s[1] == 'u' && hex_value(s[2]) is Some && hex_value(
        s[3],
    ) is Some && hex_value(s[4]) is Some && hex_value(s[5]) is Some {
        Some(
            ((hex_value(s[2])->Some_0 * 16 + hex_value(s[3])->Some_0) * 16 + hex_value(
                s[4],
            )->Some_0) * 16 + hex_value(s[5])->Some_0,
        )
    } else {
        None
    }
}

/// Whether `code` is one half of a surrogate pair, which is no character.
pub open spec fn is_surrogate(code: nat) -> bool {
    0xD800 <= code <= 0xDFFF
}

/// `c` in front of what `rest` holds, if it holds anything.
pub open spec fn preceded(c: char, rest: Option<Seq<char>>) -> Option<Seq<char>> {
    match rest {
        Some(text) => Some(seq![c] + text),
        None => None,
    }
}

/// The text that the inside of a JSON string literal stands for, read as the
/// JSON grammar has it: a backslash starts an escape, a bare quotation mark
/// or character below U+0020 is an error. Of the `\u` escapes only those that
/// write a character by themselves are read, not the halves of a surrogate
/// pair.
pub open spec fn unescape(s: Seq<char>) -> Option<Seq<char>>
    decreases s.len(),
{
    if s.len() == 0 {
        Some(Seq::empty())
    } else if s[0] == '\\' {
        if s.len() >= 2 && short_escape(s[1]) is Some {
            preceded(short_escape(s[1])->Some_0, unescape(s.skip(2)))
        } else if unicode_escape(s) is Some && !is_surrogate(unicode_escape(s)->Some_0) {
            preceded(unicode_escape(s)->Some_0 as char, unescape(s.skip(6)))
        } else {
            None
        }
    } else if s[0] == '"' || (s[0] as nat) < 32 {
        None
    } else {
        preceded(s[0], unescape(s.skip(1)))
    }
}

/// The text that a JSON string literal stands for: what stands between its
/// two quotation marks, unescaped.
pub open spec fn read_literal(literal: Seq<char>) -> Option<Seq<char>> {
    if literal.len() >= 2 && literal.first() == '"' && literal.last() == '"' {
        unescape(literal.subrange(1, literal.len() - 1))
    } else {
        None
    }
}

/// Reading one escaped character gives the character back.
proof fn lemma_unescape_one(c: char, rest: Seq<char>)
    ensures
        unescape(escaped(c) + rest) == preceded(c, unescape(rest)),
{
    let s = escaped(c) + rest;
    let n = c as nat;
    if c == '"' || c == '\\' || c == '\u{8}' || c == '\t' || c == '\n' || c == '\u{c}' || c
        == '\r' {
        assert(s.skip(2) =~= rest);
    } else if n < 32 {
        assert(s.skip(6) =~= rest);
    } else {
        assert(s.skip(1) =~= rest);
    }
}

/// Reading escaped text gives the text back.
proof fn lemma_unescape_escape(s: Seq<char>)
    ensures
        unescape(escape(s)) == Some(s),
    decreases s.len(),
{
    if s.len() > 0 {
        lemma_unescape_escape(s.drop_first());
        lemma_unescape_one(s.first(), escape(s.drop_first()));
    }
}

/// A key is written as a JSON string literal between square brackets, and
/// reading that literal gives the key back, whatever its characters are.
pub proof fn lemma_key_reads_back(key: Seq<char>)
    ensures
        render_step(Step::Key(key)) == seq!['['] + quoted(key) + seq![']'],
        read_literal(quoted(key)) == Some(key),
{
    lemma_unescape_escape(key);
    let literal = quoted(key);
    assert(literal.subrange(1, literal.len() - 1) =~= escape(key));
}

/// The text of one decimal digit.
fn digit_text(d: usize) -> (text: &'static str)
    requires
        d < 10,
    ensures
        text@ == seq![digit(d as nat)],
{
    proof {
        reveal_strlit("0");
        reveal_strlit("1");
        reveal_strlit("2");
        reveal_strlit("3");
        reveal_strlit("4");
        reveal_strlit("5");
        reveal_strlit("6");
        reveal_strlit("7");
        reveal_strlit("8");
        reveal_strlit("9");
    }
    let text = match d {
        0 => "0",
        1 => "1",
        2 => "2",
        3 => "3",
        4 => "4",
        5 => "5",
        6 => "6",
        7 => "7",
        8 => "8",
        _ => "9",
    };
    text
}

/// Appends the decimal digits of `n` to `out`.
fn push_decimal(out: &mut String, n: usize)
    ensures
        final(out)@ == old(out)@ + decimal(n as nat),
    decreases n,
{
    if n >= 10 {
        push_decimal(out, n / 10);
    }
    out.append(digit_text(n % 10));
}

/// Calls `simd_json::to_string` on the JSON string value that holds `key`.
///
/// Trusted: the result is the string literal that [`quoted`] describes. The
/// serializer writes a quotation mark, then the bytes of the key with each
/// byte below 0x20, each quotation mark and each backslash replaced as
/// [`escaped`] says and every other byte unchanged, then a quotation mark. It
/// writes into a vector in memory, which cannot fail.
#[verifier::external_body]
fn quote_key(key: &str) -> (literal: String)
    ensures
        literal@ == quoted(key@),
{
    simd_json::to_string(&simd_json::BorrowedValue::from(key)).expect(
        "writing into memory does not fail",
    )
}

impl<'a> JsonPath<'a> {
    /// Writes the step out: `["key"]` for a key, quoted and escaped as a JSON
    /// string, and `[7]` for an index. What stands between the brackets of a
    /// key reads back as the key.
    pub fn format(&self) -> (text: String)
        ensures
            text@ == render_step(self@),
            self@ matches Step::Key(key) ==> read_literal(text@.subrange(1, text@.len() - 1))
                == Some(key),
    {
        proof {
            reveal_strlit("[");
            reveal_strlit("]");
            if let Step::Key(key) = self@ {
                lemma_key_reads_back(key);
                let whole = seq!['['] + quoted(key) + seq![']'];
                assert(whole.subrange(1, whole.len() - 1) =~= quoted(key));
            }
        }
        let mut text = String::from_str("[");
        match self {
            JsonPath::Key(key) => {
                let literal = quote_key(key.as_str());
                text.append(literal.as_str());
            },
            JsonPath::Index(index) => {
                push_decimal(&mut text, *index);
            },
        }
        text.append("]");
        text
    }
}

/// Writes a path out: each of its steps as [`JsonPath::format`] writes it, one
/// after the other.
pub fn render<'a>(path: &Vec<JsonPath<'a>>) -> (text: String)
    ensures
        text@ == render_path(steps_of(path@)),
{
    let mut text = String::new();
    let mut i: usize = 0;
    while i < path.len()
        invariant
            i <= path.len(),
            text@ == render_path(steps_of(path@).take(i as int)),
        decreases path.len() - i,
    {
        let piece = path[i].format();
        text.append(piece.as_str());
        proof {
            let all = steps_of(path@);
            assert(all.take(i + 1).drop_last() =~= all.take(i as int));
        }
        i += 1;
    }
    assert(steps_of(path@).take(i as int) =~= steps_of(path@));
    text
}

} // verus!
