//! Small helpers on strings.

use crate::text::chars_of;
use vstd::prelude::*;
use vstd::string::StringExecFns;
use vstd::utf8::encode_utf8;

verus! {

// ---------------------------------------------------------------------------
// Yes and no.
// ---------------------------------------------------------------------------

/// A text in lower case, as Unicode defines it.
pub uninterp spec fn lowercased(text: Seq<char>) -> Seq<char>;

/// The characters with Unicode's property `White_Space`.
pub open spec fn white_space(c: char) -> bool {
    ||| 0x09 <= c as u32 <= 0x0d
    ||| c as u32 == 0x20
    ||| c as u32 == 0x85
    ||| c as u32 == 0xa0
    ||| c as u32 == 0x1680
    ||| 0x2000 <= c as u32 <= 0x200a
    ||| c as u32 == 0x2028
    ||| c as u32 == 0x2029
    ||| c as u32 == 0x202f
    ||| c as u32 == 0x205f
    ||| c as u32 == 0x3000
}

/// `str::to_lowercase` of std: the text in lower case, which depends on the
/// text alone. What that is for each character is left to Unicode.
#[verifier::external_body]
fn to_lowercase(text: &str) -> (lower: String)
    ensures
        lower@ == lowercased(text@),
{
    text.to_lowercase()
}

/// `char::is_whitespace` of std: whether the character has Unicode's property
/// `White_Space`.
#[verifier::external_body]
fn is_whitespace(c: char) -> (yes: bool)
    ensures
        yes == white_space(c),
{
    c.is_whitespace()
}

/// `text` without the white space at its start.
pub open spec fn trimmed_start(text: Seq<char>) -> Seq<char>
    decreases text.len(),
{
    if text.len() > 0 && white_space(text.first()) {
        trimmed_start(text.drop_first())
    } else {
        text
    }
}

/// `text` without the white space at its end.
pub open spec fn trimmed_end(text: Seq<char>) -> Seq<char>
    decreases text.len(),
{
    if text.len() > 0 && white_space(text.last()) {
        trimmed_end(text.drop_last())
    } else {
        text
    }
}

/// The words that mean yes.
pub open spec fn means_yes(word: Seq<char>) -> bool {
    word == "y"@ || word == "yes"@ || word == "true"@
}

/// The text without leading and trailing white space.
fn trim(text: &str) -> (word: String)
    ensures
        word@ == trimmed_end(trimmed_start(text@)),
{
    let chars = chars_of(text);
    let mut start: usize = 0;
    assert(text@.skip(0) =~= text@);
    while start < chars.len() && is_whitespace(chars[start])
        invariant
            chars@ == text@,
            start <= chars@.len(),
            trimmed_start(text@) == trimmed_start(text@.skip(start as int)),
        decreases chars@.len() - start,
    {
        assert(text@.skip(start as int).drop_first() =~= text@.skip(start + 1));
        start = start + 1;
    }
    let ghost rest = text@.skip(start as int);
    assert(trimmed_start(text@) == rest);
    let mut end: usize = chars.len();
    assert(rest.take(end - start) =~= rest);
    while end > start && is_whitespace(chars[end - 1])
        invariant
            chars@ == text@,
            rest == text@.skip(start as int),
            start <= end <= chars@.len(),
            trimmed_end(rest) == trimmed_end(rest.take(end - start)),
        decreases end - start,
    {
        assert(rest.take(end - start).last() == chars@[end - 1]);
        assert(rest.take(end - start).drop_last() =~= rest.take(end - 1 - start));
        end = end - 1;
    }
    let ghost wanted = rest.take(end - start);
    assert(trimmed_end(rest) == wanted) by {
        if end > start {
            assert(wanted.last() == chars@[end - 1]);
        }
    }
    let mut word: String = String::new();
    let mut i: usize = start;
    assert(word@ =~= wanted.take(0));
    while i < end
        invariant
            chars@ == text@,
            start <= i <= end <= chars@.len(),
            wanted == text@.skip(start as int).take(end - start),
            word@ == wanted.take(i - start),
        decreases end - i,
    {
        word.push(chars[i]);
        i = i + 1;
        assert(word@ =~= wanted.take(i - start));
    }
    assert(word@ =~= wanted);
    word
}

/// Whether a word means yes.
pub fn word_to_bool(word: &str) -> (yes: bool)
    ensures
        yes == means_yes(word@),
{
    let word = word.to_owned();
    word == "y".to_owned() || word == "yes".to_owned() || word == "true".to_owned()
}

/// Whether a text means yes: `y`, `yes` or `true`, in any case and with any
/// white space around it. All other texts mean no.
pub fn string_to_bool(text: &str) -> (yes: bool)
    ensures
        yes == means_yes(trimmed_end(trimmed_start(lowercased(text@)))),
{
    let lower = to_lowercase(text);
    let word = trim(lower.as_str());
    word_to_bool(word.as_str())
}

// ---------------------------------------------------------------------------
// Escapes.
// ---------------------------------------------------------------------------

/// How a character is written inside a literal.
pub open spec fn escape_of(c: char) -> Seq<char> {
    if c == '\n' {
        "\\n"@
    } else if c == '\r' {
        "\\r"@
    } else if c == '\t' {
        "\\t"@
    } else if c == '\\' {
        "\\\\"@
    } else if c == '\"' {
        "\\\""@
    } else if c == '\'' {
        "\\'"@
    } else {
        seq![c]
    }
}

/// How a text is written inside a literal.
pub open spec fn escapes_of(text: Seq<char>) -> Seq<char>
    decreases text.len(),
{
    if text.len() == 0 {
        Seq::empty()
    } else {
        escapes_of(text.drop_last()) + escape_of(text.last())
    }
}

/// The text with line breaks, tabs, backslashes and quotes escaped.
pub fn generate_escape_string(s: &str) -> (result: String)
    ensures
        result@ == escapes_of(s@),
{
    let chars = chars_of(s);
    let mut result: String = String::new();
    let mut i: usize = 0;
    assert(s@.take(0).len() == 0);
    assert(result@ =~= escapes_of(s@.take(0)));
    while i < chars.len()
        invariant
            chars@ == s@,
            i <= chars@.len(),
            result@ == escapes_of(s@.take(i as int)),
        decreases chars@.len() - i,
    {
        let c = chars[i];
        if c == '\n' {
            result.append("\\n");
        } else if c == '\r' {
            result.append("\\r");
        } else if c == '\t' {
            result.append("\\t");
        } else if c == '\\' {
            result.append("\\\\");
        } else if c == '\"' {
            result.append("\\\"");
        } else if c == '\'' {
            result.append("\\'");
        } else {
            result.push(c);
        }
        i = i + 1;
        proof {
            assert(s@.take(i as int).drop_last() =~= s@.take(i - 1));
            assert(s@.take(i as int).last() == c);
            assert(result@ =~= escapes_of(s@.take(i - 1)) + escape_of(c));
        }
    }
    assert(s@.take(i as int) =~= s@);
    result
}

/// What the escapes look like, character by character.
proof fn lemma_escape_of(c: char)
    ensures
        escape_of(c).len() == 1 || escape_of(c).len() == 2,
        escape_of(c).len() == 1 ==> escape_of(c)[0] == c && c != '\\',
        escape_of(c).len() == 2 ==> escape_of(c)[0] == '\\',
        forall|i: int|
            #![trigger escape_of(c)[i]]
            0 <= i < escape_of(c).len() ==> escape_of(c)[i] != '\n' && escape_of(c)[i] != '\r'
                && escape_of(c)[i] != '\t',
        forall|d: char|
            escape_of(c).len() == 2 && #[trigger] escape_of(d).len() == 2 && escape_of(c)[1]
                == escape_of(d)[1] ==> c == d,
{
    reveal_strlit("\\n");
    reveal_strlit("\\r");
    reveal_strlit("\\t");
    reveal_strlit("\\\\");
    reveal_strlit("\\\"");
    reveal_strlit("\\'");
}

/// The first character is escaped first.
proof fn lemma_escapes_first(text: Seq<char>)
    requires
        text.len() > 0,
    ensures
        escapes_of(text) == escape_of(text[0]) + escapes_of(text.drop_first()),
    decreases text.len(),
{
    if text.len() == 1 {
        assert(escapes_of(text.drop_last()) =~= Seq::empty());
        assert(escapes_of(text.drop_first()) =~= Seq::empty());
        assert(escapes_of(text) =~= escape_of(text[0]) + escapes_of(text.drop_first()));
    } else {
        lemma_escapes_first(text.drop_last());
        let rest = text.drop_first();
        assert(text.drop_last().drop_first() =~= rest.drop_last());
        assert(escapes_of(rest) == escapes_of(rest.drop_last()) + escape_of(text.last()));
        assert(escapes_of(text) =~= escape_of(text[0]) + escapes_of(rest));
    }
}

/// An escaped text holds no line break and no tab.
pub proof fn law_escapes_hold_no_breaks(text: Seq<char>, i: int)
    requires
        0 <= i < escapes_of(text).len(),
    ensures
        escapes_of(text)[i] != '\n',
        escapes_of(text)[i] != '\r',
        escapes_of(text)[i] != '\t',
    decreases text.len(),
{
    if text.len() > 0 {
        let head = escapes_of(text.drop_last());
        lemma_escape_of(text.last());
        if i < head.len() {
            law_escapes_hold_no_breaks(text.drop_last(), i);
        } else {
            assert(escapes_of(text)[i] == escape_of(text.last())[i - head.len()]);
        }
    }
}

/// Nothing is lost: texts with the same escaped form are the same.
pub proof fn law_escapes_are_unique(a: Seq<char>, b: Seq<char>)
    requires
        escapes_of(a) == escapes_of(b),
    ensures
        a == b,
    decreases a.len(),
{
    let whole = escapes_of(a);
    if a.len() > 0 {
        lemma_escapes_first(a);
        lemma_escape_of(a[0]);
    }
    if b.len() > 0 {
        lemma_escapes_first(b);
        lemma_escape_of(b[0]);
    }
    if a.len() > 0 && b.len() > 0 {
        let (x, y) = (escape_of(a[0]), escape_of(b[0]));
        assert(whole[0] == x[0] && whole[0] == y[0]);
        assert(x.len() == y.len());
        if x.len() == 2 {
            assert(whole[1] == x[1] && whole[1] == y[1]);
        }
        assert(a[0] == b[0]);
        let n = x.len() as int;
        assert(whole.skip(n) =~= escapes_of(a.drop_first()));
        assert(whole.skip(n) =~= escapes_of(b.drop_first()));
        law_escapes_are_unique(a.drop_first(), b.drop_first());
        assert(a =~= seq![a[0]] + a.drop_first());
        assert(b =~= seq![b[0]] + b.drop_first());
    } else if a.len() == 0 && b.len() == 0 {
        assert(a =~= b);
    } else if a.len() > 0 {
        assert(escapes_of(b).len() == 0);
    } else {
        assert(escapes_of(a).len() == 0);
    }
}

/// Escaping goes piece by piece: the escaped form of two texts in a row is
/// their escaped forms in a row.
pub proof fn law_escapes_concatenate(a: Seq<char>, b: Seq<char>)
    ensures
        escapes_of(a + b) == escapes_of(a) + escapes_of(b),
    decreases b.len(),
{
    if b.len() == 0 {
        assert(a + b =~= a);
        assert(escapes_of(a) + escapes_of(b) =~= escapes_of(a));
    } else {
        assert((a + b).drop_last() =~= a + b.drop_last());
        law_escapes_concatenate(a, b.drop_last());
        assert(escapes_of(a + b) =~= escapes_of(a) + escapes_of(b));
    }
}

/// In an escaped text every quote stands behind a backslash.
pub proof fn law_escapes_guard_quotes(text: Seq<char>, i: int)
    requires
        0 <= i < escapes_of(text).len(),
        escapes_of(text)[i] == '\"' || escapes_of(text)[i] == '\'',
    ensures
        i > 0,
        escapes_of(text)[i - 1] == '\\',
    decreases text.len(),
{
    if text.len() > 0 {
        let head = escapes_of(text.drop_last());
        let end = escape_of(text.last());
        if i < head.len() {
            law_escapes_guard_quotes(text.drop_last(), i);
        } else {
            reveal_strlit("\\n");
            reveal_strlit("\\r");
            reveal_strlit("\\t");
            reveal_strlit("\\\\");
            reveal_strlit("\\\"");
            reveal_strlit("\\'");
            assert(escapes_of(text)[i] == end[i - head.len()]);
            assert(i - head.len() == 1);
            assert(escapes_of(text)[i - 1] == end[0]);
        }
    }
}

// ---------------------------------------------------------------------------
// The version hash.
// ---------------------------------------------------------------------------

/// One step of the hash: four bits to the left, the byte added, and the four
/// highest bits folded into the bits above the lowest four.
pub open spec fn hash_step(h: u32, b: u8) -> u32 {
    let sum = ((h << 4u32) as int + b as int) % 0x1_0000_0000;
    let wide = sum as u32;
    let high = wide & 0xF000_0000u32;
    (wide ^ (high >> 24u32)) & !high
}

/// The hash of a sequence of bytes.
pub open spec fn hash_of(bytes: Seq<u8>) -> u32
    decreases bytes.len(),
{
    if bytes.len() == 0 {
        0
    } else {
        hash_step(hash_of(bytes.drop_last()), bytes.last())
    }
}

/// GNU ELF version hash function used for strings like "GLIBC_2.2.5".
pub fn vna_hash(version: &str) -> (hash: u32)
    ensures
        hash == hash_of(encode_utf8(version@)),
{
    let bytes = version.as_bytes();
    let mut h: u32 = 0;
    let mut i: usize = 0;
    assert(bytes@.take(0).len() == 0);
    while i < bytes.len()
        invariant
            i <= bytes@.len(),
            h == hash_of(bytes@.take(i as int)),
        decreases bytes@.len() - i,
    {
        let ghost before = h;
        let b = bytes[i];
        h = (h << 4).wrapping_add(b as u32);
        let g = h & 0xF000_0000;
        let ghost wide = h;
        if g != 0 {
            h = h ^ (g >> 24);
        }
        h = h & !g;
        proof {
            assert(g == 0 ==> (wide ^ (g >> 24u32)) == wide) by (bit_vector);
            assert(h == hash_step(before, b));
            assert(bytes@.take(i + 1).drop_last() =~= bytes@.take(i as int));
            assert(bytes@.take(i + 1).last() == b);
        }
        i = i + 1;
    }
    assert(bytes@.take(i as int) =~= bytes@);
    h
}

/// The four highest bits of a hash are clear.
pub proof fn law_hash_fits(bytes: Seq<u8>)
    ensures
        hash_of(bytes) < 0x1000_0000,
{
    if bytes.len() > 0 {
        let wide = (((hash_of(bytes.drop_last()) << 4u32) as int + bytes.last() as int)
            % 0x1_0000_0000) as u32;
        let high = wide & 0xF000_0000u32;
        assert((wide ^ (high >> 24u32)) & !high < 0x1000_0000) by (bit_vector)
            requires
                high == wide & 0xF000_0000u32,
        ;
    }
}

// ---------------------------------------------------------------------------
// Symbols.
// ---------------------------------------------------------------------------

/// An ASCII digit.
pub open spec fn is_digit(c: char) -> bool {
    '0' <= c && c <= '9'
}

/// A character that a symbol may hold: an ASCII letter, an ASCII digit or `_`.
pub open spec fn is_symbol_char(c: char) -> bool {
    is_digit(c) || ('a' <= c && c <= 'z') || ('A' <= c && c <= 'Z') || c == '_'
}

/// The text with `_` for every character that a symbol may not hold.
pub open spec fn symbol_chars(text: Seq<char>) -> Seq<char> {
    Seq::new(
        text.len(),
        |i: int|
            if is_symbol_char(text[i]) {
                text[i]
            } else {
                '_'
            },
    )
}

/// The symbol for a text.
pub open spec fn symbol_of(text: Seq<char>) -> Seq<char> {
    let out = symbol_chars(text);
    if out.len() == 0 {
        "sym"@
    } else if is_digit(out[0]) {
        seq!['_'] + out
    } else {
        out
    }
}

/// A valid symbol: not empty, only letters, digits and `_`, no digit first.
pub open spec fn is_symbol(text: Seq<char>) -> bool {
    &&& text.len() > 0
    &&& !is_digit(text[0])
    &&& forall|i: int| #![trigger text[i]] 0 <= i < text.len() ==> is_symbol_char(text[i])
}

/// Sanitizes a string to be a valid symbol by replacing non-alphanumeric characters with underscores.
/// If the resulting string is empty, it returns "sym".
/// If the resulting string starts with a digit, it prepends an underscore.
pub fn sanitize_symbol(input: &str) -> (symbol: String)
    ensures
        symbol@ == symbol_of(input@),
{
    let chars = chars_of(input);
    if chars.len() == 0 {
        return "sym".to_owned();
    }
    let ghost wanted = symbol_chars(input@);
    let mut out: String = String::new();
    let first = chars[0];
    if '0' <= first && first <= '9' {
        out.push('_');
    }
    let ghost head = out@;
    let mut i: usize = 0;
    assert(out@ =~= head + wanted.take(0));
    while i < chars.len()
        invariant
            chars@ == input@,
            wanted == symbol_chars(input@),
            i <= chars@.len(),
            out@ == head + wanted.take(i as int),
        decreases chars@.len() - i,
    {
        let c = chars[i];
        if ('0' <= c && c <= '9') || ('a' <= c && c <= 'z') || ('A' <= c && c <= 'Z') || c == '_' {
            out.push(c);
        } else {
            out.push('_');
        }
        i = i + 1;
        assert(out@ =~= head + wanted.take(i as int));
    }
    assert(wanted.take(i as int) =~= wanted);
    assert(out@ =~= symbol_of(input@));
    out
}

/// What comes out is a valid symbol, and a valid symbol stays as it is.
pub proof fn law_symbol(text: Seq<char>)
    ensures
        is_symbol(symbol_of(text)),
        is_symbol(text) ==> symbol_of(text) == text,
{
    let out = symbol_chars(text);
    let symbol = symbol_of(text);
    reveal_strlit("sym");
    if out.len() > 0 {
        assert forall|i: int| #![trigger symbol[i]] 0 <= i < symbol.len() implies is_symbol_char(
            symbol[i],
        ) by {
            if is_digit(out[0]) {
                if i > 0 {
                    assert(symbol[i] == out[i - 1]);
                }
            } else {
                assert(symbol[i] == out[i]);
            }
        }
    }
    if is_symbol(text) {
        assert(out =~= text);
    }
}

/// What comes out is the text with `_` in place of every character that is no
/// ASCII letter, no ASCII digit and no `_`, behind a further `_` where the text
/// starts with a digit. Only for the empty text is it `sym`.
pub proof fn law_symbol_keeps_places(text: Seq<char>, i: int)
    ensures
        text.len() == 0 ==> symbol_of(text) == seq!['s', 'y', 'm'],
        text.len() > 0 && '0' <= text[0] <= '9' ==> symbol_of(text).len() == text.len() + 1
            && symbol_of(text)[0] == '_',
        text.len() > 0 && !('0' <= text[0] <= '9') ==> symbol_of(text).len() == text.len(),
        0 <= i < text.len() ==> symbol_of(text)[symbol_of(text).len() - text.len() + i] == if ('0'
            <= text[i] <= '9') || ('a' <= text[i] <= 'z') || ('A' <= text[i] <= 'Z') || text[i]
            == '_' {
            text[i]
        } else {
            '_'
        },
{
    reveal_strlit("sym");
    if text.len() == 0 {
        assert(symbol_of(text) =~= seq!['s', 'y', 'm']);
    }
}

/// How each character is escaped: line feed, carriage return, tab, backslash and
/// the two quotes become a backslash and a character that stands for them, all
/// others stay as they are. The escaped form of a text is that of its
/// characters, one behind the other.
pub proof fn law_escape_table(text: Seq<char>)
    ensures
        escapes_of(text) == text.map_values(
            |c: char|
                if c == '\n' {
                    seq!['\\', 'n']
                } else if c == '\r' {
                    seq!['\\', 'r']
                } else if c == '\t' {
                    seq!['\\', 't']
                } else if c == '\\' || c == '\"' || c == '\'' {
                    seq!['\\', c]
                } else {
                    seq![c]
                },
        ).flatten(),
    decreases text.len(),
{
    let shown = |c: char|
        if c == '\n' {
            seq!['\\', 'n']
        } else if c == '\r' {
            seq!['\\', 'r']
        } else if c == '\t' {
            seq!['\\', 't']
        } else if c == '\\' || c == '\"' || c == '\'' {
            seq!['\\', c]
        } else {
            seq![c]
        };
    reveal_strlit("\\n");
    reveal_strlit("\\r");
    reveal_strlit("\\t");
    reveal_strlit("\\\\");
    reveal_strlit("\\\"");
    reveal_strlit("\\'");
    if text.len() > 0 {
        let less = text.drop_last();
        law_escape_table(less);
        less.map_values(shown).lemma_flatten_push(shown(text.last()));
        assert(text.map_values(shown) =~= less.map_values(shown).push(shown(text.last())));
        assert(escape_of(text.last()) =~= shown(text.last()));
    } else {
        assert(text.map_values(shown).flatten() =~= Seq::empty());
    }
}

/// All characters are white space.
pub open spec fn all_white(text: Seq<char>) -> bool {
    forall|i: int| #![trigger text[i]] 0 <= i < text.len() ==> white_space(text[i])
}

proof fn lemma_trimmed_start(front: Seq<char>, rest: Seq<char>)
    requires
        all_white(front),
        rest.len() > 0 ==> !white_space(rest[0]),
    ensures
        trimmed_start(front + rest) == rest,
    decreases front.len(),
{
    let text = front + rest;
    if front.len() == 0 {
        assert(text =~= rest);
    } else {
        assert(white_space(front[0]));
        assert(text.drop_first() =~= front.drop_first() + rest);
        assert(all_white(front.drop_first()));
        lemma_trimmed_start(front.drop_first(), rest);
    }
}

proof fn lemma_trimmed_end(rest: Seq<char>, back: Seq<char>)
    requires
        all_white(back),
        rest.len() > 0 ==> !white_space(rest.last()),
    ensures
        trimmed_end(rest + back) == rest,
    decreases back.len(),
{
    let text = rest + back;
    if back.len() == 0 {
        assert(text =~= rest);
    } else {
        assert(white_space(back[back.len() - 1]));
        assert(text.drop_last() =~= rest + back.drop_last());
        assert(all_white(back.drop_last()));
        lemma_trimmed_end(rest, back.drop_last());
    }
}

/// Trimming takes off all white space around a word and nothing else: whatever
/// starts and ends with another character stays.
pub proof fn law_trimmed(front: Seq<char>, word: Seq<char>, back: Seq<char>)
    requires
        all_white(front),
        all_white(back),
        word.len() > 0 ==> !white_space(word[0]) && !white_space(word.last()),
    ensures
        trimmed_end(trimmed_start(front + word + back)) == word,
{
    if word.len() > 0 {
        assert(front + word + back =~= front + (word + back));
        lemma_trimmed_start(front, word + back);
        lemma_trimmed_end(word, back);
    } else {
        let white = front + back;
        assert(front + word + back =~= white + word);
        assert(all_white(white)) by {
            assert forall|i: int| #![trigger white[i]] 0 <= i < white.len() implies white_space(
                white[i],
            ) by {
                if i < front.len() {
                    assert(white[i] == front[i]);
                } else {
                    assert(white[i] == back[i - front.len()]);
                }
            }
        }
        lemma_trimmed_start(white, word);
        assert(trimmed_end(word) =~= word);
    }
}

/// The words that mean yes are `y`, `yes` and `true`, and no others.
pub proof fn law_yes(word: Seq<char>)
    ensures
        means_yes(word) <==> word == seq!['y'] || word == seq!['y', 'e', 's'] || word == seq![
            't',
            'r',
            'u',
            'e',
        ],
{
    reveal_strlit("y");
    reveal_strlit("yes");
    reveal_strlit("true");
    assert("y"@ =~= seq!['y']);
    assert("yes"@ =~= seq!['y', 'e', 's']);
    assert("true"@ =~= seq!['t', 'r', 'u', 'e']);
}

/// A further byte changes the hash like this: the hash times sixteen and the
/// byte are added up, in 32 bits. What of that goes beyond 28 bits is taken off
/// and, times sixteen, combined with the rest by exclusive or. The hash of
/// nothing is 0.
pub proof fn law_hash_of_one_more(bytes: Seq<u8>, byte: u8)
    ensures
        hash_of(Seq::empty()) == 0,
        ({
            let sum = (hash_of(bytes) as int * 16 + byte as int) % 0x1_0000_0000;
            hash_of(bytes.push(byte)) == ((sum % 0x1000_0000) as u32) ^ ((sum / 0x1000_0000 * 16)
                as u32)
        }),
{
    let all = bytes.push(byte);
    assert(all.drop_last() =~= bytes);
    let h = hash_of(bytes);
    law_hash_fits(bytes);
    assert(h << 4u32 == h * 16) by (bit_vector)
        requires
            h < 0x1000_0000,
    ;
    let sum = (h as int * 16 + byte as int) % 0x1_0000_0000;
    let wide = sum as u32;
    assert(((h << 4u32) as int + byte as int) % 0x1_0000_0000 == sum);
    assert(wide as int == sum);
    let (low, top) = ((sum % 0x1000_0000) as u32, (sum / 0x1000_0000 * 16) as u32);
    assert(low == wide % 0x1000_0000u32);
    assert(top as int == (wide / 0x1000_0000u32) as int * 16);
    let high = wide & 0xF000_0000u32;
    assert((wide ^ (high >> 24u32)) & !high == (wide % 0x1000_0000u32) ^ (((wide / 0x1000_0000u32)
        * 16) as u32)) by (bit_vector)
        requires
            high == wide & 0xF000_0000u32,
    ;
}

} // verus!
