//! Text: decimal numbers, splitting, case-blind comparison, and UTF-8.

use vstd::arithmetic::div_mod::*;
use vstd::arithmetic::power::*;
use vstd::prelude::*;
use vstd::utf8::*;

verus! {

/// The line feed.
pub const NEWLINE: u8 = 10;

/// The character of one decimal digit.
pub open spec fn digit(d: nat) -> char {
    (48 + d) as char
}

/// `n` in decimal, without leading zeros.
pub open spec fn decimal(n: nat) -> Seq<char>
    decreases n,
{
    if n < 10 {
        seq![digit(n)]
    } else {
        decimal(n / 10).push(digit(n % 10))
    }
}

/// A number is read off its digits: each stands for as many of its power of ten as the number holds,
/// and the first is not a zero unless it is the only one.
pub proof fn decimal_digits(n: nat)
    ensures
        decimal(n).len() > 0,
        forall|i: int|
            0 <= i < decimal(n).len() ==> #[trigger] decimal(n)[i] as u32 == 48 + (n as int / pow(
                10,
                (decimal(n).len() - 1 - i) as nat,
            )) % 10,
        n < pow(10, decimal(n).len()),
        decimal(n).len() > 1 ==> pow(10, (decimal(n).len() - 1) as nat) <= n,
    decreases n,
{
    reveal(pow);
    let text = decimal(n);
    if n < 10 {
        lemma_pow0(10);
        lemma_pow1(10);
        assert(n as int / 1 == n);
    } else {
        let tens = n / 10;
        let head = decimal(tens);
        decimal_digits(tens);
        assert(text == head.push(digit(n % 10)));
        assert(pow(10, text.len()) == 10 * pow(10, head.len()));
        assert(pow(10, head.len()) == 10 * pow(10, (head.len() - 1) as nat));
        if head.len() == 1 {
            lemma_pow0(10);
        }
        assert forall|i: int| 0 <= i < text.len() implies #[trigger] text[i] as u32 == 48 + (
        n as int / pow(10, (text.len() - 1 - i) as nat)) % 10 by {
            if i == text.len() - 1 {
                lemma_pow0(10);
                assert(n as int / 1 == n);
            } else {
                let place = (head.len() - 1 - i) as nat;
                lemma_pow_positive(10, place);
                assert(pow(10, place + 1) == 10 * pow(10, place));
                lemma_div_denominator(n as int, 10, pow(10, place));
                assert(text[i] == head[i]);
            }
        }
    }
}

/// Different numbers are written differently.
pub proof fn decimal_is_unambiguous(m: nat, n: nat)
    requires
        decimal(m) == decimal(n),
    ensures
        m == n,
    decreases m,
{
    let a = decimal(m);
    let b = decimal(n);
    decimal_digits(m / 10);
    decimal_digits(n / 10);
    assert(a.last() == digit(m % 10));
    assert(b.last() == digit(n % 10));
    assert(digit(m % 10) as u32 == 48 + m % 10);
    assert(digit(n % 10) as u32 == 48 + n % 10);
    if m >= 10 && n >= 10 {
        assert(a.drop_last() =~= decimal(m / 10));
        assert(b.drop_last() =~= decimal(n / 10));
        decimal_is_unambiguous(m / 10, n / 10);
    }
}

fn digit_text(d: u64) -> (text: &'static str)
    requires
        d < 10,
    ensures
        text@ == seq![digit(d as nat)],
{
    proof {
        reveal_strlit("0");
        reveal_strlit("1");
        reveal_strlit("2");
        reveal_strlit("3");
        reveal_strlit("4");
        reveal_strlit("5");
        reveal_strlit("6");
        reveal_strlit("7");
        reveal_strlit("8");
        reveal_strlit("9");
    }
    match d {
        0 => "0",
        1 => "1",
        2 => "2",
        3 => "3",
        4 => "4",
        5 => "5",
        6 => "6",
        7 => "7",
        8 => "8",
        _ => "9",
    }
}

/// Writes `n` in decimal.
pub fn decimal_text(n: u64) -> (text: String)
    ensures
        text@ == decimal(n as nat),
        text@.len() > 0,
        forall|i: int|
            0 <= i < text@.len() ==> #[trigger] text@[i] as u32 == 48 + (n as int / pow(
                10,
                (text@.len() - 1 - i) as nat,
            )) % 10,
        n < pow(10, text@.len()),
        text@.len() > 1 ==> pow(10, (text@.len() - 1) as nat) <= n,
    decreases n,
{
    proof {
        decimal_digits(n as nat);
    }
    if n < 10 {
        digit_text(n).to_owned()
    } else {
        let mut text: String = decimal_text(n / 10);
        text.append(digit_text(n % 10));
        assert(text@ =~= decimal((n / 10) as nat).push(digit((n % 10) as nat)));
        text
    }
}

/// The characters of a string, one per element.
pub fn chars_of(s: &str) -> (chars: Vec<char>)
    ensures
        chars@ == s@,
{
    let mut chars: Vec<char> = Vec::new();
    for c in iter: s.chars()
        invariant
            iter.seq() == s@,
            chars@ == iter.seq().take(iter.index() as int),
    {
        chars.push(c);
    }
    chars
}

/// `needle` stands in `hay` at this place.
pub open spec fn occurs_at(hay: Seq<char>, needle: Seq<char>, at: int) -> bool {
    0 <= at && at + needle.len() <= hay.len() && hay.subrange(at, at + needle.len()) == needle
}

/// The first place at or after `from` where `needle` stands in `hay`.
pub open spec fn find_from(hay: Seq<char>, needle: Seq<char>, from: nat) -> Option<nat>
    decreases hay.len() + 1 - from,
{
    if from + needle.len() > hay.len() {
        None
    } else if occurs_at(hay, needle, from as int) {
        Some(from)
    } else {
        find_from(hay, needle, from + 1)
    }
}

/// What stands before and after the first `needle` in `hay`.
pub open spec fn split_first(hay: Seq<char>, needle: Seq<char>) -> Option<(Seq<char>, Seq<char>)> {
    match find_from(hay, needle, 0) {
        None => None,
        Some(at) => Some((hay.take(at as int), hay.skip((at + needle.len()) as int))),
    }
}

/// The place that `find_from` names is the first one: `needle` stands there and nowhere earlier.
pub proof fn find_from_is_first(hay: Seq<char>, needle: Seq<char>, from: nat)
    ensures
        match find_from(hay, needle, from) {
            Some(at) => {
                &&& from <= at
                &&& occurs_at(hay, needle, at as int)
                &&& forall|i: int| from <= i < at ==> !#[trigger] occurs_at(hay, needle, i)
            },
            None => forall|i: int| from <= i ==> !#[trigger] occurs_at(hay, needle, i),
        },
    decreases hay.len() + 1 - from,
{
    if from + needle.len() <= hay.len() && !occurs_at(hay, needle, from as int) {
        find_from_is_first(hay, needle, from + 1);
    }
}

/// A text is split around the first place where the needle stands, and only there: the parts with
/// the needle between them are the text, and the needle stands nowhere before that.
pub proof fn split_is_around_the_first(hay: Seq<char>, needle: Seq<char>)
    ensures
        match split_first(hay, needle) {
            Some((before, after)) => {
                &&& hay == before + needle + after
                &&& forall|i: int|
                    0 <= i < before.len() ==> #[trigger] hay.subrange(i, i + needle.len())
                        != needle
            },
            None => forall|i: int|
                0 <= i <= hay.len() - needle.len() ==> #[trigger] hay.subrange(
                    i,
                    i + needle.len(),
                ) != needle,
        },
{
    let width = needle.len() as int;
    find_from_is_first(hay, needle, 0);
    match find_from(hay, needle, 0) {
        Some(at) => {
            assert(hay =~= hay.take(at as int) + hay.subrange(at as int, at + width) + hay.skip(
                at + width,
            ));
            assert forall|i: int| 0 <= i < at implies #[trigger] hay.subrange(i, i + width)
                != needle by {
                assert(!occurs_at(hay, needle, i));
            }
        },
        None => {
            assert forall|i: int| 0 <= i <= hay.len() - width implies #[trigger] hay.subrange(
                i,
                i + width,
            ) != needle by {
                assert(!occurs_at(hay, needle, i));
            }
        },
    }
}

/// Where a needle stands between two parts and nowhere before that, the text is split into these
/// parts.
pub proof fn split_gives_back_the_parts(before: Seq<char>, needle: Seq<char>, after: Seq<char>)
    requires
        forall|i: int|
            0 <= i < before.len() ==> #[trigger] (before + needle).subrange(i, i + needle.len())
                != needle,
    ensures
        split_first(before + needle + after, needle) == Some((before, after)),
{
    let hay = before + needle + after;
    let width = needle.len() as int;
    let at = before.len() as int;
    split_is_around_the_first(hay, needle);
    assert(hay.subrange(at, at + width) =~= needle);
    match split_first(hay, needle) {
        None => {},
        Some((head, tail)) => {
            let found = head.len() as int;
            assert((head + needle + tail).subrange(found, found + width) =~= needle);
            if found < at {
                assert((before + needle).subrange(found, found + width) =~= hay.subrange(
                    found,
                    found + width,
                ));
            }
            assert(found == at);
            assert(head =~= hay.take(at));
            assert(tail =~= hay.skip(at + width));
            assert(before =~= hay.take(at));
            assert(after =~= hay.skip(at + width));
        },
    }
}

fn stands_at(hay: &Vec<char>, needle: &Vec<char>, at: usize) -> (stands: bool)
    requires
        at + needle@.len() <= hay@.len(),
    ensures
        stands == occurs_at(hay@, needle@, at as int),
{
    let end: usize = hay.len();
    let mut i: usize = 0;
    while i < needle.len()
        invariant
            i <= needle@.len(),
            end == hay@.len(),
            at + needle@.len() <= end,
            forall|j: int| 0 <= j < i ==> hay@[at + j] == needle@[j],
        decreases needle@.len() - i,
    {
        if hay[at + i] != needle[i] {
            assert(hay@.subrange(at as int, at + needle@.len())[i as int] != needle@[i as int]);
            return false;
        }
        i = i + 1;
    }
    assert(hay@.subrange(at as int, at + needle@.len()) =~= needle@);
    true
}

/// Splits `hay` around the first `needle`, if there is one.
pub fn split_once<'a>(hay: &'a str, needle: &str) -> (parts: Option<(&'a str, &'a str)>)
    ensures
        match parts {
            Some((before, after)) => split_first(hay@, needle@) == Some((before@, after@)),
            None => split_first(hay@, needle@) is None,
        },
        match parts {
            Some((before, after)) => {
                &&& hay@ == before@ + needle@ + after@
                &&& forall|i: int|
                    0 <= i < before@.len() ==> #[trigger] hay@.subrange(i, i + needle@.len())
                        != needle@
            },
            None => forall|i: int|
                0 <= i <= hay@.len() - needle@.len() ==> #[trigger] hay@.subrange(
                    i,
                    i + needle@.len(),
                ) != needle@,
        },
{
    proof {
        split_is_around_the_first(hay@, needle@);
    }
    let hay_chars: Vec<char> = chars_of(hay);
    let needle_chars: Vec<char> = chars_of(needle);
    let mut at: usize = 0;
    while at <= hay_chars.len() && needle_chars.len() <= hay_chars.len() - at
        invariant
            hay_chars@ == hay@,
            needle_chars@ == needle@,
            at <= hay_chars@.len() + 1,
            find_from(hay@, needle@, 0) == find_from(hay@, needle@, at as nat),
        decreases hay_chars@.len() + 1 - at,
    {
        if stands_at(&hay_chars, &needle_chars, at) {
            let before: &'a str = hay.substring_char(0, at);
            let after: &'a str = hay.substring_char(at + needle_chars.len(), hay_chars.len());
            assert(before@ =~= hay@.take(at as int));
            assert(after@ =~= hay@.skip(at + needle@.len()));
            proof {
                split_is_around_the_first(hay@, needle@);
            }
            return Some((before, after));
        }
        assert(needle@.len() > 0) by {
            if needle@.len() == 0 {
                assert(hay@.subrange(at as int, at as int) =~= needle@);
            }
        }
        at = at + 1;
    }
    None
}

/// An ASCII capital as its small letter; any other character as it is.
pub open spec fn ascii_lower(c: char) -> char {
    if 'A' <= c && c <= 'Z' {
        (c as u32 + 32) as char
    } else {
        c
    }
}

/// Equal but for the case of ASCII letters.
pub open spec fn same_ignoring_ascii_case(a: Seq<char>, b: Seq<char>) -> bool {
    &&& a.len() == b.len()
    &&& forall|i: int| 0 <= i < a.len() ==> ascii_lower(#[trigger] a[i]) == ascii_lower(b[i])
}

/// Texts are the same but for case exactly where they are as long as each other and each character
/// is that of the other or differs from it as an ASCII capital from its small letter.
pub proof fn same_but_for_case(a: Seq<char>, b: Seq<char>)
    ensures
        same_ignoring_ascii_case(a, b) <==> {
            &&& a.len() == b.len()
            &&& forall|i: int|
                0 <= i < a.len() ==> {
                    ||| #[trigger] a[i] == b[i]
                    ||| 'A' <= a[i] && a[i] <= 'Z' && b[i] as u32 == a[i] as u32 + 32
                    ||| 'A' <= b[i] && b[i] <= 'Z' && a[i] as u32 == b[i] as u32 + 32
                }
        },
{
    assert forall|x: char, y: char| #[trigger]
        ascii_lower(x) == #[trigger] ascii_lower(y) <==> {
            ||| x == y
            ||| 'A' <= x && x <= 'Z' && y as u32 == x as u32 + 32
            ||| 'A' <= y && y <= 'Z' && x as u32 == y as u32 + 32
        } by {
        if 'A' <= x && x <= 'Z' {
            assert(ascii_lower(x) as u32 == x as u32 + 32);
        }
        if 'A' <= y && y <= 'Z' {
            assert(ascii_lower(y) as u32 == y as u32 + 32);
        }
    }
    if same_ignoring_ascii_case(a, b) {
        assert forall|i: int| 0 <= i < a.len() implies {
            ||| #[trigger] a[i] == b[i]
            ||| 'A' <= a[i] && a[i] <= 'Z' && b[i] as u32 == a[i] as u32 + 32
            ||| 'A' <= b[i] && b[i] <= 'Z' && a[i] as u32 == b[i] as u32 + 32
        } by {
            assert(ascii_lower(a[i]) == ascii_lower(b[i]));
        }
    }
}

fn lower(c: char) -> (l: u32)
    ensures
        l == ascii_lower(c) as u32,
{
    if 'A' <= c && c <= 'Z' {
        c as u32 + 32
    } else {
        c as u32
    }
}

/// Compares two strings without regard to the case of ASCII letters.
pub fn eq_ignore_ascii_case(a: &str, b: &str) -> (same: bool)
    ensures
        same == same_ignoring_ascii_case(a@, b@),
        same <==> {
            &&& a@.len() == b@.len()
            &&& forall|i: int|
                0 <= i < a@.len() ==> {
                    ||| #[trigger] a@[i] == b@[i]
                    ||| 'A' <= a@[i] && a@[i] <= 'Z' && b@[i] as u32 == a@[i] as u32 + 32
                    ||| 'A' <= b@[i] && b@[i] <= 'Z' && a@[i] as u32 == b@[i] as u32 + 32
                }
        },
{
    proof {
        same_but_for_case(a@, b@);
    }
    let a_chars: Vec<char> = chars_of(a);
    let b_chars: Vec<char> = chars_of(b);
    if a_chars.len() != b_chars.len() {
        return false;
    }
    let mut i: usize = 0;
    while i < a_chars.len()
        invariant
            a_chars@ == a@,
            b_chars@ == b@,
            a@.len() == b@.len(),
            i <= a@.len(),
            forall|j: int| 0 <= j < i ==> ascii_lower(#[trigger] a@[j]) == ascii_lower(b@[j]),
        decreases a@.len() - i,
    {
        if lower(a_chars[i]) != lower(b_chars[i]) {
            assert(ascii_lower(a@[i as int]) != ascii_lower(b@[i as int]));
            return false;
        }
        i = i + 1;
    }
    true
}

/// U+FFFD, which stands in a text for what is malformed.
pub const REPLACEMENT: char = '\u{FFFD}';

/// The text of `bytes` with U+FFFD for each byte that belongs to no well-formed character.
pub open spec fn marked_text(bytes: Seq<u8>) -> Seq<char>
    decreases bytes.len(),
{
    if bytes.len() == 0 {
        seq![]
    } else if valid_first_scalar(bytes) {
        seq![decode_first_scalar(bytes) as char] + marked_text(pop_first_scalar(bytes))
    } else {
        seq![REPLACEMENT] + marked_text(bytes.skip(1))
    }
}

/// `text` with one U+FFFD in place of each number of them in a row.
pub open spec fn squeezed(text: Seq<char>) -> Seq<char>
    decreases text.len(),
{
    if text.len() == 0 {
        seq![]
    } else if text.len() > 1 && text[0] == REPLACEMENT && text[1] == REPLACEMENT {
        squeezed(text.skip(1))
    } else {
        seq![text[0]] + squeezed(text.skip(1))
    }
}

/// The two texts are the same but for how many U+FFFD stand in a row, where there are any.
pub open spec fn alike(a: Seq<char>, b: Seq<char>) -> bool {
    squeezed(a) == squeezed(b)
}

/// What `String::from_utf8_lossy` makes of bytes that are not UTF-8.
pub uninterp spec fn repaired_text(bytes: Seq<u8>) -> Seq<char>;

/// The text of `bytes`, as `String::from_utf8_lossy` makes it: what they encode where they are
/// UTF-8, and a repaired text otherwise. The wrapper claims of each call that the repaired text is
/// like the marked one, so the last case is that of no call.
pub open spec fn lossy_text(bytes: Seq<u8>) -> Seq<char> {
    if valid_utf8(bytes) {
        decode_utf8(bytes)
    } else if alike(repaired_text(bytes), marked_text(bytes)) {
        repaired_text(bytes)
    } else {
        marked_text(bytes)
    }
}

/// Calls `String::from_utf8_lossy`.
///
/// Trusted: bytes that are UTF-8 give the text they encode. Other bytes give a text that depends on
/// them alone: the well-formed characters stay as they are and in their order, and U+FFFD stands,
/// once or more, where there are malformed bytes and nowhere else. How many U+FFFD stand for a
/// number of malformed bytes in a row is left unsaid.
#[verifier::external_body]
pub(crate) fn from_utf8_lossy(bytes: &Vec<u8>) -> (text: String)
    ensures
        text@ == (if valid_utf8(bytes@) {
            decode_utf8(bytes@)
        } else {
            repaired_text(bytes@)
        }),
        alike(text@, marked_text(bytes@)),
{
    String::from_utf8_lossy(bytes).into_owned()
}

/// Calls `String::from_utf8`.
///
/// Trusted: it gives a string exactly where the bytes are UTF-8, and then the one they encode.
#[verifier::external_body]
pub(crate) fn from_utf8(bytes: Vec<u8>) -> (text: Option<String>)
    ensures
        match text {
            Some(text) => valid_utf8(bytes@) && text@ == decode_utf8(bytes@),
            None => !valid_utf8(bytes@),
        },
{
    String::from_utf8(bytes).ok()
}

/// The bytes of a text without a line feed hold none either.
pub proof fn text_without_newline(text: Seq<char>)
    requires
        !text.contains('\n'),
    ensures
        forall|i: int| 0 <= i < encode_utf8(text).len() ==> #[trigger] encode_utf8(text)[i]
            != NEWLINE,
    decreases text.len(),
{
    if text.len() > 0 {
        let rest = text.drop_first();
        let scalar = text[0] as u32;
        assert(text.contains(text[0]));
        char_is_scalar(text[0]);
        char_u32_cast(text[0], scalar);
        assert(scalar != 10);
        assert(!rest.contains('\n')) by {
            if rest.contains('\n') {
                let i = choose|i: int| 0 <= i < rest.len() && rest[i] == '\n';
                assert(text[i + 1] == '\n');
            }
        }
        text_without_newline(rest);
        let head = encode_scalar(scalar);
        assert(leading_byte_width_1(scalar) == 10u8 && has_width_1_encoding(scalar) ==> scalar
            == 10u32) by (bit_vector);
        assert(leading_byte_width_2(scalar) >= 0x80u8 && leading_byte_width_3(scalar) >= 0x80u8
            && leading_byte_width_4(scalar) >= 0x80u8 && last_continuation_byte(scalar) >= 0x80u8
            && second_last_continuation_byte(scalar) >= 0x80u8 && third_last_continuation_byte(
            scalar,
        ) >= 0x80u8) by (bit_vector);
        assert forall|i: int| 0 <= i < encode_utf8(text).len() implies #[trigger] encode_utf8(
            text,
        )[i] != NEWLINE by {
            if i < head.len() {
                assert(encode_utf8(text)[i] == head[i]);
            } else {
                assert(encode_utf8(text)[i] == encode_utf8(rest)[i - head.len()]);
            }
        }
    }
}

/// The bytes of a text with a line feed added are its bytes with one added.
pub proof fn encode_push_newline(text: Seq<char>)
    ensures
        encode_utf8(text.push('\n')) == encode_utf8(text).push(NEWLINE),
    decreases text.len(),
{
    if text.len() == 0 {
        let line_feed = text.push('\n');
        assert(line_feed.drop_first() =~= seq![]);
        let scalar: u32 = 10;
        assert(leading_byte_width_1(scalar) == 10u8 && has_width_1_encoding(scalar)) by (bit_vector)
            requires
                scalar == 10u32,
        ;
        assert(line_feed[0] as u32 == scalar);
        assert(encode_utf8(line_feed.drop_first()) =~= seq![]);
        assert(encode_utf8(line_feed) =~= seq![10u8]);
        assert(encode_utf8(line_feed) =~= encode_utf8(text).push(NEWLINE));
    } else {
        encode_push_newline(text.drop_first());
        assert(text.push('\n').drop_first() =~= text.drop_first().push('\n'));
        assert(encode_utf8(text.push('\n')) =~= encode_utf8(text).push(NEWLINE));
    }
}

/// Bytes that are UTF-8 have nothing to mark.
pub proof fn marked_text_of_utf8(bytes: Seq<u8>)
    requires
        valid_utf8(bytes),
    ensures
        marked_text(bytes) == decode_utf8(bytes),
    decreases bytes.len(),
{
    if bytes.len() > 0 {
        marked_text_of_utf8(pop_first_scalar(bytes));
    }
}

/// The text of any bytes is like the marked one.
pub proof fn lossy_text_is_like_marked(bytes: Seq<u8>)
    ensures
        alike(lossy_text(bytes), marked_text(bytes)),
{
    if valid_utf8(bytes) {
        marked_text_of_utf8(bytes);
    }
}

/// What is well-formed stays: the marked text of a text's bytes and of what follows them is the text
/// and the marked text of what follows.
pub proof fn marked_text_keeps_the_well_formed(text: Seq<char>, rest: Seq<u8>)
    ensures
        marked_text(encode_utf8(text) + rest) == text + marked_text(rest),
    decreases text.len(),
{
    let bytes = encode_utf8(text);
    let whole = bytes + rest;
    if text.len() == 0 {
        assert(whole =~= rest);
        assert(text + marked_text(rest) =~= marked_text(rest));
    } else {
        let later = text.drop_first();
        let head = encode_scalar(text[0] as u32);
        encode_utf8_first_scalar(text);
        char_u32_cast(text[0], text[0] as u32);
        assert(valid_first_scalar(whole));
        assert(pop_first_scalar(whole) =~= encode_utf8(later) + rest);
        assert(decode_first_scalar(whole) == decode_first_scalar(bytes));
        marked_text_keeps_the_well_formed(later, rest);
        assert(marked_text(whole) =~= text + marked_text(rest));
    }
}

/// What is malformed is marked: where no text's bytes begin the bytes, the first of them becomes
/// U+FFFD and the others are marked as they would be alone.
pub proof fn marked_text_marks_the_malformed(bytes: Seq<u8>)
    requires
        bytes.len() > 0,
        forall|c: char| !(#[trigger] encode_scalar(c as u32)).is_prefix_of(bytes),
    ensures
        marked_text(bytes) == seq!['\u{FFFD}'] + marked_text(bytes.skip(1)),
{
    if valid_first_scalar(bytes) {
        let scalar = decode_first_scalar(bytes);
        let head = take_first_scalar(bytes);
        assert(head.len() == length_of_first_scalar(bytes));
        assert(valid_first_scalar(head));
        assert(decode_first_scalar(head) == scalar);
        assert(pop_first_scalar(head) =~= seq![]);
        assert(valid_utf8(pop_first_scalar(head)));
        assert(valid_utf8(head));
        decode_utf8_first_scalar(head);
        assert(take_first_scalar(head) =~= head);
        assert(encode_scalar((scalar as char) as u32).is_prefix_of(bytes));
    }
}

/// Texts that are alike have the same characters other than U+FFFD, in the same order, and the same
/// ones at their ends; and texts without U+FFFD are alike only where they are equal.
pub proof fn alike_texts_differ_only_in_marks(a: Seq<char>, b: Seq<char>)
    requires
        alike(a, b),
    ensures
        a.filter(|c: char| c != '\u{FFFD}') == b.filter(|c: char| c != '\u{FFFD}'),
        a.len() == 0 <==> b.len() == 0,
        a.len() > 0 ==> a[0] == b[0] && a.last() == b.last(),
        !a.contains('\u{FFFD}') && !b.contains('\u{FFFD}') ==> a == b,
{
    squeezed_keeps_the_rest(a);
    squeezed_keeps_the_rest(b);
    if a.len() > 0 {
        squeezed_keeps_ends(a);
    }
    if b.len() > 0 {
        squeezed_keeps_ends(b);
    }
}

proof fn squeezed_keeps_the_rest(text: Seq<char>)
    ensures
        squeezed(text).filter(|c: char| c != '\u{FFFD}') == text.filter(|c: char| c != '\u{FFFD}'),
        !text.contains('\u{FFFD}') ==> squeezed(text) == text,
    decreases text.len(),
{
    let kept = |c: char| c != '\u{FFFD}';
    if text.len() == 0 {
        assert(squeezed(text) =~= text);
    } else {
        let rest = text.skip(1);
        let first = seq![text[0]];
        squeezed_keeps_the_rest(rest);
        assert(text =~= first + rest);
        Seq::filter_distributes_over_add(first, rest, kept);
        Seq::filter_distributes_over_add(first, squeezed(rest), kept);
        if !text.contains('\u{FFFD}') {
            assert(text.contains(text[0]));
            if rest.contains('\u{FFFD}') {
                let i = choose|i: int| 0 <= i < rest.len() && rest[i] == '\u{FFFD}';
                assert(text[i + 1] == '\u{FFFD}');
            }
        }
        if text.len() > 1 && text[0] == REPLACEMENT && text[1] == REPLACEMENT {
            reveal(Seq::filter);
            assert(first.drop_last() =~= seq![]);
            assert(first.drop_last().filter(kept) =~= seq![]);
            assert(!kept(first.last()));
            assert(first.filter(kept) =~= seq![]);
            assert(text.filter(kept) =~= rest.filter(kept));
        }
    }
}

/// No character reaches across a line feed: the marked text of what ends in one and of what follows
/// it are those of the two parts.
pub proof fn marked_text_splits_after_newline(line: Seq<u8>, rest: Seq<u8>)
    requires
        line.len() > 0,
        line.last() == NEWLINE,
    ensures
        marked_text(line + rest) == marked_text(line) + marked_text(rest),
    decreases line.len(),
{
    let whole = line + rest;
    assert(valid_first_scalar(whole) == valid_first_scalar(line)) by {
        assert(whole[line.len() - 1] == NEWLINE);
    }
    let step: int = if valid_first_scalar(line) {
        length_of_first_scalar(line)
    } else {
        1
    };
    let left = line.skip(step);
    assert(whole.skip(step) =~= left + rest);
    if left.len() == 0 {
        assert(left + rest =~= rest);
        assert(marked_text(left) =~= seq![]);
    } else {
        marked_text_splits_after_newline(left, rest);
    }
    if valid_first_scalar(line) {
        assert(pop_first_scalar(whole) =~= whole.skip(step));
        assert(pop_first_scalar(line) =~= left);
    }
    assert(marked_text(whole) =~= marked_text(line) + marked_text(rest));
}

/// A text that is not empty, in which a line feed stands at most at the end.
pub open spec fn is_one_line(text: Seq<char>) -> bool {
    &&& text.len() > 0
    &&& forall|j: int| 0 <= j < text.len() - 1 ==> #[trigger] text[j] != '\n'
}

proof fn one_line_from_second(text: Seq<char>)
    requires
        text.len() > 1,
    ensures
        is_one_line(text) <==> text[0] != '\n' && is_one_line(text.skip(1)),
        text.skip(1).last() == text.last(),
{
    let rest = text.skip(1);
    if text[0] != '\n' && is_one_line(rest) {
        assert forall|j: int| 0 <= j < text.len() - 1 implies #[trigger] text[j] != '\n' by {
            if j > 0 {
                assert(rest[j - 1] != '\n');
            }
        }
    }
}

/// A character that begins with another byte than a line feed is not one, nor does its last byte
/// look like one.
proof fn first_scalar_is_no_newline(bytes: Seq<u8>)
    requires
        valid_first_scalar(bytes),
        bytes[0] != NEWLINE,
    ensures
        decode_first_scalar(bytes) as char != '\n',
        bytes[length_of_first_scalar(bytes) - 1] != NEWLINE,
{
    let byte = bytes[0];
    let scalar = decode_first_scalar(bytes);
    if is_leading_byte_width_1(byte) {
        assert(leading_bits_width_1(byte) == byte) by (bit_vector)
            requires
                byte <= 0x7fu8,
        ;
    } else if is_leading_byte_width_2(byte) {
        let second = bytes[1];
        assert(codepoint_width_2(byte, second) <= 0x7ff) by (bit_vector);
    } else if is_leading_byte_width_3(byte) {
        let second = bytes[1];
        let third = bytes[2];
        assert(codepoint_width_3(byte, second, third) <= 0xffff) by (bit_vector);
    }
    assert(scalar != 10);
    assert((scalar as char) as u32 == scalar);
}

/// The marked text of bytes in which a line feed stands at most at the end is one line, and ends in
/// a line feed exactly where they do.
proof fn marked_line_is_one_line(bytes: Seq<u8>)
    requires
        bytes.len() > 0,
        forall|j: int| 0 <= j < bytes.len() - 1 ==> #[trigger] bytes[j] != NEWLINE,
    ensures
        is_one_line(marked_text(bytes)),
        marked_text(bytes).last() == '\n' <==> bytes.last() == NEWLINE,
    decreases bytes.len(),
{
    let text = marked_text(bytes);
    if bytes[0] == NEWLINE {
        let byte = bytes[0];
        assert(bytes.len() == 1);
        assert(leading_bits_width_1(byte) == 10) by (bit_vector)
            requires
                byte == 10u8,
        ;
        assert(valid_first_scalar(bytes));
        char_u32_cast('\n', 10);
        assert(decode_first_scalar(bytes) as char == '\n');
        assert(pop_first_scalar(bytes) =~= seq![]);
        assert(marked_text(pop_first_scalar(bytes)) =~= seq![]);
        assert(text =~= seq!['\n']);
    } else {
        let step: int = if valid_first_scalar(bytes) {
            length_of_first_scalar(bytes)
        } else {
            1
        };
        if valid_first_scalar(bytes) {
            first_scalar_is_no_newline(bytes);
            assert(pop_first_scalar(bytes) =~= bytes.skip(step));
        }
        let left = bytes.skip(step);
        assert(text[0] != '\n');
        assert(text.skip(1) =~= marked_text(left));
        if left.len() == 0 {
            assert(marked_text(left) =~= seq![]);
        } else {
            assert forall|j: int| 0 <= j < left.len() - 1 implies #[trigger] left[j]
                != NEWLINE by {
                assert(bytes[j + step] != NEWLINE);
            }
            marked_line_is_one_line(left);
            one_line_from_second(text);
        }
    }
}

proof fn squeezed_keeps_ends(text: Seq<char>)
    requires
        text.len() > 0,
    ensures
        squeezed(text).len() > 0,
        squeezed(text)[0] == text[0],
        squeezed(text).last() == text.last(),
    decreases text.len(),
{
    let rest = text.skip(1);
    if rest.len() == 0 {
        assert(squeezed(rest) =~= seq![]);
    } else {
        squeezed_keeps_ends(rest);
    }
}

proof fn squeezed_keeps_one_line(text: Seq<char>)
    requires
        text.len() > 0,
    ensures
        is_one_line(squeezed(text)) <==> is_one_line(text),
    decreases text.len(),
{
    let rest = text.skip(1);
    if rest.len() == 0 {
        assert(squeezed(rest) =~= seq![]);
    } else {
        squeezed_keeps_one_line(rest);
        squeezed_keeps_ends(rest);
        one_line_from_second(text);
        if !(text[0] == REPLACEMENT && text[1] == REPLACEMENT) {
            assert(squeezed(text).skip(1) =~= squeezed(rest));
            one_line_from_second(squeezed(text));
        }
    }
}

/// The text of a line is a line, whatever its bytes: where they are not empty, and a line feed
/// stands at most at their end, so it is with every text that is like the marked one, and it ends in
/// a line feed exactly where they do.
pub proof fn text_of_a_line(bytes: Seq<u8>, text: Seq<char>)
    requires
        alike(text, marked_text(bytes)),
        bytes.len() > 0,
        forall|j: int| 0 <= j < bytes.len() - 1 ==> #[trigger] bytes[j] != NEWLINE,
    ensures
        is_one_line(text),
        text.last() == '\n' <==> bytes.last() == NEWLINE,
{
    marked_line_is_one_line(bytes);
    squeezed_keeps_ends(marked_text(bytes));
    squeezed_keeps_one_line(marked_text(bytes));
    assert(text.len() > 0);
    squeezed_keeps_ends(text);
    squeezed_keeps_one_line(text);
}

/// Where there are bytes there is text.
pub proof fn text_is_not_empty(bytes: Seq<u8>, text: Seq<char>)
    requires
        alike(text, marked_text(bytes)),
        bytes.len() > 0,
    ensures
        text.len() > 0,
{
    squeezed_keeps_ends(marked_text(bytes));
}

proof fn squeezed_after(a: Seq<char>, b: Seq<char>, c: Seq<char>)
    requires
        alike(b, c),
    ensures
        alike(a + b, a + c),
    decreases a.len(),
{
    if a.len() == 0 {
        assert(a + b =~= b);
        assert(a + c =~= c);
    } else {
        let rest = a.skip(1);
        squeezed_after(rest, b, c);
        assert((a + b).skip(1) =~= rest + b);
        assert((a + c).skip(1) =~= rest + c);
        if (rest + b).len() > 0 {
            squeezed_keeps_ends(rest + b);
        }
        if (rest + c).len() > 0 {
            squeezed_keeps_ends(rest + c);
        }
    }
}

proof fn squeezed_before(a: Seq<char>, b: Seq<char>)
    ensures
        squeezed(a + b) == squeezed(squeezed(a) + b),
    decreases a.len(),
{
    if a.len() == 0 {
        assert(squeezed(a) =~= a);
    } else {
        let rest = a.skip(1);
        let short = squeezed(rest);
        squeezed_before(rest, b);
        assert((a + b).skip(1) =~= rest + b);
        if (rest + b).len() > 0 {
            squeezed_keeps_ends(rest + b);
        }
        if (short + b).len() > 0 {
            squeezed_keeps_ends(short + b);
        }
        if rest.len() > 0 {
            squeezed_keeps_ends(rest);
        }
        if !(a.len() > 1 && a[0] == REPLACEMENT && a[1] == REPLACEMENT) {
            assert((squeezed(a) + b).skip(1) =~= short + b);
        }
    }
}

/// Texts that are alike, put behind each other, are alike.
pub proof fn alike_joins(a: Seq<char>, b: Seq<char>, s: Seq<char>, t: Seq<char>)
    requires
        alike(a, s),
        alike(b, t),
    ensures
        alike(a + b, s + t),
{
    squeezed_after(a, b, t);
    squeezed_before(a, t);
    squeezed_before(s, t);
}

} // verus!
