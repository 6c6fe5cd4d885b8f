//! The line protocol: words separated by white space, the first of which is a
//! command; every further word is percent-encoded.
use crate::fields::{free_of, lemma_split_concat, lemma_split_fields, lemma_split_free, split_on};
use percent_encoding::{percent_decode_str, utf8_percent_encode, NON_ALPHANUMERIC};
use vstd::prelude::*;
use vstd::string::*;
use vstd::utf8::*;

verus! {

/// The texts of a sequence of strings.
pub open spec fn texts(strings: Seq<String>) -> Seq<Seq<char>> {
    strings.map_values(|s: String| s@)
}

// ---------------------------------------------------------------------------
// Percent-encoding
// ---------------------------------------------------------------------------

/// An ASCII letter or digit.
pub open spec fn is_alphanumeric(b: u8) -> bool {
    ||| 48 <= b <= 57
    ||| 65 <= b <= 90
    ||| 97 <= b <= 122
}

/// The upper-case hexadecimal digit, as an ASCII code, for a value below 16.
pub open spec fn hex_digit(n: int) -> u8 {
    if n < 10 {
        (48 + n) as u8
    } else {
        (55 + n) as u8
    }
}

/// The value of a hexadecimal digit of either case, given as an ASCII code.
pub open spec fn hex_value(b: u8) -> Option<int> {
    if 48 <= b <= 57 {
        Some(b - 48)
    } else if 65 <= b <= 70 {
        Some(b - 55)
    } else if 97 <= b <= 102 {
        Some(b - 87)
    } else {
        None
    }
}

/// A byte as it is written: an ASCII letter or digit stands for itself, any
/// other byte is a percent sign (37) and two hexadecimal digits.
pub open spec fn escape_byte(b: u8) -> Seq<u8> {
    if is_alphanumeric(b) {
        seq![b]
    } else {
        seq![37u8, hex_digit(b as int / 16), hex_digit(b as int % 16)]
    }
}

/// Bytes as they are written, one after the other.
pub open spec fn escape(bytes: Seq<u8>) -> Seq<u8>
    decreases bytes.len(),
{
    if bytes.len() == 0 {
        Seq::empty()
    } else {
        escape_byte(bytes[0]) + escape(bytes.drop_first())
    }
}

/// A percent sign with two hexadecimal digits behind it is the byte with that
/// value; any other byte, a percent sign included, stands for itself.
pub open spec fn unescape(bytes: Seq<u8>) -> Seq<u8>
    decreases bytes.len(),
{
    if bytes.len() == 0 {
        Seq::empty()
    } else if bytes.len() >= 3 && bytes[0] == 37 && hex_value(bytes[1]) is Some && hex_value(
        bytes[2],
    ) is Some {
        seq![(hex_value(bytes[1])->0 * 16 + hex_value(bytes[2])->0) as u8] + unescape(bytes.skip(3))
    } else {
        seq![bytes[0]] + unescape(bytes.drop_first())
    }
}

/// The percent-encoding of a text.
pub open spec fn encoded(text: Seq<char>) -> Seq<char> {
    escape(encode_utf8(text)).map_values(|b: u8| b as char)
}

/// What `PercentDecode::decode_utf8_lossy` makes of decoded bytes that are not
/// UTF-8: the text before the first replacement character, and that behind it.
pub uninterp spec fn lossy_decoding(bytes: Seq<u8>) -> (Seq<char>, Seq<char>);

/// What `String::from_utf8_lossy` makes of bytes that are not UTF-8: the text
/// before the first replacement character, and that behind it.
pub uninterp spec fn lossy_text(bytes: Seq<u8>) -> (Seq<char>, Seq<char>);

/// The text with a replacement character between two parts.
pub open spec fn repaired(parts: (Seq<char>, Seq<char>)) -> Seq<char> {
    parts.0.push('\u{FFFD}') + parts.1
}

/// The text that a percent-encoded word stands for: the one that its decoded
/// bytes encode in UTF-8 or, where they encode none, a repaired one.
pub open spec fn decoded(word: Seq<char>) -> Seq<char> {
    let bytes = unescape(encode_utf8(word));
    if valid_utf8(bytes) {
        decode_utf8(bytes)
    } else {
        repaired(lossy_decoding(bytes))
    }
}

/// The text that bytes stand for: the one that they encode in UTF-8 or, where
/// they encode none, a repaired one.
pub open spec fn text_of(bytes: Seq<u8>) -> Seq<char> {
    if valid_utf8(bytes) {
        decode_utf8(bytes)
    } else {
        repaired(lossy_text(bytes))
    }
}

/// Calls `percent_encoding::utf8_percent_encode` with `NON_ALPHANUMERIC`.
///
/// Trusted: every byte of the UTF-8 form of `value` that is an ASCII letter or
/// digit is written as it is, and every other one as `%` and its two upper-case
/// hexadecimal digits.
#[verifier::external_body]
fn percent_encode_text(value: &str) -> (r: String)
    ensures
        r@ == encoded(value@),
{
    utf8_percent_encode(value, NON_ALPHANUMERIC).to_string()
}

/// Calls `percent_encoding::percent_decode_str`, and `decode_utf8_lossy` on what
/// it returns.
///
/// Trusted: each `%` with two hexadecimal digits behind it becomes the byte with
/// that value, and all other bytes stay. Where the bytes are then UTF-8 the
/// result is the text that they encode. Where they are not, it depends on these
/// bytes alone and holds a replacement character, U+FFFD, since one takes the
/// place of each sequence that is not UTF-8; which sequences these are is left
/// unsaid.
#[verifier::external_body]
fn percent_decode_text(value: &str) -> (r: String)
    ensures
        valid_utf8(unescape(encode_utf8(value@))) ==> r@ == decode_utf8(
            unescape(encode_utf8(value@)),
        ),
        !valid_utf8(unescape(encode_utf8(value@))) ==> r@ == repaired(
            lossy_decoding(unescape(encode_utf8(value@))),
        ),
{
    percent_decode_str(value).decode_utf8_lossy().into_owned()
}

/// Calls `String::from_utf8_lossy`.
///
/// Trusted: bytes that are UTF-8 become the text that they encode. What becomes
/// of other bytes depends on them alone and holds a replacement character,
/// U+FFFD, since one takes the place of each sequence that is not UTF-8; which
/// sequences these are is left unsaid.
#[verifier::external_body]
pub(crate) fn bytes_to_text(bytes: &[u8]) -> (r: String)
    ensures
        valid_utf8(bytes@) ==> r@ == decode_utf8(bytes@),
        !valid_utf8(bytes@) ==> r@ == repaired(lossy_text(bytes@)),
{
    String::from_utf8_lossy(bytes).into_owned()
}

/// Percent-encodes `value`.
pub fn encode(value: &str) -> (r: String)
    ensures
        r@ == encoded(value@),
{
    percent_encode_text(value)
}

/// Decodes one percent-encoded word.
pub fn decode(value: &str) -> (r: String)
    ensures
        r@ == decoded(value@),
{
    percent_decode_text(value)
}

// ---------------------------------------------------------------------------
// Words
// ---------------------------------------------------------------------------

/// The characters with the Unicode property `White_Space`.
pub open spec fn is_space(c: char) -> bool {
    let n = c as u32;
    ||| 0x9 <= n <= 0xD
    ||| n == 0x20
    ||| n == 0x85
    ||| n == 0xA0
    ||| n == 0x1680
    ||| 0x2000 <= n <= 0x200A
    ||| n == 0x2028
    ||| n == 0x2029
    ||| n == 0x202F
    ||| n == 0x205F
    ||| n == 0x3000
}

/// `char::is_whitespace`.
///
/// Trusted: it holds of the characters with the Unicode property `White_Space`
/// and of no others.
pub assume_specification[ char::is_whitespace ](c: char) -> (b: bool)
    ensures
        b == is_space(c),
;

/// The words of a text: what stands between white space and is not empty.
pub open spec fn words(text: Seq<char>) -> Seq<Seq<char>> {
    split_on(text, |c: char| is_space(c)).filter(|w: Seq<char>| w.len() > 0)
}

/// The command and the arguments that a line holds. A line without any word
/// has the empty command.
pub open spec fn parsed(line: Seq<char>) -> (Seq<char>, Seq<Seq<char>>) {
    let w = words(line);
    if w.len() == 0 {
        (Seq::empty(), Seq::empty())
    } else {
        (w[0], w.skip(1).map_values(|x: Seq<char>| decoded(x)))
    }
}

/// Splits a text at white space.
fn split_words(input: &str) -> (r: Vec<String>)
    ensures
        texts(r@) == words(input@),
{
    let mut out: Vec<String> = Vec::new();
    let mut start: usize = 0;
    let len: usize = input.unicode_len();
    let mut i: usize = 0;
    let ghost space = |c: char| is_space(c);
    let ghost full = |w: Seq<char>| w.len() > 0;
    assert(texts(out@) =~= Seq::<Seq<char>>::empty());
    assert(split_on(input@.take(0), space).drop_last() =~= Seq::<Seq<char>>::empty());
    for c in it: input.chars()
        invariant
            space == (|c: char| is_space(c)),
            full == (|w: Seq<char>| w.len() > 0),
            len == input@.len(),
            it.seq() == input@,
            i == it.index(),
            start <= i <= len,
            split_on(input@.take(i as int), space).len() > 0,
            split_on(input@.take(i as int), space).last() == input@.subrange(
                start as int,
                i as int,
            ),
            texts(out@) == split_on(input@.take(i as int), space).drop_last().filter(full),
    {
        let ghost before = split_on(input@.take(i as int), space);
        let ghost after = split_on(input@.take(i + 1), space);
        assert(input@.take(i + 1).drop_last() =~= input@.take(i as int));
        assert(input@.take(i + 1).last() == c);
        if c.is_whitespace() {
            assert(after.drop_last() =~= before);
            assert(before =~= before.drop_last().push(before.last()));
            proof {
                before.drop_last().lemma_filter_push(before.last(), full);
            }
            if start < i {
                let word = input.substring_char(start, i).to_owned();
                let ghost old_out = out@;
                out.push(word);
                assert(texts(out@) =~= texts(old_out).push(word@));
            }
            i = i + 1;
            start = i;
            assert(after.last() =~= input@.subrange(start as int, i as int));
        } else {
            assert(after.drop_last() =~= before.drop_last());
            i = i + 1;
            assert(after.last() =~= input@.subrange(start as int, i as int));
        }
    }
    let ghost fields = split_on(input@, space);
    assert(input@.take(i as int) =~= input@);
    assert(fields =~= fields.drop_last().push(fields.last()));
    proof {
        fields.drop_last().lemma_filter_push(fields.last(), full);
    }
    if start < len {
        let word = input.substring_char(start, len).to_owned();
        let ghost old_out = out@;
        out.push(word);
        assert(texts(out@) =~= texts(old_out).push(word@));
    }
    out
}

/// Reads one line: its command, taken as it stands, and its decoded arguments.
pub fn parse_input(input: &str) -> (r: (String, Vec<String>))
    ensures
        (r.0@, texts(r.1@)) == parsed(input@),
{
    let parts = split_words(input);
    assert(texts(parts@).len() == parts@.len());
    let mut args: Vec<String> = Vec::new();
    if parts.len() == 0 {
        assert(texts(args@) =~= Seq::<Seq<char>>::empty());
        return (String::new(), args);
    }
    let command = parts[0].clone();
    let ghost expected = words(input@).skip(1).map_values(|x: Seq<char>| decoded(x));
    let mut i: usize = 1;
    while i < parts.len()
        invariant
            1 <= i <= parts@.len(),
            texts(parts@) == words(input@),
            expected == words(input@).skip(1).map_values(|x: Seq<char>| decoded(x)),
            texts(args@) =~= expected.take(i - 1),
        decreases parts.len() - i,
    {
        let arg = decode(parts[i].as_str());
        let ghost old_args = args@;
        args.push(arg);
        assert(texts(parts@)[i as int] == parts@[i as int]@);
        assert(expected[i - 1] == decoded(words(input@)[i as int]));
        assert(texts(args@) =~= texts(old_args).push(arg@));
        i = i + 1;
    }
    assert(expected.take(i - 1) =~= expected);
    assert(texts(parts@)[0] == parts@[0]@);
    (command, args)
}

/// The line that a command and its arguments are written as.
pub open spec fn line(command: Seq<char>, args: Seq<Seq<char>>) -> Seq<char>
    decreases args.len(),
{
    if args.len() == 0 {
        command
    } else {
        line(command, args.drop_last()).push(' ') + encoded(args.last())
    }
}

/// Writes a command and its arguments as one line, without the line's end.
pub fn format_line(command: &str, args: &Vec<String>) -> (r: String)
    ensures
        r@ == line(command@, texts(args@)),
{
    let mut output = command.to_owned();
    let mut i: usize = 0;
    assert(texts(args@).take(0) =~= Seq::<Seq<char>>::empty());
    while i < args.len()
        invariant
            i <= args@.len(),
            output@ == line(command@, texts(args@).take(i as int)),
        decreases args.len() - i,
    {
        proof {
            reveal_strlit(" ");
        }
        let word = encode(args[i].as_str());
        output.append(" ");
        output.append(word.as_str());
        let ghost next = texts(args@).take(i + 1);
        assert(next.drop_last() =~= texts(args@).take(i as int));
        assert(next.last() == args@[i as int]@);
        assert(output@ =~= line(command@, next));
        i = i + 1;
    }
    assert(texts(args@).take(i as int) =~= texts(args@));
    output
}

// ---------------------------------------------------------------------------
// Laws
// ---------------------------------------------------------------------------

/// Undoing the escapes of escaped bytes gives the bytes back.
pub proof fn lemma_unescape_escape(bytes: Seq<u8>)
    ensures
        unescape(escape(bytes)) == bytes,
    decreases bytes.len(),
{
    if bytes.len() > 0 {
        let b = bytes[0];
        let rest = escape(bytes.drop_first());
        let whole = escape(bytes);
        lemma_unescape_escape(bytes.drop_first());
        assert(seq![b] + bytes.drop_first() =~= bytes);
        if is_alphanumeric(b) {
            assert(whole[0] == b);
            assert(whole.drop_first() =~= rest);
        } else {
            assert(whole[0] == 37 && whole[1] == hex_digit(b as int / 16) && whole[2] == hex_digit(
                b as int % 16,
            ));
            assert(whole.skip(3) =~= rest);
        }
    } else {
        assert(bytes =~= Seq::empty());
    }
}

/// Escaped bytes are ASCII letters, digits and percent signs.
pub proof fn lemma_escape_alphabet(bytes: Seq<u8>)
    ensures
        forall|i: int|
            0 <= i < escape(bytes).len() ==> is_alphanumeric(#[trigger] escape(bytes)[i])
                || escape(bytes)[i] == 37,
        bytes.len() > 0 ==> escape(bytes).len() > 0,
    decreases bytes.len(),
{
    if bytes.len() > 0 {
        let rest = escape(bytes.drop_first());
        let head = escape_byte(bytes[0]);
        lemma_escape_alphabet(bytes.drop_first());
        assert forall|i: int| 0 <= i < escape(bytes).len() implies is_alphanumeric(
            #[trigger] escape(bytes)[i],
        ) || escape(bytes)[i] == 37 by {
            if i >= head.len() {
                assert(escape(bytes)[i] == rest[i - head.len()]);
            }
        }
    }
}

/// An encoded text holds ASCII letters, digits and percent signs only. It is
/// empty only where the text is.
pub proof fn law_encoded_alphabet(text: Seq<char>)
    ensures
        forall|i: int|
            0 <= i < encoded(text).len() ==> {
                let c = #[trigger] encoded(text)[i];
                c == '%' || '0' <= c <= '9' || 'A' <= c <= 'Z' || 'a' <= c <= 'z'
            },
        text.len() > 0 <==> encoded(text).len() > 0,
{
    lemma_escape_alphabet(encode_utf8(text));
    if text.len() > 0 {
        assert(encode_utf8(text).len() > 0);
    }
}

/// The UTF-8 form of an encoded text is the escaped UTF-8 form of the text.
proof fn lemma_encoded_bytes(text: Seq<char>)
    ensures
        encode_utf8(encoded(text)) == escape(encode_utf8(text)),
{
    law_encoded_alphabet(text);
    lemma_escape_alphabet(encode_utf8(text));
    assert(is_ascii_chars(encoded(text)));
    is_ascii_chars_encode_utf8(encoded(text));
    assert forall|i: int| 0 <= i < encoded(text).len() implies encode_utf8(encoded(text))[i]
        == escape(encode_utf8(text))[i] by {
        let b = escape(encode_utf8(text))[i];
        assert(encoded(text)[i] == b as char);
        assert(b < 128);
        assert((b as char) as u8 == b);
    }
    assert(encode_utf8(encoded(text)) =~= escape(encode_utf8(text)));
}

/// Decoding an encoded text gives the text back.
pub proof fn law_decode_encode(text: Seq<char>)
    ensures
        decoded(encoded(text)) == text,
{
    lemma_encoded_bytes(text);
    lemma_unescape_escape(encode_utf8(text));
    encode_utf8_valid_utf8(text);
    encode_utf8_decode_utf8(text);
}

/// Two texts with the same encoding are the same text.
pub proof fn law_encode_injective(a: Seq<char>, b: Seq<char>)
    requires
        encoded(a) == encoded(b),
    ensures
        a == b,
{
    law_decode_encode(a);
    law_decode_encode(b);
}

/// The words of a line: its command and its encoded arguments.
proof fn lemma_words_of_line(command: Seq<char>, args: Seq<Seq<char>>)
    requires
        command.len() > 0,
        free_of(command, |c: char| is_space(c)),
        forall|i: int| 0 <= i < args.len() ==> (#[trigger] args[i]).len() > 0,
    ensures
        words(line(command, args)) == seq![command] + args.map_values(|a: Seq<char>| encoded(a)),
    decreases args.len(),
{
    let space = |c: char| is_space(c);
    let full = |w: Seq<char>| w.len() > 0;
    if args.len() == 0 {
        lemma_split_free(command, space);
        assert(Seq::<Seq<char>>::empty().push(command) =~= seq![command]);
        Seq::<Seq<char>>::empty().lemma_filter_push(command, full);
        assert(Seq::<Seq<char>>::empty().filter(full) =~= Seq::<Seq<char>>::empty());
        assert(seq![command] + args.map_values(|a: Seq<char>| encoded(a)) =~= seq![command]);
    } else {
        let front = line(command, args.drop_last());
        let word = encoded(args.last());
        assert(args.last() == args[args.len() - 1]);
        assert forall|i: int| 0 <= i < args.drop_last().len() implies (
        #[trigger] args.drop_last()[i]).len() > 0 by {
            assert(args.drop_last()[i] == args[i]);
        }
        lemma_words_of_line(command, args.drop_last());
        law_encoded_alphabet(args.last());
        assert(free_of(word, space));
        lemma_split_free(word, space);
        lemma_split_concat(front, ' ', word, space);
        assert(split_on(front, space) + seq![word] =~= split_on(front, space).push(word));
        split_on(front, space).lemma_filter_push(word, full);
        assert(args.map_values(|a: Seq<char>| encoded(a)) =~= args.drop_last().map_values(
            |a: Seq<char>| encoded(a),
        ).push(word));
        assert(words(line(command, args)) =~= seq![command] + args.map_values(
            |a: Seq<char>| encoded(a),
        ));
    }
}

/// White space between two texts keeps their words apart.
pub proof fn law_words_apart(a: Seq<char>, c: char, b: Seq<char>)
    requires
        is_space(c),
    ensures
        words(a.push(c) + b) == words(a) + words(b),
{
    let space = |c: char| is_space(c);
    let full = |w: Seq<char>| w.len() > 0;
    lemma_split_concat(a, c, b, space);
    Seq::filter_distributes_over_add(split_on(a, space), split_on(b, space), full);
}

/// White space at the beginning or at the end of a text adds no word.
pub proof fn law_words_ignore_outer_space(text: Seq<char>, c: char)
    requires
        is_space(c),
    ensures
        words(text.push(c)) == words(text),
        words(seq![c] + text) == words(text),
        parsed(text.push(c)) == parsed(text),
        parsed(seq![c] + text) == parsed(text),
{
    let none = Seq::<char>::empty();
    let full = |w: Seq<char>| w.len() > 0;
    assert(split_on(none, |c: char| is_space(c)) =~= Seq::<Seq<char>>::empty().push(none));
    Seq::<Seq<char>>::empty().lemma_filter_push(none, full);
    assert(words(none) =~= Seq::empty());
    law_words_apart(text, c, none);
    law_words_apart(none, c, text);
    assert(text.push(c) + none =~= text.push(c));
    assert(none.push(c) + text =~= seq![c] + text);
    assert(words(text) + words(none) =~= words(text));
    assert(words(none) + words(text) =~= words(text));
}

/// No word is empty or holds white space.
pub proof fn law_words_are_words(text: Seq<char>)
    ensures
        forall|i: int|
            0 <= i < words(text).len() ==> (#[trigger] words(text)[i]).len() > 0 && free_of(
                words(text)[i],
                |c: char| is_space(c),
            ),
{
    let space = |c: char| is_space(c);
    let full = |w: Seq<char>| w.len() > 0;
    let fields = split_on(text, space);
    lemma_split_fields(text, space);
    assert forall|i: int| 0 <= i < words(text).len() implies (#[trigger] words(text)[i]).len() > 0
        && free_of(words(text)[i], space) by {
        fields.lemma_filter_pred(full, i);
        fields.lemma_filter_contains_rev(full, words(text)[i]);
        let k = choose|k: int| 0 <= k < fields.len() && fields[k] == words(text)[i];
        assert(free_of(fields[k], space));
    }
}

/// Bytes stand for the empty text only where there are none.
pub proof fn law_text_of_bytes(bytes: Seq<u8>)
    ensures
        text_of(bytes).len() == 0 <==> bytes.len() == 0,
{
    if bytes.len() > 0 && valid_utf8(bytes) {
        decode_utf8_first_scalar(bytes);
    }
}

/// No argument of a line is empty.
pub proof fn law_arguments_are_not_empty(text: Seq<char>)
    ensures
        forall|i: int| 0 <= i < parsed(text).1.len() ==> (#[trigger] parsed(text).1[i]).len() > 0,
{
    let w = words(text);
    law_words_are_words(text);
    assert forall|i: int| 0 <= i < parsed(text).1.len() implies (
    #[trigger] parsed(text).1[i]).len() > 0 by {
        let word = w[i + 1];
        assert(parsed(text).1[i] == decoded(word));
        assert(encode_utf8(word).len() > 0);
        let bytes = unescape(encode_utf8(word));
        assert(bytes.len() > 0);
        if valid_utf8(bytes) {
            decode_utf8_first_scalar(bytes);
        }
    }
}

/// What is written is read back: a line made of a command and of arguments
/// that are not empty parses into that command and those arguments, whether
/// or not a newline ends it. An empty argument leaves no word behind.
pub proof fn law_parse_line(command: Seq<char>, args: Seq<Seq<char>>)
    requires
        command.len() > 0,
        free_of(command, |c: char| is_space(c)),
        forall|i: int| 0 <= i < args.len() ==> (#[trigger] args[i]).len() > 0,
    ensures
        parsed(line(command, args)) == (command, args),
        parsed(line(command, args).push('\n')) == (command, args),
{
    lemma_words_of_line(command, args);
    let w = words(line(command, args));
    let encodings = args.map_values(|a: Seq<char>| encoded(a));
    assert(w.skip(1) =~= encodings);
    let back = w.skip(1).map_values(|x: Seq<char>| decoded(x));
    assert forall|i: int| 0 <= i < args.len() implies back[i] == args[i] by {
        law_decode_encode(args[i]);
    }
    assert(back =~= args);
    law_words_ignore_outer_space(line(command, args), '\n');
}

} // verus!
