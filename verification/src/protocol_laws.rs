//! What lines mean, character by character: where words end, how bytes are
//! written and read, and what a line is made of.
use crate::fields::{lemma_split_free, split_on};
use crate::protocol::{
    decoded, encoded, escape, is_space, law_words_apart, line, parsed, repaired,
    text_of, texts, unescape, words,
};
use vstd::prelude::*;
use vstd::utf8::*;

verus! {

/// White space, by its code points.
pub open spec fn is_white(c: char) -> bool {
    let n = c as u32;
    n == 9 || n == 10 || n == 11 || n == 12 || n == 13 || n == 32 || n == 133 || n == 160 || n
        == 5760 || 8192 <= n <= 8202 || n == 8232 || n == 8233 || n == 8239 || n == 8287 || n
        == 12288
}

/// No white space occurs.
pub open spec fn is_unbroken(text: Seq<char>) -> bool {
    forall|i: int| 0 <= i < text.len() ==> !is_white(#[trigger] text[i])
}

/// White space alone separates words. A text without any, unless it is empty,
/// is one word; with white space between them, the words of two texts stand one
/// after the other; and a text has no word if and only if it is white space
/// throughout.
pub proof fn law_words(a: Seq<char>, c: char, b: Seq<char>)
    ensures
        words(Seq::empty()) == Seq::<Seq<char>>::empty(),
        a.len() > 0 && is_unbroken(a) ==> words(a) == seq![a],
        is_white(c) ==> words(a.push(c) + b) == words(a) + words(b),
        words(a).len() == 0 <==> forall|i: int| 0 <= i < a.len() ==> is_white(#[trigger] a[i]),
{
    lemma_no_words();
    if a.len() > 0 && is_unbroken(a) {
        lemma_one_word(a);
    }
    if is_white(c) {
        law_words_apart(a, c, b);
    }
    lemma_white(a);
}

proof fn lemma_no_words()
    ensures
        words(Seq::empty()) == Seq::<Seq<char>>::empty(),
{
    let none = Seq::<char>::empty();
    let full = |w: Seq<char>| w.len() > 0;
    assert(split_on(none, |c: char| is_space(c)) =~= Seq::<Seq<char>>::empty().push(none));
    Seq::<Seq<char>>::empty().lemma_filter_push(none, full);
}

proof fn lemma_one_word(a: Seq<char>)
    requires
        a.len() > 0,
        is_unbroken(a),
    ensures
        words(a) == seq![a],
{
    let space = |c: char| is_space(c);
    let full = |w: Seq<char>| w.len() > 0;
    lemma_split_free(a, space);
    assert(seq![a] =~= Seq::<Seq<char>>::empty().push(a));
    Seq::<Seq<char>>::empty().lemma_filter_push(a, full);
    assert(words(a) =~= seq![a]);
}

proof fn lemma_white(a: Seq<char>)
    ensures
        words(a).len() == 0 <==> forall|i: int| 0 <= i < a.len() ==> is_white(#[trigger] a[i]),
    decreases a.len(),
{
    let none = Seq::<char>::empty();
    lemma_no_words();
    if a.len() == 0 {
        assert(a =~= none);
    } else if exists|k: int| 0 <= k < a.len() && is_white(#[trigger] a[k]) {
        let k = choose|k: int| 0 <= k < a.len() && is_white(#[trigger] a[k]);
        let front = a.take(k);
        let back = a.skip(k + 1);
        assert(front.push(a[k]) + back =~= a);
        law_words_apart(front, a[k], back);
        lemma_white(front);
        lemma_white(back);
        if words(a).len() == 0 {
            assert forall|i: int| 0 <= i < a.len() implies is_white(#[trigger] a[i]) by {
                if i < k {
                    assert(front[i] == a[i]);
                } else if i > k {
                    assert(back[i - k - 1] == a[i]);
                }
            }
        }
        if forall|i: int| 0 <= i < a.len() ==> is_white(#[trigger] a[i]) {
            assert forall|i: int| 0 <= i < front.len() implies is_white(#[trigger] front[i]) by {
                assert(front[i] == a[i]);
            }
            assert forall|i: int| 0 <= i < back.len() implies is_white(#[trigger] back[i]) by {
                assert(back[i] == a[i + k + 1]);
            }
        }
    } else {
        assert(!is_white(a[0]));
        lemma_one_word(a);
    }
}

/// The first word of a line is the command, just as it stands; each further word
/// is an argument, decoded. White space before the command does not count.
pub proof fn law_parsed(text: Seq<char>, c: char, word: Seq<char>)
    requires
        is_white(c),
        word.len() > 0,
        is_unbroken(word),
    ensures
        parsed(Seq::empty()) == (Seq::<char>::empty(), Seq::<Seq<char>>::empty()),
        parsed(word) == (word, Seq::<Seq<char>>::empty()),
        parsed(text.push(c)) == parsed(text),
        (forall|i: int| 0 <= i < text.len() ==> is_white(#[trigger] text[i])) ==> parsed(
            text.push(c) + word,
        ) == (word, Seq::<Seq<char>>::empty()),
        (exists|i: int| 0 <= i < text.len() && !is_white(#[trigger] text[i])) ==> parsed(
            text.push(c) + word,
        ) == (parsed(text).0, parsed(text).1.push(decoded(word))),
{
    let none = Seq::<char>::empty();
    law_words(text, c, word);
    law_words(word, c, none);
    law_words(text, c, none);
    assert(text.push(c) + none =~= text.push(c));
    assert(words(text) + words(none) =~= words(text));
    let w = words(text);
    let dec = |x: Seq<char>| decoded(x);
    assert(seq![word].skip(1).map_values(dec) =~= Seq::empty());
    if w.len() == 0 {
        assert(w + seq![word] =~= seq![word]);
    } else {
        assert((w + seq![word]).skip(1).map_values(dec) =~= w.skip(1).map_values(dec).push(
            decoded(word),
        ));
    }
}

// ---------------------------------------------------------------------------
// Percent-encoding
// ---------------------------------------------------------------------------

/// How bytes are written: an ASCII letter or digit as it is, and any other byte
/// as `%` and two hexadecimal digits in upper case; one after the other.
pub proof fn law_escape(a: Seq<u8>, b: u8)
    ensures
        escape(Seq::empty()) == Seq::<u8>::empty(),
        (48u8 <= b <= 57u8 || 65u8 <= b <= 90u8 || 97u8 <= b <= 122u8) ==> escape(seq![b] + a)
            == seq![b] + escape(a),
        !(48u8 <= b <= 57u8 || 65u8 <= b <= 90u8 || 97u8 <= b <= 122u8) ==> ({
            let digits = seq![
                48u8,
                49u8,
                50u8,
                51u8,
                52u8,
                53u8,
                54u8,
                55u8,
                56u8,
                57u8,
                65u8,
                66u8,
                67u8,
                68u8,
                69u8,
                70u8,
            ];
            escape(seq![b] + a) == seq![37u8, digits[b as int / 16], digits[b as int % 16]]
                + escape(a)
        }),
{
    assert((seq![b] + a).drop_first() =~= a);
}

/// An encoded text holds, as characters, the written bytes of its UTF-8 form.
pub proof fn law_encoded(text: Seq<char>)
    ensures
        encoded(text).len() == escape(encode_utf8(text)).len(),
        forall|i: int|
            0 <= i < encoded(text).len() ==> #[trigger] encoded(text)[i] as u32 == escape(
                encode_utf8(text),
            )[i] as u32,
{
}

/// The value of a hexadecimal digit of either case.
pub open spec fn digit_value(b: u8) -> Option<int> {
    if 48u8 <= b <= 57u8 {
        Some(b - 48)
    } else if 65u8 <= b <= 70u8 {
        Some(b - 65 + 10)
    } else if 97u8 <= b <= 102u8 {
        Some(b - 97 + 10)
    } else {
        None
    }
}

/// How bytes are read: `%` and two hexadecimal digits as the byte with that
/// value, and any other byte as it is, also a `%` without two such digits.
pub proof fn law_unescape(a: Seq<u8>, b: u8, x: u8, y: u8)
    ensures
        unescape(Seq::empty()) == Seq::<u8>::empty(),
        b != 37u8 ==> unescape(seq![b] + a) == seq![b] + unescape(a),
        digit_value(x) is Some && digit_value(y) is Some ==> unescape(seq![37u8, x, y] + a)
            == seq![(digit_value(x)->0 * 16 + digit_value(y)->0) as u8] + unescape(a),
        digit_value(x) is None || digit_value(y) is None ==> unescape(seq![37u8, x, y] + a)
            == seq![37u8] + unescape(seq![x, y] + a),
        unescape(seq![37u8]) == seq![37u8],
        unescape(seq![37u8, x]) == seq![37u8] + unescape(seq![x]),
{
    reveal_with_fuel(unescape, 2);
    assert((seq![b] + a).drop_first() =~= a);
    assert((seq![37u8, x, y] + a).skip(3) =~= a);
    assert((seq![37u8, x, y] + a).drop_first() =~= seq![x, y] + a);
    assert(seq![37u8].drop_first() =~= Seq::empty());
    assert(seq![37u8, x].drop_first() =~= seq![x]);
    assert(seq![37u8] + Seq::<u8>::empty() =~= seq![37u8]);
}

/// A decoded word is the text whose UTF-8 form the read bytes are. Where they
/// are not UTF-8 it holds a replacement character. The same goes for the text of
/// bytes.
pub proof fn law_decoded(word: Seq<char>, bytes: Seq<u8>)
    ensures
        valid_utf8(unescape(encode_utf8(word))) ==> encode_utf8(decoded(word)) == unescape(
            encode_utf8(word),
        ),
        !valid_utf8(unescape(encode_utf8(word))) ==> decoded(word).contains('\u{FFFD}'),
        valid_utf8(bytes) ==> encode_utf8(text_of(bytes)) == bytes,
        !valid_utf8(bytes) ==> text_of(bytes).contains('\u{FFFD}'),
{
    let read = unescape(encode_utf8(word));
    if valid_utf8(read) {
        decode_utf8_encode_utf8(read);
    } else {
        let parts = crate::protocol::lossy_decoding(read);
        assert(repaired(parts)[parts.0.len() as int] == '\u{FFFD}');
    }
    if valid_utf8(bytes) {
        decode_utf8_encode_utf8(bytes);
    } else {
        let parts = crate::protocol::lossy_text(bytes);
        assert(repaired(parts)[parts.0.len() as int] == '\u{FFFD}');
    }
}

// ---------------------------------------------------------------------------
// Lines
// ---------------------------------------------------------------------------

/// A line is its command and, for each argument in turn, one space and the
/// encoded argument.
pub proof fn law_line(command: Seq<char>, args: Seq<Seq<char>>, arg: Seq<char>)
    ensures
        line(command, Seq::empty()) == command,
        line(command, args.push(arg)) == line(command, args) + seq![' '] + encoded(arg),
{
    assert(args.push(arg).drop_last() =~= args);
    assert(line(command, args.push(arg)) =~= line(command, args) + seq![' '] + encoded(arg));
}

/// The texts of strings are theirs, each in its place.
pub proof fn law_texts(strings: Seq<String>)
    ensures
        texts(strings).len() == strings.len(),
        forall|i: int| 0 <= i < strings.len() ==> #[trigger] texts(strings)[i] == strings[i]@,
{
}

} // verus!
