//! Text helpers: slices of UTF-8 text, trimming, quoting and decimal digits.
use vstd::prelude::*;
use vstd::string::*;
use vstd::utf8::*;

verus! {

/// The characters that the bytes `from..to` of a UTF-8 text encode.
pub open spec fn text_between(bytes: Seq<u8>, from: int, to: int) -> Seq<char> {
    decode_utf8(bytes.subrange(from, to))
}

/// A position before an ASCII byte, and the one after it, are character boundaries.
pub proof fn lemma_ascii_boundaries(bytes: Seq<u8>, at: int)
    requires
        valid_utf8(bytes),
        0 <= at < bytes.len(),
        bytes[at] < 0x80,
    ensures
        is_char_boundary(bytes, at),
        is_char_boundary(bytes, at + 1),
{
    is_char_boundary_iff_not_is_continuation_byte(bytes, at);
    let rest = bytes.subrange(at, bytes.len() as int);
    valid_utf8_split(bytes, at);
    assert(rest[0] == bytes[at]);
    let after = pop_first_scalar(rest);
    assert(valid_utf8(after));
    if at + 1 < bytes.len() {
        assert(after[0] == bytes[at + 1]);
        assert(valid_first_scalar(after));
        is_char_boundary_iff_not_is_continuation_byte(bytes, at + 1);
    } else {
        is_char_boundary_start_end_of_seq(bytes);
    }
}

/// The bytes between two character boundaries are valid UTF-8.
pub proof fn lemma_slice_valid(bytes: Seq<u8>, from: int, to: int)
    requires
        valid_utf8(bytes),
        0 <= from <= to <= bytes.len(),
        is_char_boundary(bytes, from),
        is_char_boundary(bytes, to),
    ensures
        valid_utf8(bytes.subrange(from, to)),
        valid_utf8(bytes.subrange(0, to)),
        is_char_boundary(bytes.subrange(0, to), from),
{
    let head = bytes.subrange(0, to);
    valid_utf8_split(bytes, to);
    if from < to {
        is_char_boundary_iff_not_is_continuation_byte(bytes, from);
        assert(head[from] == bytes[from]);
        is_char_boundary_iff_not_is_continuation_byte(head, from);
    } else {
        is_char_boundary_start_end_of_seq(head);
    }
    valid_utf8_split(head, from);
    assert(head.subrange(from, to) =~= bytes.subrange(from, to));
}

/// The part of `s` between two byte offsets that are character boundaries.
pub fn slice_text(s: &str, from: usize, to: usize) -> (r: &str)
    requires
        from <= to <= s.spec_bytes().len(),
        is_char_boundary(s.spec_bytes(), from as int),
        is_char_boundary(s.spec_bytes(), to as int),
    ensures
        r.spec_bytes() == s.spec_bytes().subrange(from as int, to as int),
        r@ == text_between(s.spec_bytes(), from as int, to as int),
{
    let ghost bytes = s.spec_bytes();
    proof {
        encode_utf8_valid_utf8(s@);
        lemma_slice_valid(bytes, from as int, to as int);
    }
    let (head, _) = s.split_at(to);
    let (_, r) = head.split_at(from);
    proof {
        assert(bytes.subrange(0, to as int).subrange(from as int, to as int) =~= bytes.subrange(from as int, to as int));
        encode_utf8_decode_utf8(r@);
    }
    r
}

/// Whether a character has the Unicode property White_Space.
pub open spec fn is_white_space(c: char) -> bool {
    let n = c as u32;
    ||| 0x9 <= n <= 0xd
    ||| n == 0x20
    ||| n == 0x85
    ||| n == 0xa0
    ||| n == 0x1680
    ||| 0x2000 <= n <= 0x200a
    ||| n == 0x2028
    ||| n == 0x2029
    ||| n == 0x202f
    ||| n == 0x205f
    ||| n == 0x3000
}

/// `s` without its leading white space.
pub open spec fn trimmed_start(s: Seq<char>) -> Seq<char>
    decreases s.len(),
{
    if s.len() > 0 && is_white_space(s[0]) {
        trimmed_start(s.drop_first())
    } else {
        s
    }
}

/// `s` without its trailing white space.
pub open spec fn trimmed_end(s: Seq<char>) -> Seq<char>
    decreases s.len(),
{
    if s.len() > 0 && is_white_space(s.last()) {
        trimmed_end(s.drop_last())
    } else {
        s
    }
}

/// `s` without white space at either end.
pub open spec fn trimmed(s: Seq<char>) -> Seq<char> {
    trimmed_end(trimmed_start(s))
}

/// `str::trim`: removes the leading and the trailing characters that have
/// the Unicode property White_Space, and nothing else.
pub assume_specification[ str::trim ](s: &str) -> (r: &str)
    ensures
        r@ == trimmed(s@),
;

/// `String::push`: appends one character.
pub assume_specification[ std::string::String::push ](s: &mut std::string::String, c: char)
    ensures
        final(s)@ == old(s)@.push(c),
;

/// Whether `s` begins with `prefix`.
pub open spec fn begins_with(s: Seq<char>, prefix: Seq<char>) -> bool {
    prefix.is_prefix_of(s)
}

/// Whether `s` begins with `prefix`.
pub fn has_prefix(s: &str, prefix: &str) -> (r: bool)
    ensures
        r == begins_with(s@, prefix@),
{
    let n: usize = prefix.unicode_len();
    if s.unicode_len() < n {
        return false;
    }
    let mut i: usize = 0;
    while i < n
        invariant
            i <= n == prefix@.len() <= s@.len(),
            forall|k: int| 0 <= k < i ==> s@[k] == prefix@[k],
        decreases n - i,
    {
        if s.get_char(i) != prefix.get_char(i) {
            assert(s@.take(n as int)[i as int] != prefix@[i as int]);
            return false;
        }
        i += 1;
    }
    assert(s@.take(n as int) =~= prefix@);
    true
}

/// A character as it stands inside a double-quoted string literal.
pub open spec fn escaped_char(c: char) -> Seq<char> {
    if c == '\\' {
        seq!['\\', '\\']
    } else if c == '"' {
        seq!['\\', '"']
    } else {
        seq![c]
    }
}

/// `s` with every backslash and every double quote preceded by a backslash.
pub open spec fn escaped(s: Seq<char>) -> Seq<char>
    decreases s.len(),
{
    if s.len() == 0 {
        seq![]
    } else {
        escaped(s.drop_last()) + escaped_char(s.last())
    }
}

/// `s` as a double-quoted string literal.
pub open spec fn quoted(s: Seq<char>) -> Seq<char> {
    seq!['"'] + escaped(s) + seq!['"']
}

/// `s` as a double-quoted string literal.
pub fn quote(s: &str) -> (r: String)
    ensures
        r@ == quoted(s@),
{
    let mut r = String::new();
    r.push('"');
    for c in it: s.chars()
        invariant
            it.seq() == s@,
            r@ == seq!['"'] + escaped(s@.take(it.index())),
    {
        assert(s@.take(it.index() + 1).drop_last() =~= s@.take(it.index()));
        if c == '\\' || c == '"' {
            r.push('\\');
        }
        r.push(c);
        assert(r@ =~= seq!['"'] + escaped(s@.take(it.index() + 1)));
    }
    assert(s@.take(s@.len() as int) =~= s@);
    r.push('"');
    r
}

/// The decimal digit of a number below ten.
pub open spec fn digit(d: nat) -> char {
    (48 + d) as char
}

/// A natural number in decimal, without leading zeros.
pub open spec fn decimal(n: nat) -> Seq<char>
    decreases n,
{
    if n < 10 {
        seq![digit(n)]
    } else {
        decimal(n / 10).push(digit(n % 10))
    }
}

/// An integer in decimal, with a minus sign before a negative one.
pub open spec fn signed_decimal(n: int) -> Seq<char> {
    if n < 0 {
        seq!['-'] + decimal((-n) as nat)
    } else {
        decimal(n as nat)
    }
}

/// Appends a number in decimal.
pub fn append_decimal(out: &mut String, n: u64)
    ensures
        final(out)@ == old(out)@ + decimal(n as nat),
    decreases n,
{
    if n >= 10 {
        append_decimal(out, n / 10);
    }
    out.push((48 + (n % 10) as u8) as char);
    assert(out@ =~= old(out)@ + decimal(n as nat));
}

/// An unsigned number in decimal.
pub fn unsigned_text(n: u64) -> (r: String)
    ensures
        r@ == decimal(n as nat),
{
    let mut r = String::new();
    append_decimal(&mut r, n);
    assert(r@ =~= decimal(n as nat));
    r
}

/// A signed number in decimal.
pub fn signed_text(n: i64) -> (r: String)
    ensures
        r@ == signed_decimal(n as int),
{
    let mut r = String::new();
    if n < 0 {
        r.push('-');
        append_decimal(&mut r, (-(n + 1)) as u64 + 1);
    } else {
        append_decimal(&mut r, n as u64);
    }
    assert(r@ =~= signed_decimal(n as int));
    r
}

/// The two truth values in words.
pub open spec fn truth(b: bool) -> Seq<char> {
    if b {
        "true"@
    } else {
        "false"@
    }
}

/// The two truth values in words.
pub fn truth_text(b: bool) -> (r: String)
    ensures
        r@ == truth(b),
{
    if b {
        "true".to_owned()
    } else {
        "false".to_owned()
    }
}

/// A string literal's inside with the escapes undone.
pub open spec fn unescaped(s: Seq<char>) -> Seq<char>
    decreases s.len(),
{
    if s.len() == 0 {
        seq![]
    } else if s[0] == '\\' && s.len() >= 2 {
        seq![s[1]] + unescaped(s.skip(2))
    } else {
        seq![s[0]] + unescaped(s.skip(1))
    }
}

/// Escaping goes character by character.
proof fn lemma_escaped_first(s: Seq<char>)
    requires
        s.len() > 0,
    ensures
        escaped(s) == escaped_char(s[0]) + escaped(s.drop_first()),
    decreases s.len(),
{
    if s.len() > 1 {
        lemma_escaped_first(s.drop_last());
        assert(s.drop_last().drop_first() =~= s.drop_first().drop_last());
    } else {
        assert(s.drop_last() =~= seq![]);
        assert(s.drop_first() =~= seq![]);
    }
    assert(escaped(s) =~= escaped_char(s[0]) + escaped(s.drop_first()));
}

/// Quoting loses nothing: undoing the escapes gives the text back.
pub proof fn law_quoting_loses_nothing(s: Seq<char>)
    ensures
        unescaped(escaped(s)) == s,
    decreases s.len(),
{
    if s.len() > 0 {
        let rest = s.drop_first();
        law_quoting_loses_nothing(rest);
        lemma_escaped_first(s);
        let e = escaped(s);
        let n = escaped_char(s[0]).len() as int;
        assert(e.skip(n) =~= escaped(rest));
        assert(unescaped(e) =~= seq![s[0]] + unescaped(e.skip(n)));
        assert(seq![s[0]] + rest =~= s);
    } else {
        assert(s =~= seq![]);
    }
}

/// Encoding goes character by character: two texts one after the other are
/// their bytes one after the other.
pub proof fn lemma_encode_concat(a: Seq<char>, b: Seq<char>)
    ensures
        encode_utf8(a + b) == encode_utf8(a) + encode_utf8(b),
    decreases a.len(),
{
    if a.len() == 0 {
        assert(a + b =~= b);
        assert(encode_utf8(a) + encode_utf8(b) =~= encode_utf8(b));
    } else {
        let rest = a.drop_first();
        lemma_encode_concat(rest, b);
        assert((a + b).drop_first() =~= rest + b);
        assert((a + b)[0] == a[0]);
        assert(encode_utf8(a + b) =~= encode_utf8(a) + encode_utf8(b));
    }
}

/// The bytes of one text inside three in a row are that text.
pub proof fn lemma_middle_text(before: Seq<u8>, middle: Seq<char>, after: Seq<u8>)
    ensures
        text_between(
            before + encode_utf8(middle) + after,
            before.len() as int,
            (before.len() + encode_utf8(middle).len()) as int,
        ) == middle,
{
    let inside = encode_utf8(middle);
    let whole = before + inside + after;
    assert(whole.subrange(before.len() as int, (before.len() + inside.len()) as int) =~= inside);
    encode_utf8_decode_utf8(middle);
}

/// A text of at least one character has at least one byte, and the other way
/// round.
pub proof fn lemma_encode_nonempty(s: Seq<char>)
    ensures
        encode_utf8(s).len() > 0 <==> s.len() > 0,
{
    if s.len() > 0 && encode_utf8(s).len() == 0 {
        encode_utf8_decode_utf8(s);
        assert(encode_utf8(s) =~= encode_utf8(seq![]));
        encode_utf8_decode_utf8(seq![]);
    }
}

/// Whether a character is a decimal digit.
pub open spec fn is_digit(c: char) -> bool {
    '0' <= c <= '9'
}

/// The number that decimal digits read as.
pub open spec fn digits_value(s: Seq<char>) -> nat
    decreases s.len(),
{
    if s.len() == 0 {
        0
    } else {
        10 * digits_value(s.drop_last()) + ((s.last() as nat) - 48) as nat
    }
}

/// A text is the plain decimal form of a number: digits alone, without a
/// leading zero, that read back as the number.
pub open spec fn is_plain_decimal(s: Seq<char>, n: nat) -> bool {
    &&& s.len() > 0
    &&& forall|i: int| 0 <= i < s.len() ==> is_digit(#[trigger] s[i])
    &&& s[0] == '0' ==> s.len() == 1
    &&& digits_value(s) == n
}

/// A number is written in its plain decimal form.
pub proof fn law_decimal_is_plain(n: nat)
    ensures
        is_plain_decimal(decimal(n), n),
    decreases n,
{
    let s = decimal(n);
    if n < 10 {
        assert(s.drop_last() =~= seq![]);
        assert(digits_value(seq![]) == 0);
        assert(s.last() as nat == 48 + n);
        assert(digits_value(s) == n);
    } else {
        law_decimal_is_plain(n / 10);
        let init = decimal(n / 10);
        assert(s.drop_last() =~= init);
        assert(s.last() as nat == 48 + n % 10);
        assert(digits_value(s) == 10 * (n / 10) + n % 10);
        if init[0] == '0' {
            assert(init.len() == 1);
            assert(init.drop_last() =~= seq![]);
            assert(digits_value(seq![]) == 0);
            assert(digits_value(init) == 0);
        }
        assert(s[0] == init[0]);
    }
}

/// A text is the plain decimal form of an integer: one minus sign before it
/// exactly where the integer is negative.
pub open spec fn is_plain_signed(s: Seq<char>, n: int) -> bool {
    if n < 0 {
        s.len() > 1 && s[0] == '-' && is_plain_decimal(s.drop_first(), (-n) as nat)
    } else {
        is_plain_decimal(s, n as nat)
    }
}

/// An integer is written in its plain decimal form.
pub proof fn law_signed_decimal_is_plain(n: int)
    ensures
        is_plain_signed(signed_decimal(n), n),
{
    if n < 0 {
        law_decimal_is_plain((-n) as nat);
        assert(signed_decimal(n).drop_first() =~= decimal((-n) as nat));
    } else {
        law_decimal_is_plain(n as nat);
    }
}

/// The truth values are written as the words `true` and `false`.
pub proof fn law_truth_words()
    ensures
        truth(true) == seq!['t', 'r', 'u', 'e'],
        truth(false) == seq!['f', 'a', 'l', 's', 'e'],
{
    reveal_strlit("true");
    reveal_strlit("false");
    assert(truth(true) =~= seq!['t', 'r', 'u', 'e']);
    assert(truth(false) =~= seq!['f', 'a', 'l', 's', 'e']);
}

/// All characters of a text are white space.
pub open spec fn all_white(s: Seq<char>) -> bool {
    forall|i: int| 0 <= i < s.len() ==> is_white_space(#[trigger] s[i])
}

/// Neither end of a text is white space.
pub open spec fn edges_are_solid(s: Seq<char>) -> bool {
    s.len() > 0 ==> !is_white_space(s[0]) && !is_white_space(s.last())
}

proof fn lemma_trimmed_start(before: Seq<char>, s: Seq<char>)
    requires
        all_white(before),
        s.len() > 0 ==> !is_white_space(s[0]),
    ensures
        trimmed_start(before + s) == s,
    decreases before.len(),
{
    if before.len() == 0 {
        assert(before + s =~= s);
    } else {
        assert(is_white_space(before[0]));
        assert((before + s)[0] == before[0]);
        assert((before + s).drop_first() =~= before.drop_first() + s);
        assert forall|i: int| 0 <= i < before.drop_first().len() implies is_white_space(
            #[trigger] before.drop_first()[i],
        ) by {
            assert(is_white_space(before[i + 1]));
        }
        lemma_trimmed_start(before.drop_first(), s);
    }
}

proof fn lemma_trimmed_end(s: Seq<char>, after: Seq<char>)
    requires
        all_white(after),
        s.len() > 0 ==> !is_white_space(s.last()),
    ensures
        trimmed_end(s + after) == s,
    decreases after.len(),
{
    if after.len() == 0 {
        assert(s + after =~= s);
    } else {
        assert(is_white_space(after[after.len() - 1]));
        assert((s + after).last() == after.last());
        assert((s + after).drop_last() =~= s + after.drop_last());
        assert forall|i: int| 0 <= i < after.drop_last().len() implies is_white_space(
            #[trigger] after.drop_last()[i],
        ) by {
            assert(is_white_space(after[i]));
        }
        lemma_trimmed_end(s, after.drop_last());
    }
}

/// Trimming takes the white space at either end away and leaves the rest,
/// white space inside it included.
pub proof fn law_trimming(before: Seq<char>, s: Seq<char>, after: Seq<char>)
    requires
        all_white(before),
        all_white(after),
        edges_are_solid(s),
    ensures
        trimmed(before + s + after) == s,
{
    if s.len() == 0 {
        assert(before + s + after =~= before + after + seq![]);
        assert forall|i: int| 0 <= i < (before + after).len() implies is_white_space(#[trigger] (before + after)[i]) by {
            if i < before.len() {
                assert(is_white_space(before[i]));
            } else {
                assert(is_white_space(after[i - before.len()]));
            }
        }
        lemma_trimmed_start(before + after, seq![]);
        lemma_trimmed_end(seq![], seq![]);
        assert(seq![] + seq![] =~= Seq::<char>::empty());
        assert(s =~= seq![]);
    } else {
        assert(before + s + after =~= before + (s + after));
        assert((s + after)[0] == s[0]);
        lemma_trimmed_start(before, s + after);
        lemma_trimmed_end(s, after);
    }
}

/// A text begins with another exactly where it is that one and something
/// after it.
pub proof fn law_beginnings(s: Seq<char>, prefix: Seq<char>, rest: Seq<char>)
    ensures
        begins_with(prefix + rest, prefix),
        begins_with(s, prefix) ==> s == prefix + s.skip(prefix.len() as int),
{
    assert((prefix + rest).subrange(0, prefix.len() as int) =~= prefix);
    if begins_with(s, prefix) {
        assert(s =~= prefix + s.skip(prefix.len() as int));
    }
}

/// Escaping goes character by character: a backslash goes before a backslash
/// and before a double quote, and nothing else changes.
pub proof fn law_escaping(a: Seq<char>, b: Seq<char>, c: char)
    ensures
        escaped(a + b) == escaped(a) + escaped(b),
        escaped(seq![c]) == (if c == '"' || c == '\\' {
            seq!['\\', c]
        } else {
            seq![c]
        }),
    decreases b.len(),
{
    assert(seq![c].drop_last() =~= seq![]);
    assert(escaped(seq![]) =~= seq![]);
    assert(escaped(seq![c]) =~= escaped_char(c));
    if b.len() == 0 {
        assert(a + b =~= a);
        assert(escaped(a) + escaped(b) =~= escaped(a));
    } else {
        law_escaping(a, b.drop_last(), c);
        assert((a + b).drop_last() =~= a + b.drop_last());
        assert(escaped(a + b) =~= escaped(a) + escaped(b));
    }
}

/// A quoted text is the escaped text between two double quotes.
pub proof fn law_quoted_is_delimited(s: Seq<char>)
    ensures
        quoted(s).len() >= 2,
        quoted(s)[0] == '"',
        quoted(s).last() == '"',
        unescaped(quoted(s).subrange(1, quoted(s).len() - 1)) == s,
{
    assert(quoted(s).subrange(1, quoted(s).len() - 1) =~= escaped(s));
    law_quoting_loses_nothing(s);
}

/// An ASCII byte in the encoding of a text is one of its characters.
pub proof fn lemma_ascii_byte_is_char(t: Seq<char>, i: int)
    requires
        0 <= i < encode_utf8(t).len(),
        encode_utf8(t)[i] < 0x80,
    ensures
        exists|k: int| 0 <= k < t.len() && #[trigger] t[k] == encode_utf8(t)[i] as char,
{
    let bytes = encode_utf8(t);
    encode_utf8_valid_utf8(t);
    encode_utf8_decode_utf8(t);
    lemma_ascii_boundaries(bytes, i);
    valid_utf8_split(bytes, i);
    decode_utf8_split(bytes, i);
    let head = bytes.subrange(0, i);
    let tail = bytes.subrange(i, bytes.len() as int);
    assert(tail[0] == bytes[i]);
    let k = decode_utf8(head).len() as int;
    assert(decode_utf8(tail).len() > 0);
    assert(t[k] == decode_utf8(tail)[0]);
    let b = bytes[i];
    assert(b & 0x7f == b) by (bit_vector)
        requires
            b < 0x80,
    ;
    assert(decode_first_scalar(tail) == b as u32);
    assert(t[k] == bytes[i] as char);
}

/// A character below 128 is encoded as one byte, its own number.
pub proof fn lemma_ascii_char(c: char)
    requires
        (c as u32) < 0x80,
    ensures
        encode_utf8(seq![c]) == seq![c as u8],
{
    assert(is_ascii_chars(seq![c]));
    is_ascii_chars_encode_utf8(seq![c]);
    assert(encode_utf8(seq![c]) =~= seq![c as u8]);
}

/// A word stands in a text, somewhere.
pub open spec fn occurs(t: Seq<char>, word: Seq<char>) -> bool {
    exists|k: int| occurs_at(t, word, k)
}

/// A word stands in a text at the place `k`.
pub open spec fn occurs_at(t: Seq<char>, word: Seq<char>, k: int) -> bool {
    0 <= k <= t.len() - word.len() && t.subrange(k, k + word.len()) == word
}

/// ASCII bytes at the beginning are the first characters.
proof fn lemma_ascii_prefix(bytes: Seq<u8>, m: int)
    requires
        valid_utf8(bytes),
        0 <= m <= bytes.len(),
        forall|j: int| 0 <= j < m ==> #[trigger] bytes[j] < 0x80,
    ensures
        decode_utf8(bytes).len() >= m,
        forall|j: int| 0 <= j < m ==> #[trigger] decode_utf8(bytes)[j] == bytes[j] as char,
    decreases m,
{
    if m > 0 {
        let rest = pop_first_scalar(bytes);
        let b = bytes[0];
        assert(b < 0x80);
        assert(b & 0x7f == b) by (bit_vector)
            requires
                b < 0x80,
        ;
        assert(rest =~= bytes.subrange(1, bytes.len() as int));
        assert forall|j: int| 0 <= j < m - 1 implies #[trigger] rest[j] < 0x80 by {
            assert(bytes[j + 1] < 0x80);
        }
        lemma_ascii_prefix(rest, m - 1);
        assert forall|j: int| 0 <= j < m implies #[trigger] decode_utf8(bytes)[j] == bytes[j] as char by {
            if j > 0 {
                assert(decode_utf8(bytes)[j] == decode_utf8(rest)[j - 1]);
                assert(rest[j - 1] == bytes[j]);
            }
        }
    }
}

/// Bytes that are an ASCII word are that word in the text.
pub proof fn lemma_word_in_bytes(t: Seq<char>, word: Seq<char>, at: int)
    requires
        is_ascii_chars(word),
        word.len() > 0,
        0 <= at <= encode_utf8(t).len() - word.len(),
        forall|j: int| 0 <= j < word.len() ==> #[trigger] encode_utf8(t)[at + j] == word[j] as u8,
    ensures
        occurs(t, word),
{
    let bytes = encode_utf8(t);
    let m = word.len() as int;
    encode_utf8_valid_utf8(t);
    encode_utf8_decode_utf8(t);
    assert(bytes[at + 0] == word[0] as u8);
    lemma_ascii_boundaries(bytes, at);
    valid_utf8_split(bytes, at);
    decode_utf8_split(bytes, at);
    let head = bytes.subrange(0, at);
    let tail = bytes.subrange(at, bytes.len() as int);
    assert forall|j: int| 0 <= j < m implies #[trigger] tail[j] < 0x80 by {
        assert(tail[j] == bytes[at + j]);
        assert('\0' <= word[j] <= '\u{7f}');
    }
    lemma_ascii_prefix(tail, m);
    let k = decode_utf8(head).len() as int;
    assert forall|j: int| 0 <= j < m implies t[k + j] == word[j] by {
        assert(t[k + j] == decode_utf8(tail)[j]);
        assert(decode_utf8(tail)[j] == tail[j] as char);
        assert(tail[j] == bytes[at + j]);
        assert(bytes[at + j] == word[j] as u8);
        assert('\0' <= word[j] <= '\u{7f}');
    }
    assert(t.subrange(k, k + m) =~= word);
    assert(occurs_at(t, word, k));
}

/// An ASCII word in the text is its bytes in the encoding.
pub proof fn lemma_word_bytes(before: Seq<char>, word: Seq<char>, after: Seq<char>)
    requires
        is_ascii_chars(word),
    ensures
        encode_utf8(before + word + after) == encode_utf8(before) + encode_utf8(word) + encode_utf8(after),
        encode_utf8(word).len() == word.len(),
        forall|j: int| 0 <= j < word.len() ==> #[trigger] encode_utf8(word)[j] == word[j] as u8,
{
    lemma_encode_concat(before + word, after);
    lemma_encode_concat(before, word);
    is_ascii_chars_encode_utf8(word);
}

}
