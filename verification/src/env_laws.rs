//! What the startup pass does, told from how a text is written.
use crate::env::{
    env_marker_at, env_names, env_piece, env_resolved, law_other_text_untouched, lemma_env_piece_advances,
    lemma_next_env_marker, next_env_marker, EnvPieceModel,
};
use crate::error::ErrorModel;
use crate::template::{
    closes, law_brace_after_code_closes, law_code_after_code, law_plain_code, lemma_matching_brace_moves,
    matching_brace, self_contained, CLOSE,
};
use crate::template_laws::{lemma_marker_words, lemma_text_moves, moved};
use crate::text::{
    lemma_ascii_byte_is_char, lemma_encode_concat, lemma_encode_nonempty, lemma_middle_text, lemma_word_in_bytes,
    occurs,
};
use vstd::prelude::*;
use vstd::string::*;
use vstd::utf8::*;

verus! {

/// A reference to an environment variable as it is written.
pub open spec fn reference(name: Seq<char>) -> Seq<char> {
    "${env."@ + name + "}"@
}

/// The bytes of `${env.`.
proof fn lemma_env_word()
    ensures
        is_ascii_chars("${env."@),
        "${env."@.len() == 6,
        encode_utf8("${env."@) == seq![0x24u8, 0x7bu8, 0x65u8, 0x6eu8, 0x76u8, 0x2eu8],
        is_ascii_chars("env."@),
        !"env."@.contains('{') && !"env."@.contains('}') && !"env."@.contains('"'),
        encode_utf8("env."@) == seq![0x65u8, 0x6eu8, 0x76u8, 0x2eu8],
        "${env."@ == "${"@ + "env."@,
{
    reveal_strlit("${env.");
    reveal_strlit("env.");
    reveal_strlit("${");
    is_ascii_chars_encode_utf8("${env."@);
    is_ascii_chars_encode_utf8("env."@);
    assert(encode_utf8("${env."@) =~= seq![0x24u8, 0x7bu8, 0x65u8, 0x6eu8, 0x76u8, 0x2eu8]);
    assert(encode_utf8("env."@) =~= seq![0x65u8, 0x6eu8, 0x76u8, 0x2eu8]);
    assert("${env."@ =~= "${"@ + "env."@);
    assert("env."@ =~= seq!['e', 'n', 'v', '.']);
}

/// A text without `${env.` has no environment marker.
pub proof fn law_no_env_marker(t: Seq<char>)
    requires
        !occurs(t, "${env."@),
    ensures
        forall|at: int| !env_marker_at(encode_utf8(t), at),
{
    lemma_env_word();
    let bytes = encode_utf8(t);
    let word = "${env."@;
    assert forall|at: int| !env_marker_at(bytes, at) by {
        if env_marker_at(bytes, at) {
            reveal_strlit("${env.");
            assert forall|j: int| 0 <= j < word.len() implies #[trigger] bytes[at + j] == word[j] as u8 by {
                if j == 0 {
                    assert(bytes[at + 0] == 0x24);
                }
            }
            lemma_word_in_bytes(t, word, at);
        }
    }
}

/// What stands before a text makes no difference to where its markers are.
proof fn lemma_env_marker_moves(before: Seq<u8>, rest: Seq<u8>, at: int)
    requires
        0 <= at,
    ensures
        env_marker_at(before + rest, before.len() + at) == env_marker_at(rest, at),
{
    let whole = before + rest;
    let n = before.len() as int;
    if at <= rest.len() - 6 {
        assert(forall|j: int| 0 <= j < 6 ==> #[trigger] whole[n + at + j] == rest[at + j]);
        assert(whole[n + at + 0] == rest[at + 0] && whole[n + at + 1] == rest[at + 1]);
    }
}

proof fn lemma_next_env_marker_moves(before: Seq<u8>, rest: Seq<u8>, at: int)
    requires
        0 <= at <= rest.len(),
    ensures
        next_env_marker(before + rest, before.len() + at) == before.len() + next_env_marker(rest, at),
    decreases rest.len() - at,
{
    if at < rest.len() {
        lemma_env_marker_moves(before, rest, at);
        if !env_marker_at(rest, at) {
            lemma_next_env_marker_moves(before, rest, at + 1);
        }
    }
}

/// What stands before a text makes no difference to its pieces but to their
/// offsets.
proof fn lemma_env_piece_moves(before: Seq<u8>, rest: Seq<u8>, at: int)
    requires
        0 <= at < rest.len(),
    ensures
        env_piece(before + rest, before.len() + at) == match env_piece(rest, at) {
            Ok(p) => Ok(EnvPieceModel { text: p.text, reference: p.reference, next: p.next + before.len() }),
            Err(e) => Err(moved(e, before.len() as int)),
        },
{
    lemma_env_marker_moves(before, rest, at);
    if env_marker_at(rest, at) {
        lemma_matching_brace_moves(before, rest, at + 2);
        if let Some(end) = matching_brace(rest, at + 2) {
            assert(closes(rest, at + 2, end));
            if end < at + 6 {
                assert(rest[end] != CLOSE);
            }
            lemma_text_moves(before, rest, at + 6, end);
        }
    } else {
        lemma_next_env_marker_moves(before, rest, at);
        lemma_next_env_marker(rest, at);
        lemma_text_moves(before, rest, at, next_env_marker(rest, at));
    }
}

/// What stands before a text makes no difference to what the rest resolves to
/// and refers to.
proof fn lemma_env_moves(before: Seq<u8>, rest: Seq<u8>, at: int, vars: Map<Seq<char>, Seq<char>>)
    requires
        0 <= at <= rest.len(),
    ensures
        env_resolved(before + rest, before.len() + at, vars) == match env_resolved(rest, at, vars) {
            Ok(text) => Ok(text),
            Err(e) => Err(moved(e, before.len() as int)),
        },
        env_names(before + rest, before.len() + at) == env_names(rest, at),
    decreases rest.len() - at,
{
    if at < rest.len() {
        lemma_env_piece_moves(before, rest, at);
        if let Ok(p) = env_piece(rest, at) {
            lemma_env_piece_advances(rest, at);
            lemma_env_moves(before, rest, p.next, vars);
        }
    }
}

/// Where no marker stands before a place, the search goes on to it.
proof fn lemma_next_env_marker_is(bytes: Seq<u8>, from: int, to: int)
    requires
        0 <= from <= to <= bytes.len(),
        forall|at: int| from <= at < to ==> !env_marker_at(bytes, at),
        to == bytes.len() || env_marker_at(bytes, to),
    ensures
        next_env_marker(bytes, from) == to,
    decreases to - from,
{
    if from < to {
        lemma_next_env_marker_is(bytes, from + 1, to);
    }
}

/// Text before a marker is kept as it is, before what the rest resolves to.
proof fn lemma_text_before_marker(t: Seq<char>, rest: Seq<char>, vars: Map<Seq<char>, Seq<char>>)
    requires
        !occurs(t, "${env."@),
        env_marker_at(encode_utf8(rest), 0),
    ensures
        env_resolved(encode_utf8(t + rest), 0, vars) == match env_resolved(encode_utf8(rest), 0, vars) {
            Ok(text) => Ok(t + text),
            Err(e) => Err(moved(e, encode_utf8(t).len() as int)),
        },
        env_names(encode_utf8(t + rest), 0) == env_names(encode_utf8(rest), 0),
{
    let head = encode_utf8(t);
    let tail = encode_utf8(rest);
    let whole = head + tail;
    let n = head.len() as int;
    lemma_encode_concat(t, rest);
    lemma_encode_nonempty(t);
    lemma_env_moves(head, tail, 0, vars);
    if t.len() == 0 {
        assert(t + rest =~= rest);
        assert(head =~= seq![]);
        assert(whole =~= tail);
        if let Ok(text) = env_resolved(tail, 0, vars) {
            assert(t + text =~= text);
        }
        if let Err(e) = env_resolved(tail, 0, vars) {
            assert(moved(e, 0) == e);
        }
    } else {
        law_no_env_marker(t);
        assert forall|at: int| 0 <= at < n implies !env_marker_at(whole, at) by {
            if env_marker_at(whole, at) {
                if at + 6 <= n {
                    assert(forall|j: int| 0 <= j < 6 ==> #[trigger] whole[at + j] == head[at + j]);
                    assert(whole[at + 0] == head[at + 0] && whole[at + 1] == head[at + 1]);
                    assert(env_marker_at(head, at));
                } else {
                    assert(whole[n] == tail[0]);
                    assert(whole[at + (n - at)] == 0x24);
                }
            }
        }
        lemma_env_marker_moves(head, tail, 0);
        lemma_next_env_marker_is(whole, 0, n);
        lemma_middle_text(seq![], t, tail);
        assert(Seq::<u8>::empty() + head + tail =~= whole);
        assert(env_piece(whole, 0) == Ok::<EnvPieceModel, ErrorModel>(
            EnvPieceModel { text: t, reference: false, next: n },
        ));
    }
}

/// The piece at a reference is its name.
proof fn lemma_reference_piece(name: Seq<char>, rest: Seq<char>)
    requires
        self_contained(encode_utf8(name)),
    ensures
        ({
            let bytes = encode_utf8(reference(name) + rest);
            &&& env_marker_at(bytes, 0)
            &&& bytes == encode_utf8(reference(name)) + encode_utf8(rest)
            &&& name.len() > 0 ==> env_piece(bytes, 0) == Ok::<EnvPieceModel, ErrorModel>(
                EnvPieceModel { text: name, reference: true, next: encode_utf8(reference(name)).len() as int },
            )
            &&& name.len() == 0 ==> env_piece(bytes, 0) == Err::<EnvPieceModel, ErrorModel>(
                ErrorModel::EmptyEnvName { position: 0 },
            )
        }),
{
    let bytes = encode_utf8(reference(name) + rest);
    let body = encode_utf8(name);
    let tail = encode_utf8(rest);
    let open = seq![0x24u8, 0x7bu8];
    let word = encode_utf8("${env."@);
    let dotted = encode_utf8("env."@);
    lemma_env_word();
    lemma_marker_words();
    lemma_encode_concat(reference(name), rest);
    lemma_encode_concat("${env."@ + name, "}"@);
    lemma_encode_concat("${env."@, name);
    assert(bytes =~= word + body + seq![CLOSE] + tail);
    assert(bytes[0] == word[0] && bytes[1] == word[1] && bytes[2] == word[2] && bytes[3] == word[3] && bytes[4]
        == word[4] && bytes[5] == word[5]);
    law_plain_code("env."@);
    law_code_after_code(dotted, body);
    law_brace_after_code_closes(open, dotted + body, tail);
    assert(bytes =~= open + (dotted + body) + seq![CLOSE] + tail);
    lemma_middle_text(word, name, seq![CLOSE] + tail);
    assert(word + body + (seq![CLOSE] + tail) =~= bytes);
}

/// A reference is replaced by the value of its variable, the text before it is
/// kept as it is, and the rest resolves as it would alone. A variable that is
/// not set is reported by its name.
pub proof fn law_reference_is_replaced(
    t: Seq<char>,
    name: Seq<char>,
    rest: Seq<char>,
    vars: Map<Seq<char>, Seq<char>>,
)
    requires
        !occurs(t, "${env."@),
        name.len() > 0,
        self_contained(encode_utf8(name)),
    ensures
        env_resolved(encode_utf8(t + (reference(name) + rest)), 0, vars) == if vars.contains_key(name) {
            match env_resolved(encode_utf8(rest), 0, vars) {
                Ok(text) => Ok(t + vars[name] + text),
                Err(e) => Err(moved(e, encode_utf8(t + reference(name)).len() as int)),
            }
        } else {
            Err(ErrorModel::EnvNotSet { name })
        },
        env_names(encode_utf8(t + (reference(name) + rest)), 0) == seq![name] + env_names(encode_utf8(rest), 0),
{
    let marker = reference(name) + rest;
    lemma_reference_piece(name, rest);
    lemma_env_moves(encode_utf8(reference(name)), encode_utf8(rest), 0, vars);
    lemma_text_before_marker(t, marker, vars);
    lemma_encode_concat(t, reference(name));
    if vars.contains_key(name) {
        match env_resolved(encode_utf8(rest), 0, vars) {
            Ok(text) => {
                assert(t + (vars[name] + text) =~= t + vars[name] + text);
            },
            Err(e) => {
                let n = encode_utf8(reference(name)).len() as int;
                let m = encode_utf8(t).len() as int;
                assert(moved(moved(e, n), m) == moved(e, n + m));
            },
        }
    }
}

/// A text without a reference stays as it is, and refers to nothing.
pub proof fn law_text_without_references(t: Seq<char>, vars: Map<Seq<char>, Seq<char>>)
    requires
        !occurs(t, "${env."@),
    ensures
        env_resolved(encode_utf8(t), 0, vars) == Ok::<Seq<char>, ErrorModel>(t),
        env_names(encode_utf8(t), 0).len() == 0,
{
    let bytes = encode_utf8(t);
    let n = bytes.len() as int;
    law_no_env_marker(t);
    law_other_text_untouched(t, vars);
    if n > 0 {
        lemma_next_env_marker_is(bytes, 0, n);
        assert(env_names(bytes, n).len() == 0);
    }
}

/// Texts with a reference between each two, as they are written.
pub open spec fn referring_text(texts: Seq<Seq<char>>, names: Seq<Seq<char>>) -> Seq<char>
    decreases names.len(),
{
    if names.len() == 0 {
        texts[0]
    } else {
        texts[0] + (reference(names[0]) + referring_text(texts.drop_first(), names.drop_first()))
    }
}

/// Texts with the values of the variables between them.
pub open spec fn filled_text(
    texts: Seq<Seq<char>>,
    names: Seq<Seq<char>>,
    vars: Map<Seq<char>, Seq<char>>,
) -> Seq<char>
    decreases names.len(),
{
    if names.len() == 0 {
        texts[0]
    } else {
        texts[0] + vars[names[0]] + filled_text(texts.drop_first(), names.drop_first(), vars)
    }
}

/// All references are replaced, and all text around them is kept as it is,
/// white space and other markers included.
pub proof fn law_text_around_references_is_kept(
    texts: Seq<Seq<char>>,
    names: Seq<Seq<char>>,
    vars: Map<Seq<char>, Seq<char>>,
)
    requires
        texts.len() == names.len() + 1,
        forall|i: int| 0 <= i < texts.len() ==> !occurs(#[trigger] texts[i], "${env."@),
        forall|i: int|
            0 <= i < names.len() ==> (#[trigger] names[i]).len() > 0 && self_contained(encode_utf8(names[i]))
                && vars.contains_key(names[i]),
    ensures
        env_resolved(encode_utf8(referring_text(texts, names)), 0, vars) == Ok::<Seq<char>, ErrorModel>(
            filled_text(texts, names, vars),
        ),
        env_names(encode_utf8(referring_text(texts, names)), 0) == names,
    decreases names.len(),
{
    if names.len() == 0 {
        law_text_without_references(texts[0], vars);
        assert(env_names(encode_utf8(texts[0]), 0) =~= names);
    } else {
        let others = names.drop_first();
        let more = texts.drop_first();
        assert forall|i: int| 0 <= i < more.len() implies !occurs(#[trigger] more[i], "${env."@) by {
            assert(more[i] == texts[i + 1]);
        }
        assert forall|i: int| 0 <= i < others.len() implies (#[trigger] others[i]).len() > 0 && self_contained(
            encode_utf8(others[i]),
        ) && vars.contains_key(others[i]) by {
            assert(others[i] == names[i + 1]);
        }
        law_text_around_references_is_kept(more, others, vars);
        law_reference_is_replaced(texts[0], names[0], referring_text(more, others), vars);
        assert(seq![names[0]] + others =~= names);
    }
}

/// A reference without a name is reported, with its offset in bytes, whatever
/// follows.
pub proof fn law_nameless_reference(t: Seq<char>, rest: Seq<char>, vars: Map<Seq<char>, Seq<char>>)
    requires
        !occurs(t, "${env."@),
    ensures
        env_resolved(encode_utf8(t + (reference(seq![]) + rest)), 0, vars) == Err::<Seq<char>, ErrorModel>(
            ErrorModel::EmptyEnvName { position: encode_utf8(t).len() as int },
        ),
        env_names(encode_utf8(t + (reference(seq![]) + rest)), 0).len() == 0,
{
    law_plain_code(seq![]);
    lemma_reference_piece(seq![], rest);
    lemma_text_before_marker(t, reference(seq![]) + rest, vars);
}

/// A reference without a closing brace is reported, with its offset in bytes.
pub proof fn law_unclosed_reference(t: Seq<char>, name: Seq<char>, vars: Map<Seq<char>, Seq<char>>)
    requires
        !occurs(t, "${env."@),
        !name.contains('}'),
    ensures
        env_resolved(encode_utf8(t + ("${env."@ + name)), 0, vars) == Err::<Seq<char>, ErrorModel>(
            ErrorModel::UnclosedEnv { position: encode_utf8(t).len() as int },
        ),
        env_names(encode_utf8(t + ("${env."@ + name)), 0).len() == 0,
{
    let marker = "${env."@ + name;
    let bytes = encode_utf8(marker);
    let word = encode_utf8("${env."@);
    lemma_env_word();
    lemma_encode_concat("${env."@, name);
    assert(bytes[0] == word[0] && bytes[1] == word[1] && bytes[2] == word[2] && bytes[3] == word[3] && bytes[4]
        == word[4] && bytes[5] == word[5]);
    assert forall|i: int| 0 <= i < bytes.len() implies #[trigger] bytes[i] != CLOSE by {
        if i >= 6 {
            let b = encode_utf8(name)[i - 6];
            assert(bytes[i] == b);
            if b < 0x80 {
                lemma_ascii_byte_is_char(name, i - 6);
                let k = choose|k: int| 0 <= k < name.len() && #[trigger] name[k] == encode_utf8(name)[i - 6] as char;
                assert(name.contains(name[k]));
            }
        } else {
            assert(bytes[i] == word[i]);
        }
    }
    assert forall|at: int| !closes(bytes, 2, at) by {
        if 2 <= at < bytes.len() {
            assert(bytes[at] != CLOSE);
        }
    }
    lemma_text_before_marker(t, marker, vars);
}

}
