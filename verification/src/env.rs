//! The config-load pass: `${env.NAME}` references.
use crate::entries::{lookup, table};
use crate::error::{text_outcome, ErrorModel, ExprError};
use crate::template::{closes, find_matching_brace, matching_brace, texts, DOLLAR, OPEN};
use crate::text::{lemma_ascii_boundaries, slice_text, text_between};
use vstd::prelude::*;
use vstd::string::*;
use vstd::utf8::*;

verus! {

/// A `${env.` marker stands at the byte offset `at`.
pub open spec fn env_marker_at(bytes: Seq<u8>, at: int) -> bool {
    &&& 0 <= at <= bytes.len() - 6
    &&& bytes[at] == DOLLAR
    &&& bytes[at + 1] == OPEN
    &&& bytes[at + 2] == 0x65
    &&& bytes[at + 3] == 0x6e
    &&& bytes[at + 4] == 0x76
    &&& bytes[at + 5] == 0x2e
}

/// The offset of the first environment marker at or after `from`, or the end
/// of the text.
pub open spec fn next_env_marker(bytes: Seq<u8>, from: int) -> int
    decreases bytes.len() - from,
{
    if from >= bytes.len() {
        bytes.len() as int
    } else if env_marker_at(bytes, from) {
        from
    } else {
        next_env_marker(bytes, from + 1)
    }
}

/// One piece of a text with environment references: the name in a reference,
/// or the text up to the next one; `next` is the offset after it.
pub struct EnvPieceModel {
    pub text: Seq<char>,
    pub reference: bool,
    pub next: int,
}

/// The piece that begins at the offset `at`.
pub open spec fn env_piece(bytes: Seq<u8>, at: int) -> Result<EnvPieceModel, ErrorModel> {
    if env_marker_at(bytes, at) {
        match matching_brace(bytes, at + 2) {
            None => Err(ErrorModel::UnclosedEnv { position: at }),
            Some(end) => {
                let name = text_between(bytes, at + 6, end);
                if name.len() == 0 {
                    Err(ErrorModel::EmptyEnvName { position: at })
                } else {
                    Ok(EnvPieceModel { text: name, reference: true, next: end + 1 })
                }
            },
        }
    } else {
        let end = next_env_marker(bytes, at);
        Ok(EnvPieceModel { text: text_between(bytes, at, end), reference: false, next: end })
    }
}

/// The first marker lies at or after the place where the search begins.
pub proof fn lemma_next_env_marker(bytes: Seq<u8>, from: int)
    requires
        from <= bytes.len(),
    ensures
        from <= next_env_marker(bytes, from) <= bytes.len(),
    decreases bytes.len() - from,
{
    if from < bytes.len() && !env_marker_at(bytes, from) {
        lemma_next_env_marker(bytes, from + 1);
    }
}

/// The brace that closes an environment marker stands after its name.
proof fn lemma_env_close(bytes: Seq<u8>, at: int)
    requires
        env_marker_at(bytes, at),
        matching_brace(bytes, at + 2) is Some,
    ensures
        closes(bytes, at + 2, matching_brace(bytes, at + 2)->Some_0),
        at + 6 <= matching_brace(bytes, at + 2)->Some_0 < bytes.len(),
{
    let end = matching_brace(bytes, at + 2)->Some_0;
    assert(closes(bytes, at + 2, end));
    if end < at + 6 {
        assert(bytes[end] != crate::template::CLOSE);
    }
}

/// Every piece takes up at least one byte.
pub proof fn lemma_env_piece_advances(bytes: Seq<u8>, at: int)
    requires
        0 <= at < bytes.len(),
        env_piece(bytes, at) is Ok,
    ensures
        at < env_piece(bytes, at)->Ok_0.next <= bytes.len(),
{
    if env_marker_at(bytes, at) {
        lemma_env_close(bytes, at);
    } else {
        lemma_next_env_marker(bytes, at + 1);
    }
}

/// `done` before what is to come, unless that fails.
pub open spec fn text_prepended(
    done: Seq<char>,
    rest: Result<Seq<char>, ErrorModel>,
) -> Result<Seq<char>, ErrorModel> {
    match rest {
        Err(e) => Err(e),
        Ok(text) => Ok(done + text),
    }
}

/// The text from the offset `at` on, with every environment reference
/// replaced by the variable's value; or the first fault: a reference that is
/// not closed, has no name or names a variable that is not set.
pub open spec fn env_resolved(
    bytes: Seq<u8>,
    at: int,
    vars: Map<Seq<char>, Seq<char>>,
) -> Result<Seq<char>, ErrorModel>
    decreases bytes.len() - at,
{
    if at < 0 || at >= bytes.len() {
        Ok(seq![])
    } else {
        match env_piece(bytes, at) {
            Err(e) => Err(e),
            Ok(p) => {
                proof {
                    lemma_env_piece_advances(bytes, at);
                }
                if !p.reference {
                    text_prepended(p.text, env_resolved(bytes, p.next, vars))
                } else if vars.contains_key(p.text) {
                    text_prepended(vars[p.text], env_resolved(bytes, p.next, vars))
                } else {
                    Err(ErrorModel::EnvNotSet { name: p.text })
                }
            },
        }
    }
}

/// The names in the environment references from the offset `at` on, in order,
/// up to the first reference that is not closed or has no name.
pub open spec fn env_names(bytes: Seq<u8>, at: int) -> Seq<Seq<char>>
    decreases bytes.len() - at,
{
    if at < 0 || at >= bytes.len() {
        seq![]
    } else {
        match env_piece(bytes, at) {
            Err(e) => seq![],
            Ok(p) => {
                proof {
                    lemma_env_piece_advances(bytes, at);
                }
                if p.reference {
                    seq![p.text] + env_names(bytes, p.next)
                } else {
                    env_names(bytes, p.next)
                }
            },
        }
    }
}

/// A piece of a text with environment references.
struct EnvPiece<'a> {
    text: &'a str,
    reference: bool,
    next: usize,
}

impl<'a> EnvPiece<'a> {
    spec fn model(self) -> EnvPieceModel {
        EnvPieceModel { text: self.text@, reference: self.reference, next: self.next as int }
    }
}

/// Whether an environment marker stands at the byte offset `at`.
fn is_env_marker(bytes: &[u8], at: usize) -> (r: bool)
    ensures
        r == env_marker_at(bytes@, at as int),
{
    bytes.len() >= 6 && at <= bytes.len() - 6 && bytes[at] == DOLLAR && bytes[at + 1] == OPEN && bytes[at + 2] == 0x65
        && bytes[at + 3] == 0x6e && bytes[at + 4] == 0x76 && bytes[at + 5] == 0x2e
}

/// Reads the piece that begins at the byte offset `at`.
fn env_piece_at<'a>(input: &'a str, at: usize) -> (r: Result<EnvPiece<'a>, ExprError>)
    requires
        at < input.spec_bytes().len(),
        is_char_boundary(input.spec_bytes(), at as int),
    ensures
        match r {
            Ok(p) => {
                &&& env_piece(input.spec_bytes(), at as int) == Ok::<EnvPieceModel, ErrorModel>(p.model())
                &&& at < p.next <= input.spec_bytes().len()
                &&& is_char_boundary(input.spec_bytes(), p.next as int)
            },
            Err(e) => env_piece(input.spec_bytes(), at as int) == Err::<EnvPieceModel, ErrorModel>(e@),
        },
{
    let bytes = input.as_bytes();
    let len: usize = bytes.len();
    proof {
        encode_utf8_valid_utf8(input@);
    }
    if is_env_marker(bytes, at) {
        match find_matching_brace(input, at + 2) {
            None => Err(ExprError::UnclosedEnv { position: at }),
            Some(end) => {
                proof {
                    lemma_env_close(bytes@, at as int);
                    lemma_ascii_boundaries(bytes@, at + 5);
                    lemma_ascii_boundaries(bytes@, end as int);
                }
                let name = slice_text(input, at + 6, end);
                if name.is_empty() {
                    Err(ExprError::EmptyEnvName { position: at })
                } else {
                    Ok(EnvPiece { text: name, reference: true, next: end + 1 })
                }
            },
        }
    } else {
        let mut end: usize = at;
        while end < len && !is_env_marker(bytes, end)
            invariant
                at <= end <= len == bytes.len(),
                next_env_marker(bytes@, at as int) == next_env_marker(bytes@, end as int),
            decreases len - end,
        {
            end += 1;
        }
        proof {
            lemma_env_piece_advances(bytes@, at as int);
            if end < len {
                lemma_ascii_boundaries(bytes@, end as int);
            } else {
                is_char_boundary_start_end_of_seq(bytes@);
            }
        }
        Ok(EnvPiece { text: slice_text(input, at, end), reference: false, next: end })
    }
}

/// Replaces every `${env.NAME}` in a text by the value that `vars` has for
/// the name, and leaves everything else as it stands. Fails on a name that
/// `vars` does not have.
pub fn resolve_env_in_string(input: &str, vars: &Vec<(String, String)>) -> (r: Result<String, ExprError>)
    ensures
        text_outcome(r) == env_resolved(input.spec_bytes(), 0, table(vars@)),
{
    let len: usize = input.as_bytes().len();
    let ghost bytes = input.spec_bytes();
    let ghost known = table(vars@);
    let mut out = String::new();
    let mut i: usize = 0;
    proof {
        encode_utf8_valid_utf8(input@);
        is_char_boundary_start_end_of_seq(bytes);
        if let Ok(rest) = env_resolved(bytes, 0, known) {
            assert(out@ + rest =~= rest);
        }
    }
    while i < len
        invariant
            i <= len == bytes.len(),
            bytes == input.spec_bytes(),
            known == table(vars@),
            is_char_boundary(bytes, i as int),
            env_resolved(bytes, 0, known) == text_prepended(out@, env_resolved(bytes, i as int, known)),
        decreases len - i,
    {
        let p = env_piece_at(input, i)?;
        let ghost before = out@;
        let ghost rest = env_resolved(bytes, p.next as int, known);
        if p.reference {
            let name = p.text.to_owned();
            match lookup(vars, &name) {
                None => {
                    return Err(ExprError::EnvNotSet { name });
                },
                Some(value) => {
                    out.append(value.as_str());
                    proof {
                        if let Ok(text) = rest {
                            assert(before + (value@ + text) =~= out@ + text);
                        }
                    }
                },
            }
        } else {
            out.append(p.text);
            proof {
                if let Ok(text) = rest {
                    assert(before + (p.text@ + text) =~= out@ + text);
                }
            }
        }
        i = p.next;
    }
    assert(out@ + seq![] =~= out@);
    Ok(out)
}

/// The names in the `${env.NAME}` references of a text, in order, up to the
/// first reference that is not closed or has no name: all that
/// [`resolve_env_in_string`] can ask for.
pub fn env_references(input: &str) -> (r: Vec<String>)
    ensures
        texts(r@) == env_names(input.spec_bytes(), 0),
{
    let len: usize = input.as_bytes().len();
    let ghost bytes = input.spec_bytes();
    let mut names: Vec<String> = Vec::new();
    let mut i: usize = 0;
    proof {
        encode_utf8_valid_utf8(input@);
        is_char_boundary_start_end_of_seq(bytes);
        assert(texts(names@) + env_names(bytes, 0) =~= env_names(bytes, 0));
    }
    while i < len
        invariant
            i <= len == bytes.len(),
            bytes == input.spec_bytes(),
            is_char_boundary(bytes, i as int),
            env_names(bytes, 0) == texts(names@) + env_names(bytes, i as int),
        decreases len - i,
    {
        match env_piece_at(input, i) {
            Err(_) => {
                assert(texts(names@) + seq![] =~= texts(names@));
                return names;
            },
            Ok(p) => {
                if p.reference {
                    let ghost before = texts(names@);
                    names.push(p.text.to_owned());
                    proof {
                        let rest = env_names(bytes, p.next as int);
                        assert(texts(names@) =~= before.push(p.text@));
                        assert(before + (seq![p.text@] + rest) =~= texts(names@) + rest);
                    }
                }
                i = p.next;
            },
        }
    }
    assert(texts(names@) + seq![] =~= texts(names@));
    names
}

/// Without a marker at or after a place, the search for one reaches the end.
proof fn lemma_no_env_marker(bytes: Seq<u8>, from: int)
    requires
        0 <= from <= bytes.len(),
        forall|at: int| !env_marker_at(bytes, at),
    ensures
        next_env_marker(bytes, from) == bytes.len(),
    decreases bytes.len() - from,
{
    if from < bytes.len() {
        lemma_no_env_marker(bytes, from + 1);
    }
}

/// A text without environment references stays as it is, whatever other
/// markers it has.
pub proof fn law_other_text_untouched(text: Seq<char>, vars: Map<Seq<char>, Seq<char>>)
    requires
        forall|at: int| !env_marker_at(encode_utf8(text), at),
    ensures
        env_resolved(encode_utf8(text), 0, vars) == Ok::<Seq<char>, ErrorModel>(text),
{
    let bytes = encode_utf8(text);
    let len = bytes.len() as int;
    lemma_no_env_marker(bytes, 0);
    encode_utf8_decode_utf8(text);
    assert(bytes.subrange(0, len) =~= bytes);
    assert(env_resolved(bytes, len, vars) == Ok::<Seq<char>, ErrorModel>(seq![]));
    if len == 0 {
        assert(text =~= seq![]);
    } else {
        assert(text + seq![] =~= text);
    }
}

/// Two tables have the same value, or both none, for a name.
pub open spec fn agree_on(
    vars: Map<Seq<char>, Seq<char>>,
    others: Map<Seq<char>, Seq<char>>,
    name: Seq<char>,
) -> bool {
    &&& vars.contains_key(name) == others.contains_key(name)
    &&& vars.contains_key(name) ==> vars[name] == others[name]
}

/// Only the variables that a text refers to matter: tables that agree on
/// those give the same outcome.
pub proof fn law_only_references_matter(
    bytes: Seq<u8>,
    at: int,
    vars: Map<Seq<char>, Seq<char>>,
    others: Map<Seq<char>, Seq<char>>,
)
    requires
        forall|name: Seq<char>| #[trigger]
            env_names(bytes, at).contains(name) ==> agree_on(vars, others, name),
    ensures
        env_resolved(bytes, at, vars) == env_resolved(bytes, at, others),
    decreases bytes.len() - at,
{
    if 0 <= at < bytes.len() {
        if let Ok(p) = env_piece(bytes, at) {
            lemma_env_piece_advances(bytes, at);
            let names = env_names(bytes, at);
            let rest = env_names(bytes, p.next);
            if p.reference {
                assert(names[0] == p.text);
                assert(names.contains(p.text));
            }
            assert forall|name: Seq<char>| #[trigger] rest.contains(name) implies agree_on(vars, others, name) by {
                let i = rest.index_of(name);
                if p.reference {
                    assert(names[i + 1] == name);
                }
                assert(names.contains(name));
            }
            law_only_references_matter(bytes, p.next, vars, others);
        }
    }
}

}
