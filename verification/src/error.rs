//! The errors of the library, and how they read.
use crate::text::{append_decimal, decimal, is_plain_decimal, law_decimal_is_plain};
use vstd::prelude::*;
use vstd::string::*;

verus! {

/// Why a template could not be parsed, a value could not be resolved, or a
/// header was refused.
#[derive(Debug, Clone, PartialEq, Eq)]
pub enum ExprError {
    /// A `${` marker without its closing brace; the byte offset of the marker.
    UnclosedExpression { position: usize },
    /// A `${}` marker with nothing but white space inside.
    EmptyExpression { position: usize },
    /// CEL refused the source text; `detail` is CEL's own message.
    Compile { expression: String, detail: String },
    /// CEL failed while evaluating; `detail` is CEL's own message.
    Evaluate { expression: String, detail: String },
    /// The expression evaluated to something that is no string, number,
    /// boolean or null; `got` describes it.
    NotScalar { expression: String, got: String },
    /// The value carries credential references and needs a resolver for them.
    NeedsCredentials { source: String },
    /// The resolver had no value for a credential reference.
    UnresolvedCredential { uri: String },
    /// A `${env.` marker without its closing brace.
    UnclosedEnv { position: usize },
    /// A `${env.}` marker without a name.
    EmptyEnvName { position: usize },
    /// A referenced environment variable is not set.
    EnvNotSet { name: String },
    /// A header without a name.
    EmptyHeaderName,
    /// A header name with a character that is not allowed in a token.
    InvalidHeaderName { name: String },
    /// A header value with a line break in it.
    HeaderInjection { name: String },
}

/// What an [`ExprError`] says, over mathematical values.
pub enum ErrorModel {
    UnclosedExpression { position: int },
    EmptyExpression { position: int },
    Compile { expression: Seq<char>, detail: Seq<char> },
    Evaluate { expression: Seq<char>, detail: Seq<char> },
    NotScalar { expression: Seq<char>, got: Seq<char> },
    NeedsCredentials { source: Seq<char> },
    UnresolvedCredential { uri: Seq<char> },
    UnclosedEnv { position: int },
    EmptyEnvName { position: int },
    EnvNotSet { name: Seq<char> },
    EmptyHeaderName,
    InvalidHeaderName { name: Seq<char> },
    HeaderInjection { name: Seq<char> },
}

impl View for ExprError {
    type V = ErrorModel;

    open spec fn view(&self) -> ErrorModel {
        match *self {
            ExprError::UnclosedExpression { position } => ErrorModel::UnclosedExpression { position: position as int },
            ExprError::EmptyExpression { position } => ErrorModel::EmptyExpression { position: position as int },
            ExprError::Compile { expression, detail } => ErrorModel::Compile {
                expression: expression@,
                detail: detail@,
            },
            ExprError::Evaluate { expression, detail } => ErrorModel::Evaluate {
                expression: expression@,
                detail: detail@,
            },
            ExprError::NotScalar { expression, got } => ErrorModel::NotScalar {
                expression: expression@,
                got: got@,
            },
            ExprError::NeedsCredentials { source } => ErrorModel::NeedsCredentials { source: source@ },
            ExprError::UnresolvedCredential { uri } => ErrorModel::UnresolvedCredential { uri: uri@ },
            ExprError::UnclosedEnv { position } => ErrorModel::UnclosedEnv { position: position as int },
            ExprError::EmptyEnvName { position } => ErrorModel::EmptyEnvName { position: position as int },
            ExprError::EnvNotSet { name } => ErrorModel::EnvNotSet { name: name@ },
            ExprError::EmptyHeaderName => ErrorModel::EmptyHeaderName,
            ExprError::InvalidHeaderName { name } => ErrorModel::InvalidHeaderName { name: name@ },
            ExprError::HeaderInjection { name } => ErrorModel::HeaderInjection { name: name@ },
        }
    }
}

/// The outcome of a function that gives text or fails, over mathematical values.
pub open spec fn text_outcome(r: Result<String, ExprError>) -> Result<Seq<char>, ErrorModel> {
    match r {
        Ok(s) => Ok(s@),
        Err(e) => Err(e@),
    }
}

/// The outcome of a check, over mathematical values.
pub open spec fn check_outcome(r: Result<(), ExprError>) -> Result<(), ErrorModel> {
    match r {
        Ok(()) => Ok(()),
        Err(e) => Err(e@),
    }
}

/// The sentence that an error reads as.
pub open spec fn sentence(e: ErrorModel) -> Seq<char> {
    match e {
        ErrorModel::UnclosedExpression { position } => "unclosed ${} expression at position "@ + decimal(position as nat),
        ErrorModel::EmptyExpression { position } => "empty expression at position "@ + decimal(position as nat),
        ErrorModel::Compile { expression, detail } => "expression source: "@ + expression,
        ErrorModel::Evaluate { expression, detail } => "expression: "@ + expression,
        ErrorModel::NotScalar { expression, got } => "expression: "@ + expression,
        ErrorModel::NeedsCredentials { source } => "value carries ${cred://…} reference(s); resolve it via resolve_with_credentials: "@
            + source,
        ErrorModel::UnresolvedCredential { uri } => "unresolved credential reference: "@ + uri,
        ErrorModel::UnclosedEnv { position } => "unclosed ${env.} reference at position "@ + decimal(position as nat),
        ErrorModel::EmptyEnvName { position } => "empty env var name in ${env.} at position "@ + decimal(
            position as nat,
        ),
        ErrorModel::EnvNotSet { name } => "environment variable '"@ + name + "' is not set"@,
        ErrorModel::EmptyHeaderName => "header name must not be empty"@,
        ErrorModel::InvalidHeaderName { name } => "header name '"@ + name + "' contains invalid characters"@,
        ErrorModel::HeaderInjection { name } => "header '"@ + name
            + "' value contains CR/LF characters (header injection risk)"@,
    }
}

/// What went wrong underneath an error whose sentence only says which
/// expression was at fault.
pub open spec fn underlying(e: ErrorModel) -> Option<Seq<char>> {
    match e {
        ErrorModel::Compile { expression, detail } => Some("failed to compile expression: "@ + detail),
        ErrorModel::Evaluate { expression, detail } => Some("expression evaluation failed: "@ + detail),
        ErrorModel::NotScalar { expression, got } => Some(
            "expression must evaluate to a string, number, or boolean, got "@ + got,
        ),
        _ => None,
    }
}

/// `before`, then `subject`, then `after`.
fn phrase(before: &str, subject: &str, after: &str) -> (r: String)
    ensures
        r@ == before@ + subject@ + after@,
{
    let mut r = before.to_owned();
    r.append(subject);
    r.append(after);
    r
}

/// `before`, then a byte offset.
fn phrase_at(before: &str, position: usize) -> (r: String)
    ensures
        r@ == before@ + decimal(position as nat),
{
    let mut r = before.to_owned();
    append_decimal(&mut r, position as u64);
    r
}

impl ExprError {
    /// The error as one sentence.
    pub fn message(&self) -> (r: String)
        ensures
            r@ == sentence(self@),
    {
        match self {
            ExprError::UnclosedExpression { position } => phrase_at("unclosed ${} expression at position ", *position),
            ExprError::EmptyExpression { position } => phrase_at("empty expression at position ", *position),
            ExprError::Compile { expression, .. } => "expression source: ".to_owned().concat(expression.as_str()),
            ExprError::Evaluate { expression, .. } => "expression: ".to_owned().concat(expression.as_str()),
            ExprError::NotScalar { expression, .. } => "expression: ".to_owned().concat(expression.as_str()),
            ExprError::NeedsCredentials { source } => "value carries ${cred://…} reference(s); resolve it via resolve_with_credentials: ".to_owned().concat(
                source.as_str(),
            ),
            ExprError::UnresolvedCredential { uri } => "unresolved credential reference: ".to_owned().concat(
                uri.as_str(),
            ),
            ExprError::UnclosedEnv { position } => phrase_at("unclosed ${env.} reference at position ", *position),
            ExprError::EmptyEnvName { position } => phrase_at("empty env var name in ${env.} at position ", *position),
            ExprError::EnvNotSet { name } => phrase("environment variable '", name.as_str(), "' is not set"),
            ExprError::EmptyHeaderName => "header name must not be empty".to_owned(),
            ExprError::InvalidHeaderName { name } => phrase(
                "header name '",
                name.as_str(),
                "' contains invalid characters",
            ),
            ExprError::HeaderInjection { name } => phrase(
                "header '",
                name.as_str(),
                "' value contains CR/LF characters (header injection risk)",
            ),
        }
    }

    /// What went wrong underneath, where [`ExprError::message`] only says
    /// which expression was at fault.
    pub fn cause(&self) -> (r: Option<String>)
        ensures
            match r {
                Some(text) => underlying(self@) == Some(text@),
                None => underlying(self@) is None,
            },
    {
        match self {
            ExprError::Compile { detail, .. } => Some("failed to compile expression: ".to_owned().concat(detail.as_str())),
            ExprError::Evaluate { detail, .. } => Some("expression evaluation failed: ".to_owned().concat(detail.as_str())),
            ExprError::NotScalar { got, .. } => Some(
                "expression must evaluate to a string, number, or boolean, got ".to_owned().concat(got.as_str()),
            ),
            _ => None,
        }
    }
}

/// A text is `before`, then a number in its plain decimal form.
pub open spec fn ends_in_number(text: Seq<char>, before: Seq<char>, n: int) -> bool {
    exists|digits: Seq<char>| #[trigger] is_plain_decimal(digits, n as nat) && text == before + digits
}

/// How errors read. A fault in a template or a text gives its byte offset in
/// plain decimal; the others give the expression, template, URI or name as it
/// is.
pub proof fn law_sentences(e: ErrorModel)
    ensures
        match e {
            ErrorModel::UnclosedExpression { position } => ends_in_number(
                sentence(e),
                "unclosed ${} expression at position "@,
                position,
            ),
            ErrorModel::EmptyExpression { position } => ends_in_number(
                sentence(e),
                "empty expression at position "@,
                position,
            ),
            ErrorModel::UnclosedEnv { position } => ends_in_number(
                sentence(e),
                "unclosed ${env.} reference at position "@,
                position,
            ),
            ErrorModel::EmptyEnvName { position } => ends_in_number(
                sentence(e),
                "empty env var name in ${env.} at position "@,
                position,
            ),
            ErrorModel::Compile { expression, detail } => sentence(e) == "expression source: "@ + expression,
            ErrorModel::Evaluate { expression, detail } => sentence(e) == "expression: "@ + expression,
            ErrorModel::NotScalar { expression, got } => sentence(e) == "expression: "@ + expression,
            ErrorModel::NeedsCredentials { source } => sentence(e)
                == "value carries ${cred://…} reference(s); resolve it via resolve_with_credentials: "@ + source,
            ErrorModel::UnresolvedCredential { uri } => sentence(e) == "unresolved credential reference: "@ + uri,
            ErrorModel::EnvNotSet { name } => sentence(e) == "environment variable '"@ + name + "' is not set"@,
            ErrorModel::EmptyHeaderName => sentence(e) == "header name must not be empty"@,
            ErrorModel::InvalidHeaderName { name } => sentence(e) == "header name '"@ + name
                + "' contains invalid characters"@,
            ErrorModel::HeaderInjection { name } => sentence(e) == "header '"@ + name
                + "' value contains CR/LF characters (header injection risk)"@,
        },
        match e {
            ErrorModel::Compile { expression, detail } => underlying(e) == Some(
                "failed to compile expression: "@ + detail,
            ),
            ErrorModel::Evaluate { expression, detail } => underlying(e) == Some(
                "expression evaluation failed: "@ + detail,
            ),
            ErrorModel::NotScalar { expression, got } => underlying(e) == Some(
                "expression must evaluate to a string, number, or boolean, got "@ + got,
            ),
            _ => underlying(e) is None,
        },
{
    match e {
        ErrorModel::UnclosedExpression { position } => {
            law_decimal_is_plain(position as nat);
        },
        ErrorModel::EmptyExpression { position } => {
            law_decimal_is_plain(position as nat);
        },
        ErrorModel::UnclosedEnv { position } => {
            law_decimal_is_plain(position as nat);
        },
        ErrorModel::EmptyEnvName { position } => {
            law_decimal_is_plain(position as nat);
        },
        _ => {},
    }
}

/// An error holds what it is made of, and so does an outcome.
pub proof fn law_error_models(e: ExprError, text: String)
    ensures
        match e {
            ExprError::UnclosedExpression { position } => e@ == (ErrorModel::UnclosedExpression {
                position: position as int,
            }),
            ExprError::EmptyExpression { position } => e@ == (ErrorModel::EmptyExpression { position: position as int }),
            ExprError::Compile { expression, detail } => e@ == (ErrorModel::Compile {
                expression: expression@,
                detail: detail@,
            }),
            ExprError::Evaluate { expression, detail } => e@ == (ErrorModel::Evaluate {
                expression: expression@,
                detail: detail@,
            }),
            ExprError::NotScalar { expression, got } => e@ == (ErrorModel::NotScalar {
                expression: expression@,
                got: got@,
            }),
            ExprError::NeedsCredentials { source } => e@ == (ErrorModel::NeedsCredentials { source: source@ }),
            ExprError::UnresolvedCredential { uri } => e@ == (ErrorModel::UnresolvedCredential { uri: uri@ }),
            ExprError::UnclosedEnv { position } => e@ == (ErrorModel::UnclosedEnv { position: position as int }),
            ExprError::EmptyEnvName { position } => e@ == (ErrorModel::EmptyEnvName { position: position as int }),
            ExprError::EnvNotSet { name } => e@ == (ErrorModel::EnvNotSet { name: name@ }),
            ExprError::EmptyHeaderName => e@ == ErrorModel::EmptyHeaderName,
            ExprError::InvalidHeaderName { name } => e@ == (ErrorModel::InvalidHeaderName { name: name@ }),
            ExprError::HeaderInjection { name } => e@ == (ErrorModel::HeaderInjection { name: name@ }),
        },
        text_outcome(Ok(text)) == Ok::<Seq<char>, ErrorModel>(text@),
        text_outcome(Err(e)) == Err::<Seq<char>, ErrorModel>(e@),
        check_outcome(Ok(())) == Ok::<(), ErrorModel>(()),
        check_outcome(Err(e)) == Err::<(), ErrorModel>(e@),
{
}

}
