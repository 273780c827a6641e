//! Where the password comes from.
use vstd::prelude::*;

verus! {

/// What to do next for a password.
pub enum PasswordStep {
    /// This is the password.
    Use { password: String },
    /// Read this file, and go on with `step_after_file`.
    ReadFile { path: String },
    /// Look up this environment variable, and go on with `step_after_env`.
    ReadEnv { variable: String },
    /// Ask for the password; what is typed is the password.
    Prompt,
}

/// A step, with its text as characters.
pub enum PasswordStepView {
    Use { password: Seq<char> },
    ReadFile { path: Seq<char> },
    ReadEnv { variable: Seq<char> },
    Prompt,
}

impl View for PasswordStep {
    type V = PasswordStepView;

    open spec fn view(&self) -> PasswordStepView {
        match *self {
            PasswordStep::Use { password } => PasswordStepView::Use { password: password@ },
            PasswordStep::ReadFile { path } => PasswordStepView::ReadFile { path: path@ },
            PasswordStep::ReadEnv { variable } => PasswordStepView::ReadEnv {
                variable: variable@,
            },
            PasswordStep::Prompt => PasswordStepView::Prompt,
        }
    }
}

/// The characters with the Unicode property White_Space.
pub open spec fn is_whitespace(c: char) -> bool {
    ||| '\u{9}' <= c <= '\u{d}'
    ||| c == '\u{20}'
    ||| c == '\u{85}'
    ||| c == '\u{a0}'
    ||| c == '\u{1680}'
    ||| '\u{2000}' <= c <= '\u{200a}'
    ||| c == '\u{2028}'
    ||| c == '\u{2029}'
    ||| c == '\u{202f}'
    ||| c == '\u{205f}'
    ||| c == '\u{3000}'
}

/// `text` without the white space at its end.
pub open spec fn trimmed_end(text: Seq<char>) -> Seq<char>
    decreases text.len(),
{
    if text.len() > 0 && is_whitespace(text.last()) {
        trimmed_end(text.drop_last())
    } else {
        text
    }
}

/// `str::trim_end`. Claimed: it takes away the characters at the end that have the Unicode
/// property White_Space, and no others.
pub assume_specification[ str::trim_end ](text: &str) -> (rest: &str)
    ensures
        rest@ == trimmed_end(text@),
;

/// The first step: a password that was given is used; else a file that was named is read;
/// else an environment variable that was named is looked up; else the password is asked for.
pub fn first_step(
    password: Option<&str>,
    password_file: Option<&str>,
    password_env: Option<&str>,
) -> (step: PasswordStep)
    ensures
        step@ == match (password, password_file, password_env) {
            (Some(password), _, _) => PasswordStepView::Use { password: password@ },
            (None, Some(path), _) => PasswordStepView::ReadFile { path: path@ },
            (None, None, Some(variable)) => PasswordStepView::ReadEnv { variable: variable@ },
            (None, None, None) => PasswordStepView::Prompt,
        },
{
    if let Some(password) = password {
        return PasswordStep::Use { password: password.to_owned() };
    }
    if let Some(path) = password_file {
        return PasswordStep::ReadFile { path: path.to_owned() };
    }
    if let Some(variable) = password_env {
        return PasswordStep::ReadEnv { variable: variable.to_owned() };
    }
    PasswordStep::Prompt
}

/// After a password file has been read: its text without the white space at its end is the
/// password.
pub fn step_after_file(content: &str) -> (step: PasswordStep)
    ensures
        step@ == (PasswordStepView::Use { password: trimmed_end(content@) }),
{
    PasswordStep::Use { password: content.trim_end().to_owned() }
}

/// After an environment variable has been looked up: its value, as it is, is the password; if
/// it has none, the password is asked for.
pub fn step_after_env(value: Option<String>) -> (step: PasswordStep)
    ensures
        step@ == match value {
            Some(password) => PasswordStepView::Use { password: password@ },
            None => PasswordStepView::Prompt,
        },
{
    match value {
        Some(password) => PasswordStep::Use { password },
        None => PasswordStep::Prompt,
    }
}

} // verus!
