//! What can go wrong, and how it is told.
use crate::text;
use crate::text::decimal_text;
use vstd::prelude::*;
use vstd::string::*;

verus! {

/// An error of this library.
#[derive(Debug, Clone, PartialEq, Eq)]
pub enum ReferenceError {
    /// A symbol kind that is not among the known ones.
    KindNotAllowed { kind: String },
    /// No reference cache for a version.
    CacheMissing { label: String, dir: String },
    /// The lines around a symbol could not be read.
    ExcerptUnreadable { path: String, line: u32, cause: String },
}

/// What a [`ReferenceError`] stands for.
pub enum ErrorModel {
    KindNotAllowed { kind: Seq<char> },
    CacheMissing { label: Seq<char>, dir: Seq<char> },
    ExcerptUnreadable { path: Seq<char>, line: u32, cause: Seq<char> },
}

impl DeepView for ReferenceError {
    type V = ErrorModel;

    open spec fn deep_view(&self) -> ErrorModel {
        match self {
            ReferenceError::KindNotAllowed { kind } => ErrorModel::KindNotAllowed { kind: kind@ },
            ReferenceError::CacheMissing { label, dir } => ErrorModel::CacheMissing {
                label: label@,
                dir: dir@,
            },
            ReferenceError::ExcerptUnreadable { path, line, cause } => ErrorModel::ExcerptUnreadable {
                path: path@,
                line: *line,
                cause: cause@,
            },
        }
    }
}

/// An error stands for all that it tells.
pub proof fn errors_stand_for_their_fields(kind: String, label: String, path: String, line: u32)
    ensures
        (ReferenceError::KindNotAllowed { kind }).deep_view() == (ErrorModel::KindNotAllowed {
            kind: kind@,
        }),
        (ReferenceError::CacheMissing { label, dir: path }).deep_view() == (ErrorModel::CacheMissing {
            label: label@,
            dir: path@,
        }),
        (ReferenceError::ExcerptUnreadable { path, line, cause: label }).deep_view() == (
        ErrorModel::ExcerptUnreadable { path: path@, line, cause: label@ }),
{
}

/// The text of an error.
pub open spec fn message_of(error: ErrorModel) -> Seq<char> {
    match error {
        ErrorModel::KindNotAllowed { kind } => "kind '"@ + kind
            + "' is not allowed (expected one of: class, interface, struct, enum, method, property, field)"@,
        ErrorModel::CacheMissing { label, dir } => "reference cache for "@ + label + " ("@ + dir
            + ") does not exist; run `unity-cli reference fetch --version "@ + label + "` first"@,
        ErrorModel::ExcerptUnreadable { path, line, cause } => "failed to read excerpt for "@ + path
            + " at line "@ + text::decimal(line as nat),
    }
}

impl ReferenceError {
    /// Tells the error. What an unreadable excerpt failed on is not part of the
    /// text; it is the error's `cause`.
    pub fn message(&self) -> (r: String)
        ensures
            r@ == message_of(self.deep_view()),
            match self {
                ReferenceError::KindNotAllowed { kind } => r@ == "kind '"@ + kind@
                    + "' is not allowed (expected one of: class, interface, struct, enum, method, property, field)"@,
                ReferenceError::CacheMissing { label, dir } => r@ == "reference cache for "@ + label@
                    + " ("@ + dir@ + ") does not exist; run `unity-cli reference fetch --version "@
                    + label@ + "` first"@,
                ReferenceError::ExcerptUnreadable { path, line, cause: _ } => r@
                    == "failed to read excerpt for "@ + path@ + " at line "@ + text::decimal(
                    *line as nat,
                ),
            },
    {
        match self {
            ReferenceError::KindNotAllowed { kind } => {
                let mut text = "kind '".to_string();
                text.append(kind.as_str());
                text.append(
                    "' is not allowed (expected one of: class, interface, struct, enum, method, property, field)",
                );
                text
            },
            ReferenceError::CacheMissing { label, dir } => {
                let mut text = "reference cache for ".to_string();
                text.append(label.as_str());
                text.append(" (");
                text.append(dir.as_str());
                text.append(") does not exist; run `unity-cli reference fetch --version ");
                text.append(label.as_str());
                text.append("` first");
                text
            },
            ReferenceError::ExcerptUnreadable { path, line, cause: _ } => {
                let mut text = "failed to read excerpt for ".to_string();
                text.append(path.as_str());
                text.append(" at line ");
                text.append(decimal_text(*line as u128).as_str());
                text
            },
        }
    }
}

} // verus!
