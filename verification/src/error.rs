//! Why an operation fails.

use vstd::prelude::*;

use crate::text::joined;

verus! {

/// The reasons for which an operation fails. `E` is what the outside reports
/// when a request fails there.
#[derive(Debug, PartialEq, Eq)]
pub enum Error<E> {
    /// Nothing stands at the path: an input/output error of the kind "not found".
    NotFound { message: String },
    /// What was found cannot be stored.
    InvalidHash { message: String },
    /// The name is too long for a tree entry.
    NameTooLong { name: String },
    /// A request failed outside.
    Outside(E),
}

/// An error with its text as a sequence of characters.
pub enum ErrorView<E> {
    NotFound { message: Seq<char> },
    InvalidHash { message: Seq<char> },
    NameTooLong { name: Seq<char> },
    Outside(E),
}

impl<E> View for Error<E> {
    type V = ErrorView<E>;

    open spec fn view(&self) -> ErrorView<E> {
        match self {
            Error::NotFound { message } => ErrorView::NotFound { message: message@ },
            Error::InvalidHash { message } => ErrorView::InvalidHash { message: message@ },
            Error::NameTooLong { name } => ErrorView::NameTooLong { name: name@ },
            Error::Outside(e) => ErrorView::Outside(*e),
        }
    }
}

/// The error for a path at which nothing stands; `shown` is the path as text.
pub open spec fn path_missing<E>(shown: Seq<char>) -> ErrorView<E> {
    ErrorView::NotFound { message: "Path does not exist: "@ + shown }
}

/// The error for a path at which neither a file nor a directory stands.
pub open spec fn unsupported_type<E>(shown: Seq<char>) -> ErrorView<E> {
    ErrorView::InvalidHash { message: "Unsupported file type: "@ + shown }
}

/// The error for a directory entry whose name is not text.
pub open spec fn invalid_file_name<E>(shown: Seq<char>) -> ErrorView<E> {
    ErrorView::InvalidHash { message: "Invalid filename: "@ + shown }
}

impl<E> Error<E> {
    /// An error about content that cannot be stored.
    pub fn invalid_hash(message: String) -> (error: Self)
        ensures
            error@ == (ErrorView::<E>::InvalidHash { message: message@ }),
    {
        Error::InvalidHash { message }
    }

    /// The error for a path at which nothing stands.
    pub fn path_missing(shown: &str) -> (error: Self)
        ensures
            error@ == path_missing::<E>(shown@),
    {
        Error::NotFound { message: joined("Path does not exist: ", shown) }
    }

    /// The error for a path at which neither a file nor a directory stands.
    pub fn unsupported_type(shown: &str) -> (error: Self)
        ensures
            error@ == unsupported_type::<E>(shown@),
    {
        Error::invalid_hash(joined("Unsupported file type: ", shown))
    }

    /// The error for a directory entry whose name is not text.
    pub fn invalid_file_name(shown: &str) -> (error: Self)
        ensures
            error@ == invalid_file_name::<E>(shown@),
    {
        Error::invalid_hash(joined("Invalid filename: ", shown))
    }
}

/// What the errors that name a path say.
pub proof fn errors_name_the_path<E>(shown: Seq<char>)
    ensures
        path_missing::<E>(shown) == (ErrorView::<E>::NotFound {
            message: "Path does not exist: "@ + shown,
        }),
        unsupported_type::<E>(shown) == (ErrorView::<E>::InvalidHash {
            message: "Unsupported file type: "@ + shown,
        }),
        invalid_file_name::<E>(shown) == (ErrorView::<E>::InvalidHash {
            message: "Invalid filename: "@ + shown,
        }),
{
}

/// Nothing of an error is lost in its view.
pub proof fn views_show_errors<E>(error: Error<E>)
    ensures
        match error {
            Error::NotFound { message } => error@ == (ErrorView::<E>::NotFound {
                message: message@,
            }),
            Error::InvalidHash { message } => error@ == (ErrorView::<E>::InvalidHash {
                message: message@,
            }),
            Error::NameTooLong { name } => error@ == (ErrorView::<E>::NameTooLong { name: name@ }),
            Error::Outside(e) => error@ == ErrorView::<E>::Outside(e),
        },
{
}

} // verus!
