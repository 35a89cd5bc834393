//! The receiving side: a transfer session, and where its files go.

use vstd::prelude::*;
use vstd::string::*;

use crate::protocol::{ProtocolError, ProtocolErrorView};
use crate::text::{io_error_text, text_from_utf8_lossy};

pub mod destination;
pub mod disk;
pub mod safety;
pub mod session;

pub use destination::{
    check_component, check_created, check_offered, check_partial, check_root, directories_beneath,
    failed_path, parent_directory, partial_name, partial_path, partial_root, unique_destination,
    Destinations,
};
pub use session::{ReceiveAction, ReceiveSession, ReceiveWant};

verus! {

/// Why a transfer was not received.
#[derive(Debug)]
pub enum ReceiveError {
    Io(std::io::Error),
    Protocol(ProtocolError),
    UnsafeDestination(String),
    HashMismatch(Vec<u8>),
}

/// What a [`ReceiveError`] says; of an I/O error, that it is one.
#[verifier::ext_equal]
pub enum ReceiveErrorView {
    Io,
    Protocol(ProtocolErrorView),
    UnsafeDestination(Seq<char>),
    HashMismatch(Seq<u8>),
}

impl View for ReceiveError {
    type V = ReceiveErrorView;

    open spec fn view(&self) -> ReceiveErrorView {
        match self {
            ReceiveError::Io(_) => ReceiveErrorView::Io,
            ReceiveError::Protocol(error) => ReceiveErrorView::Protocol(error@),
            ReceiveError::UnsafeDestination(message) => ReceiveErrorView::UnsafeDestination(
                message@,
            ),
            ReceiveError::HashMismatch(path) => ReceiveErrorView::HashMismatch(path@),
        }
    }
}

impl ReceiveErrorView {
    /// Whether `message` is the sentence for the error. What the operating
    /// system says of an I/O error is left open.
    pub open spec fn is_worded(self, message: Seq<char>) -> bool {
        match self {
            ReceiveErrorView::Io => "file I/O failed: "@.is_prefix_of(message),
            ReceiveErrorView::Protocol(error) => error.is_worded(message),
            ReceiveErrorView::UnsafeDestination(reason) => message == reason,
            ReceiveErrorView::HashMismatch(path) => message
                == "received data failed hash verification: "@ + crate::text::lossy_text(path),
        }
    }
}

impl ReceiveError {
    /// A sentence for the user.
    pub fn message(&self) -> (message: String)
        ensures
            self@.is_worded(message@),
    {
        match self {
            ReceiveError::Io(error) => {
                let mut message: String = String::new();
                message.append("file I/O failed: ");
                let reason = io_error_text(error);
                let ghost before = message@;
                message.append(reason.as_str());
                assert(before =~= "file I/O failed: "@);
                assert(before.is_prefix_of(message@));
                message
            },
            ReceiveError::Protocol(error) => error.message(),
            ReceiveError::UnsafeDestination(reason) => reason.clone(),
            ReceiveError::HashMismatch(path) => {
                let mut message: String = String::new();
                message.append("received data failed hash verification: ");
                let name = text_from_utf8_lossy(path.as_slice());
                message.append(name.as_str());
                assert(message@ =~= "received data failed hash verification: "@
                    + crate::text::lossy_text(path@));
                message
            },
        }
    }
}

impl From<std::io::Error> for ReceiveError {
    fn from(error: std::io::Error) -> (result: ReceiveError) {
        ReceiveError::Io(error)
    }
}

impl vstd::std_specs::convert::FromSpecImpl<std::io::Error> for ReceiveError {
    open spec fn obeys_from_spec() -> bool {
        true
    }

    open spec fn from_spec(error: std::io::Error) -> ReceiveError {
        ReceiveError::Io(error)
    }
}

impl From<ProtocolError> for ReceiveError {
    fn from(error: ProtocolError) -> (result: ReceiveError) {
        ReceiveError::Protocol(error)
    }
}

impl vstd::std_specs::convert::FromSpecImpl<ProtocolError> for ReceiveError {
    open spec fn obeys_from_spec() -> bool {
        true
    }

    open spec fn from_spec(error: ProtocolError) -> ReceiveError {
        ReceiveError::Protocol(error)
    }
}

/// What the sentence for an error tells: the protocol's own sentence, the reason why
/// a destination was refused, or the file whose digest was wrong.
pub proof fn law_receive_errors_are_told(error: ReceiveErrorView, message: Seq<char>)
    requires
        error.is_worded(message),
    ensures
        match error {
            ReceiveErrorView::Io => message.take("file I/O failed: "@.len() as int)
                == "file I/O failed: "@,
            ReceiveErrorView::Protocol(inner) => inner.is_worded(message),
            ReceiveErrorView::UnsafeDestination(reason) => message == reason,
            ReceiveErrorView::HashMismatch(path) => message
                == "received data failed hash verification: "@ + crate::text::lossy_text(path),
        },
{
    if error is Io {
        assert("file I/O failed: "@ =~= message.take("file I/O failed: "@.len() as int));
    }
}

} // verus!
