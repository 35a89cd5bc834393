//! The sending side: the files that are sent, and a transfer session.

use vstd::prelude::*;
use vstd::string::*;

use crate::protocol::{ProtocolError, ProtocolErrorView};
use crate::text::{io_error_text, text_from_utf8_lossy};

pub mod session;
pub mod source;

pub use session::{SendAction, SendSession, SendWant};
pub use source::{
    check_entry, check_input, check_inputs, file_name, inspection_error, transfer_id, SourceEntry,
    SourceFile, SourceKind, SourceList,
};

verus! {

/// Why a transfer was not sent.
#[derive(Debug)]
pub enum SendError {
    Io(std::io::Error),
    Protocol(ProtocolError),
    InvalidInput(String),
    SourceChanged(Vec<u8>),
}

/// What a [`SendError`] says; of an I/O error, that it is one.
#[verifier::ext_equal]
pub enum SendErrorView {
    Io,
    Protocol(ProtocolErrorView),
    InvalidInput(Seq<char>),
    SourceChanged(Seq<u8>),
}

impl View for SendError {
    type V = SendErrorView;

    open spec fn view(&self) -> SendErrorView {
        match self {
            SendError::Io(_) => SendErrorView::Io,
            SendError::Protocol(error) => SendErrorView::Protocol(error@),
            SendError::InvalidInput(message) => SendErrorView::InvalidInput(message@),
            SendError::SourceChanged(path) => SendErrorView::SourceChanged(path@),
        }
    }
}

impl SendErrorView {
    /// Whether `message` is the sentence for the error. What the operating
    /// system says of an I/O error is left open.
    pub open spec fn is_worded(self, message: Seq<char>) -> bool {
        match self {
            SendErrorView::Io => "file I/O failed: "@.is_prefix_of(message),
            SendErrorView::Protocol(error) => error.is_worded(message),
            SendErrorView::InvalidInput(reason) => message == reason,
            SendErrorView::SourceChanged(path) => message
                == "source file changed while it was being sent: "@ + crate::text::lossy_text(path),
        }
    }
}

impl SendError {
    /// A sentence for the user.
    pub fn message(&self) -> (message: String)
        ensures
            self@.is_worded(message@),
    {
        match self {
            SendError::Io(error) => {
                let mut message: String = String::new();
                message.append("file I/O failed: ");
                let reason = io_error_text(error);
                let ghost before = message@;
                message.append(reason.as_str());
                assert(before =~= "file I/O failed: "@);
                assert(before.is_prefix_of(message@));
                message
            },
            SendError::Protocol(error) => error.message(),
            SendError::InvalidInput(reason) => reason.clone(),
            SendError::SourceChanged(path) => {
                let mut message: String = String::new();
                message.append("source file changed while it was being sent: ");
                let name = text_from_utf8_lossy(path.as_slice());
                message.append(name.as_str());
                assert(message@ =~= "source file changed while it was being sent: "@
                    + crate::text::lossy_text(path@));
                message
            },
        }
    }
}

impl From<std::io::Error> for SendError {
    fn from(error: std::io::Error) -> (result: SendError) {
        SendError::Io(error)
    }
}

impl vstd::std_specs::convert::FromSpecImpl<std::io::Error> for SendError {
    open spec fn obeys_from_spec() -> bool {
        true
    }

    open spec fn from_spec(error: std::io::Error) -> SendError {
        SendError::Io(error)
    }
}

impl From<ProtocolError> for SendError {
    fn from(error: ProtocolError) -> (result: SendError) {
        SendError::Protocol(error)
    }
}

impl vstd::std_specs::convert::FromSpecImpl<ProtocolError> for SendError {
    open spec fn obeys_from_spec() -> bool {
        true
    }

    open spec fn from_spec(error: ProtocolError) -> SendError {
        SendError::Protocol(error)
    }
}

/// What the sentence for an error tells: the protocol's own sentence, what is wrong
/// with an input, or the file that was changed.
pub proof fn law_send_errors_are_told(error: SendErrorView, message: Seq<char>)
    requires
        error.is_worded(message),
    ensures
        match error {
            SendErrorView::Io => message.take("file I/O failed: "@.len() as int)
                == "file I/O failed: "@,
            SendErrorView::Protocol(inner) => inner.is_worded(message),
            SendErrorView::InvalidInput(reason) => message == reason,
            SendErrorView::SourceChanged(path) => message
                == "source file changed while it was being sent: "@ + crate::text::lossy_text(path),
        },
{
    if error is Io {
        assert("file I/O failed: "@ =~= message.take("file I/O failed: "@.len() as int));
    }
}

} // verus!
