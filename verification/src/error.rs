//! Errors the library reports.

use vstd::prelude::*;

verus! {

/// The classes of failure.
#[derive(Clone, Copy, Debug, PartialEq, Eq, Structural)]
pub enum ErrorType {
    PermissionDenied,
    FileNotFound,
    PathAlreadyExists,
    SystemError,
    UserAbort,
    InvalidFilename,
    DiskFull,
    /// The input tree is structurally invalid.
    MalformedTree,
}

/// What went wrong with an operating-system call, as far as the library distinguishes it.
#[derive(Clone, Copy, Debug, PartialEq, Eq, Structural)]
pub enum IoErrorKind {
    NotFound,
    PermissionDenied,
    AlreadyExists,
    DirectoryNotEmpty,
    Other,
}

/// A failure with its class, a message, the path it concerns when there is one, and whether
/// the caller can reasonably retry.
#[derive(Debug, PartialEq, Eq)]
pub struct AppError {
    pub error_type: ErrorType,
    pub message: String,
    pub path: Option<String>,
    pub recoverable: bool,
}

/// The mathematical content of an `AppError`.
pub struct AppErrorView {
    pub error_type: ErrorType,
    pub message: Seq<char>,
    pub path: Option<Seq<char>>,
    pub recoverable: bool,
}

impl View for AppError {
    type V = AppErrorView;

    open spec fn view(&self) -> AppErrorView {
        AppErrorView {
            error_type: self.error_type,
            message: self.message@,
            path: match self.path {
                Some(p) => Some(p@),
                None => None,
            },
            recoverable: self.recoverable,
        }
    }
}

/// The error that an operating-system failure of the given kind becomes. `detail` is the
/// system's own description, used only for kinds without a fixed message.
pub open spec fn spec_from_io(kind: IoErrorKind, detail: Seq<char>) -> AppErrorView {
    match kind {
        IoErrorKind::PermissionDenied => AppErrorView {
            error_type: ErrorType::PermissionDenied,
            message: "Permission denied"@,
            path: None,
            recoverable: false,
        },
        IoErrorKind::NotFound => AppErrorView {
            error_type: ErrorType::FileNotFound,
            message: "File not found"@,
            path: None,
            recoverable: false,
        },
        IoErrorKind::AlreadyExists => AppErrorView {
            error_type: ErrorType::PathAlreadyExists,
            message: "Path already exists"@,
            path: None,
            recoverable: true,
        },
        _ => AppErrorView {
            error_type: ErrorType::SystemError,
            message: detail,
            path: None,
            recoverable: false,
        },
    }
}

/// The error for a structurally invalid tree.
pub open spec fn spec_malformed(message: Seq<char>) -> AppErrorView {
    AppErrorView {
        error_type: ErrorType::MalformedTree,
        message,
        path: None,
        recoverable: false,
    }
}

impl AppError {
    /// Classifies an operating-system failure.
    pub fn from_io(kind: IoErrorKind, detail: &str) -> (e: AppError)
        ensures
            e@ == spec_from_io(kind, detail@),
    {
        match kind {
            IoErrorKind::PermissionDenied => AppError {
                error_type: ErrorType::PermissionDenied,
                message: "Permission denied".to_owned(),
                path: None,
                recoverable: false,
            },
            IoErrorKind::NotFound => AppError {
                error_type: ErrorType::FileNotFound,
                message: "File not found".to_owned(),
                path: None,
                recoverable: false,
            },
            IoErrorKind::AlreadyExists => AppError {
                error_type: ErrorType::PathAlreadyExists,
                message: "Path already exists".to_owned(),
                path: None,
                recoverable: true,
            },
            _ => AppError {
                error_type: ErrorType::SystemError,
                message: detail.to_owned(),
                path: None,
                recoverable: false,
            },
        }
    }

    /// A malformed-tree error with the given message.
    pub fn malformed(message: &str) -> (e: AppError)
        ensures
            e@ == spec_malformed(message@),
    {
        AppError {
            error_type: ErrorType::MalformedTree,
            message: message.to_owned(),
            path: None,
            recoverable: false,
        }
    }

    /// The name of an error class, as it is printed.
    pub open spec fn spec_type_name(t: ErrorType) -> Seq<char> {
        match t {
            ErrorType::PermissionDenied => "PermissionDenied"@,
            ErrorType::FileNotFound => "FileNotFound"@,
            ErrorType::PathAlreadyExists => "PathAlreadyExists"@,
            ErrorType::SystemError => "SystemError"@,
            ErrorType::UserAbort => "UserAbort"@,
            ErrorType::InvalidFilename => "InvalidFilename"@,
            ErrorType::DiskFull => "DiskFull"@,
            ErrorType::MalformedTree => "MalformedTree"@,
        }
    }

    /// The error as one line: the class, a colon and a space, the message.
    pub fn describe(&self) -> (s: String)
        ensures
            s@ == Self::spec_type_name(self.error_type) + ": "@ + self.message@,
    {
        let name = match self.error_type {
            ErrorType::PermissionDenied => "PermissionDenied",
            ErrorType::FileNotFound => "FileNotFound",
            ErrorType::PathAlreadyExists => "PathAlreadyExists",
            ErrorType::SystemError => "SystemError",
            ErrorType::UserAbort => "UserAbort",
            ErrorType::InvalidFilename => "InvalidFilename",
            ErrorType::DiskFull => "DiskFull",
            ErrorType::MalformedTree => "MalformedTree",
        };
        crate::text::concat3(name, ": ", self.message.as_str())
    }
}

} // verus!
