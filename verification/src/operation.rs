//! The primitive filesystem operations and the record of their outcome.

use vstd::prelude::*;

verus! {

/// One planned change to the filesystem.
#[derive(Debug, PartialEq, Eq)]
pub enum FileOperation {
    /// Make the directory at `path`.
    CreateDir { path: String },
    /// Make an empty file at `path`.
    CreateFile { path: String },
    /// Move what is at `from` to `to`.
    Rename { from: String, to: String },
    /// Remove what is at `path`, a directory with all it holds.
    Delete { path: String },
}

/// The mathematical content of a `FileOperation`.
pub enum OpView {
    CreateDir { path: Seq<char> },
    CreateFile { path: Seq<char> },
    Rename { from: Seq<char>, to: Seq<char> },
    Delete { path: Seq<char> },
}

impl View for FileOperation {
    type V = OpView;

    open spec fn view(&self) -> OpView {
        match *self {
            FileOperation::CreateDir { path } => OpView::CreateDir { path: path@ },
            FileOperation::CreateFile { path } => OpView::CreateFile { path: path@ },
            FileOperation::Rename { from, to } => OpView::Rename { from: from@, to: to@ },
            FileOperation::Delete { path } => OpView::Delete { path: path@ },
        }
    }
}

impl OpView {
    /// The path that the operation brings into being or removes: the destination of a
    /// rename, the path of the others.
    pub open spec fn target(self) -> Seq<char> {
        match self {
            OpView::CreateDir { path } => path,
            OpView::CreateFile { path } => path,
            OpView::Rename { from, to } => to,
            OpView::Delete { path } => path,
        }
    }

    /// The path that the operation reads from: the origin of a rename, the path of the
    /// others.
    pub open spec fn source(self) -> Seq<char> {
        match self {
            OpView::CreateDir { path } => path,
            OpView::CreateFile { path } => path,
            OpView::Rename { from, to } => from,
            OpView::Delete { path } => path,
        }
    }
}

/// The views of a sequence of operations.
pub open spec fn ops_view(ops: Seq<FileOperation>) -> Seq<OpView> {
    ops.map_values(|o: FileOperation| o@)
}

impl Clone for FileOperation {
    /// An independent copy of the operation.
    fn clone(&self) -> (r: FileOperation)
        ensures
            r@ == self@,
    {
        self.duplicate()
    }
}

impl FileOperation {
    /// An independent copy of the operation.
    pub fn duplicate(&self) -> (r: FileOperation)
        ensures
            r@ == self@,
    {
        match self {
            FileOperation::CreateDir { path } => FileOperation::CreateDir { path: path.clone() },
            FileOperation::CreateFile { path } => FileOperation::CreateFile { path: path.clone() },
            FileOperation::Rename { from, to } => FileOperation::Rename {
                from: from.clone(),
                to: to.clone(),
            },
            FileOperation::Delete { path } => FileOperation::Delete { path: path.clone() },
        }
    }

    /// The operation in words.
    pub fn describe(&self) -> (s: String)
        ensures
            s@ == spec_describe(self@),
    {
        match self {
            FileOperation::CreateDir { path } => crate::text::concat2(
                "Create directory ",
                path.as_str(),
            ),
            FileOperation::CreateFile { path } => crate::text::concat2(
                "Create file ",
                path.as_str(),
            ),
            FileOperation::Rename { from, to } => crate::text::concat4(
                "Rename ",
                from.as_str(),
                " to ",
                to.as_str(),
            ),
            FileOperation::Delete { path } => crate::text::concat2("Delete ", path.as_str()),
        }
    }
}

/// The wording of `describe`.
pub open spec fn spec_describe(op: OpView) -> Seq<char> {
    match op {
        OpView::CreateDir { path } => "Create directory "@ + path,
        OpView::CreateFile { path } => "Create file "@ + path,
        OpView::Rename { from, to } => "Rename "@ + from + " to "@ + to,
        OpView::Delete { path } => "Delete "@ + path,
    }
}

/// How one operation ended.
#[derive(Debug, PartialEq, Eq)]
pub struct OperationResult {
    /// The operation in words.
    pub operation: String,
    /// Whether it took effect.
    pub success: bool,
    /// What happened.
    pub message: String,
}

/// The mathematical content of an `OperationResult`.
pub struct ResultView {
    pub operation: Seq<char>,
    pub success: bool,
    pub message: Seq<char>,
}

impl View for OperationResult {
    type V = ResultView;

    open spec fn view(&self) -> ResultView {
        ResultView { operation: self.operation@, success: self.success, message: self.message@ }
    }
}

} // verus!
