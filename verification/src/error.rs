//! The ways in which collecting or resolving a tree can fail.
use vstd::prelude::*;
use vstd::string::StringExecFns;

verus! {

/// A fatal failure. No instance is handed out once one of these is reported.
#[derive(Debug)]
pub enum InitError {
    /// A dependency chain reached the depth ceiling, which a cycle always
    /// does. `tree` names everything collected up to that point.
    DependencyTooDeep { tree: String },
    /// The engine stopped making progress while components were still
    /// pending. `locked` names them.
    UnresolvedDependencies { locked: String },
    /// A constructor asked for a second handle to an instance that was
    /// already handed out for the same step. `name` names the component.
    ConcurrentBorrowConflict { name: String },
}

impl Clone for InitError {
    /// The same failure with the same names.
    fn clone(&self) -> (copy: Self)
        ensures
            copy.message_text() == self.message_text(),
    {
        match self {
            InitError::DependencyTooDeep { tree } => InitError::DependencyTooDeep {
                tree: tree.clone(),
            },
            InitError::UnresolvedDependencies { locked } => InitError::UnresolvedDependencies {
                locked: locked.clone(),
            },
            InitError::ConcurrentBorrowConflict { name } => InitError::ConcurrentBorrowConflict {
                name: name.clone(),
            },
        }
    }
}

impl InitError {
    /// The text of the diagnostic.
    pub open spec fn message_text(self) -> Seq<char> {
        match self {
            InitError::DependencyTooDeep { tree } => {
                "Dependency tree too deep, this is usually due to a circular dependency. Current tree: ["@
                    + tree@ + "]"@
            },
            InitError::UnresolvedDependencies { locked } => {
                "Unable to resolve initialization tree. Locked on ["@ + locked@ + "]"@
            },
            InitError::ConcurrentBorrowConflict { name } => {
                "Unable to hand out a dependency twice at once. Requested by ["@ + name@ + "]"@
            },
        }
    }

    /// Renders the diagnostic.
    pub fn message(&self) -> (text: String)
        ensures
            text@ == self.message_text(),
    {
        match self {
            InitError::DependencyTooDeep { tree } => {
                let mut text = String::from_str(
                    "Dependency tree too deep, this is usually due to a circular dependency. Current tree: [",
                );
                text.append(tree.as_str());
                text.append("]");
                text
            },
            InitError::UnresolvedDependencies { locked } => {
                let mut text = String::from_str(
                    "Unable to resolve initialization tree. Locked on [",
                );
                text.append(locked.as_str());
                text.append("]");
                text
            },
            InitError::ConcurrentBorrowConflict { name } => {
                let mut text = String::from_str(
                    "Unable to hand out a dependency twice at once. Requested by [",
                );
                text.append(name.as_str());
                text.append("]");
                text
            },
        }
    }
}

} // verus!
