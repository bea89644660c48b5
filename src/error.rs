use vstd::prelude::*;

verus! {

/// The ways in which a build invocation can fail.
#[derive(Debug)]
pub enum ErrorKind {
    /// The build file could not be read or parsed.
    ConfigLoad { message: String },
    /// A recipe names a dependency that no recipe of the configuration declares.
    DependencyNotFound { recipe: String, dependency: String },
    /// The dependency graph is not acyclic.
    CycleDetected,
    /// A glob pattern is malformed.
    SourceExpansion { pattern: String },
    /// A template needs the stem of the first source of an invocation that has none.
    MissingSourceStem,
    /// A tool of a recipe exited with a failure status: the recipe, the tool's
    /// name, its command and the argument list of the failed invocation.
    ToolExecutionFailed { recipe: String, tool: String, cmd: String, args: Vec<String> },
    /// The environment refused an operation: a directory, or starting a process.
    Io { message: String },
}

/// The error of every fallible operation of the library.
#[derive(Debug)]
pub struct BakeError {
    pub kind: ErrorKind,
}

impl BakeError {
    pub fn new(kind: ErrorKind) -> (r: BakeError)
        ensures
            r.kind == kind,
    {
        BakeError { kind }
    }
}

} // verus!
