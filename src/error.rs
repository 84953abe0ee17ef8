use vstd::prelude::*;

verus! {

/// Every failure that the timeline and the engine report.
#[derive(Debug, Clone)]
pub enum Error {
    /// An event would end before it starts.
    OrderingError,
    /// The event table's own invariant does not hold, or an id is taken.
    CorruptionError,
    /// No event has the given id.
    NotFoundError,
    /// No connection ends at the given input port of the given instance.
    MissingConnectionError { instance: usize, port: String },
    /// The two ends of a connection declare different value types.
    TypeMismatchError { source: usize, source_port: String, target: usize, target_port: String },
    /// The value that a connection should carry has not been produced yet.
    BufferMissError { source: usize, source_port: String },
    /// These instances depend on one another in a cycle.
    CyclicDependencyError { nodes: Vec<usize> },
    /// A baseline slot names an instance of the wrong class.
    ClassMismatchError { instance: usize },
    /// No instance is registered under this id.
    UnknownInstanceError { instance: usize },
    /// The baseline has no step with this index.
    UnknownStepError { step: usize },
    /// This instance has already run in the current run.
    AlreadyExecutedError { instance: usize },
    /// An Extension produced a value on a port it does not declare, of
    /// another type than declared, or twice on one port.
    OutputError { instance: usize },
    /// The plugins handed to an import differ from the stored ones in
    /// number, name or class, first at this position.
    TopologyMismatchError { instance: usize },
    /// The plugin itself reported a failure.
    PluginError { instance: usize, message: String },
}

} // verus!
