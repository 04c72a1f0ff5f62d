use vstd::prelude::*;

verus! {

/// The messages the interface layer sends to the orchestrating caller:
/// the caller reacts to each by driving the parse, align and export
/// pipeline, resetting the configuration, or shutting down.
#[derive(Clone, Copy, PartialEq, Debug)]
pub enum InterfaceMessage {
    /// Indicates that the user wants to process a selected input and output file
    Process,
    /// Indicates that the user wants to close the program
    AppClosing,
    /// Indicates that the user wants to reset the config to the default value
    ConfigReset,
}

} // verus!
