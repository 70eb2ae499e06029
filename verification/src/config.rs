//! The parameters of a run, and what is decided from them before the run
//! starts.
use vstd::prelude::*;

verus! {

/// The parameters of a run.
#[derive(Debug, Clone, PartialEq, Eq)]
pub struct RunConfig {
    /// Where the compressed dump is read from.
    pub input_source: Option<String>,
    /// Where the output goes; the standard output if none is named.
    pub output_destination: Option<String>,
    /// The filter that is applied to each record.
    pub filter_expression: String,
    /// Whether a record whose transform fails is replaced by the sentinel.
    pub continue_on_error: bool,
    /// Whether an output that exists already may be overwritten.
    pub overwrite_existing_output: bool,
}

/// What is to be done with a configuration.
#[derive(Debug, Clone, Copy, PartialEq, Eq)]
pub enum Plan {
    /// No filter is given: there is nothing to run.
    NoFilter,
    /// The named output exists and may not be overwritten: the run is
    /// refused before it starts.
    OutputExists,
    /// No input is named: the run is refused before it starts.
    NoInput,
    /// The run can start.
    Run,
}

/// The decision of [`RunConfig::plan`]: without a filter nothing runs;
/// else an output that is named, exists and may not be overwritten refuses
/// the run; else a missing input does; else the run starts.
pub open spec fn plan_of(
    has_filter: bool,
    names_output: bool,
    output_exists: bool,
    overwrite: bool,
    names_input: bool,
) -> Plan {
    if !has_filter {
        Plan::NoFilter
    } else if names_output && output_exists && !overwrite {
        Plan::OutputExists
    } else if !names_input {
        Plan::NoInput
    } else {
        Plan::Run
    }
}

impl RunConfig {
    /// Decides before the run whether it can start. `output_exists` says
    /// whether the named output is there already.
    pub fn plan(&self, output_exists: bool) -> (p: Plan)
        ensures
            p == plan_of(
                self.filter_expression@.len() > 0,
                self.output_destination is Some,
                output_exists,
                self.overwrite_existing_output,
                self.input_source is Some,
            ),
    {
        if self.filter_expression.as_str().is_empty() {
            Plan::NoFilter
        } else if self.output_destination.is_some() && output_exists
            && !self.overwrite_existing_output {
            Plan::OutputExists
        } else if self.input_source.is_none() {
            Plan::NoInput
        } else {
            Plan::Run
        }
    }
}

} // verus!
