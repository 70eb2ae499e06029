use dump_filter::config::{Plan, RunConfig};

fn config(filter: &str, input: bool, output: bool, overwrite: bool) -> RunConfig {
    RunConfig {
        input_source: if input { Some("dump.json.bz2".to_string()) } else { None },
        output_destination: if output { Some("out.json".to_string()) } else { None },
        filter_expression: filter.to_string(),
        continue_on_error: false,
        overwrite_existing_output: overwrite,
    }
}

#[test]
fn without_filter_nothing_runs() {
    assert_eq!(config("", true, true, false).plan(true), Plan::NoFilter);
    assert_eq!(config("", false, false, false).plan(false), Plan::NoFilter);
}

#[test]
fn existing_output_is_not_overwritten_unasked() {
    assert_eq!(config(".id", true, true, false).plan(true), Plan::OutputExists);
    // the output is looked at before the input
    assert_eq!(config(".id", false, true, false).plan(true), Plan::OutputExists);
}

#[test]
fn existing_output_is_overwritten_when_asked() {
    assert_eq!(config(".id", true, true, true).plan(true), Plan::Run);
}

#[test]
fn new_output_and_standard_output_are_written() {
    assert_eq!(config(".id", true, true, false).plan(false), Plan::Run);
    assert_eq!(config(".id", true, false, false).plan(false), Plan::Run);
    assert_eq!(config(".id", true, false, false).plan(true), Plan::Run);
}

#[test]
fn missing_input_refuses_the_run() {
    assert_eq!(config(".id", false, false, false).plan(false), Plan::NoInput);
    assert_eq!(config(".id", false, true, true).plan(true), Plan::NoInput);
}
