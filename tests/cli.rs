use rustfmt_if_chain::{classify_arg, classify_lowered, process_args, ArgKind};

fn strings(v: &[&str]) -> Vec<String> {
    v.iter().map(|s| s.to_string()).collect()
}

#[test]
fn arguments_are_sorted_by_kind() {
    let args = strings(&[
        "--edition=2021",
        "src/main.rs",
        "--preformat-failure-is-warning",
        "LIB.RS",
        "--check",
    ]);
    let o = process_args(&args).unwrap();
    assert_eq!(o.args, strings(&["--edition=2021", "--check"]));
    assert_eq!(o.paths, strings(&["src/main.rs", "LIB.RS"]));
    assert!(o.preformat_failure_is_warning);
}

#[test]
fn no_arguments() {
    let o = process_args(&Vec::new()).unwrap();
    assert!(o.args.is_empty());
    assert!(o.paths.is_empty());
    assert!(!o.preformat_failure_is_warning);
}

#[test]
fn help_stops_everything() {
    assert!(process_args(&strings(&["a.rs", "--help"])).is_none());
    assert!(process_args(&strings(&["-h"])).is_none());
}

#[test]
fn source_files_are_recognised_in_any_case() {
    assert_eq!(classify_arg("MAIN.RS"), ArgKind::SourceFile);
    assert_eq!(classify_arg("x.Rs"), ArgKind::SourceFile);
    assert_eq!(classify_arg("x.rsx"), ArgKind::Forwarded);
    assert_eq!(classify_arg(".rs"), ArgKind::SourceFile);
    assert_eq!(classify_arg("rs"), ArgKind::Forwarded);
    assert_eq!(classify_arg("--HELP"), ArgKind::Forwarded);
}

#[test]
fn kind_given_lower_case_form() {
    assert_eq!(classify_lowered("A.RS", "a.rs"), ArgKind::SourceFile);
    assert_eq!(classify_lowered("A.RS", "A.RS"), ArgKind::Forwarded);
    assert_eq!(classify_lowered("-h", "-h"), ArgKind::Help);
    assert_eq!(
        classify_lowered("--preformat-failure-is-warning", "--preformat-failure-is-warning"),
        ArgKind::PreformatFailureIsWarning
    );
}
