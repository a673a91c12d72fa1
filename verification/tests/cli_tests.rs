use pips_solver::cli::{run_cli, CliError, CliRequest};

#[test]
fn cli_usage_branch() {
    assert_eq!(run_cli(&[]), Err(CliError::Usage));
}

#[test]
fn cli_unknown_flag_branch() {
    let args = vec!["--weird".to_string(), "easy_grid.json".to_string()];
    assert_eq!(run_cli(&args), Err(CliError::UnknownFlag("--weird".to_string())));
}

#[test]
fn cli_wrong_arity_branch() {
    let args = vec!["easy_grid.json".to_string(), "medium_grid.json".to_string()];
    assert_eq!(run_cli(&args), Err(CliError::WrongArity(2)));
}

#[test]
fn cli_single_path_defaults_to_color() {
    let args = vec!["easy_grid.json".to_string()];
    assert_eq!(
        run_cli(&args),
        Ok(CliRequest { path: "easy_grid.json".to_string(), color: true })
    );
}

#[test]
fn cli_no_color_flag_variants() {
    for flag in ["--no-color", "--no-colors", "-nc"] {
        let args = vec![flag.to_string(), "easy_grid.json".to_string()];
        assert_eq!(
            run_cli(&args),
            Ok(CliRequest { path: "easy_grid.json".to_string(), color: false })
        );
    }
}

#[test]
fn cli_flags_alone_are_wrong_arity() {
    let args = vec!["-nc".to_string()];
    assert_eq!(run_cli(&args), Err(CliError::WrongArity(0)));
}
