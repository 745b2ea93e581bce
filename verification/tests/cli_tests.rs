use sonic_bridge::cli::{parse_cli, CliCommand, CliError};

fn run(args: &[&str]) -> Result<CliCommand, CliError> {
    run_with(args, &[])
}

fn run_with(args: &[&str], existing: &[&str]) -> Result<CliCommand, CliError> {
    let args: Vec<String> = args.iter().map(|a| a.to_string()).collect();
    let is_float: Vec<bool> = args.iter().map(|a| a.parse::<f32>().is_ok()).collect();
    let exists: Vec<bool> = args.iter().map(|a| existing.contains(&a.as_str())).collect();
    parse_cli(&args, &is_float, &exists)
}

#[test]
fn help_and_version_win_anywhere() {
    assert!(matches!(run(&["sonic-bridge", "song.mp3", "--help"]), Ok(CliCommand::Help)));
    assert!(matches!(run(&["sonic-bridge", "help"]), Ok(CliCommand::Help)));
    assert!(matches!(run(&["sonic-bridge", "-v", "-h"]), Ok(CliCommand::Help)));
    assert!(matches!(run(&["sonic-bridge", "--bogus", "version"]), Ok(CliCommand::Version)));
    assert!(matches!(run(&["sonic-bridge", "-v"]), Ok(CliCommand::Version)));
}

#[test]
fn nothing_to_do_prints_usage() {
    assert!(matches!(run(&["sonic-bridge"]), Ok(CliCommand::Usage)));
    assert!(matches!(run(&[]), Ok(CliCommand::Usage)));
    assert!(matches!(run(&["sonic-bridge", "--onset", "--quiet"]), Ok(CliCommand::Usage)));
}

#[test]
fn options_and_inputs() {
    let cmd = run(&[
        "sonic-bridge", "a.mp3", "--onset", "--threshold", "0.25", "-q", "b.mp3", "--config", "c.toml",
    ]);
    match cmd {
        Ok(CliCommand::Run(o)) => {
            assert_eq!(o.inputs, vec!["a.mp3", "b.mp3"]);
            assert!(o.onset && o.quiet && !o.beat && !o.render);
            assert_eq!(o.threshold.as_deref(), Some("0.25"));
            assert_eq!(o.config_path.as_deref(), Some("c.toml"));
            assert!(o.skip_existing && !o.force);
            assert_eq!(o.jobs, None);
        },
        _ => panic!("expected a run"),
    }
}

#[test]
fn batch_options() {
    let cmd = run(&[
        "sonic-bridge", "--batch", "music", "--out-dir", "out", "--force", "-j", "+4", "--ext",
        "mp3,flac", "--dry-run", "--no-progress", "--skip-existing",
    ]);
    match cmd {
        Ok(CliCommand::Run(o)) => {
            assert!(o.inputs.is_empty());
            assert_eq!(o.batch_dir.as_deref(), Some("music"));
            assert_eq!(o.out_dir.as_deref(), Some("out"));
            assert!(o.force);
            assert!(o.skip_existing);
            assert_eq!(o.jobs, Some(4));
            assert_eq!(o.extensions.as_deref(), Some("mp3,flac"));
            assert!(o.dry_run && o.no_progress);
        },
        _ => panic!("expected a run"),
    }
    match run(&["sonic-bridge", "--batch", "music", "--force"]) {
        Ok(CliCommand::Run(o)) => assert!(o.force && !o.skip_existing),
        _ => panic!("expected a run"),
    }
}

#[test]
fn malformed_command_lines() {
    assert_eq!(run(&["sonic-bridge", "a.mp3", "--config"]).err(), Some(CliError::MissingConfigPath));
    assert_eq!(run(&["sonic-bridge", "a.mp3", "--threshold"]).err(), Some(CliError::MissingThreshold));
    assert_eq!(run(&["sonic-bridge", "a.mp3", "--threshold", "loud"]).err(), Some(CliError::InvalidThreshold));
    assert_eq!(run(&["sonic-bridge", "--batch"]).err(), Some(CliError::MissingBatchDir));
    assert_eq!(run(&["sonic-bridge", "a.mp3", "--out-dir"]).err(), Some(CliError::MissingOutDir));
    assert_eq!(run(&["sonic-bridge", "a.mp3", "--jobs"]).err(), Some(CliError::MissingJobs));
    assert_eq!(run(&["sonic-bridge", "a.mp3", "-j", "-1"]).err(), Some(CliError::InvalidJobs));
    assert_eq!(run(&["sonic-bridge", "a.mp3", "-j", "99999999999999999999"]).err(), Some(CliError::InvalidJobs));
    assert_eq!(run(&["sonic-bridge", "a.mp3", "--ext"]).err(), Some(CliError::MissingExtensions));
    assert_eq!(
        run(&["sonic-bridge", "a.mp3", "--bogus", "--config"]).err(),
        Some(CliError::UnknownOption { position: 2 })
    );
    assert_eq!(
        run(&["sonic-bridge", "--threshold", "x", "--bogus"]).err(),
        Some(CliError::InvalidThreshold)
    );
}

#[test]
fn dash_names_that_exist_are_inputs() {
    match run_with(&["sonic-bridge", "-take1.mp3"], &["-take1.mp3"]) {
        Ok(CliCommand::Run(o)) => assert_eq!(o.inputs, vec!["-take1.mp3"]),
        _ => panic!("expected a run"),
    }
    assert_eq!(
        run(&["sonic-bridge", "-take1.mp3"]).err(),
        Some(CliError::UnknownOption { position: 1 })
    );
}
