use loomis::cli::{usage_text, CliAction, CliConfig, CliError};
use loomis::config::ConfigError;
use loomis::server::ServerError;

fn args(items: &[&str]) -> Vec<String> {
    items.iter().map(|s| String::from(*s)).collect()
}

#[test]
fn parses_config_mode() {
    let cli = CliConfig::parse(vec![
        String::from("loomis"),
        String::from("--config"),
        String::from("examples/loomis.toml"),
    ])
    .expect("cli args should parse");

    assert_eq!(cli.config, Some(String::from("examples/loomis.toml")));
    assert!(cli.path.is_none());
    assert!(cli.port.is_none());
}

#[test]
fn rejects_mixed_config_and_legacy_args() {
    let error = CliConfig::parse(vec![
        String::from("loomis"),
        String::from("--config"),
        String::from("examples/loomis.toml"),
        String::from("--port"),
        String::from("8080"),
    ])
    .expect_err("cli args should fail");

    assert_eq!(
        error.message(),
        "--config cannot be combined with --path or --port"
    );
}

#[test]
fn parses_legacy_mode_with_port_and_path() {
    let cli = CliConfig::parse(args(&["loomis", "--path", "site", "--port", "8080"])).unwrap();
    assert_eq!(cli.bin, "loomis");
    assert_eq!(cli.path, Some(String::from("site")));
    assert_eq!(cli.port, Some(8080));
    assert!(!cli.help);
}

#[test]
fn later_option_overrides_earlier() {
    let cli = CliConfig::parse(args(&["x", "--path", "a", "--path", "b"])).unwrap();
    assert_eq!(cli.path, Some(String::from("b")));
}

#[test]
fn empty_command_line_uses_default_name() {
    let cli = CliConfig::parse(Vec::new()).unwrap();
    assert_eq!(cli.bin, "loomis");
    assert!(cli.config.is_none() && cli.path.is_none() && cli.port.is_none());
}

#[test]
fn port_accepts_plus_sign_and_leading_zeros() {
    let cli = CliConfig::parse(args(&["loomis", "--port", "+0080"])).unwrap();
    assert_eq!(cli.port, Some(80));
    let cli = CliConfig::parse(args(&["loomis", "--port", "65535"])).unwrap();
    assert_eq!(cli.port, Some(65535));
}

#[test]
fn rejects_invalid_ports() {
    for bad in ["65536", "", "+", "-1", "80a", " 80"] {
        let error = CliConfig::parse(args(&["loomis", "--port", bad])).unwrap_err();
        assert_eq!(error.message(), format!("invalid port: {bad}"));
    }
}

#[test]
fn rejects_missing_option_values() {
    for (opt, msg) in [
        ("--config", "--config requires a value"),
        ("--path", "--path requires a value"),
        ("--port", "--port requires a value"),
    ] {
        let error = CliConfig::parse(args(&["loomis", opt])).unwrap_err();
        assert!(matches!(error, CliError::InvalidArgument(_)));
        assert_eq!(error.message(), msg);
    }
}

#[test]
fn rejects_unknown_argument_with_usage() {
    let error = CliConfig::parse(args(&["srv", "--verbose"])).unwrap_err();
    assert_eq!(
        error.message(),
        format!("unknown argument: --verbose\n\n{}", usage_text("srv"))
    );
}

#[test]
fn usage_text_names_the_program() {
    assert_eq!(
        usage_text("loomis"),
        "Usage: loomis [--config <path>] [--path <html-dir>] [--port <port>]\n\nModes:\n  --config <path>  Start from a Loomis TOML config file\n  --path <dir>     Start the legacy single-site static server\n  --port <port>    Override the legacy static server port\n\nDefaults:\n  --path example\n  --port 3000"
    );
}

#[test]
fn help_action_prints_usage() {
    let cli = CliConfig::parse(args(&["loomis", "-h"])).unwrap();
    assert!(cli.help);
    match cli.action() {
        CliAction::PrintUsage(text) => assert_eq!(text, usage_text("loomis")),
        other => panic!("unexpected action {other:?}"),
    }
    let cli = CliConfig::parse(args(&["loomis", "--config", "c.toml", "--help"])).unwrap();
    assert!(matches!(cli.action(), CliAction::PrintUsage(_)));
}

#[test]
fn actions_pick_config_or_static_defaults() {
    let cli = CliConfig::parse(args(&["loomis", "--config", "c.toml"])).unwrap();
    match cli.action() {
        CliAction::ServeConfig(p) => assert_eq!(p, "c.toml"),
        other => panic!("unexpected action {other:?}"),
    }
    let cli = CliConfig::parse(args(&["loomis"])).unwrap();
    match cli.action() {
        CliAction::ServeStatic { path, port } => {
            assert_eq!(path, "example");
            assert_eq!(port, 3000);
        }
        other => panic!("unexpected action {other:?}"),
    }
    let cli = CliConfig::parse(args(&["loomis", "--port", "9000"])).unwrap();
    match cli.action() {
        CliAction::ServeStatic { path, port } => {
            assert_eq!(path, "example");
            assert_eq!(port, 9000);
        }
        other => panic!("unexpected action {other:?}"),
    }
}

#[test]
fn error_messages_wrap_their_sources() {
    let e = CliError::Config(ConfigError::Read {
        path: String::from("a.toml"),
        source: String::from("missing"),
    });
    assert_eq!(e.message(), "failed to read config a.toml: missing");
    let e = CliError::Config(ConfigError::Parse {
        path: String::from("a.toml"),
        source: String::from("bad"),
    });
    assert_eq!(e.message(), "failed to parse config a.toml: bad");
    let e = CliError::Server(ServerError::InvalidRootDirectory(String::from("/nope")));
    assert_eq!(e.message(), "invalid html root directory: /nope");
    let e = CliError::Server(ServerError::Io(String::from("boom")));
    assert_eq!(e.message(), "boom");
}
