//! Command-line arguments: reading them, the usage text, and what to run.
use vstd::prelude::*;
use crate::text::{parse_u16, parse_u16_spec, chars_of};
use crate::config::{ConfigError, ConfigErrorModel, config_error_message};
use crate::server::{ServerError, ServerErrorModel, server_error_message};

verus! {

broadcast use vstd::string::group_string_axioms;

#[derive(Debug)]
pub enum CliError {
    Config(ConfigError),
    InvalidArgument(String),
    Server(ServerError),
}

pub enum CliErrorModel {
    Config(ConfigErrorModel),
    InvalidArgument(Seq<char>),
    Server(ServerErrorModel),
}

impl View for CliError {
    type V = CliErrorModel;

    open spec fn view(&self) -> CliErrorModel {
        match self {
            CliError::Config(e) => CliErrorModel::Config(e@),
            CliError::InvalidArgument(m) => CliErrorModel::InvalidArgument(m@),
            CliError::Server(e) => CliErrorModel::Server(e@),
        }
    }
}

/// The text of a command-line error.
pub open spec fn cli_error_message(e: CliErrorModel) -> Seq<char> {
    match e {
        CliErrorModel::Config(c) => config_error_message(c),
        CliErrorModel::InvalidArgument(m) => m,
        CliErrorModel::Server(s) => server_error_message(s),
    }
}

impl CliError {
    /// The text of this error.
    pub fn message(&self) -> (r: String)
        ensures
            r@ == cli_error_message(self@),
    {
        match self {
            CliError::Config(e) => e.message(),
            CliError::InvalidArgument(m) => m.clone(),
            CliError::Server(e) => e.message(),
        }
    }
}

/// The command line, read.
#[derive(Debug)]
pub struct CliConfig {
    pub bin: String,
    pub config: Option<String>,
    pub path: Option<String>,
    pub port: Option<u16>,
    pub help: bool,
}

pub struct CliModel {
    pub bin: Seq<char>,
    pub config: Option<Seq<char>>,
    pub path: Option<Seq<char>>,
    pub port: Option<u16>,
    pub help: bool,
}

pub open spec fn opt_view(o: Option<String>) -> Option<Seq<char>> {
    match o {
        Some(s) => Some(s@),
        None => None,
    }
}

impl View for CliConfig {
    type V = CliModel;

    open spec fn view(&self) -> CliModel {
        CliModel {
            bin: self.bin@,
            config: opt_view(self.config),
            path: opt_view(self.path),
            port: self.port,
            help: self.help,
        }
    }
}

/// The text after the program's name in the usage message.
pub open spec fn usage_tail() -> Seq<char> {
    " [--config <path>] [--path <html-dir>] [--port <port>]\n\nModes:\n  --config <path>  Start from a Loomis TOML config file\n  --path <dir>     Start the legacy single-site static server\n  --port <port>    Override the legacy static server port\n\nDefaults:\n  --path example\n  --port 3000"@
}

/// The usage message for a program called `bin`.
pub open spec fn usage_spec(bin: Seq<char>) -> Seq<char> {
    "Usage: "@ + bin + usage_tail()
}

/// The usage message for a program called `bin`.
pub fn usage_text(bin: &str) -> (r: String)
    ensures
        r@ == usage_spec(bin@),
{
    let mut r = String::from_str("Usage: ");
    r.append(bin);
    r.append(
        " [--config <path>] [--path <html-dir>] [--port <port>]\n\nModes:\n  --config <path>  Start from a Loomis TOML config file\n  --path <dir>     Start the legacy single-site static server\n  --port <port>    Override the legacy static server port\n\nDefaults:\n  --path example\n  --port 3000",
    );
    r
}

/// Reads the arguments from position `i` on into `st`: each option takes
/// the next argument as its value (a later option overrides an earlier one),
/// and the first bad argument ends the reading with its error.
pub open spec fn cli_scan(args: Seq<Seq<char>>, i: int, st: CliModel) -> Result<
    CliModel,
    Seq<char>,
>
    decreases args.len() - i,
{
    if i < 0 || i >= args.len() {
        Ok(st)
    } else {
        let a = args[i];
        if a == "--config"@ {
            if i + 1 < args.len() {
                cli_scan(
                    args,
                    i + 2,
                    CliModel {
                        bin: st.bin,
                        config: Some(args[i + 1]),
                        path: st.path,
                        port: st.port,
                        help: st.help,
                    },
                )
            } else {
                Err("--config requires a value"@)
            }
        } else if a == "--path"@ {
            if i + 1 < args.len() {
                cli_scan(
                    args,
                    i + 2,
                    CliModel {
                        bin: st.bin,
                        config: st.config,
                        path: Some(args[i + 1]),
                        port: st.port,
                        help: st.help,
                    },
                )
            } else {
                Err("--path requires a value"@)
            }
        } else if a == "--port"@ {
            if i + 1 < args.len() {
                match parse_u16_spec(args[i + 1]) {
                    Some(p) => cli_scan(
                        args,
                        i + 2,
                        CliModel {
                            bin: st.bin,
                            config: st.config,
                            path: st.path,
                            port: Some(p),
                            help: st.help,
                        },
                    ),
                    None => Err("invalid port: "@ + args[i + 1]),
                }
            } else {
                Err("--port requires a value"@)
            }
        } else if a == "--help"@ || a == "-h"@ {
            cli_scan(
                args,
                i + 1,
                CliModel {
                    bin: st.bin,
                    config: st.config,
                    path: st.path,
                    port: st.port,
                    help: true,
                },
            )
        } else {
            Err("unknown argument: "@ + a + "\n\n"@ + usage_spec(st.bin))
        }
    }
}

/// What a command line means: the first argument is the program's name
/// (`loomis` when there is none); `--config` cannot be combined with
/// `--path` or `--port`.
pub open spec fn cli_parse_spec(args: Seq<Seq<char>>) -> Result<CliModel, Seq<char>> {
    let bin = if args.len() > 0 {
        args[0]
    } else {
        "loomis"@
    };
    match cli_scan(
        args,
        1,
        CliModel { bin, config: None, path: None, port: None, help: false },
    ) {
        Ok(c) => {
            if c.config is Some && (c.path is Some || c.port is Some) {
                Err("--config cannot be combined with --path or --port"@)
            } else {
                Ok(c)
            }
        },
        Err(m) => Err(m),
    }
}

fn invalid(m: &str) -> (e: CliError)
    ensures
        e@ == CliErrorModel::InvalidArgument(m@),
{
    CliError::InvalidArgument(String::from_str(m))
}

impl CliConfig {
    /// Reads a command line.
    pub fn parse(args: Vec<String>) -> (r: Result<CliConfig, CliError>)
        ensures
            match (r, cli_parse_spec(args.deep_view())) {
                (Ok(c), Ok(m)) => c@ == m,
                (Err(e), Err(m)) => e@ == CliErrorModel::InvalidArgument(m),
                _ => false,
            },
            r matches Ok(c) ==> !(c.config is Some && (c.path is Some || c.port is Some)),
    {
        let ghost a = args.deep_view();
        let bin = if args.len() > 0 {
            args[0].clone()
        } else {
            String::from_str("loomis")
        };
        let mut cli = CliConfig { bin, config: None, path: None, port: None, help: false };
        let opt_config = String::from_str("--config");
        let opt_path = String::from_str("--path");
        let opt_port = String::from_str("--port");
        let opt_help = String::from_str("--help");
        let opt_h = String::from_str("-h");
        let mut i: usize = 1;
        while i < args.len()
            invariant
                a == args.deep_view(),
                1 <= i,
                opt_config@ == "--config"@,
                opt_path@ == "--path"@,
                opt_port@ == "--port"@,
                opt_help@ == "--help"@,
                opt_h@ == "-h"@,
                cli_scan(
                    a,
                    1,
                    CliModel {
                        bin: if a.len() > 0 {
                            a[0]
                        } else {
                            "loomis"@
                        },
                        config: None,
                        path: None,
                        port: None,
                        help: false,
                    },
                ) == cli_scan(a, i as int, cli@),
            decreases args.len() - i,
        {
            let arg = &args[i];
            assert(a[i as int] == arg@);
            if *arg == opt_config {
                if i + 1 < args.len() {
                    cli.config = Some(args[i + 1].clone());
                    i += 2;
                } else {
                    return Err(invalid("--config requires a value"));
                }
            } else if *arg == opt_path {
                if i + 1 < args.len() {
                    cli.path = Some(args[i + 1].clone());
                    i += 2;
                } else {
                    return Err(invalid("--path requires a value"));
                }
            } else if *arg == opt_port {
                if i + 1 < args.len() {
                    let value = &args[i + 1];
                    let chars = chars_of(value.as_str());
                    match parse_u16(&chars) {
                        Some(p) => {
                            cli.port = Some(p);
                            i += 2;
                        },
                        None => {
                            let mut m = String::from_str("invalid port: ");
                            m.append(value.as_str());
                            return Err(CliError::InvalidArgument(m));
                        },
                    }
                } else {
                    return Err(invalid("--port requires a value"));
                }
            } else if *arg == opt_help || *arg == opt_h {
                cli.help = true;
                i += 1;
            } else {
                let mut m = String::from_str("unknown argument: ");
                m.append(arg.as_str());
                m.append("\n\n");
                m.append(usage_text(cli.bin.as_str()).as_str());
                return Err(CliError::InvalidArgument(m));
            }
        }
        if cli.config.is_some() && (cli.path.is_some() || cli.port.is_some()) {
            return Err(invalid("--config cannot be combined with --path or --port"));
        }
        Ok(cli)
    }
}

/// What a command line asks the program to do.
#[derive(Debug)]
pub enum CliAction {
    /// Print this usage text and stop.
    PrintUsage(String),
    /// Load the configuration file at this path and serve it.
    ServeConfig(String),
    /// Serve this directory on `127.0.0.1:<port>`.
    ServeStatic { path: String, port: u16 },
}

pub enum CliActionModel {
    PrintUsage(Seq<char>),
    ServeConfig(Seq<char>),
    ServeStatic { path: Seq<char>, port: u16 },
}

impl View for CliAction {
    type V = CliActionModel;

    open spec fn view(&self) -> CliActionModel {
        match self {
            CliAction::PrintUsage(u) => CliActionModel::PrintUsage(u@),
            CliAction::ServeConfig(p) => CliActionModel::ServeConfig(p@),
            CliAction::ServeStatic { path, port } => CliActionModel::ServeStatic {
                path: path@,
                port: *port,
            },
        }
    }
}

/// What a command line asks for: the usage text when help was asked for;
/// else the configuration file when one was named; else the static site at
/// `--path` (default `example`) on `--port` (default 3000).
pub open spec fn action_spec(c: CliModel) -> CliActionModel {
    if c.help {
        CliActionModel::PrintUsage(usage_spec(c.bin))
    } else {
        match c.config {
            Some(p) => CliActionModel::ServeConfig(p),
            None => CliActionModel::ServeStatic {
                path: match c.path {
                    Some(p) => p,
                    None => "example"@,
                },
                port: match c.port {
                    Some(p) => p,
                    None => 3000,
                },
            },
        }
    }
}

/// Without help asked for and without a configuration file, the static
/// site served is the directory given with `--path` (`example` when none
/// is), on the port given with `--port` (3000 when none is).
pub proof fn lemma_static_action_serves_given_path(c: CliModel)
    requires
        !c.help,
        c.config is None,
    ensures
        action_spec(c) matches CliActionModel::ServeStatic { path, port } && (c.path matches Some(
            p,
        ) ==> path == p) && (c.port matches Some(n) ==> port == n) && (c.path is None ==> path
            == "example"@) && (c.port is None ==> port == 3000),
{
}

/// `<bin> --path <dir>` serves `<dir>` on port 3000, whatever `<dir>` is.
pub proof fn lemma_path_argument_is_served(bin: Seq<char>, dir: Seq<char>)
    ensures
        cli_parse_spec(seq![bin, "--path"@, dir]) matches Ok(c) && action_spec(c)
            == (CliActionModel::ServeStatic { path: dir, port: 3000 }),
{
    reveal_strlit("--path");
    reveal_strlit("--config");
    assert("--path"@ != "--config"@) by {
        assert("--path"@[2] != "--config"@[2]);
    }
    let args = seq![bin, "--path"@, dir];
    let st0 = CliModel { bin, config: None, path: None, port: None, help: false };
    let st1 = CliModel { bin, config: None, path: Some(dir), port: None, help: false };
    assert(cli_scan(args, 3, st1) == Ok::<CliModel, Seq<char>>(st1));
    assert(cli_scan(args, 1, st0) == cli_scan(args, 3, st1));
}

impl CliConfig {
    /// What this command line asks the program to do.
    pub fn action(&self) -> (r: CliAction)
        ensures
            r@ == action_spec(self@),
    {
        if self.help {
            return CliAction::PrintUsage(usage_text(self.bin.as_str()));
        }
        match &self.config {
            Some(p) => CliAction::ServeConfig(p.clone()),
            None => {
                let path = match &self.path {
                    Some(p) => p.clone(),
                    None => String::from_str("example"),
                };
                let port = match self.port {
                    Some(p) => p,
                    None => 3000,
                };
                CliAction::ServeStatic { path, port }
            },
        }
    }
}

} // verus!
