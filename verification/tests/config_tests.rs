use loomis::config::{
    normalize_location_path, normalize_proxy_base_path, resolve_config_path,
    validate_server_name_collisions, ConfigError, LocationConfig, LocationHandler, LoomisConfig,
    ProxyTarget, RawConfig, RawLocationConfig, RawServerConfig, RootProbe, ServerConfig,
    ServerProbe,
};

fn s(v: &str) -> String {
    String::from(v)
}

fn static_location(path: &str, root: &str) -> RawLocationConfig {
    RawLocationConfig {
        path: s(path),
        root: Some(s(root)),
        index: Vec::new(),
        proxy_pass: None,
    }
}

fn server(listen: &str, names: &[&str], locations: Vec<RawLocationConfig>) -> RawServerConfig {
    RawServerConfig {
        listen: s(listen),
        server_name: names.iter().map(|n| s(n)).collect(),
        locations,
    }
}

fn found(listen: &str, roots: Vec<RootProbe>) -> ServerProbe {
    ServerProbe {
        listen: Some(s(listen)),
        roots,
    }
}

fn dir(p: &str) -> RootProbe {
    RootProbe::Directory(s(p))
}

fn validation(e: ConfigError) -> String {
    match e {
        ConfigError::Validation(m) => m,
        other => panic!("unexpected error {other:?}"),
    }
}

#[test]
fn single_static_site_builds_default_server() {
    let config = LoomisConfig::single_static_site("/tmp/site", 3000, &dir("/tmp/site"))
        .expect("config should be valid");

    assert_eq!(config.servers.len(), 1);
    assert_eq!(config.servers[0].listen.to_string(), "127.0.0.1:3000");
    assert_eq!(config.servers[0].locations[0].path, "/");
}

#[test]
fn single_static_site_reports_missing_root() {
    let e = LoomisConfig::single_static_site("site", 3000, &RootProbe::NotFound).unwrap_err();
    assert_eq!(
        validation(e),
        "server[0].location[0] root does not exist: ./site"
    );
    let e = LoomisConfig::single_static_site("/srv/a", 80, &RootProbe::NotDirectory).unwrap_err();
    assert_eq!(
        validation(e),
        "server[0].location[0] root is not a directory: /srv/a"
    );
}

#[test]
fn load_from_path_resolves_relative_static_root() {
    // The file's `root = "site"` is taken relative to the file's directory.
    let raw = RawConfig {
        servers: vec![server(
            "127.0.0.1:3000",
            &["example.test"],
            vec![static_location("/", "site")],
        )],
    };
    assert_eq!(resolve_config_path("/tmp/conf", "site"), "/tmp/conf/site");
    let probes = vec![found("127.0.0.1:3000", vec![dir("/tmp/conf/site")])];
    let config = LoomisConfig::from_raw(raw, "/tmp/conf", &probes).expect("config should load");
    let LocationHandler::Static { root } = &config.servers[0].locations[0].handler else {
        panic!("expected static handler");
    };

    assert_eq!(root, "/tmp/conf/site");
    assert_eq!(
        config.servers[0].locations[0].index,
        vec![String::from("index.html")]
    );
}

#[test]
fn rejects_duplicate_server_names_on_same_listener() {
    let raw = RawConfig {
        servers: vec![
            server("127.0.0.1:3000", &["example.test"], vec![static_location("/", ".")]),
            server("127.0.0.1:3000", &["example.test"], vec![static_location("/", ".")]),
        ],
    };
    let probes = vec![
        found("127.0.0.1:3000", vec![dir("/tmp/x")]),
        found("127.0.0.1:3000", vec![dir("/tmp/x")]),
    ];
    let error = LoomisConfig::from_raw(raw, "/tmp/x", &probes).expect_err("config should fail");

    assert!(error
        .message()
        .contains("duplicate server_name 'example.test' configured for 127.0.0.1:3000"));
}

#[test]
fn rejects_location_without_handler() {
    let raw = RawConfig {
        servers: vec![server(
            "127.0.0.1:3000",
            &[],
            vec![RawLocationConfig {
                path: s("/"),
                root: None,
                index: Vec::new(),
                proxy_pass: None,
            }],
        )],
    };
    let probes = vec![found("127.0.0.1:3000", vec![RootProbe::NotFound])];
    let error = LoomisConfig::from_raw(raw, ".", &probes).expect_err("config should fail");

    assert!(error
        .message()
        .contains("server[0].location[0] must define root or proxy_pass"));
}

#[test]
fn parses_proxy_upstream_with_default_port() {
    let upstream =
        ProxyTarget::parse("http://backend.internal/api").expect("proxy target should parse");

    assert_eq!(upstream.host, "backend.internal");
    assert_eq!(upstream.port, 80);
    assert_eq!(upstream.base_path, "/api");
}

#[test]
fn parses_proxy_upstream_with_port_and_paths() {
    let t = ProxyTarget::parse("http://127.0.0.1:4000").unwrap();
    assert_eq!((t.host.as_str(), t.port, t.base_path.as_str()), ("127.0.0.1", 4000, "/"));
    assert_eq!(t.authority(), "127.0.0.1:4000");

    let t = ProxyTarget::parse("http://h:8080/a/b///").unwrap();
    assert_eq!((t.host.as_str(), t.port, t.base_path.as_str()), ("h", 8080, "/a/b"));

    // A colon with nothing before it is part of the host.
    let t = ProxyTarget::parse("http://:abc/x").unwrap();
    assert_eq!((t.host.as_str(), t.port, t.base_path.as_str()), (":abc", 80, "/x"));
    assert_eq!(t.authority(), ":abc:80");
}

#[test]
fn proxy_upstream_errors() {
    assert_eq!(
        ProxyTarget::parse("https://h").unwrap_err(),
        "proxy_pass must start with http://"
    );
    assert_eq!(
        ProxyTarget::parse("http:///x").unwrap_err(),
        "proxy_pass is missing an upstream host"
    );
    assert_eq!(
        ProxyTarget::parse("http://h:99999/").unwrap_err(),
        "proxy_pass contains an invalid port: 99999"
    );
    assert_eq!(
        ProxyTarget::parse("http://h:/").unwrap_err(),
        "proxy_pass contains an invalid port: "
    );
}

#[test]
fn proxy_target_prints_back_to_itself() {
    for v in [
        "http://backend.internal/api",
        "http://h:8080/a/b/",
        "http://:",
        "http://x:0001",
        "http://a.b:65535/c",
    ] {
        let t = ProxyTarget::parse(v).unwrap();
        let printed = format!("http://{}{}", t.authority(), t.base_path);
        assert_eq!(ProxyTarget::parse(&printed).unwrap(), t);
    }
}

#[test]
fn normalizes_location_paths() {
    assert_eq!(normalize_location_path("/"), "/");
    assert_eq!(normalize_location_path("///"), "/");
    assert_eq!(normalize_location_path("/docs/"), "/docs");
    assert_eq!(normalize_location_path("/docs"), "/docs");
    assert_eq!(
        normalize_location_path(&normalize_location_path("/a//")),
        normalize_location_path("/a//")
    );
}

#[test]
fn normalizes_proxy_base_paths() {
    assert_eq!(normalize_proxy_base_path("/"), "/");
    assert_eq!(normalize_proxy_base_path(""), "/");
    assert_eq!(normalize_proxy_base_path("api/"), "/api");
    assert_eq!(normalize_proxy_base_path("/api//"), "/api");
}

#[test]
fn resolves_config_paths() {
    assert_eq!(resolve_config_path(".", "site"), "./site");
    assert_eq!(resolve_config_path("/etc/", "site"), "/etc/site");
    assert_eq!(resolve_config_path("", "site"), "site");
    assert_eq!(resolve_config_path("/etc", "/srv/www"), "/srv/www");
}

#[test]
fn location_errors_are_reported_with_positions() {
    let cases: Vec<(RawLocationConfig, RootProbe, &str)> = vec![
        (
            static_location("docs", "d"),
            dir("/d"),
            "server[2].location[5] path must start with '/'",
        ),
        (
            RawLocationConfig {
                path: s("/a"),
                root: Some(s("d")),
                index: Vec::new(),
                proxy_pass: Some(s("http://h")),
            },
            dir("/d"),
            "server[2].location[5] must define either root or proxy_pass, not both",
        ),
        (
            RawLocationConfig {
                path: s("/a"),
                root: None,
                index: vec![s("home.html")],
                proxy_pass: Some(s("http://h")),
            },
            RootProbe::NotFound,
            "server[2].location[5] proxy locations cannot define index",
        ),
        (
            RawLocationConfig {
                path: s("/a"),
                root: None,
                index: Vec::new(),
                proxy_pass: Some(s("ftp://h")),
            },
            RootProbe::NotFound,
            "server[2].location[5] proxy_pass must start with http://",
        ),
        (
            static_location("/a", "d"),
            RootProbe::NotDirectory,
            "server[2].location[5] root is not a directory: /base/d",
        ),
    ];
    for (raw, probe, msg) in cases {
        let e = LocationConfig::from_raw(raw, "/base", 2, 5, &probe).unwrap_err();
        assert_eq!(validation(e), msg);
    }
}

#[test]
fn builds_static_and_proxy_locations() {
    let mut raw = static_location("/docs/", "docs");
    raw.index = vec![s("main.html"), s("index.htm")];
    let loc = LocationConfig::from_raw(raw, "/base", 0, 0, &dir("/real/docs")).unwrap();
    assert_eq!(loc.path, "/docs");
    assert_eq!(loc.index, vec![s("main.html"), s("index.htm")]);
    assert_eq!(
        loc.handler,
        LocationHandler::Static {
            root: s("/real/docs")
        }
    );

    let raw = RawLocationConfig {
        path: s("/api/"),
        root: None,
        index: Vec::new(),
        proxy_pass: Some(s("http://127.0.0.1:4000/v1/")),
    };
    let loc = LocationConfig::from_raw(raw, "/base", 0, 1, &RootProbe::NotFound).unwrap();
    assert_eq!(loc.path, "/api");
    assert_eq!(loc.index, vec![s("index.html")]);
    assert_eq!(
        loc.handler,
        LocationHandler::Proxy {
            upstream: ProxyTarget {
                host: s("127.0.0.1"),
                port: 4000,
                base_path: s("/v1")
            }
        }
    );
}

#[test]
fn server_errors_and_name_lowercasing() {
    let raw = server("nonsense", &[], vec![static_location("/", "d")]);
    let probe = ServerProbe {
        listen: None,
        roots: vec![dir("/d")],
    };
    assert_eq!(
        validation(ServerConfig::from_raw(raw, "/", 3, &probe).unwrap_err()),
        "server[3] has invalid listen address: nonsense"
    );

    let raw = server("127.0.0.1:80", &[], Vec::new());
    assert_eq!(
        validation(ServerConfig::from_raw(raw, "/", 1, &found("127.0.0.1:80", vec![])).unwrap_err()),
        "server[1] must define at least one [[server.location]] block"
    );

    let raw = server(
        "127.0.0.1:80",
        &[],
        vec![static_location("/docs", "a"), static_location("/docs/", "b")],
    );
    let probe = found("127.0.0.1:80", vec![dir("/a"), dir("/b")]);
    assert_eq!(
        validation(ServerConfig::from_raw(raw, "/", 0, &probe).unwrap_err()),
        "server[0] defines duplicate location path: /docs"
    );

    let raw = server("0:80", &["Example.TEST", "\u{c4}B"], vec![static_location("/", "a")]);
    let cfg = ServerConfig::from_raw(raw, "/", 0, &found("0.0.0.0:80", vec![dir("/a")])).unwrap();
    assert_eq!(cfg.listen, "0.0.0.0:80");
    assert_eq!(cfg.server_names, vec![s("example.test"), s("\u{c4}b")]);
}

#[test]
fn missing_root_finding_counts_as_not_found() {
    let raw = server("127.0.0.1:80", &[], vec![static_location("/", "a")]);
    let e = ServerConfig::from_raw(raw, "/x", 0, &found("127.0.0.1:80", vec![])).unwrap_err();
    assert_eq!(
        validation(e),
        "server[0].location[0] root does not exist: /x/a"
    );
}

#[test]
fn config_level_checks() {
    let e = LoomisConfig::from_raw(RawConfig { servers: Vec::new() }, ".", &Vec::new()).unwrap_err();
    assert_eq!(validation(e), "config must define at least one [[server]] block");

    // Two default servers on one address.
    let raw = RawConfig {
        servers: vec![
            server("127.0.0.1:80", &[], vec![static_location("/", "a")]),
            server("127.0.0.1:80", &[], vec![static_location("/", "b")]),
        ],
    };
    let probes = vec![
        found("127.0.0.1:80", vec![dir("/a")]),
        found("127.0.0.1:80", vec![dir("/b")]),
    ];
    let e = LoomisConfig::from_raw(raw, "/", &probes).unwrap_err();
    assert_eq!(validation(e), "multiple default servers configured for 127.0.0.1:80");

    // Names collide after lowercasing, and only on the same address.
    let raw = RawConfig {
        servers: vec![
            server("127.0.0.1:80", &["A.test"], vec![static_location("/", "a")]),
            server("127.0.0.1:81", &["a.test"], vec![static_location("/", "a")]),
            server("127.0.0.1:80", &["b.test", "a.TEST"], vec![static_location("/", "b")]),
        ],
    };
    let probes = vec![
        found("127.0.0.1:80", vec![dir("/a")]),
        found("127.0.0.1:81", vec![dir("/a")]),
        found("127.0.0.1:80", vec![dir("/b")]),
    ];
    let e = LoomisConfig::from_raw(raw, "/", &probes).unwrap_err();
    assert_eq!(
        validation(e),
        "duplicate server_name 'a.test' configured for 127.0.0.1:80"
    );

    // A name repeated within one server.
    let raw = RawConfig {
        servers: vec![server("127.0.0.1:80", &["x", "X"], vec![static_location("/", "a")])],
    };
    let probes = vec![found("127.0.0.1:80", vec![dir("/a")])];
    let e = LoomisConfig::from_raw(raw, "/", &probes).unwrap_err();
    assert_eq!(validation(e), "duplicate server_name 'x' configured for 127.0.0.1:80");
}

#[test]
fn accepts_virtual_hosts_and_default_servers_per_address() {
    let raw = RawConfig {
        servers: vec![
            server(
                "127.0.0.1:3000",
                &["localhost", "site.localhost"],
                vec![
                    static_location("/", "../example"),
                    static_location("/docs", "../example/docs"),
                    RawLocationConfig {
                        path: s("/api"),
                        root: None,
                        index: Vec::new(),
                        proxy_pass: Some(s("http://127.0.0.1:4000")),
                    },
                ],
            ),
            server("127.0.0.1:3000", &["admin.localhost"], vec![static_location("/", "../example/admin")]),
            server("127.0.0.1:3000", &[], vec![static_location("/", "a")]),
            server("127.0.0.1:3001", &[], vec![static_location("/", "a")]),
        ],
    };
    let probes = vec![
        found("127.0.0.1:3000", vec![dir("/e"), dir("/e/docs"), RootProbe::NotFound]),
        found("127.0.0.1:3000", vec![dir("/e/admin")]),
        found("127.0.0.1:3000", vec![dir("/a")]),
        found("127.0.0.1:3001", vec![dir("/a")]),
    ];
    let cfg = LoomisConfig::from_raw(raw, "/conf", &probes).unwrap();
    assert_eq!(cfg.servers.len(), 4);
    assert_eq!(cfg.servers[0].locations.len(), 3);
    assert!(validate_server_name_collisions(&cfg.servers).is_ok());
}

#[test]
fn config_error_messages() {
    assert_eq!(ConfigError::Validation(s("bad")).message(), "bad");
    assert_eq!(
        ConfigError::Read { path: s("p"), source: s("e") }.message(),
        "failed to read config p: e"
    );
}
