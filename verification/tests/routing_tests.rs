use loomis::paths::config_dir;
use loomis::config::{
    LoomisConfig, RawConfig, RawLocationConfig, RawServerConfig, RootProbe, ServerProbe,
};
use loomis::routing::{
    access_log_line, body_offset, listen_addresses, proxy_head, request_headers, request_host,
    route_site_request, route_site_text, select_location, select_server, Header, SiteRoute,
};

const LISTEN: &str = "127.0.0.1:3000";

fn s(v: &str) -> String {
    String::from(v)
}

fn static_loc(path: &str, root: &str) -> RawLocationConfig {
    RawLocationConfig {
        path: s(path),
        root: Some(s(root)),
        index: Vec::new(),
        proxy_pass: None,
    }
}

fn proxy_loc(path: &str, upstream: &str) -> RawLocationConfig {
    RawLocationConfig {
        path: s(path),
        root: None,
        index: Vec::new(),
        proxy_pass: Some(s(upstream)),
    }
}

fn dir(p: &str) -> RootProbe {
    RootProbe::Directory(s(p))
}

/// The configuration of the README, with its roots found under /srv.
fn readme_config() -> LoomisConfig {
    let raw = RawConfig {
        servers: vec![
            RawServerConfig {
                listen: s(LISTEN),
                server_name: vec![s("localhost"), s("site.localhost")],
                locations: vec![
                    static_loc("/", "../example"),
                    static_loc("/docs", "../example/docs"),
                    proxy_loc("/api", "http://127.0.0.1:4000"),
                ],
            },
            RawServerConfig {
                listen: s(LISTEN),
                server_name: vec![s("admin.localhost")],
                locations: vec![static_loc("/", "../example/admin")],
            },
        ],
    };
    let probes = vec![
        ServerProbe {
            listen: Some(s(LISTEN)),
            roots: vec![dir("/srv/example"), dir("/srv/example/docs"), RootProbe::NotFound],
        },
        ServerProbe {
            listen: Some(s(LISTEN)),
            roots: vec![dir("/srv/example/admin")],
        },
    ];
    LoomisConfig::from_raw(raw, "/srv/conf", &probes).expect("README config should load")
}

fn statics(route: SiteRoute) -> (String, Vec<String>) {
    match route {
        SiteRoute::Static { root, candidates } => (root, candidates),
        other => panic!("unexpected route {other:?}"),
    }
}

fn reply(route: SiteRoute) -> (String, String) {
    match route {
        SiteRoute::Reply { status, message } => (status, message),
        other => panic!("unexpected route {other:?}"),
    }
}

#[test]
fn readme_config_is_served() {
    let config = readme_config();
    assert_eq!(listen_addresses(&config), vec![s(LISTEN)]);
    let (root, candidates) = statics(route_site_text(
        &config,
        LISTEN,
        "GET /docs/ HTTP/1.1\r\nHost: localhost\r\n\r\n",
    ));
    assert_eq!(root, "/srv/example/docs");
    assert_eq!(candidates, vec![s("/srv/example/docs/index.html")]);
}

#[test]
fn host_header_chooses_the_server() {
    let config = readme_config();
    let (root, _) = statics(route_site_text(
        &config,
        LISTEN,
        "GET / HTTP/1.1\r\nHost: admin.localhost\r\n\r\n",
    ));
    assert_eq!(root, "/srv/example/admin");
    // Port suffix and case do not matter.
    let (root, _) = statics(route_site_text(
        &config,
        LISTEN,
        "GET / HTTP/1.1\r\nhost: ADMIN.localhost:3000\r\n\r\n",
    ));
    assert_eq!(root, "/srv/example/admin");
    let (root, _) = statics(route_site_text(
        &config,
        LISTEN,
        "GET / HTTP/1.1\r\nHost: site.localhost\r\n\r\n",
    ));
    assert_eq!(root, "/srv/example");
}

#[test]
fn unknown_host_falls_back_to_default_server() {
    let config = readme_config();
    // No server without names: the first one on the address answers.
    let (root, _) = statics(route_site_text(
        &config,
        LISTEN,
        "GET / HTTP/1.1\r\nHost: other.test\r\n\r\n",
    ));
    assert_eq!(root, "/srv/example");
    let (root, _) = statics(route_site_text(&config, LISTEN, "GET / HTTP/1.1\r\n\r\n"));
    assert_eq!(root, "/srv/example");

    // A server without names is the default one.
    let mut with_default = readme_config();
    let mut d = with_default.servers[1].clone();
    d.server_names = Vec::new();
    with_default.servers[1].server_names = vec![s("admin.localhost")];
    with_default.servers.push(d);
    assert_eq!(
        select_server(&with_default.servers, &s(LISTEN), &Some(s("nobody.test"))),
        Some(2)
    );
    assert_eq!(select_server(&with_default.servers, &s(LISTEN), &None), Some(2));
    assert_eq!(
        select_server(&with_default.servers, &s(LISTEN), &Some(s("localhost"))),
        Some(0)
    );
    assert_eq!(select_server(&with_default.servers, &s("127.0.0.1:9"), &None), None);
    assert_eq!(
        reply(route_site_text(&config, "127.0.0.1:9", "GET / HTTP/1.1\r\n\r\n")),
        (s("404 Not Found"), s("No server is configured for this address."))
    );
}

#[test]
fn longest_prefix_location_wins() {
    let config = readme_config();
    let locs = &config.servers[0].locations;
    let path = |p: &str| p.chars().collect::<Vec<char>>();
    assert_eq!(select_location(locs, &path("/docs/a.html")), Some(1));
    assert_eq!(select_location(locs, &path("/docs")), Some(1));
    assert_eq!(select_location(locs, &path("/docsx")), Some(0));
    assert_eq!(select_location(locs, &path("/api/users")), Some(2));
    assert_eq!(select_location(locs, &path("/")), Some(0));
    // Without a `/` location, an uncovered path matches nothing.
    let only_docs = vec![locs[1].clone()];
    assert_eq!(select_location(&only_docs, &path("/other")), None);
}

#[test]
fn static_location_strips_its_prefix() {
    let config = readme_config();
    let (root, candidates) = statics(route_site_text(
        &config,
        LISTEN,
        "GET /docs/guide?x=1 HTTP/1.1\r\nHost: localhost\r\n\r\n",
    ));
    assert_eq!(root, "/srv/example/docs");
    assert_eq!(
        candidates,
        vec![
            s("/srv/example/docs/guide"),
            s("/srv/example/docs/guide.html"),
            s("/srv/example/docs/guide/index.html")
        ]
    );
    let (_, candidates) = statics(route_site_text(
        &config,
        LISTEN,
        "GET /docs HTTP/1.1\r\nHost: localhost\r\n\r\n",
    ));
    assert_eq!(candidates, vec![s("/srv/example/docs/index.html")]);
    assert_eq!(
        reply(route_site_text(&config, LISTEN, "POST /docs/ HTTP/1.1\r\n\r\n")),
        (s("405 Method Not Allowed"), s("Only GET requests are supported."))
    );
    assert_eq!(
        reply(route_site_text(&config, LISTEN, "GET /docs/../x HTTP/1.1\r\n\r\n")),
        (s("400 Bad Request"), s("Invalid request path."))
    );
    assert_eq!(
        reply(route_site_text(&config, LISTEN, "nonsense")),
        (s("400 Bad Request"), s("Malformed HTTP request."))
    );
}

#[test]
fn proxy_rewrites_path_and_keeps_query() {
    let config = readme_config();
    match route_site_text(
        &config,
        LISTEN,
        "POST /api/users?page=2#top HTTP/1.1\r\nHost: localhost\r\nX-Trace: 7\r\nConnection: keep-alive\r\nContent-Length: 2\r\n\r\nhi",
    ) {
        SiteRoute::Proxy { host, port, head } => {
            assert_eq!(host, "127.0.0.1");
            assert_eq!(port, 4000);
            assert_eq!(
                head,
                "POST /users?page=2 HTTP/1.1\r\nX-Trace: 7\r\nContent-Length: 2\r\nHost: 127.0.0.1:4000\r\nConnection: close\r\n\r\n"
            );
        }
        other => panic!("unexpected route {other:?}"),
    }
    match route_site_request(&config, LISTEN, b"GET /api HTTP/1.1\r\nHost: localhost\r\n\r\n") {
        SiteRoute::Proxy { head, .. } => {
            assert!(head.starts_with("GET / HTTP/1.1\r\n"));
        }
        other => panic!("unexpected route {other:?}"),
    }
    assert!(matches!(route_site_request(&config, LISTEN, b""), SiteRoute::Ignore));
}

#[test]
fn proxy_base_path_prefixes_the_rest() {
    let raw = RawConfig {
        servers: vec![RawServerConfig {
            listen: s(LISTEN),
            server_name: Vec::new(),
            locations: vec![proxy_loc("/api/", "http://backend:8080/v1/")],
        }],
    };
    let probes = vec![ServerProbe {
        listen: Some(s(LISTEN)),
        roots: Vec::new(),
    }];
    let config = LoomisConfig::from_raw(raw, "/", &probes).unwrap();
    match route_site_text(&config, LISTEN, "GET /api/items/3?q=a HTTP/1.1\r\n\r\n") {
        SiteRoute::Proxy { host, port, head } => {
            assert_eq!((host.as_str(), port), ("backend", 8080));
            assert_eq!(
                head,
                "GET /v1/items/3?q=a HTTP/1.1\r\nHost: backend:8080\r\nConnection: close\r\n\r\n"
            );
        }
        other => panic!("unexpected route {other:?}"),
    }
    assert_eq!(
        reply(route_site_text(&config, LISTEN, "GET /other HTTP/1.1\r\n\r\n")),
        (s("404 Not Found"), s("No location matches this path."))
    );
}

#[test]
fn reads_headers_and_host() {
    let req = "GET / HTTP/1.1\r\nHost:  Example.COM:8080 \r\nbad line\r\nA: b: c\r\n\r\nBody: no";
    assert_eq!(
        request_headers(req),
        vec![
            Header {
                name: s("Host"),
                value: s("Example.COM:8080"),
            },
            Header {
                name: s("A"),
                value: s("b: c"),
            },
        ]
    );
    assert_eq!(request_host(req), Some(s("example.com")));
    assert_eq!(request_host("GET / HTTP/1.1\r\n\r\n"), None);
    assert_eq!(request_host("GET / HTTP/1.1\r\nHost: [::1]:x\r\n"), Some(s("[::1]:x")));
}

#[test]
fn builds_proxy_heads_and_logs() {
    let headers = vec![
        Header {
            name: s("HOST"),
            value: s("a"),
        },
        Header {
            name: s("Accept"),
            value: s("*/*"),
        },
    ];
    assert_eq!(
        proxy_head("GET", "/x", "up:1", &headers),
        "GET /x HTTP/1.1\r\nAccept: */*\r\nHost: up:1\r\nConnection: close\r\n\r\n"
    );
    assert_eq!(
        access_log_line("localhost", "GET", "/api/users/", "200 OK", 12, &Some(s("127.0.0.1:4000"))),
        "localhost \"GET /api/users/\" 200 OK 12ms upstream=127.0.0.1:4000"
    );
    assert_eq!(
        access_log_line("-", "GET", "/", "404 Not Found", 0, &None),
        "- \"GET /\" 404 Not Found 0ms upstream=-"
    );
}

#[test]
fn config_directory_of_a_path() {
    assert_eq!(config_dir("examples/loomis.toml"), "examples");
    assert_eq!(config_dir("loomis.toml"), "");
    assert_eq!(config_dir("/loomis.toml"), "/");
    assert_eq!(config_dir("/"), ".");
    assert_eq!(config_dir(""), ".");
}

#[test]
fn finds_where_the_body_starts() {
    assert_eq!(body_offset(b"POST / HTTP/1.1\r\nA: b\r\n\r\nhello"), 25);
    assert_eq!(body_offset(b"GET / HTTP/1.1\r\n"), 16);
    assert_eq!(body_offset(b""), 0);
    assert_eq!(body_offset(b"\r\n\r\n"), 4);
}

#[test]
fn static_location_uses_its_index_files() {
    let raw = RawConfig {
        servers: vec![RawServerConfig {
            listen: s(LISTEN),
            server_name: Vec::new(),
            locations: vec![RawLocationConfig {
                path: s("/"),
                root: Some(s("site")),
                index: vec![s("home.html"), s("index.htm")],
                proxy_pass: None,
            }],
        }],
    };
    let probes = vec![ServerProbe {
        listen: Some(s(LISTEN)),
        roots: vec![dir("/srv/site")],
    }];
    let config = LoomisConfig::from_raw(raw, "/", &probes).unwrap();
    let (_, candidates) = statics(route_site_text(&config, LISTEN, "GET /a/ HTTP/1.1\r\n\r\n"));
    assert_eq!(
        candidates,
        vec![s("/srv/site/a/home.html"), s("/srv/site/a/index.htm")]
    );
    let (_, candidates) = statics(route_site_text(&config, LISTEN, "GET /b HTTP/1.1\r\n\r\n"));
    assert_eq!(
        candidates,
        vec![
            s("/srv/site/b"),
            s("/srv/site/b.html"),
            s("/srv/site/b/home.html"),
            s("/srv/site/b/index.htm")
        ]
    );
}
