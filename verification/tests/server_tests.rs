use std::path::Path;

use loomis::config::{LoomisConfig, RootProbe};
use loomis::paths::is_html_file;
use loomis::routing::{listen_addresses, route_site_text, SiteRoute};
use loomis::server::{
    canonicalize_root, file_reply, parse_request_line, reply_head, request_candidates,
    resolve_request_file, route_request, route_request_text, sanitize_segments,
    select_candidate, text_reply, CandidateProbe, FileLookup,
    PathResolutionError, RequestRoute, ServerError,
};

const ROOT: &str = "/tmp/loomis-test";

fn file(canonical: &str) -> CandidateProbe {
    CandidateProbe {
        is_file: true,
        canonical: Some(String::from(canonical)),
    }
}

fn absent() -> CandidateProbe {
    CandidateProbe {
        is_file: false,
        canonical: None,
    }
}

fn file_name(p: &str) -> Option<&str> {
    Path::new(p).file_name().and_then(|n| n.to_str())
}

#[test]
fn extracts_single_static_site_from_config() {
    let config = LoomisConfig::single_static_site(ROOT, 3000, &RootProbe::Directory(String::from(ROOT)))
        .expect("config should build");

    let listen = listen_addresses(&config);
    assert_eq!(listen, vec![String::from("127.0.0.1:3000")]);
    match route_site_text(&config, &listen[0], "GET / HTTP/1.1\r\n\r\n") {
        SiteRoute::Static { root, candidates } => {
            assert_eq!(root, ROOT);
            assert_eq!(candidates, vec![format!("{ROOT}/index.html")]);
        }
        other => panic!("unexpected route {other:?}"),
    }
}

#[test]
fn resolves_index_file_for_root_request() {
    let candidates = request_candidates(ROOT, "/").unwrap();
    assert_eq!(candidates, vec![format!("{ROOT}/index.html")]);
    let resolved = resolve_request_file(ROOT, "/", &vec![file(&format!("{ROOT}/index.html"))])
        .expect("path should be valid")
        .expect("index.html should exist");

    assert_eq!(file_name(&resolved), Some("index.html"));
}

#[test]
fn resolves_extensionless_request_to_html_file() {
    let candidates = request_candidates(ROOT, "/about").unwrap();
    assert_eq!(
        candidates,
        vec![
            format!("{ROOT}/about"),
            format!("{ROOT}/about.html"),
            format!("{ROOT}/about/index.html")
        ]
    );
    let probes = vec![absent(), file(&format!("{ROOT}/about.html")), absent()];
    let resolved = resolve_request_file(ROOT, "/about", &probes)
        .expect("path should be valid")
        .expect("about.html should exist");

    assert_eq!(file_name(&resolved), Some("about.html"));
}

#[test]
fn resolves_directory_request_to_nested_index_file() {
    let candidates = request_candidates(ROOT, "/docs/").unwrap();
    assert_eq!(candidates, vec![format!("{ROOT}/docs/index.html")]);
    let resolved = resolve_request_file(ROOT, "/docs/", &vec![file(&format!("{ROOT}/docs/index.html"))])
        .expect("path should be valid")
        .expect("docs/index.html should exist");

    assert_eq!(
        Path::new(&resolved)
            .parent()
            .and_then(Path::file_name)
            .and_then(|n| n.to_str()),
        Some("docs")
    );
    assert_eq!(file_name(&resolved), Some("index.html"));
}

#[test]
fn rejects_path_traversal_attempt() {
    let result = resolve_request_file(ROOT, "/../secret.html", &Vec::new());

    assert!(matches!(result, Err(PathResolutionError::TraversalAttempt)));
}

#[test]
fn candidates_drop_query_and_fragment() {
    assert_eq!(
        request_candidates(ROOT, "/a.html?x=/../#frag").unwrap(),
        vec![format!("{ROOT}/a.html")]
    );
    assert_eq!(
        request_candidates(ROOT, "/docs#x/").unwrap(),
        vec![
            format!("{ROOT}/docs"),
            format!("{ROOT}/docs.html"),
            format!("{ROOT}/docs/index.html")
        ]
    );
    assert_eq!(request_candidates(ROOT, "/style.css").unwrap(), Vec::<String>::new());
    assert_eq!(
        request_candidates(ROOT, "//a/./b.HTM").unwrap(),
        vec![format!("{ROOT}/a/b.HTM")]
    );
    assert_eq!(
        request_candidates("/", "/x").unwrap(),
        vec![
            String::from("/x"),
            String::from("/x.html"),
            String::from("/x/index.html")
        ]
    );
    assert_eq!(
        request_candidates(ROOT, "?only=query").unwrap(),
        vec![format!("{ROOT}/index.html")]
    );
}

#[test]
fn sanitizes_segments() {
    assert_eq!(sanitize_segments("/a//./b/").unwrap(), vec!["a", "b"]);
    assert_eq!(sanitize_segments("///").unwrap(), Vec::<String>::new());
    assert_eq!(sanitize_segments("").unwrap(), Vec::<String>::new());
    assert!(sanitize_segments("/a\\b").is_err());
    assert!(sanitize_segments("/a/../b").is_err());
    assert_eq!(sanitize_segments("/...").unwrap(), vec!["..."]);
}

#[test]
fn select_candidate_stays_under_root() {
    let candidates = vec![format!("{ROOT}/a.html"), format!("{ROOT}/a/index.html")];
    // The first candidate is a link to a file outside the root.
    let probes = vec![file("/etc/a.html"), file(&format!("{ROOT}/a/index.html"))];
    assert_eq!(
        select_candidate(ROOT, &candidates, &probes),
        Some(format!("{ROOT}/a/index.html"))
    );
    // A sibling directory whose name merely starts with the root's name.
    let probes = vec![file("/tmp/loomis-test-2/a.html"), absent()];
    assert_eq!(select_candidate(ROOT, &candidates, &probes), None);
    // Not a file.
    let probes = vec![
        CandidateProbe {
            is_file: false,
            canonical: Some(format!("{ROOT}/a.html")),
        },
        absent(),
    ];
    assert_eq!(select_candidate(ROOT, &candidates, &probes), None);
    // Missing probes count as not found.
    assert_eq!(select_candidate(ROOT, &candidates, &Vec::new()), None);
}

#[test]
fn recognizes_html_files() {
    assert!(is_html_file("/x/index.html"));
    assert!(is_html_file("a.HTM"));
    assert!(is_html_file("a.b.Html"));
    assert!(is_html_file("dir/a.html/"));
    assert!(is_html_file("dir/a.html/."));
    assert!(!is_html_file(".htm"));
    assert!(!is_html_file("a.html/.."));
    assert!(!is_html_file("a.css"));
    assert!(!is_html_file("html"));
    assert!(!is_html_file("a."));
    assert!(!is_html_file("/"));
}

#[test]
fn parses_request_lines() {
    assert_eq!(
        parse_request_line("GET /index.html HTTP/1.1\r\nHost: x\r\n\r\n"),
        Some((String::from("GET"), String::from("/index.html")))
    );
    assert_eq!(
        parse_request_line("  POST\t/a  \n"),
        Some((String::from("POST"), String::from("/a")))
    );
    assert_eq!(parse_request_line(""), None);
    assert_eq!(parse_request_line("GET\r\n/x"), None);
    assert_eq!(parse_request_line("\nGET / HTTP/1.1"), None);
}

fn reply_of(route: RequestRoute) -> (String, String) {
    match route {
        RequestRoute::Reply { status, message } => (status, message),
        other => panic!("unexpected route {other:?}"),
    }
}

#[test]
fn routes_requests() {
    assert_eq!(
        reply_of(route_request_text(ROOT, "garbage")),
        (String::from("400 Bad Request"), String::from("Malformed HTTP request."))
    );
    assert_eq!(
        reply_of(route_request_text(ROOT, "POST / HTTP/1.1\r\n")),
        (
            String::from("405 Method Not Allowed"),
            String::from("Only GET requests are supported.")
        )
    );
    assert_eq!(
        reply_of(route_request_text(ROOT, "GET /../x HTTP/1.1\r\n")),
        (String::from("400 Bad Request"), String::from("Invalid request path."))
    );
    match route_request_text(ROOT, "GET /docs/ HTTP/1.1\r\n") {
        RequestRoute::Lookup { candidates } => {
            assert_eq!(candidates, vec![format!("{ROOT}/docs/index.html")])
        }
        other => panic!("unexpected route {other:?}"),
    }
    assert!(matches!(route_request(ROOT, b""), RequestRoute::Ignore));
    match route_request(ROOT, b"GET /a HTTP/1.1\r\n\xff\xfe") {
        RequestRoute::Lookup { candidates } => assert_eq!(candidates.len(), 3),
        other => panic!("unexpected route {other:?}"),
    }
    assert_eq!(
        reply_of(route_request(ROOT, b"\xffGET / HTTP/1.1\r\n")),
        (
            String::from("405 Method Not Allowed"),
            String::from("Only GET requests are supported.")
        )
    );
}

#[test]
fn builds_replies_and_headers() {
    let r = text_reply("404 Not Found", "HTML file not found.");
    assert_eq!(r.content_type, "text/plain; charset=utf-8");
    assert_eq!(r.body, b"HTML file not found.".to_vec());
    assert_eq!(
        reply_head(&r),
        "HTTP/1.1 404 Not Found\r\nContent-Type: text/plain; charset=utf-8\r\nContent-Length: 20\r\nConnection: close\r\n\r\n"
    );

    let r = file_reply(FileLookup::Contents(b"<h1>home</h1>".to_vec()));
    assert_eq!(r.status, "200 OK");
    assert_eq!(r.content_type, "text/html; charset=utf-8");
    assert_eq!(
        reply_head(&r),
        "HTTP/1.1 200 OK\r\nContent-Type: text/html; charset=utf-8\r\nContent-Length: 13\r\nConnection: close\r\n\r\n"
    );
    let r = file_reply(FileLookup::Missing);
    assert_eq!(r.status, "404 Not Found");
    let r = file_reply(FileLookup::Unreadable);
    assert_eq!(r.status, "500 Internal Server Error");
    assert_eq!(r.body, b"Failed to read the requested HTML file.".to_vec());
}

#[test]
fn exact_file_comes_before_html_fallback() {
    let root = "/tmp/loomis-test-2";
    let candidates = request_candidates(root, "/notes").unwrap();
    let probes = vec![
        file("/tmp/loomis-test-2/notes"),
        file("/tmp/loomis-test-2/notes.html"),
        absent(),
    ];
    assert_eq!(
        select_candidate(root, &candidates, &probes),
        Some(String::from("/tmp/loomis-test-2/notes"))
    );
    // Without the exact file, the `.html` one is served.
    let probes = vec![absent(), file("/tmp/loomis-test-2/notes.html"), absent()];
    assert_eq!(
        resolve_request_file(root, "/notes", &probes).unwrap(),
        Some(String::from("/tmp/loomis-test-2/notes.html"))
    );
}

#[test]
fn canonical_root_must_be_a_directory() {
    assert_eq!(
        canonicalize_root("site", &RootProbe::Directory(String::from("/abs/site"))).unwrap(),
        "/abs/site"
    );
    assert_eq!(
        canonicalize_root("site", &RootProbe::NotDirectory).unwrap_err(),
        ServerError::InvalidRootDirectory(String::from("site"))
    );
    assert_eq!(
        canonicalize_root("site", &RootProbe::NotFound).unwrap_err().message(),
        "invalid html root directory: site"
    );
}
