use visual_git::dynerror::{Context, Error, Location};
use visual_git::git::{parse_code_and_path, parse_porcelain_v2, CliBackend, GitRun};
use visual_git::http::{normalize_path, parse_request_head, scan_request_head, HeadScan, Method, MAX_BODY_BYTES};
use visual_git::router;
use visual_git::http::{Request, Response};
use visual_git::text::decimal_string;
use visual_git::ui_assets::AssetTable;

fn is_conflict(code: &str) -> bool {
    matches!(code, "DD" | "AU" | "UD" | "UA" | "DU" | "AA" | "UU")
}

fn side_changed(code: &str, side: usize) -> bool {
    code != "??" && (is_conflict(code) || (code.len() == 2 && code.as_bytes()[side] != b' '))
}

#[test]
fn counters_agree_with_entries() {
    let out = b"? a\0? b\0u UU N... 1 1 1 1 a b c x\0! y\01 M. N... 1 1 1 a b s\01 .D N... 1 1 1 a b w\0";
    let s = parse_porcelain_v2("/r", out, 0).ok().unwrap();
    let untracked = s.entries.iter().filter(|e| e.code == "??").count();
    let staged = s.entries.iter().filter(|e| side_changed(&e.code, 0)).count();
    let unstaged = s.entries.iter().filter(|e| side_changed(&e.code, 1)).count();
    assert_eq!(s.untracked, untracked);
    assert_eq!(s.staged, staged);
    assert_eq!(s.unstaged, unstaged);
    assert_eq!((s.staged, s.unstaged, s.untracked), (4, 4, 2));
}

#[test]
fn reading_a_successful_run_gives_the_parsed_status() {
    let out = b"# branch.head dev\01 M. N... 1 1 1 a b z\0? a\0".to_vec();
    let parsed = parse_porcelain_v2("/r", &out, 7).ok().unwrap();
    let read = CliBackend::new().read_status(
        "/r",
        GitRun::Exited { success: true, status: String::new(), stdout: out, stderr: Vec::new() },
        7,
    );
    assert!(read == parsed);
}

#[test]
fn inserted_skipped_records_change_nothing() {
    let base = b"# branch.head dev\0".to_vec();
    let rest = b"1 M. N... 1 1 1 a b z\0? a\0".to_vec();
    let mut without = base.clone();
    without.extend_from_slice(&rest);
    for skipped in [&b""[..], &b"# branch.oid 1234"[..], &b"x whatever"[..]] {
        let mut with = base.clone();
        with.extend_from_slice(skipped);
        with.push(0);
        with.extend_from_slice(&rest);
        let a = parse_porcelain_v2("/r", &with, 1).ok().unwrap();
        let b = parse_porcelain_v2("/r", &without, 2).ok().unwrap();
        assert_eq!(a.branch, b.branch);
        assert!(a.entries == b.entries);
        assert_eq!((a.staged, a.unstaged, a.untracked), (b.staged, b.unstaged, b.untracked));
    }
    // Directly after a rename the record is taken as the original path.
    let renamed = parse_porcelain_v2("/r", b"2 R. N... 1 1 1 a b R100 new\0# note\0old\0", 0).ok().unwrap();
    assert_eq!(renamed.entries[0].path, "# note -> new");
}

#[test]
fn appended_skipped_records_change_nothing() {
    let without = b"# branch.head dev\01 M. N... 1 1 1 a b z\0? a".to_vec();
    let mut with = without.clone();
    with.extend_from_slice(b"\0x trailing");
    let a = parse_porcelain_v2("/r", &with, 1).ok().unwrap();
    let b = parse_porcelain_v2("/r", &without, 2).ok().unwrap();
    assert_eq!(a.branch, b.branch);
    assert!(a.entries == b.entries);
    assert_eq!((a.staged, a.unstaged, a.untracked), (b.staged, b.unstaged, b.untracked));
}

#[test]
fn code_and_path_are_the_second_and_last_fields() {
    let r: &[u8] = b"1 .M N... 100644 100644 100644 aaa bbb dir/a b.rs";
    let (code, path) = parse_code_and_path(r, 9).unwrap();
    assert_eq!(code, ".M");
    assert_eq!(path, b"dir/a b.rs");
    // Seven spaces are one short of the eight that nine fields need.
    assert!(parse_code_and_path(b"1 .M N... 1 1 1 a b", 9).is_none());
    assert!(parse_code_and_path(b"1 .M N... 1 1 1 a b ", 9).is_some());
    assert!(parse_code_and_path(r, 2).is_none());
}

#[test]
fn error_is_empty_exactly_when_git_succeeded() {
    let b = CliBackend::new();
    let good = b.read_status(
        "/r",
        GitRun::Exited { success: true, status: String::new(), stdout: Vec::new(), stderr: Vec::new() },
        0,
    );
    assert!(good.error.is_empty());
    assert!(good.clean);
    let bad = b.read_status("/r", GitRun::NotStarted(String::new()), 0);
    assert!(!bad.error.is_empty());
    assert!(!bad.clean);
    assert!(bad.entries.is_empty());
}

#[test]
fn method_names_read_back() {
    for m in [Method::Get, Method::Post] {
        assert!(Method::parse(m.as_str()) == Ok(m));
    }
}

#[test]
fn normalizing_twice_is_normalizing_once() {
    for p in ["/a?b?c", "/plain", "?", ""] {
        assert_eq!(normalize_path(normalize_path(p)), normalize_path(p));
    }
}

#[test]
fn more_bytes_do_not_move_the_end_of_a_head() {
    let mut buf = b"GET / HTTP/1.1\r\n\r\n".to_vec();
    let first = match scan_request_head(&buf) {
        HeadScan::Complete(i) => i,
        _ => panic!("head not found"),
    };
    buf.extend_from_slice(b"\r\n\r\nmore");
    match scan_request_head(&buf) {
        HeadScan::Complete(i) => assert_eq!(i, first),
        _ => panic!("head not found"),
    }
}

#[test]
fn parsed_heads_never_announce_large_bodies() {
    for v in ["0", "1048576", "1048577", "18446744073709551615"] {
        let text = format!("POST / HTTP/1.1\r\nContent-Length: {}", v);
        if let Ok(h) = parse_request_head(text.as_bytes()) {
            assert!(h.content_length <= MAX_BODY_BYTES);
        }
    }
}

#[test]
fn written_lengths_read_back() {
    for n in [0u64, 7, 10, 4096, 1048576] {
        let text = format!("POST / HTTP/1.1\r\nContent-Length: {}", decimal_string(n));
        assert_eq!(parse_request_head(text.as_bytes()).ok().unwrap().content_length as u64, n);
    }
    assert_eq!(decimal_string(1234567890), "1234567890");
}

type Handler = fn(Request, ()) -> Result<Response, ()>;

fn h1(_r: Request, _s: ()) -> Result<Response, ()> {
    Ok(visual_git::http::json("one".to_string()))
}

fn h2(_r: Request, _s: ()) -> Result<Response, ()> {
    Ok(visual_git::http::json("two".to_string()))
}

#[test]
fn registering_leaves_other_routes_alone() {
    let r = router::new(()).post("/a", h1 as Handler).get("/b", h2 as Handler).get("/a", h2 as Handler);
    let call = |m: Method, p: &str| {
        r.handle(p.to_string(), Request { method: m, path: p.to_string(), body: Vec::new() }, &AssetTable::new())
            .ok()
            .unwrap()
            .body
    };
    assert_eq!(call(Method::Post, "/a"), Some(b"one".to_vec()));
    assert_eq!(call(Method::Get, "/a"), Some(b"two".to_vec()));
    assert_eq!(call(Method::Get, "/b"), Some(b"two".to_vec()));
    assert_eq!(call(Method::Post, "/b"), None);
}

#[test]
fn context_prefixes_the_wrapped_text() {
    let loc = || Location { file: "l.rs".to_string(), line: 1, column: 1 };
    let inner = Error::new("inner".to_string(), loc());
    let shown = inner.to_text(false);
    let r: Result<(), Error> = Err(inner);
    match r.context("outer".to_string(), loc()) {
        Err(e) => assert_eq!(e.to_text(false), format!("outer: {}", shown)),
        Ok(_) => panic!("expected an error"),
    }
}
