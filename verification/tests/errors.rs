use visual_git::dynerror::{conversion_site, result_site, Cause, Context, Error, Location};

fn at(file: &str, line: u32, column: u32) -> Location {
    Location { file: file.to_string(), line, column }
}

fn io_failure() -> Cause {
    Cause::Foreign {
        text: "io failed".to_string(),
        source: Some(Box::new(Cause::Foreign { text: "disk gone".to_string(), source: None })),
    }
}

fn unwrap_err<T>(r: Result<T, Error>) -> Error {
    match r {
        Ok(_) => panic!("expected an error"),
        Err(e) => e,
    }
}

#[test]
fn new_errors_show_their_message() {
    let e = Error::new("it broke".to_string(), at("src/main.rs", 5, 1));
    assert_eq!(e.to_text(false), "it broke");
    assert_eq!(e.to_text(true), "it broke");
    assert_eq!(e.trace(), "error:src/main.rs:5:1: it broke");
    assert!(e.source().is_none());
}

#[test]
fn context_wraps_errors_of_this_module() {
    let inner = Error::new("inner".to_string(), at("src/x.rs", 1, 2));
    let r: Result<(), Error> = Err(inner);
    let e = unwrap_err(r.context("outer".to_string(), at("main.rs", 3, 4)));
    assert_eq!(e.to_text(false), "outer: inner");
    assert_eq!(e.to_text(true), "outer");
    assert_eq!(e.trace(), "error:main.rs:3:4: outer\n\ncaused by:\n\tsrc/x.rs:1:2: inner\n");
    assert!(e.source().is_some());
}

#[test]
fn context_wraps_foreign_errors() {
    let r: Result<(), Cause> = Err(io_failure());
    let e = unwrap_err(r.context("reading".to_string(), at("f.rs", 10, 20)));
    assert_eq!(e.to_text(false), "reading: io failed");
    assert_eq!(e.trace(), "error:f.rs:10:20: reading\n\ncaused by:\n\tio failed\ndisk gone\n");
}

#[test]
fn chains_of_context_are_shown_in_order() {
    let r: Result<(), Cause> = Err(io_failure());
    let first = r.context("reading".to_string(), at("a.rs", 1, 1));
    let e = unwrap_err(first.context("loading".to_string(), at("b.rs", 2, 2)));
    assert_eq!(e.to_text(false), "loading: reading: io failed");
    assert_eq!(
        e.trace(),
        "error:b.rs:2:2: loading\n\ncaused by:\n\ta.rs:1:1: reading\nio failed\ndisk gone\n"
    );
}

#[test]
fn with_context_computes_the_message_on_failure() {
    let r: Result<u8, Cause> = Err(io_failure());
    let e = unwrap_err(r.with_context(|| format!("try {}", 2), at("c.rs", 1, 1)));
    assert_eq!(e.to_text(false), "try 2: io failed");
    let ok: Result<u8, Cause> = Ok(4);
    assert_eq!(ok.with_context(|| "unused".to_string(), at("c.rs", 1, 1)).ok(), Some(4));
}

#[test]
fn result_converts_the_failure_itself() {
    let r: Result<(), Cause> = Err(io_failure());
    let e = unwrap_err(r.result(at("d.rs", 4, 4)));
    assert_eq!(e.to_text(true), "io failed");
    assert_eq!(e.to_text(false), "io failed: disk gone");
    assert_eq!(
        e.trace(),
        "error:d.rs:4:4: io failed\n\ncaused by:\n\tsrc/dynerror.rs:573:25: disk gone\n"
    );
}

#[test]
fn from_error_converts_chains() {
    let e = Error::from_error(&io_failure(), &at("g.rs", 9, 9));
    assert_eq!(e.to_text(true), "io failed");
    assert_eq!(e.to_text(false), "io failed: disk gone");
    assert_eq!(
        e.trace(),
        "error:g.rs:9:9: io failed\n\ncaused by:\n\tsrc/dynerror.rs:384:21: disk gone\n"
    );
}

#[test]
fn nested_links_are_raised_in_this_module() {
    let deep = Cause::Foreign {
        text: "a".to_string(),
        source: Some(Box::new(Cause::Foreign {
            text: "b".to_string(),
            source: Some(Box::new(Cause::Foreign { text: "c".to_string(), source: None })),
        })),
    };
    let r: Result<(), Cause> = Err(deep);
    let e = unwrap_err(r.result(at("h.rs", 1, 2)));
    let show = |l: Location| format!("{}:{}:{}", l.file, l.line, l.column);
    assert_eq!(
        e.trace(),
        format!(
            "error:h.rs:1:2: a\n\ncaused by:\n\t{}: b\n{}: c\n",
            show(result_site()),
            show(conversion_site())
        )
    );
    assert_eq!(show(conversion_site()), "src/dynerror.rs:384:21");
}

#[test]
fn missing_values_become_errors() {
    let none: Option<u8> = None;
    assert_eq!(unwrap_err(none.context("no value".to_string(), at("e.rs", 1, 1))).to_text(false), "no value");
    let none: Option<u8> = None;
    assert_eq!(
        unwrap_err(none.result(at("e.rs", 1, 1))).to_text(false),
        "an optional value was None"
    );
    let none: Option<u8> = None;
    assert_eq!(
        unwrap_err(none.with_context(|| "lazy".to_string(), at("e.rs", 1, 1))).to_text(false),
        "lazy"
    );
    let some = Some(3u8);
    assert_eq!(some.context("unused".to_string(), at("e.rs", 1, 1)).ok(), Some(3));
}
