//! A weakly typed error that carries a message, the place where it was
//! raised and what caused it, so that an application can wrap any error
//! with more context and print the whole chain.
use vstd::prelude::*;
use vstd::string::*;

use crate::text::{decimal, owned, push_decimal};

verus! {

/// A place in the source code.
pub struct Location {
    pub file: String,
    pub line: u32,
    pub column: u32,
}

/// What an error wraps: another error of this module, or an error from
/// elsewhere known by its display text and its own cause.
pub enum Cause {
    Located(Error),
    Foreign { text: String, source: Option<Box<Cause>> },
}

/// An error: a message, where it was raised, and what caused it.
pub struct Error {
    msg: String,
    wraps: Option<Box<Cause>>,
    at: Location,
}

/// `file:line:column`.
pub open spec fn location_text(at: Location) -> Seq<char> {
    at.file@ + ":"@ + decimal(at.line as nat) + ":"@ + decimal(at.column as nat)
}

impl Error {
    /// The message of the error.
    pub closed spec fn message(self) -> Seq<char> {
        self.msg@
    }

    /// Where the error was raised.
    pub closed spec fn location(self) -> Location {
        self.at
    }

    /// What the error wraps.
    pub closed spec fn cause(self) -> Option<Cause> {
        match self.wraps {
            Some(c) => Some(*c),
            None => None,
        }
    }
}

/// The display text of an error: its message, then `: ` and the display
/// text of what it wraps, if anything.
pub open spec fn shown_error(e: Error) -> Seq<char>
    decreases e,
{
    match e.cause() {
        Some(c) => e.message() + ": "@ + shown_cause(c),
        None => e.message(),
    }
}

/// The display text of a cause: that of the wrapped error, or the text of
/// a foreign error.
pub open spec fn shown_cause(c: Cause) -> Seq<char>
    decreases c,
{
    match c {
        Cause::Located(e) => shown_error(e),
        Cause::Foreign { text, .. } => text@,
    }
}

/// The next link of a chain of causes.
pub open spec fn next_cause(c: Cause) -> Option<Cause> {
    match c {
        Cause::Located(e) => e.cause(),
        Cause::Foreign { source, .. } => match source {
            Some(s) => Some(*s),
            None => None,
        },
    }
}

/// One line of an error trace for each link of the chain of causes: an
/// error of this module with its location, any other by its text.
pub open spec fn cause_lines(c: Cause) -> Seq<char>
    decreases c,
{
    let line = match c {
        Cause::Located(e) => location_text(e.location()) + ": "@ + e.message(),
        Cause::Foreign { text, .. } => text@,
    };
    match c {
        Cause::Located(e) => match e.cause() {
            Some(n) => line + "\n"@ + cause_lines(n),
            None => line + "\n"@,
        },
        Cause::Foreign { source, .. } => match source {
            Some(n) => line + "\n"@ + cause_lines(*n),
            None => line + "\n"@,
        },
    }
}

/// The debug text of an error: the error with its location, then, if it
/// wraps anything, the chain of causes.
pub open spec fn error_trace(e: Error) -> Seq<char> {
    let head = "error:"@ + location_text(e.location()) + ": "@ + e.message();
    match e.cause() {
        Some(c) => head + "\n\ncaused by:\n\t"@ + cause_lines(c),
        None => head,
    }
}

} // verus!

verus! {

/// `file:line:column` of a location, appended to `s`.
fn push_location(s: &mut String, at: &Location)
    ensures
        final(s)@ == old(s)@ + location_text(*at),
{
    s.append(at.file.as_str());
    s.append(":");
    push_decimal(s, at.line as u64);
    s.append(":");
    push_decimal(s, at.column as u64);
}

/// A copy of a location.
fn copy_location(at: &Location) -> (r: Location)
    ensures
        r == *at,
{
    Location { file: at.file.clone(), line: at.line, column: at.column }
}

impl Error {
    /// A new error with the given message, raised at `at`.
    pub fn new(msg: String, at: Location) -> (e: Error)
        ensures
            e.message() == msg@,
            e.location() == at,
            e.cause() is None,
    {
        Error { msg, wraps: None, at }
    }

    /// The error that stands for a cause: its display text as message, raised
    /// at `at`, and what it wraps, converted in the same way, as its cause;
    /// the links beneath are raised at [`conversion_site`].
    pub fn from_error(err: &Cause, at: &Location) -> (e: Error)
        ensures
            is_conversion(e, *err, *at),
    {
        let site = conversion_site();
        let e = convert(err, at, &site);
        proof {
            lemma_converted_below(e, *err, exactly(*at), site, at_conversion_site());
        }
        e
    }

    /// What the error wraps, if anything.
    pub fn source(&self) -> (r: Option<&Cause>)
        ensures
            match r {
                Some(c) => self.cause() == Some(*c),
                None => self.cause() is None,
            },
    {
        match &self.wraps {
            Some(c) => Some(&**c),
            None => None,
        }
    }

    /// The display text of the error; in the alternate form only its own
    /// message.
    pub fn to_text(&self, alternate: bool) -> (t: String)
        ensures
            t@ == if alternate {
                self.message()
            } else {
                shown_error(*self)
            },
    {
        if alternate {
            self.msg.clone()
        } else {
            error_text(self)
        }
    }

    /// The debug text of the error: an error return trace.
    pub fn trace(&self) -> (t: String)
        ensures
            t@ == error_trace(*self),
    {
        let mut t = owned("error:");
        push_location(&mut t, &self.at);
        t.append(": ");
        t.append(self.msg.as_str());
        match &self.wraps {
            Some(c) => {
                t.append("\n\ncaused by:\n\t");
                push_cause_lines(&mut t, c);
            },
            None => {},
        }
        t
    }
}

/// The file of this module, where conversions of nested causes are raised.
pub open spec fn module_file() -> Seq<char> {
    "src/dynerror.rs"@
}

/// Where [`Error::from_error`] raises the errors that stand for the links
/// beneath the first: the call that converts them in [`convert`].
pub open spec fn is_conversion_site(l: Location) -> bool {
    l.file@ == module_file() && l.line == CONVERSION_LINE && l.column == CONVERSION_COLUMN
}

/// Where `result` raises the error that stands for the second link of a
/// chain: its call of [`convert`].
pub open spec fn is_result_site(l: Location) -> bool {
    l.file@ == module_file() && l.line == RESULT_LINE && l.column == RESULT_COLUMN
}

/// The locations at the conversion site.
pub open spec fn at_conversion_site() -> spec_fn(Location) -> bool {
    |l: Location| is_conversion_site(l)
}

/// The locations at the site of `result`.
pub open spec fn at_result_site() -> spec_fn(Location) -> bool {
    |l: Location| is_result_site(l)
}

/// The location `at` alone.
pub open spec fn exactly(at: Location) -> spec_fn(Location) -> bool {
    |l: Location| l == at
}

/// `e` stands for the cause `c`: each link of the chain becomes an error
/// whose message is the display text of that link; the first is raised at a
/// location that `top` accepts, the second at one that `below` accepts, and
/// the others at the conversion site.
pub open spec fn converted(
    e: Error,
    c: Cause,
    top: spec_fn(Location) -> bool,
    below: spec_fn(Location) -> bool,
) -> bool
    decreases c,
{
    &&& e.message() == shown_cause(c)
    &&& top(e.location())
    &&& match c {
        Cause::Located(inner) => match inner.cause() {
            Some(n) => e.cause() matches Some(Cause::Located(x)) && converted(
                x,
                n,
                below,
                at_conversion_site(),
            ),
            None => e.cause() is None,
        },
        Cause::Foreign { source, .. } => match source {
            Some(n) => e.cause() matches Some(Cause::Located(x)) && converted(
                x,
                *n,
                below,
                at_conversion_site(),
            ),
            None => e.cause() is None,
        },
    }
}

/// `e` is what [`Error::from_error`] makes of the cause `c` at `at`.
pub open spec fn is_conversion(e: Error, c: Cause, at: Location) -> bool {
    converted(e, c, exactly(at), at_conversion_site())
}

/// `e` is what `result` makes of the failure `c` at `at`.
pub open spec fn is_result_conversion(e: Error, c: Cause, at: Location) -> bool {
    converted(e, c, exactly(at), at_result_site())
}

proof fn lemma_converted_below(
    e: Error,
    c: Cause,
    top: spec_fn(Location) -> bool,
    site: Location,
    below: spec_fn(Location) -> bool,
)
    requires
        converted(e, c, top, exactly(site)),
        below(site),
    ensures
        converted(e, c, top, below),
{
    match c {
        Cause::Located(inner) => {
            if let Some(n) = inner.cause() {
                if let Some(Cause::Located(x)) = e.cause() {
                    assert(converted(x, n, exactly(site), at_conversion_site()));
                    assert(x.location() == site);
                    assert(converted(x, n, below, at_conversion_site()));
                }
            }
        },
        Cause::Foreign { source, .. } => {
            if let Some(n) = source {
                if let Some(Cause::Located(x)) = e.cause() {
                    assert(converted(x, *n, exactly(site), at_conversion_site()));
                    assert(x.location() == site);
                    assert(converted(x, *n, below, at_conversion_site()));
                }
            }
        },
    }
}

/// The line of the call that converts nested links in [`convert`].
pub const CONVERSION_LINE: u32 = 384;

/// The column of the call that converts nested links in [`convert`].
pub const CONVERSION_COLUMN: u32 = 21;

/// The line of the call of [`convert`] in `result`.
pub const RESULT_LINE: u32 = 573;

/// The column of the call of [`convert`] in `result`.
pub const RESULT_COLUMN: u32 = 25;

/// The location of the conversion site.
pub fn conversion_site() -> (l: Location)
    ensures
        is_conversion_site(l),
{
    Location { file: owned("src/dynerror.rs"), line: CONVERSION_LINE, column: CONVERSION_COLUMN }
}

/// The location of the site of `result`.
pub fn result_site() -> (l: Location)
    ensures
        is_result_site(l),
{
    Location { file: owned("src/dynerror.rs"), line: RESULT_LINE, column: RESULT_COLUMN }
}

/// The error that stands for `err`, raised at `at`, the error for the next
/// link raised at `below`, and the others at the conversion site.
fn convert(err: &Cause, at: &Location, below: &Location) -> (e: Error)
    ensures
        converted(e, *err, exactly(*at), exactly(*below)),
    decreases err,
{
    let msg = cause_text(err);
    let next = match err {
        Cause::Located(inner) => match &inner.wraps {
            Some(n) => Some(&**n),
            None => None,
        },
        Cause::Foreign { source, .. } => match source {
            Some(n) => Some(&**n),
            None => None,
        },
    };
    let wraps = match next {
        Some(n) => {
            let site = conversion_site();
            let x = convert(n, below, &site);
            proof {
                lemma_converted_below(x, *n, exactly(*below), site, at_conversion_site());
            }
            Some(Box::new(Cause::Located(x)))
        },
        None => None,
    };
    Error { msg, wraps, at: copy_location(at) }
}

/// The display text of an error.
fn error_text(e: &Error) -> (t: String)
    ensures
        t@ == shown_error(*e),
    decreases e,
{
    match &e.wraps {
        Some(c) => {
            let mut t = e.msg.clone();
            t.append(": ");
            let inner = cause_text(c);
            t.append(inner.as_str());
            t
        },
        None => e.msg.clone(),
    }
}

/// The display text of a cause.
fn cause_text(c: &Cause) -> (t: String)
    ensures
        t@ == shown_cause(*c),
    decreases c,
{
    match c {
        Cause::Located(e) => error_text(e),
        Cause::Foreign { text, .. } => text.clone(),
    }
}

/// Appends the trace lines of a chain of causes.
fn push_cause_lines(t: &mut String, c: &Cause)
    ensures
        final(t)@ == old(t)@ + cause_lines(*c),
    decreases c,
{
    let ghost start = t@;
    match c {
        Cause::Located(e) => {
            push_location(t, &e.at);
            t.append(": ");
            t.append(e.msg.as_str());
            t.append("\n");
            match &e.wraps {
                Some(n) => {
                    push_cause_lines(t, n);
                },
                None => {},
            }
        },
        Cause::Foreign { text, source } => {
            t.append(text.as_str());
            t.append("\n");
            match source {
                Some(n) => {
                    push_cause_lines(t, n);
                },
                None => {},
            }
        },
    }
    assert(t@ =~= start + cause_lines(*c));
}

} // verus!

verus! {

/// Adding context to a failed result or a missing value.
pub trait Context<T>: Sized {
    /// The value, or an error with `context` as message that wraps the
    /// failure.
    fn context(self, context: String, at: Location) -> Result<T, Error>;

    /// Like [`Context::context`], with the message computed only when it is
    /// needed.
    fn with_context<F: FnOnce() -> String>(self, f: F, at: Location) -> Result<T, Error>
        requires
            f.requires(()),
    ;

    /// The value, or the failure itself as an error, adding no context.
    fn result(self, at: Location) -> Result<T, Error>;
}

impl<T> Context<T> for Option<T> {
    fn context(self, context: String, at: Location) -> (r: Result<T, Error>)
        ensures
            match self {
                Some(t) => r == Ok::<T, Error>(t),
                None => r matches Err(e) && e.message() == context@ && e.location() == at
                    && e.cause() is None,
            },
    {
        match self {
            Some(t) => Ok(t),
            None => Err(Error::new(context, at)),
        }
    }

    fn with_context<F: FnOnce() -> String>(self, f: F, at: Location) -> (r: Result<T, Error>)
        ensures
            match self {
                Some(t) => r == Ok::<T, Error>(t),
                None => r matches Err(e) && (exists|m: String| f.ensures((), m) && e.message() == m@)
                    && e.location() == at && e.cause() is None,
            },
    {
        match self {
            Some(t) => Ok(t),
            None => {
                let m = f();
                Err(Error::new(m, at))
            },
        }
    }

    fn result(self, at: Location) -> (r: Result<T, Error>)
        ensures
            match self {
                Some(t) => r == Ok::<T, Error>(t),
                None => r matches Err(e) && e.message() == "an optional value was None"@
                    && e.location() == at && e.cause() is None,
            },
    {
        match self {
            Some(t) => Ok(t),
            None => Err(Error::new(owned("an optional value was None"), at)),
        }
    }
}

impl<T> Context<T> for Result<T, Cause> {
    fn context(self, context: String, at: Location) -> (r: Result<T, Error>)
        ensures
            match self {
                Ok(t) => r == Ok::<T, Error>(t),
                Err(c) => r matches Err(e) && e.message() == context@ && e.location() == at
                    && e.cause() == Some(c),
            },
    {
        match self {
            Ok(t) => Ok(t),
            Err(c) => Err(Error { msg: context, wraps: Some(Box::new(c)), at }),
        }
    }

    fn with_context<F: FnOnce() -> String>(self, f: F, at: Location) -> (r: Result<T, Error>)
        ensures
            match self {
                Ok(t) => r == Ok::<T, Error>(t),
                Err(c) => r matches Err(e) && (exists|m: String| f.ensures((), m) && e.message()
                    == m@) && e.location() == at && e.cause() == Some(c),
            },
    {
        match self {
            Ok(t) => Ok(t),
            Err(c) => {
                let m = f();
                let ghost gm = m;
                let e = Error { msg: m, wraps: Some(Box::new(c)), at };
                assert(f.ensures((), gm) && e.message() == gm@);
                Err(e)
            },
        }
    }

    fn result(self, at: Location) -> (r: Result<T, Error>)
        ensures
            match self {
                Ok(t) => r == Ok::<T, Error>(t),
                Err(c) => r matches Err(e) && is_result_conversion(e, c, at),
            },
    {
        match self {
            Ok(t) => Ok(t),
            Err(c) => {
                let site = result_site();
                let e = convert(&c, &at, &site);
                proof {
                    lemma_converted_below(e, c, exactly(at), site, at_result_site());
                }
                Err(e)
            },
        }
    }
}

impl<T> Context<T> for Result<T, Error> {
    fn context(self, context: String, at: Location) -> (r: Result<T, Error>)
        ensures
            match self {
                Ok(t) => r == Ok::<T, Error>(t),
                Err(inner) => r matches Err(e) && e.message() == context@ && e.location() == at
                    && e.cause() == Some(Cause::Located(inner)),
            },
    {
        match self {
            Ok(t) => Ok(t),
            Err(inner) => Err(Error { msg: context, wraps: Some(Box::new(Cause::Located(inner))), at }),
        }
    }

    fn with_context<F: FnOnce() -> String>(self, f: F, at: Location) -> (r: Result<T, Error>)
        ensures
            match self {
                Ok(t) => r == Ok::<T, Error>(t),
                Err(inner) => r matches Err(e) && (exists|m: String| f.ensures((), m)
                    && e.message() == m@) && e.location() == at && e.cause() == Some(
                    Cause::Located(inner),
                ),
            },
    {
        match self {
            Ok(t) => Ok(t),
            Err(inner) => {
                let m = f();
                let ghost gm = m;
                let e = Error { msg: m, wraps: Some(Box::new(Cause::Located(inner))), at };
                assert(f.ensures((), gm) && e.message() == gm@);
                Err(e)
            },
        }
    }

    fn result(self, at: Location) -> (r: Result<T, Error>)
        ensures
            match self {
                Ok(t) => r == Ok::<T, Error>(t),
                Err(inner) => r matches Err(e) && is_result_conversion(e, Cause::Located(inner), at),
            },
    {
        match self {
            Ok(t) => Ok(t),
            Err(inner) => {
                let c = Cause::Located(inner);
                let site = result_site();
                let e = convert(&c, &at, &site);
                proof {
                    lemma_converted_below(e, c, exactly(at), site, at_result_site());
                }
                Err(e)
            },
        }
    }
}

} // verus!

verus! {

/// An error that wraps another shows its own message, `: `, then the text
/// of the error it wraps; its alternate text is its message alone.
pub proof fn law_context_display(outer: Error, inner: Error)
    requires
        outer.cause() == Some(Cause::Located(inner)),
    ensures
        shown_error(outer) == outer.message() + ": "@ + shown_error(inner),
{
}

} // verus!
