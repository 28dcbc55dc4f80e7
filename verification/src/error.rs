//! Error type carrying a stack of context strings.
//!
//! Low-level causes sit at the bottom of the stack; each layer that passes an
//! error upward may prepend an explanatory string. The kind classifies the
//! failure so that callers and contracts can speak about it without parsing
//! messages.

use vstd::prelude::*;

verus! {

/// What sort of failure an [`Error`] reports.
#[derive(Clone, Copy, Debug, PartialEq, Eq, Structural)]
pub enum ErrorKind {
    /// A name or path supplied by the user failed validation.
    InvalidInput,
    /// An environment or package that was asked for does not exist.
    MissingObject,
    /// Storage is present but inconsistent (for example a broken environment).
    InconsistentState,
    /// The package dependency graph cannot be satisfied.
    DependencyGraph,
    /// An external tool exited with a non-zero status.
    Subprocess,
    /// A filesystem or process I/O failure.
    Io,
}

/// An error with a kind, a root message, and a stack of context strings.
///
/// `context[0]` is the context added closest to the failure; later entries
/// were added by higher layers.
#[derive(Debug)]
pub struct Error {
    /// Classification of the failure.
    pub kind: ErrorKind,
    /// The root-cause message.
    pub message: String,
    /// Context strings, innermost first.
    pub context: Vec<String>,
}

impl Error {
    /// Creates an error of the given kind from a root message.
    pub fn new(kind: ErrorKind, message: String) -> (e: Error)
        ensures
            e.kind == kind,
            e.message@ == message@,
            e.context@.len() == 0,
    {
        Error { kind, message, context: Vec::new() }
    }

    /// Adds one context string on top of the existing stack.
    pub fn add_context(self, context: String) -> (e: Error)
        ensures
            e.kind == self.kind,
            e.message@ == self.message@,
            e.context@ == self.context@.push(context),
    {
        let mut stack = self.context;
        stack.push(context);
        Error { kind: self.kind, message: self.message, context: stack }
    }

    /// The root-cause message.
    pub fn message(&self) -> (m: &String)
        ensures
            m@ == self.message@,
    {
        &self.message
    }

    /// The whole story: every context string, outermost first, then the
    /// root message, joined with `: `.
    pub fn full_message(&self) -> (m: String)
        ensures
            m@ == full_message_of(self.context@.map_values(|s: String| s@), self.message@),
    {
        let mut out = String::new();
        let mut i: usize = self.context.len();
        proof {
            let cv = self.context@.map_values(|s: String| s@);
            assert(cv.skip(cv.len() as int) =~= Seq::<Seq<char>>::empty());
        }
        while i > 0
            invariant
                i <= self.context@.len(),
                out@ == joined_contexts_of(
                    self.context@.map_values(|s: String| s@).skip(i as int),
                ),
            decreases i,
        {
            i = i - 1;
            let ghost cv = self.context@.map_values(|s: String| s@);
            out.append(self.context[i].as_str());
            out.append(": ");
            proof {
                lemma_joined_contexts_first(cv.skip(i as int));
                assert(cv.skip(i as int)[0] == cv[i as int]);
                assert(cv.skip(i as int).drop_first() =~= cv.skip(i + 1));
                assert(cv[i as int] == self.context@[i as int]@);
            }
        }
        proof {
            let cv = self.context@.map_values(|s: String| s@);
            assert(cv.skip(0) =~= cv);
        }
        out.append(self.message.as_str());
        out
    }

    /// The classification of this error.
    pub fn error_kind(&self) -> (k: ErrorKind)
        ensures
            k == self.kind,
    {
        self.kind
    }
}

/// The context strings read back to front (outermost first), each followed
/// by `: `.
pub open spec fn joined_contexts_of(ctx: Seq<Seq<char>>) -> Seq<char>
    decreases ctx.len(),
{
    if ctx.len() == 0 {
        Seq::empty()
    } else {
        ctx.last() + ": "@ + joined_contexts_of(ctx.drop_last())
    }
}

proof fn lemma_joined_contexts_first(s: Seq<Seq<char>>)
    requires
        s.len() > 0,
    ensures
        joined_contexts_of(s) == joined_contexts_of(s.drop_first()) + s.first() + ": "@,
    decreases s.len(),
{
    if s.len() == 1 {
        assert(s.drop_last().len() == 0);
        assert(s.drop_first().len() == 0);
        assert(joined_contexts_of(s.drop_last()) =~= Seq::<char>::empty());
        assert(joined_contexts_of(s.drop_first()) =~= Seq::<char>::empty());
        assert(s.last() == s.first());
        assert(joined_contexts_of(s) =~= joined_contexts_of(s.drop_first()) + s.first() + ": "@);
    } else {
        lemma_joined_contexts_first(s.drop_last());
        assert(s.drop_last().first() == s.first());
        assert(s.drop_last().drop_first() =~= s.drop_first().drop_last());
        assert(s.drop_first().last() == s.last());
        assert(joined_contexts_of(s.drop_first()) == s.last() + ": "@ + joined_contexts_of(
            s.drop_first().drop_last(),
        ));
        assert(joined_contexts_of(s) =~= joined_contexts_of(s.drop_first()) + s.first() + ": "@);
    }
}

/// The full rendering of an error: contexts outermost first, then the root
/// message.
pub open spec fn full_message_of(ctx: Seq<Seq<char>>, message: Seq<char>) -> Seq<char> {
    joined_contexts_of(ctx) + message
}

/// Attaches explanatory context to the error side of a `Result`.
pub trait Context<T>: Sized {
    /// The error value, if any, after the operation.
    spec fn err_spec(&self) -> Option<Error>;

    /// The success value, if any, after the operation.
    spec fn ok_spec(&self) -> Option<T>;

    /// Prepends a context string to the error, if there is one.
    fn context(self, context: String) -> (r: Result<T, Error>)
        ensures
            r is Ok <==> self.err_spec() is None,
            r matches Ok(v) ==> self.ok_spec() == Some(v),
            r matches Err(e) ==> {
                &&& self.err_spec() matches Some(inner)
                &&& e.kind == inner.kind
                &&& e.message@ == inner.message@
                &&& e.context@ == inner.context@.push(context)
            },
    ;

    /// Marks the error as still lacking a proper context message.
    fn todo_context(self) -> (r: Result<T, Error>)
        ensures
            r is Ok <==> self.err_spec() is None,
            r matches Ok(v) ==> self.ok_spec() == Some(v),
            r matches Err(e) ==> {
                &&& self.err_spec() matches Some(inner)
                &&& e.kind == inner.kind
                &&& e.message@ == inner.message@
            },
    ;
}

impl<T> Context<T> for Result<T, Error> {
    open spec fn err_spec(&self) -> Option<Error> {
        match *self {
            Ok(_) => None,
            Err(e) => Some(e),
        }
    }

    open spec fn ok_spec(&self) -> Option<T> {
        match *self {
            Ok(v) => Some(v),
            Err(_) => None,
        }
    }

    fn context(self, context: String) -> (r: Result<T, Error>) {
        match self {
            Ok(v) => Ok(v),
            Err(e) => Err(e.add_context(context)),
        }
    }

    fn todo_context(self) -> (r: Result<T, Error>) {
        match self {
            Ok(v) => Ok(v),
            Err(e) => Err(e),
        }
    }
}

} // verus!
