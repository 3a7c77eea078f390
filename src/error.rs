use vstd::prelude::*;

verus! {

/// What can go wrong before any text is rendered.
#[derive(Debug)]
pub enum Error {
    /// The node path does not begin with the separator `/`.
    NodePathMustBeAbsolute(String),
    /// No node answers to the path. Holds the part of the path that was
    /// resolved, then the part left unresolved: the first segment that had
    /// no matching child and every segment after it.
    NodeNotFound(String, String),
    /// No template is registered under the layout name.
    UnknownLayout(String),
}

/// The mathematical value of an [`Error`].
pub enum ErrorView {
    NodePathMustBeAbsolute(Seq<char>),
    NodeNotFound(Seq<char>, Seq<char>),
    UnknownLayout(Seq<char>),
}

impl View for Error {
    type V = ErrorView;

    open spec fn view(&self) -> ErrorView {
        match self {
            Error::NodePathMustBeAbsolute(s) => ErrorView::NodePathMustBeAbsolute(s@),
            Error::NodeNotFound(r, u) => ErrorView::NodeNotFound(r@, u@),
            Error::UnknownLayout(s) => ErrorView::UnknownLayout(s@),
        }
    }
}

/// The human-readable message of an error.
pub open spec fn message_of(e: ErrorView) -> Seq<char> {
    match e {
        ErrorView::NodePathMustBeAbsolute(p) => "Node path must be absolute, but "@ + p + " is not."@,
        ErrorView::NodeNotFound(r, u) => "Path "@ + r + u + " not found; "@ + u + " is left unresolved."@,
        ErrorView::UnknownLayout(n) => "Unknown layout "@ + n + "."@,
    }
}

impl Error {
    /// The message that describes this error.
    pub fn message(&self) -> (r: String)
        ensures
            r@ == message_of(self@),
    {
        match self {
            Error::NodePathMustBeAbsolute(p) => {
                let r = String::from_str("Node path must be absolute, but ");
                let r = r.concat(p.as_str());
                r.concat(" is not.")
            },
            Error::NodeNotFound(resolved, unresolved) => {
                let r = String::from_str("Path ");
                let r = r.concat(resolved.as_str());
                let r = r.concat(unresolved.as_str());
                let r = r.concat(" not found; ");
                let r = r.concat(unresolved.as_str());
                r.concat(" is left unresolved.")
            },
            Error::UnknownLayout(n) => {
                let r = String::from_str("Unknown layout ");
                let r = r.concat(n.as_str());
                r.concat(".")
            },
        }
    }
}

} // verus!
