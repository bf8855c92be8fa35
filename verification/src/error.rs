//! The one error type handed to callers: whichever stage failed first.
use crate::interpreter;
use crate::scanner;
use crate::sexp;
use vstd::prelude::*;

verus! {

/// A fault from any stage of the front end, scan / parse / build order.
#[derive(Debug)]
pub enum Error {
    ScanError(scanner::Error),
    SexpParseError(sexp::ParseError),
    InterpretError(interpreter::InterpretError),
}

pub ghost enum ErrorView {
    ScanError(scanner::ErrorView),
    SexpParseError(sexp::ParseErrorView),
    InterpretError(interpreter::InterpretErrorView),
}

impl View for Error {
    type V = ErrorView;

    open spec fn view(&self) -> ErrorView {
        match self {
            Error::ScanError(e) => ErrorView::ScanError(e@),
            Error::SexpParseError(e) => ErrorView::SexpParseError(e@),
            Error::InterpretError(e) => ErrorView::InterpretError(e@),
        }
    }
}

} // verus!
