//! Error kinds of the section parser and of a dashboard run.
use vstd::prelude::*;

use crate::marker::Marker;

verus! {

/// The error of the `regex` crate when a pattern cannot be compiled; carried as it is.
#[verifier::external_type_specification]
#[verifier::external_body]
pub struct ExRegexError(regex::Error);

/// A colour that the terminal printer may be asked to use.
#[derive(Debug, Clone, Copy, PartialEq, Eq, Structural)]
pub enum ErrorColor {
    Red,
    Green,
    Yellow,
    Blue,
    Magenta,
    Cyan,
}

/// Errors of the terminal printer.
#[derive(Debug, Clone)]
pub enum PrinterError {
    /// The colour specification could not be parsed.
    TermcolorError(String),
    /// Writing to the terminal failed.
    Io(String),
    /// The colour buffer rejected a colour.
    BufferError(String),
    /// A colour that the printer does not support.
    InvalidColor(ErrorColor),
}

/// Errors of the section parser.
#[derive(Debug)]
pub enum ParserError {
    /// Reading or writing the target file failed; holds the reason.
    Io(String),
    /// An internal consistency check failed.
    LogicBug(String),
    /// A marker could not be turned into a search pattern.
    RegexError(regex::Error),
    /// The buffer holds no such marker.
    MarkerNotFound(Marker),
    /// The printer failed.
    PrinterError(PrinterError),
    /// A worker of a parallel step failed.
    ChannelError(String),
}

impl ParserError {
    /// Whether the error is a [`ParserError::ChannelError`].
    pub fn is_channel_error(&self) -> (r: bool)
        ensures
            r == (self is ChannelError),
    {
        match self {
            ParserError::ChannelError(_) => true,
            _ => false,
        }
    }
}

/// Errors of a dashboard run.
#[derive(Debug)]
pub enum AppError {
    /// A file could not be opened, read or written; holds the reason.
    Io(String),
    /// An internal consistency check failed.
    LogicBug(String),
    /// Updating the Markdown section failed.
    ParserError(ParserError),
    /// The repository listing did not have the expected JSON shape, or the records could not be
    /// written as JSON; holds the reason.
    SerdeError(String),
    /// Data that the step needs was not there.
    UnwrapError(String),
    /// The repository listing command failed; holds the reason.
    XshellError(String),
    /// A worker of the parallel step failed.
    CrossbeamError(String),
}

} // verus!
