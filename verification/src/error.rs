//! Errors.

use vstd::prelude::*;

verus! {

/// What goes wrong with a configuration.
#[derive(Debug)]
pub enum AppError {
    /// A configuration file cannot be read, understood or written.
    Config(String),
    /// The description of an MCP server is not usable.
    McpValidation(String),
    /// A JSON document cannot be written.
    JsonSerialize(String),
    /// A message for the user, in Chinese and in English.
    Localized { key: String, zh: String, en: String },
}

/// The content of an [`AppError`].
pub enum ErrorView {
    Config(Seq<char>),
    McpValidation(Seq<char>),
    JsonSerialize(Seq<char>),
    Localized { key: Seq<char>, zh: Seq<char>, en: Seq<char> },
}

impl View for AppError {
    type V = ErrorView;

    open spec fn view(&self) -> ErrorView {
        match *self {
            AppError::Config(m) => ErrorView::Config(m@),
            AppError::McpValidation(m) => ErrorView::McpValidation(m@),
            AppError::JsonSerialize(m) => ErrorView::JsonSerialize(m@),
            AppError::Localized { key, zh, en } => ErrorView::Localized {
                key: key@,
                zh: zh@,
                en: en@,
            },
        }
    }
}

/// The content of a result.
pub open spec fn outcome<T: View>(r: Result<T, AppError>) -> Result<T::V, ErrorView> {
    match r {
        Ok(v) => Ok(v@),
        Err(e) => Err(e@),
    }
}

/// The text of an error, as the user sees it.
pub open spec fn message_of(e: ErrorView) -> Seq<char> {
    match e {
        ErrorView::Config(m) => m,
        ErrorView::McpValidation(m) => m,
        ErrorView::JsonSerialize(m) => m,
        ErrorView::Localized { key, zh, en } => zh,
    }
}

impl AppError {
    /// A message for the user, in Chinese and in English.
    pub fn localized(key: &str, zh: &str, en: &str) -> (r: AppError)
        ensures
            r@ == (ErrorView::Localized { key: key@, zh: zh@, en: en@ }),
    {
        AppError::Localized { key: key.to_owned(), zh: zh.to_owned(), en: en.to_owned() }
    }

    /// The text of the error, as the user sees it.
    pub fn message(&self) -> (r: String)
        ensures
            r@ == message_of(self@),
    {
        match self {
            AppError::Config(m) => m.clone(),
            AppError::McpValidation(m) => m.clone(),
            AppError::JsonSerialize(m) => m.clone(),
            AppError::Localized { key, zh, en } => zh.clone(),
        }
    }
}

} // verus!
