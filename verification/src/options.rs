//! The settings of the parser and of the formatters.
use vstd::prelude::*;

verus! {

/// Options for both parser and formatter functions.
#[derive(Clone, Copy, Debug)]
pub struct ComrakOptions {
    /// Soft line breaks in the input become hard line breaks in the output.
    pub hardbreaks: bool,
    /// GitHub-style `<pre lang="xyz">` is used for fenced code blocks with info tags.
    pub github_pre_lang: bool,
    /// The wrap column when writing CommonMark.
    pub width: usize,
    /// Enables the strikethrough extension.
    pub ext_strikethrough: bool,
    /// Enables the tagfilter extension.
    pub ext_tagfilter: bool,
    /// Enables the table extension.
    pub ext_table: bool,
    /// Enables the autolink extension.
    pub ext_autolink: bool,
}

impl Default for ComrakOptions {
    /// Everything is off, and nothing is wrapped.
    fn default() -> (r: ComrakOptions)
        ensures
            r == (ComrakOptions {
                hardbreaks: false,
                github_pre_lang: false,
                width: 0,
                ext_strikethrough: false,
                ext_tagfilter: false,
                ext_table: false,
                ext_autolink: false,
            }),
    {
        ComrakOptions {
            hardbreaks: false,
            github_pre_lang: false,
            width: 0,
            ext_strikethrough: false,
            ext_tagfilter: false,
            ext_table: false,
            ext_autolink: false,
        }
    }
}

} // verus!
