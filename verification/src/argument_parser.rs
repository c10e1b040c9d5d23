//! The command line of the scanner, as the program hands it to the library.
use vstd::prelude::*;

verus! {

/// The options of the command line.
#[derive(Debug)]
pub struct Arguments {
    pub config: bool,
    pub debug: bool,
    pub bypass_stdin_check: bool,
    pub stable: bool,
    pub file: Vec<String>,
    pub keyword: String,
    pub method: String,
}

/// What `str::to_lowercase` makes of a text: its lower-case equivalent under the Unicode
/// `Lowercase` property.
pub uninterp spec fn lowercase_chars(text: Seq<char>) -> Seq<char>;

/// Calls `str::to_lowercase`, whose result depends on the text alone; the contract names
/// that result and states nothing more of it.
#[verifier::external_body]
fn to_lowercase(text: &String) -> (lowered: String)
    ensures
        lowered@ == lowercase_chars(text@),
{
    text.to_lowercase()
}

impl Arguments {
    /// The same arguments with the name of the method in lower case, so that it can be
    /// matched against the names of the methods.
    pub fn lowercase(self) -> (lowered: Self)
        ensures
            lowered.method@ == lowercase_chars(self.method@),
            lowered.config == self.config,
            lowered.debug == self.debug,
            lowered.bypass_stdin_check == self.bypass_stdin_check,
            lowered.stable == self.stable,
            lowered.file == self.file,
            lowered.keyword == self.keyword,
    {
        let mut args = self;
        args.method = to_lowercase(&args.method);
        args
    }
}

} // verus!
