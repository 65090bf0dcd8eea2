//! The tool's arguments, as plain values, with the defaults the tool applies.
use vstd::prelude::*;

verus! {

/// The arguments of the program.
pub struct Args {
    pub dir: Option<String>,
    pub spacer: Option<String>,
    pub include_hidden: bool,
    pub git_ignored: bool,
    pub copy: bool,
    pub prefix: Option<String>,
    pub out_file: Option<String>,
}

impl Args {
    /// The indentation unit: as given, or four spaces.
    pub fn spacer_or_default(&self) -> (r: String)
        ensures
            match self.spacer {
                Option::Some(s) => r@ == s@,
                Option::None => r@ == "    "@,
            },
    {
        match &self.spacer {
            Option::Some(s) => s.clone(),
            Option::None => "    ".to_owned(),
        }
    }

    /// The per-line prefix: as given, or a dash and a space.
    pub fn prefix_or_default(&self) -> (r: String)
        ensures
            match self.prefix {
                Option::Some(s) => r@ == s@,
                Option::None => r@ == "- "@,
            },
    {
        match &self.prefix {
            Option::Some(s) => s.clone(),
            Option::None => "- ".to_owned(),
        }
    }
}

} // verus!
