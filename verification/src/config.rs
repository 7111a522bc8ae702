use vstd::prelude::*;

verus! {

/// The suffix actually used for matching template files: a leading `.` is
/// added when the configured suffix does not already start with one.
pub open spec fn effective_suffix(s: Seq<char>) -> Seq<char> {
    if s.len() > 0 && s[0] == '.' {
        s
    } else {
        seq!['.'] + s
    }
}

/// Run configuration, immutable after parsing: output root, template suffix,
/// input roots, value-file paths and the two environment-precedence flags.
pub struct Opt {
    /// Raise the log level from warnings-only to informational.
    pub verbose: bool,
    /// Output directory root.
    pub output: String,
    /// Paths of value files, in the order they were given.
    pub values: Vec<String>,
    /// When set, environment variables never enter the context.
    pub no_env: bool,
    /// Template-file suffix; a leading `.` is added if absent.
    pub extension: String,
    /// When set (and `no_env` is not), environment variables override
    /// same-named keys coming from value files.
    pub prefer_env: bool,
    /// Input roots: template files or directories to scan.
    pub input: Vec<String>,
}

impl Opt {
    /// The effective template suffix for this run.
    pub fn get_ext(&self) -> (r: String)
        ensures
            r@ == effective_suffix(self.extension@),
    {
        let n = self.extension.as_str().unicode_len();
        if n > 0 && self.extension.as_str().get_char(0) == '.' {
            self.extension.clone()
        } else {
            proof {
                reveal_strlit(".");
            }
            String::from_str(".").concat(self.extension.as_str())
        }
    }
}

/// A hook for passing a fallible value along a pipeline while its failure is
/// noted. The functions of this crate surface failures as returned data, so
/// the hook hands the value back unchanged.
pub trait Logged: Sized {
    fn log(self) -> (r: Self)
        ensures
            r == self,
    ;
}

impl<T, E> Logged for Result<T, E> {
    fn log(self) -> (r: Self) {
        self
    }
}

} // verus!
