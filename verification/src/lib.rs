//! Reorganizes a flat, date-coded directory tree of media files into a nested
//! `YEAR/MONTH` hierarchy at a destination, and optionally reconciles the
//! destination so it mirrors the source.
//!
//! The crate holds the decision logic only: enumeration order, path
//! rewriting, copy/skip policy and reconciliation. The filesystem work itself
//! (reading directories, copying, deleting) is done by the caller, which
//! feeds directory entries in and carries the computed plans out.
use vstd::prelude::*;

pub mod file_ops;
pub mod lister;
pub mod paths;

use crate::paths::str_eq;

verus! {

/// The argument is the override flag: overwriting at the destination on.
pub open spec fn is_override_flag(a: Seq<char>) -> bool {
    a == "-o"@ || a == "--override"@
}

/// The argument is the skip flag: overwriting at the destination off.
pub open spec fn is_skip_flag(a: Seq<char>) -> bool {
    a == "-s"@ || a == "--skip"@
}

/// The argument is the lean flag: reconcile the destination afterwards.
pub open spec fn is_lean_flag(a: Seq<char>) -> bool {
    a == "-l"@ || a == "--lean"@
}

/// The argument is one of the recognized flags.
pub open spec fn is_known_flag(a: Seq<char>) -> bool {
    is_override_flag(a) || is_skip_flag(a) || is_lean_flag(a)
}

/// The overwrite policy the flags leave in force: off to begin with, and
/// the last of the override and skip flags wins.
pub open spec fn override_of(flags: Seq<Seq<char>>) -> bool
    decreases flags.len(),
{
    if flags.len() == 0 {
        false
    } else if is_override_flag(flags.last()) {
        true
    } else if is_skip_flag(flags.last()) {
        false
    } else {
        override_of(flags.drop_last())
    }
}

/// Whether any lean flag was given; once on, it stays on.
pub open spec fn lean_of(flags: Seq<Seq<char>>) -> bool
    decreases flags.len(),
{
    if flags.len() == 0 {
        false
    } else if is_lean_flag(flags.last()) {
        true
    } else {
        lean_of(flags.drop_last())
    }
}

/// The first argument that is not a recognized flag, if any.
pub open spec fn first_unknown(flags: Seq<Seq<char>>) -> Option<Seq<char>>
    decreases flags.len(),
{
    if flags.len() == 0 {
        None
    } else if !is_known_flag(flags[0]) {
        Some(flags[0])
    } else {
        first_unknown(flags.skip(1))
    }
}

/// The six recognized flags are pairwise distinct, so each argument is of
/// at most one kind.
proof fn lemma_flags_distinct()
    ensures
        "-o"@ != "-s"@,
        "-o"@ != "--skip"@,
        "--override"@ != "-s"@,
        "--override"@ != "--skip"@,
        "-o"@ != "-l"@,
        "-o"@ != "--lean"@,
        "--override"@ != "-l"@,
        "--override"@ != "--lean"@,
        "-s"@ != "-l"@,
        "-s"@ != "--lean"@,
        "--skip"@ != "-l"@,
        "--skip"@ != "--lean"@,
{
    reveal_strlit("-o");
    reveal_strlit("--override");
    reveal_strlit("-s");
    reveal_strlit("--skip");
    reveal_strlit("-l");
    reveal_strlit("--lean");
    assert("-o"@[1] == 'o');
    assert("-s"@[1] == 's');
    assert("-l"@[1] == 'l');
    assert("--skip"@[2] == 's');
    assert("--lean"@[2] == 'l');
}

/// Immutable run parameters: the two roots and the two policy flags.
pub struct Config {
    pub source: String,
    pub destination: String,
    pub override_present: bool,
    pub lean: bool,
}

/// An argument-list error: a missing path or an unrecognized flag.
#[derive(Debug)]
pub enum ConfigError {
    MissingSource,
    MissingDestination,
    UnknownOption(String),
}

impl ConfigError {
    /// The error, in words, as the operator sees it.
    pub fn message(&self) -> (r: String)
        ensures
            match self {
                ConfigError::MissingSource => r@ == "Didn't get a source directory"@,
                ConfigError::MissingDestination => r@ == "Didn't get a destination directory"@,
                ConfigError::UnknownOption(u) => r@ == "Unknown option: `"@ + u@ + "`"@,
            },
    {
        match self {
            ConfigError::MissingSource => String::from_str("Didn't get a source directory"),
            ConfigError::MissingDestination => String::from_str(
                "Didn't get a destination directory",
            ),
            ConfigError::UnknownOption(u) => {
                let mut r = String::from_str("Unknown option: `");
                r.append(u.as_str());
                r.append("`");
                r
            },
        }
    }
}

impl Config {
    /// Builds a `Config` from the argument list. The first argument is the
    /// program name and is ignored; then come the source and destination
    /// roots, then the flags, read left to right.
    pub fn build(args: Vec<String>) -> (r: Result<Config, ConfigError>)
        ensures
            ({
                let flags = args.deep_view().skip(3);
                match r {
                    Ok(c) => args@.len() >= 3 && first_unknown(flags) is None && c.source@
                        == args.deep_view()[1] && c.destination@ == args.deep_view()[2]
                        && c.override_present == override_of(flags) && c.lean == lean_of(flags),
                    Err(e) => match e {
                        ConfigError::MissingSource => args@.len() < 2,
                        ConfigError::MissingDestination => args@.len() == 2,
                        ConfigError::UnknownOption(u) => args@.len() >= 3 && first_unknown(flags)
                            == Some(u@),
                    },
                }
            }),
    {
        if args.len() < 2 {
            return Err(ConfigError::MissingSource);
        }
        if args.len() < 3 {
            return Err(ConfigError::MissingDestination);
        }
        let source = args[1].clone();
        let destination = args[2].clone();
        let mut override_present = false;
        let mut lean = false;
        let ghost flags = args.deep_view().skip(3);
        let n = args.len();
        let mut i: usize = 3;
        proof {
            assert(flags.skip(0) =~= flags);
            assert(flags.take(0) =~= Seq::<Seq<char>>::empty());
        }
        while i < n
            invariant
                3 <= i <= n,
                n == args@.len(),
                flags == args.deep_view().skip(3),
                flags.len() == n - 3,
                first_unknown(flags) == first_unknown(flags.skip(i - 3)),
                override_present == override_of(flags.take(i - 3)),
                lean == lean_of(flags.take(i - 3)),
            decreases n - i,
        {
            let ghost k = i - 3;
            proof {
                lemma_flags_distinct();
                assert(flags[k] == args.deep_view()[i as int]);
                assert(flags.take(k + 1).last() == flags[k]);
                assert(flags.take(k + 1).drop_last() =~= flags.take(k));
                assert(flags.skip(k)[0] == flags[k]);
                assert(flags.skip(k).skip(1) =~= flags.skip(k + 1));
            }
            let arg = &args[i];
            if str_eq(arg.as_str(), "-o") || str_eq(arg.as_str(), "--override") {
                override_present = true;
            } else if str_eq(arg.as_str(), "-s") || str_eq(arg.as_str(), "--skip") {
                override_present = false;
            } else if str_eq(arg.as_str(), "-l") || str_eq(arg.as_str(), "--lean") {
                lean = true;
            } else {
                return Err(ConfigError::UnknownOption(arg.clone()));
            }
            proof {
                assert(arg@ == flags[k]);
            }
            i = i + 1;
        }
        proof {
            assert(flags.take(n - 3) =~= flags);
            assert(flags.skip(n - 3) =~= Seq::<Seq<char>>::empty());
        }
        Ok(Config { source, destination, override_present, lean })
    }
}

} // verus!
