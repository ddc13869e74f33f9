use vstd::prelude::*;

verus! {

/// The program's settings: the pattern to search for.
pub struct Config {
    pub pattern: String,
}

/// Why the command line is not `<program> -E <pattern>`.
#[derive(Debug, Clone, Copy, PartialEq, Eq, Structural)]
pub enum CliError {
    MissingFlag,
    WrongFlag,
    MissingPattern,
}

impl CliError {
    /// A sentence that describes the error.
    pub fn message(&self) -> (r: &'static str) {
        match self {
            CliError::MissingFlag => "Expected flag",
            CliError::WrongFlag => "Expected flag to be '-E'",
            CliError::MissingPattern => "Expected pattern",
        }
    }
}

/// The flag that selects extended patterns.
pub open spec fn extended_flag() -> Seq<char> {
    seq!['-', 'E']
}

fn is_extended_flag(s: &String) -> (r: bool)
    ensures
        r == (s@ == extended_flag()),
{
    let cs = crate::lexer::chars_of(s.as_str());
    let r = cs.len() == 2 && cs[0] == '-' && cs[1] == 'E';
    proof {
        if cs@.len() == 2 && cs@[0] == '-' && cs@[1] == 'E' {
            assert(cs@ =~= extended_flag());
        }
    }
    r
}

impl Config {
    /// Reads the arguments of the program (its own name first): the flag `-E`
    /// and then the pattern.
    pub fn new(args: Vec<String>) -> (r: Result<Config, CliError>)
        ensures
            args.len() < 2 ==> r == Err::<Config, CliError>(CliError::MissingFlag),
            args.len() >= 2 && args[1]@ != extended_flag() ==> r == Err::<Config, CliError>(
                CliError::WrongFlag,
            ),
            args.len() == 2 && args[1]@ == extended_flag() ==> r == Err::<Config, CliError>(
                CliError::MissingPattern,
            ),
            args.len() > 2 && args[1]@ == extended_flag() ==> r is Ok && r->Ok_0.pattern@
                == args[2]@,
    {
        if args.len() < 2 {
            return Err(CliError::MissingFlag);
        }
        if !is_extended_flag(&args[1]) {
            return Err(CliError::WrongFlag);
        }
        if args.len() < 3 {
            return Err(CliError::MissingPattern);
        }
        let pattern = args[2].clone();
        Ok(Config { pattern })
    }
}

} // verus!
