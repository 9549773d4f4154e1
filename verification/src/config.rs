use vstd::prelude::*;

verus! {

/// What one run needs: the query, the file to search, and whether
/// matching is case-sensitive.
pub struct Config<'a> {
    pub query: &'a str,
    pub filename: &'a str,
    pub case_sensitive: bool,
}

impl<'a> Config<'a> {
    /// Builds the configuration from the process arguments, the program
    /// name standing first, and from whether the case-insensitivity
    /// switch is set in the environment. Fewer than two arguments after
    /// the program name is a usage error; arguments past the first two
    /// are ignored.
    pub fn new(args: &'a Vec<String>, case_insensitive_set: bool) -> (r: Result<
        Config<'a>,
        &'static str,
    >)
        ensures
            (r is Ok) <==> args@.len() >= 3,
            r matches Ok(c) ==> c.query@ == args@[1]@ && c.filename@ == args@[2]@
                && c.case_sensitive == !case_insensitive_set,
            r matches Err(e) ==> e@ == "not enough arguments"@,
    {
        if args.len() < 3 {
            return Err("not enough arguments");
        }
        let query = args[1].as_str();
        let filename = args[2].as_str();
        Ok(Config { query, filename, case_sensitive: !case_insensitive_set })
    }
}

} // verus!
