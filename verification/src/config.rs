use vstd::prelude::*;

verus! {

/// Configuration based on the command-line arguments.
///
/// The first argument should be the name of a text file with the words to
/// place in the puzzle. If a second argument is included the puzzle will
/// be more difficult, by also placing words right to left (backwards).
pub struct Config {
    pub wordsfile: String,
    pub size: usize,
    pub maxtries: usize,
    pub hard: bool,
}

impl Config {
    /// Builds the configuration from the argument list, program name
    /// first: argument 1 names the words file and is required; a second
    /// argument, whatever its value, turns on hard mode. Grid size and
    /// retry budget are fixed, not configurable from the command line.
    pub fn new(args: Vec<String>) -> (r: Result<Config, &'static str>)
        ensures
            r is Ok <==> args@.len() >= 2,
            r matches Ok(c) ==> {
                &&& c.wordsfile@ == args@[1]@
                &&& c.size == 20
                &&& c.maxtries == 10000
                &&& c.hard <==> args@.len() >= 3
            },
            r matches Err(e) ==> e@ == "no input words file provided"@,
    {
        if args.len() < 2 {
            return Err("no input words file provided");
        }
        let wordsfile = args[1].clone();
        let hard = args.len() >= 3;
        Ok(Config { wordsfile, size: 20, maxtries: 10000, hard })
    }
}

} // verus!
