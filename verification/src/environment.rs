//! The settings the scanner runs with, taken from its arguments.
use vstd::prelude::*;
use crate::argument_parser::Arguments;

verus! {

/// The settings the scanner runs with.
#[derive(Debug)]
pub struct Environment {
    pub debug: bool,
    pub bypass_stdin_check: bool,
    pub stable: bool,
    pub file: Vec<String>,
    pub keyword: String,
    pub method: String,
}

impl Environment {
    /// The settings that `args` give: copies of its options.
    pub fn get(args: &Arguments) -> (env: Environment)
        ensures
            env.debug == args.debug,
            env.bypass_stdin_check == args.bypass_stdin_check,
            env.stable == args.stable,
            env.file@.len() == args.file@.len(),
            forall|i: int| 0 <= i < args.file@.len() ==> #[trigger] env.file@[i]@ == args.file@[i]@,
            env.keyword@ == args.keyword@,
            env.method@ == args.method@,
    {
        let mut file: Vec<String> = Vec::new();
        let mut i: usize = 0;
        while i < args.file.len()
            invariant
                i <= args.file@.len(),
                file@.len() == i,
                forall|k: int| 0 <= k < i ==> #[trigger] file@[k]@ == args.file@[k]@,
            decreases args.file@.len() - i,
        {
            file.push(args.file[i].clone());
            i = i + 1;
        }
        Environment {
            debug: args.debug,
            bypass_stdin_check: args.bypass_stdin_check,
            stable: args.stable,
            file,
            keyword: args.keyword.clone(),
            method: args.method.clone(),
        }
    }
}

} // verus!
