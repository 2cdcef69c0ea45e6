//! A small argument scanner kept for compatibility: picks the handful of
//! flags the command line understands out of a raw argument list. Flags are
//! matched case-insensitively; a value flag takes the following argument.

use vstd::prelude::*;

use crate::utils::upper_of;

verus! {

/// Whether an argument spells the given flag, compared case-insensitively
/// against its uppercased long and short forms.
pub open spec fn is_flag(a: Seq<char>, long: Seq<char>, short: Seq<char>) -> bool {
    upper_of(a) == long || upper_of(a) == short
}

/// The parsed arguments.
pub struct ArgParser {
    /// The value following the last user-name flag.
    pub user_name: String,
    /// The value following the last email flag.
    pub user_email: String,
    /// The identify target, when given and present on disk.
    pub identify_file_path: String,
    /// The pattern target directory, when given and present on disk.
    pub pattern_target_folder: String,
    /// The value following the last extension flag.
    pub pattern_target_extension: String,
    /// Whether help was requested.
    pub help: bool,
}

impl ArgParser {
    /// Scan an argument list. The two path fields are kept only when the
    /// filesystem confirms them, so they are either empty or one of the
    /// given arguments.
    pub fn from_args(args: &Vec<String>) -> (r: ArgParser)
        ensures
            r.help == exists|i: int|
                0 <= i < args@.len() && is_flag(
                    (#[trigger] args@[i])@,
                    "--HELP"@,
                    "-H"@,
                ),
            r.user_name@.len() == 0 || exists|i: int|
                0 <= i + 1 < args@.len() && is_flag((#[trigger] args@[i])@, "--USER"@, "-U"@)
                    && r.user_name@ == args@[i + 1]@,
            r.user_email@.len() == 0 || exists|i: int|
                0 <= i + 1 < args@.len() && is_flag((#[trigger] args@[i])@, "--EMAIL"@, "-E"@)
                    && r.user_email@ == args@[i + 1]@,
            r.pattern_target_extension@.len() == 0 || exists|i: int|
                0 <= i + 1 < args@.len() && is_flag(
                    (#[trigger] args@[i])@,
                    "--EXTENSION"@,
                    "-E"@,
                ) && r.pattern_target_extension@ == args@[i + 1]@,
            r.identify_file_path@.len() == 0 || exists|i: int|
                0 <= i + 1 < args@.len() && r.identify_file_path@ == (#[trigger] args@[i + 1])@,
            r.pattern_target_folder@.len() == 0 || exists|i: int|
                0 <= i + 1 < args@.len() && r.pattern_target_folder@ == (#[trigger] args@[i + 1])@,
    {
        let mut user_name = String::new();
        let mut user_email = String::new();
        let mut identify_file_path = String::new();
        let mut pattern_target_folder = String::new();
        let mut pattern_target_extension = String::new();
        let mut help = false;
        let mut i: usize = 0;
        while i < args.len()
            invariant
                i <= args@.len(),
                help == exists|m: int|
                    0 <= m < i && is_flag((#[trigger] args@[m])@, "--HELP"@, "-H"@),
                user_name@.len() == 0 || exists|m: int|
                    0 <= m + 1 < args@.len() && is_flag((#[trigger] args@[m])@, "--USER"@, "-U"@)
                        && user_name@ == args@[m + 1]@,
                user_email@.len() == 0 || exists|m: int|
                    0 <= m + 1 < args@.len() && is_flag((#[trigger] args@[m])@, "--EMAIL"@, "-E"@)
                        && user_email@ == args@[m + 1]@,
                pattern_target_extension@.len() == 0 || exists|m: int|
                    0 <= m + 1 < args@.len() && is_flag(
                        (#[trigger] args@[m])@,
                        "--EXTENSION"@,
                        "-E"@,
                    ) && pattern_target_extension@ == args@[m + 1]@,
                identify_file_path@.len() == 0 || exists|m: int|
                    0 <= m + 1 < args@.len() && identify_file_path@ == (#[trigger] args@[m + 1])@,
                pattern_target_folder@.len() == 0 || exists|m: int|
                    0 <= m + 1 < args@.len() && pattern_target_folder@ == (#[trigger] args@[m
                        + 1])@,
            decreases args@.len() - i,
        {
            let upper_arg = crate::utils::to_uppercase_string(args[i].as_str());
            let has_next = i + 1 < args.len();
            let is_user = upper_arg.eq(&String::from_str("--USER")) || upper_arg.eq(
                &String::from_str("-U"),
            );
            let is_email = upper_arg.eq(&String::from_str("--EMAIL")) || upper_arg.eq(
                &String::from_str("-E"),
            );
            let is_identify = upper_arg.eq(&String::from_str("--IDENTIFY")) || upper_arg.eq(
                &String::from_str("-I"),
            );
            let is_pattern = upper_arg.eq(&String::from_str("--PATTERN")) || upper_arg.eq(
                &String::from_str("-P"),
            );
            let is_extension = upper_arg.eq(&String::from_str("--EXTENSION")) || upper_arg.eq(
                &String::from_str("-E"),
            );
            let is_help = upper_arg.eq(&String::from_str("--HELP")) || upper_arg.eq(
                &String::from_str("-H"),
            );
            if is_user && has_next {
                user_name = args[i + 1].clone();
            }
            if is_email && has_next {
                user_email = args[i + 1].clone();
            }
            if is_identify && has_next {
                if crate::utils::file_exists(args[i + 1].as_str()) {
                    identify_file_path = args[i + 1].clone();
                }
            }
            if is_pattern && has_next {
                if crate::utils::directory_exists(args[i + 1].as_str()) {
                    pattern_target_folder = args[i + 1].clone();
                }
            }
            if is_extension && has_next {
                pattern_target_extension = args[i + 1].clone();
            }
            if is_help {
                help = true;
            }
            i += 1;
        }
        ArgParser {
            user_name,
            user_email,
            identify_file_path,
            pattern_target_folder,
            pattern_target_extension,
            help,
        }
    }
}

} // verus!
