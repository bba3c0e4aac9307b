use vstd::prelude::*;

verus! {

/// The argument that names the files directory; the next argument is it.
pub const FILES_DIRECTORY_ARG_NAME: &'static str = "--directory";

/// The server's configuration, read once at startup and shared read-only by
/// every connection.
pub struct Config {
    files_directory: String,
}

/// The index of the first argument equal to `name`, from `i` on.
pub open spec fn arg_index_from(args: Seq<Seq<char>>, name: Seq<char>, i: int) -> Option<int>
    decreases args.len() - i,
{
    if i < 0 || i >= args.len() {
        None
    } else if args[i] == name {
        Some(i)
    } else {
        arg_index_from(args, name, i + 1)
    }
}

/// The files directory that the command-line arguments name: the argument
/// after the first `--directory`, or `.` where there is none.
pub open spec fn directory_of_args(args: Seq<Seq<char>>) -> Seq<char> {
    match arg_index_from(args, FILES_DIRECTORY_ARG_NAME@, 0) {
        Some(i) => if i + 1 < args.len() {
            args[i + 1]
        } else {
            "."@
        },
        None => "."@,
    }
}

impl Config {
    /// The configured files directory.
    pub closed spec fn files_directory(&self) -> Seq<char> {
        self.files_directory@
    }

    /// A configuration with the given files directory.
    pub fn new(files_directory: String) -> (r: Config)
        ensures
            r.files_directory() == files_directory@,
    {
        Config { files_directory }
    }

    /// The configuration that the command-line arguments give.
    pub fn from_args(args: &Vec<String>) -> (r: Config)
        ensures
            r.files_directory() == directory_of_args(args@.map_values(|s: String| s@)),
    {
        let ghost names = args@.map_values(|s: String| s@);
        let flag = FILES_DIRECTORY_ARG_NAME.to_owned();
        let mut i: usize = 0;
        while i < args.len()
            invariant
                names == args@.map_values(|s: String| s@),
                flag@ == FILES_DIRECTORY_ARG_NAME@,
                i <= args@.len(),
                arg_index_from(names, flag@, 0) == arg_index_from(names, flag@, i as int),
            decreases args@.len() - i,
        {
            if args[i] == flag {
                if i + 1 < args.len() {
                    return Config { files_directory: args[i + 1].clone() };
                }
                return Config { files_directory: ".".to_owned() };
            }
            i = i + 1;
        }
        Config { files_directory: ".".to_owned() }
    }

    /// The configured files directory.
    pub fn get_files_directory(&self) -> (r: &str)
        ensures
            r@ == self.files_directory(),
    {
        self.files_directory.as_str()
    }
}

} // verus!
