//! Validated command-line arguments. Parsing the raw process arguments is
//! the caller's business; this module owns the rules: which commands exist,
//! and which codec to use when none was named (detection by file
//! extension).

use vstd::prelude::*;

use crate::detect::detect_rle;
use crate::detect::spec_detect_rle;

verus! {

/// The codec to run.
#[derive(Debug, Clone, Copy, PartialEq, Eq, Structural)]
pub enum Algo {
    Rle,
    Lz77,
}

/// A validated set of command-line arguments: a command that is known, and a
/// codec that is always resolved.
#[derive(Debug)]
pub struct CliArgs {
    pub command: String,
    pub input: String,
    pub output: String,
    pub algo: Option<Algo>,
}

/// Whether two string slices hold the same characters.
fn str_eq(a: &str, b: &str) -> (r: bool)
    ensures
        r == (a@ == b@),
{
    let n = a.unicode_len();
    let m = b.unicode_len();
    if n != m {
        return false;
    }
    let mut i: usize = 0;
    while i < n
        invariant
            i <= n,
            n as int == a@.len(),
            n as int == b@.len(),
            forall|k: int| 0 <= k < i ==> a@[k] == b@[k],
        decreases n - i,
    {
        if a.get_char(i) != b.get_char(i) {
            return false;
        }
        i = i + 1;
    }
    proof {
        assert(a@ =~= b@);
    }
    true
}

impl CliArgs {
    /// Validate raw argument values: the command must be `compress` or
    /// `decompress`, and when no codec was named one is chosen from the
    /// input file's extension.
    pub fn parse_args(command: String, input: String, output: String, algo: Option<Algo>) -> (r:
        Result<CliArgs, String>)
        ensures
            command@ == "compress"@ || command@ == "decompress"@ <==> r is Ok,
            r is Ok ==> {
                let a = r.unwrap();
                &&& a.command@ == command@
                &&& a.input@ == input@
                &&& a.output@ == output@
                &&& (algo is Some ==> a.algo == algo)
                &&& (algo is None ==> a.algo == Some(
                    if spec_detect_rle(input@) {
                        Algo::Rle
                    } else {
                        Algo::Lz77
                    },
                ))
            },
            r is Err ==> r.unwrap_err()@ == "Command must be either 'compress' or 'decompress'"@,
    {
        if !str_eq(command.as_str(), "compress") && !str_eq(command.as_str(), "decompress") {
            return Err("Command must be either 'compress' or 'decompress'".to_owned());
        }
        let algo = match algo {
            Some(a) => Some(a),
            None => {
                if detect_rle(input.as_str()) {
                    Some(Algo::Rle)
                } else {
                    Some(Algo::Lz77)
                }
            },
        };
        Ok(CliArgs { command, input, output, algo })
    }

    /// Whether the command asks for compression.
    pub fn is_compress(&self) -> (r: bool)
        ensures
            r == (self.command@ == "compress"@),
    {
        str_eq(self.command.as_str(), "compress")
    }

    /// Whether the command asks for decompression.
    pub fn is_decompress(&self) -> (r: bool)
        ensures
            r == (self.command@ == "decompress"@),
    {
        str_eq(self.command.as_str(), "decompress")
    }

    /// Whether the RLE codec was chosen.
    pub fn is_rle(&self) -> (r: bool)
        ensures
            r == (self.algo == Some(Algo::Rle)),
    {
        match self.algo {
            Some(Algo::Rle) => true,
            _ => false,
        }
    }

    /// Whether the LZ77 codec was chosen.
    pub fn is_lz77(&self) -> (r: bool)
        ensures
            r == (self.algo == Some(Algo::Lz77)),
    {
        match self.algo {
            Some(Algo::Lz77) => true,
            _ => false,
        }
    }
}

/// Resolve the codec flags of the command line: explicit flags win, naming
/// both is an error, and with neither the input file's extension decides.
/// True selects RLE, false LZ77.
pub fn determine_algorithm(input: &str, rle: bool, lz: bool) -> (r: Result<bool, String>)
    ensures
        rle && lz ==> r is Err,
        rle && !lz ==> r == Result::<bool, String>::Ok(true),
        !rle && lz ==> r == Result::<bool, String>::Ok(false),
        !rle && !lz ==> r == Result::<bool, String>::Ok(spec_detect_rle(input@)),
{
    if rle && lz {
        return Err("Cannot specify both --rle and --lz".to_owned());
    }
    if rle {
        Ok(true)
    } else if lz {
        Ok(false)
    } else {
        Ok(detect_rle(input))
    }
}

} // verus!
