//! The argument list for the external muxer process: concat demuxing of
//! the input list, then either a plain stream copy or the fixed re-encode
//! settings, then the output path.

use vstd::prelude::*;

verus! {

/// The exact arguments of a muxer invocation reading `list` and writing
/// `output`, re-encoding when `compress` is set.
pub open spec fn muxer_args_spec(list: Seq<char>, output: Seq<char>, compress: bool) -> Seq<
    Seq<char>,
> {
    seq!["-f"@, "concat"@, "-safe"@, "0"@, "-i"@, list] + (if compress {
        seq![
            "-c:v"@,
            "libx264"@,
            "-crf"@,
            "23"@,
            "-preset"@,
            "medium"@,
            "-c:a"@,
            "aac"@,
            "-b:a"@,
            "128k"@,
        ]
    } else {
        seq!["-c"@, "copy"@]
    }) + seq![output]
}

/// Build the muxer's argument list.
pub fn muxer_args<'a>(list_path: &'a str, output: &'a str, compress: bool) -> (r: Vec<&'a str>)
    ensures
        r@.map_values(|s: &str| s@) == muxer_args_spec(list_path@, output@, compress),
{
    let mut r: Vec<&str> = Vec::new();
    r.push("-f");
    r.push("concat");
    r.push("-safe");
    r.push("0");
    r.push("-i");
    r.push(list_path);
    if compress {
        r.push("-c:v");
        r.push("libx264");
        r.push("-crf");
        r.push("23");
        r.push("-preset");
        r.push("medium");
        r.push("-c:a");
        r.push("aac");
        r.push("-b:a");
        r.push("128k");
    } else {
        r.push("-c");
        r.push("copy");
    }
    r.push(output);
    proof {
        assert(r@.map_values(|s: &str| s@) =~= muxer_args_spec(list_path@, output@, compress));
    }
    r
}

} // verus!
