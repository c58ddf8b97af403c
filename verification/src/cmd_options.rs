//! The options record that configures an engine: step limits, the codel size
//! used when downsampling, the treatment of unknown colors, and diagnostics.

use vstd::prelude::*;

verus! {

/// Options for one run of the interpreter.  `max_steps` is ignored when
/// `unlimited_steps` is set; `unknown_white` chooses whether unrecognized
/// colors are read as white (else black); `verbose` only affects host-side
/// diagnostics and has no semantic effect on execution.
pub struct CmdOptions {
    pub verbose: bool,
    pub codel_size: u32,
    pub max_steps: u128,
    pub unlimited_steps: bool,
    pub unknown_white: bool,
    pub file_path: String,
}

/// The bytes of the png file extension, dot included.
pub open spec fn png_suffix() -> Seq<u8> {
    seq![46u8, 112u8, 110u8, 103u8]
}

/// A file name (as bytes) ends in the png extension.
pub open spec fn has_png_suffix(name: Seq<u8>) -> bool {
    name.len() >= 4 && name.subrange(name.len() - 4, name.len() as int) == png_suffix()
}

/// Whether a file name, given as bytes, names a png file.
pub fn is_png(name: &Vec<u8>) -> (r: bool)
    ensures
        r == has_png_suffix(name@),
{
    let n = name.len();
    if n < 4 {
        return false;
    }
    let r = name[n - 4] == 46 && name[n - 3] == 112 && name[n - 2] == 110 && name[n - 1] == 103;
    proof {
        let s = name@.subrange(n - 4, n as int);
        assert(s[0] == name@[n - 4]);
        assert(s[1] == name@[n - 3]);
        assert(s[2] == name@[n - 2]);
        assert(s[3] == name@[n - 1]);
        if r {
            assert(s =~= png_suffix());
        }
    }
    r
}

} // verus!
