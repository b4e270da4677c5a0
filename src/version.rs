//! The protocol versions this codec understands.
use vstd::prelude::*;

verus! {

/// The version written into every encoded document.
pub const SPEC_VERSION: &'static str = "1.0";

/// The accepted spelling of the protocol version: `"1.0"` (found in older
/// roots) or its semantic-versioning form `"1.0.0"`.
pub open spec fn is_valid_spec_version(v: Seq<char>) -> bool {
    v == "1.0"@ || v == "1.0.0"@
}

/// Whether a declared `spec_version` is one this codec accepts.
pub fn valid_spec_version(other: &str) -> (r: bool)
    ensures
        r == is_valid_spec_version(other@),
{
    proof {
        reveal_strlit("1.0");
        reveal_strlit("1.0.0");
    }
    let n = other.unicode_len();
    if n == 3 {
        let ok = other.get_char(0) == '1' && other.get_char(1) == '.' && other.get_char(2) == '0';
        proof {
            if ok {
                assert(other@ =~= "1.0"@);
            }
        }
        ok
    } else if n == 5 {
        let ok = other.get_char(0) == '1' && other.get_char(1) == '.' && other.get_char(2) == '0'
            && other.get_char(3) == '.' && other.get_char(4) == '0';
        proof {
            if ok {
                assert(other@ =~= "1.0.0"@);
            }
        }
        ok
    } else {
        false
    }
}

} // verus!
