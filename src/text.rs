use vstd::prelude::*;
use vstd::string::{StrSliceExecFns, StringExecFns};

verus! {

/// `s` cut to at most `max_len` characters: a longer text keeps its first
/// `max_len - 3` characters followed by "...".
pub open spec fn truncated(s: Seq<char>, max_len: int) -> Seq<char> {
    if s.len() > max_len {
        s.subrange(0, max_len - 3) + seq!['.', '.', '.']
    } else {
        s
    }
}

/// Cuts `s` to fit in `max_len` characters, marking a cut with "...".
pub fn truncate(s: &str, max_len: usize) -> (r: String)
    requires
        s@.len() <= max_len || max_len >= 3,
    ensures
        r@ == truncated(s@, max_len as int),
        r@.len() <= max_len || r@ == s@,
{
    if s.unicode_len() > max_len {
        let mut out = String::from_str(s.substring_char(0, max_len - 3));
        proof {
            reveal_strlit("...");
        }
        out.append("...");
        out
    } else {
        String::from_str(s)
    }
}

} // verus!
