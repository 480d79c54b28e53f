//! One line of a configuration or schema text: comment and blank skipping,
//! and the split at the first `=` into a trimmed key and a trimmed value.

use vstd::prelude::*;
use vstd::string::StrSliceExecFns;
use crate::text::spec_trim;
use crate::text::find_char;
use crate::text::find_char_from;
use crate::text::lemma_find_char_is_first;
use crate::text::trim;

verus! {

/// Whether a line is skipped: blank after trimming, a comment, or without `=`.
pub open spec fn line_skipped(line: Seq<char>) -> bool {
    let t = spec_trim(line);
    t.len() == 0 || t[0] == '#' || find_char(t, '=') == t.len()
}

/// The dotted key of a line: what stands before its first `=`, trimmed.
pub open spec fn line_key(line: Seq<char>) -> Seq<char> {
    let t = spec_trim(line);
    spec_trim(t.take(find_char(t, '=')))
}

/// The raw value of a line: what stands after its first `=`, trimmed.
pub open spec fn line_value(line: Seq<char>) -> Seq<char> {
    let t = spec_trim(line);
    spec_trim(t.skip(find_char(t, '=') + 1))
}

/// Splits a line into its trimmed key and value, or nothing for a line that
/// is skipped.
pub fn split_line(line: &str) -> (r: Option<(String, String)>)
    ensures
        match r {
            Some(kv) => !line_skipped(line@) && kv.0@ == line_key(line@) && kv.1@ == line_value(
                line@,
            ),
            None => line_skipped(line@),
        },
{
    let t = trim(line);
    let n = t.unicode_len();
    if n == 0 {
        return None;
    }
    if t.get_char(0) == '#' {
        return None;
    }
    let e = find_char_from(t, '=', 0);
    proof {
        lemma_find_char_is_first(t@, '=', e as int);
    }
    if e == n {
        return None;
    }
    let key = trim(t.substring_char(0, e)).to_owned();
    let value = trim(t.substring_char(e + 1, n)).to_owned();
    proof {
        assert(t@.subrange(0, e as int) =~= t@.take(e as int));
        assert(t@.subrange(e + 1, n as int) =~= t@.skip(e + 1));
    }
    Some((key, value))
}

} // verus!
