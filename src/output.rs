//! Names and contents of the files that the logs are written to.

use vstd::prelude::*;
use vstd::string::StringExecFns;
use vstd::string::StrSliceExecFns;
use crate::classify::sequence_log;
use crate::text::{chars_of, same_text};

verus! {

broadcast use vstd::string::group_string_axioms;

/// `s` up to position `k`, cut before its last `'.'` if that dot follows the
/// last `'/'`.
pub open spec fn stem_before(s: Seq<char>, k: nat) -> Seq<char>
    decreases k,
{
    if k == 0 || k > s.len() {
        s
    } else if s[k - 1] == '.' {
        s.take(k - 1)
    } else if s[k - 1] == '/' {
        s
    } else {
        stem_before(s, (k - 1) as nat)
    }
}

/// A path without its extension: everything before the last `'.'` of the last
/// path component, or the whole path where that component has no dot.
pub open spec fn path_stem(s: Seq<char>) -> Seq<char> {
    stem_before(s, s.len())
}

/// The path of the file for log `name` of the source file `source`.
pub open spec fn log_path(source: Seq<char>, name: Seq<char>) -> Seq<char> {
    path_stem(source) + "-"@ + name + ".log"@
}

/// The first line of every connection log file.
pub open spec fn connection_header() -> Seq<char> {
    "timestamp               event_type    event_message\n"@
}

/// The contents of the file for log `name`: connection logs start with a header line.
pub open spec fn log_file_contents(name: Seq<char>, text: Seq<char>) -> Seq<char> {
    if name == sequence_log() {
        text
    } else {
        connection_header() + text
    }
}

/// The path of the file for log `name` of the source file `source`.
pub fn output_path(source: &str, name: &str) -> (r: String)
    ensures
        r@ == log_path(source@, name@),
{
    let cs = chars_of(source);
    let mut k: usize = cs.len();
    while k > 0 && cs[k - 1] != '.' && cs[k - 1] != '/'
        invariant
            cs@ == source@,
            k <= cs.len(),
            stem_before(source@, k as nat) == path_stem(source@),
        decreases k,
    {
        k = k - 1;
    }
    let stem_len: usize = if k > 0 && cs[k - 1] == '.' {
        k - 1
    } else {
        cs.len()
    };
    proof {
        if !(k > 0 && cs[k - 1] == '.') {
            assert(source@.take(cs.len() as int) =~= source@);
        }
    }
    let mut r = String::from_str(source.substring_char(0, stem_len));
    r.append("-");
    r.append(name);
    r.append(".log");
    proof {
        assert(source@.subrange(0, stem_len as int) =~= source@.take(stem_len as int));
    }
    r
}

/// The contents of the file for log `name` whose lines are `text`.
pub fn log_file_text(name: &str, text: &str) -> (r: String)
    ensures
        r@ == log_file_contents(name@, text@),
{
    if same_text(name, "sequence") {
        String::from_str(text)
    } else {
        let mut r = String::from_str("timestamp               event_type    event_message\n");
        r.append(text);
        r
    }
}

} // verus!
