//! The text of output lines: fixed-width fields, step-key segments and the
//! splitting of multi-line messages.

use vstd::prelude::*;
use vstd::string::StringExecFns;
use vstd::string::StrSliceExecFns;
use crate::text::chars_of;

verus! {

broadcast use vstd::string::group_string_axioms;

/// `n` spaces.
pub open spec fn spaces(n: nat) -> Seq<char> {
    Seq::new(n, |i: int| ' ')
}

/// `s` followed by spaces up to `width` characters; never shortened.
pub open spec fn pad_right(s: Seq<char>, width: nat) -> Seq<char> {
    if s.len() >= width {
        s
    } else {
        s + spaces((width - s.len()) as nat)
    }
}

/// What follows the last `'|'` of `s`, or all of `s` when it has none.
pub open spec fn last_segment(s: Seq<char>) -> Seq<char>
    decreases s.len(),
{
    if s.len() == 0 {
        s
    } else if s.last() == '|' {
        Seq::empty()
    } else {
        last_segment(s.drop_last()).push(s.last())
    }
}

/// `x` without one final carriage return.
pub open spec fn strip_cr(x: Seq<char>) -> Seq<char> {
    if x.len() > 0 && x.last() == '\r' {
        x.drop_last()
    } else {
        x
    }
}

/// The lines of `s` from position `i` on, the current line having begun at `start`.
pub open spec fn lines_from(s: Seq<char>, start: nat, i: nat) -> Seq<Seq<char>>
    decreases s.len() - i,
{
    if i >= s.len() {
        if start < s.len() {
            seq![s.subrange(start as int, s.len() as int)]
        } else {
            Seq::empty()
        }
    } else if s[i as int] == '\n' {
        seq![strip_cr(s.subrange(start as int, i as int))] + lines_from(s, i + 1, i + 1)
    } else {
        lines_from(s, start, i + 1)
    }
}

/// The lines of a message: it is cut after each `'\n'`, a `"\r\n"` ending counts
/// as one line ending, and a final line ending starts no further line.
pub open spec fn message_lines(s: Seq<char>) -> Seq<Seq<char>> {
    lines_from(s, 0, 0)
}

proof fn lemma_lines_shift(p: Seq<char>, t: Seq<char>, start: nat, i: nat)
    requires
        start <= i <= t.len(),
    ensures
        lines_from(p + t, p.len() + start, p.len() + i) == lines_from(t, start, i),
    decreases t.len() - i,
{
    let s = p + t;
    if i < t.len() {
        assert(s[(p.len() + i) as int] == t[i as int]);
        if t[i as int] == '\n' {
            lemma_lines_shift(p, t, i + 1, i + 1);
            assert(s.subrange((p.len() + start) as int, (p.len() + i) as int) =~= t.subrange(start as int, i as int));
            assert(p.len() + i + 1 == p.len() + (i + 1));
        } else {
            lemma_lines_shift(p, t, start, i + 1);
        }
    } else if start < t.len() {
        assert(s.subrange((p.len() + start) as int, s.len() as int) =~= t.subrange(start as int, t.len() as int));
    }
}

proof fn lemma_lines_skip(s: Seq<char>, start: nat, i: nat, j: nat)
    requires
        i <= j <= s.len(),
        forall|k: int| i <= k < j ==> s[k] != '\n',
    ensures
        lines_from(s, start, i) == lines_from(s, start, j),
    decreases j - i,
{
    if i < j {
        lemma_lines_skip(s, start, i + 1, j);
    }
}

/// A message made of a first line `x`, a line feed, and the rest `t` has the
/// lines: `x` (less a final carriage return), then the lines of `t`.
pub proof fn lemma_message_lines_split(x: Seq<char>, t: Seq<char>)
    requires
        forall|k: int| 0 <= k < x.len() ==> x[k] != '\n',
    ensures
        message_lines(x + seq!['\n'] + t) == seq![strip_cr(x)] + message_lines(t),
{
    let p = x + seq!['\n'];
    let s = p + t;
    assert forall|k: int| 0 <= k < x.len() implies s[k] != '\n' by {
        assert(s[k] == x[k]);
    }
    lemma_lines_skip(s, 0, 0, x.len());
    assert(s[x.len() as int] == '\n');
    assert(s.subrange(0, x.len() as int) =~= x);
    lemma_lines_shift(p, t, 0, 0);
    assert(p.len() == x.len() + 1);
}

/// The line written to the sequence log for one row.
pub open spec fn sequence_line(
    timestamp: Seq<char>,
    module_name: Seq<char>,
    line_number: Seq<char>,
    cell_key: Seq<char>,
    step_key: Seq<char>,
    level_name: Seq<char>,
    body: Seq<char>,
) -> Seq<char> {
    timestamp + " "@ + pad_right(module_name, 24) + " line:"@ + pad_right(line_number, 4) + " "@
        + cell_key + " "@ + last_segment(step_key) + " "@ + pad_right(level_name, 8) + ": "@
        + body + "\n"@
}

/// One line of a connection log.
pub open spec fn connection_line(timestamp: Seq<char>, event_type: Seq<char>, line: Seq<char>) -> Seq<char> {
    timestamp + " "@ + pad_right(event_type, 9) + " "@ + line + "\n"@
}

/// The connection log lines for the message lines `lines`, in order.
pub open spec fn connection_text(
    timestamp: Seq<char>,
    event_type: Seq<char>,
    lines: Seq<Seq<char>>,
) -> Seq<char>
    decreases lines.len(),
{
    if lines.len() == 0 {
        Seq::empty()
    } else {
        connection_text(timestamp, event_type, lines.drop_last()) + connection_line(
            timestamp,
            event_type,
            lines.last(),
        )
    }
}

/// Appends `s` padded with spaces to `width` characters.
pub fn push_padded(out: &mut String, s: &str, width: usize)
    ensures
        final(out)@ == old(out)@ + pad_right(s@, width as nat),
{
    out.append(s);
    let n: usize = s.unicode_len();
    let mut k: usize = n;
    proof {
        reveal_strlit(" ");
    }
    while k < width
        invariant
            n == s@.len(),
            n <= k <= width || (n >= width && k == n),
            out@ == old(out)@ + s@ + spaces((k - n) as nat),
        decreases width - k,
    {
        let ghost before = out@;
        out.append(" ");
        proof {
            reveal_strlit(" ");
            assert(spaces((k - n) as nat).push(' ') =~= spaces((k + 1 - n) as nat));
            assert(out@ =~= before.push(' '));
            assert(old(out)@ + s@ + spaces((k + 1 - n) as nat) =~= before.push(' '));
        }
        k = k + 1;
    }
    proof {
        if n >= width {
            assert(spaces(0) =~= Seq::<char>::empty());
            assert(s@ + spaces(0) =~= s@);
        }
    }
}

proof fn lemma_last_segment_from(s: Seq<char>, k: nat)
    requires
        k <= s.len(),
        k == 0 || s[k - 1] == '|',
        forall|j: int| k <= j < s.len() ==> s[j] != '|',
    ensures
        last_segment(s) == s.subrange(k as int, s.len() as int),
    decreases s.len(),
{
    if s.len() == k {
        if k > 0 {
            assert(s.last() == '|');
        }
        assert(s.subrange(k as int, s.len() as int) =~= Seq::<char>::empty());
    } else {
        let t = s.drop_last();
        lemma_last_segment_from(t, k);
        assert(t.subrange(k as int, t.len() as int).push(s.last()) =~= s.subrange(
            k as int,
            s.len() as int,
        ));
    }
}

/// What follows the last `'|'` of `s`.
pub fn last_segment_of(s: &str) -> (r: &str)
    ensures
        r@ == last_segment(s@),
{
    let cs = chars_of(s);
    let mut k: usize = cs.len();
    while k > 0 && cs[k - 1] != '|'
        invariant
            cs@ == s@,
            k <= cs.len(),
            forall|j: int| k <= j < cs@.len() ==> cs@[j] != '|',
        decreases k,
    {
        k = k - 1;
    }
    proof {
        lemma_last_segment_from(s@, k as nat);
    }
    s.substring_char(k, cs.len())
}

/// The lines of the message `s`.
pub fn message_lines_of(s: &str) -> (r: Vec<&str>)
    ensures
        r@.map_values(|x: &str| x@) == message_lines(s@),
{
    let cs = chars_of(s);
    let n: usize = cs.len();
    let mut out: Vec<&str> = Vec::new();
    let mut start: usize = 0;
    let mut i: usize = 0;
    while i < n
        invariant
            cs@ == s@,
            n == cs.len(),
            start <= i <= n,
            out@.map_values(|x: &str| x@) + lines_from(s@, start as nat, i as nat) == message_lines(
                s@,
            ),
        decreases n - i,
    {
        if cs[i] == '\n' {
            let end: usize = if i > start && cs[i - 1] == '\r' {
                i - 1
            } else {
                i
            };
            let piece = s.substring_char(start, end);
            proof {
                let x = s@.subrange(start as int, i as int);
                if i > start && cs@[i - 1] == '\r' {
                    assert(x.drop_last() =~= s@.subrange(start as int, end as int));
                }
                assert(piece@ == strip_cr(x));
                let old_out = out@.map_values(|x: &str| x@);
                assert(old_out.push(piece@) + lines_from(s@, (i + 1) as nat, (i + 1) as nat)
                    =~= old_out + lines_from(s@, start as nat, i as nat));
            }
            out.push(piece);
            proof {
                let old_out = out@.drop_last().map_values(|x: &str| x@);
                assert(out@.map_values(|x: &str| x@) =~= old_out.push(piece@));
            }
            start = i + 1;
        }
        i = i + 1;
    }
    if start < n {
        let piece = s.substring_char(start, n);
        let ghost old_out = out@.map_values(|x: &str| x@);
        out.push(piece);
        proof {
            assert(out@.map_values(|x: &str| x@) =~= old_out + lines_from(s@, start as nat, i as nat));
        }
    } else {
        proof {
            let old_out = out@.map_values(|x: &str| x@);
            assert(old_out + lines_from(s@, start as nat, i as nat) =~= old_out);
        }
    }
    out
}

/// Appends the sequence log line for one row.
pub fn push_sequence_line(
    out: &mut String,
    timestamp: &str,
    module_name: &str,
    line_number: &str,
    cell_key: &str,
    step_key: &str,
    level_name: &str,
    body: &str,
)
    ensures
        final(out)@ == old(out)@ + sequence_line(
            timestamp@,
            module_name@,
            line_number@,
            cell_key@,
            step_key@,
            level_name@,
            body@,
        ),
{
    out.append(timestamp);
    out.append(" ");
    push_padded(out, module_name, 24);
    out.append(" line:");
    push_padded(out, line_number, 4);
    out.append(" ");
    out.append(cell_key);
    out.append(" ");
    out.append(last_segment_of(step_key));
    out.append(" ");
    push_padded(out, level_name, 8);
    out.append(": ");
    out.append(body);
    out.append("\n");
    proof {
        assert(out@ =~= old(out)@ + sequence_line(
            timestamp@,
            module_name@,
            line_number@,
            cell_key@,
            step_key@,
            level_name@,
            body@,
        ));
    }
}

/// Appends one connection log line per line of `message`.
pub fn push_connection_lines(out: &mut String, timestamp: &str, event_type: &str, message: &str)
    ensures
        final(out)@ == old(out)@ + connection_text(timestamp@, event_type@, message_lines(message@)),
{
    let lines = message_lines_of(message);
    let ghost all = lines@.map_values(|x: &str| x@);
    let mut i: usize = 0;
    while i < lines.len()
        invariant
            all == lines@.map_values(|x: &str| x@),
            all == message_lines(message@),
            i <= lines.len(),
            out@ == old(out)@ + connection_text(timestamp@, event_type@, all.take(i as int)),
        decreases lines.len() - i,
    {
        out.append(timestamp);
        out.append(" ");
        push_padded(out, event_type, 9);
        out.append(" ");
        out.append(lines[i]);
        out.append("\n");
        proof {
            assert(all.take(i + 1).drop_last() =~= all.take(i as int));
            assert(out@ =~= old(out)@ + connection_text(timestamp@, event_type@, all.take(i + 1)));
        }
        i = i + 1;
    }
    proof {
        assert(all.take(i as int) =~= all);
    }
}

} // verus!
