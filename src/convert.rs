//! Conversion of a whole table: each worker's share of the rows is classified
//! on its own and the shares are merged in worker order.

use vstd::prelude::*;
use crate::classify::{
    classify_range, describes, lemma_absent_log, lemma_log_count_bound, lemma_log_names_contain,
    is_connection_row, lemma_connection_count, lemma_push_new_contains, log_count, log_names, log_text, row_log, sequence_log, table_view,
};
use crate::format::{connection_text, message_lines};
use crate::header::{column_name, column_rank, fields_view, has_field, resolve_header, resolves, Column, HeaderIndex};
use crate::logset::{merge_names, push_new, sat_add, LogSet};
use crate::partition::{lemma_ranges_adjacent, planned_range, range_end, range_start, worker_ranges};

verus! {

/// A name of the right-hand list is in every merge with it.
proof fn lemma_merge_names_has_right(a: Seq<Seq<char>>, b: Seq<Seq<char>>, n: Seq<char>)
    requires
        b.contains(n),
    ensures
        merge_names(a, b).contains(n),
    decreases b.len(),
{
    let p = merge_names(a, b.drop_last());
    if b.last() == n {
        lemma_push_new_contains(p, n, n);
    } else {
        let k = choose|k: int| 0 <= k < b.len() && b[k] == n;
        assert(b.drop_last()[k] == n);
        lemma_merge_names_has_right(a, b.drop_last(), n);
        lemma_push_new_contains(p, b.last(), n);
    }
}

/// The names of the logs of two consecutive runs of rows are those of the first
/// run, then the new ones of the second.
pub proof fn lemma_log_names_concat(a: Seq<Seq<Seq<char>>>, b: Seq<Seq<Seq<char>>>, h: HeaderIndex)
    ensures
        log_names(a + b, h) == merge_names(log_names(a, h), log_names(b, h)),
    decreases b.len(),
{
    if b.len() == 0 {
        assert(a + b =~= a);
        lemma_log_names_contain(a, h, 0);
        let la = log_names(a, h);
        let s1 = seq![sequence_log()];
        assert(s1.drop_last() =~= Seq::<Seq<char>>::empty());
        assert(s1.last() == sequence_log());
        assert(merge_names(la, s1.drop_last()) == la);
        assert(merge_names(la, s1) == push_new(la, sequence_log()));
    } else {
        let b0 = b.drop_last();
        assert((a + b).drop_last() =~= a + b0);
        assert((a + b).last() == b.last());
        lemma_log_names_concat(a, b0, h);
        match row_log(b.last(), h) {
            Some(n) => {
                let lb0 = log_names(b0, h);
                if lb0.contains(n) {
                    lemma_merge_names_has_right(log_names(a, h), lb0, n);
                } else {
                    assert(lb0.push(n).drop_last() =~= lb0);
                }
            },
            None => {},
        }
    }
}

/// The count of a log over two consecutive runs of rows is the sum of the counts.
pub proof fn lemma_log_count_concat(
    a: Seq<Seq<Seq<char>>>,
    b: Seq<Seq<Seq<char>>>,
    h: HeaderIndex,
    name: Seq<char>,
)
    ensures
        log_count(a + b, h, name) == log_count(a, h, name) + log_count(b, h, name),
    decreases b.len(),
{
    if b.len() == 0 {
        assert(a + b =~= a);
    } else {
        assert((a + b).drop_last() =~= a + b.drop_last());
        lemma_log_count_concat(a, b.drop_last(), h, name);
    }
}

/// The text of a log over two consecutive runs of rows is the text of the first
/// run followed by that of the second: rows keep their order.
pub proof fn lemma_log_text_concat(
    a: Seq<Seq<Seq<char>>>,
    b: Seq<Seq<Seq<char>>>,
    h: HeaderIndex,
    name: Seq<char>,
)
    ensures
        log_text(a + b, h, name) == log_text(a, h, name) + log_text(b, h, name),
    decreases b.len(),
{
    if b.len() == 0 {
        assert(a + b =~= a);
        assert(log_text(a, h, name) + Seq::<char>::empty() =~= log_text(a, h, name));
    } else {
        assert((a + b).drop_last() =~= a + b.drop_last());
        lemma_log_text_concat(a, b.drop_last(), h, name);
        assert((a + b).last() == b.last());
        let t = if row_log(b.last(), h) == Some(name) {
            crate::classify::row_text(b.last(), h)
        } else {
            Seq::empty()
        };
        assert(log_text(a, h, name) + log_text(b.drop_last(), h, name) + t =~= log_text(a, h, name)
            + (log_text(b.drop_last(), h, name) + t));
    }
}

/// A set that describes some rows gives, for every name, the count and text of
/// that log, also for names that the rows never mention.
pub proof fn lemma_describes_by_name(set: LogSet, rows: Seq<Seq<Seq<char>>>, h: HeaderIndex, n: Seq<char>)
    requires
        describes(set, rows, h),
    ensures
        set.count_of(n) == log_count(rows, h, n),
        set.text_of(n) == log_text(rows, h, n),
{
    if set.names().contains(n) {
        set.lemma_names_distinct();
        let i = set.slot_of(n);
        assert(set.count_at(i) == log_count(rows, h, set.names()[i]));
    } else {
        lemma_absent_log(rows, h, n);
    }
}

/// Merging the logs of two consecutive runs of rows, the first run's first, gives
/// the logs of both runs together: each log holds its rows in source order, and
/// counts every row once, whichever worker classified it.
pub proof fn lemma_merge_describes(
    first: LogSet,
    second: LogSet,
    merged: LogSet,
    a: Seq<Seq<Seq<char>>>,
    b: Seq<Seq<Seq<char>>>,
    h: HeaderIndex,
)
    requires
        describes(first, a, h),
        describes(second, b, h),
        a.len() + b.len() <= usize::MAX,
        merged.wf(),
        merged.names() == merge_names(first.names(), second.names()),
        forall|n: Seq<char>|
            #[trigger] merged.count_of(n) == sat_add(first.count_of(n), second.count_of(n)),
        forall|n: Seq<char>| #[trigger] merged.text_of(n) == first.text_of(n) + second.text_of(n),
    ensures
        describes(merged, a + b, h),
{
    lemma_log_names_concat(a, b, h);
    assert forall|i: int| 0 <= i < merged.names().len() implies #[trigger] merged.count_at(i)
        == log_count(a + b, h, merged.names()[i]) && merged.text_at(i) == log_text(
        a + b,
        h,
        merged.names()[i],
    ) by {
        let n = merged.names()[i];
        merged.lemma_at_name(i);
        lemma_describes_by_name(first, a, h, n);
        lemma_describes_by_name(second, b, h, n);
        lemma_log_count_concat(a, b, h, n);
        lemma_log_text_concat(a, b, h, n);
        lemma_log_count_bound(a, h, n);
        lemma_log_count_bound(b, h, n);
        assert(merged.count_of(n) == sat_add(first.count_of(n), second.count_of(n)));
        assert(merged.text_of(n) == first.text_of(n) + second.text_of(n));
    }
}

/// The rows of worker `i` (1-based) out of `w` in a table whose first row is its header.
pub open spec fn share_rows(table: Seq<Seq<Seq<char>>>, w: nat, i: nat) -> Seq<Seq<Seq<char>>> {
    let total = (table.len() - 1) as nat;
    table.subrange(range_start(total, w, i) as int, range_end(total, w, i) as int)
}

/// Merges the workers' shares in worker order: `shares[i]` holds the logs of the
/// rows of worker `i + 1`. The result holds the logs of all data rows, each in
/// source order, whichever order the shares were computed in.
pub fn merge_shares(records: &Vec<Vec<String>>, h: &HeaderIndex, shares: &Vec<LogSet>) -> (r: LogSet)
    requires
        records.len() >= 1,
        shares.len() >= 1,
        forall|i: int|
            0 <= i < shares.len() ==> describes(
                #[trigger] shares@[i],
                share_rows(table_view(records@), shares.len() as nat, (i + 1) as nat),
                *h,
            ),
    ensures
        describes(r, table_view(records@).subrange(1, records@.len() as int), *h),
{
    let ghost table = table_view(records@);
    let worker_count = shares.len();
    let total: usize = records.len() - 1;
    let ghost tn = total as nat;
    let ghost wn = worker_count as nat;
    let mut acc = classify_range(records, h, 1, 1);
    let mut pos: usize = 1;
    let mut done: usize = 0;
    proof {
        lemma_ranges_adjacent(tn, wn, 1);
    }
    while done < worker_count
        invariant
            table == table_view(records@),
            total == records.len() - 1,
            tn == total as nat,
            wn == worker_count as nat,
            worker_count == shares.len(),
            worker_count >= 1,
            forall|i: int|
                0 <= i < shares.len() ==> describes(
                    #[trigger] shares@[i],
                    share_rows(table, wn, (i + 1) as nat),
                    *h,
                ),
            done <= worker_count,
            done < worker_count ==> pos == range_start(tn, wn, (done + 1) as nat),
            done == worker_count ==> pos == total + 1,
            1 <= pos <= total + 1,
            describes(acc, table.subrange(1, pos as int), *h),
        decreases worker_count - done,
    {
        let w: usize = done + 1;
        proof {
            lemma_ranges_adjacent(tn, wn, w as nat);
        }
        let ghost before = acc;
        acc.merge_from(&shares[done]);
        proof {
            let a = table.subrange(1, pos as int);
            let b = share_rows(table, wn, w as nat);
            lemma_merge_describes(before, shares@[done as int], acc, a, b, *h);
            assert(a + b =~= table.subrange(1, range_end(tn, wn, w as nat) as int));
        }
        pos = if w == worker_count { total + 1 } else { 1 + (total / worker_count) * w };
        done = w;
    }
    acc
}

/// The logs of the data rows of a table (every row after the header), computed
/// as `worker_count` shares that are merged in worker order.
pub fn convert_rows(records: &Vec<Vec<String>>, h: &HeaderIndex, worker_count: usize) -> (r: LogSet)
    requires
        records.len() >= 1,
        worker_count >= 1,
    ensures
        describes(r, table_view(records@).subrange(1, records@.len() as int), *h),
{
    let ranges = worker_ranges(records.len() - 1, worker_count);
    let mut shares: Vec<LogSet> = Vec::new();
    let mut i: usize = 0;
    while i < worker_count
        invariant
            records.len() >= 1,
            worker_count >= 1,
            ranges.len() == worker_count,
            i <= worker_count,
            shares.len() == i,
            forall|k: int|
                0 <= k < worker_count ==> #[trigger] ranges@[k] == planned_range((records.len() - 1) as nat, worker_count as nat, (k + 1) as nat),
            forall|k: int|
                0 <= k < i ==> describes(
                    #[trigger] shares@[k],
                    share_rows(table_view(records@), worker_count as nat, (k + 1) as nat),
                    *h,
                ),
        decreases worker_count - i,
    {
        proof {
            lemma_ranges_adjacent((records.len() - 1) as nat, worker_count as nat, (i + 1) as nat);
        }
        let share = classify_range(records, h, ranges[i].start, ranges[i].end);
        shares.push(share);
        i = i + 1;
    }
    merge_shares(records, h, &shares)
}

/// Whether `r` is what converting the rows `rows` gives.
pub open spec fn converts_to(rows: Seq<Seq<Seq<char>>>, r: Result<Conversion, Column>) -> bool {
    match r {
        Ok(c) => converts_header(rows, Ok(c.header)) && describes(c.logs, data_rows(rows), c.header),
        Err(c) => converts_header(rows, Err(c)),
    }
}

/// The result of converting one table.
pub struct Conversion {
    pub header: HeaderIndex,
    pub logs: LogSet,
}

/// The header row of a table: its first row, or no field at all when it has none.
pub open spec fn header_row(rows: Seq<Seq<Seq<char>>>) -> Seq<Seq<char>> {
    if rows.len() == 0 {
        Seq::empty()
    } else {
        rows[0]
    }
}

/// The data rows of a table: all rows after the first.
pub open spec fn data_rows(rows: Seq<Seq<Seq<char>>>) -> Seq<Seq<Seq<char>>> {
    if rows.len() == 0 {
        Seq::empty()
    } else {
        rows.subrange(1, rows.len() as int)
    }
}

/// Whether `r` is what resolving the header of the rows `rows` gives: the
/// positions of the required columns, or the first of them that is missing.
pub open spec fn converts_header(rows: Seq<Seq<Seq<char>>>, r: Result<HeaderIndex, Column>) -> bool {
    match r {
        Ok(h) => resolves(header_row(rows), h),
        Err(c) => {
            &&& !has_field(header_row(rows), column_name(c))
            &&& forall|d: Column|
                column_rank(d) < column_rank(c) ==> has_field(
                    header_row(rows),
                    #[trigger] column_name(d),
                )
        },
    }
}

/// Resolves the header of a table, its first row; a table with no row has an
/// empty header.
pub fn table_header(records: &Vec<Vec<String>>) -> (r: Result<HeaderIndex, Column>)
    ensures
        converts_header(table_view(records@), r),
        r is Ok ==> records.len() >= 1,
{
    if records.len() == 0 {
        let none: Vec<String> = Vec::new();
        proof {
            assert(fields_view(none@) =~= header_row(table_view(records@)));
        }
        match resolve_header(&none) {
            Ok(h) => {
                proof {
                    assert(h.position(Column::EventCategory) < 0);
                }
                Err(Column::EventCategory)
            },
            Err(c) => Err(c),
        }
    } else {
        proof {
            assert(table_view(records@)[0] == fields_view(records@[0]@));
        }
        resolve_header(&records[0])
    }
}

/// Converts a table whose first row is its header into logs, with the data rows
/// shared among `worker_count` workers. Fails, naming the column, when the
/// header lacks a required column; the first missing one in `column_rank`
/// order is named.
pub fn convert_table(records: &Vec<Vec<String>>, worker_count: usize) -> (r: Result<Conversion, Column>)
    requires
        worker_count >= 1,
    ensures
        converts_to(table_view(records@), r),
{
    match table_header(records) {
        Ok(h) => {
            let logs = convert_rows(records, &h, worker_count);
            Ok(Conversion { header: h, logs })
        },
        Err(c) => Err(c),
    }
}

/// The lines of connection `name` for the rows `rows`: for each of its rows, in
/// row order, one line per message line.
pub open spec fn connection_log_text(rows: Seq<Seq<Seq<char>>>, h: HeaderIndex, name: Seq<char>) -> Seq<char>
    decreases rows.len(),
{
    if rows.len() == 0 {
        Seq::empty()
    } else {
        let r = rows.last();
        connection_log_text(rows.drop_last(), h, name) + if is_connection_row(r, h, name) {
            connection_text(
                r[h.timestamp as int],
                r[h.event_type as int],
                message_lines(r[h.event_message as int]),
            )
        } else {
            Seq::empty()
        }
    }
}

proof fn lemma_connection_text_is_log_text(rows: Seq<Seq<Seq<char>>>, h: HeaderIndex, name: Seq<char>)
    requires
        name != sequence_log(),
    ensures
        log_text(rows, h, name) == connection_log_text(rows, h, name),
    decreases rows.len(),
{
    if rows.len() > 0 {
        lemma_connection_text_is_log_text(rows.drop_last(), h, name);
    }
}

/// Whatever the number of workers, the converted log of a connection other than
/// the sequence log holds that connection's rows in source order, one line per
/// message line, and counts each of its rows once.
pub proof fn lemma_connection_log(rows: Seq<Seq<Seq<char>>>, c: Conversion, name: Seq<char>)
    requires
        converts_to(rows, Ok(c)),
        name != sequence_log(),
    ensures
        c.logs.text_of(name) == connection_log_text(data_rows(rows), c.header, name),
        c.logs.count_of(name) == data_rows(rows).filter(
            |r: Seq<Seq<char>>| is_connection_row(r, c.header, name),
        ).len(),
{
    lemma_describes_by_name(c.logs, data_rows(rows), c.header, name);
    lemma_connection_text_is_log_text(data_rows(rows), c.header, name);
    lemma_connection_count(data_rows(rows), c.header, name);
}

} // verus!
