//! Classification of data rows and the logs they produce.

use vstd::prelude::*;
use crate::format::{
    connection_line, connection_text, message_lines, push_connection_lines, push_sequence_line, sequence_line,
};
use crate::header::{fields_view, Column, HeaderIndex};
use crate::logset::{push_new, LogSet};
use crate::text::same_text;

verus! {

/// The kind of a row, read from its category field.
#[derive(Clone, Copy, Debug, PartialEq, Eq, Structural)]
pub enum Category {
    SeqLog,
    CesiumService,
    Connection,
    Other,
}

/// The category that a category field names.
pub open spec fn category_of(s: Seq<char>) -> Category {
    if s == "seqlog"@ {
        Category::SeqLog
    } else if s == "cesium-service"@ {
        Category::CesiumService
    } else if s == "connection"@ {
        Category::Connection
    } else {
        Category::Other
    }
}

/// The category that a category field names.
pub fn classify_category(s: &str) -> (r: Category)
    ensures
        r == category_of(s@),
{
    if same_text(s, "seqlog") {
        Category::SeqLog
    } else if same_text(s, "cesium-service") {
        Category::CesiumService
    } else if same_text(s, "connection") {
        Category::Connection
    } else {
        Category::Other
    }
}

/// The name of the log that the sequence rows go to.
pub open spec fn sequence_log() -> Seq<char> {
    "sequence"@
}

/// The module name written for a cesium-service row.
pub open spec fn cesium_module(module_name: Seq<char>) -> Seq<char> {
    if module_name.len() == 0 {
        "cesiumlib"@
    } else {
        module_name
    }
}

/// The log that a row goes to, if any: rows lacking a required field, and rows
/// of another category, go nowhere.
pub open spec fn row_log(row: Seq<Seq<char>>, h: HeaderIndex) -> Option<Seq<char>> {
    if !h.fits_spec(row.len()) {
        None
    } else {
        match category_of(row[h.event_category as int]) {
            Category::SeqLog => Some(sequence_log()),
            Category::CesiumService => Some(sequence_log()),
            Category::Connection => Some(row[h.connection_name as int]),
            Category::Other => None,
        }
    }
}

/// The text that a row adds to its log.
pub open spec fn row_text(row: Seq<Seq<char>>, h: HeaderIndex) -> Seq<char> {
    if !h.fits_spec(row.len()) {
        Seq::empty()
    } else {
        match category_of(row[h.event_category as int]) {
            Category::SeqLog => sequence_line(
                row[h.timestamp as int],
                row[h.module_name as int],
                row[h.line_number as int],
                row[h.cell_key as int],
                row[h.step_key as int],
                row[h.level_name as int],
                row[h.event_message as int],
            ),
            Category::CesiumService => sequence_line(
                row[h.timestamp as int],
                cesium_module(row[h.module_name as int]),
                row[h.line_number as int],
                row[h.cell_key as int],
                row[h.step_key as int],
                row[h.level_name as int],
                row[h.response as int],
            ),
            Category::Connection => connection_text(
                row[h.timestamp as int],
                row[h.event_type as int],
                message_lines(row[h.event_message as int]),
            ),
            Category::Other => Seq::empty(),
        }
    }
}

/// The text of log `name` for the rows `rows`, in row order.
pub open spec fn log_text(rows: Seq<Seq<Seq<char>>>, h: HeaderIndex, name: Seq<char>) -> Seq<char>
    decreases rows.len(),
{
    if rows.len() == 0 {
        Seq::empty()
    } else {
        log_text(rows.drop_last(), h, name) + if row_log(rows.last(), h) == Some(name) {
            row_text(rows.last(), h)
        } else {
            Seq::empty()
        }
    }
}

/// The number of the rows `rows` that go to log `name`.
pub open spec fn log_count(rows: Seq<Seq<Seq<char>>>, h: HeaderIndex, name: Seq<char>) -> nat
    decreases rows.len(),
{
    if rows.len() == 0 {
        0
    } else {
        log_count(rows.drop_last(), h, name) + if row_log(rows.last(), h) == Some(name) {
            1nat
        } else {
            0nat
        }
    }
}

/// The names of the logs for the rows `rows`: the sequence log, then each
/// connection in the order of its first row.
pub open spec fn log_names(rows: Seq<Seq<Seq<char>>>, h: HeaderIndex) -> Seq<Seq<char>>
    decreases rows.len(),
{
    if rows.len() == 0 {
        seq![sequence_log()]
    } else {
        match row_log(rows.last(), h) {
            Some(n) => push_new(log_names(rows.drop_last(), h), n),
            None => log_names(rows.drop_last(), h),
        }
    }
}

/// The rows of a table, each as the views of its fields.
pub open spec fn table_view(records: Seq<Vec<String>>) -> Seq<Seq<Seq<char>>> {
    records.map_values(|r: Vec<String>| fields_view(r@))
}

/// Whether `set` holds exactly the logs of the rows `rows`.
pub open spec fn describes(set: LogSet, rows: Seq<Seq<Seq<char>>>, h: HeaderIndex) -> bool {
    &&& set.wf()
    &&& set.names() == log_names(rows, h)
    &&& forall|i: int|
        0 <= i < set.names().len() ==> #[trigger] set.count_at(i) == log_count(
            rows,
            h,
            set.names()[i],
        ) && set.text_at(i) == log_text(rows, h, set.names()[i])
}

/// A log never counts more rows than there are.
pub proof fn lemma_log_count_bound(rows: Seq<Seq<Seq<char>>>, h: HeaderIndex, name: Seq<char>)
    ensures
        log_count(rows, h, name) <= rows.len(),
    decreases rows.len(),
{
    if rows.len() > 0 {
        lemma_log_count_bound(rows.drop_last(), h, name);
    }
}

/// `push_new` adds exactly its name.
pub proof fn lemma_push_new_contains(names: Seq<Seq<char>>, n: Seq<char>, x: Seq<char>)
    ensures
        push_new(names, n).contains(x) <==> (names.contains(x) || x == n),
{
    if !names.contains(n) {
        if names.contains(x) {
            let j = choose|j: int| 0 <= j < names.len() && names[j] == x;
            assert(push_new(names, n)[j] == x);
        }
        if x == n {
            assert(push_new(names, n)[names.len() as int] == x);
        }
        if push_new(names, n).contains(x) && x != n {
            let j = choose|j: int| 0 <= j < push_new(names, n).len() && push_new(names, n)[j] == x;
            assert(names[j] == x);
        }
    }
}

/// Every log that a row goes to is named, and so is the sequence log.
pub proof fn lemma_log_names_contain(rows: Seq<Seq<Seq<char>>>, h: HeaderIndex, k: int)
    requires
        0 <= k <= rows.len(),
    ensures
        log_names(rows, h).contains(sequence_log()),
        forall|x: Seq<char>|
            log_names(rows.take(k), h).contains(x) ==> #[trigger] log_names(rows, h).contains(x),
        k < rows.len() ==> match row_log(rows[k], h) {
            Some(n) => log_names(rows, h).contains(n),
            None => true,
        },
    decreases rows.len(),
{
    if rows.len() == 0 {
        assert(log_names(rows, h)[0] == sequence_log());
        assert(rows.take(k) =~= rows);
    } else {
        let p = rows.drop_last();
        if k < rows.len() {
            lemma_log_names_contain(p, h, k);
            assert(p.take(k) =~= rows.take(k));
        } else {
            lemma_log_names_contain(p, h, 0);
            assert(rows.take(k) =~= rows);
        }
        if k < p.len() {
            assert(p[k] == rows[k]);
        }
        match row_log(rows.last(), h) {
            Some(n) => {
                assert forall|x: Seq<char>| log_names(p, h).contains(x) implies log_names(
                    rows,
                    h,
                ).contains(x) by {
                    lemma_push_new_contains(log_names(p, h), n, x);
                }
                lemma_push_new_contains(log_names(p, h), n, n);
                lemma_push_new_contains(log_names(p, h), n, sequence_log());
            },
            None => {},
        }
    }
}

/// A log that the rows do not name has neither lines nor text.
pub proof fn lemma_absent_log(rows: Seq<Seq<Seq<char>>>, h: HeaderIndex, name: Seq<char>)
    requires
        !log_names(rows, h).contains(name),
    ensures
        log_count(rows, h, name) == 0,
        log_text(rows, h, name) == Seq::<char>::empty(),
    decreases rows.len(),
{
    if rows.len() > 0 {
        let p = rows.drop_last();
        lemma_log_names_contain(rows, h, p.len() as int);
        assert(rows.take(p.len() as int) =~= p);
        lemma_absent_log(p, h, name);
        assert(log_text(p, h, name) + Seq::<char>::empty() =~= Seq::<char>::empty());
    }
}

/// Whether `row` is a connection row of connection `name` holding every required field.
pub open spec fn is_connection_row(row: Seq<Seq<char>>, h: HeaderIndex, name: Seq<char>) -> bool {
    &&& h.fits_spec(row.len())
    &&& category_of(row[h.event_category as int]) == Category::Connection
    &&& row[h.connection_name as int] == name
}

/// The count of a connection's log is the number of its source rows, however
/// many lines their messages hold.
pub proof fn lemma_connection_count(rows: Seq<Seq<Seq<char>>>, h: HeaderIndex, name: Seq<char>)
    requires
        name != sequence_log(),
    ensures
        log_count(rows, h, name) == rows.filter(|r: Seq<Seq<char>>| is_connection_row(r, h, name)).len(),
    decreases rows.len(),
{
    reveal(Seq::filter);
    if rows.len() > 0 {
        lemma_connection_count(rows.drop_last(), h, name);
    }
}

/// A connection row adds exactly one to its connection's count, and one line per
/// line of its message, each made of the row's timestamp, its event type padded
/// to nine characters, and that message line.
pub proof fn lemma_connection_row(rows: Seq<Seq<Seq<char>>>, row: Seq<Seq<char>>, h: HeaderIndex)
    requires
        h.fits_spec(row.len()),
        category_of(row[h.event_category as int]) == Category::Connection,
    ensures
        ({
            let name = row[h.connection_name as int];
            let lines = message_lines(row[h.event_message as int]);
            &&& log_count(rows.push(row), h, name) == log_count(rows, h, name) + 1
            &&& log_text(rows.push(row), h, name) == log_text(rows, h, name) + connection_text(
                row[h.timestamp as int],
                row[h.event_type as int],
                lines,
            )
            &&& forall|k: int|
                0 <= k < lines.len() ==> connection_text(
                    row[h.timestamp as int],
                    row[h.event_type as int],
                    lines.take(k + 1),
                ) == connection_text(row[h.timestamp as int], row[h.event_type as int], lines.take(k))
                    + connection_line(
                    row[h.timestamp as int],
                    row[h.event_type as int],
                    #[trigger] lines[k],
                )
        }),
{
    let all = rows.push(row);
    assert(all.drop_last() =~= rows);
    let lines = message_lines(row[h.event_message as int]);
    assert forall|k: int| 0 <= k < lines.len() implies connection_text(
        row[h.timestamp as int],
        row[h.event_type as int],
        lines.take(k + 1),
    ) == connection_text(
        row[h.timestamp as int],
        row[h.event_type as int],
        lines.take(k),
    ) + connection_line(row[h.timestamp as int], row[h.event_type as int], lines[k]) by {
        assert(lines.take(k + 1).drop_last() =~= lines.take(k));
    }
}

/// A row that goes to no log changes no log.
proof fn lemma_skipped_row(set: LogSet, rows: Seq<Seq<Seq<char>>>, row: Seq<Seq<char>>, h: HeaderIndex)
    requires
        describes(set, rows, h),
        row_log(row, h) is None,
    ensures
        describes(set, rows.push(row), h),
{
    let all = rows.push(row);
    assert(all.drop_last() =~= rows);
    assert forall|i: int| 0 <= i < set.names().len() implies #[trigger] set.count_at(i)
        == log_count(all, h, set.names()[i]) && set.text_at(i) == log_text(
        all,
        h,
        set.names()[i],
    ) by {
        let n = set.names()[i];
        assert(log_text(rows, h, n) + Seq::<char>::empty() =~= log_text(rows, h, n));
    }
}

/// Appends the text of one row to the log it goes to, if any.
fn classify_row(
    set: &mut LogSet,
    row: &Vec<String>,
    h: &HeaderIndex,
    Ghost(rows): Ghost<Seq<Seq<Seq<char>>>>,
)
    requires
        describes(*old(set), rows, *h),
        rows.len() < usize::MAX,
    ensures
        describes(*final(set), rows.push(fields_view(row@)), *h),
{
    let ghost r = fields_view(row@);
    let ghost all = rows.push(r);
    proof {
        assert(all.drop_last() =~= rows);
        assert(all.last() == r);
    }
    if !h.fits(row.len()) {
        proof {
            lemma_skipped_row(*set, rows, r, *h);
        }
        return ;
    }
    proof {
        assert(h.position(Column::EventCategory) < row.len());
        assert(h.position(Column::EventType) < row.len());
        assert(h.position(Column::ConnectionName) < row.len());
        assert(h.position(Column::Timestamp) < row.len());
        assert(h.position(Column::ModuleName) < row.len());
        assert(h.position(Column::LineNumber) < row.len());
        assert(h.position(Column::CellKey) < row.len());
        assert(h.position(Column::StepKey) < row.len());
        assert(h.position(Column::LevelName) < row.len());
        assert(h.position(Column::EventMessage) < row.len());
        assert(h.position(Column::Response) < row.len());
    }
    let cat = classify_category(row[h.event_category].as_str());
    let mut piece = String::new();
    let slot: usize;
    match cat {
        Category::SeqLog => {
            push_sequence_line(
                &mut piece,
                row[h.timestamp].as_str(),
                row[h.module_name].as_str(),
                row[h.line_number].as_str(),
                row[h.cell_key].as_str(),
                row[h.step_key].as_str(),
                row[h.level_name].as_str(),
                row[h.event_message].as_str(),
            );
            slot = set.register("sequence");
        },
        Category::CesiumService => {
            let module_name: &str = if row[h.module_name].as_str().unicode_len() == 0 {
                "cesiumlib"
            } else {
                row[h.module_name].as_str()
            };
            push_sequence_line(
                &mut piece,
                row[h.timestamp].as_str(),
                module_name,
                row[h.line_number].as_str(),
                row[h.cell_key].as_str(),
                row[h.step_key].as_str(),
                row[h.level_name].as_str(),
                row[h.response].as_str(),
            );
            slot = set.register("sequence");
        },
        Category::Connection => {
            push_connection_lines(
                &mut piece,
                row[h.timestamp].as_str(),
                row[h.event_type].as_str(),
                row[h.event_message].as_str(),
            );
            slot = set.register(row[h.connection_name].as_str());
        },
        Category::Other => {
            proof {
                assert(r[h.event_category as int] == row@[h.event_category as int]@);
                lemma_skipped_row(*set, rows, r, *h);
            }
            return ;
        },
    }
    let ghost mid = *set;
    let ghost n = mid.names()[slot as int];
    proof {
        assert(piece@ == row_text(r, *h));
        assert(row_log(r, *h) == Some(n));
        if old(set).names().contains(n) {
            old(set).lemma_names_distinct();
            let j = old(set).slot_of(n);
            assert(old(set).names()[j] == n);
            mid.lemma_names_distinct();
            assert(mid.names()[j] == n);
            assert(j == slot);
        } else {
            lemma_absent_log(rows, *h, n);
            if slot < old(set).names().len() {
                assert(old(set).names()[slot as int] == n);
            }
        }
        assert(mid.count_at(slot as int) == log_count(rows, *h, n));
        assert(mid.text_at(slot as int) == log_text(rows, *h, n));
        lemma_log_count_bound(rows, *h, n);
        mid.lemma_names_distinct();
    }
    set.append(slot, piece.as_str(), 1);
    proof {
        assert forall|i: int| 0 <= i < set.names().len() implies #[trigger] set.count_at(i)
            == log_count(all, *h, set.names()[i]) && set.text_at(i) == log_text(
            all,
            *h,
            set.names()[i],
        ) by {
            let x = set.names()[i];
            if i != slot {
                assert(mid.names()[i] != mid.names()[slot as int]);
                assert(i < old(set).names().len());
                assert(log_text(rows, *h, x) + Seq::<char>::empty() =~= log_text(rows, *h, x));
            }
        }
    }
}

/// The logs of the rows `start..end` of a table: one worker's share.
pub fn classify_range(records: &Vec<Vec<String>>, h: &HeaderIndex, start: usize, end: usize) -> (r:
    LogSet)
    requires
        start <= end <= records.len(),
    ensures
        describes(r, table_view(records@).subrange(start as int, end as int), *h),
{
    let ghost table = table_view(records@);
    let mut set = LogSet::new();
    let slot = set.register("sequence");
    proof {
        let empty = table.subrange(start as int, start as int);
        assert(set.names() =~= log_names(empty, *h));
        assert(set.count_at(0) == log_count(empty, *h, sequence_log()));
    }
    let mut i: usize = start;
    while i < end
        invariant
            start <= i <= end <= records.len(),
            table == table_view(records@),
            describes(set, table.subrange(start as int, i as int), *h),
        decreases end - i,
    {
        classify_row(&mut set, &records[i], h, Ghost(table.subrange(start as int, i as int)));
        proof {
            assert(table.subrange(start as int, i as int).push(fields_view(records@[i as int]@))
                =~= table.subrange(start as int, i + 1));
        }
        i = i + 1;
    }
    set
}

} // verus!
