//! Resolution of the required named columns to positions in the header row.

use vstd::prelude::*;
use crate::text::same_text;

verus! {

/// One of the columns that every source table must have.
#[derive(Clone, Copy, Debug, PartialEq, Eq, Structural)]
pub enum Column {
    EventCategory,
    EventType,
    ConnectionName,
    Timestamp,
    ModuleName,
    LineNumber,
    CellKey,
    StepKey,
    LevelName,
    EventMessage,
    Response,
}

/// The header text that names a column.
pub open spec fn column_name(c: Column) -> Seq<char> {
    match c {
        Column::EventCategory => "event_category"@,
        Column::EventType => "event_type"@,
        Column::ConnectionName => "connection_name"@,
        Column::Timestamp => "timestamp"@,
        Column::ModuleName => "module_name"@,
        Column::LineNumber => "line_number"@,
        Column::CellKey => "cell_key"@,
        Column::StepKey => "step_key"@,
        Column::LevelName => "level_name"@,
        Column::EventMessage => "event_message"@,
        Column::Response => "response"@,
    }
}

/// The order in which the columns are looked for; the first absent one is reported.
pub open spec fn column_rank(c: Column) -> nat {
    match c {
        Column::EventCategory => 0,
        Column::EventType => 1,
        Column::ConnectionName => 2,
        Column::Timestamp => 3,
        Column::ModuleName => 4,
        Column::LineNumber => 5,
        Column::CellKey => 6,
        Column::StepKey => 7,
        Column::LevelName => 8,
        Column::EventMessage => 9,
        Column::Response => 10,
    }
}

impl Column {
    /// The header text that names this column.
    pub fn name(&self) -> (r: &'static str)
        ensures
            r@ == column_name(*self),
    {
        match self {
            Column::EventCategory => "event_category",
            Column::EventType => "event_type",
            Column::ConnectionName => "connection_name",
            Column::Timestamp => "timestamp",
            Column::ModuleName => "module_name",
            Column::LineNumber => "line_number",
            Column::CellKey => "cell_key",
            Column::StepKey => "step_key",
            Column::LevelName => "level_name",
            Column::EventMessage => "event_message",
            Column::Response => "response",
        }
    }
}

/// The positions of the required columns in one table's header.
#[derive(Clone, Copy, Debug, PartialEq, Eq, Structural)]
pub struct HeaderIndex {
    pub event_category: usize,
    pub event_type: usize,
    pub connection_name: usize,
    pub timestamp: usize,
    pub module_name: usize,
    pub line_number: usize,
    pub cell_key: usize,
    pub step_key: usize,
    pub level_name: usize,
    pub event_message: usize,
    pub response: usize,
}

impl HeaderIndex {
    /// The position recorded for column `c`.
    pub open spec fn position(self, c: Column) -> nat {
        match c {
            Column::EventCategory => self.event_category as nat,
            Column::EventType => self.event_type as nat,
            Column::ConnectionName => self.connection_name as nat,
            Column::Timestamp => self.timestamp as nat,
            Column::ModuleName => self.module_name as nat,
            Column::LineNumber => self.line_number as nat,
            Column::CellKey => self.cell_key as nat,
            Column::StepKey => self.step_key as nat,
            Column::LevelName => self.level_name as nat,
            Column::EventMessage => self.event_message as nat,
            Column::Response => self.response as nat,
        }
    }

    /// Whether a row of `len` fields holds every required column.
    pub open spec fn fits_spec(self, len: nat) -> bool {
        forall|c: Column| #[trigger] self.position(c) < len
    }

    /// Whether a row of `len` fields holds every required column.
    pub fn fits(&self, len: usize) -> (r: bool)
        ensures
            r == self.fits_spec(len as nat),
    {
        let r = self.event_category < len && self.event_type < len && self.connection_name < len
            && self.timestamp < len && self.module_name < len && self.line_number < len
            && self.cell_key < len && self.step_key < len && self.level_name < len
            && self.event_message < len && self.response < len;
        proof {
            if !r {
                let c = if self.event_category >= len {
                    Column::EventCategory
                } else if self.event_type >= len {
                    Column::EventType
                } else if self.connection_name >= len {
                    Column::ConnectionName
                } else if self.timestamp >= len {
                    Column::Timestamp
                } else if self.module_name >= len {
                    Column::ModuleName
                } else if self.line_number >= len {
                    Column::LineNumber
                } else if self.cell_key >= len {
                    Column::CellKey
                } else if self.step_key >= len {
                    Column::StepKey
                } else if self.level_name >= len {
                    Column::LevelName
                } else if self.event_message >= len {
                    Column::EventMessage
                } else {
                    Column::Response
                };
                assert(self.position(c) >= len);
            }
        }
        r
    }
}

/// Whether `name` is one of the header's fields.
pub open spec fn has_field(header: Seq<Seq<char>>, name: Seq<char>) -> bool {
    exists|i: int| 0 <= i < header.len() && header[i] == name
}

/// Whether `i` is the first position of the header that holds `name`.
pub open spec fn is_first_position(header: Seq<Seq<char>>, name: Seq<char>, i: nat) -> bool {
    &&& i < header.len()
    &&& header[i as int] == name
    &&& forall|j: int| 0 <= j < i ==> header[j] != name
}

/// Whether `h` gives, for each required column, its first position in `header`.
pub open spec fn resolves(header: Seq<Seq<char>>, h: HeaderIndex) -> bool {
    forall|c: Column| is_first_position(header, column_name(c), #[trigger] h.position(c))
}

/// The views of the fields of one row.
pub open spec fn fields_view(row: Seq<String>) -> Seq<Seq<char>> {
    row.map_values(|f: String| f@)
}

/// The first position of the header that holds the name of `c`.
pub fn find_column(header: &Vec<String>, c: Column) -> (r: Option<usize>)
    ensures
        match r {
            Some(i) => is_first_position(fields_view(header@), column_name(c), i as nat),
            None => !has_field(fields_view(header@), column_name(c)),
        },
{
    let name = c.name();
    let mut i: usize = 0;
    while i < header.len()
        invariant
            name@ == column_name(c),
            i <= header.len(),
            forall|j: int| 0 <= j < i ==> fields_view(header@)[j] != column_name(c),
        decreases header.len() - i,
    {
        if same_text(header[i].as_str(), name) {
            return Some(i);
        }
        i = i + 1;
    }
    None
}

/// Resolves every required column, or names the first one, in the order of
/// `column_rank`, that the header lacks.
pub fn resolve_header(header: &Vec<String>) -> (r: Result<HeaderIndex, Column>)
    ensures
        match r {
            Ok(h) => resolves(fields_view(header@), h),
            Err(c) => {
                &&& !has_field(fields_view(header@), column_name(c))
                &&& forall|d: Column|
                    column_rank(d) < column_rank(c) ==> has_field(
                        fields_view(header@),
                        #[trigger] column_name(d),
                    )
            },
        },
{
    let hv = Ghost(fields_view(header@));
    let event_category = match find_column(header, Column::EventCategory) {
        Some(i) => i,
        None => { return Err(Column::EventCategory); },
    };
    let event_type = match find_column(header, Column::EventType) {
        Some(i) => i,
        None => { return Err(Column::EventType); },
    };
    let connection_name = match find_column(header, Column::ConnectionName) {
        Some(i) => i,
        None => { return Err(Column::ConnectionName); },
    };
    let timestamp = match find_column(header, Column::Timestamp) {
        Some(i) => i,
        None => { return Err(Column::Timestamp); },
    };
    let module_name = match find_column(header, Column::ModuleName) {
        Some(i) => i,
        None => { return Err(Column::ModuleName); },
    };
    let line_number = match find_column(header, Column::LineNumber) {
        Some(i) => i,
        None => { return Err(Column::LineNumber); },
    };
    let cell_key = match find_column(header, Column::CellKey) {
        Some(i) => i,
        None => { return Err(Column::CellKey); },
    };
    let step_key = match find_column(header, Column::StepKey) {
        Some(i) => i,
        None => { return Err(Column::StepKey); },
    };
    let level_name = match find_column(header, Column::LevelName) {
        Some(i) => i,
        None => { return Err(Column::LevelName); },
    };
    let event_message = match find_column(header, Column::EventMessage) {
        Some(i) => i,
        None => { return Err(Column::EventMessage); },
    };
    let response = match find_column(header, Column::Response) {
        Some(i) => i,
        None => { return Err(Column::Response); },
    };
    let h = HeaderIndex {
        event_category,
        event_type,
        connection_name,
        timestamp,
        module_name,
        line_number,
        cell_key,
        step_key,
        level_name,
        event_message,
        response,
    };
    assert forall|c: Column| is_first_position(hv@, column_name(c), #[trigger] h.position(c)) by {}
    Ok(h)
}

} // verus!
