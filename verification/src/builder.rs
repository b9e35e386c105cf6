//! Select statement builder: a typed description of a query over the
//! storage engine, made of a data source, filters and constant values.

use vstd::prelude::*;
use vstd::string::*;

verus! {

/// Supported value types usable in the query builder.
#[derive(Debug, PartialEq, Eq)]
pub enum Value {
    /// Lack of value.
    Null,
    /// Value inside the current row's column, by name or alias.
    Column(String),
    /// Result of a nested select expression.  For comparators other
    /// than `In`, only the first result of the expression is used.
    Expression(Box<SelectBuilder>),
    /// Constant boolean value.
    Bool(bool),
    /// Constant signed integer value.
    I8(i8),
    /// Constant signed integer value.
    I16(i16),
    /// Constant signed integer value.
    I32(i32),
    /// Constant signed integer value.
    I64(i64),
    /// Constant signed integer value.
    I128(i128),
    /// Constant signed integer value.
    ISize(isize),
    /// Constant unsigned integer value.
    U8(u8),
    /// Constant unsigned integer value.
    U16(u16),
    /// Constant unsigned integer value.
    U32(u32),
    /// Constant unsigned integer value.
    U64(u64),
    /// Constant unsigned integer value.
    U128(u128),
    /// Constant character value.
    Char(char),
    /// Constant text value.
    Text(String),
    /// Constant 32-bit float, carried as its little-endian bytes to
    /// stay ordered and hashable.
    F32Bits([u8; 4]),
    /// Constant 64-bit float, carried as its little-endian bytes to
    /// stay ordered and hashable.
    F64Bits([u8; 8]),
    /// Constant UUID value as its sixteen bytes.
    Uuid([u8; 16]),
    /// Constant duration in nanoseconds; doubles as a timestamp
    /// relative to the start of the epoch.
    Time(i128),
    /// Constant vector of constant values.
    List(Vec<Value>),
    /// Constant set of constant values, kept as an ordered member
    /// list.
    SetOf(Vec<Value>),
    /// Constant map of constant values, kept as an ordered pair list.
    MapOf(Vec<(Value, Value)>),
}

impl Default for Value {
    /// The default value is the lack of one.
    fn default() -> (r: Self)
        ensures
            r == Value::Null,
    {
        Value::Null
    }
}

/// A column selected from a table, optionally under an alias.
#[derive(Debug, PartialEq, Eq)]
pub struct Column {
    pub name: String,
    pub alias: Option<String>,
}

/// Where the rows of a select statement come from.
#[derive(Debug, PartialEq, Eq)]
pub enum DataSource {
    /// Source data from another select statement.
    Select(Box<SelectBuilder>),
    /// Source data from a table.
    Table {
        /// Source table name.
        table: String,
        /// Columns to return from the table; an empty vector means all
        /// available columns.
        columns: Vec<Column>,
    },
    /// Apply a filter to a source.
    Filtered {
        /// Filter applied.
        filter: Filter,
        /// Source to be filtered.
        src: Box<DataSource>,
    },
}

/// Comparison operator between the two sides of a simple filter.
#[derive(Debug, Clone, Copy, PartialEq, Eq, Structural)]
pub enum Comparator {
    /// Equal.
    Eq,
    /// Greater than.
    Gt,
    /// Greater than or equal.
    Gte,
    /// Less than.
    Lt,
    /// Less than or equal.
    Lte,
    /// In the subset on the right hand side.
    In,
}

/// One node of a filter tree.
#[derive(Debug, PartialEq, Eq)]
#[allow(inconsistent_fields)]
pub enum FilterInner {
    /// A comparison of two values.
    Simple {
        /// Left hand side value.
        lhs: Value,
        /// Comparator for the two values.
        comp: Comparator,
        /// Right hand side value.
        rhs: Value,
    },
    /// A conjunction or disjunction of two filters.
    Combined {
        /// Whether the two sides combine with `and` (else `or`).
        and: bool,
        /// Left hand side filter.
        lhs: Box<Filter>,
        /// Right hand side filter.
        rhs: Box<Filter>,
    },
}

/// A row filter; build one with [`Filter::new`] and combine filters
/// with [`Filter::and`], [`Filter::or`] and [`Filter::not`].
#[derive(Debug, PartialEq, Eq)]
pub struct Filter {
    /// SQL `not` equivalent.
    pub inverted: bool,
    pub inner: FilterInner,
}

impl Filter {
    /// A simple filter comparing `lhs` with `rhs`.
    pub fn new(lhs: Value, comp: Comparator, rhs: Value) -> (r: Self)
        ensures
            r == (Filter {
                inverted: false,
                inner: FilterInner::Simple { lhs, comp, rhs },
            }),
    {
        Filter { inverted: false, inner: FilterInner::Simple { lhs, comp, rhs } }
    }

    /// Combine two filters with `and` or `or`.
    fn combine(self, rhs: Self, and: bool) -> (r: Self)
        ensures
            r.inverted == false,
            r.inner matches FilterInner::Combined { and: a, lhs: l, rhs: rr } && a == and && *l
                == self && *rr == rhs,
    {
        Filter {
            inverted: false,
            inner: FilterInner::Combined { and, lhs: Box::new(self), rhs: Box::new(rhs) },
        }
    }

    /// The conjunction of two filters (SQL `and`).
    pub fn and(self, rhs: Self) -> (r: Self)
        ensures
            r.inverted == false,
            r.inner matches FilterInner::Combined { and, lhs: l, rhs: rr } && and == true && *l
                == self && *rr == rhs,
    {
        self.combine(rhs, true)
    }

    /// The disjunction of two filters (SQL `or`).
    pub fn or(self, rhs: Self) -> (r: Self)
        ensures
            r.inverted == false,
            r.inner matches FilterInner::Combined { and, lhs: l, rhs: rr } && and == false && *l
                == self && *rr == rhs,
    {
        self.combine(rhs, false)
    }

    /// The negation of a filter (SQL `not`): flips the inversion flag
    /// and keeps the body.
    pub fn not(self) -> (r: Self)
        ensures
            r.inverted == !self.inverted,
            r.inner == self.inner,
    {
        Filter { inverted: !self.inverted, inner: self.inner }
    }
}

/// Select statement builder.
#[derive(Debug, PartialEq, Eq)]
pub struct SelectBuilder {
    pub src: DataSource,
}

impl SelectBuilder {
    /// Apply a filter to the current row set.
    pub fn filter(self, f: Filter) -> (r: Self)
        ensures
            r.src matches DataSource::Filtered { filter, src } && filter == f && *src
                == self.src,
    {
        SelectBuilder { src: DataSource::Filtered { filter: f, src: Box::new(self.src) } }
    }
}

// ---------------------------------------------------------------------
// Column list parsing.
// ---------------------------------------------------------------------
/// Is `c` one of the ascii whitespace characters?
pub open spec fn is_ascii_ws(c: char) -> bool {
    c == ' ' || c == '\t' || c == '\n' || c == '\u{c}' || c == '\r'
}

/// The first position at or after `from` holding a non-whitespace
/// character (the length of `s` when there is none).
pub open spec fn scan_non_ws(s: Seq<char>, from: int) -> int
    decreases s.len() - from,
{
    if from < 0 || from >= s.len() {
        s.len() as int
    } else if !is_ascii_ws(s[from]) {
        from
    } else {
        scan_non_ws(s, from + 1)
    }
}

/// The first position at or after `from` holding a whitespace
/// character (the length of `s` when there is none).
pub open spec fn scan_ws(s: Seq<char>, from: int) -> int
    decreases s.len() - from,
{
    if from < 0 || from >= s.len() {
        s.len() as int
    } else if is_ascii_ws(s[from]) {
        from
    } else {
        scan_ws(s, from + 1)
    }
}

/// What a column description denotes: its name is the first
/// whitespace-separated token and its alias the second, if any; a
/// description without a token names no column.
pub open spec fn column_spec(s: Seq<char>) -> Option<(Seq<char>, Option<Seq<char>>)> {
    let a = scan_non_ws(s, 0);
    if a >= s.len() {
        Option::<(Seq<char>, Option<Seq<char>>)>::None
    } else {
        let b = scan_ws(s, a);
        let c = scan_non_ws(s, b);
        if c >= s.len() {
            Some((s.subrange(a, b), Option::<Seq<char>>::None))
        } else {
            let d = scan_ws(s, c);
            Some((s.subrange(a, b), Some(s.subrange(c, d))))
        }
    }
}

/// Does the parsed column `col` match what the description `s`
/// denotes?
pub open spec fn column_matches(col: Column, s: Seq<char>) -> bool {
    column_spec(s) matches Some(sp) && col.name@ == sp.0 && (match (col.alias, sp.1) {
        (Some(a), Some(sa)) => a@ == sa,
        (None, None) => true,
        _ => false,
    })
}

/// Is `c` an ascii whitespace character?
fn char_is_ws(c: char) -> (b: bool)
    ensures
        b == is_ascii_ws(c),
{
    c == ' ' || c == '\t' || c == '\n' || c == '\u{c}' || c == '\r'
}

/// Advance from `from` to the first non-whitespace position.
fn skip_ws(cs: &str, from: usize) -> (r: usize)
    requires
        from as int <= cs@.len(),
    ensures
        r as int == scan_non_ws(cs@, from as int),
        from <= r,
        r as int <= cs@.len(),
{
    let n = cs.unicode_len();
    let mut i = from;
    while i < n && char_is_ws(cs.get_char(i))
        invariant
            from <= i,
            i as int <= cs@.len(),
            n == cs@.len(),
            scan_non_ws(cs@, from as int) == scan_non_ws(cs@, i as int),
        decreases cs@.len() - i,
    {
        i = i + 1;
    }
    i
}

/// Advance from `from` to the first whitespace position.
fn skip_token(cs: &str, from: usize) -> (r: usize)
    requires
        from as int <= cs@.len(),
    ensures
        r as int == scan_ws(cs@, from as int),
        from <= r,
        r as int <= cs@.len(),
{
    let n = cs.unicode_len();
    let mut i = from;
    while i < n && !char_is_ws(cs.get_char(i))
        invariant
            from <= i,
            i as int <= cs@.len(),
            n == cs@.len(),
            scan_ws(cs@, from as int) == scan_ws(cs@, i as int),
        decreases cs@.len() - i,
    {
        i = i + 1;
    }
    i
}

/// Parse one column description: the first whitespace-separated token
/// names the column, the second (if any) is its alias; `None` when the
/// description holds no token.
fn parse_column(cs: &str) -> (res: Option<Column>)
    ensures
        (res is Some) == (column_spec(cs@) is Some),
        res matches Some(col) ==> column_matches(col, cs@),
{
    let n = cs.unicode_len();
    let a = skip_ws(cs, 0);
    if a == n {
        return None;
    }
    let b = skip_token(cs, a);
    let name = cs.substring_char(a, b).to_owned();
    let c = skip_ws(cs, b);
    if c == n {
        Some(Column { name, alias: None })
    } else {
        let d = skip_token(cs, c);
        Some(Column { name, alias: Some(cs.substring_char(c, d).to_owned()) })
    }
}

/// Build a new select statement from a table, selecting the passed
/// columns.  An empty column list denotes that all available columns
/// should be returned.  Each column description holds the column name,
/// optionally followed by a space-separated alias (for example
/// `"user u"`); a description without a name is rejected.
pub fn select(table: String, columns: Vec<String>) -> (r: Result<SelectBuilder, String>)
    ensures
        (r is Ok) == (forall|k: int|
            0 <= k < columns@.len() ==> column_spec(#[trigger] columns@[k]@) is Some),
        r matches Ok(sb) ==> (sb.src matches DataSource::Table { table: t, columns: cols }
            && t@ == table@ && cols@.len() == columns@.len() && forall|k: int|
            0 <= k < cols@.len() ==> column_matches(#[trigger] cols@[k], columns@[k]@)),
        r matches Err(e) ==> e@ == "empty column name"@,
{
    let mut cols: Vec<Column> = Vec::new();
    let mut idx: usize = 0;
    while idx < columns.len()
        invariant
            idx as int <= columns@.len(),
            cols@.len() == idx as int,
            forall|k: int| 0 <= k < idx ==> column_spec(#[trigger] columns@[k]@) is Some,
            forall|k: int| 0 <= k < idx ==> column_matches(#[trigger] cols@[k], columns@[k]@),
        decreases columns@.len() - idx,
    {
        match parse_column(columns[idx].as_str()) {
            Some(col) => {
                cols.push(col);
            },
            None => {
                proof {
                    assert(!(column_spec(columns@[idx as int]@) is Some));
                }
                return Err("empty column name".to_owned());
            },
        }
        idx = idx + 1;
    }
    Ok(SelectBuilder { src: DataSource::Table { table, columns: cols } })
}

// ---------------------------------------------------------------------
// UUID constants.
// ---------------------------------------------------------------------
#[verifier::external_type_specification]
#[verifier::external_body]
pub struct ExUuid(uuid::Uuid);

/// Relies on `uuid::Uuid::as_bytes`: it hands back a borrow of the
/// sixteen bytes the identifier is made of, and promises nothing
/// further of them.
pub assume_specification[ uuid::Uuid::as_bytes ](u: &uuid::Uuid) -> (b: &[u8; 16]);

/// Build a constant UUID value from an identifier of the `uuid` crate,
/// carrying its sixteen bytes.
pub fn value_from_uuid(u: &uuid::Uuid) -> (v: Value)
    ensures
        v is Uuid,
{
    Value::Uuid(*u.as_bytes())
}

} // verus!
