//! Tables: their columns, the values that the columns hold, and the rules
//! that the columns of a table have to keep.
use vstd::prelude::*;
use vstd::string::StringExecFns;
use crate::error::Error;

verus! {

/// The type of a column.
#[derive(PartialEq, Eq, Debug, Clone, Copy, Structural)]
pub enum DataType {
    Boolean,
    Integer,
    Float,
    String,
}

/// A value of a column. A floating-point number is held as the 64 bits of
/// its IEEE 754 form.
#[derive(PartialEq, Debug, Clone)]
pub enum Value {
    Null,
    Boolean(bool),
    Integer(i64),
    Float(u64),
    String(String),
}

impl Value {
    /// The type of the value, which `Null` has none of.
    pub open spec fn type_of(self) -> Option<DataType> {
        match self {
            Value::Null => None,
            Value::Boolean(_) => Some(DataType::Boolean),
            Value::Integer(_) => Some(DataType::Integer),
            Value::Float(_) => Some(DataType::Float),
            Value::String(_) => Some(DataType::String),
        }
    }

    /// The type of the value, which `Null` has none of.
    pub fn data_type(&self) -> (r: Option<DataType>)
        ensures
            r == self.type_of(),
    {
        match self {
            Value::Null => None,
            Value::Boolean(_) => Some(DataType::Boolean),
            Value::Integer(_) => Some(DataType::Integer),
            Value::Float(_) => Some(DataType::Float),
            Value::String(_) => Some(DataType::String),
        }
    }
}

/// A column of a table.
#[derive(PartialEq, Debug, Clone)]
pub struct Column {
    pub name: String,
    pub data_type: DataType,
    pub nullable: bool,
    pub default: Option<Value>,
    pub primary_key: bool,
}

impl Column {
    /// The default of the column, if it has one, is of the column's type.
    pub open spec fn default_fits(self) -> bool {
        self.default matches Some(value) ==> value.type_of() == Some(self.data_type)
    }
}

/// The values of one row, in the order of the columns.
pub type Row = Vec<Value>;

/// Column `at` is a primary key and no column before it is one.
pub open spec fn first_primary_key(columns: Seq<Column>, at: int) -> bool {
    &&& 0 <= at < columns.len()
    &&& columns[at].primary_key
    &&& forall|i: int| 0 <= i < at ==> !(#[trigger] columns[i]).primary_key
}

/// Column `at` has a default that is not of its type, and no column before
/// it has one.
pub open spec fn first_misfit(columns: Seq<Column>, at: int) -> bool {
    &&& 0 <= at < columns.len()
    &&& !columns[at].default_fits()
    &&& forall|i: int| 0 <= i < at ==> (#[trigger] columns[i]).default_fits()
}

/// Why `columns` cannot be the columns of the table `name`, as the text of
/// the error, or `None` where they can: there is a column, exactly one
/// column is the primary key and it is not nullable, and each default is of
/// its column's type. Where more than one rule is broken, the text names the
/// first of them in this order.
pub open spec fn table_fault(name: Seq<char>, columns: Seq<Column>) -> Option<Seq<char>> {
    if columns.len() == 0 {
        Some("Table "@ + name + " has no columns"@)
    } else if !exists|at: int| first_primary_key(columns, at) {
        Some("Table "@ + name + " has no primary key"@)
    } else {
        let key = choose|at: int| first_primary_key(columns, at);
        if exists|i: int| key < i < columns.len() && (#[trigger] columns[i]).primary_key {
            Some("Table "@ + name + " has more than one primary key"@)
        } else if columns[key].nullable {
            Some("Primary key "@ + columns[key].name@ + " cannot be nullable"@)
        } else if exists|at: int| first_misfit(columns, at) {
            let misfit = choose|at: int| first_misfit(columns, at);
            Some("Default value does not match column "@ + columns[misfit].name@ + "'s data type"@)
        } else {
            None
        }
    }
}

/// A table: its name and its columns, one of which is its primary key. A
/// table is made by `Table::new` and in no other way, so its columns keep
/// the rules that `Table::new` holds them to.
#[derive(Debug)]
pub struct Table {
    pub name: String,
    pub columns: Vec<Column>,
    primary_key_idx: usize,
}

/// What a table is: its name, its columns, and the place of its primary
/// key among them.
pub struct TableView {
    pub name: Seq<char>,
    pub columns: Seq<Column>,
    pub primary_key: int,
}

impl View for Table {
    type V = TableView;

    closed spec fn view(&self) -> TableView {
        TableView {
            name: self.name@,
            columns: self.columns@,
            primary_key: self.primary_key_idx as int,
        }
    }
}

impl Table {
    #[verifier::type_invariant]
    spec fn kept(&self) -> bool {
        &&& table_fault(self.name@, self.columns@) is None
        &&& first_primary_key(self.columns@, self.primary_key_idx as int)
    }

    /// The table keeps the rules of its columns, and its primary key is the
    /// one column that is marked as such.
    pub open spec fn well_formed(&self) -> bool {
        &&& table_fault(self@.name, self@.columns) is None
        &&& first_primary_key(self@.columns, self@.primary_key)
    }

    /// A table of the given name and columns, or an internal error that says
    /// which rule the columns break.
    pub fn new(name: &str, columns: Vec<Column>) -> (r: Result<Table, Error>)
        ensures
            match table_fault(name@, columns@) {
                Some(text) => r matches Err(e) && e.is_internal(text),
                None => r matches Ok(table) && table@.name == name@ && table@.columns
                    == columns@ && table.well_formed(),
            },
    {
        if columns.len() == 0 {
            return Err(fault("Table ", name, " has no columns"));
        }
        let mut found: Option<usize> = None;
        let mut more: bool = false;
        let mut i: usize = 0;
        while i < columns.len()
            invariant
                i <= columns@.len(),
                match found {
                    Some(at) => at < i && first_primary_key(columns@, at as int) && more
                        == exists|j: int|
                        at < j < i && (#[trigger] columns@[j]).primary_key,
                    None => !more && forall|j: int|
                        0 <= j < i ==> !(#[trigger] columns@[j]).primary_key,
                },
            decreases columns@.len() - i,
        {
            if columns[i].primary_key {
                match found {
                    Some(_) => {
                        more = true;
                    },
                    None => {
                        found = Some(i);
                    },
                }
            }
            i = i + 1;
        }
        let key: usize = match found {
            Some(at) => at,
            None => {
                proof {
                    assert forall|at: int| !first_primary_key(columns@, at) by {}
                }
                return Err(fault("Table ", name, " has no primary key"));
            },
        };
        assert(first_primary_key(columns@, key as int));
        proof {
            let chosen = choose|at: int| first_primary_key(columns@, at);
            assert(chosen == key) by {
                if chosen < key {
                    assert(!columns@[chosen].primary_key);
                }
                if key < chosen {
                    assert(!columns@[key as int].primary_key);
                }
            }
        }
        if more {
            return Err(fault("Table ", name, " has more than one primary key"));
        }
        if columns[key].nullable {
            return Err(fault("Primary key ", columns[key].name.as_str(), " cannot be nullable"));
        }
        let mut i: usize = 0;
        while i < columns.len()
            invariant
                i <= columns@.len(),
                first_primary_key(columns@, key as int),
                key == choose|at: int| first_primary_key(columns@, at),
                !exists|j: int| key < j < columns@.len() && (#[trigger] columns@[j]).primary_key,
                !columns@[key as int].nullable,
                forall|j: int| 0 <= j < i ==> (#[trigger] columns@[j]).default_fits(),
            decreases columns@.len() - i,
        {
            let fits = match &columns[i].default {
                Some(value) => match value.data_type() {
                    Some(data_type) => data_type == columns[i].data_type,
                    None => false,
                },
                None => true,
            };
            if !fits {
                proof {
                    assert(first_misfit(columns@, i as int));
                    let chosen = choose|at: int| first_misfit(columns@, at);
                    assert(chosen == i) by {
                        if chosen < i {
                            assert(columns@[chosen].default_fits());
                        }
                        if i < chosen {
                            assert(columns@[i as int].default_fits());
                        }
                    }
                }
                return Err(
                    fault(
                        "Default value does not match column ",
                        columns[i].name.as_str(),
                        "'s data type",
                    ),
                );
            }
            i = i + 1;
        }
        proof {
            assert forall|at: int| !first_misfit(columns@, at) by {}
        }
        Ok(Table { name: name.to_owned(), columns, primary_key_idx: key })
    }

    /// The place of the primary key among the columns.
    pub fn primary_key_index(&self) -> (at: usize)
        ensures
            at == self@.primary_key,
            self.well_formed(),
    {
        proof {
            use_type_invariant(self);
        }
        self.primary_key_idx
    }

    /// The value of the primary key in `row`, which has to reach as far as
    /// the primary key's column.
    pub fn get_primary_key<'a>(&self, row: &'a Row) -> (value: &'a Value)
        requires
            self@.primary_key < row@.len(),
        ensures
            *value == row@[self@.primary_key],
    {
        &row[self.primary_key_idx]
    }

    /// The place of the column named `col_name`: of the last one, where
    /// several columns have that name.
    pub fn get_col_idx(&self, col_name: &str) -> (r: Option<usize>)
        ensures
            match r {
                Some(at) => at < self@.columns.len() && self@.columns[at as int].name@
                    == col_name@ && forall|i: int|
                    at < i < self@.columns.len() ==> (#[trigger] self@.columns[i]).name@
                        != col_name@,
                None => forall|i: int|
                    0 <= i < self@.columns.len() ==> (#[trigger] self@.columns[i]).name@
                        != col_name@,
            },
    {
        let wanted = col_name.to_owned();
        let mut i: usize = self.columns.len();
        while i > 0
            invariant
                i <= self.columns@.len(),
                wanted@ == col_name@,
                forall|j: int|
                    i <= j < self.columns@.len() ==> (#[trigger] self.columns@[j]).name@
                        != col_name@,
            decreases i,
        {
            i = i - 1;
            if self.columns[i].name == wanted {
                return Some(i);
            }
        }
        None
    }
}

/// An internal error whose text is `before`, `name` and `after` in a row.
fn fault(before: &str, name: &str, after: &str) -> (e: Error)
    ensures
        e.is_internal(before@ + name@ + after@),
{
    let text = before.to_owned().concat(name).concat(after);
    Error::InternalError(text)
}

} // verus!
