//! Column schema: the typed shape of a browsed table.
//!
//! The relational collaborator reports each column's name and its SQL type
//! name; the type name is decoded into `ColType` so cells can be decoded
//! with the right type. Unknown type names fall back to text at the caller.

use vstd::prelude::*;
use vstd::string::StrSliceExecFns;

verus! {

/// The column types the browser distinguishes.
#[derive(Debug, Clone, Copy, PartialEq, Eq, Structural)]
pub enum ColType {
    SMALLINT,
    INT,
    BIGINT,
    REAL,
    DOUBLE,
    TEXT,
}

/// A table's columns: name and decoded type, in schema order.
pub type ColumnSchema = Vec<(String, ColType)>;

/// A lookup request for one named record in one table.
#[derive(Debug, Clone)]
pub struct CysQuery {
    pub cys_name: String,
    pub screen_name: String,
}

/// Character-wise string equality.
fn str_eq(a: &str, b: &str) -> (r: bool)
    ensures
        r == (a@ == b@),
{
    let n = a.unicode_len();
    if n != b.unicode_len() {
        proof {
            assert(a@ != b@);
        }
        return false;
    }
    let mut i: usize = 0;
    while i < n
        invariant
            n == a@.len(),
            n == b@.len(),
            0 <= i <= n,
            forall|k: int| 0 <= k < i ==> a@[k] == b@[k],
        decreases n - i,
    {
        if a.get_char(i) != b.get_char(i) {
            proof {
                assert(a@[i as int] != b@[i as int]);
            }
            return false;
        }
        i = i + 1;
    }
    proof {
        assert(a@ =~= b@);
    }
    true
}

/// The column type a SQL type name decodes to, if any.
pub open spec fn col_type_of(s: Seq<char>) -> Option<ColType> {
    if s == "smallint"@ {
        Some(ColType::SMALLINT)
    } else if s == "integer"@ {
        Some(ColType::INT)
    } else if s == "bigint"@ {
        Some(ColType::BIGINT)
    } else if s == "real"@ {
        Some(ColType::REAL)
    } else if s == "double precision"@ {
        Some(ColType::DOUBLE)
    } else if s == "text"@ {
        Some(ColType::TEXT)
    } else {
        None
    }
}

impl ColType {
    /// Decodes a SQL type name as the schema collaborator reports it.
    pub fn from_str(s: &str) -> (r: Option<Self>)
        ensures
            r == col_type_of(s@),
    {
        if str_eq(s, "smallint") {
            Some(ColType::SMALLINT)
        } else if str_eq(s, "integer") {
            Some(ColType::INT)
        } else if str_eq(s, "bigint") {
            Some(ColType::BIGINT)
        } else if str_eq(s, "real") {
            Some(ColType::REAL)
        } else if str_eq(s, "double precision") {
            Some(ColType::DOUBLE)
        } else if str_eq(s, "text") {
            Some(ColType::TEXT)
        } else {
            None
        }
    }
}

} // verus!
