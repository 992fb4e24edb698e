//! The data model of the ingestion boundary: read options, the textual
//! schema of an input file ("name:type" fields), and the column types a
//! schema can declare. Reading files is the collaborator's business; the
//! parsing of schema text is ours and is verified here.

use vstd::prelude::*;
use vstd::string::StrSliceExecFns;

use crate::edge::Vid;

verus! {

/// Column types an input schema can declare.
#[derive(Debug, Clone, Copy, PartialEq, Eq, Structural)]
pub enum ColumnType {
    Null,
    Int32,
    UInt32,
    Int64,
    Float32,
    Float64,
    Utf8,
}

/// How an edge or vertex table is read from a file.
pub struct ReadOption {
    /// Whether the file's first line is a header.
    pub has_header: bool,
    /// The header to use; when set it overrides the file's first line.
    pub header: String,
    /// The payload columns to keep, beyond the endpoints.
    pub include_columns: Vec<String>,
    /// The column holding an edge's source (or a vertex's id).
    pub from_column: String,
    /// The column holding an edge's target.
    pub to_column: String,
}

impl ReadOption {
    /// The usual way to read an edge table: a header line, no extra
    /// payload columns, endpoints in the columns named `from` and `to`.
    pub fn default() -> (r: ReadOption)
        ensures
            r.has_header == true,
            r.header@ == Seq::<char>::empty(),
            r.include_columns@.len() == 0,
            r.from_column@ == "from"@,
            r.to_column@ == "to"@,
    {
        ReadOption {
            has_header: true,
            header: String::new(),
            include_columns: Vec::new(),
            from_column: "from".to_owned(),
            to_column: "to".to_owned(),
        }
    }
}

/// Exact string comparison by characters.
fn str_eq(a: &str, b: &str) -> (r: bool)
    ensures
        r == (a@ == b@),
{
    let na = a.unicode_len();
    let nb = b.unicode_len();
    if na != nb {
        return false;
    }
    let mut i: usize = 0;
    while i < na
        invariant
            i <= na,
            na as int == a@.len(),
            na as int == b@.len(),
            forall|j: int| 0 <= j < i ==> a@[j] == b@[j],
        decreases na - i,
    {
        if a.get_char(i) != b.get_char(i) {
            return false;
        }
        i = i + 1;
    }
    proof {
        assert(a@ =~= b@);
    }
    true
}

/// The type names a schema may use.
pub open spec fn known_datatype(s: Seq<char>) -> bool {
    ||| s == ""@
    ||| s == "empty"@
    ||| s == "int"@
    ||| s == "int32"@
    ||| s == "i32"@
    ||| s == "uint"@
    ||| s == "uint32"@
    ||| s == "u32"@
    ||| s == "long"@
    ||| s == "int64"@
    ||| s == "long long"@
    ||| s == "i64"@
    ||| s == "float"@
    ||| s == "float32"@
    ||| s == "f32"@
    ||| s == "double"@
    ||| s == "float64"@
    ||| s == "f64"@
    ||| s == "string"@
}

/// Which column type each type name denotes.
pub open spec fn column_type_of(s: Seq<char>) -> ColumnType {
    if s == ""@ || s == "empty"@ {
        ColumnType::Null
    } else if s == "int"@ || s == "int32"@ || s == "i32"@ {
        ColumnType::Int32
    } else if s == "uint"@ || s == "uint32"@ || s == "u32"@ {
        ColumnType::UInt32
    } else if s == "long"@ || s == "int64"@ || s == "long long"@ || s == "i64"@ {
        ColumnType::Int64
    } else if s == "float"@ || s == "float32"@ || s == "f32"@ {
        ColumnType::Float32
    } else if s == "double"@ || s == "float64"@ || s == "f64"@ {
        ColumnType::Float64
    } else {
        ColumnType::Utf8
    }
}

/// Whether a schema's type name is one the reader accepts.
pub fn is_known_datatype(data_type: &str) -> (r: bool)
    ensures
        r == known_datatype(data_type@),
{
    str_eq(data_type, "") || str_eq(data_type, "empty") || str_eq(data_type, "int") || str_eq(
        data_type,
        "int32",
    ) || str_eq(data_type, "i32") || str_eq(data_type, "uint") || str_eq(data_type, "uint32")
        || str_eq(data_type, "u32") || str_eq(data_type, "long") || str_eq(data_type, "int64")
        || str_eq(data_type, "long long") || str_eq(data_type, "i64") || str_eq(data_type, "float")
        || str_eq(data_type, "float32") || str_eq(data_type, "f32") || str_eq(data_type, "double")
        || str_eq(data_type, "float64") || str_eq(data_type, "f64") || str_eq(data_type, "string")
}

/// Map a schema's type name to its column type. Unknown names are ruled
/// out up front, before any rows are parsed.
pub fn get_datatype(data_type: &str) -> (r: ColumnType)
    requires
        known_datatype(data_type@),
    ensures
        r == column_type_of(data_type@),
{
    if str_eq(data_type, "") || str_eq(data_type, "empty") {
        ColumnType::Null
    } else if str_eq(data_type, "int") || str_eq(data_type, "int32") || str_eq(data_type, "i32") {
        ColumnType::Int32
    } else if str_eq(data_type, "uint") || str_eq(data_type, "uint32") || str_eq(
        data_type,
        "u32",
    ) {
        ColumnType::UInt32
    } else if str_eq(data_type, "long") || str_eq(data_type, "int64") || str_eq(
        data_type,
        "long long",
    ) || str_eq(data_type, "i64") {
        ColumnType::Int64
    } else if str_eq(data_type, "float") || str_eq(data_type, "float32") || str_eq(
        data_type,
        "f32",
    ) {
        ColumnType::Float32
    } else if str_eq(data_type, "double") || str_eq(data_type, "float64") || str_eq(
        data_type,
        "f64",
    ) {
        ColumnType::Float64
    } else {
        proof {
            assert(data_type@ == "string"@);
        }
        ColumnType::Utf8
    }
}

/// One column of an input schema: its name and its textual type.
#[derive(Debug)]
pub struct Schema {
    pub name: String,
    pub data_type: String,
}

/// A parsed header: one `Schema` per `name:type` field.
#[derive(Debug)]
pub struct Header(pub Vec<Schema>);

/// Where the first colon of a field stands (the field's length when there
/// is none).
pub open spec fn colon_at(s: Seq<char>) -> int
    decreases s.len(),
{
    if s.len() == 0 {
        0
    } else if s[0] == ':' {
        0
    } else {
        1 + colon_at(s.skip(1))
    }
}

/// A field holds a colon somewhere.
pub open spec fn has_colon(s: Seq<char>) -> bool {
    exists|j: int| 0 <= j < s.len() && s[j] == ':'
}

/// The first colon determines `colon_at`.
proof fn lemma_colon_at_first(s: Seq<char>, i: int)
    requires
        0 <= i < s.len(),
        s[i] == ':',
        forall|j: int| 0 <= j < i ==> s[j] != ':',
    ensures
        colon_at(s) == i,
    decreases i,
{
    if i > 0 {
        assert(s.skip(1)[i - 1] == s[i]);
        assert forall|j: int| 0 <= j < i - 1 implies s.skip(1)[j] != ':' by {
            assert(s.skip(1)[j] == s[j + 1]);
        }
        lemma_colon_at_first(s.skip(1), i - 1);
    }
}

/// The first colon of one field, if it has one: the split point between
/// the column's name and its type.
fn find_colon(s: &str) -> (r: Option<usize>)
    ensures
        match r {
            Some(i) => i < s@.len() && s@[i as int] == ':' && i == colon_at(s@),
            None => !has_colon(s@),
        },
{
    let n = s.unicode_len();
    let mut i: usize = 0;
    while i < n
        invariant
            i <= n,
            n as int == s@.len(),
            forall|j: int| 0 <= j < i ==> s@[j] != ':',
        decreases n - i,
    {
        if s.get_char(i) == ':' {
            proof {
                lemma_colon_at_first(s@, i as int);
            }
            return Some(i);
        }
        i = i + 1;
    }
    None
}

impl Header {
    /// Parse one field per entry, each written `name:type` (split on the
    /// field's first colon). A field with no colon is malformed input that
    /// the caller must refuse first.
    pub fn from(strs: Vec<&str>) -> (r: Header)
        requires
            forall|k: int| 0 <= k < strs@.len() ==> has_colon((#[trigger] strs@[k])@),
        ensures
            r.0@.len() == strs@.len(),
            forall|k: int|
                0 <= k < strs@.len() ==> {
                    let s = (#[trigger] strs@[k])@;
                    &&& r.0@[k].name@ == s.take(colon_at(s))
                    &&& r.0@[k].data_type@ == s.skip(colon_at(s) + 1)
                },
    {
        let n = strs.len();
        let mut fields: Vec<Schema> = Vec::new();
        let mut k: usize = 0;
        while k < n
            invariant
                k <= n,
                n == strs@.len(),
                forall|m: int| 0 <= m < n ==> has_colon((#[trigger] strs@[m])@),
                fields@.len() == k,
                forall|m: int|
                    0 <= m < k ==> {
                        let s = (#[trigger] strs@[m])@;
                        &&& fields@[m].name@ == s.take(colon_at(s))
                        &&& fields@[m].data_type@ == s.skip(colon_at(s) + 1)
                    },
            decreases n - k,
        {
            let s: &str = strs[k];
            let p = match find_colon(s) {
                Some(p) => p,
                None => {
                    proof {
                        assert(has_colon(s@));
                        assert(false);
                    }
                    0
                },
            };
            let slen = s.unicode_len();
            let name = s.substring_char(0, p).to_owned();
            let ty = s.substring_char(p + 1, slen).to_owned();
            proof {
                assert(s@.subrange(0, p as int) =~= s@.take(colon_at(s@)));
                assert(s@.subrange(p + 1, s@.len() as int) =~= s@.skip(colon_at(s@) + 1));
            }
            fields.push(Schema { name, data_type: ty });
            k = k + 1;
        }
        Header(fields)
    }
}

/// The reader of column-oriented edge lists. The struct carries no state;
/// file access itself lives with the ingestion collaborator.
#[derive(Debug)]
pub struct CsvReader {}

impl CsvReader {
    pub fn new() -> (r: CsvReader) {
        CsvReader {  }
    }
}

/// A raw edge row as text, before the endpoints are parsed.
pub struct Edgesss {
    pub from: String,
    pub to: String,
    pub data: String,
}

/// An edge row whose source endpoint is already a vertex id.
pub struct Edgeuss {
    pub from: Vid,
    pub to: String,
    pub data: String,
}

} // verus!
