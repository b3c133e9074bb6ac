//! Operation kinds and the header line that opens each row-change record.
//!
//! A header is a line that begins with `### ` and ends with one of
//!
//! ```text
//! ### DELETE FROM `schema`.`table`
//! ### UPDATE `schema`.`table`
//! ### INSERT INTO `schema`.`table`
//! ```
//!
//! where neither name is empty or holds a backtick. The names are taken as they stand.

use vstd::prelude::*;
use vstd::string::*;
use crate::error::BinlogError;
use crate::text::{chars_of, matches_at, occurs_at};

verus! {

/// The kind of row change that a record describes.
#[derive(Clone, Copy, PartialEq, Eq, Debug, Structural)]
pub enum BinlogOperation {
    Delete,
    Update,
    Insert,
}

impl BinlogOperation {
    /// Two operations are opposite when one inserts and the other deletes.
    pub open spec fn spec_is_opposite(self, op: BinlogOperation) -> bool {
        (self == BinlogOperation::Insert && op == BinlogOperation::Delete) || (self
            == BinlogOperation::Delete && op == BinlogOperation::Insert)
    }

    /// Tells whether `op` undoes `self`: an insert against a delete or the reverse.
    pub fn is_opposite(&self, op: BinlogOperation) -> (r: bool)
        ensures
            r == self.spec_is_opposite(op),
    {
        match (*self, op) {
            (BinlogOperation::Insert, BinlogOperation::Delete) => true,
            (BinlogOperation::Delete, BinlogOperation::Insert) => true,
            _ => false,
        }
    }
}

/// A recognised header: which table is changed, and how.
#[derive(Debug)]
pub struct BinlogRecord {
    pub table_name: String,
    pub schema_name: String,
    pub op: BinlogOperation,
}

/// The mathematical content of a [`BinlogRecord`].
pub struct RecordView {
    pub table_name: Seq<char>,
    pub schema_name: Seq<char>,
    pub op: BinlogOperation,
}

impl View for BinlogRecord {
    type V = RecordView;

    open spec fn view(&self) -> RecordView {
        RecordView { table_name: self.table_name@, schema_name: self.schema_name@, op: self.op }
    }
}

/// The text that opens a header of kind `op`, up to and including the backtick before the
/// schema name.
pub open spec fn header_prefix(op: BinlogOperation) -> Seq<char> {
    match op {
        BinlogOperation::Delete => "### DELETE FROM `"@,
        BinlogOperation::Update => "### UPDATE `"@,
        BinlogOperation::Insert => "### INSERT INTO `"@,
    }
}

/// A schema or table name: at least one character, none of them a backtick.
pub open spec fn is_name(s: Seq<char>) -> bool {
    s.len() > 0 && forall|i: int| 0 <= i < s.len() ==> s[i] != '`'
}

/// The header of kind `op` for the table `table` of `schema`, written out.
pub open spec fn header_text(op: BinlogOperation, schema: Seq<char>, table: Seq<char>) -> Seq<
    char,
> {
    header_prefix(op) + schema + "`.`"@ + table + "`"@
}

/// `line` is a header of kind `op` that names `schema` and `table`: it begins with `### `
/// and ends with the header text.
pub open spec fn is_header(
    line: Seq<char>,
    op: BinlogOperation,
    schema: Seq<char>,
    table: Seq<char>,
) -> bool {
    &&& "### "@.is_prefix_of(line)
    &&& is_name(schema)
    &&& is_name(table)
    &&& header_text(op, schema, table).is_suffix_of(line)
}

/// What a line is classified as: the header it is, if it is one.
pub open spec fn spec_classify(line: Seq<char>) -> Option<RecordView> {
    if exists|op: BinlogOperation, schema: Seq<char>, table: Seq<char>|
        is_header(line, op, schema, table) {
        let (op, schema, table) = choose|
            op: BinlogOperation,
            schema: Seq<char>,
            table: Seq<char>,
        |
            is_header(line, op, schema, table);
        Some(RecordView { table_name: table, schema_name: schema, op })
    } else {
        None
    }
}

/// The same header, told by where its backticks stand: `q1` opens the schema name, `q2`
/// closes it, `q3` opens the table name and the last character closes it.
spec fn header_at(line: Seq<char>, op: BinlogOperation, q1: int, q2: int, q3: int) -> bool {
    let n = line.len() as int;
    &&& "### "@.is_prefix_of(line)
    &&& q1 + 1 < q2
    &&& q2 + 2 == q3
    &&& q3 + 1 < n - 1
    &&& occurs_at(line, q1 + 1 - header_prefix(op).len(), header_prefix(op))
    &&& forall|i: int| q1 < i < q2 ==> line[i] != '`'
    &&& line[q2] == '`'
    &&& line[q2 + 1] == '.'
    &&& line[q3] == '`'
    &&& forall|i: int| q3 < i < n - 1 ==> line[i] != '`'
    &&& line[n - 1] == '`'
}

proof fn lemma_header_literals()
    ensures
        "`.`"@ == seq!['`', '.', '`'],
        "`"@ == seq!['`'],
        "### DELETE FROM `"@ == seq![
            '#', '#', '#', ' ', 'D', 'E', 'L', 'E', 'T', 'E', ' ', 'F', 'R', 'O', 'M', ' ', '`',
        ],
        "### UPDATE `"@ == seq!['#', '#', '#', ' ', 'U', 'P', 'D', 'A', 'T', 'E', ' ', '`'],
        "### INSERT INTO `"@ == seq![
            '#', '#', '#', ' ', 'I', 'N', 'S', 'E', 'R', 'T', ' ', 'I', 'N', 'T', 'O', ' ', '`',
        ],
{
    reveal_strlit("`.`");
    reveal_strlit("`");
    reveal_strlit("### DELETE FROM `");
    reveal_strlit("### UPDATE `");
    reveal_strlit("### INSERT INTO `");
    assert("`.`"@ =~= seq!['`', '.', '`']);
    assert("`"@ =~= seq!['`']);
    assert("### DELETE FROM `"@ =~= seq![
        '#', '#', '#', ' ', 'D', 'E', 'L', 'E', 'T', 'E', ' ', 'F', 'R', 'O', 'M', ' ', '`',
    ]);
    assert("### UPDATE `"@ =~= seq!['#', '#', '#', ' ', 'U', 'P', 'D', 'A', 'T', 'E', ' ', '`']);
    assert("### INSERT INTO `"@ =~= seq![
        '#', '#', '#', ' ', 'I', 'N', 'S', 'E', 'R', 'T', ' ', 'I', 'N', 'T', 'O', ' ', '`',
    ]);
}

/// A header by its backticks is a header by its text.
proof fn lemma_header_at_is_header(line: Seq<char>, op: BinlogOperation, q1: int, q2: int, q3: int)
    requires
        header_at(line, op, q1, q2, q3),
    ensures
        is_header(line, op, line.subrange(q1 + 1, q2), line.subrange(q3 + 1, line.len() - 1)),
{
    lemma_header_literals();
    let n = line.len() as int;
    let schema = line.subrange(q1 + 1, q2);
    let table = line.subrange(q3 + 1, n - 1);
    let prefix = header_prefix(op);
    let text = header_text(op, schema, table);
    let start = q1 + 1 - prefix.len();
    assert(line.subrange(start, start + prefix.len()) == prefix);
    assert forall|k: int| 0 <= k < text.len() implies text[k] == line[start + k] by {
        if k < prefix.len() {
            assert(line.subrange(start, start + prefix.len())[k] == line[start + k]);
        }
    }
    assert(text =~= line.subrange(n - text.len(), n));
}

/// A header by its text is a header by its backticks, and the names are the text between
/// them.
proof fn lemma_header_shape(
    line: Seq<char>,
    op: BinlogOperation,
    schema: Seq<char>,
    table: Seq<char>,
)
    requires
        is_header(line, op, schema, table),
    ensures
        ({
            let n = line.len() as int;
            let q3 = n - 2 - table.len();
            let q2 = q3 - 2;
            let q1 = q2 - schema.len() - 1;
            &&& header_at(line, op, q1, q2, q3)
            &&& schema == line.subrange(q1 + 1, q2)
            &&& table == line.subrange(q3 + 1, n - 1)
        }),
{
    lemma_header_literals();
    let n = line.len() as int;
    let q3 = n - 2 - table.len();
    let q2 = q3 - 2;
    let q1 = q2 - schema.len() - 1;
    let prefix = header_prefix(op);
    let text = header_text(op, schema, table);
    let start = n - text.len();
    assert(start == q1 + 1 - prefix.len());
    assert(text == line.subrange(start, n));
    assert forall|k: int| 0 <= k < text.len() implies line[start + k] == text[k] by {
        assert(line.subrange(start, n)[k] == line[start + k]);
    }
    assert(line.subrange(start, start + prefix.len()) =~= prefix) by {
        assert forall|k: int| 0 <= k < prefix.len() implies line[start + k] == prefix[k] by {
            assert(text[k] == prefix[k]);
        }
    }
    assert forall|i: int| q1 < i < q2 implies line[i] != '`' by {
        assert(text[i - start] == schema[i - q1 - 1]);
    }
    assert forall|i: int| q3 < i < n - 1 implies line[i] != '`' by {
        assert(text[i - start] == table[i - q3 - 1]);
    }
    assert(line[q2] == '`') by {
        assert(text[q2 - start] == '`');
    }
    assert(line[q2 + 1] == '.') by {
        assert(text[q2 + 1 - start] == '.');
    }
    assert(line[q3] == '`') by {
        assert(text[q3 - start] == '`');
    }
    assert(line[n - 1] == '`') by {
        assert(text[n - 1 - start] == '`');
    }
    assert(schema =~= line.subrange(q1 + 1, q2)) by {
        assert forall|k: int| 0 <= k < schema.len() implies schema[k] == line[q1 + 1 + k] by {
            assert(text[q1 + 1 + k - start] == schema[k]);
        }
    }
    assert(table =~= line.subrange(q3 + 1, n - 1)) by {
        assert forall|k: int| 0 <= k < table.len() implies table[k] == line[q3 + 1 + k] by {
            assert(text[q3 + 1 + k - start] == table[k]);
        }
    }
}

/// A line is a header in at most one way: the kind and both names are determined by it.
pub proof fn lemma_header_unique(
    line: Seq<char>,
    op1: BinlogOperation,
    schema1: Seq<char>,
    table1: Seq<char>,
    op2: BinlogOperation,
    schema2: Seq<char>,
    table2: Seq<char>,
)
    requires
        is_header(line, op1, schema1, table1),
        is_header(line, op2, schema2, table2),
    ensures
        op1 == op2,
        schema1 == schema2,
        table1 == table2,
{
    lemma_header_literals();
    lemma_header_shape(line, op1, schema1, table1);
    lemma_header_shape(line, op2, schema2, table2);
    let n = line.len() as int;
    let a3 = n - 2 - table1.len();
    let b3 = n - 2 - table2.len();
    assert(a3 == b3) by {
        if a3 < b3 {
            assert(line[b3] == '`');
        }
        if b3 < a3 {
            assert(line[a3] == '`');
        }
    }
    let a1 = a3 - 3 - schema1.len();
    let b1 = b3 - 3 - schema2.len();
    assert(a1 == b1) by {
        if a1 < b1 {
            assert(line[b1] == header_prefix(op2).last()) by {
                lemma_prefix_chars(line, op2, b1);
            }
        }
        if b1 < a1 {
            assert(line[a1] == header_prefix(op1).last()) by {
                lemma_prefix_chars(line, op1, a1);
            }
        }
    }
    lemma_prefix_chars(line, op1, a1);
    lemma_prefix_chars(line, op2, a1);
}

/// Where a header prefix ends at `q1`, the line holds its last and its third-last character
/// there; the third-last tells the three kinds apart.
proof fn lemma_prefix_chars(line: Seq<char>, op: BinlogOperation, q1: int)
    requires
        occurs_at(line, q1 + 1 - header_prefix(op).len(), header_prefix(op)),
    ensures
        q1 >= 2,
        line[q1] == '`',
        line[q1] == header_prefix(op).last(),
        line[q1 - 2] == match op {
            BinlogOperation::Delete => 'M',
            BinlogOperation::Update => 'E',
            BinlogOperation::Insert => 'O',
        },
{
    lemma_header_literals();
    let prefix = header_prefix(op);
    let start = q1 + 1 - prefix.len();
    let len = prefix.len() as int;
    assert(line.subrange(start, start + len)[len - 1] == line[q1]);
    assert(line.subrange(start, start + len)[len - 3] == line[q1 - 2]);
}

/// The place of the last backtick before `end`, if there is one.
fn last_backtick_before(chars: &Vec<char>, end: usize) -> (r: Option<usize>)
    requires
        end <= chars@.len(),
    ensures
        match r {
            Some(q) => q < end && chars@[q as int] == '`' && forall|i: int|
                q < i < end ==> chars@[i] != '`',
            None => forall|i: int| 0 <= i < end ==> chars@[i] != '`',
        },
{
    let mut i: usize = end;
    while i > 0
        invariant
            i <= end <= chars@.len(),
            forall|j: int| i <= j < end ==> chars@[j] != '`',
        decreases i,
    {
        i = i - 1;
        if chars[i] == '`' {
            return Some(i);
        }
    }
    None
}

/// The kind of header whose prefix ends just before position `end`, if any does.
fn prefix_ending_at(chars: &Vec<char>, end: usize) -> (r: Option<BinlogOperation>)
    requires
        end <= chars@.len(),
    ensures
        match r {
            Some(op) => occurs_at(chars@, end - header_prefix(op).len(), header_prefix(op)),
            None => forall|op: BinlogOperation|
                !occurs_at(chars@, end - header_prefix(op).len(), header_prefix(op)),
        },
{
    let delete = chars_of("### DELETE FROM `");
    if end >= delete.len() && matches_at(chars, end - delete.len(), &delete) {
        return Some(BinlogOperation::Delete);
    }
    let insert = chars_of("### INSERT INTO `");
    if end >= insert.len() && matches_at(chars, end - insert.len(), &insert) {
        return Some(BinlogOperation::Insert);
    }
    let update = chars_of("### UPDATE `");
    if end >= update.len() && matches_at(chars, end - update.len(), &update) {
        return Some(BinlogOperation::Update);
    }
    assert forall|op: BinlogOperation|
        !occurs_at(chars@, end - header_prefix(op).len(), header_prefix(op)) by {
        match op {
            BinlogOperation::Delete => {},
            BinlogOperation::Update => {},
            BinlogOperation::Insert => {},
        }
    }
    None
}

/// The backticks of the header that `chars` is, if it is one.
fn find_header(chars: &Vec<char>) -> (r: Option<(BinlogOperation, usize, usize, usize)>)
    ensures
        match r {
            Some((op, q1, q2, q3)) => header_at(chars@, op, q1 as int, q2 as int, q3 as int),
            None => forall|op: BinlogOperation, schema: Seq<char>, table: Seq<char>|
                !is_header(chars@, op, schema, table),
        },
{
    let n: usize = chars.len();
    let lead = chars_of("### ");
    let ghost line = chars@;
    assert(lead@.is_prefix_of(line) <==> occurs_at(line, 0, lead@));
    if !matches_at(chars, 0, &lead) || n == 0 || chars[n - 1] != '`' {
        assert forall|op: BinlogOperation, schema: Seq<char>, table: Seq<char>|
            !is_header(line, op, schema, table) by {
            if is_header(line, op, schema, table) {
                lemma_header_shape(line, op, schema, table);
            }
        }
        return None;
    }
    let q3: usize = match last_backtick_before(chars, n - 1) {
        Some(q) => q,
        None => {
            assert forall|op: BinlogOperation, schema: Seq<char>, table: Seq<char>|
                !is_header(line, op, schema, table) by {
                if is_header(line, op, schema, table) {
                    lemma_header_shape(line, op, schema, table);
                    assert(line[n - 2 - table.len()] == '`');
                }
            }
            return None;
        },
    };
    if q3 + 2 >= n || q3 < 2 || chars[q3 - 1] != '.' || chars[q3 - 2] != '`' {
        assert forall|op: BinlogOperation, schema: Seq<char>, table: Seq<char>|
            !is_header(line, op, schema, table) by {
            if is_header(line, op, schema, table) {
                lemma_header_shape(line, op, schema, table);
                let open_table = n - 2 - table.len();
                assert(line[open_table] == '`');
                assert(open_table == q3);
            }
        }
        return None;
    }
    let q2: usize = q3 - 2;
    let q1: usize = match last_backtick_before(chars, q2) {
        Some(q) => q,
        None => {
            assert forall|op: BinlogOperation, schema: Seq<char>, table: Seq<char>|
                !is_header(line, op, schema, table) by {
                if is_header(line, op, schema, table) {
                    lemma_header_shape(line, op, schema, table);
                    let open_table = n - 2 - table.len();
                    assert(line[open_table] == '`');
                    assert(open_table == q3);
                    lemma_prefix_chars(line, op, q2 - schema.len() - 1);
                }
            }
            return None;
        },
    };
    if q1 + 1 >= q2 {
        assert forall|op: BinlogOperation, schema: Seq<char>, table: Seq<char>|
            !is_header(line, op, schema, table) by {
            if is_header(line, op, schema, table) {
                lemma_header_shape(line, op, schema, table);
                let open_table = n - 2 - table.len();
                assert(line[open_table] == '`');
                assert(open_table == q3);
                let open_schema = q2 - schema.len() - 1;
                lemma_prefix_chars(line, op, open_schema);
                assert(open_schema == q1);
            }
        }
        return None;
    }
    match prefix_ending_at(chars, q1 + 1) {
        Some(op) => Some((op, q1, q2, q3)),
        None => {
            assert forall|op: BinlogOperation, schema: Seq<char>, table: Seq<char>|
                !is_header(line, op, schema, table) by {
                if is_header(line, op, schema, table) {
                    lemma_header_shape(line, op, schema, table);
                    let open_table = n - 2 - table.len();
                    assert(line[open_table] == '`');
                    assert(open_table == q3);
                    let open_schema = q2 - schema.len() - 1;
                    lemma_prefix_chars(line, op, open_schema);
                    assert(open_schema == q1);
                }
            }
            None
        },
    }
}

/// Builds the record of a header of kind `op` from the places of its backticks: the
/// names are the text between them, as it stands.
fn binlog_record_from_capture(
    value: &str,
    op: BinlogOperation,
    q1: usize,
    q2: usize,
    q3: usize,
) -> (r: BinlogRecord)
    requires
        header_at(value@, op, q1 as int, q2 as int, q3 as int),
    ensures
        r.op == op,
        r.schema_name@ == value@.subrange(q1 + 1, q2 as int),
        r.table_name@ == value@.subrange(q3 + 1, value@.len() - 1),
{
    let n: usize = value.unicode_len();
    let schema_name = String::from_str(value.substring_char(q1 + 1, q2));
    let table_name = String::from_str(value.substring_char(q3 + 1, n - 1));
    BinlogRecord { table_name, schema_name, op }
}

impl BinlogRecord {
    /// Classifies one line of the dump.
    ///
    /// Returns the header that `value` is, with both names exactly as they stand between
    /// their backticks, and `ParseMismatch` for every line that is no header.
    pub fn try_from(value: &str) -> (r: Result<BinlogRecord, BinlogError>)
        ensures
            r is Ok <==> exists|op: BinlogOperation, schema: Seq<char>, table: Seq<char>|
                is_header(value@, op, schema, table),
            r matches Ok(record) ==> is_header(
                value@,
                record.op,
                record.schema_name@,
                record.table_name@,
            ),
            r matches Err(e) ==> e == BinlogError::ParseMismatch,
            match r {
                Ok(record) => spec_classify(value@) == Some(record@),
                Err(_) => spec_classify(value@).is_none(),
            },
    {
        let chars = chars_of(value);
        match find_header(&chars) {
            None => Err(BinlogError::ParseMismatch),
            Some((op, q1, q2, q3)) => {
                let record = binlog_record_from_capture(value, op, q1, q2, q3);
                proof {
                    lemma_header_at_is_header(value@, op, q1 as int, q2 as int, q3 as int);
                    lemma_classify_header(value@, op, record.schema_name@, record.table_name@);
                }
                Ok(record)
            },
        }
    }
}

/// A header is classified as itself.
pub proof fn lemma_classify_header(
    line: Seq<char>,
    op: BinlogOperation,
    schema: Seq<char>,
    table: Seq<char>,
)
    requires
        is_header(line, op, schema, table),
    ensures
        spec_classify(line) == Some(RecordView { table_name: table, schema_name: schema, op }),
{
    let (op2, schema2, table2) = choose|
        op2: BinlogOperation,
        schema2: Seq<char>,
        table2: Seq<char>,
    |
        is_header(line, op2, schema2, table2);
    lemma_header_unique(line, op, schema, table, op2, schema2, table2);
}

/// A line that begins with `### ` and is some text followed by the header text of `op`,
/// `schema` and `table` is classified as that header, with the names as written.
pub proof fn lemma_header_line_is_classified(
    lead: Seq<char>,
    op: BinlogOperation,
    schema: Seq<char>,
    table: Seq<char>,
)
    requires
        is_name(schema),
        is_name(table),
        "### "@.is_prefix_of(lead + header_text(op, schema, table)),
    ensures
        spec_classify(lead + header_text(op, schema, table)) == Some(
            RecordView { table_name: table, schema_name: schema, op },
        ),
{
    let text = header_text(op, schema, table);
    let line = lead + text;
    assert(line.subrange(line.len() - text.len(), line.len() as int) =~= text);
    lemma_classify_header(line, op, schema, table);
}

/// The header text alone is a header line.
pub proof fn lemma_header_text_is_classified(
    op: BinlogOperation,
    schema: Seq<char>,
    table: Seq<char>,
)
    requires
        is_name(schema),
        is_name(table),
    ensures
        spec_classify(header_text(op, schema, table)) == Some(
            RecordView { table_name: table, schema_name: schema, op },
        ),
{
    lemma_header_literals();
    reveal_strlit("### ");
    let text = header_text(op, schema, table);
    assert("### "@ =~= text.subrange(0, 4)) by {
        assert forall|k: int| 0 <= k < 4 implies "### "@[k] == text[k] by {
            assert(text[k] == header_prefix(op)[k]);
        }
    }
    assert(Seq::<char>::empty() + text =~= text);
    lemma_header_line_is_classified(Seq::empty(), op, schema, table);
}

} // verus!
