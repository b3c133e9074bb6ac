//! Pairing of opposite row changes on the same row.
//!
//! A row is told by the values of its key columns. At most one change per row is kept
//! pending. When the opposite change for that row arrives, the pair is resolved: it was
//! an empty update where the remaining columns are the same in both, a real update where
//! they are not.

use vstd::prelude::*;
use vstd::hash_map::StringHashMap;
use vstd::relations::injective_on;
use vstd::set_lib::lemma_map_size;
use vstd::string::*;
use crate::binlog::BinlogOperation;
use crate::row::{EventView, FieldMap, RowChangeEvent};
use crate::text::{
    decimal_string,
    decimal_text,
    decimal_value,
    is_digit,
    is_digits,
    lemma_decimal_text_value,
    texts,
};

verus! {

/// What became of a row change that was handed to the matcher.
#[derive(Clone, Copy, PartialEq, Eq, Debug, Structural)]
pub enum MatchOutcome {
    /// Nothing was resolved: the change is kept pending, or, where a change that is not
    /// its opposite was pending for the row already, dropped.
    Stored,
    /// The change undid the pending one and the other columns are unchanged.
    EmptyUpdate,
    /// The change undid the pending one and some other column differs.
    RealUpdate,
    /// The change lacks a key column.
    MissingKeyColumn,
}

/// Every key column has a value in `fields`, and no key column is named twice.
pub open spec fn key_present(fields: Map<usize, Seq<char>>, key_columns: Seq<usize>) -> bool {
    &&& key_columns.no_duplicates()
    &&& forall|i: int| 0 <= i < key_columns.len() ==> fields.contains_key(#[trigger] key_columns[i])
}

/// The identity of a row: the values of its key columns, in the order of `key_columns`.
pub open spec fn row_key(fields: Map<usize, Seq<char>>, key_columns: Seq<usize>) -> Seq<
    Seq<char>,
> {
    Seq::new(key_columns.len(), |i: int| fields[key_columns[i]])
}

/// The values of a row without those of its key columns.
pub open spec fn non_key_fields(
    fields: Map<usize, Seq<char>>,
    key_columns: Seq<usize>,
) -> Map<usize, Seq<char>> {
    fields.remove_keys(key_columns.to_set())
}

/// The pending changes after `event` has been observed, and what became of it.
pub open spec fn spec_observe(
    pending: Map<Seq<Seq<char>>, EventView>,
    key_columns: Seq<usize>,
    event: EventView,
) -> (Map<Seq<Seq<char>>, EventView>, MatchOutcome) {
    if !key_present(event.fields, key_columns) {
        (pending, MatchOutcome::MissingKeyColumn)
    } else {
        let key = row_key(event.fields, key_columns);
        let rest = non_key_fields(event.fields, key_columns);
        if !pending.contains_key(key) {
            (
                pending.insert(key, EventView { operation: event.operation, fields: rest }),
                MatchOutcome::Stored,
            )
        } else if pending[key].operation.spec_is_opposite(event.operation) {
            (
                pending.remove(key),
                if pending[key].fields == rest {
                    MatchOutcome::EmptyUpdate
                } else {
                    MatchOutcome::RealUpdate
                },
            )
        } else {
            (pending, MatchOutcome::Stored)
        }
    }
}

/// Takes the values of the key columns out of `fields`, in the order of `key_columns`.
///
/// Returns them as the row's key. Returns `None` where a key column has no value; what
/// is then left in `fields` is not specified.
fn take_key(key_columns: &Vec<usize>, fields: &mut FieldMap) -> (r: Option<Vec<String>>)
    requires
        old(fields).wf(),
    ensures
        final(fields).wf(),
        match r {
            Some(key) => key_present(old(fields)@, key_columns@) && texts(key@) == row_key(
                old(fields)@,
                key_columns@,
            ) && final(fields)@ == non_key_fields(old(fields)@, key_columns@),
            None => !key_present(old(fields)@, key_columns@),
        },
{
    let ghost all = old(fields)@;
    let ghost cols = key_columns@;
    let mut key: Vec<String> = Vec::new();
    let mut i: usize = 0;
    assert(texts(key@) =~= row_key(all, cols.take(0)));
    assert(fields@ =~= non_key_fields(all, cols.take(0)));
    while i < key_columns.len()
        invariant
            fields.wf(),
            all == old(fields)@,
            cols == key_columns@,
            i <= cols.len(),
            key_present(all, cols.take(i as int)),
            texts(key@) == row_key(all, cols.take(i as int)),
            fields@ == non_key_fields(all, cols.take(i as int)),
        decreases cols.len() - i,
    {
        let column = key_columns[i];
        let ghost seen = cols.take(i as int);
        let ghost grown = cols.take(i + 1);
        let ghost left = fields@;
        assert(grown.drop_last() =~= seen);
        match fields.remove(column) {
            Some(text) => {
                proof {
                    assert(left.contains_key(column));
                    assert(!seen.to_set().contains(column));
                    assert forall|a: int, b: int| 0 <= a < b < grown.len() implies grown[a]
                        != grown[b] by {
                        if b == i {
                            assert(seen[a] == grown[a]);
                            assert(seen.contains(grown[a]));
                        } else {
                            assert(seen[a] != seen[b]);
                        }
                    }
                    assert forall|a: int| 0 <= a < grown.len() implies all.contains_key(
                        #[trigger] grown[a],
                    ) by {
                        if a < i {
                            assert(all.contains_key(seen[a]));
                        }
                    }
                    assert forall|k: usize|
                        grown.to_set().contains(k) <==> (seen.to_set().contains(k) || k
                            == column) by {
                        if seen.contains(k) {
                            let a = choose|a: int| 0 <= a < seen.len() && seen[a] == k;
                            assert(grown[a] == k);
                        }
                        if k == column {
                            assert(grown[i as int] == k);
                        }
                        if grown.contains(k) {
                            let a = choose|a: int| 0 <= a < grown.len() && grown[a] == k;
                            if a < i {
                                assert(seen[a] == k);
                            }
                        }
                    }
                    assert(fields@ =~= non_key_fields(all, grown));
                }
                let ghost shorter = key@;
                key.push(text);
                proof {
                    assert(texts(shorter).len() == i);
                    assert(key@.len() == i + 1);
                    assert forall|a: int| 0 <= a < grown.len() implies texts(key@)[a] == row_key(
                        all,
                        grown,
                    )[a] by {
                        if a < i {
                            assert(key@[a] == shorter[a]);
                            assert(texts(shorter)[a] == row_key(all, seen)[a]);
                            assert(seen[a] == grown[a]);
                        } else {
                            assert(key@[a] == text);
                            assert(grown[a] == column);
                        }
                    }
                    assert(texts(key@) =~= row_key(all, grown));
                }
            },
            None => {
                proof {
                    if key_present(all, cols) {
                        assert(all.contains_key(cols[i as int]));
                        assert(seen.to_set().contains(column));
                        let a = choose|a: int| 0 <= a < seen.len() && seen[a] == column;
                        assert(cols[a] == cols[i as int]);
                        assert(false);
                    }
                    assert(!key_present(all, cols));
                }
                return None;
            },
        }
        i = i + 1;
    }
    assert(cols.take(i as int) =~= cols);
    Some(key)
}

/// One key value with its length written behind it.
pub open spec fn sealed(part: Seq<char>) -> Seq<char> {
    part + seq![':'] + decimal_text(part.len())
}

/// A key written as one text: its values in order, each with its length behind it, so
/// that no two keys are written alike.
pub open spec fn key_text(key: Seq<Seq<char>>) -> Seq<char>
    decreases key.len(),
{
    if key.len() == 0 {
        Seq::empty()
    } else {
        key_text(key.drop_last()) + sealed(key.last())
    }
}

/// How the text of a key ends: with its last value, a colon and the length of that
/// value in digits, after the text of the values before.
proof fn lemma_key_text_end(key: Seq<Seq<char>>)
    requires
        key.len() > 0,
    ensures
        ({
            let s = key_text(key);
            let n = s.len() as int;
            let part = key.last();
            let digits = decimal_text(part.len());
            let colon = n - digits.len() - 1;
            let from = colon - part.len();
            &&& is_digits(digits)
            &&& decimal_value(digits) == part.len()
            &&& from >= 0
            &&& s.subrange(0, from) == key_text(key.drop_last())
            &&& s.subrange(from, colon) == part
            &&& s[colon] == ':'
            &&& s.subrange(colon + 1, n) == digits
            &&& forall|i: int| colon < i < n ==> is_digit(#[trigger] s[i])
        }),
{
    let s = key_text(key);
    let n = s.len() as int;
    let part = key.last();
    let digits = decimal_text(part.len());
    let before = key_text(key.drop_last());
    let colon = n - digits.len() - 1;
    let from = colon - part.len();
    lemma_decimal_text_value(part.len());
    assert(s == before + (part + seq![':'] + digits));
    assert(from == before.len());
    assert(s.subrange(0, from) =~= before);
    assert(s.subrange(from, colon) =~= part);
    assert(s.subrange(colon + 1, n) =~= digits);
    assert forall|i: int| colon < i < n implies is_digit(#[trigger] s[i]) by {
        assert(s[i] == digits[i - colon - 1]);
    }
}

/// No two keys are written alike.
pub proof fn lemma_key_text_injective(a: Seq<Seq<char>>, b: Seq<Seq<char>>)
    requires
        key_text(a) == key_text(b),
    ensures
        a == b,
    decreases a.len(),
{
    if a.len() == 0 || b.len() == 0 {
        if a.len() > 0 {
            lemma_key_text_end(a);
        }
        if b.len() > 0 {
            lemma_key_text_end(b);
        }
        assert(a =~= b);
    } else {
        lemma_key_text_end(a);
        lemma_key_text_end(b);
        let s = key_text(a);
        let n = s.len() as int;
        let da = decimal_text(a.last().len());
        let db = decimal_text(b.last().len());
        if da.len() < db.len() {
            assert(is_digit(s[n - da.len() - 1]));
        }
        if db.len() < da.len() {
            assert(is_digit(s[n - db.len() - 1]));
        }
        assert(da == db);
        assert(a.last().len() == b.last().len());
        assert(a.last() == b.last());
        lemma_key_text_injective(a.drop_last(), b.drop_last());
        assert(a =~= a.drop_last().push(a.last()));
        assert(b =~= b.drop_last().push(b.last()));
    }
}

/// Writes a key as one text.
fn key_string(key: &Vec<String>) -> (r: String)
    ensures
        r@ == key_text(texts(key@)),
{
    let ghost all = texts(key@);
    let mut r = String::new();
    let mut i: usize = 0;
    assert(all.take(0) =~= Seq::<Seq<char>>::empty());
    while i < key.len()
        invariant
            i <= key@.len(),
            all == texts(key@),
            r@ == key_text(all.take(i as int)),
        decreases key@.len() - i,
    {
        let part = key[i].as_str();
        proof {
            reveal_strlit(":");
            assert(":"@ =~= seq![':']);
            assert(all.take(i + 1).drop_last() =~= all.take(i as int));
            assert(all.take(i + 1).last() == part@);
        }
        let ghost before = r@;
        r.append(part);
        r.append(":");
        r.append(decimal_string(part.unicode_len()).as_str());
        assert(r@ =~= before + sealed(part@));
        i = i + 1;
    }
    assert(all.take(i as int) =~= all);
    r
}

/// The changes that wait for their opposite, each under the text of the key of its row;
/// no row has two of them.
pub struct PendingChanges {
    changes: StringHashMap<RowChangeEvent>,
}

impl View for PendingChanges {
    type V = Map<Seq<Seq<char>>, EventView>;

    /// The pending change of each row.
    closed spec fn view(&self) -> Map<Seq<Seq<char>>, EventView> {
        Map::new(
            |k: Seq<Seq<char>>| self.changes@.contains_key(key_text(k)),
            |k: Seq<Seq<char>>| self.changes@[key_text(k)]@,
        )
    }
}

/// The key that is written as `s`, where `s` is the text of a key.
spec fn key_of(s: Seq<char>) -> Seq<Seq<char>> {
    choose|k: Seq<Seq<char>>| key_text(k) == s
}

impl PendingChanges {
    /// Finitely many changes are kept, each under the text of a key, and the values of
    /// each are well formed.
    pub closed spec fn wf(&self) -> bool {
        &&& self.changes@.dom().finite()
        &&& forall|s: Seq<char>| #[trigger]
            self.changes@.contains_key(s) ==> key_text(key_of(s)) == s
                && self.changes@[s].fields.wf()
    }

    /// The rows with a pending change are as many as the changes kept.
    proof fn lemma_len(&self)
        requires
            self.wf(),
        ensures
            self@.dom().finite(),
            self@.dom().len() == self.changes@.dom().len(),
    {
        let stored = self.changes@.dom();
        let rows = self@.dom();
        let back = |s: Seq<char>| key_of(s);
        assert(injective_on(back, stored)) by {
            assert forall|s1: Seq<char>, s2: Seq<char>|
                stored.contains(s1) && stored.contains(s2) && #[trigger] back(s1)
                    == #[trigger] back(s2) implies s1 == s2 by {
                assert(self.changes@.contains_key(s1));
                assert(self.changes@.contains_key(s2));
            }
        }
        assert forall|k: Seq<Seq<char>>| stored.map(back).contains(k) <==> rows.contains(k) by {
            if rows.contains(k) {
                let s = key_text(k);
                assert(self.changes@.contains_key(s));
                lemma_key_text_injective(key_of(s), k);
                assert(stored.contains(s) && k == back(s));
            }
            if stored.map(back).contains(k) {
                let s = choose|s: Seq<char>| stored.contains(s) && k == back(s);
                assert(self.changes@.contains_key(s));
            }
        }
        assert(stored.map(back) =~= rows);
        lemma_map_size(stored, rows, back);
    }

    /// A table without pending changes.
    pub fn new() -> (r: PendingChanges)
        ensures
            r.wf(),
            r@ == Map::<Seq<Seq<char>>, EventView>::empty(),
    {
        let r = PendingChanges { changes: StringHashMap::new() };
        assert(r@ =~= Map::<Seq<Seq<char>>, EventView>::empty());
        r
    }

    /// The number of rows with a pending change.
    pub fn len(&self) -> (r: usize)
        requires
            self.wf(),
        ensures
            self@.dom().finite(),
            r == self@.dom().len(),
    {
        proof {
            self.lemma_len();
        }
        self.changes.len()
    }

    /// Settles `event`, whose key columns have been taken out as `key`, against the
    /// pending change of its row.
    fn settle(&mut self, key: Vec<String>, event: RowChangeEvent) -> (r: MatchOutcome)
        requires
            old(self).wf(),
            event.fields.wf(),
        ensures
            final(self).wf(),
            r != MatchOutcome::MissingKeyColumn,
            !old(self)@.contains_key(texts(key@)) ==> r == MatchOutcome::Stored && final(self)@
                == old(self)@.insert(texts(key@), event@),
            old(self)@.contains_key(texts(key@)) && !old(self)@[texts(
                key@,
            )].operation.spec_is_opposite(event.operation) ==> r == MatchOutcome::Stored
                && final(self)@ == old(self)@,
            old(self)@.contains_key(texts(key@)) && old(self)@[texts(
                key@,
            )].operation.spec_is_opposite(event.operation) ==> final(self)@ == old(
                self,
            )@.remove(texts(key@)) && r == if old(self)@[texts(key@)].fields == event.fields@ {
                MatchOutcome::EmptyUpdate
            } else {
                MatchOutcome::RealUpdate
            },
    {
        let ghost before = *self;
        let ghost k = texts(key@);
        let ghost ev = event@;
        let written = key_string(&key);
        let found = match self.changes.get(written.as_str()) {
            None => None,
            Some(current) => if current.operation.is_opposite(event.operation) {
                Some(Some(current.fields.same_fields(&event.fields)))
            } else {
                Some(None)
            },
        };
        match found {
            None => {
                self.changes.insert(written, event);
                proof {
                    let after = *self;
                    assert forall|s: Seq<char>| #[trigger]
                        after.changes@.contains_key(s) implies key_text(key_of(s)) == s
                        && after.changes@[s].fields.wf() by {
                        if s == key_text(k) {
                            assert(key_text(k) == s);
                        } else {
                            assert(before.changes@.contains_key(s));
                        }
                    }
                    assert forall|q: Seq<Seq<char>>|
                        after@.contains_key(q) == #[trigger] before@.insert(k, ev).contains_key(q)
                            && (after@.contains_key(q) ==> after@[q] == before@.insert(k, ev)[q]) by {
                        if key_text(q) == key_text(k) {
                            lemma_key_text_injective(q, k);
                        }
                    }
                    assert(after@ =~= before@.insert(k, ev));
                }
                MatchOutcome::Stored
            },
            Some(None) => MatchOutcome::Stored,
            Some(Some(same)) => {
                self.changes.remove(written.as_str());
                proof {
                    let after = *self;
                    assert forall|s: Seq<char>| #[trigger]
                        after.changes@.contains_key(s) implies key_text(key_of(s)) == s
                        && after.changes@[s].fields.wf() by {
                        assert(before.changes@.contains_key(s));
                    }
                    assert forall|q: Seq<Seq<char>>|
                        after@.contains_key(q) == #[trigger] before@.remove(k).contains_key(q) && (
                        after@.contains_key(q) ==> after@[q] == before@[q]) by {
                        if key_text(q) == key_text(k) {
                            lemma_key_text_injective(q, k);
                        }
                    }
                    assert(after@ =~= before@.remove(k));
                }
                if same {
                    MatchOutcome::EmptyUpdate
                } else {
                    MatchOutcome::RealUpdate
                }
            },
        }
    }
}

/// Pairs each row change with the pending opposite change of the same row.
pub struct EmptyUpdateMatcher {
    key_columns: Vec<usize>,
    pending: PendingChanges,
}

impl EmptyUpdateMatcher {
    /// The columns whose values tell a row.
    pub closed spec fn key_columns(&self) -> Seq<usize> {
        self.key_columns@
    }

    /// The pending change of each row that has one.
    pub closed spec fn pending(&self) -> Map<Seq<Seq<char>>, EventView> {
        self.pending@
    }

    /// The pending changes are well formed.
    pub closed spec fn wf(&self) -> bool {
        self.pending.wf()
    }

    /// A matcher for rows told by `key_columns`, with nothing pending.
    pub fn new(key_columns: Vec<usize>) -> (r: EmptyUpdateMatcher)
        ensures
            r.wf(),
            r.key_columns() == key_columns@,
            r.pending() == Map::<Seq<Seq<char>>, EventView>::empty(),
    {
        EmptyUpdateMatcher { key_columns, pending: PendingChanges::new() }
    }

    /// Takes one row change and says what became of it.
    ///
    /// The key columns are taken out of the change's values and make the row's key. A
    /// change that lacks one is refused with `MissingKeyColumn`. Where nothing is
    /// pending for the row, the change is kept. Where the pending change is its opposite,
    /// the pair is resolved and leaves the table: `EmptyUpdate` where the other columns
    /// are equal, `RealUpdate` where they are not. In the remaining case the pending
    /// change stays and the new one is dropped.
    pub fn observe(&mut self, event: RowChangeEvent) -> (r: MatchOutcome)
        requires
            old(self).wf(),
            event.fields.wf(),
        ensures
            final(self).wf(),
            final(self).key_columns() == old(self).key_columns(),
            (final(self).pending(), r) == spec_observe(
                old(self).pending(),
                old(self).key_columns(),
                event@,
            ),
    {
        let mut event = event;
        let ghost whole = event@;
        match take_key(&self.key_columns, &mut event.fields) {
            None => MatchOutcome::MissingKeyColumn,
            Some(key) => {
                assert(event@ == (EventView {
                    operation: whole.operation,
                    fields: non_key_fields(whole.fields, self.key_columns@),
                }));
                self.pending.settle(key, event)
            },
        }
    }

    /// The number of rows whose change is still pending.
    pub fn remaining(&self) -> (r: usize)
        requires
            self.wf(),
        ensures
            self.pending().dom().finite(),
            r == self.pending().dom().len(),
    {
        self.pending.len()
    }
}

/// An update is opposite to nothing, and no operation is opposite to itself.
pub proof fn lemma_never_opposite(op: BinlogOperation)
    ensures
        !op.spec_is_opposite(op),
        !op.spec_is_opposite(BinlogOperation::Update),
        !BinlogOperation::Update.spec_is_opposite(op),
{
}

/// Being opposite is symmetric.
pub proof fn lemma_opposite_symmetric(a: BinlogOperation, b: BinlogOperation)
    ensures
        a.spec_is_opposite(b) == b.spec_is_opposite(a),
{
}

/// Two opposite changes on one row resolve each other.
///
/// Where nothing is pending for the row, the first change is stored and the second
/// resolves the pair: as an empty update exactly where both hold the same values outside
/// the key columns, as a real update otherwise. Afterwards the table is as it was.
pub proof fn lemma_opposite_pair_resolves(
    pending: Map<Seq<Seq<char>>, EventView>,
    key_columns: Seq<usize>,
    first: EventView,
    second: EventView,
)
    requires
        first.operation.spec_is_opposite(second.operation),
        key_present(first.fields, key_columns),
        key_present(second.fields, key_columns),
        row_key(first.fields, key_columns) == row_key(second.fields, key_columns),
        !pending.contains_key(row_key(first.fields, key_columns)),
    ensures
        spec_observe(pending, key_columns, first).1 == MatchOutcome::Stored,
        spec_observe(spec_observe(pending, key_columns, first).0, key_columns, second) == (
            pending,
            if non_key_fields(first.fields, key_columns) == non_key_fields(
                second.fields,
                key_columns,
            ) {
                MatchOutcome::EmptyUpdate
            } else {
                MatchOutcome::RealUpdate
            },
        ),
{
    let key = row_key(first.fields, key_columns);
    let stored = EventView {
        operation: first.operation,
        fields: non_key_fields(first.fields, key_columns),
    };
    assert(pending.insert(key, stored).remove(key) =~= pending);
}

/// Changing one value outside the key columns changes what is left of a row beside its
/// key, and leaves the key as it is.
pub proof fn lemma_changed_value_differs(
    fields: Map<usize, Seq<char>>,
    key_columns: Seq<usize>,
    column: usize,
    text: Seq<char>,
)
    requires
        key_present(fields, key_columns),
        !key_columns.contains(column),
        fields.contains_key(column),
        fields[column] != text,
    ensures
        key_present(fields.insert(column, text), key_columns),
        row_key(fields.insert(column, text), key_columns) == row_key(fields, key_columns),
        non_key_fields(fields.insert(column, text), key_columns) != non_key_fields(
            fields,
            key_columns,
        ),
{
    let changed = fields.insert(column, text);
    assert forall|i: int| 0 <= i < key_columns.len() implies changed.contains_key(
        #[trigger] key_columns[i],
    ) by {
        assert(fields.contains_key(key_columns[i]));
    }
    assert forall|i: int| 0 <= i < key_columns.len() implies row_key(changed, key_columns)[i]
        == row_key(fields, key_columns)[i] by {
        assert(key_columns.contains(key_columns[i]));
    }
    assert(row_key(changed, key_columns) =~= row_key(fields, key_columns));
    assert(non_key_fields(changed, key_columns)[column] == text);
    assert(non_key_fields(fields, key_columns)[column] == fields[column]);
}

/// An opposite pair on one row that agrees outside the key columns is an empty update,
/// and is a real update as soon as one such value is changed in either change.
pub proof fn lemma_empty_update_until_changed(
    pending: Map<Seq<Seq<char>>, EventView>,
    key_columns: Seq<usize>,
    first: EventView,
    second: EventView,
    column: usize,
    text: Seq<char>,
)
    requires
        first.operation.spec_is_opposite(second.operation),
        key_present(first.fields, key_columns),
        key_present(second.fields, key_columns),
        row_key(first.fields, key_columns) == row_key(second.fields, key_columns),
        non_key_fields(first.fields, key_columns) == non_key_fields(second.fields, key_columns),
        !pending.contains_key(row_key(first.fields, key_columns)),
        !key_columns.contains(column),
        first.fields.contains_key(column),
        first.fields[column] != text,
    ensures
        spec_observe(spec_observe(pending, key_columns, first).0, key_columns, second).1
            == MatchOutcome::EmptyUpdate,
        ({
            let changed = EventView {
                operation: second.operation,
                fields: second.fields.insert(column, text),
            };
            spec_observe(spec_observe(pending, key_columns, first).0, key_columns, changed).1
                == MatchOutcome::RealUpdate
        }),
        ({
            let changed = EventView {
                operation: first.operation,
                fields: first.fields.insert(column, text),
            };
            spec_observe(spec_observe(pending, key_columns, changed).0, key_columns, second).1
                == MatchOutcome::RealUpdate
        }),
{
    lemma_opposite_pair_resolves(pending, key_columns, first, second);
    assert(second.fields.contains_key(column) && second.fields[column] == first.fields[column])
        by {
        assert(non_key_fields(first.fields, key_columns).contains_key(column));
        assert(non_key_fields(second.fields, key_columns)[column] == first.fields[column]);
    }
    lemma_changed_value_differs(second.fields, key_columns, column, text);
    lemma_changed_value_differs(first.fields, key_columns, column, text);
    let changed_second = EventView {
        operation: second.operation,
        fields: second.fields.insert(column, text),
    };
    lemma_opposite_pair_resolves(pending, key_columns, first, changed_second);
    let changed_first = EventView {
        operation: first.operation,
        fields: first.fields.insert(column, text),
    };
    lemma_opposite_pair_resolves(pending, key_columns, changed_first, second);
}

/// A change that is not the opposite of the pending change of its row resolves nothing:
/// the outcome is `Stored` and the table stays as it is.
pub proof fn lemma_not_opposite_keeps_pending(
    pending: Map<Seq<Seq<char>>, EventView>,
    key_columns: Seq<usize>,
    event: EventView,
)
    requires
        key_present(event.fields, key_columns),
        pending.contains_key(row_key(event.fields, key_columns)),
        !pending[row_key(event.fields, key_columns)].operation.spec_is_opposite(
            event.operation,
        ),
    ensures
        spec_observe(pending, key_columns, event) == (pending, MatchOutcome::Stored),
{
}

/// Two changes on one row of which neither undoes the other, as where both are of one
/// kind or one is an update: the first is stored, and the second neither resolves it nor
/// takes its place.
pub proof fn lemma_same_direction_pair_keeps_first(
    pending: Map<Seq<Seq<char>>, EventView>,
    key_columns: Seq<usize>,
    first: EventView,
    second: EventView,
)
    requires
        !first.operation.spec_is_opposite(second.operation),
        key_present(first.fields, key_columns),
        key_present(second.fields, key_columns),
        row_key(first.fields, key_columns) == row_key(second.fields, key_columns),
        !pending.contains_key(row_key(first.fields, key_columns)),
    ensures
        ({
            let (stored, outcome1) = spec_observe(pending, key_columns, first);
            let (kept, outcome2) = spec_observe(stored, key_columns, second);
            &&& outcome1 == MatchOutcome::Stored
            &&& outcome2 == MatchOutcome::Stored
            &&& kept == stored
            &&& kept[row_key(first.fields, key_columns)] == EventView {
                operation: first.operation,
                fields: non_key_fields(first.fields, key_columns),
            }
        }),
{
}

} // verus!
