//! Column values of one row change, kept by column index.

use vstd::prelude::*;
use vstd::string::*;
use crate::binlog::BinlogOperation;

verus! {

/// One column value as the dump gives it.
#[derive(Debug)]
pub struct FieldValue {
    pub column_index: usize,
    pub raw_text: String,
}

/// The values of a row, each under its column index. No index occurs twice.
#[derive(Debug)]
pub struct FieldMap {
    entries: Vec<FieldValue>,
}

impl View for FieldMap {
    type V = Map<usize, Seq<char>>;

    /// The text stored under each column index.
    closed spec fn view(&self) -> Map<usize, Seq<char>> {
        Map::new(
            |k: usize| self.slot_of(k) >= 0,
            |k: usize| self.entries@[self.slot_of(k)].raw_text@,
        )
    }
}

impl FieldMap {
    /// Some place in the list where `k` stands, or -1 where it stands nowhere.
    spec fn slot_of(&self, k: usize) -> int {
        if exists|i: int| 0 <= i < self.entries@.len() && self.entries@[i].column_index == k {
            choose|i: int| 0 <= i < self.entries@.len() && self.entries@[i].column_index == k
        } else {
            -1
        }
    }

    /// No column index stands in the list twice.
    pub closed spec fn wf(&self) -> bool {
        forall|i: int, j: int|
            0 <= i < j < self.entries@.len() ==> self.entries@[i].column_index
                != self.entries@[j].column_index
    }

    /// In a well-formed list, the place of a column index is the one place where it stands.
    proof fn lemma_slot(&self, i: int)
        requires
            self.wf(),
            0 <= i < self.entries@.len(),
        ensures
            self.slot_of(self.entries@[i].column_index) == i,
            self@.contains_key(self.entries@[i].column_index),
            self@[self.entries@[i].column_index] == self.entries@[i].raw_text@,
    {
        let k = self.entries@[i].column_index;
        let j = self.slot_of(k);
        assert(0 <= j < self.entries@.len() && self.entries@[j].column_index == k);
        if i < j {
            assert(self.entries@[i].column_index != self.entries@[j].column_index);
        }
        if j < i {
            assert(self.entries@[j].column_index != self.entries@[i].column_index);
        }
    }

    /// A key of the map stands in the list, at its place.
    proof fn lemma_present(&self, k: usize)
        requires
            self@.contains_key(k),
        ensures
            0 <= self.slot_of(k) < self.entries@.len(),
            self.entries@[self.slot_of(k)].column_index == k,
            self@[k] == self.entries@[self.slot_of(k)].raw_text@,
    {
    }

    /// A column index that stands nowhere in the list is no key of the map.
    proof fn lemma_absent(&self, k: usize)
        requires
            forall|i: int| 0 <= i < self.entries@.len() ==> self.entries@[i].column_index != k,
        ensures
            !self@.contains_key(k),
    {
    }

    /// A map without values.
    pub fn new() -> (r: FieldMap)
        ensures
            r.wf(),
            r@ == Map::<usize, Seq<char>>::empty(),
    {
        let r = FieldMap { entries: Vec::new() };
        assert(r@ =~= Map::<usize, Seq<char>>::empty());
        r
    }

    /// Where `column_index` stands in the list.
    fn position(&self, column_index: usize) -> (r: Option<usize>)
        requires
            self.wf(),
        ensures
            match r {
                Some(i) => i < self.entries@.len() && self.entries@[i as int].column_index
                    == column_index && self@.contains_key(column_index) && self@[column_index]
                    == self.entries@[i as int].raw_text@,
                None => !self@.contains_key(column_index) && forall|i: int|
                    0 <= i < self.entries@.len() ==> self.entries@[i].column_index
                        != column_index,
            },
    {
        let mut i: usize = 0;
        while i < self.entries.len()
            invariant
                self.wf(),
                i <= self.entries@.len(),
                forall|j: int| 0 <= j < i ==> self.entries@[j].column_index != column_index,
            decreases self.entries@.len() - i,
        {
            if self.entries[i].column_index == column_index {
                proof {
                    self.lemma_slot(i as int);
                }
                return Some(i);
            }
            i = i + 1;
        }
        proof {
            self.lemma_absent(column_index);
        }
        None
    }

    /// Tells whether a value is stored under `column_index`.
    pub fn contains_key(&self, column_index: usize) -> (r: bool)
        requires
            self.wf(),
        ensures
            r == self@.contains_key(column_index),
    {
        self.position(column_index).is_some()
    }

    /// The value stored under `column_index`, if there is one.
    pub fn get(&self, column_index: usize) -> (r: Option<&String>)
        requires
            self.wf(),
        ensures
            match r {
                Some(text) => self@.contains_key(column_index) && text@ == self@[column_index],
                None => !self@.contains_key(column_index),
            },
    {
        match self.position(column_index) {
            Some(i) => Some(&self.entries[i].raw_text),
            None => None,
        }
    }

    /// Stores `raw_text` under `column_index`, in place of what was stored there.
    pub fn insert(&mut self, column_index: usize, raw_text: String)
        requires
            old(self).wf(),
        ensures
            final(self).wf(),
            final(self)@ == old(self)@.insert(column_index, raw_text@),
    {
        let ghost before = *self;
        let ghost text = raw_text@;
        let ghost mut pos: int = 0;
        match self.position(column_index) {
            Some(i) => {
                proof {
                    pos = i as int;
                }
                self.entries.set(i, FieldValue { column_index, raw_text });
            },
            None => {
                proof {
                    pos = before.entries@.len() as int;
                }
                self.entries.push(FieldValue { column_index, raw_text });
            },
        }
        proof {
            let after = *self;
            assert(after.entries@[pos].column_index == column_index);
            assert(after.entries@[pos].raw_text@ == text);
            assert(forall|j: int|
                0 <= j < before.entries@.len() && j != pos ==> after.entries@[j]
                    == before.entries@[j]);
            assert(after.wf());
            after.lemma_slot(pos);
            assert forall|k: usize|
                after@.contains_key(k) == #[trigger] before@.insert(
                    column_index,
                    text,
                ).contains_key(k) && (after@.contains_key(k) ==> after@[k] == before@.insert(
                    column_index,
                    text,
                )[k]) by {
                if k != column_index {
                    if before@.contains_key(k) {
                        before.lemma_present(k);
                        let j = before.slot_of(k);
                        before.lemma_slot(j);
                        after.lemma_slot(j);
                    }
                    if after@.contains_key(k) {
                        after.lemma_present(k);
                        let j = after.slot_of(k);
                        after.lemma_slot(j);
                        before.lemma_slot(j);
                    }
                }
            }
            assert(after@ =~= before@.insert(column_index, text));
        }
    }

    /// Takes out the value stored under `column_index` and returns it, if there is one.
    pub fn remove(&mut self, column_index: usize) -> (r: Option<String>)
        requires
            old(self).wf(),
        ensures
            final(self).wf(),
            final(self)@ == old(self)@.remove(column_index),
            match r {
                Some(text) => old(self)@.contains_key(column_index) && text@ == old(
                    self,
                )@[column_index],
                None => !old(self)@.contains_key(column_index),
            },
    {
        let ghost before = *self;
        match self.position(column_index) {
            Some(i) => {
                let entry = self.entries.remove(i);
                proof {
                    let after = *self;
                    assert(after.wf());
                    assert forall|k: usize| #[trigger]
                        after@.contains_key(k) == before@.remove(column_index).contains_key(k)
                            && (after@.contains_key(k) ==> after@[k] == before@[k]) by {
                        if before@.contains_key(k) && k != column_index {
                            before.lemma_present(k);
                            let j = before.slot_of(k);
                            before.lemma_slot(j);
                            if j < i {
                                after.lemma_slot(j);
                            } else {
                                after.lemma_slot(j - 1);
                            }
                        }
                        if after@.contains_key(k) {
                            after.lemma_present(k);
                            let j = after.slot_of(k);
                            after.lemma_slot(j);
                            if j < i {
                                before.lemma_slot(j);
                            } else {
                                before.lemma_slot(j + 1);
                            }
                        }
                    }
                    assert(after@ =~= before@.remove(column_index));
                }
                Some(entry.raw_text)
            },
            None => {
                assert(self@ =~= before@.remove(column_index));
                None
            },
        }
    }

    /// Tells whether every value of `self` is stored in `other` under the same index.
    fn within(&self, other: &FieldMap) -> (r: bool)
        requires
            self.wf(),
            other.wf(),
        ensures
            r == (forall|k: usize| #[trigger]
                self@.contains_key(k) ==> other@.contains_key(k) && other@[k] == self@[k]),
    {
        let mut i: usize = 0;
        while i < self.entries.len()
            invariant
                self.wf(),
                other.wf(),
                i <= self.entries@.len(),
                forall|j: int|
                    0 <= j < i ==> other@.contains_key(#[trigger] self.entries@[j].column_index)
                        && other@[self.entries@[j].column_index] == self.entries@[j].raw_text@,
            decreases self.entries@.len() - i,
        {
            let entry = &self.entries[i];
            proof {
                self.lemma_slot(i as int);
            }
            let same = match other.get(entry.column_index) {
                Some(text) => *text == entry.raw_text,
                None => false,
            };
            if !same {
                return false;
            }
            i = i + 1;
        }
        assert forall|k: usize| #[trigger] self@.contains_key(k) implies other@.contains_key(k)
            && other@[k] == self@[k] by {
            self.lemma_present(k);
            self.lemma_slot(self.slot_of(k));
        }
        true
    }

    /// Tells whether two maps hold the same values under the same column indices.
    pub fn same_fields(&self, other: &FieldMap) -> (r: bool)
        requires
            self.wf(),
            other.wf(),
        ensures
            r == (self@ == other@),
    {
        let r = self.within(other) && other.within(self);
        proof {
            if r {
                assert(self@ =~= other@);
            }
        }
        r
    }
}

/// One assembled row change: the kind of change and the values of the row.
#[derive(Debug)]
pub struct RowChangeEvent {
    pub operation: BinlogOperation,
    pub fields: FieldMap,
}

/// The mathematical content of a [`RowChangeEvent`].
pub struct EventView {
    pub operation: BinlogOperation,
    pub fields: Map<usize, Seq<char>>,
}

impl View for RowChangeEvent {
    type V = EventView;

    open spec fn view(&self) -> EventView {
        EventView { operation: self.operation, fields: self.fields@ }
    }
}

} // verus!
