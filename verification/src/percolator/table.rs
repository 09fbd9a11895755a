//! The three-column table that stands in for Bigtable.
//!
//! Each column maps a cell, a user key together with a timestamp, to a value.
//! A column is kept as a vector of records in which no cell occurs twice; its
//! mathematical value is the map from cells to the views of their values.
use vstd::prelude::*;
use vstd::slice::slice_to_vec;

verus! {

/// A cell of the table: the user's key and a timestamp.
pub type Key = (Vec<u8>, u64);

/// What a cell holds. A commit record holds the start timestamp of the
/// transaction that wrote the data; data and lock cells hold bytes.
pub enum Value {
    Timestamp(u64),
    Vector(Vec<u8>),
}

/// The mathematical value of a `Value`.
pub enum ValueView {
    Timestamp(u64),
    Vector(Seq<u8>),
}

impl View for Value {
    type V = ValueView;

    open spec fn view(&self) -> ValueView {
        match self {
            Value::Timestamp(t) => ValueView::Timestamp(*t),
            Value::Vector(v) => ValueView::Vector(v@),
        }
    }
}

impl Clone for Value {
    fn clone(&self) -> (copy: Self)
        ensures
            copy@ == self@,
    {
        match self {
            Value::Timestamp(t) => Value::Timestamp(*t),
            Value::Vector(v) => Value::Vector(slice_to_vec(v.as_slice())),
        }
    }
}

/// One mutation of a transaction: a key and the value to give it.
#[derive(Debug, Clone)]
pub struct Write(pub Vec<u8>, pub Vec<u8>);

/// The three columns of the table.
#[derive(Clone, Copy, PartialEq, Eq, Structural, Debug)]
pub enum Column {
    Write,
    Data,
    Lock,
}

/// A cell as a mathematical value.
pub type Cell = (Seq<u8>, u64);

/// The contents of one column.
pub type ColumnMap = Map<Cell, ValueView>;

/// The mathematical value of the table: one map per column.
pub struct TableView {
    pub write: ColumnMap,
    pub data: ColumnMap,
    pub lock: ColumnMap,
}

impl TableView {
    /// The map of column `c`.
    pub open spec fn column(self, c: Column) -> ColumnMap {
        match c {
            Column::Write => self.write,
            Column::Data => self.data,
            Column::Lock => self.lock,
        }
    }

    /// This table with column `c` replaced by `m`.
    pub open spec fn with_column(self, c: Column, m: ColumnMap) -> TableView {
        match c {
            Column::Write => TableView { write: m, ..self },
            Column::Data => TableView { data: m, ..self },
            Column::Lock => TableView { lock: m, ..self },
        }
    }
}

/// Whether `ts` lies in the range given by two optional inclusive bounds.
pub open spec fn in_range(ts: u64, lo: Option<u64>, hi: Option<u64>) -> bool {
    &&& (match lo {
        Some(l) => l <= ts,
        None => true,
    })
    &&& (match hi {
        Some(h) => ts <= h,
        None => true,
    })
}

/// `t` is the newest timestamp of `key` in `m` within the range.
pub open spec fn is_latest(m: ColumnMap, key: Seq<u8>, lo: Option<u64>, hi: Option<u64>, t: u64) -> bool {
    &&& in_range(t, lo, hi)
    &&& m.contains_key((key, t))
    &&& forall|u: u64| #[trigger] in_range(u, lo, hi) && m.contains_key((key, u)) ==> u <= t
}

/// The newest timestamp of `key` in `m` within the range, if there is one.
pub open spec fn latest(m: ColumnMap, key: Seq<u8>, lo: Option<u64>, hi: Option<u64>) -> Option<u64> {
    if exists|t: u64| is_latest(m, key, lo, hi, t) {
        Some(choose|t: u64| is_latest(m, key, lo, hi, t))
    } else {
        None
    }
}

/// A newest timestamp is the only one.
pub proof fn lemma_latest_is(m: ColumnMap, key: Seq<u8>, lo: Option<u64>, hi: Option<u64>, t: u64)
    requires
        is_latest(m, key, lo, hi, t),
    ensures
        latest(m, key, lo, hi) == Some(t),
{
    let c = choose|u: u64| is_latest(m, key, lo, hi, u);
    assert(is_latest(m, key, lo, hi, c));
    assert(in_range(t, lo, hi));
    assert(in_range(c, lo, hi));
}

/// Without a cell in the range there is no newest one.
pub proof fn lemma_latest_none(m: ColumnMap, key: Seq<u8>, lo: Option<u64>, hi: Option<u64>)
    requires
        forall|u: u64| in_range(u, lo, hi) ==> !m.contains_key((key, u)),
    ensures
        latest(m, key, lo, hi) is None,
{
}

/// What `latest` gives back is the newest timestamp.
pub proof fn lemma_latest_some(m: ColumnMap, key: Seq<u8>, lo: Option<u64>, hi: Option<u64>)
    requires
        latest(m, key, lo, hi) is Some,
    ensures
        is_latest(m, key, lo, hi, latest(m, key, lo, hi)->0),
{
}

/// The cell that a record occupies.
pub open spec fn cell_of(r: (Key, Value)) -> Cell {
    (r.0.0@, r.0.1)
}

/// No cell occurs twice.
pub open spec fn distinct_cells(s: Seq<(Key, Value)>) -> bool {
    forall|i: int, j: int|
        0 <= i < s.len() && 0 <= j < s.len() && i != j ==> cell_of(#[trigger] s[i]) != cell_of(
            #[trigger] s[j],
        )
}

/// Some record occupies cell `k`.
pub open spec fn has_cell(s: Seq<(Key, Value)>, k: Cell) -> bool {
    exists|i: int| 0 <= i < s.len() && cell_of(#[trigger] s[i]) == k
}

/// The map that a vector of records stands for.
pub open spec fn column_map(s: Seq<(Key, Value)>) -> ColumnMap {
    Map::new(
        |k: Cell| has_cell(s, k),
        |k: Cell| s[choose|i: int| 0 <= i < s.len() && cell_of(#[trigger] s[i]) == k].1@,
    )
}

/// A record is found in the map at its own cell, with its own value.
proof fn lemma_record_in_map(s: Seq<(Key, Value)>, i: int)
    requires
        distinct_cells(s),
        0 <= i < s.len(),
    ensures
        column_map(s).contains_key(cell_of(s[i])),
        column_map(s)[cell_of(s[i])] == s[i].1@,
{
    let k = cell_of(s[i]);
    assert(has_cell(s, k));
    let j = choose|j: int| 0 <= j < s.len() && cell_of(#[trigger] s[j]) == k;
    assert(j == i);
}

/// Every cell of the map is occupied by a record.
proof fn lemma_map_cell_has_record(s: Seq<(Key, Value)>, k: Cell)
    requires
        column_map(s).contains_key(k),
    ensures
        exists|i: int| 0 <= i < s.len() && cell_of(#[trigger] s[i]) == k,
{
}

/// Whether two byte strings are equal.
pub fn bytes_eq(a: &[u8], b: &[u8]) -> (eq: bool)
    ensures
        eq == (a@ == b@),
{
    if a.len() != b.len() {
        return false;
    }
    let mut i: usize = 0;
    while i < a.len()
        invariant
            a.len() == b.len(),
            i <= a.len(),
            forall|j: int| 0 <= j < i ==> a@[j] == b@[j],
        decreases a.len() - i,
    {
        if a[i] != b[i] {
            return false;
        }
        i = i + 1;
    }
    assert(a@ =~= b@);
    true
}

/// The position of the record at cell `(key, ts)`, if there is one.
fn find_cell(col: &Vec<(Key, Value)>, key: &Vec<u8>, ts: u64) -> (pos: Option<usize>)
    ensures
        match pos {
            Some(i) => i < col.len() && cell_of(col@[i as int]) == (key@, ts),
            None => !has_cell(col@, (key@, ts)),
        },
{
    let mut i: usize = 0;
    while i < col.len()
        invariant
            i <= col.len(),
            forall|j: int| 0 <= j < i ==> cell_of(#[trigger] col@[j]) != (key@, ts),
        decreases col.len() - i,
    {
        if col[i].0.1 == ts && bytes_eq(col[i].0.0.as_slice(), key.as_slice()) {
            return Some(i);
        }
        i = i + 1;
    }
    None
}

/// Gives cell `(key, ts)` the value `value`, in place or as a new record.
fn put_cell(col: &mut Vec<(Key, Value)>, key: Vec<u8>, ts: u64, value: Value)
    requires
        distinct_cells(old(col)@),
    ensures
        distinct_cells(final(col)@),
        column_map(final(col)@) == column_map(old(col)@).insert((key@, ts), value@),
{
    let ghost k: Cell = (key@, ts);
    let ghost before = col@;
    let pos = find_cell(col, &key, ts);
    match pos {
        Some(i) => {
            col.set(i, ((key, ts), value));
        },
        None => {
            col.push(((key, ts), value));
        },
    }
    let ghost after = col@;
    assert(distinct_cells(after));
    let ghost target = column_map(before).insert(k, value@);
    assert forall|c: Cell| #[trigger] column_map(after).contains_key(c) == target.contains_key(c) by {
        if column_map(after).contains_key(c) {
            lemma_map_cell_has_record(after, c);
            let j = choose|j: int| 0 <= j < after.len() && cell_of(#[trigger] after[j]) == c;
            if c != k {
                assert(before[j] == after[j]);
                lemma_record_in_map(before, j);
            }
        }
        if target.contains_key(c) && c != k {
            lemma_map_cell_has_record(before, c);
            let j = choose|j: int| 0 <= j < before.len() && cell_of(#[trigger] before[j]) == c;
            assert(after[j] == before[j]);
            lemma_record_in_map(after, j);
        }
        if c == k {
            let j = match pos {
                Some(i) => i as int,
                None => before.len() as int,
            };
            lemma_record_in_map(after, j);
        }
    }
    assert forall|c: Cell| #[trigger] column_map(after).contains_key(c) implies column_map(after)[c]
        == target[c] by {
        lemma_map_cell_has_record(after, c);
        let j = choose|j: int| 0 <= j < after.len() && cell_of(#[trigger] after[j]) == c;
        lemma_record_in_map(after, j);
        if c != k {
            assert(before[j] == after[j]);
            lemma_record_in_map(before, j);
        }
    }
    assert(column_map(after) =~= target);
}

/// Removes the record at cell `(key, ts)`, if there is one.
fn remove_cell(col: &mut Vec<(Key, Value)>, key: &Vec<u8>, ts: u64)
    requires
        distinct_cells(old(col)@),
    ensures
        distinct_cells(final(col)@),
        column_map(final(col)@) == column_map(old(col)@).remove((key@, ts)),
{
    let ghost k: Cell = (key@, ts);
    let ghost before = col@;
    let pos = find_cell(col, key, ts);
    match pos {
        Some(i) => {
            col.remove(i);
            let ghost after = col@;
            assert(forall|j: int| 0 <= j < i ==> after[j] == before[j]);
            assert(forall|j: int| i <= j < after.len() ==> after[j] == before[j + 1]);
            assert(distinct_cells(after)) by {
                assert forall|a: int, b: int|
                    0 <= a < after.len() && 0 <= b < after.len() && a != b implies cell_of(
                    #[trigger] after[a],
                ) != cell_of(#[trigger] after[b]) by {
                    let a0 = if a < i { a } else { a + 1 };
                    let b0 = if b < i { b } else { b + 1 };
                    assert(after[a] == before[a0]);
                    assert(after[b] == before[b0]);
                }
            }
            let ghost target = column_map(before).remove(k);
            assert forall|c: Cell| #[trigger] column_map(after).contains_key(c) == target.contains_key(c) by {
                if column_map(after).contains_key(c) {
                    lemma_map_cell_has_record(after, c);
                    let j = choose|j: int| 0 <= j < after.len() && cell_of(#[trigger] after[j]) == c;
                    let j0 = if j < i { j } else { j + 1 };
                    assert(after[j] == before[j0]);
                    lemma_record_in_map(before, j0);
                    assert(j0 != i);
                }
                if target.contains_key(c) {
                    lemma_map_cell_has_record(before, c);
                    let j = choose|j: int| 0 <= j < before.len() && cell_of(#[trigger] before[j]) == c;
                    assert(j != i);
                    let j1 = if j < i { j } else { j - 1 };
                    assert(after[j1] == before[j]);
                    lemma_record_in_map(after, j1);
                }
            }
            assert forall|c: Cell| #[trigger] column_map(after).contains_key(c) implies column_map(
                after,
            )[c] == target[c] by {
                lemma_map_cell_has_record(after, c);
                let j = choose|j: int| 0 <= j < after.len() && cell_of(#[trigger] after[j]) == c;
                lemma_record_in_map(after, j);
                let j0 = if j < i { j } else { j + 1 };
                assert(after[j] == before[j0]);
                lemma_record_in_map(before, j0);
            }
            assert(column_map(after) =~= target);
        },
        None => {
            assert(column_map(before).remove(k) =~= column_map(before));
        },
    }
}

/// The newest record of `key` within the range, as its position.
fn latest_position(col: &Vec<(Key, Value)>, key: &Vec<u8>, lo: Option<u64>, hi: Option<u64>) -> (pos:
    Option<usize>)
    requires
        distinct_cells(col@),
    ensures
        match pos {
            Some(i) => {
                &&& i < col.len()
                &&& col@[i as int].0.0@ == key@
                &&& is_latest(column_map(col@), key@, lo, hi, col@[i as int].0.1)
                &&& column_map(col@)[(key@, col@[i as int].0.1)] == col@[i as int].1@
            },
            None => forall|u: u64| in_range(u, lo, hi) ==> !column_map(col@).contains_key((key@, u)),
        },
{
    let mut best: Option<usize> = None;
    let mut i: usize = 0;
    while i < col.len()
        invariant
            i <= col.len(),
            match best {
                Some(b) => {
                    &&& b < i
                    &&& col@[b as int].0.0@ == key@
                    &&& in_range(col@[b as int].0.1, lo, hi)
                    &&& forall|j: int|
                        0 <= j < i && #[trigger] col@[j].0.0@ == key@ && in_range(col@[j].0.1, lo, hi)
                            ==> col@[j].0.1 <= col@[b as int].0.1
                },
                None => forall|j: int|
                    0 <= j < i && #[trigger] col@[j].0.0@ == key@ ==> !in_range(col@[j].0.1, lo, hi),
            },
        decreases col.len() - i,
    {
        let ts = col[i].0.1;
        let fits = match lo {
            Some(l) => l <= ts,
            None => true,
        } && match hi {
            Some(h) => ts <= h,
            None => true,
        };
        if fits && bytes_eq(col[i].0.0.as_slice(), key.as_slice()) {
            let better = match best {
                Some(b) => col[b].0.1 < ts,
                None => true,
            };
            if better {
                best = Some(i);
            }
        }
        i = i + 1;
    }
    let ghost m = column_map(col@);
    match best {
        Some(b) => {
            proof {
                lemma_record_in_map(col@, b as int);
                assert forall|u: u64| #[trigger] in_range(u, lo, hi) && m.contains_key((key@, u)) implies u
                    <= col@[b as int].0.1 by {
                    lemma_map_cell_has_record(col@, (key@, u));
                    let j = choose|j: int| 0 <= j < col@.len() && cell_of(#[trigger] col@[j]) == (key@, u);
                    assert(col@[j].0.0@ == key@);
                }
            }
        },
        None => {
            proof {
                assert forall|u: u64| in_range(u, lo, hi) implies !m.contains_key((key@, u)) by {
                    if m.contains_key((key@, u)) {
                        lemma_map_cell_has_record(col@, (key@, u));
                        let j = choose|j: int| 0 <= j < col@.len() && cell_of(#[trigger] col@[j]) == (key@, u);
                        assert(col@[j].0.0@ == key@);
                    }
                }
            }
        },
    }
    best
}

/// Cell `(key, c)` of the write column records a commit of the transaction
/// that started at `start`.
pub open spec fn is_commit_record(w: ColumnMap, key: Seq<u8>, start: u64, c: u64) -> bool {
    w.contains_key((key, c)) && w[(key, c)] == ValueView::Timestamp(start)
}

/// `c` is the newest commit of that transaction on `key`.
pub open spec fn is_newest_commit(w: ColumnMap, key: Seq<u8>, start: u64, c: u64) -> bool {
    &&& is_commit_record(w, key, start, c)
    &&& forall|d: u64| #[trigger] is_commit_record(w, key, start, d) ==> d <= c
}

/// The newest commit timestamp on `key` of the transaction that started at
/// `start`, if it committed there.
pub open spec fn commit_of(w: ColumnMap, key: Seq<u8>, start: u64) -> Option<u64> {
    if exists|c: u64| is_newest_commit(w, key, start, c) {
        Some(choose|c: u64| is_newest_commit(w, key, start, c))
    } else {
        None
    }
}

/// A newest commit is the only one.
pub proof fn lemma_commit_of_is(w: ColumnMap, key: Seq<u8>, start: u64, c: u64)
    requires
        is_newest_commit(w, key, start, c),
    ensures
        commit_of(w, key, start) == Some(c),
{
    let d = choose|d: u64| is_newest_commit(w, key, start, d);
    assert(is_newest_commit(w, key, start, d));
    assert(is_commit_record(w, key, start, c));
    assert(is_commit_record(w, key, start, d));
}

/// The position of the newest record of the write column that commits the
/// transaction started at `start` on `key`.
fn newest_commit_position(col: &Vec<(Key, Value)>, key: &Vec<u8>, start: u64) -> (pos: Option<usize>)
    requires
        distinct_cells(col@),
    ensures
        match pos {
            Some(i) => {
                &&& i < col.len()
                &&& col@[i as int].0.0@ == key@
                &&& is_newest_commit(column_map(col@), key@, start, col@[i as int].0.1)
            },
            None => forall|c: u64| !is_commit_record(column_map(col@), key@, start, c),
        },
{
    let mut best: Option<usize> = None;
    let mut i: usize = 0;
    while i < col.len()
        invariant
            i <= col.len(),
            match best {
                Some(b) => {
                    &&& b < i
                    &&& col@[b as int].0.0@ == key@
                    &&& col@[b as int].1@ == ValueView::Timestamp(start)
                    &&& forall|j: int|
                        0 <= j < i && #[trigger] col@[j].0.0@ == key@ && col@[j].1@ == ValueView::Timestamp(
                            start,
                        ) ==> col@[j].0.1 <= col@[b as int].0.1
                },
                None => forall|j: int|
                    0 <= j < i && #[trigger] col@[j].0.0@ == key@ ==> col@[j].1@ != ValueView::Timestamp(
                        start,
                    ),
            },
        decreases col.len() - i,
    {
        let ts = col[i].0.1;
        let commits = match &col[i].1 {
            Value::Timestamp(s) => *s == start,
            Value::Vector(_) => false,
        };
        if commits && bytes_eq(col[i].0.0.as_slice(), key.as_slice()) {
            let better = match best {
                Some(b) => col[b].0.1 < ts,
                None => true,
            };
            if better {
                best = Some(i);
            }
        }
        i = i + 1;
    }
    let ghost m = column_map(col@);
    match best {
        Some(b) => {
            proof {
                lemma_record_in_map(col@, b as int);
                assert forall|d: u64| #[trigger] is_commit_record(m, key@, start, d) implies d <= col@[
                    b as int].0.1 by {
                    lemma_map_cell_has_record(col@, (key@, d));
                    let j = choose|j: int| 0 <= j < col@.len() && cell_of(#[trigger] col@[j]) == (key@, d);
                    lemma_record_in_map(col@, j);
                    assert(col@[j].0.0@ == key@);
                }
            }
        },
        None => {
            proof {
                assert forall|c: u64| !is_commit_record(m, key@, start, c) by {
                    if is_commit_record(m, key@, start, c) {
                        lemma_map_cell_has_record(col@, (key@, c));
                        let j = choose|j: int| 0 <= j < col@.len() && cell_of(#[trigger] col@[j]) == (key@, c);
                        lemma_record_in_map(col@, j);
                        assert(col@[j].0.0@ == key@);
                    }
                }
            }
        },
    }
    best
}

/// A copy of a column, record by record.
fn copy_column(col: &Vec<(Key, Value)>) -> (c: Vec<(Key, Value)>)
    requires
        distinct_cells(col@),
    ensures
        distinct_cells(c@),
        column_map(c@) == column_map(col@),
{
    let mut c: Vec<(Key, Value)> = Vec::new();
    let mut i: usize = 0;
    while i < col.len()
        invariant
            i <= col.len(),
            c@.len() == i,
            forall|j: int| 0 <= j < i ==> cell_of(#[trigger] c@[j]) == cell_of(col@[j]),
            forall|j: int| 0 <= j < i ==> (#[trigger] c@[j]).1@ == col@[j].1@,
        decreases col.len() - i,
    {
        let rec = &col[i];
        c.push(((slice_to_vec(rec.0.0.as_slice()), rec.0.1), rec.1.clone()));
        i = i + 1;
    }
    assert(distinct_cells(c@)) by {
        assert forall|a: int, b: int| 0 <= a < c@.len() && 0 <= b < c@.len() && a != b implies cell_of(
            #[trigger] c@[a],
        ) != cell_of(#[trigger] c@[b]) by {
            assert(cell_of(c@[a]) == cell_of(col@[a]));
            assert(cell_of(c@[b]) == cell_of(col@[b]));
        }
    }
    assert forall|k: Cell| #[trigger] column_map(c@).contains_key(k) == column_map(col@).contains_key(k) by {
        if column_map(c@).contains_key(k) {
            let j = choose|j: int| 0 <= j < c@.len() && cell_of(#[trigger] c@[j]) == k;
            lemma_record_in_map(col@, j);
        }
        if column_map(col@).contains_key(k) {
            let j = choose|j: int| 0 <= j < col@.len() && cell_of(#[trigger] col@[j]) == k;
            lemma_record_in_map(c@, j);
        }
    }
    assert forall|k: Cell| #[trigger] column_map(c@).contains_key(k) implies column_map(c@)[k]
        == column_map(col@)[k] by {
        let j = choose|j: int| 0 <= j < c@.len() && cell_of(#[trigger] c@[j]) == k;
        lemma_record_in_map(c@, j);
        lemma_record_in_map(col@, j);
    }
    assert(column_map(c@) =~= column_map(col@));
    c
}

/// The table: three columns of records, in none of which a cell occurs twice.
pub struct KvTable {
    write: Vec<(Key, Value)>,
    data: Vec<(Key, Value)>,
    lock: Vec<(Key, Value)>,
}

impl View for KvTable {
    type V = TableView;

    closed spec fn view(&self) -> TableView {
        TableView {
            write: column_map(self.write@),
            data: column_map(self.data@),
            lock: column_map(self.lock@),
        }
    }
}

impl KvTable {
    #[verifier::type_invariant]
    spec fn wf(&self) -> bool {
        &&& distinct_cells(self.write@)
        &&& distinct_cells(self.data@)
        &&& distinct_cells(self.lock@)
    }

    /// An empty table.
    pub fn new() -> (t: KvTable)
        ensures
            t@.write == ColumnMap::empty(),
            t@.data == ColumnMap::empty(),
            t@.lock == ColumnMap::empty(),
    {
        let t = KvTable { write: Vec::new(), data: Vec::new(), lock: Vec::new() };
        assert(column_map(t.write@) =~= ColumnMap::empty());
        assert(column_map(t.data@) =~= ColumnMap::empty());
        assert(column_map(t.lock@) =~= ColumnMap::empty());
        t
    }

    fn column_records(&self, column: Column) -> (col: &Vec<(Key, Value)>)
        ensures
            distinct_cells(col@),
            column_map(col@) == self@.column(column),
    {
        proof {
            use_type_invariant(self);
        }
        match column {
            Column::Write => &self.write,
            Column::Data => &self.data,
            Column::Lock => &self.lock,
        }
    }

    /// Reads the newest record of `key` in `column` whose timestamp lies
    /// between the two bounds, each inclusive and each optional.
    pub fn read(
        &self,
        key: Vec<u8>,
        column: Column,
        ts_start_inclusive: Option<u64>,
        ts_end_inclusive: Option<u64>,
    ) -> (r: Option<(&Key, &Value)>)
        ensures
            match latest(self@.column(column), key@, ts_start_inclusive, ts_end_inclusive) {
                None => r is None,
                Some(t) => r matches Some(p) && p.0.0@ == key@ && p.0.1 == t && p.1@ == self@.column(
                    column,
                )[(key@, t)],
            },
            r is None <==> forall|u: u64|
                in_range(u, ts_start_inclusive, ts_end_inclusive) ==> !self@.column(column).contains_key(
                    (key@, u),
                ),
    {
        let col = self.column_records(column);
        let pos = latest_position(col, &key, ts_start_inclusive, ts_end_inclusive);
        match pos {
            Some(i) => {
                proof {
                    lemma_latest_is(self@.column(column), key@, ts_start_inclusive, ts_end_inclusive, col@[i as int].0.1);
                }
                let rec = &col[i];
                Some((&rec.0, &rec.1))
            },
            None => {
                proof {
                    lemma_latest_none(self@.column(column), key@, ts_start_inclusive, ts_end_inclusive);
                }
                None
            },
        }
    }

    /// The newest commit timestamp on `key` of the transaction that started
    /// at `start_ts`, found in the write column.
    pub fn find_commit(&self, key: &Vec<u8>, start_ts: u64) -> (c: Option<u64>)
        ensures
            c == commit_of(self@.write, key@, start_ts),
            c is None <==> forall|d: u64| !is_commit_record(self@.write, key@, start_ts, d),
    {
        let col = self.column_records(Column::Write);
        match newest_commit_position(col, key, start_ts) {
            Some(i) => {
                proof {
                    lemma_commit_of_is(self@.write, key@, start_ts, col@[i as int].0.1);
                }
                Some(col[i].0.1)
            },
            None => None,
        }
    }

    /// Writes `value` to cell `(key, ts)` of `column`, replacing what was there.
    pub fn write(&mut self, key: Vec<u8>, column: Column, ts: u64, value: Value)
        ensures
            final(self)@ == old(self)@.with_column(
                column,
                old(self)@.column(column).insert((key@, ts), value@),
            ),
    {
        proof {
            use_type_invariant(&*self);
        }
        let mut col = Vec::new();
        match column {
            Column::Write => std::mem::swap(&mut col, &mut self.write),
            Column::Data => std::mem::swap(&mut col, &mut self.data),
            Column::Lock => std::mem::swap(&mut col, &mut self.lock),
        }
        put_cell(&mut col, key, ts, value);
        match column {
            Column::Write => self.write = col,
            Column::Data => self.data = col,
            Column::Lock => self.lock = col,
        }
    }

    /// Erases cell `(key, commit_ts)` of `column`, if it is there.
    pub fn erase(&mut self, key: Vec<u8>, column: Column, commit_ts: u64)
        ensures
            final(self)@ == old(self)@.with_column(
                column,
                old(self)@.column(column).remove((key@, commit_ts)),
            ),
    {
        proof {
            use_type_invariant(&*self);
        }
        let mut col = Vec::new();
        match column {
            Column::Write => std::mem::swap(&mut col, &mut self.write),
            Column::Data => std::mem::swap(&mut col, &mut self.data),
            Column::Lock => std::mem::swap(&mut col, &mut self.lock),
        }
        remove_cell(&mut col, &key, commit_ts);
        match column {
            Column::Write => self.write = col,
            Column::Data => self.data = col,
            Column::Lock => self.lock = col,
        }
    }
}

impl Clone for KvTable {
    fn clone(&self) -> (t: Self)
        ensures
            t@ == self@,
    {
        proof {
            use_type_invariant(self);
        }
        KvTable {
            write: copy_column(&self.write),
            data: copy_column(&self.data),
            lock: copy_column(&self.lock),
        }
    }
}

impl Default for KvTable {
    fn default() -> (t: KvTable)
        ensures
            t@.write == ColumnMap::empty(),
            t@.data == ColumnMap::empty(),
            t@.lock == ColumnMap::empty(),
    {
        KvTable::new()
    }
}

} // verus!
