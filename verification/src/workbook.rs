//! A minimal in-memory workbook: a sparse grid of cell values plus defined
//! names, so that references and names have something to resolve against.
//! Sheet names, columns and defined names match without regard to ASCII
//! case.

use vstd::prelude::*;
use crate::chars::{upper, upper_string, chars_eq, chars_of};
use crate::eval::{Value, Val};
use crate::parser::{Expr, Ex};

verus! {

/// Where a cell lives: sheet (if any), column and row, with the sheet and
/// column upper-cased.
pub type CellAt = (Option<Seq<char>>, Seq<char>, u32);

struct CellKey {
    sheet: Option<String>,
    column: String,
    row: u32,
}

impl CellKey {
    spec fn at(&self) -> CellAt {
        (
            match self.sheet {
                Some(s) => Some(s@),
                None => None,
            },
            self.column@,
            self.row,
        )
    }
}

pub open spec fn view_sheet(sheet: Option<&str>) -> Option<Seq<char>> {
    match sheet {
        Some(s) => Some(s@),
        None => None,
    }
}

/// The key of a cell named by sheet, column and row.
pub open spec fn cell_at(sheet: Option<Seq<char>>, column: Seq<char>, row: u32) -> CellAt {
    (
        match sheet {
            Some(s) => Some(upper(s)),
            None => None,
        },
        upper(column),
        row,
    )
}

fn cell_key(sheet: Option<&str>, column: &str, row: u32) -> (k: CellKey)
    ensures
        k.at() == cell_at(view_sheet(sheet), column@, row),
{
    CellKey {
        sheet: match sheet {
            Some(s) => Some(upper_string(s)),
            None => None,
        },
        column: upper_string(column),
        row,
    }
}

fn string_eq(a: &String, b: &String) -> (r: bool)
    ensures
        r == (a@ == b@),
{
    let x = chars_of(a.as_str());
    let y = chars_of(b.as_str());
    chars_eq(&x, &y)
}

fn same_cell(a: &CellKey, b: &CellKey) -> (r: bool)
    ensures
        r == (a.at() == b.at()),
{
    let sheets = match (&a.sheet, &b.sheet) {
        (Some(x), Some(y)) => string_eq(x, y),
        (None, None) => true,
        _ => false,
    };
    let r = sheets && string_eq(&a.column, &b.column) && a.row == b.row;
    assert(r ==> a.at() == b.at());
    assert(a.at() == b.at() ==> a.at().0 == b.at().0 && a.at().1 == b.at().1);
    r
}

/// The map that an association list denotes (each key appears once).
pub open spec fn as_map<K, V>(s: Seq<(K, V)>) -> Map<K, V>
    decreases s.len(),
{
    if s.len() == 0 {
        Map::empty()
    } else {
        as_map(s.drop_last()).insert(s.last().0, s.last().1)
    }
}

/// What a cell reads as: its value if it was set, else the number 0.
pub open spec fn read_cell(cells: Map<CellAt, Val>, at: CellAt) -> Val {
    if cells.contains_key(at) {
        cells[at]
    } else {
        Val::Number(0)
    }
}

/// What a defined name reads as, if it was set.
pub open spec fn read_name(names: Map<Seq<char>, Val>, name: Seq<char>) -> Option<Val> {
    if names.contains_key(upper(name)) {
        Some(names[upper(name)])
    } else {
        None
    }
}

pub open spec fn keys_unique<K, V>(s: Seq<(K, V)>) -> bool {
    forall|i: int, j: int| 0 <= i < j < s.len() ==> s[i].0 != s[j].0
}

proof fn lemma_as_map_index<K, V>(s: Seq<(K, V)>, i: int)
    requires
        keys_unique(s),
        0 <= i < s.len(),
    ensures
        as_map(s).contains_key(s[i].0),
        as_map(s)[s[i].0] == s[i].1,
    decreases s.len(),
{
    if i < s.len() - 1 {
        assert(keys_unique(s.drop_last()));
        lemma_as_map_index(s.drop_last(), i);
        assert(s.drop_last()[i] == s[i]);
    }
}

proof fn lemma_as_map_absent<K, V>(s: Seq<(K, V)>, k: K)
    requires
        forall|i: int| 0 <= i < s.len() ==> s[i].0 != k,
    ensures
        !as_map(s).contains_key(k),
    decreases s.len(),
{
    if s.len() > 0 {
        lemma_as_map_absent(s.drop_last(), k);
    }
}

proof fn lemma_as_map_update<K, V>(s: Seq<(K, V)>, i: int, v: V)
    requires
        keys_unique(s),
        0 <= i < s.len(),
    ensures
        as_map(s.update(i, (s[i].0, v))) == as_map(s).insert(s[i].0, v),
        keys_unique(s.update(i, (s[i].0, v))),
    decreases s.len(),
{
    let t = s.update(i, (s[i].0, v));
    assert(keys_unique(t));
    if i == s.len() - 1 {
        assert(t.drop_last() =~= s.drop_last());
        lemma_as_map_absent(s.drop_last(), s[i].0);
        assert(as_map(s).insert(s[i].0, v) =~= as_map(s.drop_last()).insert(s[i].0, v));
    } else {
        assert(keys_unique(s.drop_last()));
        lemma_as_map_update(s.drop_last(), i, v);
        assert(t.drop_last() =~= s.drop_last().update(i, (s[i].0, v)));
        assert(t.last() == s.last());
        assert(s.last().0 != s[i].0);
        assert(as_map(t) =~= as_map(s).insert(s[i].0, v));
    }
}

pub struct Workbook {
    cells: Vec<(CellKey, Value)>,
    names: Vec<(String, Value)>,
}

impl Workbook {
    spec fn cell_entries(&self) -> Seq<(CellAt, Val)> {
        Seq::new(self.cells@.len(), |i: int| (self.cells@[i].0.at(), self.cells@[i].1@))
    }

    spec fn name_entries(&self) -> Seq<(Seq<char>, Val)> {
        Seq::new(self.names@.len(), |i: int| (self.names@[i].0@, self.names@[i].1@))
    }

    #[verifier::type_invariant]
    spec fn inv(&self) -> bool {
        keys_unique(self.cell_entries()) && keys_unique(self.name_entries())
    }

    /// The cells that have been set, by key.
    pub closed spec fn cells(&self) -> Map<CellAt, Val> {
        as_map(self.cell_entries())
    }

    /// The defined names that have been set, by upper-cased name.
    pub closed spec fn names(&self) -> Map<Seq<char>, Val> {
        as_map(self.name_entries())
    }

    pub fn new() -> (r: Self)
        ensures
            r.cells() == Map::<CellAt, Val>::empty(),
            r.names() == Map::<Seq<char>, Val>::empty(),
    {
        let r = Workbook { cells: Vec::new(), names: Vec::new() };
        assert(r.cell_entries() =~= Seq::<(CellAt, Val)>::empty());
        assert(r.name_entries() =~= Seq::<(Seq<char>, Val)>::empty());
        r
    }

    /// Sets a cell; the sheet and column match without regard to ASCII case.
    pub fn set_cell(&mut self, sheet: Option<&str>, column: &str, row: u32, value: Value)
        ensures
            final(self).cells() == old(self).cells().insert(
                cell_at(view_sheet(sheet), column@, row),
                value@,
            ),
            final(self).names() == old(self).names(),
    {
        proof {
            use_type_invariant(&*self);
        }
        let key = cell_key(sheet, column, row);
        let ghost old_entries = self.cell_entries();
        let ghost names = self.name_entries();
        let ghost vv = value@;
        let mut cells: Vec<(CellKey, Value)> = Vec::new();
        std::mem::swap(&mut cells, &mut self.cells);
        let mut i: usize = 0;
        while i < cells.len()
            invariant
                i <= cells.len(),
                old_entries == Seq::new(cells@.len(), |k: int| (cells@[k].0.at(), cells@[k].1@)),
                forall|k: int| 0 <= k < i ==> old_entries[k].0 != key.at(),
            ensures
                i <= cells.len(),
                old_entries == Seq::new(cells@.len(), |k: int| (cells@[k].0.at(), cells@[k].1@)),
                forall|k: int| 0 <= k < i ==> old_entries[k].0 != key.at(),
                i < cells.len() ==> old_entries[i as int].0 == key.at(),
            decreases cells.len() - i,
        {
            if same_cell(&cells[i].0, &key) {
                break;
            }
            i = i + 1;
        }
        if i < cells.len() {
            proof {
                lemma_as_map_update(old_entries, i as int, vv);
            }
            let ghost k = cells@[i as int].0.at();
            let (kk, _old) = cells.remove(i);
            cells.insert(i, (kk, value));
            assert(Seq::new(cells@.len(), |m: int| (cells@[m].0.at(), cells@[m].1@)) =~= old_entries.update(i as int, (k, vv)));
            self.cells = cells;
            assert(self.cell_entries() =~= old_entries.update(i as int, (k, vv)));
        } else {
            proof {
                lemma_as_map_absent(old_entries, key.at());
            }
            let ghost at = key.at();
            cells.push((key, value));
            assert(Seq::new(cells@.len(), |k: int| (cells@[k].0.at(), cells@[k].1@)) =~= old_entries.push((at, vv)));
            assert(keys_unique(old_entries.push((at, vv))));
            self.cells = cells;
            assert(self.cell_entries() =~= old_entries.push((at, vv)));
            assert(self.cell_entries().drop_last() =~= old_entries);
        }
        assert(self.name_entries() =~= names);
    }

    /// The value of a cell; a cell that was never set reads as the number 0.
    pub fn get_cell(&self, sheet: Option<&str>, column: &str, row: u32) -> (r: Value)
        ensures
            r@ == read_cell(self.cells(), cell_at(view_sheet(sheet), column@, row)),
    {
        proof {
            use_type_invariant(self);
        }
        let key = cell_key(sheet, column, row);
        let ghost entries = self.cell_entries();
        let mut i: usize = 0;
        while i < self.cells.len()
            invariant
                i <= self.cells.len(),
                entries == self.cell_entries(),
                key.at() == cell_at(view_sheet(sheet), column@, row),
                keys_unique(entries),
                forall|k: int| 0 <= k < i ==> entries[k].0 != key.at(),
            decreases self.cells.len() - i,
        {
            if same_cell(&self.cells[i].0, &key) {
                proof {
                    lemma_as_map_index(entries, i as int);
                    assert(entries[i as int] == (self.cells@[i as int].0.at(), self.cells@[i as int].1@));
                }
                return self.cells[i].1.copy();
            }
            i = i + 1;
        }
        proof {
            lemma_as_map_absent(entries, key.at());
        }
        Value::Number(0)
    }

    /// Sets a defined name; names match without regard to ASCII case.
    pub fn set_name(&mut self, name: &str, value: Value)
        ensures
            final(self).names() == old(self).names().insert(upper(name@), value@),
            final(self).cells() == old(self).cells(),
    {
        proof {
            use_type_invariant(&*self);
        }
        let key = upper_string(name);
        let ghost old_entries = self.name_entries();
        let ghost cells = self.cell_entries();
        let ghost vv = value@;
        let mut names: Vec<(String, Value)> = Vec::new();
        std::mem::swap(&mut names, &mut self.names);
        let mut i: usize = 0;
        while i < names.len()
            invariant
                i <= names.len(),
                old_entries == Seq::new(names@.len(), |k: int| (names@[k].0@, names@[k].1@)),
                forall|k: int| 0 <= k < i ==> old_entries[k].0 != key@,
            ensures
                i <= names.len(),
                old_entries == Seq::new(names@.len(), |k: int| (names@[k].0@, names@[k].1@)),
                forall|k: int| 0 <= k < i ==> old_entries[k].0 != key@,
                i < names.len() ==> old_entries[i as int].0 == key@,
            decreases names.len() - i,
        {
            if string_eq(&names[i].0, &key) {
                break;
            }
            i = i + 1;
        }
        if i < names.len() {
            proof {
                lemma_as_map_update(old_entries, i as int, vv);
            }
            let ghost k = names@[i as int].0@;
            let (kk, _old) = names.remove(i);
            names.insert(i, (kk, value));
            assert(Seq::new(names@.len(), |m: int| (names@[m].0@, names@[m].1@)) =~= old_entries.update(i as int, (k, vv)));
            self.names = names;
            assert(self.name_entries() =~= old_entries.update(i as int, (k, vv)));
        } else {
            proof {
                lemma_as_map_absent(old_entries, key@);
            }
            let ghost kv = key@;
            names.push((key, value));
            assert(Seq::new(names@.len(), |k: int| (names@[k].0@, names@[k].1@)) =~= old_entries.push((kv, vv)));
            assert(keys_unique(old_entries.push((kv, vv))));
            self.names = names;
            assert(self.name_entries() =~= old_entries.push((kv, vv)));
            assert(self.name_entries().drop_last() =~= old_entries);
        }
        assert(self.cell_entries() =~= cells);
    }

    /// Writes `value` to what a parsed target names: a cell reference or a
    /// defined name. Any other tree names nothing that can hold a value; the
    /// workbook is then left as it was and the result is `false`.
    pub fn assign(&mut self, target: &Expr, value: Value) -> (ok: bool)
        ensures
            ok == (target@ is Reference || target@ is Name),
            match target@ {
                Ex::Reference(c) => final(self).cells() == old(self).cells().insert(
                    cell_at(c.sheet, c.column, c.row as u32),
                    value@,
                ) && final(self).names() == old(self).names(),
                Ex::Name(n) => final(self).names() == old(self).names().insert(upper(n), value@)
                    && final(self).cells() == old(self).cells(),
                _ => final(self).cells() == old(self).cells() && final(self).names() == old(
                    self,
                ).names(),
            },
    {
        match target {
            Expr::Reference(cell) => {
                match &cell.sheet {
                    Some(sh) => self.set_cell(Some(sh.as_str()), cell.column.as_str(), cell.row, value),
                    None => self.set_cell(None, cell.column.as_str(), cell.row, value),
                }
                true
            },
            Expr::Name(name) => {
                self.set_name(name.as_str(), value);
                true
            },
            _ => false,
        }
    }

    /// The value of a defined name, if it was set.
    pub fn get_name(&self, name: &str) -> (r: Option<Value>)
        ensures
            match r {
                Some(v) => read_name(self.names(), name@) == Some(v@),
                None => read_name(self.names(), name@) is None,
            },
    {
        proof {
            use_type_invariant(self);
        }
        let key = upper_string(name);
        let ghost entries = self.name_entries();
        let mut i: usize = 0;
        while i < self.names.len()
            invariant
                i <= self.names.len(),
                entries == self.name_entries(),
                key@ == upper(name@),
                keys_unique(entries),
                forall|k: int| 0 <= k < i ==> entries[k].0 != key@,
            decreases self.names.len() - i,
        {
            if string_eq(&self.names[i].0, &key) {
                proof {
                    lemma_as_map_index(entries, i as int);
                    assert(entries[i as int] == (self.names@[i as int].0@, self.names@[i as int].1@));
                }
                return Some(self.names[i].1.copy());
            }
            i = i + 1;
        }
        proof {
            lemma_as_map_absent(entries, key@);
        }
        None
    }
}


// ---------------------------------------------------------------------------
// What reads give back of writes.
// ---------------------------------------------------------------------------

/// A cell that was never set reads as the number 0.
pub proof fn law_unset_cell_reads_zero(sheet: Option<Seq<char>>, column: Seq<char>, row: u32)
    ensures
        read_cell(Map::<CellAt, Val>::empty(), cell_at(sheet, column, row)) == Val::Number(0),
{
}

/// A cell reads back the value last written to it, however the case of its
/// sheet and column is written at either end.
pub proof fn law_cell_read_after_write(
    cells: Map<CellAt, Val>,
    sheet: Option<Seq<char>>,
    column: Seq<char>,
    row: u32,
    value: Val,
    sheet2: Option<Seq<char>>,
    column2: Seq<char>,
)
    requires
        upper(column2) == upper(column),
        sheet2 is Some <==> sheet is Some,
        sheet is Some ==> upper(sheet2->Some_0) == upper(sheet->Some_0),
    ensures
        read_cell(cells.insert(cell_at(sheet, column, row), value), cell_at(sheet2, column2, row))
            == value,
{
    assert(cell_at(sheet2, column2, row) == cell_at(sheet, column, row));
}

/// Writing one cell leaves every other cell as it was.
pub proof fn law_cell_write_keeps_others(
    cells: Map<CellAt, Val>,
    at: CellAt,
    value: Val,
    other: CellAt,
)
    requires
        other != at,
    ensures
        read_cell(cells.insert(at, value), other) == read_cell(cells, other),
{
}

/// A defined name reads back the value last written to it, however its case
/// is written at either end.
pub proof fn law_name_read_after_write(
    names: Map<Seq<char>, Val>,
    name: Seq<char>,
    value: Val,
    name2: Seq<char>,
)
    requires
        upper(name2) == upper(name),
    ensures
        read_name(names.insert(upper(name), value), name2) == Some(value),
{
}

/// Writing one name leaves every other name as it was, and a name that was
/// never set reads as nothing.
pub proof fn law_name_write_keeps_others(
    names: Map<Seq<char>, Val>,
    name: Seq<char>,
    value: Val,
    other: Seq<char>,
)
    requires
        upper(other) != upper(name),
    ensures
        read_name(names.insert(upper(name), value), other) == read_name(names, other),
        read_name(Map::<Seq<char>, Val>::empty(), other) is None,
{
}

} // verus!
