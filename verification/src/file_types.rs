//! Bytes taken by the files of each type.
use vstd::prelude::*;
use crate::order::{arranged, law_arranged_by_key, law_arranged_same_items, law_stable_order};
use crate::order::{order_by_key, stable_order};
use crate::paths::text_of;

verus! {

/// The bytes taken by the files of one type.
#[derive(Debug)]
pub struct FileType {
    /// Upper-cased extension; `None` for files without one.
    pub extension: Option<String>,
    pub size: u64,
}

/// What a [`FileType`] holds: the extension and the bytes.
pub type TypeRow = (Option<Seq<char>>, u64);

impl View for FileType {
    type V = TypeRow;

    open spec fn view(&self) -> TypeRow {
        (text_of(self.extension), self.size)
    }
}

impl FileType {
    /// The name shown for the type.
    pub fn label(&self) -> (label: String)
        ensures
            label@ == match self@.0 {
                Some(extension) => extension,
                None => "<none>"@,
            },
            self.extension matches Some(extension) ==> label@ == extension@,
            self.extension is None ==> label@ == "<none>"@,
    {
        match &self.extension {
            Some(extension) => extension.clone(),
            None => "<none>".to_string(),
        }
    }
}

impl Clone for FileType {
    fn clone(&self) -> (copy: Self)
        ensures
            copy@ == self@,
            copy.size == self.size,
            copy.extension is Some <==> self.extension is Some,
            copy.extension matches Some(a) ==> self.extension matches Some(b) ==> a@ == b@,
    {
        let extension = match &self.extension {
            Some(e) => Some(e.clone()),
            None => None,
        };
        FileType { extension, size: self.size }
    }
}

/// Total bytes per file type, one row for each type, in the order in which the
/// types were first met.
#[derive(Debug)]
pub struct FileTypes {
    rows: Vec<FileType>,
}

impl View for FileTypes {
    type V = Seq<TypeRow>;

    closed spec fn view(&self) -> Seq<TypeRow> {
        self.rows@.map_values(|t: FileType| t@)
    }
}

/// No two rows are for the same type.
pub open spec fn one_row_each(rows: Seq<TypeRow>) -> bool {
    forall|i: int, j: int| 0 <= i < j < rows.len() ==> (#[trigger] rows[i]).0 != (#[trigger] rows[j]).0
}

/// Row `i` is the one for this type.
pub open spec fn is_row_of(rows: Seq<TypeRow>, key: Option<Seq<char>>, i: int) -> bool {
    0 <= i < rows.len() && rows[i].0 == key
}

/// Adding `size` to the row for this type keeps it a 64-bit number.
pub open spec fn has_room(rows: Seq<TypeRow>, key: Option<Seq<char>>, size: u64) -> bool {
    forall|i: int| #[trigger] is_row_of(rows, key, i) ==> rows[i].1 + size <= u64::MAX
}

/// The rows after a file of `size` bytes of this type was counted: its row has
/// grown, or a row for it was added at the end.
pub open spec fn recorded(rows: Seq<TypeRow>, key: Option<Seq<char>>, size: u64) -> Seq<TypeRow> {
    if exists|i: int| is_row_of(rows, key, i) {
        let i = choose|i: int| is_row_of(rows, key, i);
        rows.update(i, (key, (rows[i].1 + size) as u64))
    } else {
        rows.push((key, size))
    }
}

/// The bytes counted for one type.
pub open spec fn bytes_of(rows: Seq<TypeRow>, key: Option<Seq<char>>) -> nat
    decreases rows.len(),
{
    if rows.len() == 0 {
        0
    } else {
        bytes_of(rows.drop_last(), key) + if rows.last().0 == key {
            rows.last().1 as nat
        } else {
            0
        }
    }
}

/// The bytes counted for all types together.
pub open spec fn bytes_in_all(rows: Seq<TypeRow>) -> nat
    decreases rows.len(),
{
    if rows.len() == 0 {
        0
    } else {
        bytes_in_all(rows.drop_last()) + rows.last().1 as nat
    }
}

/// The keys by which rows are ranked: the largest row has the smallest key.
pub open spec fn rank_keys(rows: Seq<TypeRow>) -> Seq<u64> {
    rows.map_values(|r: TypeRow| (u64::MAX - r.1) as u64)
}

/// The rows, largest first; rows of the same size in the order they had.
pub open spec fn ranked(rows: Seq<TypeRow>) -> Seq<TypeRow> {
    arranged(rows, rank_keys(rows))
}

impl FileTypes {
    #[verifier::type_invariant]
    spec fn well_formed(self) -> bool {
        one_row_each(self@)
    }

    /// No file was counted yet.
    pub fn new() -> (types: FileTypes)
        ensures
            types@ == Seq::<TypeRow>::empty(),
    {
        let types = FileTypes { rows: Vec::new() };
        assert(types@ =~= Seq::<TypeRow>::empty());
        types
    }

    /// Forgets everything that was counted.
    pub fn clear(&mut self)
        ensures
            final(self)@ == Seq::<TypeRow>::empty(),
    {
        self.rows = Vec::new();
        assert(self@ =~= Seq::<TypeRow>::empty());
    }

    /// The row for this type, if a file of it was counted.
    pub fn row_of(&self, extension: &Option<String>) -> (row: Option<usize>)
        ensures
            match row {
                Some(i) => is_row_of(self@, text_of(*extension), i as int),
                None => forall|i: int| !is_row_of(self@, text_of(*extension), i),
            },
    {
        let mut i: usize = 0;
        while i < self.rows.len()
            invariant
                i <= self.rows@.len(),
                forall|j: int| 0 <= j < i ==> !is_row_of(self@, text_of(*extension), j),
            decreases self.rows@.len() - i,
        {
            let same = match (&self.rows[i].extension, extension) {
                (Some(a), Some(b)) => *a == *b,
                (None, None) => true,
                _ => false,
            };
            assert(self@[i as int] == self.rows@[i as int]@);
            assert(same == (self@[i as int].0 == text_of(*extension)));
            if same {
                return Some(i);
            }
            i = i + 1;
        }
        None
    }

    /// Tells whether `size` bytes can be added for this type.
    pub fn can_record(&self, extension: &Option<String>, size: u64) -> (possible: bool)
        ensures
            possible == has_room(self@, text_of(*extension), size),
    {
        proof {
            use_type_invariant(self);
        }
        match self.row_of(extension) {
            Some(i) => {
                assert(self@[i as int] == self.rows@[i as int]@);
                assert(is_row_of(self@, text_of(*extension), i as int));
                self.rows[i].size <= u64::MAX - size
            },
            None => true,
        }
    }

    /// Counts a file of `size` bytes.
    pub fn record(&mut self, extension: Option<String>, size: u64)
        requires
            has_room(old(self)@, text_of(extension), size),
        ensures
            final(self)@ == recorded(old(self)@, text_of(extension), size),
            one_row_each(final(self)@),
    {
        proof {
            use_type_invariant(&*self);
        }
        let ghost rows = self@;
        let ghost key = text_of(extension);
        let row = self.row_of(&extension);
        let mut list: Vec<FileType> = Vec::new();
        std::mem::swap(&mut self.rows, &mut list);
        match row {
            Some(i) => {
                let ghost at = choose|i: int| is_row_of(rows, key, i);
                assert(at == i);
                assert(rows[i as int] == list@[i as int]@);
                list[i].size = list[i].size + size;
                assert(list@.map_values(|t: FileType| t@) =~= rows.update(
                    i as int,
                    (key, (rows[i as int].1 + size) as u64),
                ));
            },
            None => {
                list.push(FileType { extension, size });
                assert(list@.map_values(|t: FileType| t@) =~= rows.push((key, size)));
                assert forall|j: int| 0 <= j < rows.len() implies (#[trigger] rows[j]).0 != key by {
                    assert(!is_row_of(rows, key, j));
                }
            },
        }
        self.rows = list;
    }

    /// The rows, largest first.
    pub fn ranked(&self) -> (rows: Vec<FileType>)
        ensures
            rows@.map_values(|t: FileType| t@) == ranked(self@),
            rows@.len() == self@.len(),
            forall|i: int, j: int|
                0 <= i < j < rows@.len() ==> (#[trigger] rows@[i]).size >= (#[trigger] rows@[j]).size,
            forall|i: int| 0 <= i < rows@.len() ==> self@.contains((#[trigger] rows@[i])@),
    {
        let n: usize = self.rows.len();
        let mut keys: Vec<u64> = Vec::new();
        let mut i: usize = 0;
        while i < n
            invariant
                n == self.rows@.len(),
                i <= n,
                keys@ =~= rank_keys(self@).take(i as int),
            decreases n - i,
        {
            keys.push(u64::MAX - self.rows[i].size);
            i = i + 1;
        }
        assert(keys@ =~= rank_keys(self@));
        let order = order_by_key(&keys);
        proof {
            law_stable_order(keys@);
        }
        let mut rows: Vec<FileType> = Vec::new();
        let mut k: usize = 0;
        while k < order.len()
            invariant
                n == self.rows@.len(),
                order@ == stable_order(rank_keys(self@)),
                order@.len() == n,
                forall|j: int| 0 <= j < n ==> (#[trigger] order@[j]) < n,
                k <= order@.len(),
                rows@.len() == k,
                forall|j: int|
                    0 <= j < k ==> (#[trigger] rows@[j])@ == self.rows@[order@[j] as int]@,
            decreases order@.len() - k,
        {
            rows.push(self.rows[order[k]].clone());
            k = k + 1;
        }
        assert(rows@.map_values(|t: FileType| t@) =~= ranked(self@));
        proof {
            law_ranked_largest_first(self@);
            assert forall|i: int, j: int| 0 <= i < j < rows@.len() implies (#[trigger] rows@[i]).size
                >= (#[trigger] rows@[j]).size by {
                assert(ranked(self@)[i] == rows@[i]@);
                assert(ranked(self@)[j] == rows@[j]@);
            }
            assert forall|i: int| 0 <= i < rows@.len() implies self@.contains(
                (#[trigger] rows@[i])@,
            ) by {
                assert(self@[order@[i] as int] == self.rows@[order@[i] as int]@);
            }
        }
        rows
    }
}

/// Counting a file adds its size to the bytes of its own type, leaves those of
/// every other type alone, and adds its size to the bytes of all types.
pub proof fn law_recorded_adds_up(
    rows: Seq<TypeRow>,
    key: Option<Seq<char>>,
    size: u64,
    other: Option<Seq<char>>,
)
    requires
        has_room(rows, key, size),
    ensures
        bytes_of(recorded(rows, key, size), other) == bytes_of(rows, other) + if other == key {
            size as nat
        } else {
            0
        },
        bytes_in_all(recorded(rows, key, size)) == bytes_in_all(rows) + size,
{
    if exists|i: int| is_row_of(rows, key, i) {
        let i = choose|i: int| is_row_of(rows, key, i);
        lemma_bytes_of_update(rows, i, size, other);
    } else {
        assert(rows.push((key, size)).drop_last() =~= rows);
    }
}

proof fn lemma_bytes_of_update(rows: Seq<TypeRow>, i: int, size: u64, other: Option<Seq<char>>)
    requires
        0 <= i < rows.len(),
        rows[i].1 + size <= u64::MAX,
    ensures
        ({
            let after = rows.update(i, (rows[i].0, (rows[i].1 + size) as u64));
            &&& bytes_of(after, other) == bytes_of(rows, other) + if other == rows[i].0 {
                size as nat
            } else {
                0
            }
            &&& bytes_in_all(after) == bytes_in_all(rows) + size
        }),
    decreases rows.len(),
{
    let after = rows.update(i, (rows[i].0, (rows[i].1 + size) as u64));
    if i == rows.len() - 1 {
        assert(after.drop_last() =~= rows.drop_last());
    } else {
        lemma_bytes_of_update(rows.drop_last(), i, size, other);
        assert(after.drop_last() =~= rows.drop_last().update(
            i,
            (rows[i].0, (rows[i].1 + size) as u64),
        ));
    }
}

/// With one row for each type, the bytes counted for a type are those in its row.
pub proof fn law_row_holds_its_bytes(rows: Seq<TypeRow>, key: Option<Seq<char>>, i: int)
    requires
        one_row_each(rows),
        is_row_of(rows, key, i),
    ensures
        bytes_of(rows, key) == rows[i].1,
    decreases rows.len(),
{
    let rest = rows.drop_last();
    if i == rows.len() - 1 {
        lemma_no_row_no_bytes(rest, key);
    } else {
        assert(rows[i].0 != rows.last().0);
        law_row_holds_its_bytes(rest, key, i);
    }
}

proof fn lemma_no_row_no_bytes(rows: Seq<TypeRow>, key: Option<Seq<char>>)
    requires
        forall|i: int| 0 <= i < rows.len() ==> (#[trigger] rows[i]).0 != key,
    ensures
        bytes_of(rows, key) == 0,
    decreases rows.len(),
{
    if rows.len() > 0 {
        lemma_no_row_no_bytes(rows.drop_last(), key);
    }
}

/// Ranking lists every row once and puts larger rows before smaller ones.
pub proof fn law_ranked_largest_first(rows: Seq<TypeRow>)
    requires
        rows.len() <= usize::MAX,
    ensures
        ranked(rows).to_multiset() == rows.to_multiset(),
        forall|i: int, j: int|
            0 <= i < j < rows.len() ==> (#[trigger] ranked(rows)[i]).1 >= (#[trigger] ranked(
                rows,
            )[j]).1,
{
    let keys = rank_keys(rows);
    law_stable_order(keys);
    law_arranged_same_items(rows, keys);
    assert forall|i: int, j: int| 0 <= i < j < rows.len() implies (#[trigger] ranked(rows)[i]).1 >= (
    #[trigger] ranked(rows)[j]).1 by {
        let a = stable_order(keys)[i];
        let b = stable_order(keys)[j];
        assert(keys[a as int] <= keys[b as int]);
    }
}

/// A row is the extension and the bytes of its type.
pub proof fn law_row_of_type(t: FileType)
    ensures
        t@.1 == t.size,
        t@.0 is Some <==> t.extension is Some,
        t.extension matches Some(e) ==> t@.0 == Some(e@),
{
}

/// Counting a file changes the bytes of its own type only: every row stays where it
/// is, with its type, the row of this type grows by the size, and a row is added
/// exactly where there was none for it.
pub proof fn law_recorded_row_by_row(rows: Seq<TypeRow>, key: Option<Seq<char>>, size: u64)
    requires
        forall|i: int, j: int|
            0 <= i < j < rows.len() ==> (#[trigger] rows[i]).0 != (#[trigger] rows[j]).0,
        forall|i: int| 0 <= i < rows.len() && (#[trigger] rows[i]).0 == key ==> rows[i].1 + size
            <= u64::MAX,
    ensures
        forall|i: int|
            0 <= i < rows.len() ==> (#[trigger] recorded(rows, key, size)[i]).0 == rows[i].0
                && recorded(rows, key, size)[i].1 == rows[i].1 + if rows[i].0 == key {
                size as int
            } else {
                0
            },
        (exists|i: int| 0 <= i < rows.len() && (#[trigger] rows[i]).0 == key) ==> recorded(
            rows,
            key,
            size,
        ).len() == rows.len(),
        (forall|i: int| 0 <= i < rows.len() ==> (#[trigger] rows[i]).0 != key) ==> recorded(
            rows,
            key,
            size,
        ).len() == rows.len() + 1 && recorded(rows, key, size)[rows.len() as int] == (key, size),
{
    if exists|i: int| is_row_of(rows, key, i) {
        let at = choose|i: int| is_row_of(rows, key, i);
        assert(is_row_of(rows, key, at));
        assert(rows[at].0 == key);
        assert forall|i: int| 0 <= i < rows.len() && i != at implies (#[trigger] rows[i]).0 != key by {
            if i < at {
                assert(rows[i].0 != rows[at].0);
            } else {
                assert(rows[at].0 != rows[i].0);
            }
        }
    } else {
        assert forall|i: int| 0 <= i < rows.len() implies (#[trigger] rows[i]).0 != key by {
            assert(!is_row_of(rows, key, i));
        }
    }
}

/// There is room for a file if its type has no row, or that row stays a 64-bit number.
pub proof fn law_room(rows: Seq<TypeRow>, key: Option<Seq<char>>, size: u64)
    ensures
        has_room(rows, key, size) <==> forall|i: int|
            0 <= i < rows.len() && (#[trigger] rows[i]).0 == key ==> rows[i].1 + size <= u64::MAX,
{
    if has_room(rows, key, size) {
        assert forall|i: int| 0 <= i < rows.len() && (#[trigger] rows[i]).0 == key implies rows[i].1
            + size <= u64::MAX by {
            assert(is_row_of(rows, key, i));
        }
    }
}

/// A type without a row has no bytes, and a new row adds its bytes to its own type
/// and to all types together.
pub proof fn law_bytes_of_rows(rows: Seq<TypeRow>, row: TypeRow, key: Option<Seq<char>>)
    ensures
        (forall|i: int| 0 <= i < rows.len() ==> (#[trigger] rows[i]).0 != key) ==> bytes_of(rows, key)
            == 0,
        bytes_of(rows.push(row), key) == bytes_of(rows, key) + if row.0 == key {
            row.1 as int
        } else {
            0
        },
        bytes_in_all(rows.push(row)) == bytes_in_all(rows) + row.1,
        bytes_in_all(Seq::empty()) == 0,
{
    assert(rows.push(row).drop_last() =~= rows);
    if forall|i: int| 0 <= i < rows.len() ==> (#[trigger] rows[i]).0 != key {
        lemma_no_row_no_bytes(rows, key);
    }
}

/// Rows of the same size are ranked in the order they had.
pub proof fn law_ranked_ties_stay(rows: Seq<TypeRow>, a: int, b: int)
    requires
        rows.len() <= usize::MAX,
        0 <= a < b < rows.len(),
    ensures
        exists|p: int, q: int|
            0 <= p < rows.len() && 0 <= q < rows.len() && p != q && #[trigger] rows[p] == ranked(
                rows,
            )[a] && #[trigger] rows[q] == ranked(rows)[b] && (rows[p].1 > rows[q].1 || (rows[p].1
                == rows[q].1 && p < q)),
{
    law_arranged_by_key(rows, rank_keys(rows), a, b);
    let (p, q) = choose|p: int, q: int|
        0 <= p < rows.len() && 0 <= q < rows.len() && p != q && #[trigger] rows[p] == ranked(rows)[a]
            && #[trigger] rows[q] == ranked(rows)[b] && (rank_keys(rows)[p] < rank_keys(rows)[q] || (
        rank_keys(rows)[p] == rank_keys(rows)[q] && p < q));
    assert(rows[p] == ranked(rows)[a] && rows[q] == ranked(rows)[b]);
}

/// What it means that every type has one row.
pub proof fn law_one_row_each(rows: Seq<TypeRow>)
    ensures
        one_row_each(rows) <==> forall|i: int, j: int|
            0 <= i < rows.len() && 0 <= j < rows.len() && i != j ==> (#[trigger] rows[i]).0 != (
            #[trigger] rows[j]).0,
{
    if one_row_each(rows) {
        assert forall|i: int, j: int|
            0 <= i < rows.len() && 0 <= j < rows.len() && i != j implies (#[trigger] rows[i]).0 != (
        #[trigger] rows[j]).0 by {
            if i < j {
                assert(rows[i].0 != rows[j].0);
            } else {
                assert(rows[j].0 != rows[i].0);
            }
        }
    }
}

} // verus!
