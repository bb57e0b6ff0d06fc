//! The inventory store: an in-memory model of the single `inventory` table,
//! kept sorted by creation timestamp descending (newest first), with CRUD
//! operations and the image-path fixup. Persistence of the table and all
//! file-system work sit outside this crate; every operation here takes the
//! outside world's answers as plain values and is verified for all of them.

use vstd::prelude::*;
use crate::item::{InvError, InventoryItem, ItemModel};
use crate::strutil::{
    file_name_spec, file_name_of, image_file_name, image_file_name_spec, join_spec, lex_le,
    lemma_lex_le_refl, lemma_lex_le_total, lemma_lex_le_trans, path_join, str_le,
};
use crate::codec::{b64_decoded, decode_image_payload, payload_of};
use crate::clock::{now_local_string, now_unix_millis};

verus! {

/// Model of one stored row. Unlike an [`ItemModel`], a row always has an id
/// and a creation timestamp: the store assigns both at insert time.
pub ghost struct RowModel {
    pub id: int,
    pub name: Seq<char>,
    pub image_path: Option<Seq<char>>,
    pub cantidad_necesaria: int,
    pub cantidad_disponible: int,
    pub created_at: Seq<char>,
}

/// Model of the whole store: the rows, newest first, and the next id the
/// store will assign.
pub ghost struct StoreModel {
    pub rows: Seq<RowModel>,
    pub next_id: int,
}

/// The item a stored row reads back as.
pub open spec fn row_item(r: RowModel) -> ItemModel {
    ItemModel {
        id: Some(r.id),
        name: r.name,
        image_path: r.image_path,
        cantidad_necesaria: r.cantidad_necesaria,
        cantidad_disponible: r.cantidad_disponible,
        created_at: Some(r.created_at),
    }
}

/// The items a sequence of rows reads back as, in the same order.
pub open spec fn items_of(rows: Seq<RowModel>) -> Seq<ItemModel> {
    rows.map_values(|r: RowModel| row_item(r))
}

/// Rows ordered by creation timestamp descending: later positions hold
/// timestamps less than or equal to earlier ones.
pub open spec fn sorted_desc(rows: Seq<RowModel>) -> bool {
    forall|i: int, j: int|
        0 <= i <= j < rows.len() ==> #[trigger] lex_le(rows[j].created_at, rows[i].created_at)
}

/// No two rows share an id.
pub open spec fn unique_ids(rows: Seq<RowModel>) -> bool {
    forall|i: int, j: int|
        0 <= i < j < rows.len() ==> #[trigger] rows[i].id != #[trigger] rows[j].id
}

/// Well-formedness of a store model: ids are unique, positive and below the
/// next id, and the rows are sorted newest first.
pub open spec fn store_wf(m: StoreModel) -> bool {
    &&& 1 <= m.next_id
    &&& forall|i: int| 0 <= i < m.rows.len() ==> 1 <= (#[trigger] m.rows[i].id) < m.next_id
    &&& unique_ids(m.rows)
    &&& sorted_desc(m.rows)
}

/// Where a row with timestamp `ts` is inserted among `rows` (sorted newest
/// first): before the first row whose timestamp is at or below `ts`, so that
/// among equal timestamps the newest insertion comes first.
pub open spec fn ins_pos(rows: Seq<RowModel>, ts: Seq<char>) -> int
    decreases rows.len(),
{
    if rows.len() == 0 {
        0
    } else if lex_le(rows[0].created_at, ts) {
        0
    } else {
        1 + ins_pos(rows.drop_first(), ts)
    }
}

/// Insert a row into rows sorted newest first, keeping the order.
pub open spec fn insert_desc(rows: Seq<RowModel>, r: RowModel) -> Seq<RowModel>
    decreases rows.len(),
{
    if rows.len() == 0 {
        seq![r]
    } else if lex_le(rows[0].created_at, r.created_at) {
        seq![r] + rows
    } else {
        seq![rows[0]] + insert_desc(rows.drop_first(), r)
    }
}

/// What `add` does to the store: a fresh row with the next id and the given
/// fields is inserted in timestamp order, and the next id moves on. Returns
/// the new model and the inserted row.
pub open spec fn spec_add(
    m: StoreModel,
    name: Seq<char>,
    image_path: Option<Seq<char>>,
    cantidad_necesaria: int,
    cantidad_disponible: int,
    created_at: Seq<char>,
) -> (StoreModel, RowModel) {
    let row = RowModel {
        id: m.next_id,
        name,
        image_path,
        cantidad_necesaria,
        cantidad_disponible,
        created_at,
    };
    (StoreModel { rows: insert_desc(m.rows, row), next_id: m.next_id + 1 }, row)
}

/// The position of the first row with the given id, or `rows.len()` when no
/// row has it.
pub open spec fn idx_of(rows: Seq<RowModel>, id: int) -> int
    decreases rows.len(),
{
    if rows.len() == 0 {
        0
    } else if rows[0].id == id {
        0
    } else {
        1 + idx_of(rows.drop_first(), id)
    }
}

/// `insert_desc` splits the rows at `ins_pos`: everything strictly newer
/// stays in front, the new row follows, the rest shift back.
pub proof fn lemma_insert_desc(rows: Seq<RowModel>, r: RowModel)
    ensures
        ({
            let p = ins_pos(rows, r.created_at);
            &&& 0 <= p <= rows.len()
            &&& insert_desc(rows, r) == rows.subrange(0, p) + seq![r] + rows.skip(p)
            &&& forall|j: int| 0 <= j < p ==> !lex_le(#[trigger] rows[j].created_at, r.created_at)
            &&& p < rows.len() ==> lex_le(rows[p].created_at, r.created_at)
        }),
    decreases rows.len(),
{
    let p = ins_pos(rows, r.created_at);
    if rows.len() == 0 {
        assert(insert_desc(rows, r) =~= rows.subrange(0, 0) + seq![r] + rows.skip(0));
    } else if lex_le(rows[0].created_at, r.created_at) {
        assert(insert_desc(rows, r) =~= rows.subrange(0, 0) + seq![r] + rows.skip(0));
    } else {
        let rest = rows.drop_first();
        lemma_insert_desc(rest, r);
        let q = ins_pos(rest, r.created_at);
        assert(p == 1 + q);
        assert(insert_desc(rows, r) =~= rows.subrange(0, p) + seq![r] + rows.skip(p)) by {
            assert(insert_desc(rows, r) == seq![rows[0]] + insert_desc(rest, r));
            assert(insert_desc(rest, r) == rest.subrange(0, q) + seq![r] + rest.skip(q));
            assert forall|t: int| 0 <= t < rows.len() + 1 implies (seq![rows[0]] + insert_desc(
                rest,
                r,
            ))[t] == (rows.subrange(0, p) + seq![r] + rows.skip(p))[t] by {
                if t > 0 {
                    assert((seq![rows[0]] + insert_desc(rest, r))[t] == insert_desc(rest, r)[t
                        - 1]);
                }
            }
        }
        assert forall|j: int| 0 <= j < p implies !lex_le(
            #[trigger] rows[j].created_at,
            r.created_at,
        ) by {
            if j > 0 {
                assert(rows[j] == rest[j - 1]);
            }
        }
        if p < rows.len() {
            assert(rows[p] == rest[q]);
        }
    }
}

/// A position that everything before strictly exceeds and whose own row (if
/// any) is at or below the timestamp is exactly `ins_pos`.
pub proof fn lemma_ins_pos_unique(rows: Seq<RowModel>, ts: Seq<char>, i: int)
    requires
        0 <= i <= rows.len(),
        forall|j: int| 0 <= j < i ==> !lex_le(#[trigger] rows[j].created_at, ts),
        i < rows.len() ==> lex_le(rows[i].created_at, ts),
    ensures
        ins_pos(rows, ts) == i,
    decreases rows.len(),
{
    if rows.len() == 0 {
    } else if lex_le(rows[0].created_at, ts) {
        if i > 0 {
            assert(!lex_le(rows[0].created_at, ts));
        }
    } else {
        assert(i >= 1) by {
            if i == 0 {
                assert(lex_le(rows[0].created_at, ts));
            }
        }
        let rest = rows.drop_first();
        assert forall|j: int| 0 <= j < i - 1 implies !lex_le(
            #[trigger] rest[j].created_at,
            ts,
        ) by {
            assert(rest[j] == rows[j + 1]);
        }
        if i - 1 < rest.len() {
            assert(rest[i - 1] == rows[i]);
        }
        lemma_ins_pos_unique(rest, ts, i - 1);
    }
}

/// Sorted insertion keeps the rows sorted newest first.
pub proof fn lemma_insert_desc_sorted(rows: Seq<RowModel>, r: RowModel)
    requires
        sorted_desc(rows),
    ensures
        sorted_desc(insert_desc(rows, r)),
{
    lemma_insert_desc(rows, r);
    let p = ins_pos(rows, r.created_at);
    let out = insert_desc(rows, r);
    assert(out.len() == rows.len() + 1);
    assert forall|i: int, j: int| 0 <= i <= j < out.len() implies #[trigger] lex_le(
        out[j].created_at,
        out[i].created_at,
    ) by {
        let a = if i < p {
            rows[i]
        } else if i == p {
            r
        } else {
            rows[i - 1]
        };
        let b = if j < p {
            rows[j]
        } else if j == p {
            r
        } else {
            rows[j - 1]
        };
        assert(out[i] == a);
        assert(out[j] == b);
        if i == j {
            lemma_lex_le_refl(a.created_at);
        } else if j < p || i > p {
            assert(lex_le(b.created_at, a.created_at));
        } else if i < p && j == p {
            lemma_lex_le_total(rows[i].created_at, r.created_at);
        } else if i == p && j > p {
            if p < rows.len() {
                assert(lex_le(rows[j - 1].created_at, rows[p].created_at));
                lemma_lex_le_trans(rows[j - 1].created_at, rows[p].created_at, r.created_at);
            }
        } else {
            assert(i < p && j > p);
            assert(lex_le(rows[j - 1].created_at, rows[i].created_at));
        }
    }
}

/// Whether the path-fixup rewrites a row: it holds an image path whose
/// filename component is non-empty and names a file present in the current
/// image directory.
pub open spec fn row_fixed(r: RowModel, present: Seq<Seq<char>>) -> bool {
    match r.image_path {
        Some(p) => file_name_spec(p).len() > 0 && present.contains(file_name_spec(p)),
        None => false,
    }
}

/// What the path-fixup does to one row: rewrite the image path to point into
/// `dir` when its filename is present there, and leave the row alone
/// otherwise.
pub open spec fn fix_row(r: RowModel, dir: Seq<char>, present: Seq<Seq<char>>) -> RowModel {
    if row_fixed(r, present) {
        RowModel { image_path: Some(join_spec(dir, file_name_spec(r.image_path->Some_0))), ..r }
    } else {
        r
    }
}

/// How many rows the path-fixup rewrites.
pub open spec fn fix_count(rows: Seq<RowModel>, present: Seq<Seq<char>>) -> int
    decreases rows.len(),
{
    if rows.len() == 0 {
        0
    } else {
        fix_count(rows.drop_last(), present) + if row_fixed(rows.last(), present) {
            1int
        } else {
            0int
        }
    }
}

/// The view of an optional string.
pub open spec fn opt_str_view(o: Option<String>) -> Option<Seq<char>> {
    match o {
        Some(s) => Some(s@),
        None => None,
    }
}

/// `idx_of` is the first position holding the id; when it equals the length,
/// no row holds it.
pub proof fn lemma_idx_of(rows: Seq<RowModel>, id: int)
    ensures
        ({
            let k = idx_of(rows, id);
            &&& 0 <= k <= rows.len()
            &&& forall|j: int| 0 <= j < k ==> (#[trigger] rows[j].id) != id
            &&& k < rows.len() ==> rows[k].id == id
        }),
    decreases rows.len(),
{
    if rows.len() == 0 {
    } else if rows[0].id == id {
    } else {
        let rest = rows.drop_first();
        lemma_idx_of(rest, id);
        let q = idx_of(rest, id);
        assert forall|j: int| 0 <= j < 1 + q implies (#[trigger] rows[j].id) != id by {
            if j > 0 {
                assert(rows[j] == rest[j - 1]);
            }
        }
        if 1 + q < rows.len() {
            assert(rows[1 + q] == rest[q]);
        }
    }
}

struct Row {
    id: i64,
    name: String,
    image_path: Option<String>,
    cantidad_necesaria: i32,
    cantidad_disponible: i32,
    created_at: String,
}

impl View for Row {
    type V = RowModel;

    closed spec fn view(&self) -> RowModel {
        RowModel {
            id: self.id as int,
            name: self.name@,
            image_path: opt_str_view(self.image_path),
            cantidad_necesaria: self.cantidad_necesaria as int,
            cantidad_disponible: self.cantidad_disponible as int,
            created_at: self.created_at@,
        }
    }
}

fn clone_opt_string(o: &Option<String>) -> (r: Option<String>)
    ensures
        r == *o,
{
    match o {
        Some(p) => Some(p.clone()),
        None => None,
    }
}

/// A pending image-file write: the caller persists `bytes` at `path` after
/// the store has recorded the path.
#[derive(Debug)]
pub struct ImageWrite {
    pub path: String,
    pub bytes: Vec<u8>,
}

/// The inventory store. It models the single database table: rows newest
/// first, with the next id the table will assign.
pub struct Inventory {
    rows: Vec<Row>,
    next_id: i64,
}

impl View for Inventory {
    type V = StoreModel;

    closed spec fn view(&self) -> StoreModel {
        StoreModel {
            rows: Seq::new(self.rows@.len(), |i: int| self.rows@[i]@),
            next_id: self.next_id as int,
        }
    }
}

impl Inventory {
    /// Well-formedness: ids unique, positive and below the next id, rows
    /// sorted newest first. Established by `new` and kept by every operation.
    pub open spec fn wf(&self) -> bool {
        store_wf(self@)
    }

    /// A fresh, empty store.
    pub fn new() -> (r: Inventory)
        ensures
            r.wf(),
            r@.rows.len() == 0,
            r@.next_id == 1,
    {
        Inventory { rows: Vec::new(), next_id: 1 }
    }

    /// How many rows the store holds.
    pub fn len(&self) -> (n: usize)
        ensures
            n == self@.rows.len(),
    {
        self.rows.len()
    }

    /// Whether the id space is exhausted, so that no further row can be
    /// added.
    pub fn at_capacity(&self) -> (r: bool)
        ensures
            r == (self@.next_id >= i64::MAX),
    {
        self.next_id >= i64::MAX
    }

    fn insert_pos(&self, created_at: &String) -> (i: usize)
        ensures
            i <= self@.rows.len(),
            forall|j: int| 0 <= j < i ==> !lex_le(#[trigger] self@.rows[j].created_at, created_at@),
            i < self@.rows.len() ==> lex_le(self@.rows[i as int].created_at, created_at@),
    {
        let n = self.rows.len();
        let mut i: usize = 0;
        loop
            invariant
                i <= n,
                n == self.rows@.len(),
                forall|j: int|
                    0 <= j < i ==> !lex_le(#[trigger] self@.rows[j].created_at, created_at@),
            decreases n - i,
        {
            if i == n {
                return i;
            }
            if str_le(self.rows[i].created_at.as_str(), created_at.as_str()) {
                assert(self@.rows[i as int].created_at == self.rows@[i as int].created_at@);
                return i;
            }
            i = i + 1;
        }
    }

    /// Insert a row with the given fields and timestamp: the store assigns
    /// the next id, places the row in timestamp order (newest first, new rows
    /// before equal timestamps), and returns the stored item, exactly as a
    /// re-read by the fresh id would.
    pub fn add_at(
        &mut self,
        name: String,
        image_path: Option<String>,
        cantidad_necesaria: i32,
        cantidad_disponible: i32,
        created_at: String,
    ) -> (item: InventoryItem)
        requires
            old(self).wf(),
            old(self)@.next_id < i64::MAX,
        ensures
            final(self).wf(),
            ({
                let res = spec_add(
                    old(self)@,
                    name@,
                    opt_str_view(image_path),
                    cantidad_necesaria as int,
                    cantidad_disponible as int,
                    created_at@,
                );
                &&& final(self)@ == res.0
                &&& item@ == row_item(res.1)
            }),
    {
        let ghost m0 = self@;
        let ghost v0 = self.rows@;
        let i = self.insert_pos(&created_at);
        let id = self.next_id;
        let row = Row {
            id,
            name: name.clone(),
            image_path: clone_opt_string(&image_path),
            cantidad_necesaria,
            cantidad_disponible,
            created_at: created_at.clone(),
        };
        let ghost rowm = row@;
        let item = InventoryItem {
            id: Some(id),
            name,
            image_path,
            cantidad_necesaria,
            cantidad_disponible,
            created_at: Some(created_at),
        };
        self.rows.insert(i, row);
        self.next_id = id + 1;
        proof {
            let p = i as int;
            lemma_ins_pos_unique(m0.rows, rowm.created_at, p);
            lemma_insert_desc(m0.rows, rowm);
            assert(self.rows@ == v0.subrange(0, p).push(row) + v0.subrange(p, v0.len() as int));
            assert(self@.rows =~= m0.rows.subrange(0, p) + seq![rowm] + m0.rows.skip(p)) by {
                assert forall|t: int| 0 <= t < self@.rows.len() implies self@.rows[t] == (
                m0.rows.subrange(0, p) + seq![rowm] + m0.rows.skip(p))[t] by {
                    if t < p {
                        assert(self.rows@[t] == v0[t]);
                        assert(m0.rows[t] == v0[t]@);
                    } else if t == p {
                        assert(self.rows@[t] == row);
                    } else {
                        assert(self.rows@[t] == v0[t - 1]);
                        assert(m0.rows[t - 1] == v0[t - 1]@);
                    }
                }
            }
            assert(self@.rows == insert_desc(m0.rows, rowm));
            lemma_insert_desc_sorted(m0.rows, rowm);
            assert forall|t: int| 0 <= t < self@.rows.len() implies 1 <= (
            #[trigger] self@.rows[t].id) < self@.next_id by {
                if t < p {
                    assert(self@.rows[t] == m0.rows[t]);
                } else if t == p {
                    assert(self@.rows[t] == rowm);
                } else {
                    assert(self@.rows[t] == m0.rows[t - 1]);
                }
            }
            assert forall|a: int, b: int| 0 <= a < b < self@.rows.len() implies (
            #[trigger] self@.rows[a].id) != (#[trigger] self@.rows[b].id) by {
                let oa: int = if a < p { a } else { a - 1 };
                let ob: int = if b < p { b } else { b - 1 };
                if a != p && b != p {
                    assert(self@.rows[a] == m0.rows[oa]);
                    assert(self@.rows[b] == m0.rows[ob]);
                    assert(m0.rows[oa].id != m0.rows[ob].id);
                } else if a == p {
                    assert(self@.rows[b] == m0.rows[ob]);
                    assert(m0.rows[ob].id < m0.next_id);
                } else {
                    assert(self@.rows[a] == m0.rows[oa]);
                    assert(m0.rows[oa].id < m0.next_id);
                }
            }
        }
        item
    }

    fn find_index(&self, id: i64) -> (r: Option<usize>)
        ensures
            ({
                let k = idx_of(self@.rows, id as int);
                match r {
                    Some(i) => i as int == k && k < self@.rows.len(),
                    None => k == self@.rows.len(),
                }
            }),
    {
        let n = self.rows.len();
        let mut i: usize = 0;
        loop
            invariant
                i <= n,
                n == self.rows@.len(),
                forall|j: int| 0 <= j < i ==> (#[trigger] self@.rows[j].id) != id as int,
            decreases n - i,
        {
            proof {
                lemma_idx_of(self@.rows, id as int);
            }
            if i == n {
                return None;
            }
            if self.rows[i].id == id {
                assert(self@.rows[i as int].id == id as int);
                return Some(i);
            }
            assert(self@.rows[i as int].id != id as int);
            i = i + 1;
        }
    }

    /// The stored image path of the row with the given id: `Some` exactly
    /// when that row exists and holds one.
    pub fn image_path_of(&self, id: i64) -> (r: Option<String>)
        ensures
            ({
                let k = idx_of(self@.rows, id as int);
                if k < self@.rows.len() {
                    opt_str_view(r) == self@.rows[k].image_path
                } else {
                    r is None
                }
            }),
    {
        match self.find_index(id) {
            Some(i) => clone_opt_string(&self.rows[i].image_path),
            None => None,
        }
    }

    /// All rows as items, newest first: position `i` of the result reads
    /// back row `i`. Under `wf` the rows — and so the returned items — are
    /// ordered by creation timestamp descending.
    pub fn list_all(&self) -> (r: Vec<InventoryItem>)
        ensures
            r@.len() == self@.rows.len(),
            forall|i: int| 0 <= i < r@.len() ==> (#[trigger] r@[i])@ == row_item(self@.rows[i]),
            self.wf() ==> forall|i: int, j: int|
                0 <= i <= j < r@.len() ==> lex_le(
                    (#[trigger] r@[j])@.created_at->Some_0,
                    (#[trigger] r@[i])@.created_at->Some_0,
                ),
    {
        let n = self.rows.len();
        let mut out: Vec<InventoryItem> = Vec::new();
        let mut i: usize = 0;
        while i < n
            invariant
                i <= n,
                n == self.rows@.len(),
                out@.len() == i,
                forall|j: int|
                    0 <= j < i ==> (#[trigger] out@[j])@ == row_item(self@.rows[j]),
            decreases n - i,
        {
            let row = &self.rows[i];
            let item = InventoryItem {
                id: Some(row.id),
                name: row.name.clone(),
                image_path: clone_opt_string(&row.image_path),
                cantidad_necesaria: row.cantidad_necesaria,
                cantidad_disponible: row.cantidad_disponible,
                created_at: Some(row.created_at.clone()),
            };
            assert(item@ == row_item(self@.rows[i as int]));
            out.push(item);
            i = i + 1;
        }
        out
    }

    /// Update the row with the given id: name and both quantities always,
    /// the image path only when a new one is supplied, never the id or the
    /// creation timestamp. Returns the updated item as a re-read would, or a
    /// persistence error exactly when no row has the id (a re-read of a
    /// missing row fails), leaving the store unchanged then.
    pub fn update_fields(
        &mut self,
        id: i64,
        name: String,
        image_path: Option<String>,
        cantidad_necesaria: i32,
        cantidad_disponible: i32,
    ) -> (r: Result<InventoryItem, InvError>)
        requires
            old(self).wf(),
        ensures
            final(self).wf(),
            ({
                let k = idx_of(old(self)@.rows, id as int);
                if k < old(self)@.rows.len() {
                    let row2 = RowModel {
                        id: id as int,
                        name: name@,
                        image_path: match image_path {
                            Some(p) => Some(p@),
                            None => old(self)@.rows[k].image_path,
                        },
                        cantidad_necesaria: cantidad_necesaria as int,
                        cantidad_disponible: cantidad_disponible as int,
                        created_at: old(self)@.rows[k].created_at,
                    };
                    &&& final(self)@.rows == old(self)@.rows.update(k, row2)
                    &&& final(self)@.next_id == old(self)@.next_id
                    &&& r matches Ok(item) && item@ == row_item(row2)
                } else {
                    &&& r == Err::<InventoryItem, InvError>(InvError::Persistence)
                    &&& final(self)@ == old(self)@
                }
            }),
    {
        let ghost m0 = self@;
        let ghost v0 = self.rows@;
        match self.find_index(id) {
            None => Err(InvError::Persistence),
            Some(i) => {
                proof {
                    lemma_idx_of(m0.rows, id as int);
                }
                let old_row = &self.rows[i];
                let new_image: Option<String> = match image_path {
                    Some(p) => Some(p),
                    None => clone_opt_string(&old_row.image_path),
                };
                let created_at = old_row.created_at.clone();
                let row2 = Row {
                    id,
                    name: name.clone(),
                    image_path: clone_opt_string(&new_image),
                    cantidad_necesaria,
                    cantidad_disponible,
                    created_at: created_at.clone(),
                };
                let ghost row2m = row2@;
                let ghost row2v = row2;
                let item = InventoryItem {
                    id: Some(id),
                    name,
                    image_path: new_image,
                    cantidad_necesaria,
                    cantidad_disponible,
                    created_at: Some(created_at),
                };
                self.rows[i] = row2;
                proof {
                    let k = i as int;
                    assert(self.rows@ == v0.update(k, row2v));
                    assert(self@.rows =~= m0.rows.update(k, row2m)) by {
                        assert forall|t: int| 0 <= t < self@.rows.len() implies self@.rows[t]
                            == m0.rows.update(k, row2m)[t] by {
                            if t != k {
                                assert(self.rows@[t] == v0[t]);
                                assert(m0.rows[t] == v0[t]@);
                            } else {
                                assert(self.rows@[t] == row2v);
                            }
                        }
                    }
                    assert(row2m.id == m0.rows[k].id);
                    assert(row2m.created_at == m0.rows[k].created_at);
                    assert forall|a: int, b: int|
                        0 <= a <= b < self@.rows.len() implies #[trigger] lex_le(
                        self@.rows[b].created_at,
                        self@.rows[a].created_at,
                    ) by {
                        assert(self@.rows[a].created_at == m0.rows[a].created_at);
                        assert(self@.rows[b].created_at == m0.rows[b].created_at);
                        assert(lex_le(m0.rows[b].created_at, m0.rows[a].created_at));
                    }
                    assert forall|t: int| 0 <= t < self@.rows.len() implies 1 <= (
                    #[trigger] self@.rows[t].id) < self@.next_id by {
                        assert(self@.rows[t].id == m0.rows[t].id);
                    }
                    assert forall|a: int, b: int| 0 <= a < b < self@.rows.len() implies (
                    #[trigger] self@.rows[a].id) != (#[trigger] self@.rows[b].id) by {
                        assert(self@.rows[a].id == m0.rows[a].id);
                        assert(self@.rows[b].id == m0.rows[b].id);
                        assert(m0.rows[a].id != m0.rows[b].id);
                    }
                }
                Ok(item)
            },
        }
    }

    /// Delete the row with the given id and hand back its stored image path,
    /// so the caller can remove the file from disk (best effort). Deleting a
    /// missing id is a no-op, not an error.
    pub fn delete(&mut self, id: i64) -> (r: Option<String>)
        requires
            old(self).wf(),
        ensures
            final(self).wf(),
            final(self)@.next_id == old(self)@.next_id,
            ({
                let k = idx_of(old(self)@.rows, id as int);
                if k < old(self)@.rows.len() {
                    &&& final(self)@.rows == old(self)@.rows.remove(k)
                    &&& opt_str_view(r) == old(self)@.rows[k].image_path
                } else {
                    &&& final(self)@ == old(self)@
                    &&& r is None
                }
            }),
    {
        let ghost m0 = self@;
        let ghost v0 = self.rows@;
        match self.find_index(id) {
            None => None,
            Some(i) => {
                let row = self.rows.remove(i);
                proof {
                    let k = i as int;
                    assert(self.rows@ == v0.remove(k));
                    assert(self@.rows =~= m0.rows.remove(k)) by {
                        assert forall|t: int| 0 <= t < self@.rows.len() implies self@.rows[t]
                            == m0.rows.remove(k)[t] by {
                            if t < k {
                                assert(self.rows@[t] == v0[t]);
                                assert(m0.rows[t] == v0[t]@);
                            } else {
                                assert(self.rows@[t] == v0[t + 1]);
                                assert(m0.rows[t + 1] == v0[t + 1]@);
                            }
                        }
                    }
                    assert forall|a: int, b: int|
                        0 <= a <= b < self@.rows.len() implies #[trigger] lex_le(
                        self@.rows[b].created_at,
                        self@.rows[a].created_at,
                    ) by {
                        let oa: int = if a < k {
                            a
                        } else {
                            a + 1
                        };
                        let ob: int = if b < k {
                            b
                        } else {
                            b + 1
                        };
                        assert(self@.rows[a] == m0.rows[oa]);
                        assert(self@.rows[b] == m0.rows[ob]);
                        assert(lex_le(m0.rows[ob].created_at, m0.rows[oa].created_at));
                    }
                    assert forall|t: int| 0 <= t < self@.rows.len() implies 1 <= (
                    #[trigger] self@.rows[t].id) < self@.next_id by {
                        let ot: int = if t < k {
                            t
                        } else {
                            t + 1
                        };
                        assert(self@.rows[t] == m0.rows[ot]);
                    }
                    assert forall|a: int, b: int| 0 <= a < b < self@.rows.len() implies (
                    #[trigger] self@.rows[a].id) != (#[trigger] self@.rows[b].id) by {
                        let oa: int = if a < k {
                            a
                        } else {
                            a + 1
                        };
                        let ob: int = if b < k {
                            b
                        } else {
                            b + 1
                        };
                        assert(self@.rows[a] == m0.rows[oa]);
                        assert(self@.rows[b] == m0.rows[ob]);
                        assert(m0.rows[oa].id != m0.rows[ob].id);
                    }
                }
                row.image_path
            },
        }
    }

    /// The one-time path-migration fixup: every row whose stored image path
    /// has a filename present in the current image directory gets its path
    /// rewritten to that directory; all other rows stay untouched. Returns
    /// how many rows were rewritten. `present` lists the filenames the
    /// caller found in the directory.
    pub fn fix_image_paths(&mut self, images_dir: &str, present: &Vec<String>) -> (count: i32)
        requires
            old(self).wf(),
            old(self)@.rows.len() <= i32::MAX,
        ensures
            final(self).wf(),
            final(self)@.next_id == old(self)@.next_id,
            final(self)@.rows.len() == old(self)@.rows.len(),
            forall|t: int|
                0 <= t < old(self)@.rows.len() ==> (#[trigger] final(self)@.rows[t]) == fix_row(
                    old(self)@.rows[t],
                    images_dir@,
                    present.deep_view(),
                ),
            count == fix_count(old(self)@.rows, present.deep_view()),
    {
        let ghost m0 = self@;
        let ghost pres = present.deep_view();
        let n = self.rows.len();
        let mut i: usize = 0;
        let mut count: i32 = 0;
        proof {
            assert(m0.rows.subrange(0, 0) =~= Seq::<RowModel>::empty());
        }
        while i < n
            invariant
                i <= n,
                n == self.rows@.len(),
                n == m0.rows.len(),
                n <= i32::MAX,
                self@.next_id == m0.next_id,
                pres == present.deep_view(),
                0 <= count <= i,
                count == fix_count(m0.rows.subrange(0, i as int), pres),
                forall|t: int|
                    0 <= t < i ==> (#[trigger] self@.rows[t]) == fix_row(
                        m0.rows[t],
                        images_dir@,
                        pres,
                    ),
                forall|t: int| i <= t < n ==> (#[trigger] self@.rows[t]) == m0.rows[t],
            decreases n - i,
        {
            let ghost v_pre = self.rows@;
            let ghost mpre = self@;
            let img: Option<String> = clone_opt_string(&self.rows[i].image_path);
            let mut did_fix = false;
            proof {
                assert(self@.rows[i as int] == m0.rows[i as int]);
                assert(self.rows@[i as int]@ == m0.rows[i as int]);
            }
            match img {
                None => {
                    proof {
                        assert(m0.rows[i as int].image_path is None);
                        assert(!row_fixed(m0.rows[i as int], pres));
                    }
                },
                Some(p) => {
                    proof {
                        assert(m0.rows[i as int].image_path == Some(p@));
                    }
                    let f = file_name_of(p.as_str());
                    if f.unicode_len() > 0 && contains_string(present, &f) {
                        let np = path_join(images_dir, f.as_str());
                        let name2 = self.rows[i].name.clone();
                        let created2 = self.rows[i].created_at.clone();
                        let row2 = Row {
                            id: self.rows[i].id,
                            name: name2,
                            image_path: Some(np),
                            cantidad_necesaria: self.rows[i].cantidad_necesaria,
                            cantidad_disponible: self.rows[i].cantidad_disponible,
                            created_at: created2,
                        };
                        let ghost row2v = row2;
                        self.rows[i] = row2;
                        count = count + 1;
                        did_fix = true;
                        proof {
                            assert(row_fixed(m0.rows[i as int], pres));
                            assert(self.rows@ == v_pre.update(i as int, row2v));
                            assert(row2v@ == fix_row(m0.rows[i as int], images_dir@, pres));
                            assert forall|t: int| 0 <= t < n && t != i implies self@.rows[t]
                                == v_pre[t]@ by {
                                assert(self.rows@[t] == v_pre[t]);
                            }
                        }
                    } else {
                        assert(!row_fixed(m0.rows[i as int], pres));
                    }
                },
            }
            proof {
                assert forall|t: int| 0 <= t < n && t != i implies self@.rows[t] == mpre.rows[t] by {
                    if did_fix {
                        assert(self.rows@[t] == v_pre[t]);
                        assert(mpre.rows[t] == v_pre[t]@);
                    }
                }
                if !did_fix {
                    assert(self@.rows[i as int] == m0.rows[i as int]);
                    assert(fix_row(m0.rows[i as int], images_dir@, pres) == m0.rows[i as int]);
                }
                assert(self@.rows[i as int] == fix_row(m0.rows[i as int], images_dir@, pres));
                assert forall|t: int| 0 <= t < i + 1 implies (#[trigger] self@.rows[t]) == fix_row(
                    m0.rows[t],
                    images_dir@,
                    pres,
                ) by {
                    if t < i {
                        assert(self@.rows[t] == mpre.rows[t]);
                    }
                }
                assert forall|t: int| i + 1 <= t < n implies (#[trigger] self@.rows[t])
                    == m0.rows[t] by {
                    assert(self@.rows[t] == mpre.rows[t]);
                }
                assert(m0.rows.subrange(0, i + 1).drop_last() =~= m0.rows.subrange(0, i as int));
                assert(m0.rows.subrange(0, i + 1).last() == m0.rows[i as int]);
            }
            i = i + 1;
        }
        proof {
            assert(m0.rows.subrange(0, n as int) =~= m0.rows);
            assert forall|a: int, b: int|
                0 <= a <= b < self@.rows.len() implies #[trigger] lex_le(
                self@.rows[b].created_at,
                self@.rows[a].created_at,
            ) by {
                assert(self@.rows[a].created_at == m0.rows[a].created_at);
                assert(self@.rows[b].created_at == m0.rows[b].created_at);
                assert(lex_le(m0.rows[b].created_at, m0.rows[a].created_at));
            }
            assert forall|t: int| 0 <= t < self@.rows.len() implies 1 <= (
            #[trigger] self@.rows[t].id) < self@.next_id by {
                assert(self@.rows[t].id == m0.rows[t].id);
            }
            assert forall|a: int, b: int| 0 <= a < b < self@.rows.len() implies (
            #[trigger] self@.rows[a].id) != (#[trigger] self@.rows[b].id) by {
                assert(self@.rows[a].id == m0.rows[a].id);
                assert(self@.rows[b].id == m0.rows[b].id);
                assert(m0.rows[a].id != m0.rows[b].id);
            }
        }
        count
    }

    /// The full add command: decode the optional base64 image payload
    /// (tolerating a data-URL prefix), choose a fresh image path under
    /// `images_dir`, stamp the row with the local time, and insert it. On
    /// malformed base64 nothing is inserted and an image-decode error comes
    /// back. On success the created item comes back together with the
    /// pending image-file write the caller must perform.
    pub fn add(
        &mut self,
        name: String,
        image_base64: Option<&str>,
        cantidad_necesaria: i32,
        cantidad_disponible: i32,
        images_dir: &str,
    ) -> (r: Result<(InventoryItem, Option<ImageWrite>), InvError>)
        requires
            old(self).wf(),
            old(self)@.next_id < i64::MAX,
        ensures
            final(self).wf(),
            match r {
                Ok(pair) => ({
                    let item = pair.0;
                    let w = pair.1;
                    &&& item@.created_at is Some
                    &&& item@.created_at->Some_0.len() >= 19
                    &&& ({
                        let img = match w {
                            Some(iw) => Some(iw.path@),
                            None => None,
                        };
                        let res = spec_add(
                            old(self)@,
                            name@,
                            img,
                            cantidad_necesaria as int,
                            cantidad_disponible as int,
                            item@.created_at->Some_0,
                        );
                        &&& final(self)@ == res.0
                        &&& item@ == row_item(res.1)
                    })
                    &&& match image_base64 {
                        None => w is None,
                        Some(data) => {
                            &&& w is Some
                            &&& b64_decoded(payload_of(data@)) == Some(w->Some_0.bytes@)
                            &&& (exists|ms: int|
                                w->Some_0.path@ == join_spec(
                                    images_dir@,
                                    image_file_name_spec(ms),
                                ))
                        },
                    }
                }),
                Err(e) => ({
                    &&& e == InvError::ImageDecode
                    &&& image_base64 is Some
                    &&& b64_decoded(payload_of(image_base64->Some_0@)) is None
                    &&& final(self)@ == old(self)@
                }),
            },
    {
        let mut write: Option<ImageWrite> = None;
        let mut image_path: Option<String> = None;
        if let Some(data) = image_base64 {
            match decode_image_payload(data) {
                Err(e) => {
                    return Err(e);
                },
                Ok(bytes) => {
                    let ms = now_unix_millis();
                    let fname = image_file_name(ms);
                    let path = path_join(images_dir, fname.as_str());
                    proof {
                        assert(path@ == join_spec(images_dir@, image_file_name_spec(ms as int)));
                    }
                    image_path = Some(path.clone());
                    write = Some(ImageWrite { path, bytes });
                },
            }
        }
        let created_at = now_local_string();
        let item = self.add_at(
            name,
            image_path,
            cantidad_necesaria,
            cantidad_disponible,
            created_at,
        );
        Ok((item, write))
    }

    /// The full update command: decode the optional base64 image payload,
    /// choose a fresh image path when one was supplied, and update the row.
    /// Malformed base64 is an image-decode error; a missing id is a
    /// persistence error (the re-read of the updated row fails); either way
    /// the store is unchanged. On success the updated item comes back
    /// together with the pending image-file write, if any. The caller
    /// removes the old image file itself, as reported by `image_path_of`.
    pub fn update(
        &mut self,
        id: i64,
        name: String,
        image_base64: Option<&str>,
        cantidad_necesaria: i32,
        cantidad_disponible: i32,
        images_dir: &str,
    ) -> (r: Result<(InventoryItem, Option<ImageWrite>), InvError>)
        requires
            old(self).wf(),
        ensures
            final(self).wf(),
            match r {
                Ok(pair) => ({
                    let item = pair.0;
                    let w = pair.1;
                    let k = idx_of(old(self)@.rows, id as int);
                    &&& k < old(self)@.rows.len()
                    &&& ({
                        let row2 = RowModel {
                            id: id as int,
                            name: name@,
                            image_path: match w {
                                Some(iw) => Some(iw.path@),
                                None => old(self)@.rows[k].image_path,
                            },
                            cantidad_necesaria: cantidad_necesaria as int,
                            cantidad_disponible: cantidad_disponible as int,
                            created_at: old(self)@.rows[k].created_at,
                        };
                        &&& final(self)@.rows == old(self)@.rows.update(k, row2)
                        &&& final(self)@.next_id == old(self)@.next_id
                        &&& item@ == row_item(row2)
                    })
                    &&& match image_base64 {
                        None => w is None,
                        Some(data) => {
                            &&& w is Some
                            &&& b64_decoded(payload_of(data@)) == Some(w->Some_0.bytes@)
                            &&& (exists|ms: int|
                                w->Some_0.path@ == join_spec(
                                    images_dir@,
                                    image_file_name_spec(ms),
                                ))
                        },
                    }
                }),
                Err(e) => ({
                    &&& final(self)@ == old(self)@
                    &&& if image_base64 is Some && b64_decoded(
                        payload_of(image_base64->Some_0@),
                    ) is None {
                        e == InvError::ImageDecode
                    } else {
                        &&& e == InvError::Persistence
                        &&& idx_of(old(self)@.rows, id as int) == old(self)@.rows.len()
                    }
                }),
            },
    {
        let mut write: Option<ImageWrite> = None;
        let mut image_path: Option<String> = None;
        if let Some(data) = image_base64 {
            match decode_image_payload(data) {
                Err(e) => {
                    return Err(e);
                },
                Ok(bytes) => {
                    let ms = now_unix_millis();
                    let fname = image_file_name(ms);
                    let path = path_join(images_dir, fname.as_str());
                    proof {
                        assert(path@ == join_spec(images_dir@, image_file_name_spec(ms as int)));
                    }
                    image_path = Some(path.clone());
                    write = Some(ImageWrite { path, bytes });
                },
            }
        }
        proof {
            lemma_idx_of(self@.rows, id as int);
        }
        match self.update_fields(id, name, image_path, cantidad_necesaria, cantidad_disponible) {
            Ok(item) => Ok((item, write)),
            Err(e) => Err(e),
        }
    }
}

fn contains_string(v: &Vec<String>, s: &String) -> (r: bool)
    ensures
        r == v.deep_view().contains(s@),
{
    let n = v.len();
    let mut i: usize = 0;
    loop
        invariant
            i <= n,
            n == v@.len(),
            forall|j: int| 0 <= j < i ==> (#[trigger] v.deep_view()[j]) != s@,
        decreases n - i,
    {
        if i == n {
            assert(!v.deep_view().contains(s@));
            return false;
        }
        if v[i].eq(s) {
            assert(v.deep_view()[i as int] == s@);
            assert(v.deep_view().contains(s@));
            return true;
        }
        assert(v.deep_view()[i as int] != s@);
        i = i + 1;
    }
}

/// The absolute path of the database file inside the data directory.
pub fn storage_path(data_dir: &str) -> (r: String)
    ensures
        r@ == join_spec(data_dir@, "inventario.db"@),
{
    path_join(data_dir, "inventario.db")
}

} // verus!
