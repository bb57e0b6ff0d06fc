//! Laws of the store, proved from the models its operations are specified
//! with. The payload-stripping laws live beside the codec in `codec`.

use vstd::prelude::*;
use crate::item::ItemModel;
use crate::store::{
    idx_of, insert_desc, items_of, lemma_idx_of, row_item, spec_add, unique_ids, StoreModel,
};
use crate::strutil::lex_le;

verus! {

/// Round trip: adding an item with no image to an empty store and listing it
/// back yields exactly one item carrying the given fields, the store's next
/// id, and the timestamp the row was stamped with — non-empty whenever the
/// stamp is.
pub proof fn lemma_add_then_list_round_trip(
    m: StoreModel,
    name: Seq<char>,
    cantidad_necesaria: int,
    cantidad_disponible: int,
    ts: Seq<char>,
)
    requires
        m.rows.len() == 0,
    ensures
        ({
            let res = spec_add(m, name, None, cantidad_necesaria, cantidad_disponible, ts);
            items_of(res.0.rows) =~= seq![
                ItemModel {
                    id: Some(m.next_id),
                    name,
                    image_path: None,
                    cantidad_necesaria,
                    cantidad_disponible,
                    created_at: Some(ts),
                },
            ]
        }),
{
    let res = spec_add(m, name, None, cantidad_necesaria, cantidad_disponible, ts);
    assert(res.0.rows =~= seq![res.1]);
}

/// Ordering: adding A and then B, where B's timestamp is at or after A's and
/// A's is at or after everything already stored, makes the listing begin
/// `[B, A, ...]` with the prior rows following unchanged.
pub proof fn lemma_add_ordering(
    m: StoreModel,
    a_name: Seq<char>,
    a_image: Option<Seq<char>>,
    a_nec: int,
    a_disp: int,
    a_ts: Seq<char>,
    b_name: Seq<char>,
    b_image: Option<Seq<char>>,
    b_nec: int,
    b_disp: int,
    b_ts: Seq<char>,
)
    requires
        lex_le(a_ts, b_ts),
        forall|i: int| 0 <= i < m.rows.len() ==> lex_le((#[trigger] m.rows[i]).created_at, a_ts),
    ensures
        ({
            let r1 = spec_add(m, a_name, a_image, a_nec, a_disp, a_ts);
            let r2 = spec_add(r1.0, b_name, b_image, b_nec, b_disp, b_ts);
            &&& r2.0.rows == seq![r2.1, r1.1] + m.rows
            &&& items_of(r2.0.rows)[0] == row_item(r2.1)
            &&& items_of(r2.0.rows)[1] == row_item(r1.1)
        }),
{
    let r1 = spec_add(m, a_name, a_image, a_nec, a_disp, a_ts);
    let r2 = spec_add(r1.0, b_name, b_image, b_nec, b_disp, b_ts);
    assert(r1.0.rows =~= seq![r1.1] + m.rows) by {
        if m.rows.len() == 0 {
            assert(insert_desc(m.rows, r1.1) == seq![r1.1]);
        } else {
            assert(lex_le(m.rows[0].created_at, a_ts));
        }
    }
    assert(r1.0.rows[0] == r1.1);
    assert(r1.0.rows.len() > 0);
    assert(lex_le(r1.0.rows[0].created_at, b_ts));
    assert(r2.0.rows =~= seq![r2.1, r1.1] + m.rows);
}

/// Delete removes the row with the given id: under unique ids, after
/// removing the row found at `idx_of` no remaining row carries the id; and
/// when no row carries it to begin with, `idx_of` runs off the end, so the
/// rows stay as they are (a no-op, not an error).
pub proof fn lemma_delete_removes(m: StoreModel, id: int)
    requires
        unique_ids(m.rows),
    ensures
        ({
            let k = idx_of(m.rows, id);
            if k < m.rows.len() {
                forall|t: int|
                    0 <= t < m.rows.remove(k).len() ==> (#[trigger] m.rows.remove(k)[t]).id != id
            } else {
                forall|t: int| 0 <= t < m.rows.len() ==> (#[trigger] m.rows[t]).id != id
            }
        }),
{
    lemma_idx_of(m.rows, id);
    let k = idx_of(m.rows, id);
    if k < m.rows.len() {
        assert forall|t: int| 0 <= t < m.rows.remove(k).len() implies (
        #[trigger] m.rows.remove(k)[t]).id != id by {
            if t < k {
                assert(m.rows.remove(k)[t] == m.rows[t]);
            } else {
                assert(m.rows.remove(k)[t] == m.rows[t + 1]);
                assert(m.rows[k].id == id);
                assert(m.rows[k].id != m.rows[t + 1].id);
            }
        }
    }
}

} // verus!
