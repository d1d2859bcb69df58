use vstd::prelude::*;

use svix_ksuid::KsuidLike;

use crate::listener::BlockWrite;
use crate::types::{Error, Log};

verus! {

/// Whether `c` is a digit or an ASCII letter.
pub open spec fn is_base62_char(c: char) -> bool {
    ('0' <= c && c <= '9') || ('A' <= c && c <= 'Z') || ('a' <= c && c <= 'z')
}

/// Relies on `svix_ksuid::Ksuid::now` and its `Display`: a KSUID of the
/// current time and a random payload, written as 27 base62 characters.
#[verifier::external_body]
fn generate_id() -> (r: String)
    ensures
        r@.len() == 27,
        forall|i: int| 0 <= i < r@.len() ==> is_base62_char(#[trigger] r@[i]),
{
    svix_ksuid::Ksuid::now(None).to_string()
}

/// The items joined with commas.
pub open spec fn join_commas(items: Seq<Seq<char>>) -> Seq<char>
    decreases items.len(),
{
    if items.len() == 0 {
        Seq::empty()
    } else if items.len() == 1 {
        items[0]
    } else {
        join_commas(items.drop_last()) + seq![','] + items.last()
    }
}

/// A JSON array whose elements are the given JSON texts.
pub open spec fn json_array(items: Seq<Seq<char>>) -> Seq<char> {
    seq!['['] + join_commas(items) + seq![']']
}

/// The JSON texts of some logs.
pub open spec fn log_texts(logs: Seq<Log>) -> Seq<Seq<char>> {
    logs.map_values(|l: Log| l.json@)
}

/// The logs as one JSON array, in order, each passed through verbatim.
pub fn logs_json(logs: &Vec<Log>) -> (r: String)
    ensures
        r@ == json_array(log_texts(logs@)),
{
    proof {
        reveal_strlit("[");
    }
    let mut s = String::new();
    s.append("[");
    assert("["@ =~= seq!['[']);
    assert(s@ =~= seq!['['] + join_commas(log_texts(logs@.take(0))));
    let mut i: usize = 0;
    while i < logs.len()
        invariant
            i <= logs@.len(),
            s@ == seq!['['] + join_commas(log_texts(logs@.take(i as int))),
        decreases logs.len() - i,
    {
        let ghost items = log_texts(logs@.take(i + 1));
        assert(items.drop_last() =~= log_texts(logs@.take(i as int)));
        assert(items.last() == logs@[i as int].json@);
        let ghost prev = s@;
        if i > 0 {
            s.append(",");
            proof {
                reveal_strlit(",");
            }
            assert(","@ =~= seq![',']);
            assert(s@ =~= prev + seq![',']);
            assert(join_commas(items) == join_commas(items.drop_last()) + seq![','] + items.last());
            s.append(logs[i].json.as_str());
            assert(s@ =~= prev + seq![','] + items.last());
        } else {
            assert(items =~= seq![logs@[0].json@]);
            assert(join_commas(items) == items[0]);
            s.append(logs[i].json.as_str());
            assert(s@ =~= prev + items.last());
        }
        assert(s@ =~= seq!['['] + join_commas(items));
        i = i + 1;
    }
    assert(logs@.take(i as int) =~= logs@);
    proof {
        reveal_strlit("]");
    }
    let ghost body = s@;
    s.append("]");
    assert("]"@ =~= seq![']']);
    assert(s@ =~= body + seq![']']);
    s
}

/// A block number as the store's signed 64-bit column holds it.
pub fn block_number_to_row(n: u64) -> (r: Result<i64, Error>)
    ensures
        r is Ok <==> n <= i64::MAX,
        r matches Ok(v) ==> v == n,
        r is Err ==> r == Err::<i64, Error>(Error::BlockNumberOutOfRange),
{
    if n <= i64::MAX as u64 {
        Ok(n as i64)
    } else {
        Err(Error::BlockNumberOutOfRange)
    }
}

/// A block number read back from the store; a negative value is refused.
pub fn block_number_from_row(v: i64) -> (r: Result<u64, Error>)
    ensures
        r is Ok <==> v >= 0,
        r matches Ok(n) ==> n == v,
        r is Err ==> r == Err::<u64, Error>(Error::BlockNumberOutOfRange),
{
    if v >= 0 {
        Ok(v as u64)
    } else {
        Err(Error::BlockNumberOutOfRange)
    }
}

/// The watermark of a chain from its tracker row, if it has one.
pub fn get_last_block_number(tracker: Option<i64>) -> (r: Result<Option<u64>, Error>)
    ensures
        r is Err <==> (tracker matches Some(v) && v < 0),
        r is Err ==> r == Err::<Option<u64>, Error>(Error::BlockNumberOutOfRange),
        r matches Ok(o) ==> match tracker {
            Some(v) => o == Some(v as u64),
            None => o is None,
        },
{
    match tracker {
        None => Ok(None),
        Some(v) => match block_number_from_row(v) {
            Ok(n) => Ok(Some(n)),
            Err(e) => Err(e),
        },
    }
}

/// A delivery row to insert.
pub struct DeliveryRow {
    pub id: String,
    pub chain_id: i32,
    pub hook_id: String,
    pub block_number: i64,
    /// The delivery's logs as a JSON array.
    pub logs: String,
}

/// One `record_block` transaction: insert each row unless its (hook id, block
/// number) is already stored, then set the chain's tracker to `block_number`.
pub struct BlockRecord {
    pub chain_id: i32,
    pub block_number: i64,
    pub rows: Vec<DeliveryRow>,
}

/// The transaction that records one planned write of a chain: a row with a
/// fresh KSUID for each hook delivery, and the tracker advance. Fails where
/// the block number does not fit the store.
pub fn mark_block_processed(chain_id: i32, write: &BlockWrite) -> (r: Result<BlockRecord, Error>)
    ensures
        r is Err <==> write.block_number > i64::MAX,
        r is Err ==> r == Err::<BlockRecord, Error>(Error::BlockNumberOutOfRange),
        r matches Ok(rec) ==> {
            &&& rec.chain_id == chain_id
            &&& rec.block_number == write.block_number
            &&& rec.rows@.len() == write.deliveries@.len()
            &&& forall|i: int|
                0 <= i < rec.rows@.len() ==> {
                    &&& (#[trigger] rec.rows@[i]).chain_id == chain_id
                    &&& rec.rows@[i].block_number == write.block_number
                    &&& rec.rows@[i].hook_id@ == write.deliveries@[i].hook_id@
                    &&& rec.rows@[i].logs@ == json_array(log_texts(write.deliveries@[i].logs@))
                    &&& rec.rows@[i].id@.len() == 27
                }
        },
{
    let block_number = match block_number_to_row(write.block_number) {
        Ok(v) => v,
        Err(e) => return Err(e),
    };
    let mut rows: Vec<DeliveryRow> = Vec::new();
    let mut i: usize = 0;
    while i < write.deliveries.len()
        invariant
            i <= write.deliveries@.len(),
            block_number == write.block_number,
            rows@.len() == i,
            forall|k: int|
                0 <= k < i ==> {
                    &&& (#[trigger] rows@[k]).chain_id == chain_id
                    &&& rows@[k].block_number == write.block_number
                    &&& rows@[k].hook_id@ == write.deliveries@[k].hook_id@
                    &&& rows@[k].logs@ == json_array(log_texts(write.deliveries@[k].logs@))
                    &&& rows@[k].id@.len() == 27
                },
        decreases write.deliveries.len() - i,
    {
        let d = &write.deliveries[i];
        rows.push(
            DeliveryRow {
                id: generate_id(),
                chain_id,
                hook_id: d.hook_id.clone(),
                block_number,
                logs: logs_json(&d.logs),
            },
        );
        i = i + 1;
    }
    Ok(BlockRecord { chain_id, block_number, rows })
}

/// A stored delivery, keyed in the store by (hook id, block number).
pub struct StoredDelivery {
    pub id: Seq<char>,
    pub chain_id: i32,
    pub logs: Seq<char>,
    /// Whether `failed_at` is set.
    pub failed: bool,
}

/// The store's contents: each chain's watermark, and the deliveries under
/// their unique (hook id, block number) key.
pub struct StoreModel {
    pub trackers: Map<i32, i64>,
    pub deliveries: Map<(Seq<char>, i64), StoredDelivery>,
}

/// The unique key of a delivery row.
pub open spec fn row_key(r: DeliveryRow) -> (Seq<char>, i64) {
    (r.hook_id@, r.block_number)
}

/// Inserting rows one after the other, each only where its key is free
/// (`ON CONFLICT DO NOTHING`).
pub open spec fn insert_rows(
    d: Map<(Seq<char>, i64), StoredDelivery>,
    rows: Seq<DeliveryRow>,
) -> Map<(Seq<char>, i64), StoredDelivery>
    decreases rows.len(),
{
    if rows.len() == 0 {
        d
    } else {
        let before = insert_rows(d, rows.drop_last());
        let r = rows.last();
        if before.contains_key(row_key(r)) {
            before
        } else {
            before.insert(
                row_key(r),
                StoredDelivery { id: r.id@, chain_id: r.chain_id, logs: r.logs@, failed: false },
            )
        }
    }
}

/// The store after a `record_block` transaction has committed.
pub open spec fn apply_record(s: StoreModel, rec: BlockRecord) -> StoreModel {
    StoreModel {
        trackers: s.trackers.insert(rec.chain_id, rec.block_number),
        deliveries: insert_rows(s.deliveries, rec.rows@),
    }
}

/// Inserting rows never changes a delivery that was already stored, and
/// leaves every row's key stored.
pub proof fn lemma_insert_rows_keeps_existing(
    d: Map<(Seq<char>, i64), StoredDelivery>,
    rows: Seq<DeliveryRow>,
)
    ensures
        forall|k: (Seq<char>, i64)| #[trigger]
            d.contains_key(k) ==> insert_rows(d, rows).contains_key(k) && insert_rows(d, rows)[k]
                == d[k],
        forall|i: int|
            0 <= i < rows.len() ==> insert_rows(d, rows).contains_key(row_key(#[trigger] rows[i])),
    decreases rows.len(),
{
    if rows.len() > 0 {
        lemma_insert_rows_keeps_existing(d, rows.drop_last());
        let before = insert_rows(d, rows.drop_last());
        assert forall|k: (Seq<char>, i64)| #[trigger] d.contains_key(k) implies insert_rows(
            d,
            rows,
        ).contains_key(k) && insert_rows(d, rows)[k] == d[k] by {
            assert(before.contains_key(k) && before[k] == d[k]);
        }
        assert forall|i: int| 0 <= i < rows.len() implies insert_rows(d, rows).contains_key(
            row_key(#[trigger] rows[i]),
        ) by {
            if i < rows.len() - 1 {
                assert(rows[i] == rows.drop_last()[i]);
            }
        }
    }
}

/// Inserting rows whose keys are all stored changes nothing.
proof fn lemma_insert_stored_rows(d: Map<(Seq<char>, i64), StoredDelivery>, rows: Seq<DeliveryRow>)
    requires
        forall|i: int| 0 <= i < rows.len() ==> d.contains_key(row_key(#[trigger] rows[i])),
    ensures
        insert_rows(d, rows) == d,
    decreases rows.len(),
{
    if rows.len() > 0 {
        assert forall|i: int| 0 <= i < rows.drop_last().len() implies d.contains_key(
            row_key(#[trigger] rows.drop_last()[i]),
        ) by {
            assert(rows.drop_last()[i] == rows[i]);
        }
        lemma_insert_stored_rows(d, rows.drop_last());
        assert(d.contains_key(row_key(rows[rows.len() - 1])));
    }
}

/// Recording a block again, with the same chain, block and deliveries (the
/// row ids, freshly generated, may differ), leaves the store as the first
/// recording left it.
pub proof fn lemma_record_block_idempotent(s: StoreModel, rec: BlockRecord, again: BlockRecord)
    requires
        again.chain_id == rec.chain_id,
        again.block_number == rec.block_number,
        again.rows@.len() == rec.rows@.len(),
        forall|i: int| 0 <= i < rec.rows@.len() ==> row_key(#[trigger] again.rows@[i]) == row_key(rec.rows@[i]),
    ensures
        apply_record(apply_record(s, rec), again) == apply_record(s, rec),
{
    let once = apply_record(s, rec);
    lemma_insert_rows_keeps_existing(s.deliveries, rec.rows@);
    assert forall|i: int| 0 <= i < again.rows@.len() implies once.deliveries.contains_key(
        row_key(#[trigger] again.rows@[i]),
    ) by {
        assert(row_key(again.rows@[i]) == row_key(rec.rows@[i]));
    }
    lemma_insert_stored_rows(once.deliveries, again.rows@);
    assert(once.trackers.insert(again.chain_id, again.block_number) =~= once.trackers);
}

} // verus!
