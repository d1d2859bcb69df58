use vstd::prelude::*;

use crate::bloom::{bloom_admits_any, might_have_logs};
use crate::config::{chain_contracts, Config, Hook};
use crate::rpc::Block;
use crate::types::{address_in, contains_address, Address, Log};

verus! {

/// Whether a log was emitted in block `b` by one of `contracts`.
pub open spec fn log_matches(l: Log, contracts: Seq<Address>, b: u64) -> bool {
    l.block_number == Some(b) && address_in(l.address@, contracts)
}

/// The logs of block `b` emitted by one of `contracts`, in the order received.
pub open spec fn hook_logs(contracts: Seq<Address>, logs: Seq<Log>, b: u64) -> Seq<Log>
    decreases logs.len(),
{
    if logs.len() == 0 {
        Seq::empty()
    } else {
        let rest = hook_logs(contracts, logs.drop_last(), b);
        if log_matches(logs.last(), contracts, b) {
            rest.push(logs.last())
        } else {
            rest
        }
    }
}

/// What one hook is owed for block `b`: its id and its matching logs, when
/// the hook is on the chain and at least one log matches.
pub open spec fn hook_entry(h: (String, Hook), chain_id: i32, logs: Seq<Log>, b: u64) -> Option<
    (Seq<char>, Seq<Log>),
> {
    let ls = hook_logs(h.1.contracts@, logs, b);
    if h.1.chain_id == chain_id && ls.len() > 0 {
        Some((h.0@, ls))
    } else {
        None
    }
}

/// The deliveries that block `b` produces: one per hook that is owed
/// something, in configuration order.
pub open spec fn block_deliveries(
    hooks: Seq<(String, Hook)>,
    chain_id: i32,
    logs: Seq<Log>,
    b: u64,
) -> Seq<(Seq<char>, Seq<Log>)>
    decreases hooks.len(),
{
    if hooks.len() == 0 {
        Seq::empty()
    } else {
        let rest = block_deliveries(hooks.drop_last(), chain_id, logs, b);
        match hook_entry(hooks.last(), chain_id, logs, b) {
            Some(e) => rest.push(e),
            None => rest,
        }
    }
}

/// Whether some log of `logs` belongs to block `b`.
pub open spec fn has_log_at(logs: Seq<Log>, b: u64) -> bool {
    exists|i: int| 0 <= i < logs.len() && logs[i].block_number == Some(b)
}

/// The logs that one hook receives for one block.
pub struct HookDelivery {
    pub hook_id: String,
    pub logs: Vec<Log>,
}

impl View for HookDelivery {
    type V = (Seq<char>, Seq<Log>);

    open spec fn view(&self) -> (Seq<char>, Seq<Log>) {
        (self.hook_id@, self.logs@)
    }
}

/// One `record_block` call: the deliveries of a block, written together with
/// the advance of the chain's watermark to that block.
pub struct BlockWrite {
    pub block_number: u64,
    pub deliveries: Vec<HookDelivery>,
}

impl BlockWrite {
    pub open spec fn entries(&self) -> Seq<(Seq<char>, Seq<Log>)> {
        self.deliveries@.map_values(|d: HookDelivery| d@)
    }
}

/// The writes that processing blocks `from..=to` owes, in the order they are
/// made: each block that produces deliveries once, in ascending order, with
/// exactly those deliveries; and a last write for `to`, empty where `to`
/// produces none, so that the watermark covers the whole range.
pub open spec fn is_range_plan(
    w: Seq<BlockWrite>,
    hooks: Seq<(String, Hook)>,
    chain_id: i32,
    logs: Seq<Log>,
    from: u64,
    to: u64,
) -> bool {
    &&& w.len() > 0
    &&& w.last().block_number == to
    &&& forall|i: int| 0 <= i < w.len() ==> from <= #[trigger] w[i].block_number <= to
    &&& forall|i: int, j: int|
        0 <= i < j < w.len() ==> #[trigger] w[i].block_number < #[trigger] w[j].block_number
    &&& forall|i: int|
        0 <= i < w.len() ==> #[trigger] w[i].entries() == block_deliveries(
            hooks,
            chain_id,
            logs,
            w[i].block_number,
        )
    &&& forall|i: int| 0 <= i < w.len() - 1 ==> #[trigger] w[i].entries().len() > 0
    &&& forall|b: u64|
        from <= b <= to && #[trigger] block_deliveries(hooks, chain_id, logs, b).len() > 0
            ==> exists|i: int| 0 <= i < w.len() && w[i].block_number == b
}

proof fn lemma_hook_logs_need_log(contracts: Seq<Address>, logs: Seq<Log>, b: u64)
    requires
        hook_logs(contracts, logs, b).len() > 0,
    ensures
        has_log_at(logs, b),
    decreases logs.len(),
{
    if !log_matches(logs.last(), contracts, b) {
        lemma_hook_logs_need_log(contracts, logs.drop_last(), b);
        let i = choose|i: int| 0 <= i < logs.drop_last().len() && logs.drop_last()[i].block_number == Some(b);
        assert(logs[i].block_number == Some(b));
    } else {
        assert(logs[logs.len() - 1].block_number == Some(b));
    }
}

/// A block without any log produces no delivery.
proof fn lemma_deliveries_need_log(hooks: Seq<(String, Hook)>, chain_id: i32, logs: Seq<Log>, b: u64)
    requires
        block_deliveries(hooks, chain_id, logs, b).len() > 0,
    ensures
        has_log_at(logs, b),
    decreases hooks.len(),
{
    match hook_entry(hooks.last(), chain_id, logs, b) {
        Some(e) => lemma_hook_logs_need_log(hooks.last().1.contracts@, logs, b),
        None => lemma_deliveries_need_log(hooks.drop_last(), chain_id, logs, b),
    }
}

/// The logs of block `b` emitted by one of `contracts`, in order.
fn collect_hook_logs(contracts: &Vec<Address>, logs: &Vec<Log>, b: u64) -> (r: Vec<Log>)
    ensures
        r@ == hook_logs(contracts@, logs@, b),
{
    let mut out: Vec<Log> = Vec::new();
    let mut i: usize = 0;
    while i < logs.len()
        invariant
            i <= logs@.len(),
            out@ == hook_logs(contracts@, logs@.take(i as int), b),
        decreases logs.len() - i,
    {
        assert(logs@.take(i + 1).drop_last() =~= logs@.take(i as int));
        let l = &logs[i];
        let in_block = match l.block_number {
            Some(n) => n == b,
            None => false,
        };
        if in_block && contains_address(contracts, &l.address) {
            out.push(l.duplicate());
        }
        i = i + 1;
    }
    assert(logs@.take(i as int) =~= logs@);
    out
}

/// The deliveries of block `b`: for each hook on the chain, in configuration
/// order, its matching logs, where there is at least one.
pub fn block_entries(config: &Config, chain_id: i32, logs: &Vec<Log>, b: u64) -> (r: Vec<
    HookDelivery,
>)
    ensures
        r@.map_values(|d: HookDelivery| d@) == block_deliveries(config.hooks@, chain_id, logs@, b),
{
    let mut out: Vec<HookDelivery> = Vec::new();
    let mut i: usize = 0;
    while i < config.hooks.len()
        invariant
            i <= config.hooks@.len(),
            out@.map_values(|d: HookDelivery| d@) == block_deliveries(
                config.hooks@.take(i as int),
                chain_id,
                logs@,
                b,
            ),
        decreases config.hooks.len() - i,
    {
        assert(config.hooks@.take(i + 1).drop_last() =~= config.hooks@.take(i as int));
        let hook_id = &config.hooks[i].0;
        let hook = &config.hooks[i].1;
        if hook.chain_id == chain_id {
            let ls = collect_hook_logs(&hook.contracts, logs, b);
            if ls.len() > 0 {
                let ghost before = out@;
                out.push(HookDelivery { hook_id: hook_id.clone(), logs: ls });
                assert(out@.map_values(|d: HookDelivery| d@) =~= before.map_values(
                    |d: HookDelivery| d@,
                ).push(out@.last()@));
            }
        }
        i = i + 1;
    }
    assert(config.hooks@.take(i as int) =~= config.hooks@);
    out
}

/// The lowest block number in `lo..=hi` that some log belongs to.
fn next_log_block(logs: &Vec<Log>, lo: u64, hi: u64) -> (r: Option<u64>)
    ensures
        r matches Some(b) ==> lo <= b <= hi && has_log_at(logs@, b) && forall|c: u64|
            lo <= c < b ==> !#[trigger] has_log_at(logs@, c),
        r is None ==> forall|c: u64| lo <= c <= hi ==> !#[trigger] has_log_at(logs@, c),
{
    let mut best: Option<u64> = None;
    let mut i: usize = 0;
    while i < logs.len()
        invariant
            i <= logs@.len(),
            best matches Some(b) ==> lo <= b <= hi && has_log_at(logs@, b),
            forall|j: int|
                0 <= j < i ==> match #[trigger] logs@[j].block_number {
                    Some(n) => lo <= n <= hi ==> (best matches Some(b) && b <= n),
                    None => true,
                },
        decreases logs.len() - i,
    {
        if let Some(n) = logs[i].block_number {
            if lo <= n && n <= hi {
                let better = match best {
                    Some(b) => n < b,
                    None => true,
                };
                if better {
                    best = Some(n);
                }
            }
        }
        i = i + 1;
    }
    proof {
        assert forall|c: u64|
            lo <= c <= hi && #[trigger] has_log_at(logs@, c) implies (best matches Some(b) && b
                <= c) by {
            let j = choose|j: int| 0 <= j < logs@.len() && logs@[j].block_number == Some(c);
            assert(match logs@[j].block_number {
                Some(n) => lo <= n <= hi ==> (best matches Some(b) && b <= n),
                None => true,
            });
        }
    }
    best
}

/// The writes for blocks `from..=to`, given the logs that the node returned
/// for the range: the blocks that produce deliveries in ascending order, then
/// `to` itself where it produced none. Logs outside the range, and pending
/// logs, are ignored.
pub fn process_block_range(
    config: &Config,
    chain_id: i32,
    from: u64,
    to: u64,
    logs: &Vec<Log>,
) -> (r: Vec<BlockWrite>)
    requires
        from <= to,
    ensures
        is_range_plan(r@, config.hooks@, chain_id, logs@, from, to),
{
    let ghost hooks = config.hooks@;
    let mut writes: Vec<BlockWrite> = Vec::new();
    let mut lo: u64 = from;
    let mut done = false;
    while !done
        invariant
            from <= lo <= to,
            hooks == config.hooks@,
            forall|i: int| 0 <= i < writes@.len() ==> from <= #[trigger] writes@[i].block_number <= to,
            !done ==> forall|i: int| 0 <= i < writes@.len() ==> #[trigger] writes@[i].block_number < lo,
            forall|i: int, j: int|
                0 <= i < j < writes@.len() ==> #[trigger] writes@[i].block_number
                    < #[trigger] writes@[j].block_number,
            forall|i: int|
                0 <= i < writes@.len() ==> #[trigger] writes@[i].entries() == block_deliveries(
                    hooks,
                    chain_id,
                    logs@,
                    writes@[i].block_number,
                ),
            forall|i: int| 0 <= i < writes@.len() ==> #[trigger] writes@[i].entries().len() > 0,
            forall|b: u64|
                from <= b && (if done { b <= to } else { b < lo }) && #[trigger] block_deliveries(
                    hooks,
                    chain_id,
                    logs@,
                    b,
                ).len() > 0 ==> exists|i: int| 0 <= i < writes@.len() && writes@[i].block_number == b,
        decreases to - lo + (if done { 0int } else { 1int }),
    {
        match next_log_block(logs, lo, to) {
            None => {
                proof {
                    assert forall|b: u64|
                        from <= b <= to && #[trigger] block_deliveries(
                            hooks,
                            chain_id,
                            logs@,
                            b,
                        ).len() > 0 implies exists|i: int|
                        0 <= i < writes@.len() && writes@[i].block_number == b by {
                        if b >= lo {
                            lemma_deliveries_need_log(hooks, chain_id, logs@, b);
                        }
                    }
                }
                done = true;
            },
            Some(b) => {
                let entries = block_entries(config, chain_id, logs, b);
                let ghost before = writes@;
                if entries.len() > 0 {
                    writes.push(BlockWrite { block_number: b, deliveries: entries });
                    assert(writes@.last().entries() == block_deliveries(hooks, chain_id, logs@, b));
                }
                proof {
                    assert forall|c: u64|
                        from <= c <= b && #[trigger] block_deliveries(
                            hooks,
                            chain_id,
                            logs@,
                            c,
                        ).len() > 0 implies exists|i: int|
                        0 <= i < writes@.len() && writes@[i].block_number == c by {
                        if c < lo {
                            let i = choose|i: int|
                                0 <= i < before.len() && before[i].block_number == c;
                            assert(writes@[i] == before[i]);
                        } else if c < b {
                            lemma_deliveries_need_log(hooks, chain_id, logs@, c);
                        } else {
                            assert(writes@[writes@.len() - 1].block_number == c);
                        }
                    }
                }
                if b == to {
                    done = true;
                } else {
                    lo = b + 1;
                }
            },
        }
    }
    let last_is_to = writes.len() > 0 && writes[writes.len() - 1].block_number == to;
    if !last_is_to {
        proof {
            if block_deliveries(hooks, chain_id, logs@, to).len() > 0 {
                let i = choose|i: int| 0 <= i < writes@.len() && writes@[i].block_number == to;
                if i < writes@.len() - 1 {
                    assert(writes@[i].block_number < writes@[writes@.len() - 1].block_number);
                }
            }
            assert(block_deliveries(hooks, chain_id, logs@, to) =~= Seq::empty());
        }
        let ghost before = writes@;
        proof {
            assert forall|i: int| 0 <= i < before.len() implies #[trigger] before[i].block_number
                < to by {
                if before[i].block_number == to && i < before.len() - 1 {
                    assert(before[i].block_number < before[before.len() - 1].block_number);
                }
            }
        }
        writes.push(BlockWrite { block_number: to, deliveries: Vec::new() });
        assert(writes@.last().entries() =~= Seq::<(Seq<char>, Seq<Log>)>::empty());
        proof {
            assert forall|b: u64|
                from <= b <= to && #[trigger] block_deliveries(hooks, chain_id, logs@, b).len() > 0
                    implies exists|i: int| 0 <= i < writes@.len() && writes@[i].block_number == b by {
                let i = choose|i: int| 0 <= i < before.len() && before[i].block_number == b;
                assert(writes@[i] == before[i]);
            }
        }
    }
    writes
}

/// The deliveries that a sequence of writes carries, each as (hook id, block
/// number, logs).
pub open spec fn delivery_rows(w: Seq<BlockWrite>) -> Set<(Seq<char>, u64, Seq<Log>)> {
    Set::new(
        |r: (Seq<char>, u64, Seq<Log>)|
            exists|i: int, k: int|
                0 <= i < w.len() && 0 <= k < w[i].entries().len() && w[i].block_number == r.1
                    && #[trigger] w[i].entries()[k] == (r.0, r.2),
    )
}

/// The deliveries that the blocks `from..=to` produce.
pub open spec fn range_rows(
    hooks: Seq<(String, Hook)>,
    chain_id: i32,
    logs: Seq<Log>,
    from: u64,
    to: u64,
) -> Set<(Seq<char>, u64, Seq<Log>)> {
    Set::new(
        |r: (Seq<char>, u64, Seq<Log>)|
            from <= r.1 <= to && exists|k: int|
                0 <= k < block_deliveries(hooks, chain_id, logs, r.1).len()
                    && #[trigger] block_deliveries(hooks, chain_id, logs, r.1)[k] == (r.0, r.2),
    )
}

proof fn lemma_plan_rows(
    w: Seq<BlockWrite>,
    hooks: Seq<(String, Hook)>,
    chain_id: i32,
    logs: Seq<Log>,
    from: u64,
    to: u64,
)
    requires
        is_range_plan(w, hooks, chain_id, logs, from, to),
    ensures
        delivery_rows(w) == range_rows(hooks, chain_id, logs, from, to),
{
    assert forall|r: (Seq<char>, u64, Seq<Log>)| #[trigger]
        delivery_rows(w).contains(r) implies range_rows(hooks, chain_id, logs, from, to).contains(
        r,
    ) by {
        let (i, k) = choose|i: int, k: int|
            0 <= i < w.len() && 0 <= k < w[i].entries().len() && w[i].block_number == r.1
                && #[trigger] w[i].entries()[k] == (r.0, r.2);
        assert(w[i].entries() == block_deliveries(hooks, chain_id, logs, w[i].block_number));
        assert(block_deliveries(hooks, chain_id, logs, r.1)[k] == (r.0, r.2));
    }
    assert forall|r: (Seq<char>, u64, Seq<Log>)| #[trigger]
        range_rows(hooks, chain_id, logs, from, to).contains(r) implies delivery_rows(w).contains(
        r,
    ) by {
        let k = choose|k: int|
            0 <= k < block_deliveries(hooks, chain_id, logs, r.1).len()
                && #[trigger] block_deliveries(hooks, chain_id, logs, r.1)[k] == (r.0, r.2);
        assert(block_deliveries(hooks, chain_id, logs, r.1).len() > 0);
        let i = choose|i: int| 0 <= i < w.len() && w[i].block_number == r.1;
        assert(w[i].entries() == block_deliveries(hooks, chain_id, logs, w[i].block_number));
        assert(w[i].entries()[k] == (r.0, r.2));
    }
    assert(delivery_rows(w) =~= range_rows(hooks, chain_id, logs, from, to));
}

/// Two consecutive catch-up pages, the second starting right after the first:
/// the blocks they write strictly increase, so the watermark never goes back
/// and no block is written twice; the last write is the end of the second
/// page; and every block of either page that produces deliveries is written.
pub proof fn lemma_consecutive_ranges(
    hooks: Seq<(String, Hook)>,
    chain_id: i32,
    logs1: Seq<Log>,
    logs2: Seq<Log>,
    w1: Seq<BlockWrite>,
    w2: Seq<BlockWrite>,
    from: u64,
    mid: u64,
    to: u64,
)
    requires
        mid < to,
        is_range_plan(w1, hooks, chain_id, logs1, from, mid),
        is_range_plan(w2, hooks, chain_id, logs2, (mid + 1) as u64, to),
    ensures
        forall|i: int, j: int|
            0 <= i < j < (w1 + w2).len() ==> #[trigger] (w1 + w2)[i].block_number
                < #[trigger] (w1 + w2)[j].block_number,
        (w1 + w2).last().block_number == to,
        forall|b: u64|
            from <= b <= mid && #[trigger] block_deliveries(hooks, chain_id, logs1, b).len() > 0
                ==> exists|i: int| 0 <= i < (w1 + w2).len() && (w1 + w2)[i].block_number == b,
        forall|b: u64|
            mid < b <= to && #[trigger] block_deliveries(hooks, chain_id, logs2, b).len() > 0
                ==> exists|i: int| 0 <= i < (w1 + w2).len() && (w1 + w2)[i].block_number == b,
{
    let w = w1 + w2;
    assert forall|i: int, j: int| 0 <= i < j < w.len() implies #[trigger] w[i].block_number
        < #[trigger] w[j].block_number by {
        if j < w1.len() {
            assert(w[i] == w1[i] && w[j] == w1[j]);
        } else if i >= w1.len() {
            assert(w[i] == w2[i - w1.len()] && w[j] == w2[j - w1.len()]);
        } else {
            assert(w[i] == w1[i] && w[j] == w2[j - w1.len()]);
            assert(w1[i].block_number <= mid);
            assert(w2[j - w1.len()].block_number >= mid + 1);
        }
    }
    assert forall|b: u64|
        from <= b <= mid && #[trigger] block_deliveries(hooks, chain_id, logs1, b).len() > 0
            implies exists|i: int| 0 <= i < w.len() && w[i].block_number == b by {
        let i = choose|i: int| 0 <= i < w1.len() && w1[i].block_number == b;
        assert(w[i] == w1[i]);
    }
    assert forall|b: u64|
        mid < b <= to && #[trigger] block_deliveries(hooks, chain_id, logs2, b).len() > 0
            implies exists|i: int| 0 <= i < w.len() && w[i].block_number == b by {
        let i = choose|i: int| 0 <= i < w2.len() && w2[i].block_number == b;
        assert(w[w1.len() + i] == w2[i]);
    }
}

/// A listener restarted on a stored watermark resumes right above it, so each
/// write of its first range lies above the watermark: no block that was
/// already recorded is recorded again, and no delivery that was already
/// posted and deleted is created anew.
pub proof fn lemma_restart_above_watermark(
    watermark: u64,
    latest_block: u64,
    hooks: Seq<(String, Hook)>,
    chain_id: i32,
    logs: Seq<Log>,
    w: Seq<BlockWrite>,
    to: u64,
)
    requires
        watermark < u64::MAX,
        is_range_plan(
            w,
            hooks,
            chain_id,
            logs,
            Cursor::start_spec(Some(watermark), latest_block).next_block,
            to,
        ),
    ensures
        forall|i: int| 0 <= i < w.len() ==> #[trigger] w[i].block_number > watermark,
{
}

/// Interrupting a range after `mid` and resuming from the watermark at
/// `mid + 1` writes the same deliveries as one uninterrupted pass over
/// `from..=to`.
pub proof fn lemma_resume_same_rows(
    hooks: Seq<(String, Hook)>,
    chain_id: i32,
    logs: Seq<Log>,
    w1: Seq<BlockWrite>,
    w2: Seq<BlockWrite>,
    w: Seq<BlockWrite>,
    from: u64,
    mid: u64,
    to: u64,
)
    requires
        mid < to,
        is_range_plan(w1, hooks, chain_id, logs, from, mid),
        is_range_plan(w2, hooks, chain_id, logs, (mid + 1) as u64, to),
        is_range_plan(w, hooks, chain_id, logs, from, to),
    ensures
        delivery_rows(w1 + w2) == delivery_rows(w),
{
    lemma_plan_rows(w1, hooks, chain_id, logs, from, mid);
    lemma_plan_rows(w2, hooks, chain_id, logs, (mid + 1) as u64, to);
    lemma_plan_rows(w, hooks, chain_id, logs, from, to);
    let ws = w1 + w2;
    assert forall|r: (Seq<char>, u64, Seq<Log>)| #[trigger]
        delivery_rows(ws).contains(r) implies delivery_rows(w).contains(r) by {
        let (i, k) = choose|i: int, k: int|
            0 <= i < ws.len() && 0 <= k < ws[i].entries().len() && ws[i].block_number == r.1
                && #[trigger] ws[i].entries()[k] == (r.0, r.2);
        if i < w1.len() {
            assert(ws[i] == w1[i]);
            assert(delivery_rows(w1).contains(r));
        } else {
            assert(ws[i] == w2[i - w1.len()]);
            assert(delivery_rows(w2).contains(r));
        }
    }
    assert forall|r: (Seq<char>, u64, Seq<Log>)| #[trigger]
        delivery_rows(w).contains(r) implies delivery_rows(ws).contains(r) by {
        if r.1 <= mid {
            assert(delivery_rows(w1).contains(r));
            let (i, k) = choose|i: int, k: int|
                0 <= i < w1.len() && 0 <= k < w1[i].entries().len() && w1[i].block_number == r.1
                    && #[trigger] w1[i].entries()[k] == (r.0, r.2);
            assert(ws[i] == w1[i]);
        } else {
            assert(delivery_rows(w2).contains(r));
            let (i, k) = choose|i: int, k: int|
                0 <= i < w2.len() && 0 <= k < w2[i].entries().len() && w2[i].block_number == r.1
                    && #[trigger] w2[i].entries()[k] == (r.0, r.2);
            assert(ws[w1.len() + i] == w2[i]);
        }
    }
    assert(delivery_rows(ws) =~= delivery_rows(w));
}

/// Each delivery of a block names one of the hooks that precede it in
/// configuration order.
proof fn lemma_delivery_ids_from_hooks(
    hooks: Seq<(String, Hook)>,
    chain_id: i32,
    logs: Seq<Log>,
    b: u64,
)
    ensures
        forall|k: int|
            0 <= k < block_deliveries(hooks, chain_id, logs, b).len() ==> exists|j: int|
                0 <= j < hooks.len() && hooks[j].0@ == #[trigger] block_deliveries(
                    hooks,
                    chain_id,
                    logs,
                    b,
                )[k].0,
    decreases hooks.len(),
{
    if hooks.len() > 0 {
        let rest = hooks.drop_last();
        lemma_delivery_ids_from_hooks(rest, chain_id, logs, b);
        let d = block_deliveries(hooks, chain_id, logs, b);
        let dr = block_deliveries(rest, chain_id, logs, b);
        assert forall|k: int| 0 <= k < d.len() implies exists|j: int|
            0 <= j < hooks.len() && hooks[j].0@ == #[trigger] d[k].0 by {
            if k < dr.len() {
                assert(d[k] == dr[k]);
                let j = choose|j: int| 0 <= j < rest.len() && rest[j].0@ == dr[k].0;
                assert(hooks[j] == rest[j]);
            } else {
                assert(d[k].0 == hooks[hooks.len() - 1].0@);
            }
        }
    }
}

/// With distinct hook ids, the deliveries of one block name distinct hooks.
proof fn lemma_delivery_ids_distinct(
    hooks: Seq<(String, Hook)>,
    chain_id: i32,
    logs: Seq<Log>,
    b: u64,
)
    requires
        forall|i: int, j: int|
            0 <= i < hooks.len() && 0 <= j < hooks.len() && i != j ==> hooks[i].0@ != hooks[j].0@,
    ensures
        forall|k: int, m: int|
            0 <= k < m < block_deliveries(hooks, chain_id, logs, b).len() ==> #[trigger] block_deliveries(
                hooks,
                chain_id,
                logs,
                b,
            )[k].0 != #[trigger] block_deliveries(hooks, chain_id, logs, b)[m].0,
    decreases hooks.len(),
{
    if hooks.len() > 0 {
        let rest = hooks.drop_last();
        lemma_delivery_ids_distinct(rest, chain_id, logs, b);
        lemma_delivery_ids_from_hooks(rest, chain_id, logs, b);
        let d = block_deliveries(hooks, chain_id, logs, b);
        let dr = block_deliveries(rest, chain_id, logs, b);
        assert forall|k: int, m: int| 0 <= k < m < d.len() implies #[trigger] d[k].0
            != #[trigger] d[m].0 by {
            if m < dr.len() {
                assert(d[k] == dr[k] && d[m] == dr[m]);
            } else {
                assert(d[k] == dr[k]);
                let j = choose|j: int| 0 <= j < rest.len() && rest[j].0@ == dr[k].0;
                assert(hooks[j] == rest[j]);
                assert(d[m].0 == hooks[hooks.len() - 1].0@);
            }
        }
    }
}

/// Where hook ids are unique, a range's writes hold at most one delivery for
/// any (hook, block) pair.
pub proof fn lemma_one_row_per_hook_and_block(
    config: Config,
    chain_id: i32,
    logs: Seq<Log>,
    w: Seq<BlockWrite>,
    from: u64,
    to: u64,
)
    requires
        config.well_formed(),
        is_range_plan(w, config.hooks@, chain_id, logs, from, to),
    ensures
        forall|i: int, k: int, j: int, m: int|
            0 <= i < w.len() && 0 <= j < w.len() && 0 <= k < w[i].entries().len() && 0 <= m
                < w[j].entries().len() && w[i].block_number == w[j].block_number
                && #[trigger] w[i].entries()[k].0 == #[trigger] w[j].entries()[m].0 ==> i == j
                && k == m,
{
    assert forall|i: int, k: int, j: int, m: int|
        0 <= i < w.len() && 0 <= j < w.len() && 0 <= k < w[i].entries().len() && 0 <= m
            < w[j].entries().len() && w[i].block_number == w[j].block_number
            && #[trigger] w[i].entries()[k].0 == #[trigger] w[j].entries()[m].0 implies i == j
        && k == m by {
        if i < j {
            assert(w[i].block_number < w[j].block_number);
        } else if j < i {
            assert(w[j].block_number < w[i].block_number);
        } else {
            let b = w[i].block_number;
            lemma_delivery_ids_distinct(config.hooks@, chain_id, logs, b);
            let d = block_deliveries(config.hooks@, chain_id, logs, b);
            assert(w[i].entries() == d);
            if k < m {
                assert(d[k].0 != d[m].0);
            } else if m < k {
                assert(d[m].0 != d[k].0);
            }
        }
    }
}

/// What to do with a new head block.
pub enum HeadStep {
    /// The bloom filter rules out every watched contract: record the block
    /// with no deliveries, without fetching its logs.
    Record(BlockWrite),
    /// Some watched contract may have logged: fetch the block's logs and plan
    /// it as the range `number..=number`.
    FetchLogs,
}

/// The bloom gate of a single head block: its logs are fetched only where the
/// bloom filter admits one of the chain's contracts. A chain without
/// contracts never fetches.
pub fn process_block(config: &Config, chain_id: i32, block: &Block) -> (r: HeadStep)
    ensures
        r is FetchLogs <==> bloom_admits_any(
            block.logs_bloom@,
            chain_contracts(config.hooks@, chain_id),
        ),
        r matches HeadStep::Record(w) ==> w.block_number == block.number && w.deliveries@.len()
            == 0,
{
    let contracts = config.get_contracts(chain_id);
    if might_have_logs(&block.logs_bloom, &contracts) {
        HeadStep::FetchLogs
    } else {
        HeadStep::Record(BlockWrite { block_number: block.number, deliveries: Vec::new() })
    }
}

/// Whether any write of a planned range carries a delivery, in which case the
/// worker is woken once.
pub fn has_deliveries(writes: &Vec<BlockWrite>) -> (r: bool)
    ensures
        r == exists|i: int| 0 <= i < writes@.len() && writes@[i].deliveries@.len() > 0,
{
    let mut i: usize = 0;
    while i < writes.len()
        invariant
            i <= writes@.len(),
            forall|k: int| 0 <= k < i ==> writes@[k].deliveries@.len() == 0,
        decreases writes.len() - i,
    {
        if writes[i].deliveries.len() > 0 {
            return true;
        }
        i = i + 1;
    }
    false
}

/// Blocks per `eth_getLogs` page when the network does not set one.
pub const DEFAULT_LOGS_PAGE_SIZE: u64 = 2000;

/// The last block of the catch-up page that starts at `next`: `page_size`
/// blocks, or fewer where `latest` comes first. A page holds at least one
/// block.
pub open spec fn page_end(next: u64, latest: u64, page_size: u64) -> u64 {
    if page_size == 0 {
        next
    } else if next + page_size - 1 <= latest {
        (next + page_size - 1) as u64
    } else {
        latest
    }
}

/// The page size a network asks for, or the default.
pub open spec fn effective_page_size(logs_page_size: Option<u64>) -> u64 {
    match logs_page_size {
        Some(n) => n,
        None => DEFAULT_LOGS_PAGE_SIZE,
    }
}

/// The next thing a listener does.
#[derive(PartialEq, Eq, Structural, Debug)]
pub enum ListenerStep {
    /// Catch up: fetch the logs of `from..=to` in one request and plan the range.
    ProcessRange { from: u64, to: u64 },
    /// Follow the head: ask for the header of `block`, which may not exist yet.
    PollHead { block: u64 },
}

/// A listener's position on its chain: the next block to evaluate, and the
/// chain head sampled when the listener started.
#[derive(Clone, Copy, Debug)]
pub struct Cursor {
    pub next_block: u64,
    pub latest_block: u64,
}

impl Cursor {
    /// The cursor that `start` builds.
    pub open spec fn start_spec(last_block: Option<u64>, latest_block: u64) -> Cursor {
        Cursor {
            next_block: match last_block {
                Some(n) => (n + 1) as u64,
                None => latest_block,
            },
            latest_block,
        }
    }

    /// Resume after the stored watermark, or start at the current head on a
    /// chain that has none.
    pub fn start(last_block: Option<u64>, latest_block: u64) -> (r: Cursor)
        requires
            last_block matches Some(n) ==> n < u64::MAX,
        ensures
            r == Cursor::start_spec(last_block, latest_block),
    {
        let next_block = match last_block {
            Some(n) => n + 1,
            None => latest_block,
        };
        Cursor { next_block, latest_block }
    }

    /// Page through the backlog while it lasts, then follow the head one block
    /// at a time.
    pub fn next_step(&self, logs_page_size: Option<u64>) -> (r: ListenerStep)
        ensures
            self.next_block < self.latest_block ==> r == (ListenerStep::ProcessRange {
                from: self.next_block,
                to: page_end(
                    self.next_block,
                    self.latest_block,
                    effective_page_size(logs_page_size),
                ),
            }),
            self.next_block >= self.latest_block ==> r == (ListenerStep::PollHead {
                block: self.next_block,
            }),
    {
        if self.next_block >= self.latest_block {
            return ListenerStep::PollHead { block: self.next_block };
        }
        let size = match logs_page_size {
            Some(n) => n,
            None => DEFAULT_LOGS_PAGE_SIZE,
        };
        let to = if size == 0 {
            self.next_block
        } else if size - 1 <= self.latest_block - self.next_block {
            self.next_block + (size - 1)
        } else {
            self.latest_block
        };
        ListenerStep::ProcessRange { from: self.next_block, to }
    }

    /// Move past a block whose write was committed.
    pub fn advance(&mut self, to: u64)
        requires
            old(self).next_block <= to < u64::MAX,
        ensures
            final(self).next_block == to + 1,
            final(self).latest_block == old(self).latest_block,
    {
        self.next_block = to + 1;
    }
}

} // verus!
