use vstd::prelude::*;

use crate::config::Config;
use crate::db::{json_array, log_texts, logs_json, StoreModel, StoredDelivery};
use crate::types::Log;

verus! {

/// A pending delivery as read from the store.
pub struct Delivery {
    pub id: String,
    pub hook_id: String,
    pub chain_id: i32,
    pub block_number: u64,
    pub logs: Vec<Log>,
    pub failed_at: Option<String>,
}

/// Deliveries the worker takes from the store per tick.
pub const PENDING_BATCH_SIZE: i64 = 100;

/// Seconds to wait for a hook's endpoint when the hook does not set it.
pub const DEFAULT_HOOK_TIMEOUT: u64 = 5;

/// The character of a decimal digit.
pub open spec fn digit_char(d: nat) -> char {
    if d == 0 {
        '0'
    } else if d == 1 {
        '1'
    } else if d == 2 {
        '2'
    } else if d == 3 {
        '3'
    } else if d == 4 {
        '4'
    } else if d == 5 {
        '5'
    } else if d == 6 {
        '6'
    } else if d == 7 {
        '7'
    } else if d == 8 {
        '8'
    } else {
        '9'
    }
}

/// A natural number in decimal, without leading zeros.
pub open spec fn decimal(n: nat) -> Seq<char>
    decreases n,
{
    if n < 10 {
        seq![digit_char(n)]
    } else {
        decimal(n / 10) + seq![digit_char(n % 10)]
    }
}

/// An integer in decimal, with a leading minus sign when negative.
pub open spec fn signed_decimal(n: int) -> Seq<char> {
    if n < 0 {
        seq!['-'] + decimal((-n) as nat)
    } else {
        decimal(n as nat)
    }
}

fn digit_str(d: u64) -> (r: &'static str)
    requires
        d < 10,
    ensures
        r@ == seq![digit_char(d as nat)],
{
    proof {
        reveal_strlit("0");
        reveal_strlit("1");
        reveal_strlit("2");
        reveal_strlit("3");
        reveal_strlit("4");
        reveal_strlit("5");
        reveal_strlit("6");
        reveal_strlit("7");
        reveal_strlit("8");
        reveal_strlit("9");
    }
    let r = if d == 0 {
        "0"
    } else if d == 1 {
        "1"
    } else if d == 2 {
        "2"
    } else if d == 3 {
        "3"
    } else if d == 4 {
        "4"
    } else if d == 5 {
        "5"
    } else if d == 6 {
        "6"
    } else if d == 7 {
        "7"
    } else if d == 8 {
        "8"
    } else {
        "9"
    };
    assert(r@ =~= seq![digit_char(d as nat)]);
    r
}

fn append_decimal(s: &mut String, n: u64)
    ensures
        final(s)@ == old(s)@ + decimal(n as nat),
    decreases n,
{
    if n >= 10 {
        append_decimal(s, n / 10);
    }
    s.append(digit_str(n % 10));
    assert(s@ =~= old(s)@ + decimal(n as nat));
}

fn append_signed_decimal(s: &mut String, n: i32)
    ensures
        final(s)@ == old(s)@ + signed_decimal(n as int),
{
    if n < 0 {
        proof {
            reveal_strlit("-");
        }
        s.append("-");
        append_decimal(s, (-(n as i64)) as u64);
        assert(s@ =~= old(s)@ + signed_decimal(n as int));
    } else {
        append_decimal(s, n as u64);
    }
}

/// The JSON body posted to a hook for one delivery.
pub open spec fn webhook_payload(
    id: Seq<char>,
    chain_id: i32,
    block_number: u64,
    logs: Seq<Log>,
) -> Seq<char> {
    "{\"id\":\""@ + id + "\",\"chain_id\":"@ + signed_decimal(chain_id as int)
        + ",\"block_number\":"@ + decimal(block_number as nat) + ",\"logs\":"@ + json_array(
        log_texts(logs),
    ) + "}"@
}

/// The JSON body posted to a hook: the delivery's id, chain, block and logs.
/// Ids are KSUIDs, whose base62 text needs no escaping.
pub fn payload(delivery: &Delivery) -> (r: String)
    ensures
        r@ == webhook_payload(
            delivery.id@,
            delivery.chain_id,
            delivery.block_number,
            delivery.logs@,
        ),
{
    let mut s = String::new();
    s.append("{\"id\":\"");
    s.append(delivery.id.as_str());
    s.append("\",\"chain_id\":");
    append_signed_decimal(&mut s, delivery.chain_id);
    s.append(",\"block_number\":");
    append_decimal(&mut s, delivery.block_number);
    s.append(",\"logs\":");
    let logs = logs_json(&delivery.logs);
    s.append(logs.as_str());
    s.append("}");
    assert(s@ =~= webhook_payload(
        delivery.id@,
        delivery.chain_id,
        delivery.block_number,
        delivery.logs@,
    ));
    s
}

/// The POST that one delivery takes.
pub struct WebhookRequest {
    pub url: String,
    pub body: String,
    pub timeout_secs: u64,
}

/// The request for a pending delivery, or `None` where the configuration no
/// longer defines its hook: such a delivery cannot be served and is skipped.
pub fn deliver_block(config: &Config, delivery: &Delivery) -> (r: Option<WebhookRequest>)
    ensures
        r is None <==> !config.has_hook(delivery.hook_id@),
        r matches Some(req) ==> exists|i: int|
            0 <= i < config.hooks@.len() && config.hooks@[i].0@ == delivery.hook_id@
                && req.url@ == config.hooks@[i].1.url@ && req.timeout_secs == match config.hooks@[i].1.timeout {
                    Some(t) => t,
                    None => DEFAULT_HOOK_TIMEOUT,
                },
        r matches Some(req) ==> req.body@ == webhook_payload(
            delivery.id@,
            delivery.chain_id,
            delivery.block_number,
            delivery.logs@,
        ),
{
    match config.get_hook(&delivery.hook_id) {
        None => None,
        Some(hook) => {
            let timeout_secs = match hook.timeout {
                Some(t) => t,
                None => DEFAULT_HOOK_TIMEOUT,
            };
            Some(WebhookRequest { url: hook.url.clone(), body: payload(delivery), timeout_secs })
        },
    }
}

/// How a delivery attempt ends.
#[derive(PartialEq, Eq, Structural, Debug, Clone, Copy)]
pub enum DeliveryOutcome {
    /// The endpoint answered 2xx: commit the transaction that deleted the row.
    Delivered,
    /// Any other answer, a timeout or a transport error: roll back, then
    /// stamp the row failed so that it leaves the pending queue.
    Failed,
}

/// The outcome of a POST that answered with `status`, or with nothing.
pub open spec fn outcome_of(status: Option<u16>) -> DeliveryOutcome {
    match status {
        Some(s) => if 200 <= s < 300 {
            DeliveryOutcome::Delivered
        } else {
            DeliveryOutcome::Failed
        },
        None => DeliveryOutcome::Failed,
    }
}

/// Success is a status in `200..300`; anything else fails the delivery.
pub fn send_webhook(status: Option<u16>) -> (r: DeliveryOutcome)
    ensures
        r == outcome_of(status),
{
    match status {
        Some(s) => if 200 <= s && s < 300 {
            DeliveryOutcome::Delivered
        } else {
            DeliveryOutcome::Failed
        },
        None => DeliveryOutcome::Failed,
    }
}

/// The store after a delivery attempt on the row under `key`: the row is
/// deleted on success, and stamped failed otherwise.
pub open spec fn apply_outcome(
    s: StoreModel,
    key: (Seq<char>, i64),
    outcome: DeliveryOutcome,
) -> StoreModel {
    match outcome {
        DeliveryOutcome::Delivered => StoreModel {
            trackers: s.trackers,
            deliveries: s.deliveries.remove(key),
        },
        DeliveryOutcome::Failed => if s.deliveries.contains_key(key) {
            StoreModel {
                trackers: s.trackers,
                deliveries: s.deliveries.insert(
                    key,
                    StoredDelivery { failed: true, ..s.deliveries[key] },
                ),
            }
        } else {
            s
        },
    }
}

/// After an attempt, a delivery row is gone exactly when its POST answered
/// 2xx; otherwise it stays, stamped failed, and is no longer pending.
pub proof fn lemma_row_gone_iff_delivered(
    s: StoreModel,
    key: (Seq<char>, i64),
    status: Option<u16>,
)
    requires
        s.deliveries.contains_key(key),
    ensures
        !apply_outcome(s, key, outcome_of(status)).deliveries.contains_key(key) <==> (
        status matches Some(c) && 200 <= c < 300),
        apply_outcome(s, key, outcome_of(status)).deliveries.contains_key(key) ==> apply_outcome(
            s,
            key,
            outcome_of(status),
        ).deliveries[key].failed,
{
}

} // verus!
