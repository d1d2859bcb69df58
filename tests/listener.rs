use blockwatch::config::{Config, Hook, Network};
use blockwatch::listener::{
    block_entries, has_deliveries, process_block, process_block_range, Cursor, HeadStep,
    ListenerStep,
};
use blockwatch::rpc::{Block, PendingBlock};
use blockwatch::types::{Address, Error, Log, LogsBloom};

fn addr(b: u8) -> Address {
    Address { bytes: [b; 20] }
}

fn log_at(a: u8, block: u64, json: &str) -> Log {
    Log { address: addr(a), block_number: Some(block), json: json.to_string() }
}

fn hook(chain_id: i32, contracts: Vec<Address>) -> Hook {
    Hook { chain_id, contracts, url: "http://example.test/hook".to_string(), timeout: None }
}

fn config(hooks: Vec<(&str, Hook)>) -> Config {
    Config {
        database_url: "sqlite::memory:".to_string(),
        networks: vec![(
            "mainnet".to_string(),
            Network {
                chain_id: 1,
                rpc_url: "http://node.test".to_string(),
                block_time: 12,
                logs_page_size: None,
            },
        )],
        hooks: hooks.into_iter().map(|(id, h)| (id.to_string(), h)).collect(),
    }
}

fn bloom_of(addresses: &[Address]) -> LogsBloom {
    let mut bloom = ethbloom::Bloom::zero();
    for a in addresses {
        bloom.accrue(ethbloom::Input::Raw(&a.bytes));
    }
    LogsBloom { bytes: bloom.0 }
}

fn block(number: u64, logs_bloom: LogsBloom) -> Block {
    Block { hash: [7; 32], number, logs_bloom }
}

#[test]
fn empty_bloom_records_block_without_fetch() {
    let cfg = config(vec![("h", hook(1, vec![addr(0xaa)]))]);
    let b = block(100, LogsBloom { bytes: [0; 256] });
    match process_block(&cfg, 1, &b) {
        HeadStep::Record(w) => {
            assert_eq!(w.block_number, 100);
            assert!(w.deliveries.is_empty());
            assert!(!has_deliveries(&vec![w]));
        }
        HeadStep::FetchLogs => panic!("an empty bloom must not fetch logs"),
    }
}

#[test]
fn single_matching_log_yields_one_delivery() {
    let cfg = config(vec![("h", hook(1, vec![addr(0xaa)]))]);
    let b = block(101, bloom_of(&[addr(0xaa)]));
    assert!(matches!(process_block(&cfg, 1, &b), HeadStep::FetchLogs));
    let logs = vec![log_at(0xaa, 101, "{\"n\":1}")];
    let writes = process_block_range(&cfg, 1, 101, 101, &logs);
    assert_eq!(writes.len(), 1);
    assert_eq!(writes[0].block_number, 101);
    assert_eq!(writes[0].deliveries.len(), 1);
    assert_eq!(writes[0].deliveries[0].hook_id, "h");
    assert_eq!(writes[0].deliveries[0].logs.len(), 1);
    assert_eq!(writes[0].deliveries[0].logs[0].json, "{\"n\":1}");
    assert!(has_deliveries(&writes));
}

#[test]
fn bloom_of_other_contract_skips_fetch() {
    let cfg = config(vec![("h", hook(1, vec![addr(0xaa)]))]);
    let b = block(5, bloom_of(&[addr(0x11)]));
    assert!(matches!(process_block(&cfg, 1, &b), HeadStep::Record(_)));
}

#[test]
fn chain_without_contracts_never_fetches() {
    let cfg = config(vec![("h", hook(2, vec![addr(0xaa)]))]);
    let b = block(9, bloom_of(&[addr(0xaa)]));
    assert!(matches!(process_block(&cfg, 1, &b), HeadStep::Record(_)));
}

#[test]
fn two_hooks_same_block_partial_overlap() {
    let cfg = config(vec![
        ("H1", hook(1, vec![addr(0xaa), addr(0xbb)])),
        ("H2", hook(1, vec![addr(0xbb)])),
    ]);
    let logs = vec![
        log_at(0xaa, 200, "{\"i\":0}"),
        log_at(0xbb, 200, "{\"i\":1}"),
        log_at(0xbb, 200, "{\"i\":2}"),
    ];
    let writes = process_block_range(&cfg, 1, 200, 200, &logs);
    assert_eq!(writes.len(), 1);
    assert_eq!(writes[0].block_number, 200);
    let d = &writes[0].deliveries;
    assert_eq!(d.len(), 2);
    assert_eq!(d[0].hook_id, "H1");
    assert_eq!(d[0].logs.len(), 3);
    assert_eq!(d[1].hook_id, "H2");
    assert_eq!(d[1].logs.len(), 2);
    assert_eq!(d[1].logs[0].json, "{\"i\":1}");
    assert_eq!(d[1].logs[1].json, "{\"i\":2}");
}

#[test]
fn range_writes_ascending_and_ends_at_last_block() {
    let cfg = config(vec![("h", hook(1, vec![addr(0xaa)]))]);
    let logs = vec![
        log_at(0xaa, 30, "{\"b\":30}"),
        log_at(0xaa, 12, "{\"b\":12}"),
        log_at(0xcc, 20, "{\"b\":20}"),
        Log { address: addr(0xaa), block_number: None, json: "{}".to_string() },
        log_at(0xaa, 99, "{\"b\":99}"),
    ];
    let writes = process_block_range(&cfg, 1, 10, 40, &logs);
    let blocks: Vec<u64> = writes.iter().map(|w| w.block_number).collect();
    assert_eq!(blocks, vec![12, 30, 40]);
    assert_eq!(writes[0].deliveries.len(), 1);
    assert_eq!(writes[1].deliveries.len(), 1);
    assert!(writes[2].deliveries.is_empty());
}

#[test]
fn range_ending_with_deliveries_has_no_extra_write() {
    let cfg = config(vec![("h", hook(1, vec![addr(0xaa)]))]);
    let logs = vec![log_at(0xaa, 40, "{}")];
    let writes = process_block_range(&cfg, 1, 10, 40, &logs);
    assert_eq!(writes.len(), 1);
    assert_eq!(writes[0].block_number, 40);
    assert_eq!(writes[0].deliveries.len(), 1);
}

#[test]
fn range_without_logs_only_advances_watermark() {
    let cfg = config(vec![("h", hook(1, vec![addr(0xaa)]))]);
    let writes = process_block_range(&cfg, 1, 1, 2000, &vec![]);
    assert_eq!(writes.len(), 1);
    assert_eq!(writes[0].block_number, 2000);
    assert!(writes[0].deliveries.is_empty());
    assert!(!has_deliveries(&writes));
}

#[test]
fn hooks_of_other_chains_get_nothing() {
    let cfg = config(vec![("a", hook(1, vec![addr(0xaa)])), ("b", hook(5, vec![addr(0xaa)]))]);
    let logs = vec![log_at(0xaa, 7, "{}")];
    let entries = block_entries(&cfg, 1, &logs, 7);
    assert_eq!(entries.len(), 1);
    assert_eq!(entries[0].hook_id, "a");
}

#[test]
fn resuming_mid_range_gives_same_rows() {
    let cfg = config(vec![("h", hook(1, vec![addr(0xaa)]))]);
    let logs = vec![log_at(0xaa, 3, "{\"b\":3}"), log_at(0xaa, 8, "{\"b\":8}")];
    let whole = process_block_range(&cfg, 1, 1, 10, &logs);
    let first = process_block_range(&cfg, 1, 1, 5, &logs);
    let second = process_block_range(&cfg, 1, 6, 10, &logs);
    let rows = |ws: &[blockwatch::listener::BlockWrite]| {
        let mut out = Vec::new();
        for w in ws {
            for d in &w.deliveries {
                out.push((d.hook_id.clone(), w.block_number, d.logs.len()));
            }
        }
        out
    };
    let mut split = rows(&first);
    split.extend(rows(&second));
    assert_eq!(split, rows(&whole));
    assert_eq!(split, vec![("h".to_string(), 3, 1), ("h".to_string(), 8, 1)]);
}

#[test]
fn catch_up_with_page_size() {
    let mut c = Cursor::start(Some(0), 2500);
    assert_eq!(c.next_step(Some(2000)), ListenerStep::ProcessRange { from: 1, to: 2000 });
    c.advance(2000);
    assert_eq!(c.next_step(Some(2000)), ListenerStep::ProcessRange { from: 2001, to: 2500 });
    c.advance(2500);
    assert_eq!(c.next_step(Some(2000)), ListenerStep::PollHead { block: 2501 });
}

#[test]
fn cold_start_begins_at_head() {
    let c = Cursor::start(None, 777);
    assert_eq!(c.next_block, 777);
    assert_eq!(c.next_step(None), ListenerStep::PollHead { block: 777 });
}

#[test]
fn default_page_size_is_two_thousand() {
    let c = Cursor::start(Some(99), 10_000);
    assert_eq!(c.next_step(None), ListenerStep::ProcessRange { from: 100, to: 2099 });
}

#[test]
fn zero_page_size_takes_one_block() {
    let c = Cursor::start(Some(4), 10);
    assert_eq!(c.next_step(Some(0)), ListenerStep::ProcessRange { from: 5, to: 5 });
}

#[test]
fn head_advance_moves_past_block() {
    let mut c = Cursor::start(Some(10), 11);
    assert_eq!(c.next_step(None), ListenerStep::PollHead { block: 11 });
    c.advance(11);
    assert_eq!(c.next_step(None), ListenerStep::PollHead { block: 12 });
}

#[test]
fn pending_header_is_refused() {
    let pending = PendingBlock { hash: None, number: Some(3), logs_bloom: Some(LogsBloom { bytes: [0; 256] }) };
    assert_eq!(Block::try_from_pending(pending).err(), Some(Error::PendingBlock));
    let done = PendingBlock {
        hash: Some([1; 32]),
        number: Some(3),
        logs_bloom: Some(LogsBloom { bytes: [0; 256] }),
    };
    let b = Block::try_from_pending(done).ok().unwrap();
    assert_eq!(b.number, 3);
    assert_eq!(b.hash, [1; 32]);
}

#[test]
fn restart_resumes_above_watermark() {
    let c = Cursor::start(Some(2500), 3000);
    assert_eq!(c.next_block, 2501);
    assert_eq!(c.next_step(Some(100)), ListenerStep::ProcessRange { from: 2501, to: 2600 });
    let cfg = config(vec![("h", hook(1, vec![addr(0xaa)]))]);
    let logs = vec![log_at(0xaa, 2500, "{}"), log_at(0xaa, 2501, "{}")];
    let writes = process_block_range(&cfg, 1, 2501, 2600, &logs);
    assert!(writes.iter().all(|w| w.block_number > 2500));
    assert_eq!(writes[0].block_number, 2501);
}
