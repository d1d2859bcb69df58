use blockwatch::bloom::might_have_logs;
use blockwatch::config::{Config, Hook, Network};
use blockwatch::types::{contains_address, Address, Error, LogsBloom};

fn addr(b: u8) -> Address {
    Address { bytes: [b; 20] }
}

fn network(chain_id: i32, url: &str) -> Network {
    Network { chain_id, rpc_url: url.to_string(), block_time: 2, logs_page_size: Some(500) }
}

fn hook(chain_id: i32, contracts: Vec<Address>, timeout: Option<u64>) -> Hook {
    Hook { chain_id, contracts, url: format!("http://hooks.test/{}", chain_id), timeout }
}

fn sample() -> Config {
    Config {
        database_url: "sqlite::memory:".to_string(),
        networks: vec![
            ("mainnet".to_string(), network(1, "http://one.test")),
            ("polygon".to_string(), network(137, "http://poly.test")),
        ],
        hooks: vec![
            ("a".to_string(), hook(1, vec![addr(1), addr(2)], None)),
            ("b".to_string(), hook(137, vec![addr(3)], Some(9))),
            ("c".to_string(), hook(1, vec![addr(4)], None)),
        ],
    }
}

#[test]
fn get_network_by_chain_id() {
    let cfg = sample();
    assert_eq!(cfg.get_network(137).ok().unwrap().rpc_url, "http://poly.test");
    assert_eq!(cfg.get_network(5).err(), Some(Error::NetworkNotFound));
}

#[test]
fn get_contracts_of_chain_in_order() {
    let cfg = sample();
    let c: Vec<[u8; 20]> = cfg.get_contracts(1).iter().map(|a| a.bytes).collect();
    assert_eq!(c, vec![[1; 20], [2; 20], [4; 20]]);
    assert!(cfg.get_contracts(42).is_empty());
}

#[test]
fn get_hooks_of_chain() {
    let cfg = sample();
    let ids: Vec<String> = cfg.get_hooks(1).iter().map(|(id, _)| (*id).clone()).collect();
    assert_eq!(ids, vec!["a".to_string(), "c".to_string()]);
    let poly = cfg.get_hooks(137);
    assert_eq!(poly.len(), 1);
    assert_eq!(poly[0].1.timeout, Some(9));
}

#[test]
fn get_hook_by_id() {
    let cfg = sample();
    assert_eq!(cfg.get_hook(&"b".to_string()).unwrap().chain_id, 137);
    assert!(cfg.get_hook(&"gone".to_string()).is_none());
}

#[test]
fn address_membership() {
    let set = vec![addr(1), addr(2)];
    assert!(contains_address(&set, &addr(2)));
    assert!(!contains_address(&set, &addr(3)));
    let mut near = [2u8; 20];
    near[19] = 3;
    assert!(!contains_address(&set, &Address { bytes: near }));
}

#[test]
fn bloom_admits_accrued_address_only() {
    let mut bloom = ethbloom::Bloom::zero();
    bloom.accrue(ethbloom::Input::Raw(&[0xaa; 20]));
    let lb = LogsBloom { bytes: bloom.0 };
    assert!(might_have_logs(&lb, &vec![addr(0x01), addr(0xaa)]));
    assert!(!might_have_logs(&lb, &vec![addr(0x01)]));
    assert!(!might_have_logs(&lb, &vec![]));
    assert!(!might_have_logs(&LogsBloom { bytes: [0; 256] }, &vec![addr(0xaa)]));
}
