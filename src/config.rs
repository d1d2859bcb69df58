use vstd::prelude::*;

use crate::types::{Address, Error};

verus! {

/// A network the service listens to.
#[derive(Clone, Debug)]
pub struct Network {
    pub chain_id: i32,
    pub rpc_url: String,
    /// Seconds between two polls of the chain head.
    pub block_time: u64,
    /// Blocks per `eth_getLogs` page while catching up (default 2000).
    pub logs_page_size: Option<u64>,
}

/// A webhook subscription to the logs of some contracts on one chain.
#[derive(Clone, Debug)]
pub struct Hook {
    pub chain_id: i32,
    pub contracts: Vec<Address>,
    pub url: String,
    /// Seconds to wait for the endpoint (default 5).
    pub timeout: Option<u64>,
}

/// The service's configuration: networks by name, hooks by hook id.
#[derive(Clone, Debug)]
pub struct Config {
    pub database_url: String,
    pub networks: Vec<(String, Network)>,
    pub hooks: Vec<(String, Hook)>,
}

/// The contracts of the hooks on `chain_id`, hook after hook in configuration
/// order.
pub open spec fn chain_contracts(hooks: Seq<(String, Hook)>, chain_id: i32) -> Seq<Address>
    decreases hooks.len(),
{
    if hooks.len() == 0 {
        Seq::empty()
    } else {
        let rest = chain_contracts(hooks.drop_last(), chain_id);
        if hooks.last().1.chain_id == chain_id {
            rest + hooks.last().1.contracts@
        } else {
            rest
        }
    }
}

/// Whether a hook listens on `chain_id`.
pub open spec fn on_chain(h: (String, Hook), chain_id: i32) -> bool {
    h.1.chain_id == chain_id
}

impl Config {
    /// Hook ids are unique across the configuration.
    pub open spec fn well_formed(&self) -> bool {
        forall|i: int, j: int|
            0 <= i < self.hooks@.len() && 0 <= j < self.hooks@.len() && i != j
                ==> self.hooks@[i].0@ != self.hooks@[j].0@
    }

    /// Whether some network has this chain id.
    pub open spec fn has_network(&self, chain_id: i32) -> bool {
        exists|i: int| 0 <= i < self.networks@.len() && self.networks@[i].1.chain_id == chain_id
    }

    /// The first network, in configuration order, with the given chain id.
    pub fn get_network(&self, chain_id: i32) -> (r: Result<&Network, Error>)
        ensures
            r is Err <==> !self.has_network(chain_id),
            r is Err ==> r == Err::<&Network, Error>(Error::NetworkNotFound),
            r matches Ok(n) ==> exists|i: int|
                0 <= i < self.networks@.len() && self.networks@[i].1 == *n
                    && n.chain_id == chain_id
                    && forall|k: int| 0 <= k < i ==> self.networks@[k].1.chain_id != chain_id,
    {
        let mut i: usize = 0;
        while i < self.networks.len()
            invariant
                i <= self.networks@.len(),
                forall|k: int| 0 <= k < i ==> self.networks@[k].1.chain_id != chain_id,
            decreases self.networks.len() - i,
        {
            if self.networks[i].1.chain_id == chain_id {
                return Ok(&self.networks[i].1);
            }
            i = i + 1;
        }
        Err(Error::NetworkNotFound)
    }

    /// Every contract that some hook on `chain_id` watches.
    pub fn get_contracts(&self, chain_id: i32) -> (r: Vec<Address>)
        ensures
            r@ == chain_contracts(self.hooks@, chain_id),
    {
        let mut out: Vec<Address> = Vec::new();
        let mut i: usize = 0;
        while i < self.hooks.len()
            invariant
                i <= self.hooks@.len(),
                out@ == chain_contracts(self.hooks@.take(i as int), chain_id),
            decreases self.hooks.len() - i,
        {
            let hook = &self.hooks[i].1;
            assert(self.hooks@.take(i + 1).drop_last() =~= self.hooks@.take(i as int));
            if hook.chain_id == chain_id {
                let ghost before = out@;
                let mut j: usize = 0;
                while j < hook.contracts.len()
                    invariant
                        i < self.hooks@.len(),
                        *hook == self.hooks@[i as int].1,
                        j <= hook.contracts@.len(),
                        out@ == before + hook.contracts@.take(j as int),
                    decreases hook.contracts.len() - j,
                {
                    out.push(hook.contracts[j]);
                    assert(hook.contracts@.take(j + 1) =~= hook.contracts@.take(j as int).push(
                        hook.contracts@[j as int],
                    ));
                    assert(out@ =~= before + hook.contracts@.take(j + 1));
                    j = j + 1;
                }
                assert(hook.contracts@.take(j as int) =~= hook.contracts@);
            }
            i = i + 1;
        }
        assert(self.hooks@.take(i as int) =~= self.hooks@);
        out
    }

    /// The hooks on `chain_id` with their ids, in configuration order.
    pub fn get_hooks(&self, chain_id: i32) -> (r: Vec<(&String, &Hook)>)
        ensures
            r@.len() == self.hooks@.filter(|h: (String, Hook)| on_chain(h, chain_id)).len(),
            forall|k: int|
                0 <= k < r@.len() ==> *r@[k].0 == self.hooks@.filter(
                    |h: (String, Hook)| on_chain(h, chain_id),
                )[k].0 && *r@[k].1 == self.hooks@.filter(
                    |h: (String, Hook)| on_chain(h, chain_id),
                )[k].1,
    {
        let ghost pred = |h: (String, Hook)| on_chain(h, chain_id);
        let mut out: Vec<(&String, &Hook)> = Vec::new();
        let mut i: usize = 0;
        while i < self.hooks.len()
            invariant
                i <= self.hooks@.len(),
                pred == (|h: (String, Hook)| on_chain(h, chain_id)),
                out@.len() == self.hooks@.take(i as int).filter(pred).len(),
                forall|k: int|
                    0 <= k < out@.len() ==> *out@[k].0 == self.hooks@.take(i as int).filter(
                        pred,
                    )[k].0 && *out@[k].1 == self.hooks@.take(i as int).filter(pred)[k].1,
            decreases self.hooks.len() - i,
        {
            assert(self.hooks@.take(i + 1) =~= self.hooks@.take(i as int).push(
                self.hooks@[i as int],
            ));
            proof {
                self.hooks@.take(i as int).lemma_filter_push(self.hooks@[i as int], pred);
            }
            if self.hooks[i].1.chain_id == chain_id {
                out.push((&self.hooks[i].0, &self.hooks[i].1));
            }
            i = i + 1;
        }
        assert(self.hooks@.take(i as int) =~= self.hooks@);
        out
    }

    /// Whether some hook has this id.
    pub open spec fn has_hook(&self, hook_id: Seq<char>) -> bool {
        exists|i: int| 0 <= i < self.hooks@.len() && self.hooks@[i].0@ == hook_id
    }

    /// The hook with the given id, if the configuration still defines it.
    pub fn get_hook(&self, hook_id: &String) -> (r: Option<&Hook>)
        ensures
            r is None <==> !self.has_hook(hook_id@),
            r matches Some(h) ==> exists|i: int|
                0 <= i < self.hooks@.len() && self.hooks@[i].0@ == hook_id@ && self.hooks@[i].1
                    == *h,
    {
        let mut i: usize = 0;
        while i < self.hooks.len()
            invariant
                i <= self.hooks@.len(),
                forall|k: int| 0 <= k < i ==> self.hooks@[k].0@ != hook_id@,
            decreases self.hooks.len() - i,
        {
            if self.hooks[i].0 == *hook_id {
                return Some(&self.hooks[i].1);
            }
            i = i + 1;
        }
        None
    }
}

} // verus!
