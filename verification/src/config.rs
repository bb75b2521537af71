//! Static configuration of one relay: its PQKD endpoints and the hypercube
//! topology of the overlay. All of it is immutable after load.

use crate::util::{first_where, lemma_first_where, lemma_first_where_is, str_eq};
use vstd::prelude::*;

verus! {

/// One PQKD endpoint: a local KME with exactly one quantum-adjacent peer.
#[derive(Clone)]
pub struct Pqkd {
    /// Port the ETSI frontend for this endpoint listens on.
    pub port: u16,
    /// SAE id of this endpoint.
    pub sae_id: String,
    /// SAE id of the quantum-adjacent peer endpoint.
    pub remote_sae_id: String,
    /// Address of the relay daemon in front of the peer endpoint.
    pub remote_proxy_address: String,
    /// Address of the local KME.
    pub kme_address: String,
    /// Optional mTLS material; all three paths or none.
    pub ca_cert: Option<String>,
    pub client_cert: Option<String>,
    pub client_key: Option<String>,
}

impl Pqkd {
    pub fn port(&self) -> (r: u16)
        ensures
            r == self.port,
    {
        self.port
    }

    pub fn sae_id(&self) -> (r: &str)
        ensures
            r@ == self.sae_id@,
    {
        self.sae_id.as_str()
    }

    pub fn kme_address(&self) -> (r: &str)
        ensures
            r@ == self.kme_address@,
    {
        self.kme_address.as_str()
    }

    pub fn remote_sae_id(&self) -> (r: &str)
        ensures
            r@ == self.remote_sae_id@,
    {
        self.remote_sae_id.as_str()
    }

    pub fn remote_proxy_address(&self) -> (r: &str)
        ensures
            r@ == self.remote_proxy_address@,
    {
        self.remote_proxy_address.as_str()
    }

    pub fn ca_cert(&self) -> (r: &Option<String>)
        ensures
            *r == self.ca_cert,
    {
        &self.ca_cert
    }

    pub fn client_cert(&self) -> (r: &Option<String>)
        ensures
            *r == self.client_cert,
    {
        &self.client_cert
    }

    pub fn client_key(&self) -> (r: &Option<String>)
        ensures
            *r == self.client_key,
    {
        &self.client_key
    }
}

/// Index of the first PQKD whose SAE id is `sae`, or `-1`.
pub open spec fn pqkd_pos_by_sae(s: Seq<Pqkd>, sae: Seq<char>) -> int {
    first_where(s, |p: Pqkd| p.sae_id@ == sae)
}

/// Index of the first PQKD whose peer SAE id is `sae`, or `-1`.
pub open spec fn pqkd_pos_by_remote(s: Seq<Pqkd>, sae: Seq<char>) -> int {
    first_where(s, |p: Pqkd| p.remote_sae_id@ == sae)
}

/// First PQKD of the list whose SAE id is `sae`.
pub fn find_pqkd_by_sae_id<'a>(pqkds: &'a Vec<Pqkd>, sae: &str) -> (r: Option<&'a Pqkd>)
    ensures
        match r {
            Some(p) => pqkd_pos_by_sae(pqkds@, sae@) >= 0 && *p == pqkds@[pqkd_pos_by_sae(
                pqkds@,
                sae@,
            )],
            None => pqkd_pos_by_sae(pqkds@, sae@) == -1,
        },
{
    let ghost pr = (|p: Pqkd| p.sae_id@ == sae@);
    let n: usize = pqkds.len();
    let mut i: usize = 0;
    while i < n
        invariant
            i <= n,
            n == pqkds@.len(),
            forall|j: int| 0 <= j < i ==> !pr(pqkds@[j]),
            pr == (|p: Pqkd| p.sae_id@ == sae@),
        decreases n - i,
    {
        if str_eq(pqkds[i].sae_id.as_str(), sae) {
            proof {
                lemma_first_where_is(pqkds@, pr, i as int);
            }
            return Some(&pqkds[i]);
        }
        i = i + 1;
    }
    proof {
        crate::util::lemma_first_where_none(pqkds@, pr);
    }
    None
}

/// First PQKD of the list whose quantum-adjacent peer is `sae`.
pub fn find_pqkd_by_remote_sae_id<'a>(pqkds: &'a Vec<Pqkd>, sae: &str) -> (r: Option<&'a Pqkd>)
    ensures
        match r {
            Some(p) => pqkd_pos_by_remote(pqkds@, sae@) >= 0 && *p == pqkds@[pqkd_pos_by_remote(
                pqkds@,
                sae@,
            )],
            None => pqkd_pos_by_remote(pqkds@, sae@) == -1,
        },
{
    let ghost pr = (|p: Pqkd| p.remote_sae_id@ == sae@);
    let n: usize = pqkds.len();
    let mut i: usize = 0;
    while i < n
        invariant
            i <= n,
            n == pqkds@.len(),
            forall|j: int| 0 <= j < i ==> !pr(pqkds@[j]),
            pr == (|p: Pqkd| p.remote_sae_id@ == sae@),
        decreases n - i,
    {
        if str_eq(pqkds[i].remote_sae_id.as_str(), sae) {
            proof {
                lemma_first_where_is(pqkds@, pr, i as int);
            }
            return Some(&pqkds[i]);
        }
        i = i + 1;
    }
    proof {
        crate::util::lemma_first_where_none(pqkds@, pr);
    }
    None
}

/// Per-relay configuration: the relay's id in the hypercube, the inter-relay
/// port, and its PQKD endpoints.
pub struct Config {
    pub id: String,
    pub port: u16,
    pub pqkds: Vec<Pqkd>,
}

impl Config {
    pub fn id(&self) -> (r: &str)
        ensures
            r@ == self.id@,
    {
        self.id.as_str()
    }

    pub fn port(&self) -> (r: u16)
        ensures
            r == self.port,
    {
        self.port
    }

    pub fn pqkds(&self) -> (r: &Vec<Pqkd>)
        ensures
            *r == self.pqkds,
    {
        &self.pqkds
    }
}

/// A logical node of the hypercube and the PQKD endpoints it owns.
pub struct Relay {
    pub id: String,
    pub pqkds: Vec<String>,
}

impl Relay {
    pub fn id(&self) -> (r: &str)
        ensures
            r@ == self.id@,
    {
        self.id.as_str()
    }

    pub fn pqkds(&self) -> (r: &Vec<String>)
        ensures
            *r == self.pqkds,
    {
        &self.pqkds
    }
}

/// A quantum link between two PQKD endpoints; symmetric.
pub struct Connection {
    pub first: String,
    pub second: String,
}

impl Connection {
    pub fn first(&self) -> (r: &str)
        ensures
            r@ == self.first@,
    {
        self.first.as_str()
    }

    pub fn second(&self) -> (r: &str)
        ensures
            r@ == self.second@,
    {
        self.second.as_str()
    }
}

/// The loaded overlay: 2^dimension relays on hypercube labels, a fan-out
/// bound, and the quantum links between their PQKDs.
pub struct Hypercube {
    pub dimension: usize,
    pub n: usize,
    pub relay: Vec<Relay>,
    pub connection: Vec<Connection>,
}

/// True when relay `r` owns the PQKD endpoint `sae`.
pub open spec fn relay_owns(r: Relay, sae: Seq<char>) -> bool {
    exists|j: int| 0 <= j < r.pqkds@.len() && r.pqkds@[j]@ == sae
}

/// Index of the first relay owning `sae`, or `-1`.
pub open spec fn relay_pos_with_sae(s: Seq<Relay>, sae: Seq<char>) -> int {
    first_where(s, |r: Relay| relay_owns(r, sae))
}

impl Hypercube {
    pub fn dimension(&self) -> (r: usize)
        ensures
            r == self.dimension,
    {
        self.dimension
    }

    pub fn n(&self) -> (r: usize)
        ensures
            r == self.n,
    {
        self.n
    }

    pub fn relay(&self) -> (r: &Vec<Relay>)
        ensures
            *r == self.relay,
    {
        &self.relay
    }

    pub fn connection(&self) -> (r: &Vec<Connection>)
        ensures
            *r == self.connection,
    {
        &self.connection
    }

    /// Id of the first relay whose PQKD set contains `sae_id`, if any.
    pub fn find_relay(&self, sae_id: &str) -> (r: Option<&str>)
        ensures
            match r {
                Some(id) => relay_pos_with_sae(self.relay@, sae_id@) >= 0 && id@
                    == self.relay@[relay_pos_with_sae(self.relay@, sae_id@)].id@,
                None => relay_pos_with_sae(self.relay@, sae_id@) == -1,
            },
    {
        let ghost pr = (|r: Relay| relay_owns(r, sae_id@));
        let n: usize = self.relay.len();
        let mut i: usize = 0;
        while i < n
            invariant
                i <= n,
                n == self.relay@.len(),
                forall|j: int| 0 <= j < i ==> !pr(self.relay@[j]),
                pr == (|r: Relay| relay_owns(r, sae_id@)),
            decreases n - i,
        {
            let rel = &self.relay[i];
            if let Some(_j) = crate::util::find_string(&rel.pqkds, sae_id) {
                proof {
                    lemma_first_where(rel.pqkds@, |s: String| s@ == sae_id@);
                    assert(relay_owns(self.relay@[i as int], sae_id@));
                    lemma_first_where_is(self.relay@, pr, i as int);
                }
                return Some(rel.id.as_str());
            }
            proof {
                lemma_first_where(rel.pqkds@, |s: String| s@ == sae_id@);
                if relay_owns(self.relay@[i as int], sae_id@) {
                    let j = choose|j: int|
                        0 <= j < rel.pqkds@.len() && rel.pqkds@[j]@ == sae_id@;
                    assert((|s: String| s@ == sae_id@)(rel.pqkds@[j]));
                }
            }
            i = i + 1;
        }
        proof {
            crate::util::lemma_first_where_none(self.relay@, pr);
        }
        None
    }
}

/// Command-line surface of the daemon: where the relay configuration and the
/// hypercube topology live.
pub struct Args {
    pub config_file: String,
    pub hypercube_file: String,
}

} // verus!
