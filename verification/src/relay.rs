//! The relay protocol engine: one-time-pad carriers for each hop of the XOR
//! chain, resolution of arrived carriers back to plain keys, and routing of
//! arrived envelopes.

use crate::config::{find_pqkd_by_sae_id, pqkd_pos_by_sae, Pqkd};
use crate::errors::RelayServerError;
use crate::keys::{Key, KeyId, KeyReceived, Prom};
use crate::store::{has_rec, put_rest, store_wf, taken_keys, lemma_put_then_take};
use crate::util::{find_string, lemma_first_where, str_eq, str_pos, xor, xor_bytes,
    lemma_xor_bytes_cancel};
use vstd::prelude::*;
use vstd::string::{StrSliceExecFns, StringExecFns};
use vstd::utf8::{decode_utf8, encode_utf8, valid_utf8};

verus! {

/// What base64's standard-alphabet decoder returns for a given text: `None`
/// on text that is not valid base64, else the decoded bytes.
pub uninterp spec fn b64_decoded(s: Seq<char>) -> Option<Seq<u8>>;

/// Relies on base64's `BASE64_STANDARD.decode`: the outcome is a function of
/// the input text alone, and the decoded bytes are never more numerous than
/// the text's characters.
#[verifier::external_body]
fn b64_decode(s: &str) -> (r: Option<Vec<u8>>)
    ensures
        match r {
            Some(v) => b64_decoded(s@) == Some(v@) && v@.len() <= s@.len(),
            None => b64_decoded(s@) is None,
        },
{
    base64::Engine::decode(&base64::engine::general_purpose::STANDARD, s).ok()
}

/// Relies on `String::from_utf8`: it succeeds exactly on valid UTF-8 and
/// returns the character sequence those bytes encode.
#[verifier::external_body]
fn string_from_utf8(v: Vec<u8>) -> (r: Option<String>)
    ensures
        r is Some <==> valid_utf8(v@),
        r is Some ==> r->0@ == decode_utf8(v@),
{
    String::from_utf8(v).ok()
}

/// The bit size an intermediate hop requests for its fresh hop-local keys:
/// eight times the decoded length of the in-flight key's base64 material.
pub fn xor_key_size(first_key: &Key) -> (r: Option<usize>)
    ensures
        match r {
            Some(sz) => b64_decoded(first_key.key@) is Some && sz == 8 * b64_decoded(
                first_key.key@,
            )->0.len(),
            None => b64_decoded(first_key.key@) is None || 8 * b64_decoded(
                first_key.key@,
            )->0.len() > usize::MAX,
        },
{
    match b64_decode(first_key.key.as_str()) {
        Some(d) => {
            if d.len() <= usize::MAX / 8 {
                Some(8 * d.len())
            } else {
                None
            }
        },
        None => None,
    }
}

/// The payload that transits a link for one key: the base64 text of the
/// in-flight key, XOR-ed byte-wise with the base64 text of the hop-local key.
pub open spec fn masked(inflight: Seq<char>, hop: Seq<char>) -> Seq<u8> {
    xor_bytes(encode_utf8(inflight), encode_utf8(hop))
}

/// Origin-hop carriers: identifiers only, no key material.
pub fn build_proms_origin(keys: &Vec<Key>) -> (r: Vec<Prom>)
    ensures
        r@.len() == keys@.len(),
        forall|i: int|
            0 <= i < r@.len() ==> (#[trigger] r@[i]).spec_key_id() == keys@[i].key_id@
                && r@[i].spec_key_id_xor() is None && r@[i].spec_key() is None,
{
    let n: usize = keys.len();
    let mut r: Vec<Prom> = Vec::new();
    let mut i: usize = 0;
    while i < n
        invariant
            i <= n,
            n == keys@.len(),
            r@.len() == i,
            forall|j: int|
                0 <= j < i ==> (#[trigger] r@[j]).spec_key_id() == keys@[j].key_id@
                    && r@[j].spec_key_id_xor() is None && r@[j].spec_key() is None,
        decreases n - i,
    {
        r.push(Prom::new(keys[i].key_id.clone(), None, None));
        i = i + 1;
    }
    r
}

/// Intermediate-hop carriers: entry `i` keeps the incoming key's id, names
/// the `i`-th fresh hop-local key, and carries the incoming key's text masked
/// with that fresh key's text. Fails when the KME granted fewer fresh keys
/// than there are incoming keys.
pub fn build_proms_xor(keys: &Vec<Key>, fresh: &Vec<Key>) -> (r: Result<
    Vec<Prom>,
    crate::errors::EtsiServerError,
>)
    ensures
        r is Ok <==> fresh@.len() >= keys@.len(),
        r matches Err(e) ==> e matches crate::errors::EtsiServerError::SendKeysError,
        r matches Ok(ps) ==> ps@.len() == keys@.len() && (forall|i: int|
            0 <= i < ps@.len() ==> (#[trigger] ps@[i]).spec_key_id() == keys@[i].key_id@ && (
            ps@[i].spec_key_id_xor() matches Some(x) && x@ == fresh@[i].key_id@) && (
            ps@[i].spec_key() matches Some(c) && c@ == masked(keys@[i].key@, fresh@[i].key@))),
{
    let n: usize = keys.len();
    if fresh.len() < n {
        return Err(crate::errors::EtsiServerError::SendKeysError);
    }
    let mut r: Vec<Prom> = Vec::new();
    let mut i: usize = 0;
    while i < n
        invariant
            i <= n,
            n == keys@.len(),
            n <= fresh@.len(),
            r@.len() == i,
            forall|j: int|
                0 <= j < i ==> (#[trigger] r@[j]).spec_key_id() == keys@[j].key_id@ && (
                r@[j].spec_key_id_xor() matches Some(x) && x@ == fresh@[j].key_id@) && (
                r@[j].spec_key() matches Some(c) && c@ == masked(keys@[j].key@, fresh@[j].key@)),
        decreases n - i,
    {
        let payload = xor(
            keys[i].key.as_str().as_bytes_vec(),
            fresh[i].key.as_str().as_bytes_vec(),
        );
        r.push(
            Prom::new(keys[i].key_id.clone(), Some(fresh[i].key_id.clone()), Some(payload)),
        );
        i = i + 1;
    }
    Ok(r)
}

/// Which key id the receiving KME must be asked for before carrier `p` can
/// be resolved: the sender's hop-local key id for masked carriers, the
/// original key id for origin carriers, nothing otherwise.
pub fn prom_fetch_id(p: &Prom) -> (r: Option<String>)
    ensures
        match (p.spec_key_id_xor(), p.spec_key()) {
            (Option::None, Option::None) => r matches Some(id) && id@ == p.spec_key_id(),
            (Option::Some(x), Option::Some(_)) => r matches Some(id) && id@ == x@,
            _ => r is None,
        },
{
    if p.key_id_xor().is_none() {
        if p.key().is_none() {
            Some(String::from_str(p.key_id()))
        } else {
            None
        }
    } else {
        if p.key().is_some() {
            match p.key_id_xor() {
                Some(x) => Some(x.clone()),
                None => None,
            }
        } else {
            None
        }
    }
}

/// Resolve one carrier to a plain key, given what the local KME answered to
/// the fetch that `prom_fetch_id` asked for. Carriers with only a hop key id
/// and no payload resolve to nothing; a payload that does not decode to text
/// after unmasking, or a missing fetch, is an error.
pub fn resolve_prom(p: &Prom, fetched: Option<&Key>) -> (r: Result<Option<Key>, RelayServerError>)
    ensures
        match (p.spec_key_id_xor(), p.spec_key()) {
            (Option::None, Option::Some(c)) => {
                if valid_utf8(c@) {
                    r matches Ok(Some(k)) && k.key_id@ == p.spec_key_id() && k.key@ == decode_utf8(
                        c@,
                    )
                } else {
                    r matches Err(RelayServerError::GetKeysError)
                }
            },
            (Option::None, Option::None) => {
                match fetched {
                    Some(f) => r matches Ok(Some(k)) && k == *f,
                    None => r matches Err(RelayServerError::GetKeysError),
                }
            },
            (Option::Some(_), Option::Some(c)) => {
                match fetched {
                    Some(h) => {
                        if valid_utf8(xor_bytes(c@, encode_utf8(h.key@))) {
                            r matches Ok(Some(k)) && k.key_id@ == p.spec_key_id() && k.key@
                                == decode_utf8(xor_bytes(c@, encode_utf8(h.key@)))
                        } else {
                            r matches Err(RelayServerError::GetKeysError)
                        }
                    },
                    None => r matches Err(RelayServerError::GetKeysError),
                }
            },
            (Option::Some(_), Option::None) => r matches Ok(None),
        },
{
    if p.key_id_xor().is_none() {
        match p.key() {
            Some(c) => {
                let bytes = vstd::slice::slice_to_vec(c.as_slice());
                match string_from_utf8(bytes) {
                    Some(s) => Ok(
                        Some(Key { key: s, key_id: String::from_str(p.key_id()) }),
                    ),
                    None => Err(RelayServerError::GetKeysError),
                }
            },
            None => {
                match fetched {
                    Some(f) => {
                        let k = Key { key: f.key.clone(), key_id: f.key_id.clone() };
                        assert(k == *f);
                        Ok(Some(k))
                    },
                    None => Err(RelayServerError::GetKeysError),
                }
            },
        }
    } else {
        match p.key() {
            Some(c) => {
                match fetched {
                    Some(h) => {
                        let recovered = xor(
                            vstd::slice::slice_to_vec(c.as_slice()),
                            h.key.as_str().as_bytes_vec(),
                        );
                        match string_from_utf8(recovered) {
                            Some(s) => Ok(
                                Some(Key { key: s, key_id: String::from_str(p.key_id()) }),
                            ),
                            None => Err(RelayServerError::GetKeysError),
                        }
                    },
                    None => Err(RelayServerError::GetKeysError),
                }
            },
            None => Ok(None),
        }
    }
}

/// XOR CHAIN, one link: unmasking a link payload with the hop key that
/// masked it restores the in-flight key's text exactly, whenever the hop key
/// is at least as long.
pub proof fn lemma_link_roundtrip(inflight: Seq<char>, hop: Seq<char>)
    requires
        encode_utf8(inflight).len() <= encode_utf8(hop).len(),
    ensures
        xor_bytes(masked(inflight, hop), encode_utf8(hop)) == encode_utf8(inflight),
        valid_utf8(xor_bytes(masked(inflight, hop), encode_utf8(hop))),
        decode_utf8(xor_bytes(masked(inflight, hop), encode_utf8(hop))) == inflight,
{
    lemma_xor_bytes_cancel(encode_utf8(inflight), encode_utf8(hop));
    vstd::utf8::encode_utf8_valid_utf8(inflight);
    vstd::utf8::encode_utf8_decode_utf8(inflight);
}

/// The key text the terminal hop sees after every hop has masked the
/// in-flight key with its hop-local key and the next relay has unmasked it.
pub open spec fn chain_recover(k: Seq<char>, hops: Seq<Seq<char>>) -> Seq<char>
    decreases hops.len(),
{
    if hops.len() == 0 {
        k
    } else {
        chain_recover(
            decode_utf8(xor_bytes(masked(k, hops[0]), encode_utf8(hops[0]))),
            hops.drop_first(),
        )
    }
}

/// XOR CHAIN, whole path: when every hop-local key is at least as long as
/// the key in flight, the terminal hop recovers exactly the text the origin
/// KME granted.
pub proof fn lemma_chain_reconstruct(k: Seq<char>, hops: Seq<Seq<char>>)
    requires
        forall|i: int|
            0 <= i < hops.len() ==> encode_utf8(k).len() <= encode_utf8(#[trigger] hops[i]).len(),
    ensures
        chain_recover(k, hops) == k,
    decreases hops.len(),
{
    if hops.len() > 0 {
        lemma_link_roundtrip(k, hops[0]);
        assert(decode_utf8(xor_bytes(masked(k, hops[0]), encode_utf8(hops[0]))) == k);
        assert forall|i: int| 0 <= i < hops.drop_first().len() implies encode_utf8(k).len()
            <= encode_utf8(#[trigger] hops.drop_first()[i]).len() by {
            assert(hops.drop_first()[i] == hops[i + 1]);
        }
        lemma_chain_reconstruct(k, hops.drop_first());
    }
}

/// END-TO-END KEY EQUALITY: a key that crosses every hop of the chain, is
/// buffered fresh at the destination store, and is then requested by its id
/// comes back as exactly the text the origin KME granted.
///
/// The length hypothesis — every hop key's text at least as long as the
/// in-flight key's — is what the size negotiation grants: each hop requests
/// fresh keys sized from the in-flight key's material, so their base64 form
/// has the same byte length.
pub proof fn lemma_end_to_end(
    s: Seq<KeyReceived>,
    rec: KeyReceived,
    kid: KeyId,
    k: Seq<char>,
    hops: Seq<Seq<char>>,
)
    requires
        store_wf(s),
        !has_rec(s, rec.from@, rec.key_id@),
        kid.key_id@ == rec.key_id@,
        rec.key@ == chain_recover(k, hops),
        forall|i: int|
            0 <= i < hops.len() ==> encode_utf8(k).len() <= encode_utf8(#[trigger] hops[i]).len(),
    ensures
        taken_keys(put_rest(s, rec), rec.from@, seq![kid]) =~= seq![
            (Key { key: rec.key, key_id: rec.key_id }),
        ],
        rec.key@ == k,
{
    lemma_chain_reconstruct(k, hops);
    lemma_put_then_take(s, rec, kid);
}

/// Where an arrived envelope sends each resolved key next.
pub enum RelayAction {
    /// The path ends here or one intra-relay step further: buffer every
    /// resolved key under `(dest_sae, source_sae)`.
    Store { dest_sae: String, source_sae: String },
    /// Forward along the path; the sending PQKD is the one whose SAE id is
    /// `next_sae`.
    Forward { next_sae: String },
}

/// Route an arrived envelope for the PQKD endpoint `to_sae`: store when the
/// path closes at this endpoint or when the next path entry is the terminal
/// one, forward through the next path entry otherwise.
pub fn relay_route(path: &Vec<String>, to_sae: &str) -> (r: Result<RelayAction, RelayServerError>)
    ensures
        ({
            let pv = path@;
            &&& (pv.len() == 0 ==> r matches Err(RelayServerError::GetKeysError))
            &&& (pv.len() > 0 && pv.last()@ == to_sae@ ==> (r matches Ok(
                RelayAction::Store { dest_sae, source_sae },
            ) && dest_sae@ == to_sae@ && source_sae@ == pv[0]@))
            &&& (pv.len() > 0 && pv.last()@ != to_sae@ ==> {
                let i = str_pos(pv, to_sae@);
                if i == -1 || i + 1 >= pv.len() {
                    r matches Err(RelayServerError::GetKeysError)
                } else if i + 2 == pv.len() {
                    r matches Ok(RelayAction::Store { dest_sae, source_sae }) && dest_sae@ == pv[i
                        + 1]@ && source_sae@ == pv[0]@
                } else {
                    r matches Ok(RelayAction::Forward { next_sae }) && next_sae@ == pv[i + 1]@
                }
            })
        }),
{
    let plen: usize = path.len();
    if plen == 0 {
        return Err(RelayServerError::GetKeysError);
    }
    if str_eq(path[plen - 1].as_str(), to_sae) {
        return Ok(
            RelayAction::Store {
                dest_sae: String::from_str(to_sae),
                source_sae: path[0].clone(),
            },
        );
    }
    match find_string(path, to_sae) {
        None => Err(RelayServerError::GetKeysError),
        Some(i) => {
            proof {
                lemma_first_where(path@, |s: String| s@ == to_sae@);
            }
            if i + 1 >= plen {
                Err(RelayServerError::GetKeysError)
            } else if i + 2 == plen {
                Ok(
                    RelayAction::Store {
                        dest_sae: path[i + 1].clone(),
                        source_sae: path[0].clone(),
                    },
                )
            } else {
                Ok(RelayAction::Forward { next_sae: path[i + 1].clone() })
            }
        },
    }
}

/// What one hop sends next: either the origin shape, with identifiers only,
/// or the masking shape, which first asks the hop's KME for fresh keys.
pub enum HopSend {
    /// First hop out of the origin PQKD: post carriers that hold ids only to
    /// `proxy`; the envelope runs `from` to `to`.
    Origin { from: String, to: String, proxy: String },
    /// Later hop: ask `kme` for `number` fresh keys of `size` bits toward
    /// `to`, mask the in-flight keys with them, and post to `proxy`.
    Xor { from: String, to: String, proxy: String, kme: String, size: usize, number: usize },
}

/// Plan the onward send of a decapsulating relay: the sending PQKD is the
/// one owning the next path entry after `to_sae`; at position zero the
/// origin shape goes out, later positions mask with fresh hop keys sized
/// from the first in-flight key.
pub fn plan_send_relay(pqkds: &Vec<Pqkd>, to_sae: &str, path: &Vec<String>, keys: &Vec<Key>) -> (r:
    Result<HopSend, RelayServerError>)
    ensures
        ({
            let pv = path@;
            let i = str_pos(pv, to_sae@);
            &&& ((i == -1 || i + 1 >= pv.len()) ==> r matches Err(RelayServerError::GetKeysError))
            &&& (0 <= i && i + 1 < pv.len() ==> {
                let np = pqkd_pos_by_sae(pqkds@, pv[i + 1]@);
                if np == -1 {
                    r matches Err(RelayServerError::GetKeysError)
                } else {
                    let q = pqkds@[np];
                    if i == 0 {
                        r matches Ok(HopSend::Origin { from, to, proxy }) && from@ == q.sae_id@
                            && to@ == q.remote_sae_id@ && proxy@ == q.remote_proxy_address@
                    } else if keys@.len() == 0 {
                        r matches Err(RelayServerError::GetKeysError)
                    } else if b64_decoded(keys@[0].key@) is Some && 8 * b64_decoded(
                        keys@[0].key@,
                    )->0.len() <= usize::MAX {
                        r matches Ok(HopSend::Xor { from, to, proxy, kme, size, number })
                            && from@ == q.sae_id@ && to@ == q.remote_sae_id@ && proxy@
                            == q.remote_proxy_address@ && kme@ == q.kme_address@ && size == 8
                            * b64_decoded(keys@[0].key@)->0.len() && number == keys@.len()
                    } else {
                        r matches Err(RelayServerError::GetKeysError)
                    }
                }
            })
        }),
{
    let pos = match find_string(path, to_sae) {
        Some(i) => i,
        None => {
            return Err(RelayServerError::GetKeysError);
        },
    };
    proof {
        lemma_first_where(path@, |s: String| s@ == to_sae@);
    }
    let plen: usize = path.len();
    if pos + 1 >= plen {
        return Err(RelayServerError::GetKeysError);
    }
    let next = &path[pos + 1];
    let q = match find_pqkd_by_sae_id(pqkds, next.as_str()) {
        Some(q) => q,
        None => {
            return Err(RelayServerError::GetKeysError);
        },
    };
    if pos == 0 {
        Ok(
            HopSend::Origin {
                from: q.sae_id.clone(),
                to: q.remote_sae_id.clone(),
                proxy: q.remote_proxy_address.clone(),
            },
        )
    } else {
        if keys.len() == 0 {
            return Err(RelayServerError::GetKeysError);
        }
        match xor_key_size(&keys[0]) {
            Some(size) => Ok(
                HopSend::Xor {
                    from: q.sae_id.clone(),
                    to: q.remote_sae_id.clone(),
                    proxy: q.remote_proxy_address.clone(),
                    kme: q.kme_address.clone(),
                    size,
                    number: keys.len(),
                },
            ),
            None => Err(RelayServerError::GetKeysError),
        }
    }
}

} // verus!
