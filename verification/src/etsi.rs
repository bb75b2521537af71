//! The ETSI-facing frontend logic: the pass-through dispatch rule and the
//! multi-hop plan — hypercube paths lifted to PQKD endpoint sequences and a
//! primary picked among them.

use crate::config::{find_pqkd_by_remote_sae_id, find_pqkd_by_sae_id, pqkd_pos_by_remote,
    pqkd_pos_by_sae, relay_pos_with_sae, Connection, Hypercube, Pqkd, Relay};
use crate::errors::EtsiServerError;
use crate::keys::Key;
use crate::relay::{b64_decoded, xor_key_size, HopSend};
use crate::util::{find_string, first_where, lemma_first_where, lemma_first_where_is,
    lemma_first_where_none, str_eq, str_pos};
use vstd::prelude::*;
use vstd::string::{StrSliceExecFns, StringExecFns};

verus! {

/// The dispatch rule of the ETSI frontend: a request whose target SAE is the
/// PQKD's quantum-adjacent peer is proxied to the local KME untouched;
/// anything else enters multi-hop orchestration.
pub fn is_pass_through(target_sae: &str, remote_sae: &str) -> (r: bool)
    ensures
        r == (target_sae@ == remote_sae@),
{
    str_eq(target_sae, remote_sae)
}

/// Value of the first `k` characters read as a big-endian binary numeral.
pub open spec fn bits_val(s: Seq<char>, k: int) -> nat
    decreases k,
{
    if k <= 0 {
        0
    } else {
        2 * bits_val(s, k - 1) + if s[k - 1] == '1' {
            1nat
        } else {
            0nat
        }
    }
}

/// Every character is a binary digit.
pub open spec fn is_binary(s: Seq<char>) -> bool {
    forall|i: int| 0 <= i < s.len() ==> s[i] == '0' || s[i] == '1'
}

/// Doubling a power of two is the next power of two.
proof fn lemma_shl_double(i: usize)
    requires
        i < 31,
    ensures
        (1usize << ((i + 1) as usize)) == 2 * (1usize << i),
{
    assert(i < 31 ==> (1usize << ((i + 1) as usize)) == 2 * (1usize << i)) by (bit_vector);
}

/// A relay id is the zero-padded binary form of its hypercube label: read it
/// back. `None` when the text is not exactly `dim` binary digits.
pub fn parse_label(s: &str, dim: usize) -> (r: Option<usize>)
    requires
        dim < 32,
    ensures
        match r {
            Some(v) => s@.len() == dim && is_binary(s@) && v == bits_val(s@, dim as int) && v < (
            1usize << dim),
            None => !(s@.len() == dim && is_binary(s@)),
        },
{
    if s.unicode_len() != dim {
        return None;
    }
    let mut v: usize = 0;
    let mut i: usize = 0;
    proof {
        assert((1usize << 0usize) == 1usize) by (bit_vector);
    }
    while i < dim
        invariant
            i <= dim,
            dim < 32,
            s@.len() == dim,
            v == bits_val(s@, i as int),
            v < (1usize << i),
            forall|j: int| 0 <= j < i ==> s@[j] == '0' || s@[j] == '1',
        decreases dim - i,
    {
        let c = s.get_char(i);
        if c != '0' && c != '1' {
            return None;
        }
        proof {
            lemma_shl_double(i);
        }
        v = 2 * v + if c == '1' {
            1
        } else {
            0
        };
        i = i + 1;
    }
    Some(v)
}

/// Relay `r` sits at hypercube label `label` of a cube of dimension `dim`.
pub open spec fn relay_at_label(r: Relay, dim: int, label: usize) -> bool {
    &&& r.id@.len() == dim
    &&& is_binary(r.id@)
    &&& bits_val(r.id@, dim) == label
}

/// Index of the first relay whose id names `label`, or `-1`.
pub open spec fn relay_pos_at_label(s: Seq<Relay>, dim: int, label: usize) -> int {
    first_where(s, |r: Relay| relay_at_label(r, dim, label))
}

/// The first relay whose id reads back as `label`.
pub fn relay_by_label<'a>(h: &'a Hypercube, label: usize) -> (r: Option<&'a Relay>)
    requires
        h.dimension < 32,
    ensures
        match r {
            Some(rel) => relay_pos_at_label(h.relay@, h.dimension as int, label) >= 0 && *rel
                == h.relay@[relay_pos_at_label(h.relay@, h.dimension as int, label)],
            None => relay_pos_at_label(h.relay@, h.dimension as int, label) == -1,
        },
{
    let ghost pr = (|r: Relay| relay_at_label(r, h.dimension as int, label));
    let n: usize = h.relay.len();
    let mut i: usize = 0;
    while i < n
        invariant
            i <= n,
            h.dimension < 32,
            n == h.relay@.len(),
            forall|j: int| 0 <= j < i ==> !pr(h.relay@[j]),
            pr == (|r: Relay| relay_at_label(r, h.dimension as int, label)),
        decreases n - i,
    {
        let matches_label = match parse_label(h.relay[i].id.as_str(), h.dimension) {
            Some(v) => v == label,
            None => false,
        };
        if matches_label {
            proof {
                lemma_first_where_is(h.relay@, pr, i as int);
            }
            return Some(&h.relay[i]);
        }
        i = i + 1;
    }
    proof {
        lemma_first_where_none(h.relay@, pr);
    }
    None
}

/// The connection mentions SAE `sae` on either side.
pub open spec fn con_mentions(c: Connection, sae: Seq<char>) -> bool {
    c.first@ == sae || c.second@ == sae
}

/// The other side of a connection that mentions `sae`.
pub open spec fn con_partner(c: Connection, sae: Seq<char>) -> Seq<char> {
    if c.first@ == sae {
        c.second@
    } else {
        c.first@
    }
}

/// Index of the first connection mentioning `sae`, or `-1`.
pub open spec fn con_pos(cons: Seq<Connection>, sae: Seq<char>) -> int {
    first_where(cons, |c: Connection| con_mentions(c, sae))
}

/// First connection mentioning `sae`.
fn find_connection<'a>(cons: &'a Vec<Connection>, sae: &str) -> (r: Option<&'a Connection>)
    ensures
        match r {
            Some(c) => con_pos(cons@, sae@) >= 0 && *c == cons@[con_pos(cons@, sae@)],
            None => con_pos(cons@, sae@) == -1,
        },
{
    let ghost pr = (|c: Connection| con_mentions(c, sae@));
    let n: usize = cons.len();
    let mut i: usize = 0;
    while i < n
        invariant
            i <= n,
            n == cons@.len(),
            forall|j: int| 0 <= j < i ==> !pr(cons@[j]),
            pr == (|c: Connection| con_mentions(c, sae@)),
        decreases n - i,
    {
        let c = &cons[i];
        if str_eq(c.first.as_str(), sae) || str_eq(c.second.as_str(), sae) {
            proof {
                lemma_first_where_is(cons@, pr, i as int);
            }
            return Some(&cons[i]);
        }
        i = i + 1;
    }
    proof {
        lemma_first_where_none(cons@, pr);
    }
    None
}

/// SAE `sae` is one of the endpoint ids in `pqkds`.
pub open spec fn sae_in(pqkds: Seq<String>, sae: Seq<char>) -> bool {
    exists|j: int| 0 <= j < pqkds.len() && (#[trigger] pqkds[j])@ == sae
}

/// Endpoint `s` of the earlier relay can carry the hop: its first connection
/// has a partner among the next relay's endpoints.
pub open spec fn sae_carries(cons: Seq<Connection>, next_pqkds: Seq<String>, s: Seq<char>) -> bool {
    con_pos(cons, s) >= 0 && sae_in(next_pqkds, con_partner(cons[con_pos(cons, s)], s))
}

/// Lift one hop between adjacent relays: the first endpoint of `ra` whose
/// connection partner lies among `rb`'s endpoints, together with that
/// partner.
fn lift_pair(cons: &Vec<Connection>, ra: &Relay, rb: &Relay) -> (r: Result<
    (String, String),
    EtsiServerError,
>)
    ensures
        ({
            let pi = first_where(ra.pqkds@, |s: String| sae_carries(cons@, rb.pqkds@, s@));
            if pi == -1 {
                r matches Err(EtsiServerError::PathError)
            } else {
                r matches Ok(ab) && ab.0@ == ra.pqkds@[pi]@ && ab.1@ == con_partner(
                    cons@[con_pos(cons@, ra.pqkds@[pi]@)],
                    ra.pqkds@[pi]@,
                ) && sae_in(rb.pqkds@, ab.1@) && con_pos(cons@, ra.pqkds@[pi]@) >= 0
            }
        }),
{
    let ghost pr = (|s: String| sae_carries(cons@, rb.pqkds@, s@));
    let n: usize = ra.pqkds.len();
    let mut i: usize = 0;
    while i < n
        invariant
            i <= n,
            n == ra.pqkds@.len(),
            forall|j: int| 0 <= j < i ==> !pr(ra.pqkds@[j]),
            pr == (|s: String| sae_carries(cons@, rb.pqkds@, s@)),
        decreases n - i,
    {
        let sae = &ra.pqkds[i];
        match find_connection(cons, sae.as_str()) {
            Some(c) => {
                let partner = if str_eq(c.first.as_str(), sae.as_str()) {
                    c.second.clone()
                } else {
                    c.first.clone()
                };
                proof {
                    assert(partner@ == con_partner(
                        cons@[con_pos(cons@, ra.pqkds@[i as int]@)],
                        ra.pqkds@[i as int]@,
                    ));
                }
                match find_string(&rb.pqkds, partner.as_str()) {
                    Some(pj) => {
                        proof {
                            lemma_first_where(rb.pqkds@, |s: String| s@ == partner@);
                            assert(rb.pqkds@[pj as int]@ == partner@);
                            assert(sae_in(rb.pqkds@, partner@));
                            assert(pr(ra.pqkds@[i as int]));
                            lemma_first_where_is(ra.pqkds@, pr, i as int);
                        }
                        return Ok((sae.clone(), partner));
                    },
                    None => {
                        proof {
                            lemma_first_where(rb.pqkds@, |s: String| s@ == partner@);
                            assert(!sae_in(rb.pqkds@, partner@));
                            assert(!pr(ra.pqkds@[i as int]));
                        }
                    },
                }
            },
            None => {
                proof {
                    assert(!pr(ra.pqkds@[i as int]));
                }
            },
        }
        i = i + 1;
    }
    proof {
        lemma_first_where_none(ra.pqkds@, pr);
    }
    Err(EtsiServerError::PathError)
}

/// Label `a` with bit `bit` flipped.
pub open spec fn flipped(a: usize, bit: int) -> usize {
    a ^ (1usize << (bit as usize))
}

/// The two labels sit on a hypercube edge of a cube of dimension `dim`:
/// they differ in exactly one bit position below `dim`.
pub open spec fn hyper_adjacent(dim: usize, a: usize, b: usize) -> bool {
    exists|bit: int| 0 <= bit < dim && b == #[trigger] flipped(a, bit)
}

/// A walk over hypercube labels: at least one hop, simple, in bounds, each
/// step along a hypercube edge.
pub open spec fn hyper_walk_ok(dim: usize, s: usize, e: usize, p: Seq<usize>) -> bool {
    &&& p.len() >= 2
    &&& p[0] == s
    &&& p.last() == e
    &&& forall|k: int| 0 <= k < p.len() ==> (#[trigger] p[k] as int) < (1usize << dim)
    &&& forall|k: int| 0 <= k < p.len() - 1 ==> hyper_adjacent(dim, #[trigger] p[k], p[k + 1])
    &&& forall|i: int, j: int| 0 <= i < j < p.len() ==> p[i] != p[j]
}

/// A hypercube walk is a finished path of the built hypercube graph.
proof fn lemma_walk_in_graph(g: Seq<Vec<usize>>, dim: usize, s: usize, e: usize, p: Seq<usize>)
    requires
        g.len() == (1usize << dim) as int,
        forall|i: int| 0 <= i < g.len() ==> (#[trigger] g[i])@.len() == dim as int,
        forall|i: int, j: int|
            0 <= i < g.len() && 0 <= j < dim ==> (#[trigger] g[i]@[j]) == (i as usize) ^ (1usize
                << (j as usize)),
        hyper_walk_ok(dim, s, e, p),
    ensures
        crate::planner::result_path_ok(g, s, e, p),
{
    assert forall|k: int|
        0 <= k < p.len() - 1 implies crate::planner::edge(g, #[trigger] p[k], p[k + 1]) by {
        let bit = choose|bit: int| 0 <= bit < dim && p[k + 1] == #[trigger] flipped(p[k], bit);
        assert(g[p[k] as int]@[bit] == (p[k] as usize) ^ (1usize << (bit as usize)));
        assert(g[p[k] as int]@[bit] == p[k + 1]);
        assert(g[p[k] as int]@.contains(p[k + 1]));
    }
}

/// An edge of the built hypercube graph joins hypercube-adjacent labels.
proof fn lemma_edge_adjacent(g: Seq<Vec<usize>>, dim: usize, a: usize, b: usize)
    requires
        g.len() == (1usize << dim) as int,
        forall|i: int| 0 <= i < g.len() ==> (#[trigger] g[i])@.len() == dim as int,
        forall|i: int, j: int|
            0 <= i < g.len() && 0 <= j < dim ==> (#[trigger] g[i]@[j]) == (i as usize) ^ (1usize
                << (j as usize)),
        crate::planner::edge(g, a, b),
    ensures
        hyper_adjacent(dim, a, b),
{
    let j = choose|j: int| 0 <= j < g[a as int]@.len() && g[a as int]@[j] == b;
    assert(b == flipped(a, j));
}

/// The hop `(a, b)` between hypercube labels `la` and `lb` is properly
/// lifted: `a` belongs to the relay at `la`, `b` to the relay at `lb`, and
/// `b` is the connection partner of `a`.
pub open spec fn pair_lifted(h: Hypercube, la: usize, lb: usize, a: Seq<char>, b: Seq<char>) -> bool {
    let ra = relay_pos_at_label(h.relay@, h.dimension as int, la);
    let rb = relay_pos_at_label(h.relay@, h.dimension as int, lb);
    &&& ra >= 0
    &&& rb >= 0
    &&& sae_in(h.relay@[ra].pqkds@, a)
    &&& sae_in(h.relay@[rb].pqkds@, b)
    &&& con_pos(h.connection@, a) >= 0
    &&& con_partner(h.connection@[con_pos(h.connection@, a)], a) == b
}

/// Both ends of the hop sit at known relays and some endpoint of the
/// earlier relay can carry it.
pub open spec fn pair_liftable(h: Hypercube, la: usize, lb: usize) -> bool {
    let ra = relay_pos_at_label(h.relay@, h.dimension as int, la);
    let rb = relay_pos_at_label(h.relay@, h.dimension as int, lb);
    &&& ra >= 0
    &&& rb >= 0
    &&& exists|p: int|
        0 <= p < h.relay@[ra].pqkds@.len() && sae_carries(
            h.connection@,
            h.relay@[rb].pqkds@,
            (#[trigger] h.relay@[ra].pqkds@[p])@,
        )
}

/// Lift a relay-label path to the flat endpoint core: two SAE ids per hop,
/// each pair a quantum link between the two adjacent relays. It succeeds
/// exactly when the path is non-empty and every hop is liftable.
pub fn lift_relay_path(h: &Hypercube, labels: &Vec<usize>) -> (r: Result<
    Vec<String>,
    EtsiServerError,
>)
    requires
        h.dimension < 32,
    ensures
        r matches Ok(core) ==> labels@.len() >= 1 && core@.len() == 2 * (labels@.len() - 1) && (
        forall|j: int|
            0 <= j < labels@.len() - 1 ==> pair_lifted(
                *h,
                labels@[j],
                labels@[j + 1],
                (#[trigger] core@[2 * j])@,
                core@[2 * j + 1]@,
            )),
        r is Ok <==> labels@.len() >= 1 && (forall|j: int|
            0 <= j < labels@.len() - 1 ==> pair_liftable(
                *h,
                #[trigger] labels@[j],
                labels@[j + 1],
            )),
        r is Err ==> r matches Err(EtsiServerError::PathError),
{
    let ln: usize = labels.len();
    if ln == 0 {
        return Err(EtsiServerError::PathError);
    }
    let mut core: Vec<String> = Vec::new();
    let mut j: usize = 0;
    while j < ln - 1
        invariant
            h.dimension < 32,
            1 <= ln,
            ln == labels@.len(),
            j <= ln - 1,
            core@.len() == 2 * j,
            forall|jj: int|
                0 <= jj < j ==> pair_lifted(
                    *h,
                    labels@[jj],
                    labels@[jj + 1],
                    (#[trigger] core@[2 * jj])@,
                    core@[2 * jj + 1]@,
                ),
            forall|jj: int|
                0 <= jj < j ==> pair_liftable(*h, #[trigger] labels@[jj], labels@[jj + 1]),
        decreases ln - 1 - j,
    {
        let ra = match relay_by_label(h, labels[j]) {
            Some(ra) => ra,
            None => {
                proof {
                    assert(!pair_liftable(*h, labels@[j as int], labels@[j as int + 1]));
                }
                return Err(EtsiServerError::PathError);
            },
        };
        let rb = match relay_by_label(h, labels[j + 1]) {
            Some(rb) => rb,
            None => {
                proof {
                    assert(!pair_liftable(*h, labels@[j as int], labels@[j as int + 1]));
                }
                return Err(EtsiServerError::PathError);
            },
        };
        match lift_pair(&h.connection, ra, rb) {
            Ok((a, b)) => {
                proof {
                    let prc = (|s: String| sae_carries(h.connection@, rb.pqkds@, s@));
                    lemma_first_where(ra.pqkds@, prc);
                    assert(sae_in(ra.pqkds@, a@));
                    assert(pair_lifted(*h, labels@[j as int], labels@[j as int + 1], a@, b@));
                    let pi = first_where(ra.pqkds@, prc);
                    let rai = relay_pos_at_label(h.relay@, h.dimension as int, labels@[j as int]);
                    assert(h.relay@[rai].pqkds@[pi] == ra.pqkds@[pi]);
                    assert(pair_liftable(*h, labels@[j as int], labels@[j as int + 1]));
                }
                core.push(a);
                core.push(b);
            },
            Err(_) => {
                proof {
                    let prc = (|s: String| sae_carries(h.connection@, rb.pqkds@, s@));
                    lemma_first_where(ra.pqkds@, prc);
                    let rai = relay_pos_at_label(h.relay@, h.dimension as int, labels@[j as int]);
                    assert forall|p: int| 0 <= p < h.relay@[rai].pqkds@.len() implies !sae_carries(
                        h.connection@,
                        h.relay@[relay_pos_at_label(
                            h.relay@,
                            h.dimension as int,
                            labels@[j as int + 1],
                        )].pqkds@,
                        (#[trigger] h.relay@[rai].pqkds@[p])@,
                    ) by {
                        assert(h.relay@[rai].pqkds@[p] == ra.pqkds@[p]);
                        assert(!prc(ra.pqkds@[p]));
                    }
                    assert(!pair_liftable(*h, labels@[j as int], labels@[j as int + 1]));
                }
                return Err(EtsiServerError::PathError);
            },
        }
        j = j + 1;
    }
    Ok(core)
}

/// Close a lifted core into a full request path: the destination SAE is
/// appended unless it already closes the core, then the origin SAE is
/// prepended unless it already opens it.
pub fn finish_path(core: Vec<String>, origin: &str, dest: &str) -> (r: Vec<String>)
    requires
        core@.len() > 0,
    ensures
        ({
            let cv = core.deep_view();
            let w = if cv.last() == dest@ {
                cv
            } else {
                cv.push(dest@)
            };
            r.deep_view() == if w.first() == origin@ {
                w
            } else {
                seq![origin@] + w
            }
        }),
{
    let ghost cv = core.deep_view();
    let mut v = core;
    let vlen: usize = v.len();
    if !str_eq(v[vlen - 1].as_str(), dest) {
        v.push(String::from_str(dest));
        proof {
            assert(v.deep_view() =~= cv.push(dest@));
        }
    } else {
        proof {
            assert(v.deep_view() =~= cv);
        }
    }
    let ghost w = if cv.last() == dest@ {
        cv
    } else {
        cv.push(dest@)
    };
    if !str_eq(v[0].as_str(), origin) {
        v.insert(0, String::from_str(origin));
        proof {
            assert(v.deep_view() =~= seq![origin@] + w);
        }
    } else {
        proof {
            assert(v.deep_view() =~= w);
        }
    }
    v
}

/// The planned multi-hop delivery: the primary path, which reuses the key
/// already granted toward the origin's quantum peer, and the alternates.
pub struct PathPlan {
    pub primary: Vec<String>,
    pub alternates: Vec<Vec<String>>,
}

/// The shape of one lifted plan path: a simple relay-label walk, each hop
/// lifted to a connection pair, closed by the destination and opened by the
/// origin.
pub open spec fn lifted_shape(
    h: Hypercube,
    labels: Seq<usize>,
    core: Seq<Seq<char>>,
    p: Seq<Seq<char>>,
    origin: Seq<char>,
    dest: Seq<char>,
) -> bool {
    &&& labels.len() >= 2
    &&& (forall|i: int, j: int| 0 <= i < j < labels.len() ==> labels[i] != labels[j])
    &&& (forall|j: int|
        0 <= j < labels.len() - 1 ==> hyper_adjacent(h.dimension, #[trigger] labels[j], labels[j
            + 1]))
    &&& core.len() == 2 * (labels.len() - 1)
    &&& (forall|j: int|
        0 <= j < labels.len() - 1 ==> pair_lifted(
            h,
            labels[j],
            labels[j + 1],
            #[trigger] core[2 * j],
            core[2 * j + 1],
        ))
    &&& ({
        let w = if core.last() == dest {
            core
        } else {
            core.push(dest)
        };
        p == if w.first() == origin {
            w
        } else {
            seq![origin] + w
        }
    })
}

/// PATH VALIDITY: a plan path starts at the origin endpoint, ends at the
/// destination endpoint, and descends from a relay walk that visits no relay
/// twice, every hop of which is a quantum link between adjacent relays.
pub open spec fn plan_path_ok(
    h: Hypercube,
    origin: Seq<char>,
    dest: Seq<char>,
    p: Seq<Seq<char>>,
) -> bool {
    &&& p.len() >= 2
    &&& p.first() == origin
    &&& p.last() == dest
    &&& exists|labels: Seq<usize>, core: Seq<Seq<char>>|
        lifted_shape(h, labels, core, p, origin, dest)
}

/// Every hypercube-adjacent pair of labels can be lifted to a quantum link:
/// the topology invariant that a well-formed deployment file satisfies.
pub open spec fn all_adjacent_liftable(h: Hypercube) -> bool {
    forall|la: usize, lb: usize|
        (la as int) < (1usize << h.dimension) && #[trigger] hyper_adjacent(h.dimension, la, lb)
            ==> pair_liftable(h, la, lb)
}

/// Every liftable first hop out of the origin's relay label `s` yields a
/// path whose second entry is the origin PQKD's quantum-adjacent peer.
pub open spec fn first_hop_primary_ok(
    h: Hypercube,
    s: usize,
    origin: Seq<char>,
    remote: Seq<char>,
) -> bool {
    forall|lb: usize, pa: int|
        #![trigger hyper_adjacent(h.dimension, s, lb), h.relay@[relay_pos_at_label(h.relay@, h.dimension as int, s)].pqkds@[pa]]
        ({
            let ra = relay_pos_at_label(h.relay@, h.dimension as int, s);
            let rb = relay_pos_at_label(h.relay@, h.dimension as int, lb);
            hyper_adjacent(h.dimension, s, lb) && ra >= 0 && rb >= 0 && 0 <= pa
                < h.relay@[ra].pqkds@.len() && sae_carries(
                h.connection@,
                h.relay@[rb].pqkds@,
                h.relay@[ra].pqkds@[pa]@,
            ) ==> ({
                let a = h.relay@[ra].pqkds@[pa]@;
                let b = con_partner(h.connection@[con_pos(h.connection@, a)], a);
                if a == origin {
                    b == remote
                } else {
                    a == remote
                }
            })
        })
}

/// The inputs on which the planner owes success: the destination relay is
/// known, both relay ids read back as labels, a hypercube walk between them
/// exists, at least one path is asked for, every hypercube edge is liftable,
/// and every liftable first hop yields the primary's shape.
pub open spec fn plan_success_guaranteed(
    h: Hypercube,
    origin_relay_id: Seq<char>,
    origin: Seq<char>,
    dest: Seq<char>,
    remote: Seq<char>,
) -> bool {
    let dr = relay_pos_with_sae(h.relay@, dest);
    let s = bits_val(origin_relay_id, h.dimension as int) as usize;
    let e = bits_val(h.relay@[dr].id@, h.dimension as int) as usize;
    &&& h.n >= 1
    &&& dr >= 0
    &&& origin_relay_id.len() == h.dimension
    &&& is_binary(origin_relay_id)
    &&& h.relay@[dr].id@.len() == h.dimension
    &&& is_binary(h.relay@[dr].id@)
    &&& (exists|w: Seq<usize>| #[trigger] hyper_walk_ok(h.dimension, s, e, w))
    &&& all_adjacent_liftable(h)
    &&& first_hop_primary_ok(h, s, origin, remote)
}

/// Index of the first path whose second entry is `remote`, or `-1`.
pub open spec fn primary_pos(paths: Seq<Vec<String>>, remote: Seq<char>) -> int {
    first_where(paths, |p: Vec<String>| p@.len() >= 2 && p@[1]@ == remote)
}

/// Pick the primary path: the first whose second entry is the origin PQKD's
/// quantum-adjacent peer — the one that spends the key the KME has already
/// granted. It is removed from the list, which keeps the alternates in
/// swap-remove order.
pub fn select_primary(paths: &mut Vec<Vec<String>>, remote_sae: &str) -> (r: Result<
    Vec<String>,
    EtsiServerError,
>)
    ensures
        ({
            let pos = primary_pos(old(paths)@, remote_sae@);
            if pos == -1 {
                r matches Err(EtsiServerError::PathError) && final(paths)@ == old(paths)@
            } else {
                r matches Ok(prim) && prim == old(paths)@[pos] && final(paths)@ == old(
                    paths,
                )@.update(pos, old(paths)@.last()).drop_last()
            }
        }),
{
    let ghost pr = (|p: Vec<String>| p@.len() >= 2 && p@[1]@ == remote_sae@);
    let n: usize = paths.len();
    let mut i: usize = 0;
    while i < n
        invariant
            i <= n,
            n == paths@.len(),
            paths@ == old(paths)@,
            forall|j: int| 0 <= j < i ==> !pr(paths@[j]),
            pr == (|p: Vec<String>| p@.len() >= 2 && p@[1]@ == remote_sae@),
        decreases n - i,
    {
        if paths[i].len() >= 2 && str_eq(paths[i][1].as_str(), remote_sae) {
            proof {
                lemma_first_where_is(paths@, pr, i as int);
            }
            let prim = paths.swap_remove(i);
            return Ok(prim);
        }
        i = i + 1;
    }
    proof {
        lemma_first_where_none(paths@, pr);
    }
    Err(EtsiServerError::PathError)
}

/// The full multi-hop plan, as the ETSI frontend runs it: resolve the
/// destination relay, read the origin and destination labels, enumerate up
/// to `h.n` hypercube paths, lift each onto PQKD endpoints, and split off
/// the primary. Any gap — unknown destination, unreadable labels, no path,
/// no liftable hop, no primary — is a `PathError`; and on the inputs of
/// `plan_success_guaranteed` success is owed.
#[verifier::rlimit(100)]
pub fn plan_paths(
    h: &Hypercube,
    origin_relay_id: &str,
    origin_sae: &str,
    dest_sae: &str,
    remote_sae: &str,
) -> (r: Result<PathPlan, EtsiServerError>)
    requires
        h.dimension < 32,
    ensures
        r matches Ok(plan) ==> plan_path_ok(*h, origin_sae@, dest_sae@, plan.primary.deep_view())
            && plan.primary@.len() >= 2 && plan.primary@[1]@ == remote_sae@ && (forall|i: int|
            0 <= i < plan.alternates@.len() ==> plan_path_ok(
                *h,
                origin_sae@,
                dest_sae@,
                (#[trigger] plan.alternates@[i]).deep_view(),
            )),
        r is Err ==> r matches Err(EtsiServerError::PathError),
        r is Ok ==> crate::config::relay_pos_with_sae(h.relay@, dest_sae@) >= 0,
        crate::config::relay_pos_with_sae(h.relay@, dest_sae@) == -1 ==> r is Err,
        !(origin_relay_id@.len() == h.dimension && is_binary(origin_relay_id@)) ==> r is Err,
        ({
            let dr = crate::config::relay_pos_with_sae(h.relay@, dest_sae@);
            dr >= 0 && !(h.relay@[dr].id@.len() == h.dimension && is_binary(h.relay@[dr].id@))
        }) ==> r is Err,
        plan_success_guaranteed(*h, origin_relay_id@, origin_sae@, dest_sae@, remote_sae@)
            ==> r is Ok,
{
    let ghost psg = plan_success_guaranteed(
        *h,
        origin_relay_id@,
        origin_sae@,
        dest_sae@,
        remote_sae@,
    );
    let dest_relay_id = match h.find_relay(dest_sae) {
        Some(id) => id,
        None => {
            return Err(EtsiServerError::PathError);
        },
    };
    let start = match parse_label(origin_relay_id, h.dimension) {
        Some(v) => v,
        None => {
            return Err(EtsiServerError::PathError);
        },
    };
    let end = match parse_label(dest_relay_id, h.dimension) {
        Some(v) => v,
        None => {
            return Err(EtsiServerError::PathError);
        },
    };
    proof {
        if psg {
            let sg = (bits_val(origin_relay_id@, h.dimension as int) as usize);
            let eg = (bits_val(
                h.relay@[crate::config::relay_pos_with_sae(h.relay@, dest_sae@)].id@,
                h.dimension as int,
            ) as usize);
            assert(sg == start);
            assert(eg == end);
            let w = choose|w: Seq<usize>| #[trigger] hyper_walk_ok(h.dimension, sg, eg, w);
            assert(w[0] != w[w.len() - 1]);
            assert(start != end);
        }
    }
    let graph = crate::planner::build_hypercube(h.dimension);
    let label_paths = crate::planner::find_n_shortest_paths(&graph, start, end, h.n);
    proof {
        if psg {
            let sg = (bits_val(origin_relay_id@, h.dimension as int) as usize);
            let eg = (bits_val(
                h.relay@[crate::config::relay_pos_with_sae(h.relay@, dest_sae@)].id@,
                h.dimension as int,
            ) as usize);
            let w = choose|w: Seq<usize>| #[trigger] hyper_walk_ok(h.dimension, sg, eg, w);
            lemma_walk_in_graph(graph@, h.dimension, start, end, w);
            assert(crate::planner::result_path_ok(graph@, start, end, w));
            assert(label_paths@.len() >= 1);
        }
    }
    let mut lifted: Vec<Vec<String>> = Vec::new();
    let lp: usize = label_paths.len();
    let mut i: usize = 0;
    while i < lp
        invariant
            h.dimension < 32,
            lp == label_paths@.len(),
            i <= lp,
            lifted@.len() == i,
            psg == plan_success_guaranteed(
                *h,
                origin_relay_id@,
                origin_sae@,
                dest_sae@,
                remote_sae@,
            ),
            start == bits_val(origin_relay_id@, h.dimension as int),
            psg ==> crate::config::relay_pos_with_sae(h.relay@, dest_sae@) >= 0 && end
                == bits_val(
                h.relay@[crate::config::relay_pos_with_sae(h.relay@, dest_sae@)].id@,
                h.dimension as int,
            ),
            graph@.len() == (1usize << h.dimension) as int,
            forall|a: int| 0 <= a < graph@.len() ==> (#[trigger] graph@[a])@.len() == h.dimension
                as int,
            forall|a: int, b: int|
                0 <= a < graph@.len() && 0 <= b < h.dimension ==> (#[trigger] graph@[a]@[b]) == (
                a as usize) ^ (1usize << (b as usize)),
            forall|k: int|
                0 <= k < label_paths@.len() ==> crate::planner::result_path_ok(
                    graph@,
                    start,
                    end,
                    (#[trigger] label_paths@[k])@,
                ),
            forall|k: int|
                0 <= k < lifted@.len() ==> plan_path_ok(
                    *h,
                    origin_sae@,
                    dest_sae@,
                    (#[trigger] lifted@[k]).deep_view(),
                ) && (#[trigger] lifted@[k])@.len() >= 2,
            psg ==> (forall|k: int|
                0 <= k < lifted@.len() ==> (#[trigger] lifted@[k])@[1]@ == remote_sae@),
        decreases lp - i,
    {
        let labels = &label_paths[i];
        if labels.len() < 2 {
            proof {
                if psg {
                    let lv = label_paths@[i as int]@;
                    assert(lv[0] == start);
                    assert(lv.last() == end);
                    assert(start == end);
                    assert(false);
                }
            }
            return Err(EtsiServerError::PathError);
        }
        proof {
            if psg {
                let lv = label_paths@[i as int]@;
                assert forall|j: int|
                    0 <= j < lv.len() - 1 implies pair_liftable(
                    *h,
                    #[trigger] lv[j],
                    lv[j + 1],
                ) by {
                    assert(crate::planner::edge(graph@, lv[j], lv[j + 1]));
                    lemma_edge_adjacent(graph@, h.dimension, lv[j], lv[j + 1]);
                    assert((lv[j] as int) < graph@.len());
                    assert(hyper_adjacent(h.dimension, lv[j], lv[j + 1]));
                }
            }
        }
        let core = match lift_relay_path(h, labels) {
            Ok(core) => core,
            Err(_) => {
                proof {
                    if psg {
                        assert(false);
                    }
                }
                return Err(EtsiServerError::PathError);
            },
        };
        let ghost core_dv = core.deep_view();
        let ghost labels_v = labels@;
        let p = finish_path(core, origin_sae, dest_sae);
        proof {
            assert(core_dv.len() == 2 * (labels_v.len() - 1));
            let w = if core_dv.last() == dest_sae@ {
                core_dv
            } else {
                core_dv.push(dest_sae@)
            };
            let pd = p.deep_view();
            assert(pd == if w.first() == origin_sae@ {
                w
            } else {
                seq![origin_sae@] + w
            });
            assert(w.last() == dest_sae@);
            assert(pd.last() == dest_sae@);
            assert(pd.first() == origin_sae@);
            assert(pd.len() >= 2);
            assert forall|j: int|
                0 <= j < labels_v.len() - 1 implies hyper_adjacent(
                h.dimension,
                #[trigger] labels_v[j],
                labels_v[j + 1],
            ) by {
                assert(crate::planner::edge(graph@, labels_v[j], labels_v[j + 1]));
                lemma_edge_adjacent(graph@, h.dimension, labels_v[j], labels_v[j + 1]);
            }
            assert(lifted_shape(*h, labels_v, core_dv, pd, origin_sae@, dest_sae@));
            assert(plan_path_ok(*h, origin_sae@, dest_sae@, pd));
            assert(p@.len() == pd.len());
            if psg {
                let cons = h.connection@;
                let rai = relay_pos_at_label(h.relay@, h.dimension as int, labels_v[0]);
                let rbi = relay_pos_at_label(h.relay@, h.dimension as int, labels_v[1]);
                assert(pair_lifted(*h, labels_v[0], labels_v[1], core_dv[0], core_dv[1])) by {
                    assert(pair_lifted(
                        *h,
                        labels_v[0int],
                        labels_v[0int + 1],
                        (core@[2int * 0])@,
                        core@[2int * 0 + 1]@,
                    ));
                    assert(core_dv[0] == (core@[0])@);
                    assert(core_dv[1] == (core@[1])@);
                }
                let sg = (bits_val(origin_relay_id@, h.dimension as int) as usize);
                assert(sg == start);
                assert(labels_v[0] == start);
                assert(hyper_adjacent(h.dimension, sg, labels_v[1]));
                let pa = choose|pa: int|
                    0 <= pa < h.relay@[rai].pqkds@.len() && (#[trigger] h.relay@[rai].pqkds@[pa])@
                        == core_dv[0];
                assert(sae_carries(cons, h.relay@[rbi].pqkds@, core_dv[0])) by {
                    assert(con_partner(cons[con_pos(cons, core_dv[0])], core_dv[0])
                        == core_dv[1]);
                    assert(sae_in(h.relay@[rbi].pqkds@, core_dv[1]));
                }
                assert({
                    let a = h.relay@[rai].pqkds@[pa]@;
                    let b = con_partner(cons[con_pos(cons, a)], a);
                    if a == origin_sae@ {
                        b == remote_sae@
                    } else {
                        a == remote_sae@
                    }
                });
                assert(w[0] == core_dv[0]);
                assert(w[1] == core_dv[1]);
                if core_dv[0] == origin_sae@ {
                    assert(pd == w);
                    assert(pd[1] == core_dv[1]);
                    assert(pd[1] == remote_sae@);
                } else {
                    assert(pd == seq![origin_sae@] + w);
                    assert(pd[1] == w[0]);
                    assert(pd[1] == remote_sae@);
                }
                assert(p@[1]@ == pd[1]);
            }
        }
        lifted.push(p);
        i = i + 1;
    }
    let ghost lifted0 = lifted@;
    let primary = match select_primary(&mut lifted, remote_sae) {
        Ok(p) => p,
        Err(_) => {
            proof {
                if psg {
                    let pr2 = (|p: Vec<String>| p@.len() >= 2 && p@[1]@ == remote_sae@);
                    lemma_first_where(lifted0, pr2);
                    assert(lifted0.len() >= 1);
                    assert(pr2(lifted0[0]));
                    assert(false);
                }
            }
            return Err(EtsiServerError::PathError);
        },
    };
    proof {
        let pr2 = (|p: Vec<String>| p@.len() >= 2 && p@[1]@ == remote_sae@);
        lemma_first_where(lifted0, pr2);
        let pos = primary_pos(lifted0, remote_sae@);
        assert(0 <= pos < lifted0.len());
        assert(primary == lifted0[pos]);
        assert(lifted@ == lifted0.update(pos, lifted0.last()).drop_last());
        assert forall|i: int| 0 <= i < lifted@.len() implies plan_path_ok(
            *h,
            origin_sae@,
            dest_sae@,
            (#[trigger] lifted@[i]).deep_view(),
        ) by {
            if i == pos {
                assert(lifted@[i] == lifted0[lifted0.len() - 1]);
            } else {
                assert(lifted@[i] == lifted0[i]);
            }
        }
    }
    Ok(PathPlan { primary, alternates: lifted })
}

/// Plan the first send of a multi-hop transaction, as the ETSI frontend
/// does: anchor on the PQKD owning the path's second entry when this relay
/// owns it, else on the local PQKD; the sender is then the PQKD whose
/// quantum-adjacent peer is the entry after the anchor. At anchor position
/// zero the origin shape goes out; later positions mask with fresh hop keys
/// sized from the first in-flight key.
pub fn plan_send_etsi(
    pqkds: &Vec<Pqkd>,
    local_sae: &str,
    path: &Vec<String>,
    keys: &Vec<Key>,
) -> (r: Result<HopSend, EtsiServerError>)
    ensures
        ({
            let pv = path@;
            &&& (pv.len() < 2 ==> r matches Err(EtsiServerError::PathError))
            &&& (pv.len() >= 2 ==> {
                let a0 = pqkd_pos_by_sae(pqkds@, pv[1]@);
                let ai = if a0 >= 0 {
                    a0
                } else {
                    pqkd_pos_by_sae(pqkds@, local_sae@)
                };
                if ai == -1 {
                    r matches Err(EtsiServerError::UnknownPqkd(u)) && u@ == local_sae@
                } else {
                    let anchor = pqkds@[ai];
                    let pos = str_pos(pv, anchor.sae_id@);
                    if pos == -1 || pos + 1 >= pv.len() {
                        r matches Err(EtsiServerError::PathError)
                    } else {
                        let np = pqkd_pos_by_remote(pqkds@, pv[pos + 1]@);
                        if np == -1 {
                            r matches Err(EtsiServerError::UnknownPqkd(u)) && u@ == local_sae@
                        } else {
                            let q = pqkds@[np];
                            if pos == 0 {
                                r matches Ok(HopSend::Origin { from, to, proxy }) && from@
                                    == q.sae_id@ && to@ == q.remote_sae_id@ && proxy@
                                    == q.remote_proxy_address@
                            } else if keys@.len() == 0 {
                                r matches Err(EtsiServerError::SendKeysError)
                            } else if b64_decoded(keys@[0].key@) is Some && 8 * b64_decoded(
                                keys@[0].key@,
                            )->0.len() <= usize::MAX {
                                r matches Ok(
                                    HopSend::Xor { from, to, proxy, kme, size, number },
                                ) && from@ == q.sae_id@ && to@ == q.remote_sae_id@ && proxy@
                                    == q.remote_proxy_address@ && kme@ == q.kme_address@ && size
                                    == 8 * b64_decoded(keys@[0].key@)->0.len() && number
                                    == keys@.len()
                            } else {
                                r matches Err(EtsiServerError::SendKeysError)
                            }
                        }
                    }
                }
            })
        }),
{
    let plen: usize = path.len();
    if plen < 2 {
        return Err(EtsiServerError::PathError);
    }
    let anchor = match find_pqkd_by_sae_id(pqkds, path[1].as_str()) {
        Some(a) => a,
        None => {
            match find_pqkd_by_sae_id(pqkds, local_sae) {
                Some(a) => a,
                None => {
                    return Err(EtsiServerError::UnknownPqkd(String::from_str(local_sae)));
                },
            }
        },
    };
    let pos = match find_string(path, anchor.sae_id.as_str()) {
        Some(i) => i,
        None => {
            return Err(EtsiServerError::PathError);
        },
    };
    if pos + 1 >= plen {
        return Err(EtsiServerError::PathError);
    }
    let q = match find_pqkd_by_remote_sae_id(pqkds, path[pos + 1].as_str()) {
        Some(q) => q,
        None => {
            return Err(EtsiServerError::UnknownPqkd(String::from_str(local_sae)));
        },
    };
    if pos == 0 {
        Ok(
            HopSend::Origin {
                from: q.sae_id.clone(),
                to: q.remote_sae_id.clone(),
                proxy: q.remote_proxy_address.clone(),
            },
        )
    } else {
        if keys.len() == 0 {
            return Err(EtsiServerError::SendKeysError);
        }
        match xor_key_size(&keys[0]) {
            Some(size) => Ok(
                HopSend::Xor {
                    from: q.sae_id.clone(),
                    to: q.remote_sae_id.clone(),
                    proxy: q.remote_proxy_address.clone(),
                    kme: q.kme_address.clone(),
                    size,
                    number: keys.len(),
                },
            ),
            None => Err(EtsiServerError::SendKeysError),
        }
    }
}

} // verus!
