//! Participant selection (paper Section III-D).
//!
//!  1. Regulatory eligibility is a HARD FILTER applied BEFORE scoring
//!     (strategy `policy_resource` only).
//!  2. Remaining candidates get a composite suitability score from min-max
//!     NORMALISED capability, bandwidth, latency and availability.
//!  3. The top-k are selected; ties broken by id (deterministic).
//!
//! The score itself is floating point and is computed by the caller; here a
//! score enters as the order key of its bits (`score_key`).
use vstd::prelude::*;

use crate::rng::{shuffled, SplitMix64};
use crate::text::{str_equal, str_less, text_lt, views};

verus! {

/// How the participants of a round are chosen.
#[derive(Clone, Copy, Debug, PartialEq, Eq, Structural)]
pub enum Strategy {
    Random,
    ResourceOnly,
    PolicyResource,
}

/// The configuration name of a strategy.
pub open spec fn strategy_name(s: Strategy) -> Seq<char> {
    match s {
        Strategy::Random => "random"@,
        Strategy::ResourceOnly => "resource_only"@,
        Strategy::PolicyResource => "policy_resource"@,
    }
}

/// The strategy that a configuration name denotes, if any.
pub open spec fn strategy_named(name: Seq<char>) -> Option<Strategy> {
    if name == "random"@ {
        Some(Strategy::Random)
    } else if name == "resource_only"@ {
        Some(Strategy::ResourceOnly)
    } else if name == "policy_resource"@ {
        Some(Strategy::PolicyResource)
    } else {
        None
    }
}

impl Strategy {
    pub fn parse(s: &str) -> (r: Option<Self>)
        ensures
            r == strategy_named(s@),
    {
        if str_equal(s, "random") {
            Some(Strategy::Random)
        } else if str_equal(s, "resource_only") {
            Some(Strategy::ResourceOnly)
        } else if str_equal(s, "policy_resource") {
            Some(Strategy::PolicyResource)
        } else {
            None
        }
    }

    pub fn as_str(&self) -> (r: &'static str)
        ensures
            r@ == strategy_name(*self),
    {
        match self {
            Strategy::Random => "random",
            Strategy::ResourceOnly => "resource_only",
            Strategy::PolicyResource => "policy_resource",
        }
    }
}

/// Parsing the name of a strategy gives that strategy back.
pub proof fn lemma_strategy_name_round_trip(s: Strategy)
    ensures
        strategy_named(strategy_name(s)) == Some(s),
{
    reveal_strlit("random");
    reveal_strlit("resource_only");
    reveal_strlit("policy_resource");
    assert("random"@[1] != "resource_only"@[1]);
    assert("random"@[0] != "policy_resource"@[0]);
    assert("resource_only"@[0] != "policy_resource"@[0]);
}

/// What selection reads of a node: its identity, whether the probe reached
/// it, and the facts that residency policy is decided on.
#[derive(Clone, Debug)]
pub struct NodeView {
    pub id: String,
    pub reachable: bool,
    pub jurisdiction: String,
    pub license_active: bool,
    pub residency_zone: String,
}

/// Residency policy: the jurisdictions and zones whose nodes may train.
#[derive(Clone, Debug)]
pub struct Policy {
    pub allowed_jurisdictions: Vec<String>,
    pub allowed_zones: Vec<String>,
}

/// A verdict with its reason as characters.
pub open spec fn verdict_view(v: Result<(), String>) -> Result<(), Seq<char>> {
    match v {
        Ok(_) => Ok(()),
        Err(e) => Err(e@),
    }
}

/// The residency verdict for node `n`: the first rule that it breaks, in
/// the order jurisdiction, zone, licence.
pub open spec fn policy_verdict(p: Policy, n: NodeView) -> Result<(), Seq<char>> {
    if !views(p.allowed_jurisdictions@).contains(n.jurisdiction@) {
        Err("jurisdiction_not_permitted"@)
    } else if !views(p.allowed_zones@).contains(n.residency_zone@) {
        Err("zone_not_permitted"@)
    } else if !n.license_active {
        Err("license_not_active"@)
    } else {
        Ok(())
    }
}

/// Node `n` satisfies every rule of the policy.
pub open spec fn eligible(p: Policy, n: NodeView) -> bool {
    &&& views(p.allowed_jurisdictions@).contains(n.jurisdiction@)
    &&& views(p.allowed_zones@).contains(n.residency_zone@)
    &&& n.license_active
}

/// `x` is one of the strings of `list`.
fn listed(list: &Vec<String>, x: &String) -> (r: bool)
    ensures
        r == views(list@).contains(x@),
{
    let mut j: usize = 0;
    while j < list.len()
        invariant
            j <= list@.len(),
            forall|t: int| 0 <= t < j ==> list@[t]@ != x@,
        decreases list@.len() - j,
    {
        if list[j] == *x {
            assert(views(list@)[j as int] == x@);
            return true;
        }
        j = j + 1;
    }
    assert forall|t: int| 0 <= t < views(list@).len() implies views(list@)[t] != x@ by {
        assert(views(list@)[t] == list@[t]@);
    }
    false
}

impl Policy {
    /// Native reference implementation of the residency policy.
    /// Returns Err(reason) if the node is not eligible.
    pub fn check(&self, n: &NodeView) -> (r: Result<(), String>)
        ensures
            verdict_view(r) == policy_verdict(*self, *n),
            r is Ok <==> eligible(*self, *n),
    {
        if !listed(&self.allowed_jurisdictions, &n.jurisdiction) {
            return Err("jurisdiction_not_permitted".to_owned());
        }
        if !listed(&self.allowed_zones, &n.residency_zone) {
            return Err("zone_not_permitted".to_owned());
        }
        if !n.license_active {
            return Err("license_not_active".to_owned());
        }
        Ok(())
    }
}

/// The reason of a negative verdict.
pub open spec fn reason_of(v: Result<(), String>) -> Option<Seq<char>> {
    match v {
        Ok(_) => None,
        Err(e) => Some(e@),
    }
}

/// Why node `i` is kept out of the scoring pool, if it is: unreachable
/// nodes always; nodes with a negative policy verdict under
/// `PolicyResource` only.
pub open spec fn exclusion(
    nodes: Seq<NodeView>,
    verdicts: Seq<Result<(), String>>,
    s: Strategy,
    i: int,
) -> Option<Seq<char>> {
    if !nodes[i].reachable {
        Some("unreachable"@)
    } else if s == Strategy::PolicyResource {
        reason_of(verdicts[i])
    } else {
        None
    }
}

/// The nodes among the first `n` that enter the scoring pool, in order.
pub open spec fn pooled(
    nodes: Seq<NodeView>,
    verdicts: Seq<Result<(), String>>,
    s: Strategy,
    n: nat,
) -> Seq<usize>
    decreases n,
{
    if n == 0 {
        Seq::empty()
    } else {
        let rest = pooled(nodes, verdicts, s, (n - 1) as nat);
        if exclusion(nodes, verdicts, s, n - 1) is None {
            rest.push((n - 1) as usize)
        } else {
            rest
        }
    }
}

/// The nodes among the first `n` kept out of the pool, with the reason, in
/// order.
pub open spec fn excluded(
    nodes: Seq<NodeView>,
    verdicts: Seq<Result<(), String>>,
    s: Strategy,
    n: nat,
) -> Seq<(usize, Seq<char>)>
    decreases n,
{
    if n == 0 {
        Seq::empty()
    } else {
        let rest = excluded(nodes, verdicts, s, (n - 1) as nat);
        match exclusion(nodes, verdicts, s, n - 1) {
            Some(reason) => rest.push(((n - 1) as usize, reason)),
            None => rest,
        }
    }
}

/// Every policy verdict that `PolicyResource` consults is there.
pub open spec fn verdicts_cover(
    nodes: Seq<NodeView>,
    verdicts: Seq<Result<(), String>>,
    s: Strategy,
) -> bool {
    s == Strategy::PolicyResource ==> forall|i: int|
        0 <= i < nodes.len() && #[trigger] nodes[i].reachable ==> i < verdicts.len()
}

/// The scoring pool of a round and the nodes removed before ranking.
pub struct Pool {
    /// Indices into the nodes, in increasing order.
    pub pool: Vec<usize>,
    /// (index into the nodes, reason) for every node removed before ranking.
    pub excluded: Vec<(usize, String)>,
}

/// The reasons as characters.
pub open spec fn exclusion_views(v: Seq<(usize, String)>) -> Seq<(usize, Seq<char>)> {
    v.map_values(|e: (usize, String)| (e.0, e.1@))
}

/// Splits the nodes into the scoring pool and the excluded ones.
/// `verdicts[i]` is the policy verdict for `nodes[i]` (Ok = eligible). It is
/// consulted ONLY for `Strategy::PolicyResource`.
pub fn build_pool(nodes: &[NodeView], verdicts: &[Result<(), String>], strategy: Strategy) -> (r:
    Pool)
    requires
        verdicts_cover(nodes@, verdicts@, strategy),
    ensures
        r.pool@ == pooled(nodes@, verdicts@, strategy, nodes@.len()),
        exclusion_views(r.excluded@) == excluded(nodes@, verdicts@, strategy, nodes@.len()),
{
    let mut pool: Vec<usize> = Vec::new();
    let mut out: Vec<(usize, String)> = Vec::new();
    let mut i: usize = 0;
    while i < nodes.len()
        invariant
            i <= nodes@.len(),
            verdicts_cover(nodes@, verdicts@, strategy),
            pool@ == pooled(nodes@, verdicts@, strategy, i as nat),
            exclusion_views(out@) == excluded(nodes@, verdicts@, strategy, i as nat),
        decreases nodes@.len() - i,
    {
        let ghost before = exclusion_views(out@);
        if !nodes[i].reachable {
            out.push((i, "unreachable".to_owned()));
            assert(exclusion_views(out@) =~= before.push((i, "unreachable"@)));
        } else if strategy == Strategy::PolicyResource {
            match &verdicts[i] {
                Err(reason) => {
                    out.push((i, reason.clone()));
                    assert(exclusion_views(out@) =~= before.push((i, reason@)));
                },
                Ok(_) => {
                    pool.push(i);
                },
            }
        } else {
            pool.push(i);
        }
        i = i + 1;
    }
    Pool { pool, excluded: out }
}

/// The indices `0..n`.
pub open spec fn indices(n: nat) -> Seq<usize> {
    Seq::new(n, |i: int| i as usize)
}

/// Random strategy: uniform over ALL configured nodes, no probing, no
/// policy: the first `k` of the shuffled indices `0..n`.
pub fn select_random(n: usize, k: usize, rng: &mut SplitMix64) -> (r: Vec<usize>)
    ensures
        r@ == shuffled(indices(n as nat), old(rng)@).0.take(if k < n { k as int } else { n as int }),
        final(rng)@ == shuffled(indices(n as nat), old(rng)@).1,
{
    let mut idx: Vec<usize> = Vec::new();
    let mut i: usize = 0;
    while i < n
        invariant
            i <= n,
            idx@ == indices(i as nat),
        decreases n - i,
    {
        idx.push(i);
        assert(idx@ =~= indices((i + 1) as nat));
        i = i + 1;
    }
    rng.shuffle(idx.as_mut_slice());
    proof {
        crate::rng::lemma_shuffled_permutes(indices(n as nat), old(rng)@);
    }
    if k < idx.len() {
        idx.truncate(k);
    }
    assert(idx@ =~= shuffled(indices(n as nat), old(rng)@).0.take(
        if k < n { k as int } else { n as int },
    ));
    idx
}

/// The Random strategy picks `min(k, n)` distinct nodes.
pub proof fn lemma_random_selection_distinct(n: nat, state: u64, k: int)
    requires
        n <= usize::MAX,
        k >= 0,
    ensures
        ({
            let r = shuffled(indices(n), state).0.take(if k < n { k } else { n as int });
            &&& r.len() == if k < n { k } else { n as int }
            &&& r.no_duplicates()
            &&& forall|t: int| 0 <= t < r.len() ==> #[trigger] r[t] < n
        }),
{
    broadcast use vstd::seq_lib::group_to_multiset_ensures;

    let ix = indices(n);
    let m = shuffled(ix, state).0;
    crate::rng::lemma_shuffled_permutes(ix, state);
    assert(ix.no_duplicates());
    ix.lemma_multiset_has_no_duplicates();
    assert forall|x: usize| m.to_multiset().contains(x) implies m.to_multiset().count(x) == 1 by {
        assert(ix.to_multiset().contains(x));
    }
    m.lemma_multiset_has_no_duplicates_conv();
    let cut = if k < n { k } else { n as int };
    let r = m.take(cut);
    assert forall|t: int| 0 <= t < r.len() implies #[trigger] r[t] < n by {
        assert(m.contains(m[t]));
        assert(m.to_multiset().count(m[t]) > 0);
        assert(ix.to_multiset().count(m[t]) > 0);
        assert(ix.contains(m[t]));
    }
    assert forall|t1: int, t2: int| 0 <= t1 < r.len() && 0 <= t2 < r.len() && t1 != t2 implies r[t1]
        != r[t2] by {
        assert(r[t1] == m[t1] && r[t2] == m[t2]);
    }
}

/// Exponent and fraction bits of a double.
pub open spec fn magnitude_bits(bits: u64) -> u64 {
    bits & 0x7FFF_FFFF_FFFF_FFFFu64
}

/// The sign-magnitude integer of a double's bits. IEEE 754 is designed so
/// that non-NaN doubles compare as these integers do (both zeros give 0).
pub open spec fn signed_magnitude(bits: u64) -> int {
    if bits >> 63u64 == 1 {
        -(magnitude_bits(bits) as int)
    } else {
        magnitude_bits(bits) as int
    }
}

/// The bits are those of a NaN (all exponent bits set, fraction not zero).
pub open spec fn is_nan_bits(bits: u64) -> bool {
    magnitude_bits(bits) > 0x7FF0_0000_0000_0000u64
}

/// The order key of a score's bits: every NaN shares the lowest key, since a
/// NaN score compares equal to every other NaN and ranks by id alone among
/// them; other scores get keys in their numeric order.
pub open spec fn order_key(bits: u64) -> int {
    if is_nan_bits(bits) {
        0
    } else {
        0x8000_0000_0000_0000 + signed_magnitude(bits)
    }
}

/// Keys order non-NaN scores as their sign-magnitude integers do, and
/// every NaN key is below every other key.
pub proof fn lemma_order_key_monotone(a: u64, b: u64)
    ensures
        !is_nan_bits(a) && !is_nan_bits(b) ==> (order_key(a) < order_key(b)) == (
        signed_magnitude(a) < signed_magnitude(b)),
        !is_nan_bits(a) && !is_nan_bits(b) ==> (order_key(a) == order_key(b)) == (
        signed_magnitude(a) == signed_magnitude(b)),
        is_nan_bits(a) && is_nan_bits(b) ==> order_key(a) == order_key(b),
        is_nan_bits(a) && !is_nan_bits(b) ==> order_key(a) < order_key(b),
{
}

/// The two zeros (`+0.0` and `-0.0`) get one key, as they compare equal.
pub proof fn lemma_zeros_share_key()
    ensures
        order_key(0) == order_key(0x8000_0000_0000_0000),
{
    assert(0x8000_0000_0000_0000u64 >> 63u64 == 1) by (bit_vector);
    assert(0x8000_0000_0000_0000u64 & 0x7FFF_FFFF_FFFF_FFFFu64 == 0) by (bit_vector);
    assert(0u64 >> 63u64 == 0) by (bit_vector);
    assert(0u64 & 0x7FFF_FFFF_FFFF_FFFFu64 == 0) by (bit_vector);
}

/// Order key of a score given by its bits: larger keys for larger scores,
/// one key for every NaN.
pub fn score_key(bits: u64) -> (r: u64)
    ensures
        r as int == order_key(bits),
{
    let magnitude: u64 = bits & 0x7FFF_FFFF_FFFF_FFFFu64;
    assert(magnitude <= 0x7FFF_FFFF_FFFF_FFFFu64) by (bit_vector)
        requires
            magnitude == bits & 0x7FFF_FFFF_FFFF_FFFFu64,
    ;
    if magnitude > 0x7FF0_0000_0000_0000u64 {
        0
    } else if bits >> 63u64 == 1 {
        0x8000_0000_0000_0000u64 - magnitude
    } else {
        0x8000_0000_0000_0000u64 + magnitude
    }
}

/// Position `p` of `scored` ranks before position `q`: higher key first,
/// then smaller id (the order of `String`), then earlier position.
pub open spec fn outranks(ids: Seq<Seq<char>>, scored: Seq<(usize, u64)>, p: int, q: int) -> bool {
    let a = scored[p];
    let b = scored[q];
    ||| a.1 > b.1
    ||| a.1 == b.1 && text_lt(ids[a.0 as int], ids[b.0 as int])
    ||| a.1 == b.1 && ids[a.0 as int] == ids[b.0 as int] && p < q
}

/// `ord` lists every position of `scored` once, best ranked first.
pub open spec fn is_ranking(ids: Seq<Seq<char>>, scored: Seq<(usize, u64)>, ord: Seq<usize>) -> bool {
    &&& forall|t: int| 0 <= t < ord.len() ==> #[trigger] ord[t] < scored.len()
    &&& forall|p: usize| p < scored.len() ==> #[trigger] ord.contains(p)
    &&& forall|t1: int, t2: int|
        0 <= t1 < t2 < ord.len() ==> outranks(ids, scored, #[trigger] ord[t1] as int, #[trigger] ord[t2] as int)
}

/// The ranking of the positions of `scored`.
pub open spec fn ranking(ids: Seq<Seq<char>>, scored: Seq<(usize, u64)>) -> Seq<usize> {
    choose|ord: Seq<usize>| is_ranking(ids, scored, ord)
}

/// The `k` best ranked entries of `scored` (all of them when there are
/// fewer), best first.
pub open spec fn top_k(ids: Seq<Seq<char>>, scored: Seq<(usize, u64)>, k: int) -> Seq<(usize, u64)> {
    let m = scored.len() as int;
    Seq::new(
        (if k < m {
            k
        } else {
            m
        }) as nat,
        |t: int| scored[ranking(ids, scored)[t] as int],
    )
}

/// Every index that `scored` names is an index of `ids`.
pub open spec fn ids_cover(ids: Seq<Seq<char>>, scored: Seq<(usize, u64)>) -> bool {
    forall|p: int| 0 <= p < scored.len() ==> (#[trigger] scored[p]).0 < ids.len()
}

proof fn lemma_outranks_order(ids: Seq<Seq<char>>, scored: Seq<(usize, u64)>, p: int, q: int, r: int)
    ensures
        !outranks(ids, scored, p, p),
        p != q ==> outranks(ids, scored, p, q) || outranks(ids, scored, q, p),
        outranks(ids, scored, p, q) ==> !outranks(ids, scored, q, p),
        outranks(ids, scored, p, q) && outranks(ids, scored, q, r) ==> outranks(ids, scored, p, r),
{
    let a = ids[scored[p].0 as int];
    let b = ids[scored[q].0 as int];
    let c = ids[scored[r].0 as int];
    crate::text::lemma_bytes_lt_irreflexive(vstd::utf8::encode_utf8(a));
    crate::text::lemma_bytes_lt_total(vstd::utf8::encode_utf8(a), vstd::utf8::encode_utf8(b));
    crate::text::lemma_encode_injective(a, b);
    crate::text::lemma_encode_injective(b, c);
    crate::text::lemma_encode_injective(a, c);
    if text_lt(a, b) && text_lt(b, a) {
        crate::text::lemma_bytes_lt_transitive(
            vstd::utf8::encode_utf8(a),
            vstd::utf8::encode_utf8(b),
            vstd::utf8::encode_utf8(a),
        );
    }
    if text_lt(a, b) && text_lt(b, c) {
        crate::text::lemma_bytes_lt_transitive(
            vstd::utf8::encode_utf8(a),
            vstd::utf8::encode_utf8(b),
            vstd::utf8::encode_utf8(c),
        );
    }
}

/// There is only one ranking: two sequences that each list the same
/// positions, strictly ordered by `outranks`, are equal.
pub proof fn lemma_ranking_unique(
    ids: Seq<Seq<char>>,
    scored: Seq<(usize, u64)>,
    x: Seq<usize>,
    y: Seq<usize>,
)
    requires
        is_ranking(ids, scored, x),
        is_ranking(ids, scored, y),
    ensures
        x == y,
{
    lemma_sorted_same_elements_equal(ids, scored, x, y);
}

proof fn lemma_sorted_same_elements_equal(
    ids: Seq<Seq<char>>,
    scored: Seq<(usize, u64)>,
    x: Seq<usize>,
    y: Seq<usize>,
)
    requires
        forall|t1: int, t2: int|
            0 <= t1 < t2 < x.len() ==> outranks(ids, scored, #[trigger] x[t1] as int, #[trigger] x[t2] as int),
        forall|t1: int, t2: int|
            0 <= t1 < t2 < y.len() ==> outranks(ids, scored, #[trigger] y[t1] as int, #[trigger] y[t2] as int),
        forall|e: usize| x.contains(e) <==> y.contains(e),
    ensures
        x == y,
    decreases x.len(),
{
    if x.len() == 0 {
        if y.len() > 0 {
            assert(y.contains(y[0]));
        }
        assert(x =~= y);
    } else {
        assert(x.contains(x[0]));
        assert(y.len() > 0);
        assert(y.contains(y[0]));
        let a = x[0];
        let b = y[0];
        let ta = choose|t: int| 0 <= t < y.len() && y[t] == a;
        let tb = choose|t: int| 0 <= t < x.len() && x[t] == b;
        lemma_outranks_order(ids, scored, a as int, b as int, a as int);
        if a != b {
            assert(ta > 0);
            assert(tb > 0);
            assert(outranks(ids, scored, b as int, a as int));
            assert(outranks(ids, scored, a as int, b as int));
        }
        let x1 = x.drop_first();
        let y1 = y.drop_first();
        assert forall|e: usize| x1.contains(e) <==> y1.contains(e) by {
            if x1.contains(e) {
                let t = choose|t: int| 0 <= t < x1.len() && x1[t] == e;
                assert(x[t + 1] == e);
                lemma_outranks_order(ids, scored, a as int, e as int, a as int);
                assert(e != a);
                assert(y.contains(e));
                let s = choose|s: int| 0 <= s < y.len() && y[s] == e;
                assert(s != 0);
                assert(y1[s - 1] == e);
            }
            if y1.contains(e) {
                let t = choose|t: int| 0 <= t < y1.len() && y1[t] == e;
                assert(y[t + 1] == e);
                lemma_outranks_order(ids, scored, b as int, e as int, b as int);
                assert(e != b);
                assert(x.contains(e));
                let s = choose|s: int| 0 <= s < x.len() && x[s] == e;
                assert(s != 0);
                assert(x1[s - 1] == e);
            }
        }
        assert forall|t1: int, t2: int| 0 <= t1 < t2 < x1.len() implies outranks(
            ids,
            scored,
            #[trigger] x1[t1] as int,
            #[trigger] x1[t2] as int,
        ) by {
            assert(x1[t1] == x[t1 + 1] && x1[t2] == x[t2 + 1]);
        }
        assert forall|t1: int, t2: int| 0 <= t1 < t2 < y1.len() implies outranks(
            ids,
            scored,
            #[trigger] y1[t1] as int,
            #[trigger] y1[t2] as int,
        ) by {
            assert(y1[t1] == y[t1 + 1] && y1[t2] == y[t2 + 1]);
        }
        lemma_sorted_same_elements_equal(ids, scored, x1, y1);
        assert(x =~= seq![a] + x1);
        assert(y =~= seq![b] + y1);
    }
}

fn outranks_at(ids: &[String], scored: &[(usize, u64)], p: usize, q: usize) -> (r: bool)
    requires
        p < scored@.len(),
        q < scored@.len(),
        ids_cover(views(ids@), scored@),
    ensures
        r == outranks(views(ids@), scored@, p as int, q as int),
{
    let (i, a) = scored[p];
    let (j, b) = scored[q];
    assert(scored@[p as int].0 < ids@.len() && scored@[q as int].0 < ids@.len());
    assert(views(ids@)[i as int] == ids@[i as int]@);
    assert(views(ids@)[j as int] == ids@[j as int]@);
    if a != b {
        return a > b;
    }
    if str_less(ids[i].as_str(), ids[j].as_str()) {
        return true;
    }
    str_equal(ids[i].as_str(), ids[j].as_str()) && p < q
}

/// Ranks scored candidates: higher key first, ties broken by id (the order
/// of `String`), then by position in `scored` (a stable sort), and keeps
/// the first `k`.
pub fn rank_candidates(ids: &[String], scored: &[(usize, u64)], k: usize) -> (r: Vec<(usize, u64)>)
    requires
        ids_cover(views(ids@), scored@),
    ensures
        r@ == top_k(views(ids@), scored@, k as int),
        is_ranking(views(ids@), scored@, ranking(views(ids@), scored@)),
{
    let ghost v = views(ids@);
    let m: usize = scored.len();
    let mut ord: Vec<usize> = Vec::new();
    let mut p: usize = 0;
    while p < m
        invariant
            m == scored@.len(),
            v == views(ids@),
            ids_cover(v, scored@),
            p <= m,
            forall|t: int| 0 <= t < ord@.len() ==> #[trigger] ord@[t] < p,
            forall|q: usize| q < p ==> #[trigger] ord@.contains(q),
            forall|t1: int, t2: int|
                0 <= t1 < t2 < ord@.len() ==> outranks(v, scored@, #[trigger] ord@[t1] as int, #[trigger] ord@[t2] as int),
            ord@.len() == p,
        decreases m - p,
    {
        let mut t: usize = 0;
        while t < ord.len() && !outranks_at(ids, scored, p, ord[t])
            invariant
                m == scored@.len(),
                v == views(ids@),
                ids_cover(v, scored@),
                p < m,
                forall|u: int| 0 <= u < ord@.len() ==> #[trigger] ord@[u] < p,
                t <= ord@.len(),
                forall|s: int| 0 <= s < t ==> !outranks(v, scored@, p as int, #[trigger] ord@[s] as int),
            decreases ord@.len() - t,
        {
            t = t + 1;
        }
        let ghost old_ord = ord@;
        ord.insert(t, p);
        proof {
            old_ord.insert_ensures(t as int, p);
            assert forall|t1: int, t2: int| 0 <= t1 < t2 < ord@.len() implies outranks(
                v,
                scored@,
                #[trigger] ord@[t1] as int,
                #[trigger] ord@[t2] as int,
            ) by {
                if t1 < t && t2 == t {
                    lemma_outranks_order(v, scored@, p as int, old_ord[t1] as int, p as int);
                } else if t1 == t {
                    let e = old_ord[t2 - 1];
                    let f = old_ord[t as int];
                    lemma_outranks_order(v, scored@, p as int, f as int, e as int);
                    if t2 - 1 > t {
                        assert(outranks(v, scored@, f as int, e as int));
                    }
                } else if t1 < t && t2 > t {
                    assert(ord@[t2] == old_ord[t2 - 1]);
                } else if t1 > t {
                    assert(ord@[t1] == old_ord[t1 - 1] && ord@[t2] == old_ord[t2 - 1]);
                }
            }
            assert forall|q: usize| q < p + 1 implies #[trigger] ord@.contains(q) by {
                if q == p {
                    assert(ord@[t as int] == p);
                } else {
                    assert(old_ord.contains(q));
                    let s = choose|s: int| 0 <= s < old_ord.len() && old_ord[s] == q;
                    if s < t {
                        assert(ord@[s] == q);
                    } else {
                        assert(ord@[s + 1] == q);
                    }
                }
            }
            assert forall|u: int| 0 <= u < ord@.len() implies #[trigger] ord@[u] < p + 1 by {
                if u < t {
                    assert(ord@[u] == old_ord[u]);
                } else if u > t {
                    assert(ord@[u] == old_ord[u - 1]);
                }
            }
        }
        p = p + 1;
    }
    proof {
        assert(is_ranking(v, scored@, ord@));
        lemma_ranking_unique(v, scored@, ord@, ranking(v, scored@));
    }
    let cut: usize = if k < m {
        k
    } else {
        m
    };
    let mut r: Vec<(usize, u64)> = Vec::new();
    let mut t: usize = 0;
    while t < cut
        invariant
            cut <= m,
            m == scored@.len(),
            ord@.len() == m,
            ord@ == ranking(v, scored@),
            is_ranking(v, scored@, ord@),
            t <= cut,
            r@ == top_k(v, scored@, k as int).take(t as int),
            top_k(v, scored@, k as int).len() == cut,
        decreases cut - t,
    {
        assert(ord@[t as int] < m);
        r.push(scored[ord[t]]);
        assert(r@ =~= top_k(v, scored@, k as int).take(t + 1));
        t = t + 1;
    }
    assert(r@ =~= top_k(v, scored@, k as int));
    r
}

/// The ids of the nodes.
pub open spec fn node_ids(nodes: Seq<NodeView>) -> Seq<Seq<char>> {
    nodes.map_values(|n: NodeView| n.id@)
}

/// Pool members paired with their score keys.
pub open spec fn keyed_pool(pool: Seq<usize>, keys: Seq<u64>) -> Seq<(usize, u64)> {
    Seq::new(pool.len(), |t: int| (pool[t], keys[t]))
}

/// Ranks the scoring pool of `nodes` (as `build_pool` forms it) by the
/// score keys of its members, `keys[t]` being the key of the `t`-th
/// member, and keeps the first `k`. Every node it returns is in the pool:
/// reachable, and under `PolicyResource` with a positive verdict.
pub fn rank_pool(
    nodes: &[NodeView],
    verdicts: &[Result<(), String>],
    strategy: Strategy,
    keys: &[u64],
    k: usize,
) -> (r: Vec<(usize, u64)>)
    requires
        verdicts_cover(nodes@, verdicts@, strategy),
        keys@.len() == pooled(nodes@, verdicts@, strategy, nodes@.len()).len(),
    ensures
        r@ == top_k(
            node_ids(nodes@),
            keyed_pool(pooled(nodes@, verdicts@, strategy, nodes@.len()), keys@),
            k as int,
        ),
        forall|t: int|
            0 <= t < r@.len() ==> {
                let i = (#[trigger] r@[t]).0 as int;
                &&& 0 <= i < nodes@.len()
                &&& nodes@[i].reachable
                &&& strategy == Strategy::PolicyResource ==> verdicts@[i] is Ok
            },
{
    let ghost pool_spec = pooled(nodes@, verdicts@, strategy, nodes@.len());
    let p = build_pool(nodes, verdicts, strategy);
    let n: usize = nodes.len();
    proof {
        assert(n == nodes@.len());
        lemma_pool_partition(nodes@, verdicts@, strategy, nodes@.len());
    }
    let mut ids: Vec<String> = Vec::new();
    let mut i: usize = 0;
    while i < nodes.len()
        invariant
            i <= nodes@.len(),
            views(ids@) == node_ids(nodes@.take(i as int)),
        decreases nodes@.len() - i,
    {
        let id = nodes[i].id.clone();
        let ghost before = views(ids@);
        ids.push(id);
        assert(views(ids@) =~= before.push(nodes@[i as int].id@));
        assert(nodes@.take(i + 1) =~= nodes@.take(i as int).push(nodes@[i as int]));
        assert(views(ids@) =~= node_ids(nodes@.take(i + 1)));
        i = i + 1;
    }
    assert(nodes@.take(i as int) =~= nodes@);
    let mut scored: Vec<(usize, u64)> = Vec::new();
    let mut t: usize = 0;
    while t < p.pool.len()
        invariant
            p.pool@ == pool_spec,
            keys@.len() == pool_spec.len(),
            t <= pool_spec.len(),
            scored@ == keyed_pool(pool_spec, keys@).take(t as int),
        decreases pool_spec.len() - t,
    {
        scored.push((p.pool[t], keys[t]));
        assert(scored@ =~= keyed_pool(pool_spec, keys@).take(t + 1));
        t = t + 1;
    }
    let ghost sc = keyed_pool(pool_spec, keys@);
    assert(scored@ =~= sc);
    assert(ids_cover(views(ids@), scored@)) by {
        assert forall|u: int| 0 <= u < scored@.len() implies (#[trigger] scored@[u]).0 < views(
            ids@,
        ).len() by {
            assert(scored@[u].0 == pool_spec[u]);
        }
    }
    let r = rank_candidates(&ids, &scored, k);
    proof {
        lemma_top_k_from_scored(node_ids(nodes@), sc, k as int);
        assert forall|t2: int| 0 <= t2 < r@.len() implies {
            let j = (#[trigger] r@[t2]).0 as int;
            &&& 0 <= j < nodes@.len()
            &&& nodes@[j].reachable
            &&& strategy == Strategy::PolicyResource ==> verdicts@[j] is Ok
        } by {
            let e = r@[t2];
            assert(sc.contains(e));
            let u = choose|u: int| 0 <= u < sc.len() && sc[u] == e;
            assert(pool_spec[u] == e.0);
            assert(pool_spec.contains(e.0));
            lemma_pool_respects_verdicts(nodes@, verdicts@, strategy, e.0);
        }
    }
    r
}

// ------------------------------------------------------------------ laws

/// Every node is either in the pool or excluded with its reason, never
/// both, and each appears once.
pub proof fn lemma_pool_partition(
    nodes: Seq<NodeView>,
    verdicts: Seq<Result<(), String>>,
    s: Strategy,
    n: nat,
)
    requires
        n <= usize::MAX,
    ensures
        forall|t: int|
            0 <= t < pooled(nodes, verdicts, s, n).len() ==> #[trigger] pooled(
                nodes,
                verdicts,
                s,
                n,
            )[t] < n && exclusion(nodes, verdicts, s, pooled(nodes, verdicts, s, n)[t] as int) is None,
        forall|t1: int, t2: int|
            0 <= t1 < t2 < pooled(nodes, verdicts, s, n).len() ==> #[trigger] pooled(
                nodes,
                verdicts,
                s,
                n,
            )[t1] < #[trigger] pooled(nodes, verdicts, s, n)[t2],
        forall|i: usize|
            i < n && exclusion(nodes, verdicts, s, i as int) is None ==> #[trigger] pooled(
                nodes,
                verdicts,
                s,
                n,
            ).contains(i),
        forall|t: int|
            0 <= t < excluded(nodes, verdicts, s, n).len() ==> {
                let e = #[trigger] excluded(nodes, verdicts, s, n)[t];
                e.0 < n && exclusion(nodes, verdicts, s, e.0 as int) == Some(e.1)
            },
        forall|i: usize|
            i < n && exclusion(nodes, verdicts, s, i as int) is Some ==> #[trigger] excluded(
                nodes,
                verdicts,
                s,
                n,
            ).contains((i, exclusion(nodes, verdicts, s, i as int)->0)),
    decreases n,
{
    if n > 0 {
        lemma_pool_partition(nodes, verdicts, s, (n - 1) as nat);
        let p = pooled(nodes, verdicts, s, (n - 1) as nat);
        let x = excluded(nodes, verdicts, s, (n - 1) as nat);
        let q0 = pooled(nodes, verdicts, s, n);
        if exclusion(nodes, verdicts, s, n - 1) is None {
            assert(q0 == p.push((n - 1) as usize));
        } else {
            assert(q0 == p);
        }
        assert forall|t: int| 0 <= t < q0.len() implies #[trigger] q0[t] < n && exclusion(
            nodes,
            verdicts,
            s,
            q0[t] as int,
        ) is None by {
            if t < p.len() {
                assert(q0[t] == p[t]);
            }
        }
        assert forall|t1: int, t2: int| 0 <= t1 < t2 < q0.len() implies #[trigger] q0[t1]
            < #[trigger] q0[t2] by {
            assert(q0[t1] == p[t1]);
            if t2 < p.len() {
                assert(q0[t2] == p[t2]);
            } else {
                assert(p[t1] < n - 1);
            }
        }
        let x0 = excluded(nodes, verdicts, s, n);
        assert forall|t: int| 0 <= t < x0.len() implies {
            let e = #[trigger] x0[t];
            e.0 < n && exclusion(nodes, verdicts, s, e.0 as int) == Some(e.1)
        } by {
            if t < x.len() {
                assert(x0[t] == x[t]);
            }
        }
        assert forall|i: usize|
            i < n && exclusion(nodes, verdicts, s, i as int) is None implies #[trigger] pooled(
            nodes,
            verdicts,
            s,
            n,
        ).contains(i) by {
            let q = pooled(nodes, verdicts, s, n);
            assert(q == p.push((n - 1) as usize) || q == p);
            if i < n - 1 {
                assert(p.contains(i));
                let t = choose|t: int| 0 <= t < p.len() && p[t] == i;
                assert(q[t] == i);
            } else {
                assert(q.last() == i);
            }
        }
        assert forall|i: usize|
            i < n && exclusion(nodes, verdicts, s, i as int) is Some implies #[trigger] excluded(
            nodes,
            verdicts,
            s,
            n,
        ).contains((i, exclusion(nodes, verdicts, s, i as int)->0)) by {
            let e = (i, exclusion(nodes, verdicts, s, i as int)->0);
            let q = excluded(nodes, verdicts, s, n);
            assert(q == x || q == x.push(((n - 1) as usize, exclusion(nodes, verdicts, s, n - 1)->0)));
            if i < n - 1 {
                assert(x.contains(e));
                let t = choose|t: int| 0 <= t < x.len() && x[t] == e;
                assert(excluded(nodes, verdicts, s, n)[t] == e);
            } else {
                assert(excluded(nodes, verdicts, s, n).last() == e);
            }
        }
    }
}

/// Regulatory eligibility is a hard filter: under `PolicyResource` every
/// node in the pool was reachable and had a positive verdict; under every
/// strategy every node in the pool was reachable.
pub proof fn lemma_pool_respects_verdicts(
    nodes: Seq<NodeView>,
    verdicts: Seq<Result<(), String>>,
    s: Strategy,
    i: usize,
)
    requires
        pooled(nodes, verdicts, s, nodes.len()).contains(i),
        nodes.len() <= usize::MAX,
    ensures
        i < nodes.len(),
        nodes[i as int].reachable,
        s == Strategy::PolicyResource ==> verdicts[i as int] is Ok,
{
    lemma_pool_partition(nodes, verdicts, s, nodes.len());
    let t = choose|t: int|
        0 <= t < pooled(nodes, verdicts, s, nodes.len()).len() && pooled(
            nodes,
            verdicts,
            s,
            nodes.len(),
        )[t] == i;
    assert(pooled(nodes, verdicts, s, nodes.len())[t] == i);
}

/// `ResourceOnly` ignores policy: its pool does not depend on the verdicts.
pub proof fn lemma_resource_only_ignores_verdicts(
    nodes: Seq<NodeView>,
    v1: Seq<Result<(), String>>,
    v2: Seq<Result<(), String>>,
    n: nat,
)
    ensures
        pooled(nodes, v1, Strategy::ResourceOnly, n) == pooled(nodes, v2, Strategy::ResourceOnly, n),
        excluded(nodes, v1, Strategy::ResourceOnly, n) == excluded(
            nodes,
            v2,
            Strategy::ResourceOnly,
            n,
        ),
    decreases n,
{
    if n > 0 {
        lemma_resource_only_ignores_verdicts(nodes, v1, v2, (n - 1) as nat);
    }
}

/// `x` is among `list` exactly when some entry, at any position, has its
/// characters.
proof fn lemma_views_contains(list: Seq<String>, x: Seq<char>)
    ensures
        views(list).contains(x) == exists|a: int| 0 <= a < list.len() && #[trigger] list[a]@ == x,
{
    if views(list).contains(x) {
        let t = choose|t: int| 0 <= t < views(list).len() && views(list)[t] == x;
        assert(list[t]@ == x);
    }
    if exists|a: int| 0 <= a < list.len() && #[trigger] list[a]@ == x {
        let a = choose|a: int| 0 <= a < list.len() && #[trigger] list[a]@ == x;
        assert(views(list)[a] == x);
    }
}

/// A node passes the residency policy exactly when its jurisdiction equals
/// an allowed jurisdiction at any position of the list, its zone equals an
/// allowed zone, and its licence is active. Otherwise the verdict names the
/// first rule it breaks, in the order jurisdiction, zone, licence.
pub proof fn lemma_policy_rules(p: Policy, n: NodeView)
    ensures
        ({
            let j_ok = exists|a: int|
                0 <= a < p.allowed_jurisdictions@.len() && #[trigger] p.allowed_jurisdictions@[a]@
                    == n.jurisdiction@;
            let z_ok = exists|b: int|
                0 <= b < p.allowed_zones@.len() && #[trigger] p.allowed_zones@[b]@ == n.residency_zone@;
            &&& (policy_verdict(p, n) is Ok) == (j_ok && z_ok && n.license_active)
            &&& eligible(p, n) == (j_ok && z_ok && n.license_active)
            &&& !j_ok ==> policy_verdict(p, n) == Err::<(), Seq<char>>("jurisdiction_not_permitted"@)
            &&& j_ok && !z_ok ==> policy_verdict(p, n) == Err::<(), Seq<char>>("zone_not_permitted"@)
            &&& j_ok && z_ok && !n.license_active ==> policy_verdict(p, n) == Err::<(), Seq<char>>(
                "license_not_active"@,
            )
        }),
{
    lemma_views_contains(p.allowed_jurisdictions@, n.jurisdiction@);
    lemma_views_contains(p.allowed_zones@, n.residency_zone@);
}

/// A node enters the scoring pool exactly when it is reachable and, under
/// `PolicyResource` only, its verdict is positive: under the other
/// strategies licence, jurisdiction and zone play no part. The pool lists
/// those nodes in increasing order. The excluded list holds every other
/// node, in increasing order, with the reason "unreachable" for an
/// unreachable node and the verdict's reason for a refused one.
pub proof fn lemma_pool_membership(
    nodes: Seq<NodeView>,
    verdicts: Seq<Result<(), String>>,
    s: Strategy,
    n: nat,
)
    requires
        n <= usize::MAX,
    ensures
        forall|i: usize|
            i < n ==> (#[trigger] pooled(nodes, verdicts, s, n).contains(i) <==> (
            nodes[i as int].reachable && (s == Strategy::PolicyResource ==> verdicts[i as int] is Ok))),
        forall|t1: int, t2: int|
            0 <= t1 < t2 < pooled(nodes, verdicts, s, n).len() ==> #[trigger] pooled(
                nodes,
                verdicts,
                s,
                n,
            )[t1] < #[trigger] pooled(nodes, verdicts, s, n)[t2],
        forall|t: int|
            0 <= t < pooled(nodes, verdicts, s, n).len() ==> #[trigger] pooled(nodes, verdicts, s, n)[t]
                < n,
        forall|t: int|
            0 <= t < excluded(nodes, verdicts, s, n).len() ==> {
                let e = #[trigger] excluded(nodes, verdicts, s, n)[t];
                &&& e.0 < n
                &&& !nodes[e.0 as int].reachable ==> e.1 == "unreachable"@
                &&& nodes[e.0 as int].reachable ==> (s == Strategy::PolicyResource
                    && reason_of(verdicts[e.0 as int]) == Some(e.1))
            },
        forall|t1: int, t2: int|
            0 <= t1 < t2 < excluded(nodes, verdicts, s, n).len() ==> (#[trigger] excluded(
                nodes,
                verdicts,
                s,
                n,
            )[t1]).0 < (#[trigger] excluded(nodes, verdicts, s, n)[t2]).0,
        forall|i: usize|
            i < n && !(nodes[i as int].reachable && (s == Strategy::PolicyResource
                ==> verdicts[i as int] is Ok)) ==> exists|t: int|
                0 <= t < excluded(nodes, verdicts, s, n).len() && (#[trigger] excluded(
                    nodes,
                    verdicts,
                    s,
                    n,
                )[t]).0 == i,
    decreases n,
{
    lemma_pool_partition(nodes, verdicts, s, n);
    let q = pooled(nodes, verdicts, s, n);
    let x = excluded(nodes, verdicts, s, n);
    assert forall|i: usize| i < n implies (#[trigger] q.contains(i) <==> (nodes[i as int].reachable
        && (s == Strategy::PolicyResource ==> verdicts[i as int] is Ok))) by {
        if q.contains(i) {
            let t = choose|t: int| 0 <= t < q.len() && q[t] == i;
            assert(exclusion(nodes, verdicts, s, q[t] as int) is None);
        }
    }
    assert forall|i: usize|
        i < n && !(nodes[i as int].reachable && (s == Strategy::PolicyResource
            ==> verdicts[i as int] is Ok)) implies exists|t: int|
        0 <= t < x.len() && (#[trigger] x[t]).0 == i by {
        let e = (i, exclusion(nodes, verdicts, s, i as int)->0);
        assert(x.contains(e));
        let t = choose|t: int| 0 <= t < x.len() && x[t] == e;
        assert(x[t].0 == i);
    }
    if n > 0 {
        lemma_pool_membership(nodes, verdicts, s, (n - 1) as nat);
        let x1 = excluded(nodes, verdicts, s, (n - 1) as nat);
        assert forall|t1: int, t2: int| 0 <= t1 < t2 < x.len() implies (#[trigger] x[t1]).0 < (
        #[trigger] x[t2]).0 by {
            assert(x[t1] == x1[t1]);
            if t2 < x1.len() {
                assert(x[t2] == x1[t2]);
            }
        }
    }
}

/// The ranked selection holds `min(k, m)` entries, each an entry of
/// `scored`, no position twice.
pub proof fn lemma_top_k_from_scored(ids: Seq<Seq<char>>, scored: Seq<(usize, u64)>, k: int)
    requires
        scored.len() <= usize::MAX,
        k >= 0,
    ensures
        top_k(ids, scored, k).len() == if k < scored.len() {
            k
        } else {
            scored.len() as int
        },
        forall|t: int|
            0 <= t < top_k(ids, scored, k).len() ==> scored.contains(
                #[trigger] top_k(ids, scored, k)[t],
            ),
        forall|t1: int, t2: int|
            0 <= t1 < t2 < top_k(ids, scored, k).len() ==> ranking(ids, scored)[t1] != ranking(
                ids,
                scored,
            )[t2],
{
    lemma_ranking_exists(ids, scored);
    let ord = ranking(ids, scored);
    assert forall|t1: int, t2: int| 0 <= t1 < t2 < top_k(ids, scored, k).len() implies ord[t1]
        != ord[t2] by {
        assert(t2 < ord.len()) by {
            lemma_ranking_covers(ids, scored, ord);
        }
        lemma_outranks_order(ids, scored, ord[t1] as int, ord[t2] as int, ord[t1] as int);
    }
    lemma_ranking_covers(ids, scored, ord);
    assert forall|t: int| 0 <= t < top_k(ids, scored, k).len() implies scored.contains(
        #[trigger] top_k(ids, scored, k)[t],
    ) by {
        assert(ord[t] < scored.len());
        assert(scored[ord[t] as int] == top_k(ids, scored, k)[t]);
    }
}

/// Id order is a strict order: never both ways, never an id before itself.
proof fn lemma_text_lt_strict(a: Seq<char>, b: Seq<char>)
    ensures
        !text_lt(a, a),
        !(text_lt(a, b) && text_lt(b, a)),
{
    crate::text::lemma_bytes_lt_irreflexive(vstd::utf8::encode_utf8(a));
    if text_lt(a, b) && text_lt(b, a) {
        crate::text::lemma_bytes_lt_transitive(
            vstd::utf8::encode_utf8(a),
            vstd::utf8::encode_utf8(b),
            vstd::utf8::encode_utf8(a),
        );
    }
}

/// The top `k` are chosen by score key, with ids only breaking ties: the
/// selection holds `min(k, m)` entries taken from distinct positions of
/// `scored`; their keys never increase along it, and equal keys come in id
/// order; and every entry left out has a key at most that of every selected
/// entry, and, where the keys are equal, an id not before the selected one.
pub proof fn lemma_top_k_by_key(ids: Seq<Seq<char>>, scored: Seq<(usize, u64)>, k: int)
    requires
        scored.len() <= usize::MAX,
        k >= 0,
    ensures
        ({
            let r = top_k(ids, scored, k);
            &&& r.len() == if k < scored.len() {
                k
            } else {
                scored.len() as int
            }
            &&& forall|t1: int, t2: int|
                0 <= t1 < t2 < r.len() ==> (#[trigger] r[t1]).1 >= (#[trigger] r[t2]).1
            &&& forall|t1: int, t2: int|
                0 <= t1 < t2 < r.len() && (#[trigger] r[t1]).1 == (#[trigger] r[t2]).1 ==> !text_lt(
                    ids[r[t2].0 as int],
                    ids[r[t1].0 as int],
                )
            &&& exists|sel: Seq<int>|
                {
                    &&& sel.len() == r.len()
                    &&& forall|t: int|
                        0 <= t < sel.len() ==> 0 <= #[trigger] sel[t] < scored.len() && scored[sel[t]]
                            == r[t]
                    &&& forall|t1: int, t2: int|
                        0 <= t1 < t2 < sel.len() ==> #[trigger] sel[t1] != #[trigger] sel[t2]
                    &&& forall|q: int, t: int|
                        0 <= q < scored.len() && !sel.contains(q) && 0 <= t < r.len() ==> {
                            &&& (#[trigger] r[t]).1 >= (#[trigger] scored[q]).1
                            &&& r[t].1 == scored[q].1 ==> !text_lt(
                                ids[scored[q].0 as int],
                                ids[r[t].0 as int],
                            )
                        }
                }
        }),
{
    lemma_top_k_from_scored(ids, scored, k);
    lemma_ranking_exists(ids, scored);
    let ord = ranking(ids, scored);
    lemma_ranking_covers(ids, scored, ord);
    let r = top_k(ids, scored, k);
    let cut = r.len() as int;
    assert forall|t1: int, t2: int| 0 <= t1 < t2 < r.len() implies (#[trigger] r[t1]).1 >= (
    #[trigger] r[t2]).1 && (r[t1].1 == r[t2].1 ==> !text_lt(ids[r[t2].0 as int], ids[r[t1].0 as int])) by {
        assert(outranks(ids, scored, ord[t1] as int, ord[t2] as int));
        lemma_text_lt_strict(ids[r[t1].0 as int], ids[r[t2].0 as int]);
    }
    let sel = Seq::new(cut as nat, |t: int| ord[t] as int);
    assert forall|t1: int, t2: int| 0 <= t1 < t2 < sel.len() implies #[trigger] sel[t1]
        != #[trigger] sel[t2] by {
        lemma_outranks_order(ids, scored, ord[t1] as int, ord[t2] as int, ord[t1] as int);
    }
    assert forall|q: int, t: int| 0 <= q < scored.len() && !sel.contains(q) && 0 <= t < r.len() implies {
        &&& (#[trigger] r[t]).1 >= (#[trigger] scored[q]).1
        &&& r[t].1 == scored[q].1 ==> !text_lt(ids[scored[q].0 as int], ids[r[t].0 as int])
    } by {
        assert(ord.contains(q as usize));
        let u = choose|u: int| 0 <= u < ord.len() && ord[u] == q as usize;
        if u < cut {
            assert(sel[u] == q);
        }
        assert(outranks(ids, scored, ord[t] as int, ord[u] as int));
        lemma_text_lt_strict(ids[r[t].0 as int], ids[scored[q].0 as int]);
    }
}

spec fn insert_ranked(
    ids: Seq<Seq<char>>,
    scored: Seq<(usize, u64)>,
    ord: Seq<usize>,
    p: usize,
) -> Seq<usize>
    decreases ord.len(),
{
    if ord.len() == 0 {
        seq![p]
    } else if outranks(ids, scored, p as int, ord[0] as int) {
        seq![p] + ord
    } else {
        seq![ord[0]] + insert_ranked(ids, scored, ord.drop_first(), p)
    }
}

spec fn strictly_ranked(ids: Seq<Seq<char>>, scored: Seq<(usize, u64)>, ord: Seq<usize>) -> bool {
    forall|t1: int, t2: int|
        0 <= t1 < t2 < ord.len() ==> outranks(ids, scored, #[trigger] ord[t1] as int, #[trigger] ord[t2] as int)
}

proof fn lemma_insert_ranked(
    ids: Seq<Seq<char>>,
    scored: Seq<(usize, u64)>,
    ord: Seq<usize>,
    p: usize,
)
    requires
        strictly_ranked(ids, scored, ord),
        !ord.contains(p),
    ensures
        strictly_ranked(ids, scored, insert_ranked(ids, scored, ord, p)),
        forall|e: usize|
            #[trigger] insert_ranked(ids, scored, ord, p).contains(e) <==> (ord.contains(e) || e
                == p),
    decreases ord.len(),
{
    let r = insert_ranked(ids, scored, ord, p);
    if ord.len() == 0 {
        assert forall|e: usize| #[trigger] r.contains(e) <==> (ord.contains(e) || e == p) by {
            if r.contains(e) {
                assert(r[0] == e);
            }
            if e == p {
                assert(r[0] == p);
            }
        }
    } else if outranks(ids, scored, p as int, ord[0] as int) {
        assert forall|t1: int, t2: int| 0 <= t1 < t2 < r.len() implies outranks(
            ids,
            scored,
            #[trigger] r[t1] as int,
            #[trigger] r[t2] as int,
        ) by {
            if t1 == 0 {
                if t2 > 1 {
                    lemma_outranks_order(ids, scored, p as int, ord[0] as int, ord[t2 - 1] as int);
                }
            } else {
                assert(r[t1] == ord[t1 - 1] && r[t2] == ord[t2 - 1]);
            }
        }
        assert forall|e: usize| #[trigger] r.contains(e) <==> (ord.contains(e) || e == p) by {
            if r.contains(e) {
                let t = choose|t: int| 0 <= t < r.len() && r[t] == e;
                if t > 0 {
                    assert(ord[t - 1] == e);
                }
            }
            if ord.contains(e) {
                let t = choose|t: int| 0 <= t < ord.len() && ord[t] == e;
                assert(r[t + 1] == e);
            }
            if e == p {
                assert(r[0] == p);
            }
        }
    } else {
        let rest = ord.drop_first();
        assert(!rest.contains(p)) by {
            if rest.contains(p) {
                let t = choose|t: int| 0 <= t < rest.len() && rest[t] == p;
                assert(ord[t + 1] == p);
            }
        }
        assert(strictly_ranked(ids, scored, rest)) by {
            assert forall|t1: int, t2: int| 0 <= t1 < t2 < rest.len() implies outranks(
                ids,
                scored,
                #[trigger] rest[t1] as int,
                #[trigger] rest[t2] as int,
            ) by {
                assert(rest[t1] == ord[t1 + 1] && rest[t2] == ord[t2 + 1]);
            }
        }
        lemma_insert_ranked(ids, scored, rest, p);
        let sub = insert_ranked(ids, scored, rest, p);
        assert(r == seq![ord[0]] + sub);
        assert(ord[0] != p) by {
            assert(ord.contains(ord[0]));
        }
        lemma_outranks_order(ids, scored, p as int, ord[0] as int, p as int);
        assert forall|t1: int, t2: int| 0 <= t1 < t2 < r.len() implies outranks(
            ids,
            scored,
            #[trigger] r[t1] as int,
            #[trigger] r[t2] as int,
        ) by {
            if t1 == 0 {
                let e = sub[t2 - 1];
                assert(r[t2] == e);
                assert(sub.contains(e));
                if e != p {
                    assert(rest.contains(e));
                    let s0 = choose|s0: int| 0 <= s0 < rest.len() && rest[s0] == e;
                    assert(ord[s0 + 1] == e);
                }
            } else {
                assert(r[t1] == sub[t1 - 1] && r[t2] == sub[t2 - 1]);
            }
        }
        assert forall|e: usize| #[trigger] r.contains(e) <==> (ord.contains(e) || e == p) by {
            if r.contains(e) {
                let t = choose|t: int| 0 <= t < r.len() && r[t] == e;
                if t > 0 {
                    assert(sub[t - 1] == e);
                    assert(sub.contains(e));
                    if rest.contains(e) {
                        let s0 = choose|s0: int| 0 <= s0 < rest.len() && rest[s0] == e;
                        assert(ord[s0 + 1] == e);
                    }
                } else {
                    assert(ord[0] == e);
                }
            }
            if ord.contains(e) {
                let t = choose|t: int| 0 <= t < ord.len() && ord[t] == e;
                if t == 0 {
                    assert(r[0] == e);
                } else {
                    assert(rest[t - 1] == e);
                    assert(sub.contains(e));
                    let s0 = choose|s0: int| 0 <= s0 < sub.len() && sub[s0] == e;
                    assert(r[s0 + 1] == e);
                }
            }
            if e == p {
                assert(sub.contains(p));
                let s0 = choose|s0: int| 0 <= s0 < sub.len() && sub[s0] == p;
                assert(r[s0 + 1] == p);
            }
        }
    }
}

spec fn ranked_prefix(ids: Seq<Seq<char>>, scored: Seq<(usize, u64)>, n: nat) -> Seq<usize>
    decreases n,
{
    if n == 0 {
        Seq::empty()
    } else {
        insert_ranked(ids, scored, ranked_prefix(ids, scored, (n - 1) as nat), (n - 1) as usize)
    }
}

proof fn lemma_ranked_prefix(ids: Seq<Seq<char>>, scored: Seq<(usize, u64)>, n: nat)
    requires
        n <= usize::MAX,
    ensures
        strictly_ranked(ids, scored, ranked_prefix(ids, scored, n)),
        forall|e: usize| #[trigger] ranked_prefix(ids, scored, n).contains(e) <==> e < n,
    decreases n,
{
    if n > 0 {
        let prev = ranked_prefix(ids, scored, (n - 1) as nat);
        lemma_ranked_prefix(ids, scored, (n - 1) as nat);
        assert(!prev.contains((n - 1) as usize));
        lemma_insert_ranked(ids, scored, prev, (n - 1) as usize);
    } else {
        assert forall|e: usize| #[trigger] ranked_prefix(ids, scored, n).contains(e) <==> e < n by {
        }
    }
}

/// Every `scored` has a ranking.
pub proof fn lemma_ranking_exists(ids: Seq<Seq<char>>, scored: Seq<(usize, u64)>)
    requires
        scored.len() <= usize::MAX,
    ensures
        is_ranking(ids, scored, ranking(ids, scored)),
{
    let ord = ranked_prefix(ids, scored, scored.len());
    lemma_ranked_prefix(ids, scored, scored.len());
    assert forall|t: int| 0 <= t < ord.len() implies #[trigger] ord[t] < scored.len() by {
        assert(ord.contains(ord[t]));
    }
    assert(is_ranking(ids, scored, ord));
}

/// Under `PolicyResource`, when the scores were given to pool members, every
/// selected node was reachable and had a positive verdict, whichever policy
/// engine gave the verdicts.
pub proof fn lemma_policy_resource_selects_only_allowed(
    nodes: Seq<NodeView>,
    verdicts: Seq<Result<(), String>>,
    ids: Seq<Seq<char>>,
    scored: Seq<(usize, u64)>,
    k: int,
)
    requires
        nodes.len() <= usize::MAX,
        scored.len() <= usize::MAX,
        k >= 0,
        forall|p: int|
            0 <= p < scored.len() ==> pooled(
                nodes,
                verdicts,
                Strategy::PolicyResource,
                nodes.len(),
            ).contains(#[trigger] scored[p].0),
    ensures
        forall|t: int|
            0 <= t < top_k(ids, scored, k).len() ==> {
                let i = (#[trigger] top_k(ids, scored, k)[t]).0 as int;
                &&& 0 <= i < nodes.len()
                &&& nodes[i].reachable
                &&& verdicts[i] is Ok
            },
{
    lemma_top_k_from_scored(ids, scored, k);
    assert forall|t: int| 0 <= t < top_k(ids, scored, k).len() implies {
        let i = (#[trigger] top_k(ids, scored, k)[t]).0 as int;
        &&& 0 <= i < nodes.len()
        &&& nodes[i].reachable
        &&& verdicts[i] is Ok
    } by {
        let e = top_k(ids, scored, k)[t];
        assert(scored.contains(e));
        let p = choose|p: int| 0 <= p < scored.len() && scored[p] == e;
        assert(pooled(nodes, verdicts, Strategy::PolicyResource, nodes.len()).contains(scored[p].0));
        lemma_pool_respects_verdicts(nodes, verdicts, Strategy::PolicyResource, e.0);
    }
}

/// Regulatory eligibility overrides technical suitability: with
/// `PolicyResource` and the native verdicts of `policy`, no node that the
/// policy refuses is ever selected, however it scores.
pub proof fn lemma_policy_resource_never_selects_ineligible(
    policy: Policy,
    nodes: Seq<NodeView>,
    verdicts: Seq<Result<(), String>>,
    ids: Seq<Seq<char>>,
    scored: Seq<(usize, u64)>,
    k: int,
)
    requires
        nodes.len() <= usize::MAX,
        scored.len() <= usize::MAX,
        k >= 0,
        verdicts.len() == nodes.len(),
        forall|i: int|
            0 <= i < nodes.len() ==> verdict_view(#[trigger] verdicts[i]) == native_verdict(
                policy,
                nodes[i],
            ),
        forall|p: int|
            0 <= p < scored.len() ==> pooled(
                nodes,
                verdicts,
                Strategy::PolicyResource,
                nodes.len(),
            ).contains(#[trigger] scored[p].0),
    ensures
        forall|t: int|
            0 <= t < top_k(ids, scored, k).len() ==> eligible(
                policy,
                nodes[(#[trigger] top_k(ids, scored, k)[t]).0 as int],
            ),
{
    lemma_policy_resource_selects_only_allowed(nodes, verdicts, ids, scored, k);
    assert forall|t: int| 0 <= t < top_k(ids, scored, k).len() implies eligible(
        policy,
        nodes[(#[trigger] top_k(ids, scored, k)[t]).0 as int],
    ) by {
        let i = top_k(ids, scored, k)[t].0 as int;
        assert(verdict_view(verdicts[i]) == native_verdict(policy, nodes[i]));
    }
}

/// A ranking lists exactly the positions of `scored`.
pub proof fn lemma_ranking_covers(ids: Seq<Seq<char>>, scored: Seq<(usize, u64)>, ord: Seq<usize>)
    requires
        is_ranking(ids, scored, ord),
        scored.len() <= usize::MAX,
    ensures
        ord.len() == scored.len(),
{
    // the entries are distinct positions below scored.len(), and all of them occur
    let m = scored.len() as int;
    assert forall|t1: int, t2: int| 0 <= t1 < ord.len() && 0 <= t2 < ord.len() && t1 != t2 implies ord[t1]
        != ord[t2] by {
        if t1 < t2 {
            lemma_outranks_order(ids, scored, ord[t1] as int, ord[t2] as int, ord[t1] as int);
        } else {
            lemma_outranks_order(ids, scored, ord[t2] as int, ord[t1] as int, ord[t2] as int);
        }
    }
    assert(ord.no_duplicates());
    let as_ints = ord.map_values(|x: usize| x as int);
    assert(as_ints.no_duplicates());
    as_ints.unique_seq_to_set();
    let range = vstd::set_lib::set_int_range(0, m);
    vstd::set_lib::lemma_int_range(0, m);
    assert forall|x: int| #[trigger] range.contains(x) implies as_ints.to_set().contains(x) by {
        let p = x as usize;
        assert(ord.contains(p));
        let t = choose|t: int| 0 <= t < ord.len() && ord[t] == p;
        assert(as_ints[t] == x);
    }
    assert forall|x: int| #[trigger] as_ints.to_set().contains(x) implies range.contains(x) by {
        let t = choose|t: int| 0 <= t < as_ints.len() && as_ints[t] == x;
        assert(ord[t] < scored.len());
    }
    assert(as_ints.to_set() =~= range);
}

// ------------------------------------------------ per-round policy verdicts

/// The verdict the scheduler starts from for a node: the native policy
/// verdict when the node answered its probe, `unreachable` otherwise.
pub open spec fn native_verdict(p: Policy, n: NodeView) -> Result<(), Seq<char>> {
    if n.reachable {
        policy_verdict(p, n)
    } else {
        Err("unreachable"@)
    }
}

/// Native policy verdicts for every node.
pub fn native_verdicts(policy: &Policy, nodes: &[NodeView]) -> (r: Vec<Result<(), String>>)
    ensures
        r@.len() == nodes@.len(),
        forall|i: int|
            0 <= i < nodes@.len() ==> verdict_view(#[trigger] r@[i]) == native_verdict(
                *policy,
                nodes@[i],
            ),
{
    let mut out: Vec<Result<(), String>> = Vec::new();
    let mut i: usize = 0;
    while i < nodes.len()
        invariant
            i <= nodes@.len(),
            out@.len() == i,
            forall|j: int|
                0 <= j < i ==> verdict_view(#[trigger] out@[j]) == native_verdict(
                    *policy,
                    nodes@[j],
                ),
        decreases nodes@.len() - i,
    {
        if nodes[i].reachable {
            out.push(policy.check(&nodes[i]));
        } else {
            out.push(Err("unreachable".to_owned()));
        }
        i = i + 1;
    }
    out
}

fn copy_verdict(v: &Result<(), String>) -> (r: Result<(), String>)
    ensures
        r == *v,
{
    match v {
        Ok(u) => Ok(*u),
        Err(e) => Err(e.clone()),
    }
}

/// Number of nodes among the first `n` on which the policy service gave a
/// verdict of the other sign than the native one.
pub open spec fn disagreements(
    native: Seq<Result<(), String>>,
    service: Seq<Option<Result<(), String>>>,
    n: nat,
) -> nat
    decreases n,
{
    if n == 0 {
        0
    } else {
        let rest = disagreements(native, service, (n - 1) as nat);
        match service[n - 1] {
            Some(v) => if (v is Ok) != (native[n - 1] is Ok) {
                rest + 1
            } else {
                rest
            },
            None => rest,
        }
    }
}

/// The scheduler never reports more disagreements than there are nodes.
pub proof fn lemma_disagreements_bounded(
    native: Seq<Result<(), String>>,
    service: Seq<Option<Result<(), String>>>,
    n: nat,
)
    ensures
        disagreements(native, service, n) <= n,
    decreases n,
{
    if n > 0 {
        lemma_disagreements_bounded(native, service, (n - 1) as nat);
    }
}

/// The authoritative verdicts when a policy service answers: its verdict
/// replaces the native one wherever it gave one (`service[i]` is `Some`),
/// and the number of sign disagreements is counted.
pub fn apply_service_verdicts(
    native: &[Result<(), String>],
    service: &[Option<Result<(), String>>],
) -> (r: (Vec<Result<(), String>>, u32))
    requires
        native@.len() == service@.len(),
        service@.len() <= u32::MAX,
    ensures
        r.0@.len() == native@.len(),
        forall|i: int|
            0 <= i < native@.len() ==> #[trigger] r.0@[i] == match service@[i] {
                Some(v) => v,
                None => native@[i],
            },
        r.1 == disagreements(native@, service@, native@.len()),
{
    let mut out: Vec<Result<(), String>> = Vec::new();
    let mut count: u32 = 0;
    let mut i: usize = 0;
    while i < native.len()
        invariant
            native@.len() == service@.len(),
            service@.len() <= u32::MAX,
            i <= native@.len(),
            out@.len() == i,
            forall|j: int|
                0 <= j < i ==> #[trigger] out@[j] == match service@[j] {
                    Some(v) => v,
                    None => native@[j],
                },
            count == disagreements(native@, service@, i as nat),
        decreases native@.len() - i,
    {
        proof {
            lemma_disagreements_bounded(native@, service@, i as nat);
        }
        match &service[i] {
            Some(v) => {
                if v.is_ok() != native[i].is_ok() {
                    count = count + 1;
                }
                out.push(copy_verdict(v));
            },
            None => {
                out.push(copy_verdict(&native[i]));
            },
        }
        i = i + 1;
    }
    (out, count)
}

/// The verdict carried by a policy service reply: allowed only when the
/// reply says `allow` is true; otherwise denied with the first reason the
/// reply gives, or `opa_denied` when it gives none.
pub fn service_reply_verdict(allow: Option<bool>, first_reason: Option<String>) -> (r: Result<
    (),
    String,
>)
    ensures
        allow == Some(true) ==> r is Ok,
        allow != Some(true) ==> verdict_view(r) == Err::<(), Seq<char>>(
            match first_reason {
                Some(reason) => reason@,
                None => "opa_denied"@,
            },
        ),
{
    match allow {
        Some(true) => Ok(()),
        _ => match first_reason {
            Some(reason) => Err(reason),
            None => Err("opa_denied".to_owned()),
        },
    }
}

/// What a node's probe reports that policy reads.
#[derive(Clone, Debug)]
pub struct ProbeFacts {
    pub jurisdiction: String,
    pub license_status: String,
    pub residency_zone: String,
}

/// The view of a node from its probe: a node that did not answer is
/// unreachable and has no facts; the Random strategy never probes and
/// treats every node as reachable.
pub open spec fn probe_view(id: Seq<char>, probe: Option<ProbeFacts>, s: Strategy, v: NodeView) -> bool {
    &&& v.id@ == id
    &&& v.reachable == (probe is Some || s == Strategy::Random)
    &&& match probe {
        Some(f) => {
            &&& v.jurisdiction@ == f.jurisdiction@
            &&& v.license_active == (f.license_status@ == "active"@)
            &&& v.residency_zone@ == f.residency_zone@
        },
        None => {
            &&& v.jurisdiction@ == Seq::<char>::empty()
            &&& !v.license_active
            &&& v.residency_zone@ == Seq::<char>::empty()
        },
    }
}

/// Builds the node views of a round from the probes (`probes[i]` is `None`
/// when node `i` did not answer or was not probed).
pub fn views_from_probes(ids: &[String], probes: &[Option<ProbeFacts>], strategy: Strategy) -> (r:
    Vec<NodeView>)
    requires
        ids@.len() == probes@.len(),
    ensures
        r@.len() == ids@.len(),
        forall|i: int|
            0 <= i < ids@.len() ==> probe_view(ids@[i]@, probes@[i], strategy, #[trigger] r@[i]),
{
    let mut out: Vec<NodeView> = Vec::new();
    let mut i: usize = 0;
    while i < ids.len()
        invariant
            ids@.len() == probes@.len(),
            i <= ids@.len(),
            out@.len() == i,
            forall|j: int|
                0 <= j < i ==> probe_view(ids@[j]@, probes@[j], strategy, #[trigger] out@[j]),
        decreases ids@.len() - i,
    {
        let view = match &probes[i] {
            Some(f) => NodeView {
                id: ids[i].clone(),
                reachable: true,
                jurisdiction: f.jurisdiction.clone(),
                license_active: str_equal(f.license_status.as_str(), "active"),
                residency_zone: f.residency_zone.clone(),
            },
            None => NodeView {
                id: ids[i].clone(),
                reachable: strategy == Strategy::Random,
                jurisdiction: String::new(),
                license_active: false,
                residency_zone: String::new(),
            },
        };
        out.push(view);
        i = i + 1;
    }
    out
}

} // verus!
