//! Hysteretic presence reconciliation.
//!
//! Each polling cycle yields the set of host identities sighted in the
//! browse responses. A host missing from a single cycle is not
//! necessarily gone: lookups are lossy and bursty. Every sighted host
//! carries a full retry budget; a host absent from a cycle survives
//! with its budget decremented, and is reported removed only when it is
//! absent while the budget is already exhausted.

use vstd::prelude::*;

use crate::bytes::{copy_bytes, eq_bytes};
use crate::rr::{spec_parse_name, spec_parse_rr, spec_rr_ok, DecodeError};

verus! {

/// Retry budget granted to every sighted host: the number of further
/// consecutive absent cycles it survives after the one that spends its
/// last retry.
pub const RETRY_BUDGET: u32 = 8;

/// Record class expected of browse responses (internet class).
pub const CLASS_IN: u16 = 1;

/// Record type expected of browse responses (pointer type).
pub const TYPE_PTR: u16 = 12;

/// Identity of a candidate host. Two sightings denote the same host
/// exactly when interface index, name and domain all agree; the retry
/// budget is no part of the identity.
#[derive(Debug, PartialEq, Eq)]
pub struct HostId {
    /// Interface the record was received on.
    pub interface_index: i32,
    /// Name of the pointer record.
    pub name: Vec<u8>,
    /// Target domain the record points at.
    pub domain: Vec<u8>,
}

impl View for HostId {
    type V = (int, Seq<u8>, Seq<u8>);

    open spec fn view(&self) -> (int, Seq<u8>, Seq<u8>) {
        (self.interface_index as int, self.name@, self.domain@)
    }
}

impl HostId {
    /// A fresh copy holding the same identity.
    pub fn duplicate(&self) -> (r: HostId)
        ensures
            r@ == self@,
    {
        HostId {
            interface_index: self.interface_index,
            name: copy_bytes(self.name.as_slice()),
            domain: copy_bytes(self.domain.as_slice()),
        }
    }
}

/// A host of the stable set together with its remaining retry budget.
pub struct CandidateHost {
    /// Identity of the host.
    pub id: HostId,
    /// Consecutive absent cycles the host still survives after the one
    /// that spends its last retry.
    pub retries_remaining: u32,
}

/// Equality of two host identities.
pub fn host_id_eq(a: &HostId, b: &HostId) -> (r: bool)
    ensures
        r == (a@ == b@),
{
    a.interface_index == b.interface_index && eq_bytes(a.name.as_slice(), b.name.as_slice())
        && eq_bytes(a.domain.as_slice(), b.domain.as_slice())
}

/// True when some identity of `s` equals `x`.
pub open spec fn ids_contain(s: Seq<HostId>, x: (int, Seq<u8>, Seq<u8>)) -> bool {
    exists|i: int| 0 <= i < s.len() && (#[trigger] s[i])@ == x
}

/// True when some host of `s` has identity `x`.
pub open spec fn hosts_contain(s: Seq<CandidateHost>, x: (int, Seq<u8>, Seq<u8>)) -> bool {
    exists|i: int| 0 <= i < s.len() && (#[trigger] s[i]).id@ == x
}

/// True when no identity occurs twice in `s`.
pub open spec fn ids_distinct(s: Seq<HostId>) -> bool {
    forall|i: int, j: int|
        0 <= i < j < s.len() ==> (#[trigger] s[i])@ != (#[trigger] s[j])@
}

/// True when no host identity occurs twice in `s`.
pub open spec fn hosts_distinct(s: Seq<CandidateHost>) -> bool {
    forall|i: int, j: int|
        0 <= i < j < s.len() ==> (#[trigger] s[i]).id@ != (#[trigger] s[j]).id@
}

/// Pushing a host extends the identities a host list contains by
/// exactly the pushed one.
proof fn lemma_hosts_contain_push(s: Seq<CandidateHost>, e: CandidateHost)
    ensures
        forall|x: (int, Seq<u8>, Seq<u8>)|
            #[trigger] hosts_contain(s.push(e), x) <==> (hosts_contain(s, x) || x == e.id@),
{
    assert forall|x: (int, Seq<u8>, Seq<u8>)|
        #[trigger] hosts_contain(s.push(e), x) <==> (hosts_contain(s, x) || x
        == e.id@) by {
        if hosts_contain(s.push(e), x) {
            let i = choose|i: int| 0 <= i < s.push(e).len() && (#[trigger] s.push(e)[i]).id@ == x;
            if i < s.len() {
                assert((s[i]).id@ == x);
            } else {
                assert(s.push(e)[i] == e);
            }
        }
        if hosts_contain(s, x) {
            let i = choose|i: int| 0 <= i < s.len() && (#[trigger] s[i]).id@ == x;
            assert((s.push(e)[i]).id@ == x);
        }
        if x == e.id@ {
            assert((s.push(e)[s.len() as int]).id@ == x);
        }
    }
}

/// Pushing an identity extends the identities a list contains by
/// exactly the pushed one.
proof fn lemma_ids_contain_push(s: Seq<HostId>, e: HostId)
    ensures
        forall|x: (int, Seq<u8>, Seq<u8>)|
            #[trigger] ids_contain(s.push(e), x) <==> (ids_contain(s, x) || x == e@),
{
    assert forall|x: (int, Seq<u8>, Seq<u8>)|
        #[trigger] ids_contain(s.push(e), x) <==> (ids_contain(s, x) || x == e@) by {
        if ids_contain(s.push(e), x) {
            let i = choose|i: int| 0 <= i < s.push(e).len() && (#[trigger] s.push(e)[i])@ == x;
            if i < s.len() {
                assert((s[i])@ == x);
            } else {
                assert(s.push(e)[i] == e);
            }
        }
        if ids_contain(s, x) {
            let i = choose|i: int| 0 <= i < s.len() && (#[trigger] s[i])@ == x;
            assert((s.push(e)[i])@ == x);
        }
        if x == e@ {
            assert((s.push(e)[s.len() as int])@ == x);
        }
    }
}

/// Decides whether the identity of `x` occurs in `v`.
pub fn ids_contain_exec(v: &Vec<HostId>, x: &HostId) -> (r: bool)
    ensures
        r == ids_contain(v@, x@),
{
    let mut i: usize = 0;
    while i < v.len()
        invariant
            i <= v@.len(),
            forall|k: int| 0 <= k < i ==> (#[trigger] v@[k])@ != x@,
        decreases v@.len() - i,
    {
        if host_id_eq(&v[i], x) {
            return true;
        }
        i = i + 1;
    }
    false
}

/// Decides whether some host of `v` has the identity of `x`.
pub fn hosts_contain_exec(v: &Vec<CandidateHost>, x: &HostId) -> (r: bool)
    ensures
        r == hosts_contain(v@, x@),
{
    let mut i: usize = 0;
    while i < v.len()
        invariant
            i <= v@.len(),
            forall|k: int| 0 <= k < i ==> (#[trigger] v@[k]).id@ != x@,
        decreases v@.len() - i,
    {
        if host_id_eq(&v[i].id, x) {
            return true;
        }
        i = i + 1;
    }
    false
}

/// How one host of the next stable set is justified: a sighted host
/// carries the full retry budget; an absent one survives a host of the
/// previous set whose budget was positive, with the budget decremented.
pub open spec fn entry_justified(
    stable: Seq<CandidateHost>,
    sighted: Seq<HostId>,
    h: CandidateHost,
) -> bool {
    if ids_contain(sighted, h.id@) {
        h.retries_remaining == RETRY_BUDGET
    } else {
        exists|j: int|
            0 <= j < stable.len() && (#[trigger] stable[j]).id@ == h.id@
                && stable[j].retries_remaining > 0 && h.retries_remaining == stable[
                j
            ].retries_remaining - 1
    }
}

/// True when some host of `stable` has identity `x` and an exhausted
/// retry budget.
pub open spec fn stable_has_exhausted(
    stable: Seq<CandidateHost>,
    x: (int, Seq<u8>, Seq<u8>),
) -> bool {
    exists|j: int|
        0 <= j < stable.len() && (#[trigger] stable[j]).id@ == x && stable[j].retries_remaining
            == 0
}

/// Complete description of one reconciliation cycle: how the next
/// stable set, the reported additions and the reported removals relate
/// to the previous stable set and the sighted identities.
pub open spec fn reconcile_rel(
    stable: Seq<CandidateHost>,
    sighted: Seq<HostId>,
    new: Seq<CandidateHost>,
    added: Seq<HostId>,
    removed: Seq<HostId>,
) -> bool {
    &&& hosts_distinct(new)
    &&& forall|i: int| 0 <= i < new.len() ==> entry_justified(stable, sighted, #[trigger] new[i])
    &&& forall|k: int|
        0 <= k < sighted.len() ==> hosts_contain(new, (#[trigger] sighted[k])@)
    &&& forall|j: int|
        0 <= j < stable.len() && !ids_contain(sighted, (#[trigger] stable[j]).id@) && stable[
            j
        ].retries_remaining > 0 ==> hosts_contain(new, stable[j].id@)
    &&& ids_distinct(removed)
    &&& forall|j: int|
        0 <= j < stable.len() && !ids_contain(sighted, (#[trigger] stable[j]).id@) && stable[
            j
        ].retries_remaining == 0 ==> ids_contain(removed, stable[j].id@)
    &&& forall|i: int| 0 <= i < removed.len() ==> !ids_contain(sighted, (#[trigger] removed[i])@)
    &&& forall|i: int|
        0 <= i < removed.len() ==> stable_has_exhausted(stable, (#[trigger] removed[i])@)
    &&& ids_distinct(added)
    &&& forall|i: int| 0 <= i < added.len() ==> ids_contain(sighted, (#[trigger] added[i])@)
    &&& forall|i: int| 0 <= i < added.len() ==> !hosts_contain(stable, (#[trigger] added[i])@)
    &&& forall|k: int|
        0 <= k < sighted.len() && !hosts_contain(stable, (#[trigger] sighted[k])@)
            ==> ids_contain(added, sighted[k]@)
}

/// Result of one reconciliation cycle.
pub struct ReconcileOutcome {
    /// The next stable set.
    pub stable: Vec<CandidateHost>,
    /// Hosts sighted now that the previous stable set lacked.
    pub added: Vec<HostId>,
    /// Hosts dropped now: absent with an exhausted retry budget.
    pub removed: Vec<HostId>,
}

/// One reconciliation cycle: rebuilds the stable set from the sighted
/// identities, granting every sighted host the full retry budget,
/// letting every absent host with budget left survive decremented, and
/// reporting exactly the newly sighted hosts as added and exactly the
/// absent, exhausted hosts as removed.
pub fn reconcile(stable: &Vec<CandidateHost>, sighted: &Vec<HostId>) -> (r: ReconcileOutcome)
    requires
        hosts_distinct(stable@),
    ensures
        reconcile_rel(stable@, sighted@, r.stable@, r.added@, r.removed@),
{
    let mut new_stable: Vec<CandidateHost> = Vec::new();

    let mut i: usize = 0;
    while i < sighted.len()
        invariant
            i <= sighted@.len(),
            hosts_distinct(new_stable@),
            forall|k: int|
                0 <= k < new_stable@.len() ==> ids_contain(
                    sighted@,
                    (#[trigger] new_stable@[k]).id@,
                ) && new_stable@[k].retries_remaining == RETRY_BUDGET,
            forall|k: int| 0 <= k < i ==> hosts_contain(new_stable@, (#[trigger] sighted@[k])@),
        decreases sighted@.len() - i,
    {
        let s = &sighted[i];
        if !hosts_contain_exec(&new_stable, s) {
            let ghost prev = new_stable@;
            let entry = CandidateHost { id: s.duplicate(), retries_remaining: RETRY_BUDGET };
            proof {
                lemma_hosts_contain_push(prev, entry);
            }
            new_stable.push(entry);
        }
        proof {
            assert(hosts_contain(new_stable@, sighted@[i as int]@));
        }
        i = i + 1;
    }

    let mut removed: Vec<HostId> = Vec::new();
    let mut j: usize = 0;
    while j < stable.len()
        invariant
            j <= stable@.len(),
            hosts_distinct(stable@),
            hosts_distinct(new_stable@),
            forall|k: int|
                0 <= k < new_stable@.len() ==> entry_justified(
                    stable@,
                    sighted@,
                    #[trigger] new_stable@[k],
                ),
            forall|k: int|
                0 <= k < new_stable@.len() ==> ids_contain(
                    sighted@,
                    (#[trigger] new_stable@[k]).id@,
                ) || (exists|m: int|
                    0 <= m < j && (#[trigger] stable@[m]).id@ == new_stable@[k].id@),
            forall|k: int| 0 <= k < sighted@.len() ==> hosts_contain(
                new_stable@,
                (#[trigger] sighted@[k])@,
            ),
            forall|m: int|
                0 <= m < j && !ids_contain(sighted@, (#[trigger] stable@[m]).id@) && stable@[
                    m
                ].retries_remaining > 0 ==> hosts_contain(new_stable@, stable@[m].id@),
            forall|m: int|
                0 <= m < j && !ids_contain(sighted@, (#[trigger] stable@[m]).id@) && stable@[
                    m
                ].retries_remaining == 0 ==> ids_contain(removed@, stable@[m].id@),
            forall|i2: int|
                0 <= i2 < removed@.len() ==> !ids_contain(sighted@, (#[trigger] removed@[i2])@),
            forall|i2: int|
                0 <= i2 < removed@.len() ==> stable_has_exhausted(
                    stable@,
                    (#[trigger] removed@[i2])@,
                ),
            forall|i2: int|
                0 <= i2 < removed@.len() ==> hosts_contain(
                    stable@.take(j as int),
                    (#[trigger] removed@[i2])@,
                ),
            ids_distinct(removed@),
        decreases stable@.len() - j,
    {
        let h = &stable[j];
        if !ids_contain_exec(sighted, &h.id) {
            if h.retries_remaining == 0 {
                let ghost prev = removed@;
                let dup = h.id.duplicate();
                proof {
                    lemma_ids_contain_push(prev, dup);
                }
                proof {
                    // The pushed identity is new to the removals: every
                    // earlier one stems from an earlier, distinct stable
                    // entry.
                    assert forall|i2: int| 0 <= i2 < prev.len() implies (#[trigger] prev[i2])@
                        != dup@ by {
                        if prev[i2]@ == dup@ {
                            let m = choose|m: int|
                                0 <= m < stable@.take(j as int).len() && (#[trigger] stable@.take(
                                    j as int,
                                )[m]).id@ == prev[i2]@;
                            assert(stable@[m].id@ == stable@[j as int].id@);
                            assert(false);
                        }
                    }
                }
                removed.push(dup);
                proof {
                    // The entry at index j of the previous stable set
                    // witnesses the justification of the pushed removal.
                    assert((stable@[j as int]).id@ == dup@ && stable@[
                        j as int
                    ].retries_remaining == 0);
                    assert(stable_has_exhausted(stable@, dup@));
                    assert(removed@[removed@.len() - 1]@ == dup@);
                    assert(stable@.take(j as int + 1)[j as int].id@ == dup@);
                }
            } else {
                let ghost prev = new_stable@;
                let entry = CandidateHost {
                    id: h.id.duplicate(),
                    retries_remaining: h.retries_remaining - 1,
                };
                proof {
                    lemma_hosts_contain_push(prev, entry);
                    // The pushed identity is new to the set: every present
                    // host is either sighted (this one is not) or stems
                    // from an earlier, distinct stable entry.
                    assert forall|k: int| 0 <= k < prev.len() implies (#[trigger] prev[k]).id@
                        != entry.id@ by {
                        if prev[k].id@ == entry.id@ {
                            assert(!ids_contain(sighted@, prev[k].id@));
                            let m = choose|m: int|
                                0 <= m < j && (#[trigger] stable@[m]).id@ == prev[k].id@;
                            assert(stable@[m].id@ == stable@[j as int].id@);
                            assert(false);
                        }
                    }
                }
                new_stable.push(entry);
            }
        }
        proof {
            // Provenance of removals carries over to the longer prefix.
            assert(stable@.take(j as int).push(stable@[j as int]) =~= stable@.take(j as int + 1));
            lemma_hosts_contain_push(stable@.take(j as int), stable@[j as int]);
        }
        j = j + 1;
    }

    let mut added: Vec<HostId> = Vec::new();
    let mut i: usize = 0;
    while i < sighted.len()
        invariant
            i <= sighted@.len(),
            ids_distinct(added@),
            forall|k: int|
                0 <= k < added@.len() ==> ids_contain(sighted@, (#[trigger] added@[k])@)
                    && !hosts_contain(stable@, added@[k]@),
            forall|k: int|
                0 <= k < i ==> hosts_contain(stable@, (#[trigger] sighted@[k])@) || ids_contain(
                    added@,
                    sighted@[k]@,
                ),
        decreases sighted@.len() - i,
    {
        let s = &sighted[i];
        if !hosts_contain_exec(stable, s) && !ids_contain_exec(&added, s) {
            let ghost prev = added@;
            let dup = s.duplicate();
            proof {
                lemma_ids_contain_push(prev, dup);
            }
            added.push(dup);
        }
        i = i + 1;
    }

    ReconcileOutcome { stable: new_stable, added, removed }
}

/// Hysteresis reset: after a cycle in which a host was sighted, the
/// host stands in the stable set with the full retry budget restored,
/// whatever budget it had before the cycle.
pub proof fn lemma_hysteresis_reset(
    stable: Seq<CandidateHost>,
    sighted: Seq<HostId>,
    new: Seq<CandidateHost>,
    added: Seq<HostId>,
    removed: Seq<HostId>,
    x: (int, Seq<u8>, Seq<u8>),
)
    requires
        reconcile_rel(stable, sighted, new, added, removed),
        ids_contain(sighted, x),
    ensures
        hosts_contain(new, x),
        forall|i: int|
            0 <= i < new.len() && (#[trigger] new[i]).id@ == x ==> new[i].retries_remaining
                == RETRY_BUDGET,
{
    let k = choose|k: int| 0 <= k < sighted.len() && (#[trigger] sighted[k])@ == x;
    assert(hosts_contain(new, sighted[k]@));
    assert forall|i: int|
        0 <= i < new.len() && (#[trigger] new[i]).id@ == x implies new[i].retries_remaining
        == RETRY_BUDGET by {
        assert(entry_justified(stable, sighted, new[i]));
    }
}

/// A host standing in neither the stable set nor the sighting of a
/// cycle stays out of the next stable set and is not reported removed
/// in that cycle; in particular a removal is reported only once.
pub proof fn lemma_gone_stays_gone(
    stable: Seq<CandidateHost>,
    sighted: Seq<HostId>,
    new: Seq<CandidateHost>,
    added: Seq<HostId>,
    removed: Seq<HostId>,
    x: (int, Seq<u8>, Seq<u8>),
)
    requires
        reconcile_rel(stable, sighted, new, added, removed),
        !hosts_contain(stable, x),
        !ids_contain(sighted, x),
    ensures
        !hosts_contain(new, x),
        !ids_contain(removed, x),
{
    if hosts_contain(new, x) {
        let i = choose|i: int| 0 <= i < new.len() && (#[trigger] new[i]).id@ == x;
        assert(entry_justified(stable, sighted, new[i]));
        let j = choose|j: int|
            0 <= j < stable.len() && (#[trigger] stable[j]).id@ == new[i].id@ && stable[
                j
            ].retries_remaining > 0;
        assert(hosts_contain(stable, x));
    }
    if ids_contain(removed, x) {
        let i = choose|i: int| 0 <= i < removed.len() && (#[trigger] removed[i])@ == x;
        assert(stable_has_exhausted(stable, removed[i]@));
        let j = choose|j: int|
            0 <= j < stable.len() && (#[trigger] stable[j]).id@ == removed[i]@ && stable[
                j
            ].retries_remaining == 0;
        assert(hosts_contain(stable, x));
    }
}

/// Flap damping: a host that enters the stable set with the full retry
/// budget and is then absent from `m` consecutive cycles stays in the
/// stable set, with its budget reduced by one per absent cycle, for up
/// to `RETRY_BUDGET` cycles, and no cycle among them reports it
/// removed. On the following absent cycle, the exhausted host leaves
/// the stable set and exactly that cycle reports it removed.
pub proof fn lemma_flap_damping(
    states: Seq<Seq<CandidateHost>>,
    sighteds: Seq<Seq<HostId>>,
    addeds: Seq<Seq<HostId>>,
    removeds: Seq<Seq<HostId>>,
    x: (int, Seq<u8>, Seq<u8>),
    m: int,
)
    requires
        0 <= m <= RETRY_BUDGET + 1,
        states.len() >= m + 1,
        sighteds.len() >= m,
        addeds.len() >= m,
        removeds.len() >= m,
        forall|c: int|
            0 <= c < m ==> reconcile_rel(
                #[trigger] states[c],
                sighteds[c],
                states[c + 1],
                addeds[c],
                removeds[c],
            ),
        forall|c: int| 0 <= c < m ==> !ids_contain(#[trigger] sighteds[c], x),
        hosts_contain(states[0], x),
        forall|i: int|
            0 <= i < states[0].len() && (#[trigger] states[0][i]).id@ == x ==> states[0][
                i
            ].retries_remaining == RETRY_BUDGET,
    ensures
        m <= RETRY_BUDGET ==> hosts_contain(states[m], x),
        m <= RETRY_BUDGET ==> forall|i: int|
            0 <= i < states[m].len() && (#[trigger] states[m][i]).id@ == x ==> states[m][
                i
            ].retries_remaining == RETRY_BUDGET - m,
        m == RETRY_BUDGET + 1 ==> !hosts_contain(states[m], x),
        m == RETRY_BUDGET + 1 ==> ids_contain(removeds[m - 1], x),
        forall|c: int| 0 <= c < m && c < RETRY_BUDGET ==> !ids_contain(#[trigger] removeds[c], x),
    decreases m,
{
    if m > 0 {
        lemma_flap_damping(states, sighteds, addeds, removeds, x, m - 1);
        let pre = states[m - 1];
        let post = states[m];
        assert(reconcile_rel(states[m - 1], sighteds[m - 1], states[m], addeds[m - 1], removeds[m
            - 1]));
        let jw = choose|j: int| 0 <= j < pre.len() && (#[trigger] pre[j]).id@ == x;
        assert(pre[jw].retries_remaining == RETRY_BUDGET - (m - 1));
        if m <= RETRY_BUDGET {
            // The surviving entry keeps the host present, one retry down.
            assert(pre[jw].retries_remaining > 0);
            assert(hosts_contain(post, pre[jw].id@));
            assert forall|i: int|
                0 <= i < post.len() && (#[trigger] post[i]).id@ == x implies post[
                i
            ].retries_remaining == RETRY_BUDGET - m by {
                assert(entry_justified(pre, sighteds[m - 1], post[i]));
                let j2 = choose|j2: int|
                    0 <= j2 < pre.len() && (#[trigger] pre[j2]).id@ == post[i].id@ && pre[
                        j2
                    ].retries_remaining > 0 && post[i].retries_remaining == pre[
                        j2
                    ].retries_remaining - 1;
                assert(pre[j2].retries_remaining == RETRY_BUDGET - (m - 1));
            }
            // This cycle does not report the host removed: removal would
            // need an exhausted entry, and the budget is still positive.
            if ids_contain(removeds[m - 1], x) {
                let i = choose|i: int|
                    0 <= i < removeds[m - 1].len() && (#[trigger] removeds[m - 1][i])@ == x;
                assert(stable_has_exhausted(pre, x));
                let j3 = choose|j3: int|
                    0 <= j3 < pre.len() && (#[trigger] pre[j3]).id@ == x && pre[
                        j3
                    ].retries_remaining == 0;
                assert(pre[j3].retries_remaining == RETRY_BUDGET - (m - 1));
                assert(false);
            }
        } else {
            // The budget is exhausted: the host leaves the set and this
            // cycle reports it removed.
            assert(pre[jw].retries_remaining == 0);
            if hosts_contain(post, x) {
                let i = choose|i: int| 0 <= i < post.len() && (#[trigger] post[i]).id@ == x;
                assert(entry_justified(pre, sighteds[m - 1], post[i]));
                let j2 = choose|j2: int|
                    0 <= j2 < pre.len() && (#[trigger] pre[j2]).id@ == post[i].id@ && pre[
                        j2
                    ].retries_remaining > 0 && post[i].retries_remaining == pre[
                        j2
                    ].retries_remaining - 1;
                assert(pre[j2].retries_remaining == 0);
                assert(false);
            }
            assert(!ids_contain(sighteds[m - 1], pre[jw].id@));
            assert(ids_contain(removeds[m - 1], pre[jw].id@));
        }
    }
}

/// Failure of decoding one browse-response element.
#[derive(Clone, Copy, Debug, PartialEq, Eq, Structural)]
pub enum BrowseRecordError {
    /// The response element's own class or type is not the expected
    /// pointer class and type.
    WrongResponseClassType,
    /// The element decoded, but the record's class or type is not the
    /// expected pointer class and type.
    WrongRecordClassType,
    /// The record or the domain name in its payload failed to decode.
    Decode(DecodeError),
}

/// True when the record in `data` decodes as an internet-class pointer
/// record.
pub open spec fn spec_rr_is_ptr(data: Seq<u8>) -> bool {
    match spec_parse_rr(data) {
        Some((c, name, rtype, class, ttl, payload)) => rtype == TYPE_PTR as int && class
            == CLASS_IN as int,
        None => false,
    }
}

/// True when the payload of the record in `data` holds a decodable
/// name.
pub open spec fn spec_rr_domain_ok(data: Seq<u8>) -> bool {
    match spec_parse_rr(data) {
        Some((c, name, rtype, class, ttl, payload)) => spec_parse_name(payload) is Some,
        None => false,
    }
}

/// The host identity a browse-response element denotes: the record's
/// name and the target domain its payload points at, on the reported
/// interface.
pub open spec fn spec_browse_host(interface_index: int, data: Seq<u8>) -> Option<
    (int, Seq<u8>, Seq<u8>),
> {
    match spec_parse_rr(data) {
        None => None,
        Some((c, name, rtype, class, ttl, payload)) => if rtype == TYPE_PTR as int && class
            == CLASS_IN as int {
            match spec_parse_name(payload) {
                None => None,
                Some((c2, domain)) => Some((interface_index, name, domain)),
            }
        } else {
            None
        },
    }
}

/// Decodes one browse-response element into a candidate host identity.
/// An element whose own class or type, or whose decoded record's class
/// or type, is not the expected pointer class and type is rejected, as
/// is one that fails to decode; each failure names its cause.
pub fn decode_browse_record(
    interface_index: i32,
    class: u16,
    rtype: u16,
    data: &[u8],
) -> (r: Result<HostId, BrowseRecordError>)
    ensures
        match r {
            Ok(h) => class == CLASS_IN && rtype == TYPE_PTR && spec_browse_host(
                interface_index as int,
                data@,
            ) == Some(h@),
            Err(e) => match e {
                BrowseRecordError::WrongResponseClassType => !(class == CLASS_IN && rtype
                    == TYPE_PTR),
                BrowseRecordError::WrongRecordClassType => class == CLASS_IN && rtype == TYPE_PTR
                    && spec_rr_ok(data@) && !spec_rr_is_ptr(data@),
                BrowseRecordError::Decode(de) => class == CLASS_IN && rtype == TYPE_PTR && de
                    == DecodeError::Truncated && (!spec_rr_ok(data@) || (spec_rr_is_ptr(data@)
                    && !spec_rr_domain_ok(data@))),
            },
        },
{
    if class != CLASS_IN || rtype != TYPE_PTR {
        return Err(BrowseRecordError::WrongResponseClassType);
    }
    let (_, record) = match crate::rr::parse_rr(data) {
        Ok(v) => v,
        Err(de) => {
            return Err(BrowseRecordError::Decode(de));
        },
    };
    if record.class != CLASS_IN || record.rtype != TYPE_PTR {
        return Err(BrowseRecordError::WrongRecordClassType);
    }
    let (_, domain) = match crate::rr::parse_name(record.payload.as_slice()) {
        Ok(v) => v,
        Err(de) => {
            return Err(BrowseRecordError::Decode(de));
        },
    };
    Ok(HostId { interface_index, name: record.name, domain })
}

} // verus!
