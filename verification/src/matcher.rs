//! The similarity grouper: normalize every stored file's name, score all
//! pairs, join the ones above the threshold into components, and propose
//! one group per component, lowest confidence first.
//!
//! Each proposed group carries, as ghost data, the indices of its member
//! records, so the contract can say exactly which partition of the input
//! the groups form: threshold-crossing pairs always share a group, members
//! are listed once, and a multi-file group's confidence is the worst link
//! among its in-threshold pairs.

use vstd::prelude::*;
use crate::store::FileRecord;
use crate::score::{spec_confidence, compute_confidence};
use crate::normalize::{spec_normalize, normalize_filename};
use crate::union_find::UnionFind;
use crate::outside::new_group_id;
use crate::text::{chars_eq, chars_of};

verus! {

/// One proposed cluster of files.
pub struct ProposedGroup {
    pub id: String,
    pub canonical_name: String,
    pub confidence_millis: u32,
    pub file_hashes: Vec<String>,
    pub is_ungrouped: bool,
    pub members: Ghost<Seq<int>>,
}

/// The confidence of the file pair `(i, j)`, in thousandths.
pub open spec fn conf_pair(files: Seq<FileRecord>, i: int, j: int) -> int {
    spec_confidence(
        spec_normalize(files[i].path@),
        spec_normalize(files[j].path@),
        files[i].bpm_millis,
        files[j].bpm_millis,
        files[i].mtime as int,
        files[j].mtime as int,
    )
}

/// `c` is the minimum confidence among the in-threshold pairs of
/// `members`, or the threshold itself when no pair reaches it.
pub open spec fn is_min_edge(files: Seq<FileRecord>, tau: int, members: Seq<int>, c: int) -> bool {
    &&& (forall|k1: int, k2: int| 0 <= k1 < k2 < members.len()
            && conf_pair(files, members[k1], members[k2]) >= tau ==>
            conf_pair(files, #[trigger] members[k1], #[trigger] members[k2]) >= c)
    &&& ((exists|k1: int, k2: int| 0 <= k1 < k2 < members.len()
            && conf_pair(files, #[trigger] members[k1], #[trigger] members[k2]) == c
            && c >= tau)
        || ((forall|k1: int, k2: int| 0 <= k1 < k2 < members.len() ==>
            conf_pair(files, #[trigger] members[k1], #[trigger] members[k2]) < tau)
            && c == tau))
}

/// An edge of the similarity graph: two distinct files whose pair reaches
/// the threshold.
pub open spec fn sim_edge(files: Seq<FileRecord>, tau: int, a: int, b: int) -> bool {
    &&& 0 <= a < files.len()
    &&& 0 <= b < files.len()
    &&& a != b
    &&& (if a < b { conf_pair(files, a, b) } else { conf_pair(files, b, a) }) >= tau
}

/// `a` reaches `b` along at most `n` edges.
pub open spec fn linked_n(files: Seq<FileRecord>, tau: int, a: int, b: int, n: nat) -> bool
    decreases n,
{
    a == b || (n > 0 && (exists|c: int| #[trigger] sim_edge(files, tau, a, c)
        && linked_n(files, tau, c, b, (n - 1) as nat)))
}

/// `a` and `b` lie in one connected component of the similarity graph.
pub open spec fn linked(files: Seq<FileRecord>, tau: int, a: int, b: int) -> bool {
    exists|n: nat| linked_n(files, tau, a, b, n)
}

pub proof fn lemma_linked_refl(files: Seq<FileRecord>, tau: int, a: int)
    ensures
        linked(files, tau, a, a),
{
    assert(linked_n(files, tau, a, a, 0));
}

pub proof fn lemma_linked_step(files: Seq<FileRecord>, tau: int, a: int, c: int, b: int)
    requires
        sim_edge(files, tau, a, c),
        linked(files, tau, c, b),
    ensures
        linked(files, tau, a, b),
{
    let n = choose|n: nat| linked_n(files, tau, c, b, n);
    assert(linked_n(files, tau, a, b, n + 1)) by {
        assert(sim_edge(files, tau, a, c)
            && linked_n(files, tau, c, b, ((n + 1) - 1) as nat));
    }
}

proof fn lemma_linked_n_trans(files: Seq<FileRecord>, tau: int, a: int, b: int, c: int, n: nat)
    requires
        linked_n(files, tau, a, b, n),
        linked(files, tau, b, c),
    ensures
        linked(files, tau, a, c),
    decreases n,
{
    if a == b {
    } else {
        let d = choose|d: int| #[trigger] sim_edge(files, tau, a, d)
            && linked_n(files, tau, d, b, (n - 1) as nat);
        lemma_linked_n_trans(files, tau, d, b, c, (n - 1) as nat);
        lemma_linked_step(files, tau, a, d, c);
    }
}

pub proof fn lemma_linked_trans(files: Seq<FileRecord>, tau: int, a: int, b: int, c: int)
    requires
        linked(files, tau, a, b),
        linked(files, tau, b, c),
    ensures
        linked(files, tau, a, c),
{
    let n = choose|n: nat| linked_n(files, tau, a, b, n);
    lemma_linked_n_trans(files, tau, a, b, c, n);
}

proof fn lemma_linked_n_sym(files: Seq<FileRecord>, tau: int, a: int, b: int, n: nat)
    requires
        linked_n(files, tau, a, b, n),
    ensures
        linked(files, tau, b, a),
    decreases n,
{
    if a == b {
        lemma_linked_refl(files, tau, a);
    } else {
        let d = choose|d: int| #[trigger] sim_edge(files, tau, a, d)
            && linked_n(files, tau, d, b, (n - 1) as nat);
        lemma_linked_n_sym(files, tau, d, b, (n - 1) as nat);
        assert(sim_edge(files, tau, d, a));
        lemma_linked_refl(files, tau, a);
        lemma_linked_step(files, tau, d, a, a);
        lemma_linked_trans(files, tau, b, d, a);
    }
}

pub proof fn lemma_linked_sym(files: Seq<FileRecord>, tau: int, a: int, b: int)
    requires
        linked(files, tau, a, b),
    ensures
        linked(files, tau, b, a),
{
    let n = choose|n: nat| linked_n(files, tau, a, b, n);
    lemma_linked_n_sym(files, tau, a, b, n);
}

/// The canonical name is a member's normalized name with the highest
/// member count, ties broken towards the oldest carrier.
pub open spec fn canonical_for(files: Seq<FileRecord>, members: Seq<int>, name: Seq<char>) -> bool {
    &&& (exists|k: int| 0 <= k < members.len()
            && name == spec_normalize(files[#[trigger] members[k]].path@))
    &&& (forall|k: int| 0 <= k < members.len() ==> ({
            let nm = spec_normalize(files[#[trigger] members[k]].path@);
            name_count(files, members, nm) < name_count(files, members, name)
            || (name_count(files, members, nm) == name_count(files, members, name)
                && name_min_mtime(files, members, name) <= name_min_mtime(files, members, nm))
        }))
}

/// Structural facts about one group: members are distinct ascending valid
/// indices, all within one connected component of the similarity graph,
/// the hashes are the members' hashes in order, a group of one is
/// ungrouped with zero confidence, a larger group's confidence is the
/// worst in-threshold link, and the display name is the most common
/// member name.
pub open spec fn wf_group(files: Seq<FileRecord>, tau: int, g: ProposedGroup) -> bool {
    &&& g.members@.len() > 0
    &&& (forall|k: int| 0 <= k < g.members@.len() ==> 0 <= #[trigger] g.members@[k] < files.len())
    &&& (forall|k1: int, k2: int| 0 <= k1 < k2 < g.members@.len() ==>
            g.members@[k1] < g.members@[k2])
    &&& g.file_hashes@.len() == g.members@.len()
    &&& (forall|k: int| 0 <= k < g.members@.len() ==>
            (#[trigger] g.file_hashes@[k])@ == files[g.members@[k]].hash@)
    &&& (g.is_ungrouped <==> g.members@.len() == 1)
    &&& (g.is_ungrouped ==> g.confidence_millis == 0)
    &&& (!g.is_ungrouped ==> is_min_edge(files, tau, g.members@, g.confidence_millis as int))
    &&& canonical_for(files, g.members@, g.canonical_name@)
    &&& (forall|k1: int, k2: int|
            0 <= k1 < g.members@.len() && 0 <= k2 < g.members@.len() ==>
            linked(files, tau, #[trigger] g.members@[k1], #[trigger] g.members@[k2]))
}

/// Index `i` is a member of some group.
pub open spec fn covered(r: Seq<ProposedGroup>, i: int) -> bool {
    exists|g: int| 0 <= g < r.len() && #[trigger] r[g].members@.contains(i)
}

/// Indices `i` and `j` sit in one group together.
pub open spec fn in_one_group(r: Seq<ProposedGroup>, i: int, j: int) -> bool {
    exists|g: int| 0 <= g < r.len() && #[trigger] r[g].members@.contains(i)
        && r[g].members@.contains(j)
}

/// The count of members whose normalized name is `name`.
pub open spec fn name_count(files: Seq<FileRecord>, members: Seq<int>, name: Seq<char>) -> int
    decreases members.len(),
{
    if members.len() == 0 {
        0
    } else {
        (if spec_normalize(files[members[0]].path@) == name { 1int } else { 0int })
            + name_count(files, members.skip(1), name)
    }
}

/// The smallest mtime among members whose normalized name is `name`.
pub open spec fn name_min_mtime(files: Seq<FileRecord>, members: Seq<int>, name: Seq<char>) -> int
    decreases members.len(),
{
    if members.len() == 0 {
        0x7fff_ffff_ffff_ffffint
    } else {
        let rest = name_min_mtime(files, members.skip(1), name);
        if spec_normalize(files[members[0]].path@) == name {
            if files[members[0]].mtime as int <= rest {
                files[members[0]].mtime as int
            } else {
                rest
            }
        } else {
            rest
        }
    }
}

proof fn lemma_min_mtime_bound(files: Seq<FileRecord>, members: Seq<int>, name: Seq<char>)
    ensures
        name_min_mtime(files, members, name) <= 0x7fff_ffff_ffff_ffff,
    decreases members.len(),
{
    if members.len() > 0 {
        lemma_min_mtime_bound(files, members.skip(1), name);
    }
}

/// Picks the group's display name: the most common normalized member name,
/// breaking ties towards the oldest (smallest) mtime carrying that name.
pub fn pick_canonical_name(
    files: &[FileRecord],
    norms: &Vec<String>,
    members: &Vec<usize>,
) -> (r: String)
    requires
        norms@.len() == files@.len(),
        forall|k: int| 0 <= k < norms@.len() ==>
            (#[trigger] norms@[k])@ == spec_normalize(files@[k].path@),
        members@.len() > 0,
        forall|k: int| 0 <= k < members@.len() ==> #[trigger] members@[k] < files@.len(),
    ensures
        ({
            let ms = members@.map(|k: int, v: usize| v as int);
            (exists|k: int| 0 <= k < ms.len()
                && r@ == spec_normalize(files@[#[trigger] ms[k]].path@))
            && (forall|k: int| 0 <= k < ms.len() ==> ({
                let nm = spec_normalize(files@[#[trigger] ms[k]].path@);
                name_count(files@, ms, nm) < name_count(files@, ms, r@)
                || (name_count(files@, ms, nm) == name_count(files@, ms, r@)
                    && name_min_mtime(files@, ms, r@) <= name_min_mtime(files@, ms, nm))
            }))
        }),
{
    let ghost ms = members@.map(|k: int, v: usize| v as int);
    let n = members.len();
    let mut best: usize = members[0];
    let mut best_count: u64 = 0;
    let mut best_mtime: i64 = 0;
    let (c0, m0) = count_and_min(files, norms, members, members[0]);
    best_count = c0;
    best_mtime = m0;
    let mut k: usize = 1;
    while k < n
        invariant
            1 <= k <= n,
            n == members@.len(),
            norms@.len() == files@.len(),
            forall|h: int| 0 <= h < norms@.len() ==>
                (#[trigger] norms@[h])@ == spec_normalize(files@[h].path@),
            forall|h: int| 0 <= h < members@.len() ==> #[trigger] members@[h] < files@.len(),
            ms == members@.map(|h: int, v: usize| v as int),
            best < files@.len(),
            (exists|h: int| 0 <= h < ms.len() && best as int == ms[h]),
            best_count as int == name_count(files@, ms, spec_normalize(files@[best as int].path@)),
            best_mtime as int == name_min_mtime(files@, ms, spec_normalize(files@[best as int].path@)),
            forall|h: int| 0 <= h < k ==> ({
                let nm = spec_normalize(files@[#[trigger] ms[h]].path@);
                name_count(files@, ms, nm) < best_count as int
                || (name_count(files@, ms, nm) == best_count as int
                    && best_mtime as int <= name_min_mtime(files@, ms, nm))
            }),
        decreases n - k,
    {
        let cand = members[k];
        let (cc, cm) = count_and_min(files, norms, members, cand);
        if cc > best_count || (cc == best_count && cm < best_mtime) {
            best = cand;
            best_count = cc;
            best_mtime = cm;
            assert(best as int == ms[k as int]);
        }
        k = k + 1;
    }
    let r = norms[best].clone();
    assert(r@ == spec_normalize(files@[best as int].path@));
    r
}

/// Counts how many members share `members[at]`'s normalized name and finds
/// the smallest mtime among them.
fn count_and_min(
    files: &[FileRecord],
    norms: &Vec<String>,
    members: &Vec<usize>,
    target: usize,
) -> (r: (u64, i64))
    requires
        norms@.len() == files@.len(),
        forall|k: int| 0 <= k < norms@.len() ==>
            (#[trigger] norms@[k])@ == spec_normalize(files@[k].path@),
        forall|k: int| 0 <= k < members@.len() ==> #[trigger] members@[k] < files@.len(),
        target < files@.len(),
    ensures
        ({
            let ms = members@.map(|k: int, v: usize| v as int);
            r.0 as int == name_count(files@, ms, spec_normalize(files@[target as int].path@))
            && r.1 as int == name_min_mtime(files@, ms, spec_normalize(files@[target as int].path@))
        }),
{
    let ghost ms = members@.map(|k: int, v: usize| v as int);
    let ghost nm = spec_normalize(files@[target as int].path@);
    let tnorm = chars_of(norms[target].as_str());
    let n = members.len();
    let mut cnt: u64 = 0;
    let mut mn: i64 = i64::MAX;
    let mut k: usize = 0;
    proof {
        assert(ms.skip(0) =~= ms);
        lemma_min_mtime_bound(files@, ms, nm);
    }
    while k < n
        invariant
            k <= n,
            n == members@.len(),
            norms@.len() == files@.len(),
            forall|h: int| 0 <= h < norms@.len() ==>
                (#[trigger] norms@[h])@ == spec_normalize(files@[h].path@),
            forall|h: int| 0 <= h < members@.len() ==> #[trigger] members@[h] < files@.len(),
            ms == members@.map(|h: int, v: usize| v as int),
            tnorm@ == nm,
            cnt as int + name_count(files@, ms.skip(k as int), nm)
                == name_count(files@, ms, nm),
            cnt <= k,
            ({
                let rest = name_min_mtime(files@, ms.skip(k as int), nm);
                name_min_mtime(files@, ms, nm)
                    == if mn as int <= rest { mn as int } else { rest }
            }),
        decreases n - k,
    {
        let idx = members[k];
        let inorm = chars_of(norms[idx].as_str());
        let same = chars_eq(&tnorm, &inorm);
        proof {
            assert(ms.skip(k as int)[0] == ms[k as int]);
            assert(ms.skip(k as int).skip(1) =~= ms.skip(k + 1));
            assert(ms[k as int] == members@[k as int] as int);
        }
        if same {
            cnt = cnt + 1;
            if files[idx].mtime < mn {
                mn = files[idx].mtime;
            }
        }
        k = k + 1;
    }
    proof {
        assert(ms.skip(n as int) =~= Seq::<int>::empty());
    }
    (cnt, mn)
}


/// The member indices of one component, as mathematical integers.
pub open spec fn msof(v: Vec<usize>) -> Seq<int> {
    v@.map(|k: int, x: usize| x as int)
}

/// Proposes one group per connected component of the similarity graph on
/// `files`, edges being the pairs whose confidence reaches the threshold
/// (in thousandths).  Groups come back ordered by ascending confidence;
/// every file lands in exactly one group, and any two files whose pair
/// crosses the threshold land in the same one.
#[verifier::loop_isolation(false)]
#[verifier::rlimit(100)]
pub fn propose_groups(files: &[FileRecord], threshold_millis: u32) -> (r: Vec<ProposedGroup>)
    ensures
        files@.len() == 0 ==> r@.len() == 0,
        files@.len() > 0 ==> r@.len() > 0,
        // ascending confidence
        forall|g1: int, g2: int| 0 <= g1 < g2 < r@.len() ==>
            r@[g1].confidence_millis <= r@[g2].confidence_millis,
        // each group is internally exact
        forall|g: int| 0 <= g < r@.len() ==>
            wf_group(files@, threshold_millis as int, #[trigger] r@[g]),
        // every file is in a group, and in only one
        forall|i: int| 0 <= i < files@.len() ==> #[trigger] covered(r@, i),
        forall|g1: int, g2: int, k1: int, k2: int|
            0 <= g1 < g2 < r@.len()
            && 0 <= k1 < r@[g1].members@.len() && 0 <= k2 < r@[g2].members@.len() ==>
            r@[g1].members@[k1] != r@[g2].members@[k2],
        // pairs over the threshold share a group
        forall|i: int, j: int|
            0 <= i < j < files@.len()
            && conf_pair(files@, i, j) >= threshold_millis as int ==>
            #[trigger] in_one_group(r@, i, j),
{
    let n = files.len();
    if n == 0 {
        let r: Vec<ProposedGroup> = Vec::new();
        return r;
    }

    // normalized name per file
    let mut norms: Vec<String> = Vec::new();
    let mut i: usize = 0;
    while i < n
        invariant
            i <= n,
            norms@.len() == i,
            forall|k: int| 0 <= k < i ==>
                (#[trigger] norms@[k])@ == spec_normalize(files@[k].path@),
        decreases n - i,
    {
        norms.push(normalize_filename(files[i].path.as_str()));
        i = i + 1;
    }

    // join every pair whose confidence reaches the threshold
    let mut uf = UnionFind::new(n);
    let ghost tau = threshold_millis as int;
    proof {
        assert forall|a: int, b: int| #![trigger uf.label_of(a), uf.label_of(b)]
            0 <= a < n && 0 <= b < n && uf.same(a, b) implies
            linked(files@, tau, a, b) by {
            assert(uf.label_of(a) == a && uf.label_of(b) == b);
            lemma_linked_refl(files@, tau, a);
        }
    }
    let mut i: usize = 0;
    while i < n
        invariant
            i <= n,
            uf.wf(),
            uf.len() == n,
            forall|a: int, b: int| 0 <= a < b < n && a < i
                && conf_pair(files@, a, b) >= threshold_millis as int ==>
                uf.same(a, b),
            forall|a: int, b: int| #![trigger uf.label_of(a), uf.label_of(b)]
                0 <= a < n && 0 <= b < n && uf.same(a, b) ==>
                linked(files@, tau, a, b),
        decreases n - i,
    {
        let mut j: usize = i + 1;
        while j < n
            invariant
                i < j <= n,
                uf.wf(),
                uf.len() == n,
                forall|a: int, b: int| 0 <= a < b < n && a < i
                    && conf_pair(files@, a, b) >= threshold_millis as int ==>
                    uf.same(a, b),
                forall|b: int| (i as int) < b < j
                    && conf_pair(files@, i as int, b) >= threshold_millis as int ==>
                    uf.same(i as int, b),
                forall|a: int, b: int| #![trigger uf.label_of(a), uf.label_of(b)]
                    0 <= a < n && 0 <= b < n && uf.same(a, b) ==>
                    linked(files@, tau, a, b),
            decreases n - j,
        {
            let c = compute_confidence(
                norms[i].as_str(),
                norms[j].as_str(),
                files[i].bpm_millis,
                files[j].bpm_millis,
                files[i].mtime,
                files[j].mtime,
            );
            assert(c as int == conf_pair(files@, i as int, j as int));
            if c >= threshold_millis {
                let ghost uf_pre = uf;
                uf.union(i, j);
                proof {
                    assert(sim_edge(files@, tau, i as int, j as int));
                    assert forall|a: int, b: int|
                        #![trigger uf.label_of(a), uf.label_of(b)]
                        0 <= a < n && 0 <= b < n && uf.same(a, b) implies
                        linked(files@, tau, a, b) by {
                        if uf_pre.same(a, b) {
                        } else if uf_pre.same(a, i as int) && uf_pre.same(b, j as int) {
                            assert(linked(files@, tau, a, i as int));
                            assert(linked(files@, tau, b, j as int));
                            lemma_linked_sym(files@, tau, b, j as int);
                            lemma_linked_step(files@, tau, i as int, j as int, b);
                            lemma_linked_trans(files@, tau, a, i as int, b);
                        } else {
                            assert(uf_pre.same(a, j as int) && uf_pre.same(b, i as int));
                            assert(linked(files@, tau, a, j as int));
                            assert(linked(files@, tau, b, i as int));
                            lemma_linked_sym(files@, tau, b, i as int);
                            assert(sim_edge(files@, tau, j as int, i as int));
                            lemma_linked_step(files@, tau, j as int, i as int, b);
                            lemma_linked_trans(files@, tau, a, j as int, b);
                        }
                    }
                }
            }
            j = j + 1;
        }
        i = i + 1;
    }
    let ghost uf0 = uf;
    assert(forall|a: int, b: int| 0 <= a < b < n
        && conf_pair(files@, a, b) >= threshold_millis as int ==> uf0.same(a, b));

    let comps = uf.groups();
    let m = comps.len();

    // one proposed group per component
    let mut r0: Vec<ProposedGroup> = Vec::new();
    let mut g: usize = 0;
    while g < m
        invariant
            g <= m,
            r0@.len() == g,
            forall|h: int| 0 <= h < g ==>
                wf_group(files@, threshold_millis as int, #[trigger] r0@[h]),
            forall|h: int| 0 <= h < g ==> (#[trigger] r0@[h]).members@ == msof(comps@[h]),
        decreases m - g,
    {
        let mv = &comps[g];
        let mlen = mv.len();
        let ghost mseq = msof(comps@[g as int]);
        assert(mseq.len() == mlen);
        assert(forall|k: int| 0 <= k < mlen ==> #[trigger] mseq[k] == comps@[g as int]@[k] as int);

        // hashes in membership order
        let mut hashes: Vec<String> = Vec::new();
        let mut k: usize = 0;
        while k < mlen
            invariant
                k <= mlen,
                hashes@.len() == k,
                forall|h: int| 0 <= h < k ==>
                    (#[trigger] hashes@[h])@ == files@[mseq[h]].hash@,
            decreases mlen - k,
        {
            let idx = mv[k];
            hashes.push(files[idx].hash.clone());
            k = k + 1;
        }

        // worst in-threshold link
        let mut found = false;
        let mut best: u32 = 0;
        let mut k1: usize = 0;
        while k1 < mlen
            invariant
                k1 <= mlen,
                found ==> best >= threshold_millis,
                found ==> (exists|p: int, q: int| 0 <= p < q < mlen
                    && conf_pair(files@, #[trigger] mseq[p], #[trigger] mseq[q]) == best as int),
                forall|p: int, q: int| 0 <= p < q < mlen && p < k1
                    && conf_pair(files@, #[trigger] mseq[p], #[trigger] mseq[q])
                        >= threshold_millis as int ==>
                    found && conf_pair(files@, mseq[p], mseq[q]) >= best as int,
            decreases mlen - k1,
        {
            let mut k2: usize = k1 + 1;
            while k2 < mlen
                invariant
                    k1 < k2 <= mlen,
                    found ==> best >= threshold_millis,
                    found ==> (exists|p: int, q: int| 0 <= p < q < mlen
                        && conf_pair(files@, #[trigger] mseq[p], #[trigger] mseq[q]) == best as int),
                    forall|p: int, q: int| 0 <= p < q < mlen && p < k1
                        && conf_pair(files@, #[trigger] mseq[p], #[trigger] mseq[q])
                            >= threshold_millis as int ==>
                        found && conf_pair(files@, mseq[p], mseq[q]) >= best as int,
                    forall|q: int| (k1 as int) < q < k2
                        && conf_pair(files@, mseq[k1 as int], #[trigger] mseq[q])
                            >= threshold_millis as int ==>
                        found && conf_pair(files@, mseq[k1 as int], mseq[q]) >= best as int,
                decreases mlen - k2,
            {
                let a = mv[k1];
                let b = mv[k2];
                let c = compute_confidence(
                    norms[a].as_str(),
                    norms[b].as_str(),
                    files[a].bpm_millis,
                    files[b].bpm_millis,
                    files[a].mtime,
                    files[b].mtime,
                );
                assert(c as int == conf_pair(files@, mseq[k1 as int], mseq[k2 as int]));
                if c >= threshold_millis {
                    if !found || c < best {
                        best = c;
                        found = true;
                        assert(conf_pair(files@, mseq[k1 as int], mseq[k2 as int]) == best as int);
                    }
                }
                k2 = k2 + 1;
            }
            k1 = k1 + 1;
        }
        let confidence_millis: u32 = if mlen == 1 {
            0
        } else if found {
            best
        } else {
            threshold_millis
        };

        let canonical_name = pick_canonical_name(files, &norms, mv);
        proof {
            assert(mv@.map(|k: int, v: usize| v as int) =~= mseq);
            assert(canonical_for(files@, mseq, canonical_name@));
        }
        let id = new_group_id();
        let pg = ProposedGroup {
            id: id,
            canonical_name: canonical_name,
            confidence_millis: confidence_millis,
            file_hashes: hashes,
            is_ungrouped: mlen == 1,
            members: Ghost(mseq),
        };
        proof {
            if mlen > 1 {
                assert(is_min_edge(files@, threshold_millis as int, mseq,
                    confidence_millis as int));
            }
            assert forall|k1: int, k2: int|
                0 <= k1 < mseq.len() && 0 <= k2 < mseq.len() implies
                linked(files@, tau, #[trigger] mseq[k1], #[trigger] mseq[k2]) by {
                assert(uf0.same(comps@[g as int]@[k1] as int, comps@[g as int]@[k2] as int));
            }
            assert(wf_group(files@, threshold_millis as int, pg));
        }
        r0.push(pg);
        g = g + 1;
    }

    // the components cover every index, once, and join all edges
    proof {
        assert forall|i0: int| 0 <= i0 < files@.len() implies #[trigger] covered(r0@, i0) by {
            assert(UnionFind::listed(comps@, i0));
            let (gg, kk) = choose|gg: int, kk: int|
                0 <= gg < comps@.len() && 0 <= kk < comps@[gg]@.len() && comps@[gg]@[kk] == i0;
            assert(r0@[gg].members@[kk] == i0);
            assert(r0@[gg].members@.contains(i0));
        }
        assert forall|i0: int, j0: int|
            0 <= i0 < j0 < files@.len()
            && conf_pair(files@, i0, j0) >= threshold_millis as int implies
            #[trigger] in_one_group(r0@, i0, j0) by {
            assert(uf0.same(i0, j0));
            assert(UnionFind::listed(comps@, i0));
            assert(UnionFind::listed(comps@, j0));
            let (g1, k1) = choose|g1: int, k1: int|
                0 <= g1 < comps@.len() && 0 <= k1 < comps@[g1]@.len() && comps@[g1]@[k1] == i0;
            let (g2, k2) = choose|g2: int, k2: int|
                0 <= g2 < comps@.len() && 0 <= k2 < comps@[g2]@.len() && comps@[g2]@[k2] == j0;
            if g1 != g2 {
                assert(!uf0.same(comps@[g1]@[k1] as int, comps@[g2]@[k2] as int));
            }
            assert(g1 == g2);
            assert(r0@[g1].members@[k1] == i0);
            assert(r0@[g1].members@[k2] == j0);
            assert(r0@[g1].members@.contains(i0));
            assert(r0@[g1].members@.contains(j0));
        }
        assert forall|g1: int, g2: int, k1: int, k2: int|
            0 <= g1 < g2 < r0@.len()
            && 0 <= k1 < r0@[g1].members@.len() && 0 <= k2 < r0@[g2].members@.len() implies
            r0@[g1].members@[k1] != r0@[g2].members@[k2] by {
            assert(!uf0.same(comps@[g1]@[k1] as int, comps@[g2]@[k2] as int));
        }
    }

    // order by ascending confidence
    assert(covered(r0@, 0));
    assert(r0@.len() > 0);
    sort_groups_by_confidence(files, threshold_millis, r0)
}

/// Orders proposed groups by ascending confidence, preserving the grouping
/// facts: each group stays internally exact, every file stays covered
/// exactly once, and threshold pairs stay joined.
#[verifier::loop_isolation(false)]
#[verifier::rlimit(100)]
fn sort_groups_by_confidence(
    files: &[FileRecord],
    threshold_millis: u32,
    groups: Vec<ProposedGroup>,
) -> (out: Vec<ProposedGroup>)
    requires
        groups@.len() > 0,
        forall|h: int| 0 <= h < groups@.len() ==>
            wf_group(files@, threshold_millis as int, #[trigger] groups@[h]),
        forall|i0: int| 0 <= i0 < files@.len() ==> #[trigger] covered(groups@, i0),
        forall|i0: int, j0: int|
            0 <= i0 < j0 < files@.len()
            && conf_pair(files@, i0, j0) >= threshold_millis as int ==>
            #[trigger] in_one_group(groups@, i0, j0),
        forall|g1: int, g2: int, k1: int, k2: int|
            0 <= g1 < g2 < groups@.len()
            && 0 <= k1 < groups@[g1].members@.len()
            && 0 <= k2 < groups@[g2].members@.len() ==>
            groups@[g1].members@[k1] != groups@[g2].members@[k2],
    ensures
        out@.len() > 0,
        forall|g1: int, g2: int| 0 <= g1 < g2 < out@.len() ==>
            out@[g1].confidence_millis <= out@[g2].confidence_millis,
        forall|g: int| 0 <= g < out@.len() ==>
            wf_group(files@, threshold_millis as int, #[trigger] out@[g]),
        forall|i0: int| 0 <= i0 < files@.len() ==> #[trigger] covered(out@, i0),
        forall|i0: int, j0: int|
            0 <= i0 < j0 < files@.len()
            && conf_pair(files@, i0, j0) >= threshold_millis as int ==>
            #[trigger] in_one_group(out@, i0, j0),
        forall|g1: int, g2: int, k1: int, k2: int|
            0 <= g1 < g2 < out@.len()
            && 0 <= k1 < out@[g1].members@.len()
            && 0 <= k2 < out@[g2].members@.len() ==>
            out@[g1].members@[k1] != out@[g2].members@[k2],
{
    let mut rest = groups;
    let mut out: Vec<ProposedGroup> = Vec::new();
    proof {
        assert(out@ + rest@ =~= rest@);
    }
    while rest.len() > 0
        invariant
            forall|g1: int, g2: int| 0 <= g1 < g2 < out@.len() ==>
                out@[g1].confidence_millis <= out@[g2].confidence_millis,
            forall|h: int| 0 <= h < out@.len() + rest@.len() ==>
                wf_group(files@, threshold_millis as int, #[trigger] (out@ + rest@)[h]),
            forall|i0: int| 0 <= i0 < files@.len() ==> #[trigger] covered(out@ + rest@, i0),
            forall|i0: int, j0: int|
                0 <= i0 < j0 < files@.len()
                && conf_pair(files@, i0, j0) >= threshold_millis as int ==>
                #[trigger] in_one_group(out@ + rest@, i0, j0),
            forall|g1: int, g2: int, k1: int, k2: int|
                0 <= g1 < g2 < (out@ + rest@).len()
                && 0 <= k1 < (out@ + rest@)[g1].members@.len()
                && 0 <= k2 < (out@ + rest@)[g2].members@.len() ==>
                (out@ + rest@)[g1].members@[k1] != (out@ + rest@)[g2].members@[k2],
            out@.len() + rest@.len() > 0,
        decreases rest@.len(),
    {
        let ghost before = out@ + rest@;
        let x = match rest.pop() {
            Some(x) => x,
            None => {
                proof {
                    assert(false);
                }
                return out;
            },
        };
        {
            {
                // find the insertion point by confidence
                let olen = out.len();
                let mut p: usize = 0;
                while p < olen && out[p].confidence_millis <= x.confidence_millis
                    invariant
                        p <= olen,
                        olen == out@.len(),
                        forall|h: int| 0 <= h < p ==>
                            (#[trigger] out@[h]).confidence_millis <= x.confidence_millis,
                    decreases olen - p,
                {
                    p = p + 1;
                }
                let ghost oldout = out@;
                let ghost xg = x;
                proof {
                    if p < olen {
                        assert(oldout[p as int].confidence_millis > xg.confidence_millis);
                    }
                }
                out.insert(p, x);
                proof {
                    assert(out@ =~= oldout.insert(p as int, xg));
                    let after = out@ + rest@;
                    let total = after.len() as int;
                    assert(before.len() == total);
                    assert(before[total - 1] == xg);
                    assert forall|h: int| 0 <= h < total implies
                        after[h] == before[reloc(h, p as int, total)] by {
                        if h < p {
                            assert(after[h] == oldout[h]);
                            assert(before[h] == oldout[h]);
                        } else if h == p {
                            assert(after[h] == xg);
                        } else if h <= oldout.len() {
                            assert(after[h] == oldout[h - 1]);
                            assert(before[h - 1] == oldout[h - 1]);
                        } else {
                            assert(after[h] == rest@[h - 1 - oldout.len()]);
                            assert(before[h - 1] == rest@[h - 1 - oldout.len()]);
                        }
                    }
                    assert forall|h: int| 0 <= h < total implies
                        wf_group(files@, threshold_millis as int, #[trigger] after[h]) by {
                        assert(after[h] == before[reloc(h, p as int, total)]);
                    }
                    assert forall|i0: int| 0 <= i0 < files@.len() implies
                        #[trigger] covered(after, i0) by {
                        assert(covered(before, i0));
                        let gg = choose|gg: int| 0 <= gg < before.len()
                            && #[trigger] before[gg].members@.contains(i0);
                        let hh = unreloc(gg, p as int, total);
                        assert(after[hh] == before[reloc(hh, p as int, total)]);
                        assert(reloc(hh, p as int, total) == gg);
                        assert(after[hh].members@.contains(i0));
                    }
                    assert forall|i0: int, j0: int|
                        0 <= i0 < j0 < files@.len()
                        && conf_pair(files@, i0, j0) >= threshold_millis as int implies
                        #[trigger] in_one_group(after, i0, j0) by {
                        assert(in_one_group(before, i0, j0));
                        let gg = choose|gg: int| 0 <= gg < before.len()
                            && #[trigger] before[gg].members@.contains(i0)
                            && before[gg].members@.contains(j0);
                        let hh = unreloc(gg, p as int, total);
                        assert(after[hh] == before[reloc(hh, p as int, total)]);
                        assert(reloc(hh, p as int, total) == gg);
                        assert(after[hh].members@.contains(i0) && after[hh].members@.contains(j0));
                    }
                    assert forall|g1: int, g2: int, k1: int, k2: int|
                        0 <= g1 < g2 < after.len()
                        && 0 <= k1 < after[g1].members@.len()
                        && 0 <= k2 < after[g2].members@.len() implies
                        after[g1].members@[k1] != after[g2].members@[k2] by {
                        let b1 = reloc(g1, p as int, total);
                        let b2 = reloc(g2, p as int, total);
                        assert(after[g1] == before[b1]);
                        assert(after[g2] == before[b2]);
                        assert(b1 != b2);
                        if b1 < b2 {
                            assert(before[b1].members@[k1] != before[b2].members@[k2]);
                        } else {
                            assert(before[b2].members@[k2] != before[b1].members@[k1]);
                        }
                    }
                    assert forall|g1: int, g2: int| 0 <= g1 < g2 < out@.len() implies
                        out@[g1].confidence_millis <= out@[g2].confidence_millis by {
                        if g2 < p as int {
                            assert(out@[g1] == oldout[g1]);
                            assert(out@[g2] == oldout[g2]);
                        } else if g2 == p as int {
                            assert(out@[g1] == oldout[g1]);
                            assert(oldout[g1].confidence_millis <= xg.confidence_millis);
                        } else if g1 == p as int {
                            assert(out@[g2] == oldout[g2 - 1]);
                            assert(g2 - 1 >= p);
                            if p < olen {
                                assert(oldout[p as int].confidence_millis
                                    > xg.confidence_millis);
                                if g2 - 1 > p {
                                    assert(oldout[p as int].confidence_millis
                                        <= oldout[g2 - 1].confidence_millis);
                                }
                            }
                        } else if g1 < p as int {
                            assert(out@[g1] == oldout[g1]);
                            assert(out@[g2] == oldout[g2 - 1]);
                        } else {
                            assert(out@[g1] == oldout[g1 - 1]);
                            assert(out@[g2] == oldout[g2 - 1]);
                        }
                    }
                }
            }
        }
    }
    assert(out@ + rest@ =~= out@);
    out
}

/// Where position `h` of the arrangement after an insert at `p` sat
/// before: the inserted element came from the very end, everything from
/// the pivot on shifted up by one.
pub open spec fn reloc(h: int, p: int, total: int) -> int {
    if h < p {
        h
    } else if h == p {
        total - 1
    } else {
        h - 1
    }
}

/// The inverse direction of `reloc`.
pub open spec fn unreloc(g: int, p: int, total: int) -> int {
    if g < p {
        g
    } else if g == total - 1 {
        p
    } else {
        g + 1
    }
}


/// The whole grouping guarantee at the store level: some record sequence
/// lists exactly the stored files in path order, and the groups satisfy
/// the full grouping contract over it.
pub open spec fn grouper_post(
    model: crate::store::StoreModel,
    recs: Seq<FileRecord>,
    tau: int,
    r: Seq<ProposedGroup>,
) -> bool {
    &&& recs.len() == model.files@.len()
    &&& (forall|i: int, j: int| 0 <= i < j < recs.len() ==>
            crate::text::lex_le(recs[i].path@, recs[j].path@))
    &&& (forall|i: int| 0 <= i < recs.len() ==>
            #[trigger] crate::store::from_some_row(model.files@, recs[i]))
    &&& (forall|j: int| 0 <= j < model.files@.len() ==>
            #[trigger] crate::store::listed_somewhere(recs, model.files@[j]))
    &&& (recs.len() == 0 ==> r.len() == 0)
    &&& (recs.len() > 0 ==> r.len() > 0)
    &&& (forall|g1: int, g2: int| 0 <= g1 < g2 < r.len() ==>
            r[g1].confidence_millis <= r[g2].confidence_millis)
    &&& (forall|g: int| 0 <= g < r.len() ==> wf_group(recs, tau, #[trigger] r[g]))
    &&& (forall|i: int| 0 <= i < recs.len() ==> #[trigger] covered(r, i))
    &&& (forall|g1: int, g2: int, k1: int, k2: int|
            0 <= g1 < g2 < r.len()
            && 0 <= k1 < r[g1].members@.len() && 0 <= k2 < r[g2].members@.len() ==>
            r[g1].members@[k1] != r[g2].members@[k2])
    &&& (forall|i: int, j: int|
            0 <= i < j < recs.len() && conf_pair(recs, i, j) >= tau ==>
            #[trigger] in_one_group(r, i, j))
}

/// Reads all records and proposes groups at the given threshold.
pub fn run_grouper(model: &crate::store::StoreModel, threshold_millis: u32)
    -> (r: Vec<ProposedGroup>)
    ensures
        forall|g1: int, g2: int| 0 <= g1 < g2 < r@.len() ==>
            r@[g1].confidence_millis <= r@[g2].confidence_millis,
        exists|recs: Seq<FileRecord>|
            #[trigger] grouper_post(*model, recs, threshold_millis as int, r@),
{
    let files = model.list_all_files();
    let r = propose_groups(files.as_slice(), threshold_millis);
    proof {
        assert(grouper_post(*model, files@, threshold_millis as int, r@));
    }
    r
}

} // verus!
