//! The cluster registry: greedy online assignment of documents to clusters,
//! and one-way fake marking of whole clusters.

use vstd::prelude::*;

use crate::document::{lemma_similarity_range, similarity, Document, SIMILARITY_SCALE};

verus! {

/// A document joins a cluster only when its mean similarity to the members
/// exceeds 0.7 (in units of `1 / SIMILARITY_SCALE`).
pub const THRESHOLD: u64 = 86586540687360;

/// A growing set of documents and its fake flag.
pub struct Cluster {
    pub documents: Vec<Document>,
    pub fake: bool,
}

/// What a cluster is: its members in order of arrival, and whether it is fake.
pub struct ClusterView {
    pub members: Seq<Document>,
    pub fake: bool,
}

impl View for Cluster {
    type V = ClusterView;

    open spec fn view(&self) -> ClusterView {
        ClusterView { members: self.documents@, fake: self.fake }
    }
}

/// Sum of the similarities of `d` to each of `members`.
pub open spec fn sum_similarity(members: Seq<Document>, d: Document) -> int
    decreases members.len(),
{
    if members.len() == 0 {
        0
    } else {
        sum_similarity(members.drop_last(), d) + similarity(d, members.last())
    }
}

/// Mean similarity of `d` to the members, rounded down; 0 for no member.
pub open spec fn mean_similarity(members: Seq<Document>, d: Document) -> int {
    if members.len() == 0 {
        0
    } else {
        sum_similarity(members, d) / (members.len() as int)
    }
}

/// Every member has a valid, non-empty vector.
pub open spec fn members_wf(members: Seq<Document>) -> bool {
    forall|i: int| 0 <= i < members.len() ==> #[trigger] members[i].wf()
}

pub proof fn lemma_sum_similarity_range(members: Seq<Document>, d: Document)
    requires
        members_wf(members),
        d.wf(),
    ensures
        0 <= sum_similarity(members, d) <= members.len() * SIMILARITY_SCALE,
    decreases members.len(),
{
    if members.len() > 0 {
        let rest = members.drop_last();
        assert(members_wf(rest)) by {
            assert forall|i: int| 0 <= i < rest.len() implies #[trigger] rest[i].wf() by {
                assert(rest[i] == members[i]);
            }
        }
        lemma_sum_similarity_range(rest, d);
        assert(members[members.len() - 1].wf());
        lemma_similarity_range(d, members.last());
    }
}

/// The mean similarity of a valid document to valid members lies in `[0, 1]`.
pub proof fn lemma_mean_similarity_range(members: Seq<Document>, d: Document)
    requires
        members_wf(members),
        d.wf(),
    ensures
        0 <= mean_similarity(members, d) <= SIMILARITY_SCALE,
{
    if members.len() > 0 {
        lemma_sum_similarity_range(members, d);
        let s = sum_similarity(members, d);
        let n = members.len() as int;
        assert(0 <= s / n <= SIMILARITY_SCALE) by (nonlinear_arith)
            requires
                0 <= s <= n * SIMILARITY_SCALE,
                n > 0,
        ;
    }
}

/// The best cluster among the first `n`: the one of highest mean similarity
/// above the threshold, the lowest index among equals.
pub open spec fn best_among(clusters: Seq<ClusterView>, d: Document, n: int) -> Option<int>
    decreases n,
{
    if n <= 0 {
        None
    } else {
        let prev = best_among(clusters, d, n - 1);
        let m = mean_similarity(clusters[n - 1].members, d);
        if m > THRESHOLD && (prev is None || m > mean_similarity(
            clusters[prev->0].members,
            d,
        )) {
            Some(n - 1)
        } else {
            prev
        }
    }
}

/// The cluster that `d` joins, if any.
pub open spec fn best_cluster(clusters: Seq<ClusterView>, d: Document) -> Option<int> {
    best_among(clusters, d, clusters.len() as int)
}

pub open spec fn cluster_views(clusters: Seq<Cluster>) -> Seq<ClusterView> {
    clusters.map_values(|c: Cluster| c@)
}

pub open spec fn as_int(o: Option<usize>) -> Option<int> {
    match o {
        Some(i) => Some(i as int),
        None => None,
    }
}

/// The chosen cluster is one that passed the threshold, no other passing
/// cluster has a higher mean, and none before it has the same mean.
pub proof fn lemma_best_among(clusters: Seq<ClusterView>, d: Document, n: int)
    requires
        0 <= n <= clusters.len(),
    ensures
        match best_among(clusters, d, n) {
            Some(b) => {
                &&& 0 <= b < n
                &&& mean_similarity(clusters[b].members, d) > THRESHOLD
                &&& forall|k: int|
                    0 <= k < n ==> #[trigger] mean_similarity(clusters[k].members, d)
                        <= mean_similarity(clusters[b].members, d)
                &&& forall|k: int|
                    0 <= k < b ==> #[trigger] mean_similarity(clusters[k].members, d)
                        < mean_similarity(clusters[b].members, d)
                        || mean_similarity(clusters[k].members, d) <= THRESHOLD
            },
            None => forall|k: int|
                0 <= k < n ==> #[trigger] mean_similarity(clusters[k].members, d) <= THRESHOLD,
        },
    decreases n,
{
    if n > 0 {
        lemma_best_among(clusters, d, n - 1);
    }
}

impl Cluster {
    pub open spec fn wf(&self) -> bool {
        members_wf(self.documents@)
    }

    /// An empty cluster that is not fake.
    pub fn new() -> (r: Cluster)
        ensures
            r@.members.len() == 0,
            !r@.fake,
    {
        Cluster { documents: Vec::new(), fake: false }
    }

    /// Mean similarity of `target` to the members, in units of
    /// `1 / SIMILARITY_SCALE`, rounded down; 0 for an empty cluster.
    pub fn distance_to_document(&self, target: &Document) -> (r: u64)
        requires
            self.wf(),
            target.wf(),
        ensures
            r == mean_similarity(self@.members, *target),
    {
        let count = self.documents.len();
        if count == 0 {
            return 0;
        }
        let mut sum: u128 = 0;
        let mut i: usize = 0;
        while i < count
            invariant
                count == self.documents.len(),
                self.wf(),
                target.wf(),
                i <= count,
                sum == sum_similarity(self.documents@.take(i as int), *target),
                sum <= i * SIMILARITY_SCALE,
            decreases count - i,
        {
            let ghost prefix = self.documents@.take(i as int + 1);
            assert(prefix.drop_last() =~= self.documents@.take(i as int));
            assert(prefix.last() == self.documents@[i as int]);
            let s = target.distance(&self.documents[i]);
            assert((i + 1) * SIMILARITY_SCALE <= 0x1_0000_0000_0000_0000 * SIMILARITY_SCALE)
                by (nonlinear_arith)
                requires
                    i < 0x1_0000_0000_0000_0000,
            ;
            sum = sum + s as u128;
            i = i + 1;
        }
        assert(self.documents@.take(count as int) =~= self.documents@);
        proof {
            lemma_mean_similarity_range(self.documents@, *target);
        }
        (sum / count as u128) as u64
    }

    /// Adds a member; true when the cluster is already fake, so that the new
    /// member is to be reported.
    pub fn add_document(&mut self, document: Document) -> (r: bool)
        ensures
            final(self)@.members == old(self)@.members.push(document),
            final(self)@.fake == old(self)@.fake,
            r == old(self)@.fake,
    {
        let r = self.fake;
        self.documents.push(document);
        r
    }

    /// Marks the cluster fake; true when it was not fake before, so that
    /// every current member is to be reported.
    pub fn mark_as_fake(&mut self) -> (r: bool)
        ensures
            final(self)@.members == old(self)@.members,
            final(self)@.fake,
            r == !old(self)@.fake,
    {
        if self.fake {
            return false;
        }
        self.fake = true;
        true
    }
}

/// The cluster that `document` joins, if any: the passing cluster of highest
/// mean similarity, the lowest index among equals.
pub fn find_candidate(clusters: &Vec<Cluster>, document: &Document) -> (r: Option<usize>)
    requires
        document.wf(),
        forall|k: int| 0 <= k < clusters.len() ==> #[trigger] clusters@[k].wf(),
    ensures
        as_int(r) == best_cluster(cluster_views(clusters@), *document),
{
    let ghost views = cluster_views(clusters@);
    let mut best: Option<usize> = None;
    let mut best_score: u64 = 0;
    let mut i: usize = 0;
    while i < clusters.len()
        invariant
            views == cluster_views(clusters@),
            document.wf(),
            forall|k: int| 0 <= k < clusters.len() ==> #[trigger] clusters@[k].wf(),
            i <= clusters.len(),
            as_int(best) == best_among(views, *document, i as int),
            best matches Some(b) ==> b < i && best_score == mean_similarity(
                views[b as int].members,
                *document,
            ),
        decreases clusters.len() - i,
    {
        assert(views[i as int] == clusters@[i as int]@);
        let m = clusters[i].distance_to_document(document);
        if m > THRESHOLD && (best.is_none() || m > best_score) {
            best = Some(i);
            best_score = m;
        }
        i = i + 1;
    }
    best
}

/// The canonical identity of a document: its url.
pub open spec fn identity(d: Document) -> Seq<char> {
    d.entry.url@
}

/// What a registry is: its clusters in order of creation, and the cluster
/// that owns each identity.
pub struct RegistryView {
    pub clusters: Seq<ClusterView>,
    pub owner: Map<Seq<char>, int>,
}

/// The registry's invariant: every member is valid; every identity in the
/// mapping points at a cluster that holds a document with that identity; and
/// every member's identity is in the mapping.
pub open spec fn consistent(r: RegistryView) -> bool {
    &&& forall|k: int|
        0 <= k < r.clusters.len() ==> #[trigger] members_wf(r.clusters[k].members)
    &&& forall|id: Seq<char>|
        #[trigger] r.owner.contains_key(id) ==> {
            &&& 0 <= r.owner[id] < r.clusters.len()
            &&& exists|j: int|
                0 <= j < r.clusters[r.owner[id]].members.len() && #[trigger] identity(
                    r.clusters[r.owner[id]].members[j],
                ) == id
        }
    &&& forall|k: int, j: int|
        0 <= k < r.clusters.len() && 0 <= j < r.clusters[k].members.len()
            ==> r.owner.contains_key(#[trigger] identity(r.clusters[k].members[j]))
}

/// The registry after `assign`: `d` joins its best cluster, or starts a new
/// one, and its identity maps to that cluster.
pub open spec fn assign_spec(r: RegistryView, d: Document) -> RegistryView {
    match best_cluster(r.clusters, d) {
        Some(i) => RegistryView {
            clusters: r.clusters.update(
                i,
                ClusterView { members: r.clusters[i].members.push(d), fake: r.clusters[i].fake },
            ),
            owner: r.owner.insert(identity(d), i),
        },
        None => RegistryView {
            clusters: r.clusters.push(ClusterView { members: seq![d], fake: false }),
            owner: r.owner.insert(identity(d), r.clusters.len() as int),
        },
    }
}

/// The index of the cluster that `d` ends up in.
pub open spec fn assigned_cluster(r: RegistryView, d: Document) -> int {
    match best_cluster(r.clusters, d) {
        Some(i) => i,
        None => r.clusters.len() as int,
    }
}

/// Whether `d` joins a cluster that is already fake, and is to be reported.
pub open spec fn reported_on_assign(r: RegistryView, d: Document) -> bool {
    match best_cluster(r.clusters, d) {
        Some(i) => r.clusters[i].fake,
        None => false,
    }
}

/// The cluster that a fake verdict on `id` turns fake: the owner of `id`,
/// unless `id` is unknown or its cluster is fake already.
pub open spec fn marked_cluster(r: RegistryView, id: Seq<char>) -> Option<int> {
    if r.owner.contains_key(id) && !r.clusters[r.owner[id]].fake {
        Some(r.owner[id])
    } else {
        None
    }
}

/// The registry after a fake verdict on `id`.
pub open spec fn mark_spec(r: RegistryView, id: Seq<char>) -> RegistryView {
    match marked_cluster(r, id) {
        Some(k) => RegistryView {
            clusters: r.clusters.update(
                k,
                ClusterView { members: r.clusters[k].members, fake: true },
            ),
            owner: r.owner,
        },
        None => r,
    }
}

/// The registry after assigning each of `docs` in turn, starting from `r`.
pub open spec fn replay(r: RegistryView, docs: Seq<Document>) -> RegistryView
    decreases docs.len(),
{
    if docs.len() == 0 {
        r
    } else {
        assign_spec(replay(r, docs.drop_last()), docs.last())
    }
}

/// The registry with no cluster.
pub open spec fn empty_registry() -> RegistryView {
    RegistryView { clusters: Seq::empty(), owner: Map::empty() }
}

/// Assigning a valid document keeps the registry consistent.
pub proof fn lemma_assign_consistent(r: RegistryView, d: Document)
    requires
        consistent(r),
        d.wf(),
    ensures
        consistent(assign_spec(r, d)),
{
    let n = assign_spec(r, d);
    let id = identity(d);
    let target = assigned_cluster(r, d);
    lemma_best_among(r.clusters, d, r.clusters.len() as int);
    assert(0 <= target <= r.clusters.len());
    assert(n.clusters.len() >= r.clusters.len());
    assert forall|k: int, j: int|
        0 <= k < r.clusters.len() && 0 <= j < r.clusters[k].members.len() implies
        #[trigger] n.clusters[k].members[j] == r.clusters[k].members[j] by {}
    assert(n.clusters[target].members.last() == d);
    assert forall|k: int| 0 <= k < n.clusters.len() implies
        #[trigger] members_wf(n.clusters[k].members) by {
        assert forall|j: int| 0 <= j < n.clusters[k].members.len() implies
            #[trigger] n.clusters[k].members[j].wf() by {
            if k == target && j == n.clusters[k].members.len() - 1 {
            } else {
                assert(members_wf(r.clusters[k].members));
                assert(r.clusters[k].members[j].wf());
            }
        }
    }
    assert forall|x: Seq<char>| #[trigger] n.owner.contains_key(x) implies {
        &&& 0 <= n.owner[x] < n.clusters.len()
        &&& exists|j: int|
            0 <= j < n.clusters[n.owner[x]].members.len() && #[trigger] identity(
                n.clusters[n.owner[x]].members[j],
            ) == x
    } by {
        if x == id {
            let j = n.clusters[target].members.len() - 1;
            assert(identity(n.clusters[n.owner[x]].members[j]) == x);
        } else {
            assert(r.owner.contains_key(x));
            let k = r.owner[x];
            let j = choose|j: int|
                0 <= j < r.clusters[k].members.len() && #[trigger] identity(
                    r.clusters[k].members[j],
                ) == x;
            assert(identity(n.clusters[n.owner[x]].members[j]) == x);
        }
    }
    assert forall|k: int, j: int|
        0 <= k < n.clusters.len() && 0 <= j < n.clusters[k].members.len() implies
        n.owner.contains_key(#[trigger] identity(n.clusters[k].members[j])) by {
        if k == target && j == n.clusters[k].members.len() - 1 {
        } else {
            assert(r.owner.contains_key(identity(r.clusters[k].members[j])));
        }
    }
}

/// A fake verdict keeps the registry consistent.
pub proof fn lemma_mark_consistent(r: RegistryView, id: Seq<char>)
    requires
        consistent(r),
    ensures
        consistent(mark_spec(r, id)),
{
    let n = mark_spec(r, id);
    assert forall|k: int| 0 <= k < n.clusters.len() implies
        #[trigger] n.clusters[k].members == r.clusters[k].members by {}
    assert forall|x: Seq<char>| #[trigger] n.owner.contains_key(x) implies {
        &&& 0 <= n.owner[x] < n.clusters.len()
        &&& exists|j: int|
            0 <= j < n.clusters[n.owner[x]].members.len() && #[trigger] identity(
                n.clusters[n.owner[x]].members[j],
            ) == x
    } by {
        let k = r.owner[x];
        let j = choose|j: int|
            0 <= j < r.clusters[k].members.len() && #[trigger] identity(r.clusters[k].members[j])
                == x;
        assert(identity(n.clusters[n.owner[x]].members[j]) == x);
    }
    assert forall|k: int, j: int|
        0 <= k < n.clusters.len() && 0 <= j < n.clusters[k].members.len() implies
        n.owner.contains_key(#[trigger] identity(n.clusters[k].members[j])) by {
        assert(r.owner.contains_key(identity(r.clusters[k].members[j])));
    }
}

/// The threshold is exclusive: a cluster whose mean similarity is exactly
/// 0.7 is never joined, and a document that reaches no more than 0.7 with
/// every cluster starts a new one.
pub proof fn lemma_threshold_exclusive(r: RegistryView, d: Document, k: int)
    requires
        0 <= k < r.clusters.len(),
        mean_similarity(r.clusters[k].members, d) == THRESHOLD,
    ensures
        THRESHOLD * 10 == SIMILARITY_SCALE * 7,
        best_cluster(r.clusters, d) != Some(k),
        (forall|j: int|
            0 <= j < r.clusters.len() ==> #[trigger] mean_similarity(r.clusters[j].members, d)
                <= THRESHOLD) ==> assigned_cluster(r, d) == r.clusters.len(),
{
    lemma_best_among(r.clusters, d, r.clusters.len() as int);
}

/// Replaying valid documents from a consistent registry keeps it consistent.
pub proof fn lemma_replay_consistent(r: RegistryView, docs: Seq<Document>)
    requires
        consistent(r),
        forall|i: int| 0 <= i < docs.len() ==> #[trigger] docs[i].wf(),
    ensures
        consistent(replay(r, docs)),
    decreases docs.len(),
{
    if docs.len() > 0 {
        let rest = docs.drop_last();
        assert forall|i: int| 0 <= i < rest.len() implies #[trigger] rest[i].wf() by {
            assert(rest[i] == docs[i]);
        }
        lemma_replay_consistent(r, rest);
        assert(docs[docs.len() - 1].wf());
        lemma_assign_consistent(replay(r, rest), docs.last());
    }
}

/// Assignment is deterministic: the same documents in the same order, from
/// the empty registry, always give the same clusters, the same members in
/// each, and the same identity mapping.
pub proof fn lemma_replay_deterministic(r1: RegistryView, r2: RegistryView, docs: Seq<Document>)
    requires
        r1 == empty_registry(),
        r2 == empty_registry(),
        forall|i: int| 0 <= i < docs.len() ==> #[trigger] docs[i].wf(),
    ensures
        replay(r1, docs) == replay(r2, docs),
        consistent(replay(r1, docs)),
{
    assert(consistent(empty_registry()));
    lemma_replay_consistent(r1, docs);
}

/// Fake marking is idempotent: after a verdict on `a`, a verdict on any
/// identity `b` of the same cluster changes nothing and reports nothing, so
/// that each member is reported once; and a verdict that reports nothing
/// finds the cluster fake already, or the identity unknown.
pub proof fn lemma_mark_idempotent(r: RegistryView, a: Seq<char>, b: Seq<char>)
    requires
        consistent(r),
        r.owner.contains_key(a),
        r.owner.contains_key(b),
        r.owner[a] == r.owner[b],
    ensures
        marked_cluster(mark_spec(r, a), b) is None,
        mark_spec(mark_spec(r, a), b) == mark_spec(r, a),
        mark_spec(r, a).clusters[r.owner[a]].fake,
        mark_spec(r, a).clusters[r.owner[a]].members == r.clusters[r.owner[a]].members,
        marked_cluster(r, a) is None ==> r.clusters[r.owner[a]].fake,
{
}

/// Where a document went, and whether it is to be reported as fake.
pub struct Assignment {
    pub cluster: usize,
    pub report: bool,
}

/// All clusters, and the identity mapping under the same owner, so that both
/// change together.
pub struct Registry {
    pub clusters: Vec<Cluster>,
    pub owners: Vec<(String, usize)>,
    pub index: Ghost<Map<Seq<char>, int>>,
}

impl View for Registry {
    type V = RegistryView;

    open spec fn view(&self) -> RegistryView {
        RegistryView { clusters: cluster_views(self.clusters@), owner: self.index@ }
    }
}

impl Registry {
    /// The table `owners` holds the mapping, one row per identity.
    pub open spec fn table_wf(&self) -> bool {
        &&& forall|i: int, j: int|
            0 <= i < j < self.owners.len() ==> self.owners@[i].0@ != self.owners@[j].0@
        &&& forall|i: int|
            0 <= i < self.owners.len() ==> self.index@.contains_key(#[trigger] self.owners@[i].0@)
                && self.index@[self.owners@[i].0@] == self.owners@[i].1
        &&& forall|id: Seq<char>|
            #[trigger] self.index@.contains_key(id) ==> exists|i: int|
                0 <= i < self.owners.len() && #[trigger] self.owners@[i].0@ == id
    }

    pub open spec fn wf(&self) -> bool {
        &&& self.table_wf()
        &&& consistent(self@)
    }

    pub fn new() -> (r: Registry)
        ensures
            r.wf(),
            r@ == empty_registry(),
    {
        let r = Registry { clusters: Vec::new(), owners: Vec::new(), index: Ghost(Map::empty()) };
        assert(r@.clusters =~= Seq::<ClusterView>::empty());
        r
    }

    /// Row of `owners` that holds `id`, if any.
    fn find_owner(&self, id: &String) -> (r: Option<usize>)
        requires
            self.table_wf(),
        ensures
            match r {
                Some(p) => p < self.owners.len() && self.owners@[p as int].0@ == id@,
                None => !self.index@.contains_key(id@),
            },
    {
        let mut p: usize = 0;
        while p < self.owners.len()
            invariant
                self.table_wf(),
                p <= self.owners.len(),
                forall|i: int| 0 <= i < p ==> self.owners@[i].0@ != id@,
            decreases self.owners.len() - p,
        {
            if self.owners[p].0 == *id {
                return Some(p);
            }
            p = p + 1;
        }
        None
    }

    /// The cluster that owns the document of identity `id`, if any.
    pub fn cluster_of(&self, id: &String) -> (r: Option<usize>)
        requires
            self.wf(),
        ensures
            match r {
                Some(k) => self@.owner.contains_key(id@) && self@.owner[id@] == k,
                None => !self@.owner.contains_key(id@),
            },
    {
        match self.find_owner(id) {
            Some(p) => Some(self.owners[p].1),
            None => None,
        }
    }

    /// Assigns a document to the cluster of highest mean similarity above
    /// the threshold (the lowest index among equals), or to a new cluster,
    /// and maps its identity to that cluster.
    pub fn add_document(&mut self, document: Document) -> (r: Assignment)
        requires
            old(self).wf(),
            document.wf(),
        ensures
            final(self).wf(),
            final(self)@ == assign_spec(old(self)@, document),
            r.cluster == assigned_cluster(old(self)@, document),
            r.report == reported_on_assign(old(self)@, document),
    {
        let ghost pre = self@;
        proof {
            assert forall|k: int| 0 <= k < self.clusters.len() implies
                #[trigger] self.clusters@[k].wf() by {
                assert(pre.clusters[k] == self.clusters@[k]@);
                assert(members_wf(pre.clusters[k].members));
            }
            lemma_best_among(pre.clusters, document, pre.clusters.len() as int);
            lemma_assign_consistent(pre, document);
        }
        let candidate = find_candidate(&self.clusters, &document);
        let id = document.entry.url.clone();
        let row = self.find_owner(&id);
        let ghost d = document;
        let (idx, report) = match candidate {
            Some(idx) => {
                let report = self.clusters[idx].add_document(document);
                (idx, report)
            },
            None => {
                let mut cluster = Cluster::new();
                cluster.add_document(document);
                assert(cluster@.members =~= seq![d]);
                self.clusters.push(cluster);
                (self.clusters.len() - 1, false)
            },
        };
        assert(cluster_views(self.clusters@) =~~= assign_spec(pre, d).clusters);
        match row {
            Some(p) => {
                self.owners.set(p, (id, idx));
            },
            None => {
                self.owners.push((id, idx));
            },
        }
        self.index = Ghost(self.index@.insert(d.entry.url@, idx as int));
        proof {
            let o = self.owners@;
            assert forall|x: Seq<char>| #[trigger] self.index@.contains_key(x) implies exists|
                i: int,
            |
                0 <= i < o.len() && #[trigger] o[i].0@ == x by {
                if x == d.entry.url@ {
                    match row {
                        Some(p) => assert(o[p as int].0@ == x),
                        None => assert(o[o.len() - 1].0@ == x),
                    }
                } else {
                    assert(pre.owner.contains_key(x));
                    let i = choose|i: int|
                        0 <= i < old(self).owners.len() && #[trigger] old(self).owners@[i].0@
                            == x;
                    assert(o[i].0@ == x);
                }
            }
        }
        Assignment { cluster: idx, report }
    }

    /// Applies a fake verdict on identity `url`: when its cluster is known
    /// and not yet fake, the cluster turns fake and its index is returned,
    /// so that each of its current members is reported once.
    pub fn add_fake(&mut self, url: &String) -> (r: Option<usize>)
        requires
            old(self).wf(),
        ensures
            final(self).wf(),
            final(self)@ == mark_spec(old(self)@, url@),
            as_int(r) == marked_cluster(old(self)@, url@),
    {
        let ghost pre = self@;
        proof {
            lemma_mark_consistent(pre, url@);
        }
        match self.cluster_of(url) {
            Some(idx) => {
                assert(pre.clusters[idx as int] == self.clusters@[idx as int]@);
                if self.clusters[idx].mark_as_fake() {
                    assert(cluster_views(self.clusters@) =~~= mark_spec(pre, url@).clusters);
                    assert(self@ == mark_spec(pre, url@));
                    assert(self.owners == old(self).owners);
                    Some(idx)
                } else {
                    assert(cluster_views(self.clusters@) =~~= pre.clusters);
                    assert(self@ == mark_spec(pre, url@));
                    assert(self.owners == old(self).owners);
                    None
                }
            },
            None => {
                assert(self@ == mark_spec(pre, url@));
                None
            },
        }
    }

    /// Number of clusters.
    pub fn len(&self) -> (r: usize)
        ensures
            r == self@.clusters.len(),
    {
        self.clusters.len()
    }

    /// The cluster at `idx`.
    pub fn cluster(&self, idx: usize) -> (r: &Cluster)
        requires
            idx < self@.clusters.len(),
        ensures
            r@ == self@.clusters[idx as int],
    {
        &self.clusters[idx]
    }
}

} // verus!
