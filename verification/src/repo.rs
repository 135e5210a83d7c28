//! The repository snapshot the engine works on.
//!
//! A [`Repo`] is a plain in-memory picture of a repository at load time:
//! the commits (stored in topological order, parents before children), the
//! local branches, the HEAD, and the remote names. Every ancestry question
//! the engine asks — commit lookup, first-parent walks, merge bases — is
//! answered from this snapshot alone. Ancestry throughout this crate means
//! first-parent ancestry: every walk follows the first parent, as the stack
//! operations do.

use vstd::prelude::*;

use crate::error::Error;
use crate::ids::CommitId;

verus! {

/// One commit: its id, the id of its tree, its parents in order, and the
/// summary line of its message as bytes.
#[derive(Debug)]
pub struct Commit {
    pub id: CommitId,
    pub tree_id: CommitId,
    pub parent_ids: Vec<CommitId>,
    pub summary: Vec<u8>,
}

/// The mathematical value of a [`Commit`].
pub struct CommitView {
    pub id: CommitId,
    pub tree_id: CommitId,
    pub parent_ids: Seq<CommitId>,
    pub summary: Seq<u8>,
}

impl View for Commit {
    type V = CommitView;

    open spec fn view(&self) -> CommitView {
        CommitView {
            id: self.id,
            tree_id: self.tree_id,
            parent_ids: self.parent_ids@,
            summary: self.summary@,
        }
    }
}

/// One local branch: its name, the commit it points at, and the upstream
/// commits it tracks for pushes and pulls, when known.
#[derive(Debug)]
pub struct Branch {
    pub name: String,
    pub id: CommitId,
    pub push_id: Option<CommitId>,
    pub pull_id: Option<CommitId>,
}

/// The mathematical value of a [`Branch`].
pub struct BranchView {
    pub name: Seq<char>,
    pub id: CommitId,
    pub push_id: Option<CommitId>,
    pub pull_id: Option<CommitId>,
}

impl View for Branch {
    type V = BranchView;

    open spec fn view(&self) -> BranchView {
        BranchView { name: self.name@, id: self.id, push_id: self.push_id, pull_id: self.pull_id }
    }
}

impl Clone for Commit {
    fn clone(&self) -> (r: Commit)
        ensures
            r@ == self@,
    {
        Commit {
            id: self.id,
            tree_id: self.tree_id,
            parent_ids: copy_ids(&self.parent_ids),
            summary: copy_bytes(&self.summary),
        }
    }
}

impl Clone for Branch {
    fn clone(&self) -> (r: Branch)
        ensures
            r@ == self@,
    {
        Branch {
            name: self.name.clone(),
            id: self.id,
            push_id: self.push_id,
            pull_id: self.pull_id,
        }
    }
}

/// The mathematical values of a commit list.
pub open spec fn commit_views(cs: Seq<Commit>) -> Seq<CommitView> {
    cs.map_values(|c: Commit| c@)
}

/// The views of a commit list, element by element.
pub proof fn lemma_commit_views(cs: Seq<Commit>)
    ensures
        commit_views(cs).len() == cs.len(),
        forall|i: int| 0 <= i < cs.len() ==> commit_views(cs)[i] == (#[trigger] cs[i])@,
{
}

/// Copies a vector of commit ids.
pub fn copy_ids(v: &Vec<CommitId>) -> (r: Vec<CommitId>)
    ensures
        r@ == v@,
{
    let mut r: Vec<CommitId> = Vec::new();
    let mut i: usize = 0;
    while i < v.len()
        invariant
            i <= v.len(),
            r@ == v@.subrange(0, i as int),
        decreases v.len() - i,
    {
        r.push(v[i]);
        i = i + 1;
    }
    assert(r@ == v@);
    r
}

/// Copies a byte string.
pub fn copy_bytes(v: &Vec<u8>) -> (r: Vec<u8>)
    ensures
        r@ == v@,
{
    let mut r: Vec<u8> = Vec::new();
    let mut i: usize = 0;
    while i < v.len()
        invariant
            i <= v.len(),
            r@ == v@.subrange(0, i as int),
        decreases v.len() - i,
    {
        r.push(v[i]);
        i = i + 1;
    }
    assert(r@ == v@);
    r
}

/// The mathematical value of a [`Repo`].
pub struct RepoView {
    pub commits: Seq<CommitView>,
    pub branches: Seq<BranchView>,
    pub head_id: CommitId,
    pub head_branch: Option<Seq<char>>,
    pub dirty: bool,
    pub push_remote: Seq<char>,
    pub pull_remote: Seq<char>,
}

impl RepoView {
    /// Whether some commit of the snapshot has this id.
    pub open spec fn contains_commit(self, id: CommitId) -> bool {
        exists|i: int| 0 <= i < self.commits.len() && self.commits[i].id == id
    }

    /// The position of the commit with this id.
    pub open spec fn idx_of(self, id: CommitId) -> int {
        choose|i: int| 0 <= i < self.commits.len() && self.commits[i].id == id
    }

    /// The commit with this id.
    pub open spec fn commit_of(self, id: CommitId) -> CommitView {
        self.commits[self.idx_of(id)]
    }

    /// No two commits share an id.
    pub open spec fn ids_unique(self) -> bool {
        forall|i: int, j: int|
            0 <= i < j < self.commits.len() ==> self.commits[i].id != self.commits[j].id
    }

    /// Parent `k` of commit `i` appears strictly earlier in the snapshot.
    pub open spec fn parent_in_prefix(self, i: int, k: int) -> bool {
        exists|j: int| 0 <= j < i && self.commits[j].id == self.commits[i].parent_ids[k]
    }

    /// Every parent of a commit appears earlier in the snapshot: the commit
    /// sequence is a topological order of the (acyclic) commit graph.
    pub open spec fn parents_before(self) -> bool {
        forall|i: int, k: int|
            0 <= i < self.commits.len() && 0 <= k < self.commits[i].parent_ids.len()
                ==> #[trigger] self.parent_in_prefix(i, k)
    }

    /// Well-formedness of the commit graph alone.
    pub open spec fn graph_wf(self) -> bool {
        self.ids_unique() && self.parents_before()
    }

    /// Well-formedness of the branch list: every branch and every known
    /// upstream points at a commit of the snapshot, and names are unique.
    pub open spec fn branches_wf(self) -> bool {
        &&& forall|k: int|
            0 <= k < self.branches.len() ==> self.contains_commit(
                #[trigger] self.branches[k].id,
            )
        &&& forall|k: int|
            0 <= k < self.branches.len() ==> match #[trigger] self.branches[k].push_id {
                Some(p) => self.contains_commit(p),
                None => true,
            }
        &&& forall|k: int|
            0 <= k < self.branches.len() ==> match #[trigger] self.branches[k].pull_id {
                Some(p) => self.contains_commit(p),
                None => true,
            }
        &&& forall|i: int, j: int|
            0 <= i < j < self.branches.len() ==> self.branches[i].name != self.branches[j].name
    }

    /// HEAD points at a commit; when it sits on a branch, that branch exists
    /// and points at the same commit.
    pub open spec fn head_wf(self) -> bool {
        &&& self.contains_commit(self.head_id)
        &&& match self.head_branch {
            Some(n) => exists|k: int|
                0 <= k < self.branches.len() && #[trigger] self.branches[k].name == n
                    && self.branches[k].id == self.head_id,
            None => true,
        }
    }

    /// Full well-formedness of a snapshot.
    pub open spec fn wf(self) -> bool {
        self.graph_wf() && self.branches_wf() && self.head_wf()
    }

    /// The commit with this id sits at position `idx_of(id)`, and at no
    /// other position.
    pub proof fn lemma_idx(self, id: CommitId)
        requires
            self.ids_unique(),
            self.contains_commit(id),
        ensures
            0 <= self.idx_of(id) < self.commits.len(),
            self.commits[self.idx_of(id)].id == id,
            forall|j: int|
                0 <= j < self.commits.len() && self.commits[j].id == id ==> j == self.idx_of(id),
    {
        let i = self.idx_of(id);
        assert(0 <= i < self.commits.len() && self.commits[i].id == id);
    }

    /// The first parent of a non-root commit is a commit of the snapshot and
    /// sits strictly earlier.
    pub proof fn lemma_chain_step(self, id: CommitId)
        requires
            self.graph_wf(),
            self.contains_commit(id),
            self.commit_of(id).parent_ids.len() > 0,
        ensures
            self.contains_commit(self.commit_of(id).parent_ids[0]),
            0 <= self.idx_of(self.commit_of(id).parent_ids[0]) < self.idx_of(id),
    {
        self.lemma_idx(id);
        let i = self.idx_of(id);
        let p = self.commit_of(id).parent_ids[0];
        assert(self.parent_in_prefix(i, 0));
        let j = choose|j: int| 0 <= j < i && self.commits[j].id == p;
        assert(self.contains_commit(p));
        self.lemma_idx(p);
    }

    /// The first-parent ancestry chain starting at `id`: the id itself, then
    /// the chain of its first parent, down to a parentless commit.
    pub open spec fn chain(self, id: CommitId) -> Seq<CommitId>
        decreases self.idx_of(id),
            when self.graph_wf() && self.contains_commit(id)
    {
        let c = self.commit_of(id);
        if c.parent_ids.len() == 0 {
            seq![id]
        } else {
            proof {
                self.lemma_chain_step(id);
            }
            seq![id] + self.chain(c.parent_ids[0])
        }
    }

    /// `a` is an ancestor of `b` (or equal to it) along first parents.
    pub open spec fn is_ancestor(self, a: CommitId, b: CommitId) -> bool {
        self.chain(b).contains(a)
    }

    /// The best common first-parent ancestor of `a` and `b`: the first
    /// element of `a`'s chain that also lies on `b`'s chain.
    pub open spec fn spec_merge_base(self, a: CommitId, b: CommitId) -> Option<CommitId> {
        first_common(self.chain(a), self.chain(b))
    }

    /// Basic shape of a chain: it starts at its tip, every element is a
    /// commit of the snapshot, and positions strictly decrease along it.
    pub proof fn lemma_chain_shape(self, id: CommitId)
        requires
            self.graph_wf(),
            self.contains_commit(id),
        ensures
            self.chain(id).len() >= 1,
            self.chain(id)[0] == id,
            forall|k: int|
                0 <= k < self.chain(id).len() ==> self.contains_commit(
                    #[trigger] self.chain(id)[k],
                ),
            forall|k: int|
                0 <= k < self.chain(id).len() ==> self.idx_of(#[trigger] self.chain(id)[k])
                    <= self.idx_of(id),
            forall|k: int|
                1 <= k < self.chain(id).len() ==> self.idx_of(#[trigger] self.chain(id)[k])
                    < self.idx_of(id),
        decreases self.idx_of(id),
    {
        let c = self.commit_of(id);
        self.lemma_idx(id);
        if c.parent_ids.len() == 0 {
        } else {
            self.lemma_chain_step(id);
            self.lemma_chain_shape(c.parent_ids[0]);
            assert forall|k: int| 1 <= k < self.chain(id).len() implies self.idx_of(
                #[trigger] self.chain(id)[k],
            ) < self.idx_of(id) by {
                assert(self.chain(id)[k] == self.chain(c.parent_ids[0])[k - 1]);
            }
        }
    }

    /// The elements of a chain are pairwise distinct.
    pub proof fn lemma_chain_distinct(self, id: CommitId)
        requires
            self.graph_wf(),
            self.contains_commit(id),
        ensures
            forall|i: int, j: int|
                0 <= i < j < self.chain(id).len() ==> self.chain(id)[i] != self.chain(id)[j],
    {
        let cs = self.chain(id);
        self.lemma_chain_shape(id);
        assert forall|i: int, j: int| 0 <= i < j < cs.len() implies cs[i] != cs[j] by {
            self.lemma_chain_suffix(id, i);
            assert(self.contains_commit(cs[i]));
            self.lemma_chain_shape(cs[i]);
            assert(cs[j] == self.chain(cs[i])[j - i]);
            assert(self.idx_of(self.chain(cs[i])[j - i]) < self.idx_of(cs[i]));
        }
    }

    /// If `x` lies on the chain of `id`, then the chain of `x` is exactly
    /// the tail of the chain of `id` from `x` on.
    pub proof fn lemma_chain_suffix(self, id: CommitId, k: int)
        requires
            self.graph_wf(),
            self.contains_commit(id),
            0 <= k < self.chain(id).len(),
        ensures
            self.chain(self.chain(id)[k]) == self.chain(id).subrange(
                k,
                self.chain(id).len() as int,
            ),
        decreases self.idx_of(id),
    {
        let cs = self.chain(id);
        let c = self.commit_of(id);
        self.lemma_idx(id);
        if k == 0 {
            assert(self.chain(cs[0]) =~= cs.subrange(0, cs.len() as int));
        } else {
            self.lemma_chain_step(id);
            let p = c.parent_ids[0];
            assert(cs[k] == self.chain(p)[k - 1]);
            self.lemma_chain_suffix(p, k - 1);
            assert(self.chain(p).subrange(k - 1, self.chain(p).len() as int) =~= cs.subrange(
                k,
                cs.len() as int,
            ));
        }
    }
}

/// The first element of `ca` that also occurs in `cb`; `None` when the two
/// sequences are disjoint.
pub open spec fn first_common(ca: Seq<CommitId>, cb: Seq<CommitId>) -> Option<CommitId>
    decreases ca.len(),
{
    if ca.len() == 0 {
        None
    } else if cb.contains(ca[0]) {
        Some(ca[0])
    } else {
        first_common(ca.drop_first(), cb)
    }
}

impl RepoView {
    /// Whether some branch of the snapshot has this name.
    pub open spec fn contains_branch(self, name: Seq<char>) -> bool {
        exists|k: int| 0 <= k < self.branches.len() && self.branches[k].name == name
    }

    /// The position of the branch with this name.
    pub open spec fn branch_idx_of(self, name: Seq<char>) -> int {
        choose|k: int| 0 <= k < self.branches.len() && self.branches[k].name == name
    }

    /// The branch with this name.
    pub open spec fn branch_of(self, name: Seq<char>) -> BranchView {
        self.branches[self.branch_idx_of(name)]
    }

    /// The branch with this name sits at position `branch_idx_of(name)`,
    /// and at no other position.
    pub proof fn lemma_branch_idx(self, name: Seq<char>)
        requires
            self.branches_wf(),
            self.contains_branch(name),
        ensures
            0 <= self.branch_idx_of(name) < self.branches.len(),
            self.branch_of(name).name == name,
            forall|j: int|
                0 <= j < self.branches.len() && self.branches[j].name == name ==> j
                    == self.branch_idx_of(name),
    {
        let k = self.branch_idx_of(name);
        assert(0 <= k < self.branches.len() && self.branches[k].name == name);
    }

    /// The commits of the first-parent chain from `id`, in chain order.
    pub open spec fn chain_commits(self, id: CommitId) -> Seq<CommitView> {
        self.chain(id).map_values(|cid: CommitId| self.commit_of(cid))
    }

    /// The greatest commit id of the snapshot, by byte order.
    pub open spec fn max_commit_id(self) -> CommitId {
        max_id_of(self.commits)
    }

    /// Containment of a commit depends only on the commit sequence.
    pub proof fn lemma_contains_same_commits(self, other: RepoView, id: CommitId)
        requires
            other.commits == self.commits,
        ensures
            self.contains_commit(id) == other.contains_commit(id),
    {
        if self.contains_commit(id) {
            let i = choose|i: int| 0 <= i < self.commits.len() && self.commits[i].id == id;
            assert(other.commits[i].id == id);
        }
        if other.contains_commit(id) {
            let i = choose|i: int| 0 <= i < other.commits.len() && other.commits[i].id == id;
            assert(self.commits[i].id == id);
        }
    }

    /// Graph well-formedness depends only on the commit sequence.
    pub proof fn lemma_graph_wf_same_commits(self, other: RepoView)
        requires
            self.graph_wf(),
            other.commits == self.commits,
        ensures
            other.graph_wf(),
    {
        assert forall|i: int, k: int|
            0 <= i < other.commits.len() && 0 <= k
                < other.commits[i].parent_ids.len() implies #[trigger] other.parent_in_prefix(
            i,
            k,
        ) by {
            assert(self.parent_in_prefix(i, k));
        }
    }

    /// Branch well-formedness depends only on the commits and the branches.
    pub proof fn lemma_branches_wf_same(self, other: RepoView)
        requires
            self.branches_wf(),
            other.commits == self.commits,
            other.branches == self.branches,
        ensures
            other.branches_wf(),
    {
        assert forall|k: int| 0 <= k < other.branches.len() implies other.contains_commit(
            #[trigger] other.branches[k].id,
        ) by {
            self.lemma_contains_same_commits(other, self.branches[k].id);
        }
        assert forall|k: int|
            0 <= k < other.branches.len() implies match #[trigger] other.branches[k].push_id {
            Some(p) => other.contains_commit(p),
            None => true,
        } by {
            match self.branches[k].push_id {
                Some(p) => {
                    self.lemma_contains_same_commits(other, p);
                },
                None => {},
            }
        }
        assert forall|k: int|
            0 <= k < other.branches.len() implies match #[trigger] other.branches[k].pull_id {
            Some(p) => other.contains_commit(p),
            None => true,
        } by {
            match self.branches[k].pull_id {
                Some(p) => {
                    self.lemma_contains_same_commits(other, p);
                },
                None => {},
            }
        }
    }

    /// Well-formedness depends only on the commits, the branches and HEAD:
    /// two snapshots agreeing there are equally well-formed.
    pub proof fn lemma_wf_same_refs(self, other: RepoView)
        requires
            self.wf(),
            other.commits == self.commits,
            other.branches == self.branches,
            other.head_id == self.head_id,
            other.head_branch == self.head_branch,
        ensures
            other.wf(),
    {
        assert forall|i: int, k: int|
            0 <= i < other.commits.len() && 0 <= k
                < other.commits[i].parent_ids.len() implies #[trigger] other.parent_in_prefix(
            i,
            k,
        ) by {
            assert(self.parent_in_prefix(i, k));
        }
        assert forall|k: int| 0 <= k < other.branches.len() implies other.contains_commit(
            #[trigger] other.branches[k].id,
        ) by {
            assert(self.contains_commit(self.branches[k].id));
        }
        assert forall|k: int|
            0 <= k < other.branches.len() implies match #[trigger] other.branches[k].push_id {
            Some(p) => other.contains_commit(p),
            None => true,
        } by {
            match self.branches[k].push_id {
                Some(p) => {
                    assert(self.contains_commit(p));
                },
                None => {},
            }
        }
        assert forall|k: int|
            0 <= k < other.branches.len() implies match #[trigger] other.branches[k].pull_id {
            Some(p) => other.contains_commit(p),
            None => true,
        } by {
            match self.branches[k].pull_id {
                Some(p) => {
                    assert(self.contains_commit(p));
                },
                None => {},
            }
        }
        assert(self.contains_commit(self.head_id));
        assert(other.contains_commit(other.head_id));
        assert(other.head_wf());
    }
}

/// The greatest id among these commits, by byte order; the zero id when
/// there are none.
pub open spec fn max_id_of(cs: Seq<CommitView>) -> CommitId
    decreases cs.len(),
{
    if cs.len() == 0 {
        CommitId { hi: 0, lo: 0 }
    } else {
        let m = max_id_of(cs.drop_last());
        if m.spec_lt(cs.last().id) {
            cs.last().id
        } else {
            m
        }
    }
}

/// No commit id exceeds the maximum.
pub proof fn lemma_max_id_ge(cs: Seq<CommitView>, i: int)
    requires
        0 <= i < cs.len(),
    ensures
        !max_id_of(cs).spec_lt(cs[i].id),
    decreases cs.len(),
{
    if i == cs.len() - 1 {
    } else {
        lemma_max_id_ge(cs.drop_last(), i);
        assert(cs.drop_last()[i] == cs[i]);
    }
}

impl RepoView {
    /// Whether a fresh commit id can still be allocated.
    pub open spec fn fresh_ok(self) -> bool {
        !(self.max_commit_id().hi == u128::MAX && self.max_commit_id().lo == u32::MAX)
    }

    /// The id the next commit created in this snapshot receives: the
    /// successor of the greatest id present.
    pub open spec fn spec_fresh_id(self) -> CommitId {
        crate::ids::spec_succ(self.max_commit_id())
    }

    /// The fresh id names no commit of the snapshot.
    pub proof fn lemma_fresh_id_free(self)
        requires
            self.fresh_ok(),
        ensures
            !self.contains_commit(self.spec_fresh_id()),
    {
        let m = self.max_commit_id();
        let f = self.spec_fresh_id();
        crate::ids::lemma_lt_is_int_lt(m, f);
        assert(m.spec_lt(f));
        if self.contains_commit(f) {
            let i = choose|i: int| 0 <= i < self.commits.len() && self.commits[i].id == f;
            lemma_max_id_ge(self.commits, i);
            crate::ids::lemma_lt_is_int_lt(f, m);
            crate::ids::lemma_lt_is_int_lt(m, f);
            assert(false);
        }
    }

    /// Appending a fresh commit leaves the chains of the commits already
    /// present unchanged.
    pub proof fn lemma_chain_append_stable(self, other: RepoView, id: CommitId)
        requires
            self.graph_wf(),
            other.graph_wf(),
            self.contains_commit(id),
            other.commits.len() == self.commits.len() + 1,
            other.commits.subrange(0, self.commits.len() as int) == self.commits,
            !self.contains_commit(other.commits.last().id),
        ensures
            other.contains_commit(id),
            other.chain(id) == self.chain(id),
        decreases self.idx_of(id),
    {
        let n = self.commits.len() as int;
        self.lemma_idx(id);
        let i = self.idx_of(id);
        assert(other.commits[i] == other.commits.subrange(0, n)[i]);
        assert(other.commits[i].id == id);
        assert(other.contains_commit(id));
        other.lemma_idx(id);
        assert(other.idx_of(id) == i);
        assert(other.commit_of(id) == self.commit_of(id));
        if self.commit_of(id).parent_ids.len() == 0 {
        } else {
            self.lemma_chain_step(id);
            self.lemma_chain_append_stable(other, self.commit_of(id).parent_ids[0]);
            other.lemma_chain_step(id);
        }
    }

    /// The snapshot after a commit is created on top of HEAD, carrying the
    /// given tree and summary, with HEAD moved to it.
    pub open spec fn with_new_commit(self, tree_id: CommitId, parent_ids: Seq<CommitId>, summary: Seq<u8>) -> RepoView {
        let nid = self.spec_fresh_id();
        RepoView {
            commits: self.commits.push(
                CommitView { id: nid, tree_id, parent_ids, summary },
            ),
            head_id: nid,
            ..self
        }
    }
}

/// An in-memory repository snapshot.
///
/// The fields are kept private so that every value of this type satisfies
/// [`RepoView::wf`]: the only constructor validates the snapshot, and every
/// mutation preserves well-formedness.
#[derive(Debug)]
pub struct Repo {
    commits: Vec<Commit>,
    branches: Vec<Branch>,
    head_id: CommitId,
    head_branch: Option<String>,
    dirty: bool,
    push_remote: String,
    pull_remote: String,
}

impl View for Repo {
    type V = RepoView;

    closed spec fn view(&self) -> RepoView {
        RepoView {
            commits: self.commits@.map_values(|c: Commit| c@),
            branches: self.branches@.map_values(|b: Branch| b@),
            head_id: self.head_id,
            head_branch: match self.head_branch {
                Some(s) => Some(s@),
                None => None,
            },
            dirty: self.dirty,
            push_remote: self.push_remote@,
            pull_remote: self.pull_remote@,
        }
    }
}

impl Repo {
    /// Searches the first `end` commits of the snapshot for `id`.
    fn find_upto(&self, id: CommitId, end: usize) -> (r: bool)
        requires
            end <= self.commits.len(),
        ensures
            r == (exists|j: int| 0 <= j < end && (#[trigger] self@.commits[j]).id == id),
    {
        let mut j: usize = 0;
        while j < end
            invariant
                j <= end <= self.commits.len(),
                forall|t: int| 0 <= t < j ==> (#[trigger] self@.commits[t]).id != id,
            decreases end - j,
        {
            assert(self@.commits[j as int] == self.commits@[j as int]@);
            if self.commits[j].id.eq_id(&id) {
                assert(self@.commits[j as int].id == id);
                return true;
            }
            j = j + 1;
        }
        false
    }

    /// Every snapshot held by this type is well-formed.
    pub open spec fn inv(&self) -> bool {
        self@.wf()
    }

    /// Validates and builds a snapshot. Fails with [`Error::Protocol`] when
    /// the pieces do not form a well-formed snapshot: commits must come in
    /// topological order with unique ids, branches must have unique names
    /// and point (with their known upstreams) at commits of the snapshot,
    /// and HEAD must point at a commit and agree with the branch it sits on.
    pub fn new(
        commits: Vec<Commit>,
        branches: Vec<Branch>,
        head_id: CommitId,
        head_branch: Option<String>,
        dirty: bool,
        push_remote: String,
        pull_remote: String,
    ) -> (r: Result<Repo, Error>)
        ensures
            match r {
                Ok(repo) => repo.inv() && repo@ == (RepoView {
                    commits: commits@.map_values(|c: Commit| c@),
                    branches: branches@.map_values(|b: Branch| b@),
                    head_id,
                    head_branch: match head_branch {
                        Some(s) => Some(s@),
                        None => None,
                    },
                    dirty,
                    push_remote: push_remote@,
                    pull_remote: pull_remote@,
                }),
                Err(e) => e == Error::Protocol && !(RepoView {
                    commits: commits@.map_values(|c: Commit| c@),
                    branches: branches@.map_values(|b: Branch| b@),
                    head_id,
                    head_branch: match head_branch {
                        Some(s) => Some(s@),
                        None => None,
                    },
                    dirty,
                    push_remote: push_remote@,
                    pull_remote: pull_remote@,
                }).wf(),
            },
    {
        let repo = Repo { commits, branches, head_id, head_branch, dirty, push_remote, pull_remote };
        if repo.check_wf() {
            Ok(repo)
        } else {
            Err(Error::Protocol)
        }
    }

    /// Checks full well-formedness of the snapshot.
    fn check_wf(&self) -> (r: bool)
        ensures
            r == self@.wf(),
    {
        self.check_graph_wf() && self.check_branches_wf() && self.check_head_wf()
    }

    /// Checks that commit ids are unique and parents come before children.
    fn check_graph_wf(&self) -> (r: bool)
        ensures
            r == self@.graph_wf(),
    {
        let ghost cs = self@.commits;
        let n = self.commits.len();
        let mut i: usize = 0;
        while i < n
            invariant
                i <= n == self.commits.len(),
                forall|a: int, b: int| 0 <= a < b < n && a < i ==> cs[a].id != cs[b].id,
            decreases n - i,
        {
            let mut j: usize = i + 1;
            while j < n
                invariant
                    i < j <= n,
                    n == self.commits.len(),
                    forall|b: int| i < b < j ==> cs[i as int].id != cs[b].id,
                decreases n - j,
            {
                if self.commits[i].id.eq_id(&self.commits[j].id) {
                    assert(cs[i as int].id == cs[j as int].id);
                    assert(!self@.ids_unique());
                    return false;
                }
                j = j + 1;
            }
            i = i + 1;
        }
        assert(self@.ids_unique());

        let mut i: usize = 0;
        while i < n
            invariant
                i <= n == self.commits.len(),
                self@.ids_unique(),
                forall|a: int, k: int|
                    0 <= a < i && 0 <= k < cs[a].parent_ids.len() ==> #[trigger] self@
                        .parent_in_prefix(a, k),
            decreases n - i,
        {
            let pn = self.commits[i].parent_ids.len();
            let mut k: usize = 0;
            while k < pn
                invariant
                    i < n == self.commits.len(),
                    k <= pn == self.commits@[i as int].parent_ids.len(),
                    self@.ids_unique(),
                    forall|t: int| 0 <= t < k ==> #[trigger] self@.parent_in_prefix(i as int, t),
                decreases pn - k,
            {
                let p = self.commits[i].parent_ids[k];
                assert(p == cs[i as int].parent_ids[k as int]);
                if !self.find_upto(p, i) {
                    assert(!self@.parent_in_prefix(i as int, k as int));
                    assert(!self@.parents_before());
                    return false;
                }
                assert(self@.parent_in_prefix(i as int, k as int));
                k = k + 1;
            }
            i = i + 1;
        }
        assert(self@.parents_before());
        true
    }

    /// Checks branch well-formedness.
    fn check_branches_wf(&self) -> (r: bool)
        ensures
            r == self@.branches_wf(),
    {
        let ghost bs = self@.branches;
        let ghost cs = self@.commits;
        let n = self.branches.len();
        let cn = self.commits.len();
        let mut i: usize = 0;
        while i < n
            invariant
                i <= n == self.branches.len(),
                cn == self.commits.len(),
                forall|a: int| 0 <= a < i ==> self@.contains_commit(#[trigger] bs[a].id),
                forall|a: int| 0 <= a < i ==> match #[trigger] bs[a].push_id {
                    Some(p) => self@.contains_commit(p),
                    None => true,
                },
                forall|a: int| 0 <= a < i ==> match #[trigger] bs[a].pull_id {
                    Some(p) => self@.contains_commit(p),
                    None => true,
                },
            decreases n - i,
        {
            if !self.find_upto(self.branches[i].id, cn) {
                assert(!self@.contains_commit(bs[i as int].id));
                return false;
            }
            assert(self@.contains_commit(bs[i as int].id));
            match self.branches[i].push_id {
                Some(p) => {
                    if !self.find_upto(p, cn) {
                        assert(bs[i as int].push_id == Some(p));
                        return false;
                    }
                },
                None => {},
            }
            match self.branches[i].pull_id {
                Some(p) => {
                    if !self.find_upto(p, cn) {
                        assert(bs[i as int].pull_id == Some(p));
                        return false;
                    }
                },
                None => {},
            }
            i = i + 1;
        }
        let mut i: usize = 0;
        while i < n
            invariant
                i <= n == self.branches.len(),
                forall|a: int| 0 <= a < n ==> self@.contains_commit(#[trigger] bs[a].id),
                forall|a: int| 0 <= a < n ==> match #[trigger] bs[a].push_id {
                    Some(p) => self@.contains_commit(p),
                    None => true,
                },
                forall|a: int| 0 <= a < n ==> match #[trigger] bs[a].pull_id {
                    Some(p) => self@.contains_commit(p),
                    None => true,
                },
                forall|a: int, b: int| 0 <= a < b < n && a < i ==> bs[a].name != bs[b].name,
            decreases n - i,
        {
            let mut j: usize = i + 1;
            while j < n
                invariant
                    i < j <= n,
                    n == self.branches.len(),
                    forall|b: int| i < b < j ==> bs[i as int].name != bs[b].name,
                decreases n - j,
            {
                if self.branches[i].name == self.branches[j].name {
                    assert(bs[i as int].name == bs[j as int].name);
                    return false;
                }
                j = j + 1;
            }
            i = i + 1;
        }
        true
    }

    /// Checks that HEAD is consistent with the snapshot.
    fn check_head_wf(&self) -> (r: bool)
        ensures
            r == self@.head_wf(),
    {
        let ghost bs = self@.branches;
        if !self.find_upto(self.head_id, self.commits.len()) {
            assert(!self@.contains_commit(self@.head_id));
            return false;
        }
        assert(self@.contains_commit(self@.head_id));
        match &self.head_branch {
            None => true,
            Some(name) => {
                let n = self.branches.len();
                let mut i: usize = 0;
                while i < n
                    invariant
                        i <= n == self.branches.len(),
                        self@.contains_commit(self@.head_id),
                        self@.head_branch == Some(name@),
                        forall|a: int|
                            0 <= a < i ==> !(#[trigger] bs[a].name == name@ && bs[a].id
                                == self@.head_id),
                    decreases n - i,
                {
                    if self.branches[i].name == *name && self.branches[i].id.eq_id(&self.head_id) {
                        assert(bs[i as int].name == name@ && bs[i as int].id == self@.head_id);
                        return true;
                    }
                    i = i + 1;
                }
                false
            },
        }
    }
}

impl Repo {
    /// The id HEAD points at.
    pub fn head_id(&self) -> (r: CommitId)
        ensures
            r == self@.head_id,
    {
        self.head_id
    }

    /// The name of the branch HEAD sits on, or `None` when detached.
    pub fn head_branch_name(&self) -> (r: Option<String>)
        ensures
            match r {
                Some(n) => self@.head_branch == Some(n@),
                None => self@.head_branch is None,
            },
    {
        match &self.head_branch {
            Some(n) => Some(n.clone()),
            None => None,
        }
    }

    /// Whether the working tree was dirty when the snapshot was taken.
    pub fn is_dirty(&self) -> (r: bool)
        ensures
            r == self@.dirty,
    {
        self.dirty
    }

    /// The remote used for pushes.
    pub fn push_remote(&self) -> (r: &String)
        ensures
            r@ == self@.push_remote,
    {
        &self.push_remote
    }

    /// The remote used for pulls.
    pub fn pull_remote(&self) -> (r: &String)
        ensures
            r@ == self@.pull_remote,
    {
        &self.pull_remote
    }

    /// Replaces the push remote name.
    pub fn set_push_remote(&mut self, remote: String)
        ensures
            final(self)@ == (RepoView { push_remote: remote@, ..old(self)@ }),
            old(self).inv() ==> final(self).inv(),
    {
        self.push_remote = remote;
        proof {
            if old(self)@.wf() {
                old(self)@.lemma_wf_same_refs(self@);
            }
        }
    }

    /// Replaces the pull remote name.
    pub fn set_pull_remote(&mut self, remote: String)
        ensures
            final(self)@ == (RepoView { pull_remote: remote@, ..old(self)@ }),
            old(self).inv() ==> final(self).inv(),
    {
        self.pull_remote = remote;
        proof {
            if old(self)@.wf() {
                old(self)@.lemma_wf_same_refs(self@);
            }
        }
    }

    /// A copy of every local branch, in snapshot order.
    pub fn local_branches(&self) -> (r: Vec<Branch>)
        ensures
            r@.map_values(|b: Branch| b@) == self@.branches,
    {
        let mut r: Vec<Branch> = Vec::new();
        let mut i: usize = 0;
        while i < self.branches.len()
            invariant
                i <= self.branches.len(),
                r@.map_values(|b: Branch| b@) == self@.branches.subrange(0, i as int),
            decreases self.branches.len() - i,
        {
            r.push(self.branches[i].clone());
            assert(r@.map_values(|b: Branch| b@) =~= self@.branches.subrange(0, i + 1));
            i = i + 1;
        }
        assert(r@.map_values(|b: Branch| b@) =~= self@.branches);
        r
    }

    /// Looks a local branch up by name.
    pub fn find_local_branch(&self, name: &String) -> (r: Option<Branch>)
        requires
            self.inv(),
        ensures
            match r {
                Some(b) => self@.contains_branch(name@) && b@ == self@.branch_of(name@),
                None => !self@.contains_branch(name@),
            },
    {
        let mut i: usize = 0;
        while i < self.branches.len()
            invariant
                self.inv(),
                i <= self.branches.len(),
                forall|t: int| 0 <= t < i ==> (#[trigger] self@.branches[t]).name != name@,
            decreases self.branches.len() - i,
        {
            assert(self@.branches[i as int] == self.branches@[i as int]@);
            if self.branches[i].name == *name {
                let b = self.branches[i].clone();
                proof {
                    self@.lemma_branch_idx(name@);
                }
                return Some(b);
            }
            i = i + 1;
        }
        None
    }

    /// Whether the snapshot holds a commit with this id.
    pub fn has_commit(&self, id: CommitId) -> (r: bool)
        ensures
            r == self@.contains_commit(id),
    {
        self.find_upto(id, self.commits.len())
    }

    /// Looks a commit up by id.
    pub fn find_commit(&self, id: CommitId) -> (r: Option<Commit>)
        requires
            self.inv(),
        ensures
            match r {
                Some(c) => self@.contains_commit(id) && c@ == self@.commit_of(id),
                None => !self@.contains_commit(id),
            },
    {
        let mut i: usize = 0;
        while i < self.commits.len()
            invariant
                self.inv(),
                i <= self.commits.len(),
                forall|t: int| 0 <= t < i ==> (#[trigger] self@.commits[t]).id != id,
            decreases self.commits.len() - i,
        {
            assert(self@.commits[i as int] == self.commits@[i as int]@);
            if self.commits[i].id.eq_id(&id) {
                let c = self.commits[i].clone();
                proof {
                    self@.lemma_idx(id);
                }
                return Some(c);
            }
            i = i + 1;
        }
        None
    }

    /// The ids of the first-parent ancestry chain from `tip` down to the
    /// root, `tip` first.
    pub fn chain_ids(&self, tip: CommitId) -> (r: Vec<CommitId>)
        requires
            self.inv(),
            self@.contains_commit(tip),
        ensures
            r@ == self@.chain(tip),
    {
        let mut r: Vec<CommitId> = Vec::new();
        let mut cur = tip;
        loop
            invariant
                self.inv(),
                self@.contains_commit(cur),
                r@ + self@.chain(cur) == self@.chain(tip),
            decreases self@.idx_of(cur),
        {
            let c = match self.find_commit(cur) {
                Some(c) => c,
                None => {
                    proof {
                        assert(false);
                    }
                    break ;
                },
            };
            r.push(cur);
            if c.parent_ids.len() == 0 {
                assert(self@.chain(cur) =~= seq![cur]);
                assert(r@ =~= self@.chain(tip));
                break ;
            }
            proof {
                self@.lemma_chain_step(cur);
                assert(self@.chain(cur) == seq![cur] + self@.chain(c@.parent_ids[0]));
                assert(r@ + self@.chain(c@.parent_ids[0]) =~= self@.chain(tip));
            }
            cur = c.parent_ids[0];
        }
        r
    }

    /// The commits of the first-parent ancestry walk from `tip`, in order,
    /// `tip`'s commit first.
    pub fn commits_from(&self, tip: CommitId) -> (r: Vec<Commit>)
        requires
            self.inv(),
            self@.contains_commit(tip),
        ensures
            r@.map_values(|c: Commit| c@) == self@.chain_commits(tip),
    {
        let ids = self.chain_ids(tip);
        proof {
            self@.lemma_chain_shape(tip);
        }
        let mut r: Vec<Commit> = Vec::new();
        let mut i: usize = 0;
        while i < ids.len()
            invariant
                self.inv(),
                ids@ == self@.chain(tip),
                forall|k: int|
                    0 <= k < ids@.len() ==> self@.contains_commit(#[trigger] ids@[k]),
                i <= ids.len(),
                r@.map_values(|c: Commit| c@) == self@.chain_commits(tip).subrange(0, i as int),
            decreases ids.len() - i,
        {
            let c = match self.find_commit(ids[i]) {
                Some(c) => c,
                None => {
                    proof {
                        assert(false);
                    }
                    break ;
                },
            };
            r.push(c);
            assert(r@.map_values(|c: Commit| c@) =~= self@.chain_commits(tip).subrange(
                0,
                i + 1,
            ));
            i = i + 1;
        }
        assert(r@.map_values(|c: Commit| c@) =~= self@.chain_commits(tip));
        r
    }

    /// The best common first-parent ancestor of `a` and `b`, or `None` when
    /// their histories are disjoint.
    pub fn merge_base(&self, a: CommitId, b: CommitId) -> (r: Option<CommitId>)
        requires
            self.inv(),
            self@.contains_commit(a),
            self@.contains_commit(b),
        ensures
            r == self@.spec_merge_base(a, b),
    {
        let cb = self.chain_ids(b);
        let ca = self.chain_ids(a);
        assert(ca@.subrange(0, ca@.len() as int) =~= ca@);
        let mut i: usize = 0;
        while i < ca.len()
            invariant
                ca@ == self@.chain(a),
                cb@ == self@.chain(b),
                i <= ca.len(),
                first_common(ca@.subrange(i as int, ca@.len() as int), cb@) == first_common(
                    ca@,
                    cb@,
                ),
            decreases ca.len() - i,
        {
            let ghost tail = ca@.subrange(i as int, ca@.len() as int);
            if ids_contain(&cb, ca[i]) {
                assert(tail[0] == ca@[i as int]);
                return Some(ca[i]);
            }
            assert(tail.drop_first() =~= ca@.subrange(i + 1, ca@.len() as int));
            i = i + 1;
        }
        assert(ca@.subrange(ca@.len() as int, ca@.len() as int) =~= Seq::<CommitId>::empty());
        None
    }

    /// Whether `a` is `b` or a first-parent ancestor of `b`.
    pub fn is_ancestor_of(&self, a: CommitId, b: CommitId) -> (r: bool)
        requires
            self.inv(),
            self@.contains_commit(b),
        ensures
            r == self@.is_ancestor(a, b),
    {
        let cb = self.chain_ids(b);
        ids_contain(&cb, a)
    }
}

impl Repo {
    /// Detaches HEAD, leaving it at the same commit.
    pub fn detach(&mut self)
        requires
            old(self).inv(),
        ensures
            final(self).inv(),
            final(self)@ == (RepoView { head_branch: None, ..old(self)@ }),
    {
        self.head_branch = None;
        proof {
            old(self)@.lemma_graph_wf_same_commits(self@);
            old(self)@.lemma_branches_wf_same(self@);
            old(self)@.lemma_contains_same_commits(self@, self@.head_id);
        }
    }

    /// Moves HEAD to this commit, detached. Fails with [`Error::NotFound`]
    /// when no commit has the id; nothing changes then.
    pub fn switch_commit(&mut self, id: CommitId) -> (r: Result<(), Error>)
        requires
            old(self).inv(),
        ensures
            final(self).inv(),
            match r {
                Ok(()) => old(self)@.contains_commit(id) && final(self)@ == (RepoView {
                    head_id: id,
                    head_branch: None,
                    ..old(self)@
                }),
                Err(e) => e == Error::NotFound && !old(self)@.contains_commit(id) && final(self)@
                    == old(self)@,
            },
    {
        if !self.find_upto(id, self.commits.len()) {
            return Err(Error::NotFound);
        }
        self.head_id = id;
        self.head_branch = None;
        proof {
            old(self)@.lemma_graph_wf_same_commits(self@);
            old(self)@.lemma_branches_wf_same(self@);
            old(self)@.lemma_contains_same_commits(self@, self@.head_id);
        }
        Ok(())
    }

    /// Moves HEAD onto this branch. Fails with [`Error::NotFound`] when no
    /// branch has the name; nothing changes then.
    pub fn switch(&mut self, name: &String) -> (r: Result<(), Error>)
        requires
            old(self).inv(),
        ensures
            final(self).inv(),
            match r {
                Ok(()) => old(self)@.contains_branch(name@) && final(self)@ == (RepoView {
                    head_id: old(self)@.branch_of(name@).id,
                    head_branch: Some(name@),
                    ..old(self)@
                }),
                Err(e) => e == Error::NotFound && !old(self)@.contains_branch(name@) && final(self)@
                    == old(self)@,
            },
    {
        let b = match self.find_local_branch(name) {
            Some(b) => b,
            None => {
                return Err(Error::NotFound);
            },
        };
        self.head_id = b.id;
        self.head_branch = Some(b.name);
        proof {
            old(self)@.lemma_branch_idx(name@);
            old(self)@.lemma_graph_wf_same_commits(self@);
            old(self)@.lemma_branches_wf_same(self@);
            let k = old(self)@.branch_idx_of(name@);
            old(self)@.lemma_contains_same_commits(self@, self@.head_id);
            assert(self@.branches[k].name == name@ && self@.branches[k].id == self@.head_id);
        }
        Ok(())
    }

    /// Creates the branch at this commit, or moves it there when it already
    /// exists; when HEAD sits on the branch, HEAD follows. Fails with
    /// [`Error::NotFound`] when no commit has the id; nothing changes then.
    pub fn upsert_branch(&mut self, name: &String, id: CommitId) -> (r: Result<(), Error>)
        requires
            old(self).inv(),
        ensures
            final(self).inv(),
            match r {
                Ok(()) => old(self)@.contains_commit(id) && (if old(self)@.contains_branch(
                    name@,
                ) {
                    final(self)@ == (RepoView {
                        branches: old(self)@.branches.update(
                            old(self)@.branch_idx_of(name@),
                            BranchView {
                                id,
                                ..old(self)@.branches[old(self)@.branch_idx_of(name@)]
                            },
                        ),
                        head_id: if old(self)@.head_branch == Some(name@) {
                            id
                        } else {
                            old(self)@.head_id
                        },
                        ..old(self)@
                    })
                } else {
                    final(self)@ == (RepoView {
                        branches: old(self)@.branches.push(
                            BranchView { name: name@, id, push_id: None, pull_id: None },
                        ),
                        ..old(self)@
                    })
                }),
                Err(e) => e == Error::NotFound && !old(self)@.contains_commit(id) && final(self)@
                    == old(self)@,
            },
    {
        if !self.find_upto(id, self.commits.len()) {
            return Err(Error::NotFound);
        }
        assert(self@.contains_commit(id));
        let ghost pre = self@;
        let n = self.branches.len();
        let mut k: usize = 0;
        while k < n
            invariant
                self.inv(),
                self@ == pre,
                n == self.branches.len(),
                k <= n,
                forall|t: int| 0 <= t < k ==> (#[trigger] self@.branches[t]).name != name@,
            decreases n - k,
        {
            assert(self@.branches[k as int] == self.branches@[k as int]@);
            if self.branches[k].name == *name {
                proof {
                    pre.lemma_branch_idx(name@);
                    assert(pre.branch_idx_of(name@) == k as int);
                }
                let e = vstd::std_specs::vec::vec_index_mut(&mut self.branches, k);
                e.id = id;
                let attached = match &self.head_branch {
                    Some(h) => *h == *name,
                    None => false,
                };
                if attached {
                    self.head_id = id;
                }
                proof {
                    assert(self@.branches =~= pre.branches.update(
                        k as int,
                        BranchView { id, ..pre.branches[k as int] },
                    ));
                    self.lemma_upsert_wf(pre, k as int, id);
                }
                return Ok(());
            }
            k = k + 1;
        }
        assert(!pre.contains_branch(name@));
        self.branches.push(Branch { name: name.clone(), id, push_id: None, pull_id: None });
        proof {
            assert(self@.branches =~= pre.branches.push(
                BranchView { name: name@, id, push_id: None, pull_id: None },
            ));
            self.lemma_add_branch_wf(pre, name@, id);
        }
        Ok(())
    }

    /// Deletes the branch with this name; when HEAD sat on it, HEAD stays
    /// at the same commit, detached. Fails with [`Error::NotFound`] when no
    /// branch has the name; nothing changes then.
    pub fn delete_branch(&mut self, name: &String) -> (r: Result<(), Error>)
        requires
            old(self).inv(),
        ensures
            final(self).inv(),
            match r {
                Ok(()) => old(self)@.contains_branch(name@) && final(self)@ == (RepoView {
                    branches: old(self)@.branches.remove(old(self)@.branch_idx_of(name@)),
                    head_branch: if old(self)@.head_branch == Some(name@) {
                        None
                    } else {
                        old(self)@.head_branch
                    },
                    ..old(self)@
                }),
                Err(e) => e == Error::NotFound && !old(self)@.contains_branch(name@) && final(self)@
                    == old(self)@,
            },
    {
        let ghost pre = self@;
        let n = self.branches.len();
        let mut k: usize = 0;
        while k < n
            invariant
                self.inv(),
                self@ == pre,
                n == self.branches.len(),
                k <= n,
                forall|t: int| 0 <= t < k ==> (#[trigger] self@.branches[t]).name != name@,
            decreases n - k,
        {
            assert(self@.branches[k as int] == self.branches@[k as int]@);
            if self.branches[k].name == *name {
                proof {
                    pre.lemma_branch_idx(name@);
                    assert(pre.branch_idx_of(name@) == k as int);
                }
                self.branches.remove(k);
                let detach = match &self.head_branch {
                    Some(h) => *h == *name,
                    None => false,
                };
                if detach {
                    self.head_branch = None;
                }
                proof {
                    assert(self@.branches =~= pre.branches.remove(k as int));
                    self.lemma_remove_branch_wf(pre, k as int);
                }
                return Ok(());
            }
            k = k + 1;
        }
        assert(!pre.contains_branch(name@));
        Err(Error::NotFound)
    }

    /// Proof that moving branch `k` to a contained commit, with HEAD
    /// following when attached to it, keeps the snapshot well-formed.
    proof fn lemma_upsert_wf(&self, pre: RepoView, k: int, id: CommitId)
        requires
            pre.wf(),
            0 <= k < pre.branches.len(),
            pre.contains_commit(id),
            self@.commits == pre.commits,
            self@.branches == pre.branches.update(k, BranchView { id, ..pre.branches[k] }),
            self@.head_branch == pre.head_branch,
            self@.head_id == if pre.head_branch == Some(pre.branches[k].name) {
                id
            } else {
                pre.head_id
            },
        ensures
            self@.wf(),
    {
        let v = self@;
        pre.lemma_graph_wf_same_commits(v);
        assert forall|t: int| 0 <= t < v.branches.len() implies v.contains_commit(
            #[trigger] v.branches[t].id,
        ) by {
            if t == k {
                pre.lemma_contains_same_commits(v, id);
            } else {
                pre.lemma_contains_same_commits(v, pre.branches[t].id);
            }
        }
        assert forall|t: int|
            0 <= t < v.branches.len() implies match #[trigger] v.branches[t].push_id {
            Some(p) => v.contains_commit(p),
            None => true,
        } by {
            match pre.branches[t].push_id {
                Some(p) => {
                    pre.lemma_contains_same_commits(v, p);
                    assert(v.branches[t].push_id == Some(p));
                },
                None => {},
            }
        }
        assert forall|t: int|
            0 <= t < v.branches.len() implies match #[trigger] v.branches[t].pull_id {
            Some(p) => v.contains_commit(p),
            None => true,
        } by {
            match pre.branches[t].pull_id {
                Some(p) => {
                    pre.lemma_contains_same_commits(v, p);
                    assert(v.branches[t].pull_id == Some(p));
                },
                None => {},
            }
        }
        assert forall|i: int, j: int| 0 <= i < j < v.branches.len() implies v.branches[i].name
            != v.branches[j].name by {
            assert(pre.branches[i].name != pre.branches[j].name);
        }
        pre.lemma_contains_same_commits(v, v.head_id);
        match pre.head_branch {
            Some(n) => {
                let t = choose|t: int|
                    0 <= t < pre.branches.len() && pre.branches[t].name == n && pre.branches[t].id
                        == pre.head_id;
                if n == pre.branches[k].name {
                    pre.lemma_branch_idx(n);
                    assert(t == k);
                    assert(v.branches[k].name == n && v.branches[k].id == v.head_id);
                } else {
                    assert(v.branches[t].name == n && v.branches[t].id == v.head_id);
                }
            },
            None => {},
        }
    }

    /// Proof that adding a branch with a new name at a contained commit
    /// keeps the snapshot well-formed.
    proof fn lemma_add_branch_wf(&self, pre: RepoView, name: Seq<char>, id: CommitId)
        requires
            pre.wf(),
            !pre.contains_branch(name),
            pre.contains_commit(id),
            self@.commits == pre.commits,
            self@.branches == pre.branches.push(
                BranchView { name, id, push_id: None, pull_id: None },
            ),
            self@.head_branch == pre.head_branch,
            self@.head_id == pre.head_id,
        ensures
            self@.wf(),
    {
        let v = self@;
        pre.lemma_graph_wf_same_commits(v);
        let n = pre.branches.len() as int;
        assert forall|t: int| 0 <= t < v.branches.len() implies v.contains_commit(
            #[trigger] v.branches[t].id,
        ) by {
            if t < n {
                pre.lemma_contains_same_commits(v, pre.branches[t].id);
            } else {
                pre.lemma_contains_same_commits(v, id);
            }
        }
        assert forall|t: int|
            0 <= t < v.branches.len() implies match #[trigger] v.branches[t].push_id {
            Some(p) => v.contains_commit(p),
            None => true,
        } by {
            if t < n {
                match pre.branches[t].push_id {
                    Some(p) => {
                        pre.lemma_contains_same_commits(v, p);
                        assert(v.branches[t].push_id == Some(p));
                    },
                    None => {},
                }
            }
        }
        assert forall|t: int|
            0 <= t < v.branches.len() implies match #[trigger] v.branches[t].pull_id {
            Some(p) => v.contains_commit(p),
            None => true,
        } by {
            if t < n {
                match pre.branches[t].pull_id {
                    Some(p) => {
                        pre.lemma_contains_same_commits(v, p);
                        assert(v.branches[t].pull_id == Some(p));
                    },
                    None => {},
                }
            }
        }
        assert forall|i: int, j: int| 0 <= i < j < v.branches.len() implies v.branches[i].name
            != v.branches[j].name by {
            if j < n {
                assert(pre.branches[i].name != pre.branches[j].name);
            } else {
                assert(v.branches[j].name == name);
                assert(pre.branches[i].name != name);
            }
        }
        pre.lemma_contains_same_commits(v, v.head_id);
        match pre.head_branch {
            Some(hb) => {
                let t = choose|t: int|
                    0 <= t < pre.branches.len() && pre.branches[t].name == hb && pre.branches[t].id
                        == pre.head_id;
                assert(v.branches[t].name == hb && v.branches[t].id == v.head_id);
            },
            None => {},
        }
    }

    /// Proof that removing branch `k`, detaching HEAD when it sat on it,
    /// keeps the snapshot well-formed.
    proof fn lemma_remove_branch_wf(&self, pre: RepoView, k: int)
        requires
            pre.wf(),
            0 <= k < pre.branches.len(),
            self@.commits == pre.commits,
            self@.branches == pre.branches.remove(k),
            self@.head_id == pre.head_id,
            self@.head_branch == if pre.head_branch == Some(pre.branches[k].name) {
                None
            } else {
                pre.head_branch
            },
        ensures
            self@.wf(),
    {
        let v = self@;
        pre.lemma_graph_wf_same_commits(v);
        assert forall|t: int| 0 <= t < v.branches.len() implies v.contains_commit(
            #[trigger] v.branches[t].id,
        ) by {
            let s = if t < k {
                t
            } else {
                t + 1
            };
            assert(v.branches[t] == pre.branches[s]);
            pre.lemma_contains_same_commits(v, pre.branches[s].id);
        }
        assert forall|t: int|
            0 <= t < v.branches.len() implies match #[trigger] v.branches[t].push_id {
            Some(p) => v.contains_commit(p),
            None => true,
        } by {
            let s = if t < k {
                t
            } else {
                t + 1
            };
            assert(v.branches[t] == pre.branches[s]);
            match pre.branches[s].push_id {
                Some(p) => {
                    pre.lemma_contains_same_commits(v, p);
                },
                None => {},
            }
        }
        assert forall|t: int|
            0 <= t < v.branches.len() implies match #[trigger] v.branches[t].pull_id {
            Some(p) => v.contains_commit(p),
            None => true,
        } by {
            let s = if t < k {
                t
            } else {
                t + 1
            };
            assert(v.branches[t] == pre.branches[s]);
            match pre.branches[s].pull_id {
                Some(p) => {
                    pre.lemma_contains_same_commits(v, p);
                },
                None => {},
            }
        }
        assert forall|i: int, j: int| 0 <= i < j < v.branches.len() implies v.branches[i].name
            != v.branches[j].name by {
            let si = if i < k {
                i
            } else {
                i + 1
            };
            let sj = if j < k {
                j
            } else {
                j + 1
            };
            assert(v.branches[i] == pre.branches[si]);
            assert(v.branches[j] == pre.branches[sj]);
            assert(pre.branches[si].name != pre.branches[sj].name);
        }
        pre.lemma_contains_same_commits(v, v.head_id);
        match v.head_branch {
            Some(hb) => {
                pre.lemma_branch_idx(hb);
                let t = pre.branch_idx_of(hb);
                assert(pre.branches[t].name == hb && pre.branches[t].id == pre.head_id);
                assert(t != k);
                let s = if t < k {
                    t
                } else {
                    t - 1
                };
                assert(v.branches[s] == pre.branches[t]);
                assert(v.branches[s].name == hb && v.branches[s].id == v.head_id);
            },
            None => {},
        }
    }
}

impl Repo {
    /// The id the next created commit will receive: the successor of the
    /// greatest id in the snapshot. `None` when the id space is exhausted.
    fn fresh_id(&self) -> (r: Option<CommitId>)
        ensures
            match r {
                Some(n) => self@.fresh_ok() && n == self@.spec_fresh_id(),
                None => !self@.fresh_ok(),
            },
    {
        let mut best = CommitId::from_number(0);
        let mut i: usize = 0;
        while i < self.commits.len()
            invariant
                i <= self.commits.len(),
                best == max_id_of(self@.commits.subrange(0, i as int)),
            decreases self.commits.len() - i,
        {
            let ghost pre = self@.commits.subrange(0, i as int);
            assert(self@.commits[i as int] == self.commits@[i as int]@);
            let c = self.commits[i].id;
            if best.lt_id(&c) {
                best = c;
            }
            proof {
                let post = self@.commits.subrange(0, i + 1);
                assert(post.drop_last() =~= pre);
                assert(post.last().id == c);
            }
            i = i + 1;
        }
        assert(self@.commits.subrange(0, self.commits@.len() as int) =~= self@.commits);
        best.next()
    }

    /// Creates a commit on top of the detached HEAD carrying the tree and
    /// summary of commit `id`, and moves HEAD to it; the model of a
    /// cherry-pick, in which picking a commit keeps its tree. Fails with
    /// [`Error::NotFound`] when no commit has the id, with
    /// [`Error::Conflict`] when that commit is a merge commit (its changes
    /// cannot be linearized), and with [`Error::Protocol`] when the id space
    /// is exhausted; nothing changes on failure.
    pub fn cherry_pick(&mut self, id: CommitId) -> (r: Result<CommitId, Error>)
        requires
            old(self).inv(),
            old(self)@.head_branch is None,
        ensures
            final(self).inv(),
            match r {
                Ok(n) => {
                    &&& old(self)@.contains_commit(id)
                    &&& old(self)@.commit_of(id).parent_ids.len() <= 1
                    &&& old(self)@.fresh_ok()
                    &&& n == old(self)@.spec_fresh_id()
                    &&& final(self)@ == old(self)@.with_new_commit(
                        old(self)@.commit_of(id).tree_id,
                        seq![old(self)@.head_id],
                        old(self)@.commit_of(id).summary,
                    )
                },
                Err(e) => final(self)@ == old(self)@ && match e {
                    Error::NotFound => !old(self)@.contains_commit(id),
                    Error::Conflict => old(self)@.contains_commit(id) && old(self)@.commit_of(
                        id,
                    ).parent_ids.len() > 1,
                    Error::Protocol => old(self)@.contains_commit(id) && old(self)@.commit_of(
                        id,
                    ).parent_ids.len() <= 1 && !old(self)@.fresh_ok(),
                    _ => false,
                },
            },
    {
        let picked = match self.find_commit(id) {
            Some(c) => c,
            None => {
                return Err(Error::NotFound);
            },
        };
        if picked.parent_ids.len() > 1 {
            return Err(Error::Conflict);
        }
        let nid = match self.fresh_id() {
            Some(n) => n,
            None => {
                return Err(Error::Protocol);
            },
        };
        let parent = self.head_id;
        let mut parent_vec: Vec<CommitId> = Vec::new();
        parent_vec.push(parent);
        assert(parent_vec@ =~= seq![parent]);
        let c = Commit {
            id: nid,
            tree_id: picked.tree_id,
            parent_ids: parent_vec,
            summary: picked.summary,
        };
        proof {
            old(self)@.lemma_fresh_id_free();
        }
        self.commits.push(c);
        self.head_id = nid;
        proof {
            assert(self@.commits =~~= old(self)@.commits.push(
                CommitView {
                    id: nid,
                    tree_id: old(self)@.commit_of(id).tree_id,
                    parent_ids: seq![old(self)@.head_id],
                    summary: old(self)@.commit_of(id).summary,
                },
            ));
            assert(self@.commits.subrange(0, old(self)@.commits.len() as int) =~= old(
                self,
            )@.commits);
            self.lemma_new_commit_wf(old(self)@, nid);
        }
        Ok(nid)
    }

    /// Replaces the commit at the detached HEAD by one carrying the tree of
    /// commit `id` but the parents and summary of the old HEAD commit, and
    /// moves HEAD to it; the model of squashing `id` into the tip, in which
    /// the combined commit keeps the squashed commit's tree. Fails exactly
    /// as [`Repo::cherry_pick`] does; nothing changes on failure.
    pub fn squash(&mut self, id: CommitId) -> (r: Result<CommitId, Error>)
        requires
            old(self).inv(),
            old(self)@.head_branch is None,
        ensures
            final(self).inv(),
            match r {
                Ok(n) => {
                    &&& old(self)@.contains_commit(id)
                    &&& old(self)@.commit_of(id).parent_ids.len() <= 1
                    &&& old(self)@.fresh_ok()
                    &&& n == old(self)@.spec_fresh_id()
                    &&& final(self)@ == old(self)@.with_new_commit(
                        old(self)@.commit_of(id).tree_id,
                        old(self)@.commit_of(old(self)@.head_id).parent_ids,
                        old(self)@.commit_of(old(self)@.head_id).summary,
                    )
                },
                Err(e) => final(self)@ == old(self)@ && match e {
                    Error::NotFound => !old(self)@.contains_commit(id),
                    Error::Conflict => old(self)@.contains_commit(id) && old(self)@.commit_of(
                        id,
                    ).parent_ids.len() > 1,
                    Error::Protocol => old(self)@.contains_commit(id) && old(self)@.commit_of(
                        id,
                    ).parent_ids.len() <= 1 && !old(self)@.fresh_ok(),
                    _ => false,
                },
            },
    {
        let picked = match self.find_commit(id) {
            Some(c) => c,
            None => {
                return Err(Error::NotFound);
            },
        };
        if picked.parent_ids.len() > 1 {
            return Err(Error::Conflict);
        }
        let nid = match self.fresh_id() {
            Some(n) => n,
            None => {
                return Err(Error::Protocol);
            },
        };
        let tip = match self.find_commit(self.head_id) {
            Some(c) => c,
            None => {
                proof {
                    assert(false);
                }
                return Err(Error::NotFound);
            },
        };
        let c = Commit {
            id: nid,
            tree_id: picked.tree_id,
            parent_ids: tip.parent_ids,
            summary: tip.summary,
        };
        proof {
            old(self)@.lemma_fresh_id_free();
        }
        self.commits.push(c);
        self.head_id = nid;
        proof {
            assert(self@.commits =~~= old(self)@.commits.push(
                CommitView {
                    id: nid,
                    tree_id: old(self)@.commit_of(id).tree_id,
                    parent_ids: old(self)@.commit_of(old(self)@.head_id).parent_ids,
                    summary: old(self)@.commit_of(old(self)@.head_id).summary,
                },
            ));
            assert(self@.commits.subrange(0, old(self)@.commits.len() as int) =~= old(
                self,
            )@.commits);
            let pre = old(self)@;
            pre.lemma_idx(pre.head_id);
            let hi = pre.idx_of(pre.head_id);
            assert forall|k: int|
                0 <= k < pre.commit_of(pre.head_id).parent_ids.len() implies pre.contains_commit(
                #[trigger] pre.commit_of(pre.head_id).parent_ids[k],
            ) by {
                assert(pre.parent_in_prefix(hi, k));
                let j = choose|j: int|
                    0 <= j < hi && pre.commits[j].id == pre.commits[hi].parent_ids[k];
                assert(pre.commits[j].id == pre.commit_of(pre.head_id).parent_ids[k]);
            }
            self.lemma_new_commit_wf(old(self)@, nid);
        }
        Ok(nid)
    }

    /// Proof that appending a fresh commit whose parents are commits of the
    /// snapshot, and moving HEAD to it detached, keeps the snapshot
    /// well-formed.
    proof fn lemma_new_commit_wf(&self, pre: RepoView, nid: CommitId)
        requires
            pre.wf(),
            pre.head_branch is None,
            !pre.contains_commit(nid),
            self@.commits.len() == pre.commits.len() + 1,
            self@.commits.subrange(0, pre.commits.len() as int) == pre.commits,
            self@.commits.last().id == nid,
            forall|k: int|
                0 <= k < self@.commits.last().parent_ids.len() ==> pre.contains_commit(
                    #[trigger] self@.commits.last().parent_ids[k],
                ),
            self@.branches == pre.branches,
            self@.head_id == nid,
            self@.head_branch is None,
        ensures
            self@.wf(),
    {
        let v = self@;
        let n = pre.commits.len() as int;
        assert forall|i: int| 0 <= i < n implies v.commits[i] == pre.commits[i] by {
            assert(v.commits.subrange(0, n)[i] == v.commits[i]);
        }
        assert forall|i: int, j: int| 0 <= i < j < v.commits.len() implies v.commits[i].id
            != v.commits[j].id by {
            if j < n {
                assert(pre.commits[i].id != pre.commits[j].id);
            } else {
                assert(v.commits[j].id == nid);
                if v.commits[i].id == nid {
                    assert(pre.commits[i].id == nid);
                    assert(pre.contains_commit(nid));
                }
            }
        }
        assert forall|i: int, k: int|
            0 <= i < v.commits.len() && 0 <= k
                < v.commits[i].parent_ids.len() implies #[trigger] v.parent_in_prefix(i, k) by {
            if i < n {
                assert(pre.parent_in_prefix(i, k));
                let j = choose|j: int|
                    0 <= j < i && pre.commits[j].id == pre.commits[i].parent_ids[k];
                assert(v.commits[j].id == v.commits[i].parent_ids[k]);
            } else {
                let p = v.commits[i].parent_ids[k];
                assert(pre.contains_commit(p));
                let j = choose|j: int| 0 <= j < n && pre.commits[j].id == p;
                assert(v.commits[j].id == p);
            }
        }
        assert forall|t: int| 0 <= t < v.branches.len() implies v.contains_commit(
            #[trigger] v.branches[t].id,
        ) by {
            let j = choose|j: int|
                0 <= j < n && pre.commits[j].id == pre.branches[t].id;
            assert(v.commits[j].id == v.branches[t].id);
        }
        assert forall|t: int|
            0 <= t < v.branches.len() implies match #[trigger] v.branches[t].push_id {
            Some(p) => v.contains_commit(p),
            None => true,
        } by {
            match pre.branches[t].push_id {
                Some(p) => {
                    let j = choose|j: int| 0 <= j < n && pre.commits[j].id == p;
                    assert(v.commits[j].id == p);
                    assert(v.branches[t].push_id == Some(p));
                },
                None => {},
            }
        }
        assert forall|t: int|
            0 <= t < v.branches.len() implies match #[trigger] v.branches[t].pull_id {
            Some(p) => v.contains_commit(p),
            None => true,
        } by {
            match pre.branches[t].pull_id {
                Some(p) => {
                    let j = choose|j: int| 0 <= j < n && pre.commits[j].id == p;
                    assert(v.commits[j].id == p);
                    assert(v.branches[t].pull_id == Some(p));
                },
                None => {},
            }
        }
        assert forall|i: int, j: int| 0 <= i < j < v.branches.len() implies v.branches[i].name
            != v.branches[j].name by {
            assert(pre.branches[i].name != pre.branches[j].name);
        }
        assert(v.commits[v.commits.len() - 1].id == nid);
        assert(v.contains_commit(nid));
    }
}

/// Whether this id occurs in the vector.
pub fn ids_contain(v: &Vec<CommitId>, id: CommitId) -> (r: bool)
    ensures
        r == v@.contains(id),
{
    let mut i: usize = 0;
    while i < v.len()
        invariant
            i <= v.len(),
            forall|t: int| 0 <= t < i ==> v@[t] != id,
        decreases v.len() - i,
    {
        if v[i].eq_id(&id) {
            return true;
        }
        i = i + 1;
    }
    false
}

} // verus!
