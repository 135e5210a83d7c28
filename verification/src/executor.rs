//! The script executor, interpreted against the in-memory snapshot.
//!
//! Commands run in order. Plan-time commit ids are mapped through a mark
//! table to the ids rewriting produced. When a command of a branch fails,
//! the branch is recorded as failed, the rest of its run is skipped, and
//! every branch whose work sat on the failed commits is recorded as a
//! blocked dependent; independent branches go on. With `dry_run` set, no
//! command changes the snapshot.

use vstd::prelude::*;

use crate::error::Error;
use crate::ids::CommitId;
use crate::repo::{Repo, RepoView};
use crate::script::{Command, CommandView, Script};

verus! {

/// The mathematical state of an [`Executor`].
pub struct ExecView {
    pub dry_run: bool,
    pub marks: Seq<(CommitId, CommitId)>,
    pub failed_marks: Seq<CommitId>,
    pub skipping: bool,
    pub pending: Seq<Seq<char>>,
    pub failures: Seq<Seq<char>>,
    pub blocked: Seq<Seq<char>>,
    pub head_plan: CommitId,
    pub dirty: bool,
}

/// The id a plan-time id came to denote: the latest mark, or the id
/// itself when unmarked.
pub open spec fn mark_of(marks: Seq<(CommitId, CommitId)>, id: CommitId) -> Option<CommitId>
    decreases marks.len(),
{
    if marks.len() == 0 {
        None
    } else if marks.last().0 == id {
        Some(marks.last().1)
    } else {
        mark_of(marks.drop_last(), id)
    }
}

/// Resolves a plan-time id.
pub open spec fn resolve(st: ExecView, id: CommitId) -> CommitId {
    match mark_of(st.marks, id) {
        Some(a) => a,
        None => id,
    }
}

/// The list with the first occurrence of the name removed.
pub open spec fn drop_name(pending: Seq<Seq<char>>, n: Seq<char>) -> Seq<Seq<char>>
    decreases pending.len(),
{
    if pending.len() == 0 {
        pending
    } else if pending[0] == n {
        pending.drop_first()
    } else {
        drop_name(pending.drop_first(), n).insert(0, pending[0])
    }
}

/// The executor state and snapshot after one command.
pub open spec fn spec_step(st: ExecView, repo: RepoView, cmd: CommandView) -> (ExecView, RepoView) {
    match cmd {
        CommandView::RegisterBranch(n) => (ExecView { pending: st.pending.push(n), ..st }, repo),
        CommandView::SwitchCommit(p) => {
            let a = resolve(st, p);
            if !st.failed_marks.contains(p) && repo.contains_commit(a) {
                (
                    ExecView { skipping: false, head_plan: p, ..st },
                    if st.dry_run {
                        repo
                    } else {
                        RepoView { head_id: a, head_branch: None, ..repo }
                    },
                )
            } else {
                (
                    ExecView {
                        skipping: true,
                        blocked: st.blocked + st.pending,
                        pending: Seq::empty(),
                        ..st
                    },
                    repo,
                )
            }
        },
        CommandView::CherryPick(c) => {
            if st.skipping {
                (ExecView { failed_marks: st.failed_marks.push(c), ..st }, repo)
            } else if st.dry_run {
                (ExecView { marks: st.marks.push((c, c)), head_plan: c, ..st }, repo)
            } else if repo.contains_commit(c) && repo.commit_of(c).parent_ids.len() <= 1
                && repo.fresh_ok() && repo.head_branch is None {
                let nid = repo.spec_fresh_id();
                (
                    ExecView {
                        marks: st.marks.push((c, nid)),
                        head_plan: c,
                        dirty: true,
                        ..st
                    },
                    repo.with_new_commit(
                        repo.commit_of(c).tree_id,
                        seq![repo.head_id],
                        repo.commit_of(c).summary,
                    ),
                )
            } else {
                (
                    ExecView {
                        failures: st.failures + st.pending,
                        pending: Seq::empty(),
                        failed_marks: st.failed_marks.push(c),
                        skipping: true,
                        ..st
                    },
                    repo,
                )
            }
        },
        CommandView::Squash(c) => {
            if st.skipping {
                (ExecView { failed_marks: st.failed_marks.push(c), ..st }, repo)
            } else if st.dry_run {
                (
                    ExecView {
                        marks: st.marks.push((st.head_plan, c)).push((c, c)),
                        head_plan: c,
                        ..st
                    },
                    repo,
                )
            } else if repo.contains_commit(c) && repo.commit_of(c).parent_ids.len() <= 1
                && repo.fresh_ok() && repo.head_branch is None {
                let nid = repo.spec_fresh_id();
                (
                    ExecView {
                        marks: st.marks.push((st.head_plan, nid)).push((c, nid)),
                        head_plan: c,
                        dirty: true,
                        ..st
                    },
                    repo.with_new_commit(
                        repo.commit_of(c).tree_id,
                        repo.commit_of(repo.head_id).parent_ids,
                        repo.commit_of(repo.head_id).summary,
                    ),
                )
            } else {
                (
                    ExecView {
                        failures: st.failures + st.pending,
                        pending: Seq::empty(),
                        failed_marks: st.failed_marks.push(c),
                        skipping: true,
                        ..st
                    },
                    repo,
                )
            }
        },
        CommandView::CreateBranch(n, p) => {
            if st.skipping || st.failed_marks.contains(p) {
                (
                    ExecView {
                        blocked: if st.failures.contains(n) || st.blocked.contains(n) {
                            st.blocked
                        } else {
                            st.blocked.push(n)
                        },
                        pending: drop_name(st.pending, n),
                        ..st
                    },
                    repo,
                )
            } else {
                let a = resolve(st, p);
                if repo.contains_commit(a) {
                    (
                        ExecView {
                            pending: drop_name(st.pending, n),
                            dirty: st.dirty || !st.dry_run,
                            ..st
                        },
                        if st.dry_run {
                            repo
                        } else if repo.contains_branch(n) {
                            RepoView {
                                branches: repo.branches.update(
                                    repo.branch_idx_of(n),
                                    crate::repo::BranchView {
                                        id: a,
                                        ..repo.branches[repo.branch_idx_of(n)]
                                    },
                                ),
                                head_id: if repo.head_branch == Some(n) {
                                    a
                                } else {
                                    repo.head_id
                                },
                                ..repo
                            }
                        } else {
                            RepoView {
                                branches: repo.branches.push(
                                    crate::repo::BranchView {
                                        name: n,
                                        id: a,
                                        push_id: None,
                                        pull_id: None,
                                    },
                                ),
                                ..repo
                            }
                        },
                    )
                } else {
                    (
                        ExecView {
                            failures: st.failures.push(n),
                            pending: drop_name(st.pending, n),
                            ..st
                        },
                        repo,
                    )
                }
            }
        },
        CommandView::DeleteBranch(n) => {
            if st.skipping {
                (ExecView { blocked: st.blocked.push(n), ..st }, repo)
            } else if st.dry_run {
                (st, repo)
            } else if repo.contains_branch(n) {
                (
                    ExecView { dirty: true, ..st },
                    RepoView {
                        branches: repo.branches.remove(repo.branch_idx_of(n)),
                        head_branch: if repo.head_branch == Some(n) {
                            None
                        } else {
                            repo.head_branch
                        },
                        ..repo
                    },
                )
            } else {
                (ExecView { failures: st.failures.push(n), ..st }, repo)
            }
        },
        CommandView::SwitchBranch(n) => {
            if repo.contains_branch(n) {
                (
                    ExecView { skipping: false, head_plan: repo.branch_of(n).id, ..st },
                    if st.dry_run {
                        repo
                    } else {
                        RepoView {
                            head_id: repo.branch_of(n).id,
                            head_branch: Some(n),
                            ..repo
                        }
                    },
                )
            } else {
                (
                    ExecView {
                        skipping: true,
                        blocked: st.blocked + st.pending,
                        pending: Seq::empty(),
                        ..st
                    },
                    repo,
                )
            }
        },
    }
}

/// The executor state and snapshot after a whole command list.
pub open spec fn spec_run(st: ExecView, repo: RepoView, cmds: Seq<CommandView>) -> (
    ExecView,
    RepoView,
)
    decreases cmds.len(),
{
    if cmds.len() == 0 {
        (st, repo)
    } else {
        let next = spec_step(st, repo, cmds[0]);
        spec_run(next.0, next.1, cmds.drop_first())
    }
}

/// The starting state of an executor.
pub open spec fn spec_init(dry_run: bool, head_plan: CommitId) -> ExecView {
    ExecView {
        dry_run,
        marks: Seq::empty(),
        failed_marks: Seq::empty(),
        skipping: false,
        pending: Seq::empty(),
        failures: Seq::empty(),
        blocked: Seq::empty(),
        head_plan,
        dirty: false,
    }
}

/// A dry run never changes the snapshot.
pub proof fn lemma_dry_run_pure(st: ExecView, repo: RepoView, cmds: Seq<CommandView>)
    requires
        st.dry_run,
    ensures
        spec_run(st, repo, cmds).1 == repo,
        spec_run(st, repo, cmds).0.dry_run,
        !st.dirty ==> !spec_run(st, repo, cmds).0.dirty,
    decreases cmds.len(),
{
    if cmds.len() > 0 {
        let next = spec_step(st, repo, cmds[0]);
        assert(next.1 == repo);
        assert(next.0.dry_run);
        lemma_dry_run_pure(next.0, next.1, cmds.drop_first());
    }
}

/// Squashing preserves the tree of the squashed commit: after a
/// successful `Squash`, the commit at the new head carries exactly the
/// tree of the commit that was squashed in.
pub proof fn lemma_squash_keeps_tree(st: ExecView, repo: RepoView, c: CommitId)
    requires
        !st.skipping,
        !st.dry_run,
        repo.wf(),
        repo.contains_commit(c),
        repo.commit_of(c).parent_ids.len() <= 1,
        repo.fresh_ok(),
        repo.head_branch is None,
    ensures
        ({
            let after = spec_step(st, repo, CommandView::Squash(c)).1;
            after.commits.last().tree_id == repo.commit_of(c).tree_id && after.head_id
                == after.commits.last().id
        }),
{
}


/// Every successful cherry-pick keeps the base below: the commit it
/// creates sits directly on the old head, so everything that was an
/// ancestor of the head — the onto commit in particular — is an ancestor
/// of the new tip, and the new commit carries exactly the tree of the
/// picked commit.
pub proof fn lemma_pick_extends_ancestry(
    st: ExecView,
    repo: RepoView,
    c: CommitId,
    x: CommitId,
)
    requires
        !st.skipping,
        !st.dry_run,
        repo.wf(),
        repo.contains_commit(c),
        repo.commit_of(c).parent_ids.len() <= 1,
        repo.fresh_ok(),
        repo.head_branch is None,
        repo.is_ancestor(x, repo.head_id),
    ensures
        ({
            let after = spec_step(st, repo, CommandView::CherryPick(c)).1;
            &&& after.head_id == repo.spec_fresh_id()
            &&& after.is_ancestor(x, after.head_id)
            &&& after.contains_commit(after.head_id)
            &&& after.commits.last().tree_id == repo.commit_of(c).tree_id
        }),
{
    let after = spec_step(st, repo, CommandView::CherryPick(c)).1;
    let nid = repo.spec_fresh_id();
    repo.lemma_fresh_id_free();
    assert(after.commits.subrange(0, repo.commits.len() as int) =~= repo.commits);
    assert(after.commits.last().id == nid);
    assert forall|i: int, j: int| 0 <= i < j < after.commits.len() implies after.commits[i].id
        != after.commits[j].id by {
        if j < repo.commits.len() {
            assert(after.commits[i] == repo.commits[i]);
            assert(after.commits[j] == repo.commits[j]);
        } else {
            assert(after.commits[i] == repo.commits[i]);
            if after.commits[i].id == nid {
                assert(repo.contains_commit(nid));
            }
        }
    }
    assert forall|i: int, k: int|
        0 <= i < after.commits.len() && 0 <= k
            < after.commits[i].parent_ids.len() implies #[trigger] after.parent_in_prefix(
        i,
        k,
    ) by {
        if i < repo.commits.len() {
            assert(after.commits[i] == repo.commits[i]);
            assert(repo.parent_in_prefix(i, k));
            let j = choose|j: int| 0 <= j < i && repo.commits[j].id == repo.commits[i].parent_ids[k];
            assert(after.commits[j] == repo.commits[j]);
        } else {
            assert(after.commits[i].parent_ids == seq![repo.head_id]);
            assert(repo.contains_commit(repo.head_id));
            let j = choose|j: int|
                0 <= j < repo.commits.len() && repo.commits[j].id == repo.head_id;
            assert(after.commits[j] == repo.commits[j]);
        }
    }
    assert(after.graph_wf());
    assert(after.contains_commit(nid)) by {
        assert(after.commits[after.commits.len() - 1].id == nid);
    }
    repo.lemma_chain_append_stable(after, repo.head_id);
    after.lemma_idx(nid);
    assert(after.commit_of(nid).parent_ids.len() == 1);
    after.lemma_chain_step(nid);
    assert(after.chain(nid) == seq![nid] + after.chain(repo.head_id));
    assert(after.chain(repo.head_id) == repo.chain(repo.head_id));
    let t = choose|t: int|
        0 <= t < repo.chain(repo.head_id).len() && repo.chain(repo.head_id)[t] == x;
    assert(after.chain(nid)[t + 1] == x);
    assert(after.chain(nid).contains(x));
}

/// The character sequences of a list of strings.
pub open spec fn string_views(v: Seq<String>) -> Seq<Seq<char>> {
    v.map_values(|s: String| s@)
}

/// The character sequences, element by element.
pub proof fn lemma_string_views(v: Seq<String>)
    ensures
        string_views(v).len() == v.len(),
        forall|i: int| 0 <= i < v.len() ==> string_views(v)[i] == (#[trigger] v[i])@,
{
}

/// Pushing a string pushes its characters.
pub proof fn lemma_string_views_push(v: Seq<String>, s: String)
    ensures
        string_views(v.push(s)) == string_views(v).push(s@),
{
    lemma_string_views(v);
    lemma_string_views(v.push(s));
    assert(string_views(v.push(s)) =~= string_views(v).push(s@));
}

/// Concatenating string lists concatenates their characters.
pub proof fn lemma_string_views_concat(a: Seq<String>, b: Seq<String>)
    ensures
        string_views(a + b) == string_views(a) + string_views(b),
{
    lemma_string_views(a);
    lemma_string_views(b);
    lemma_string_views(a + b);
    assert(string_views(a + b) =~= string_views(a) + string_views(b));
}

/// Removing the first occurrence of a present name removes it at its
/// position; an absent name changes nothing.
pub proof fn lemma_drop_name_at(pending: Seq<Seq<char>>, n: Seq<char>, t: int)
    requires
        0 <= t < pending.len(),
        pending[t] == n,
        forall|u: int| 0 <= u < t ==> pending[u] != n,
    ensures
        drop_name(pending, n) == pending.remove(t),
    decreases pending.len(),
{
    if t == 0 {
        assert(pending.drop_first() =~= pending.remove(0));
    } else {
        assert(pending.drop_first()[t - 1] == n);
        assert forall|u: int| 0 <= u < t - 1 implies pending.drop_first()[u] != n by {
            assert(pending.drop_first()[u] == pending[u + 1]);
        }
        lemma_drop_name_at(pending.drop_first(), n, t - 1);
        assert(pending.drop_first().remove(t - 1).insert(0, pending[0]) =~= pending.remove(t));
    }
}

/// Dropping an absent name changes nothing.
pub proof fn lemma_drop_name_absent(pending: Seq<Seq<char>>, n: Seq<char>)
    requires
        !pending.contains(n),
    ensures
        drop_name(pending, n) == pending,
    decreases pending.len(),
{
    if pending.len() > 0 {
        assert(pending[0] != n);
        assert forall|u: int| 0 <= u < pending.drop_first().len() implies pending.drop_first()[u]
            != n by {
            assert(pending.drop_first()[u] == pending[u + 1]);
        }
        assert(!pending.drop_first().contains(n)) by {
            if pending.drop_first().contains(n) {
                let u = choose|u: int|
                    0 <= u < pending.drop_first().len() && pending.drop_first()[u] == n;
            }
        }
        lemma_drop_name_absent(pending.drop_first(), n);
        assert(pending.drop_first().insert(0, pending[0]) =~= pending);
    }
}

/// The script executor.
#[derive(Debug)]
pub struct Executor {
    dry_run: bool,
    marks: Vec<(CommitId, CommitId)>,
    failed_marks: Vec<CommitId>,
    skipping: bool,
    pending: Vec<String>,
    failures: Vec<String>,
    blocked: Vec<String>,
    head_plan: CommitId,
    dirty: bool,
}

impl View for Executor {
    type V = ExecView;

    closed spec fn view(&self) -> ExecView {
        ExecView {
            dry_run: self.dry_run,
            marks: self.marks@,
            failed_marks: self.failed_marks@,
            skipping: self.skipping,
            pending: string_views(self.pending@),
            failures: string_views(self.failures@),
            blocked: string_views(self.blocked@),
            head_plan: self.head_plan,
            dirty: self.dirty,
        }
    }
}

impl Executor {
    /// A fresh executor over the snapshot, with nothing run yet.
    pub fn new(repo: &Repo, dry_run: bool) -> (r: Executor)
        ensures
            r@ == spec_init(dry_run, repo@.head_id),
    {
        let r = Executor {
            dry_run,
            marks: Vec::new(),
            failed_marks: Vec::new(),
            skipping: false,
            pending: Vec::new(),
            failures: Vec::new(),
            blocked: Vec::new(),
            head_plan: repo.head_id(),
            dirty: false,
        };
        proof {
            assert(string_views(r.pending@) =~= Seq::<Seq<char>>::empty());
            assert(string_views(r.failures@) =~= Seq::<Seq<char>>::empty());
            assert(string_views(r.blocked@) =~= Seq::<Seq<char>>::empty());
        }
        r
    }

    /// Whether some command has changed the snapshot.
    pub fn is_dirty(&self) -> (r: bool)
        ensures
            r == self@.dirty,
    {
        self.dirty
    }

    /// The branches whose own commands failed, in order.
    pub fn failures(&self) -> (r: &Vec<String>)
        ensures
            string_views(r@) == self@.failures,
    {
        &self.failures
    }

    /// The branches blocked because work they sat on failed, in order.
    pub fn blocked(&self) -> (r: &Vec<String>)
        ensures
            string_views(r@) == self@.blocked,
    {
        &self.blocked
    }

    /// Returns the working copy to the named branch.
    pub fn close(&self, repo: &mut Repo, head_name: &String) -> (r: Result<(), Error>)
        requires
            old(repo).inv(),
        ensures
            final(repo).inv(),
            match r {
                Ok(()) => old(repo)@.contains_branch(head_name@) && final(repo)@ == (RepoView {
                    head_id: old(repo)@.branch_of(head_name@).id,
                    head_branch: Some(head_name@),
                    ..old(repo)@
                }),
                Err(e) => e == Error::NotFound && !old(repo)@.contains_branch(head_name@)
                    && final(repo)@ == old(repo)@,
            },
    {
        repo.switch(head_name)
    }

    /// The latest mark for a plan-time id.
    fn mark_lookup(&self, id: CommitId) -> (r: Option<CommitId>)
        ensures
            r == mark_of(self@.marks, id),
    {
        let mut i = self.marks.len();
        assert(self.marks@.subrange(0, self.marks@.len() as int) =~= self.marks@);
        while i > 0
            invariant
                i <= self.marks@.len(),
                mark_of(self@.marks, id) == mark_of(self.marks@.subrange(0, i as int), id),
            decreases i,
        {
            i = i - 1;
            let ghost pre = self.marks@.subrange(0, i as int);
            let ghost post = self.marks@.subrange(0, i + 1);
            assert(post.drop_last() =~= pre);
            assert(post.last() == self.marks@[i as int]);
            if self.marks[i].0.eq_id(&id) {
                return Some(self.marks[i].1);
            }
        }
        assert(self.marks@.subrange(0, 0) =~= Seq::<(CommitId, CommitId)>::empty());
        None
    }

    /// Resolves a plan-time id through the marks.
    fn resolve_id(&self, id: CommitId) -> (r: CommitId)
        ensures
            r == resolve(self@, id),
    {
        match self.mark_lookup(id) {
            Some(a) => a,
            None => id,
        }
    }

    /// Removes the first pending entry with this name, if any.
    fn drop_pending(&mut self, n: &String)
        ensures
            final(self)@ == (ExecView { pending: drop_name(old(self)@.pending, n@), ..old(self)@ }),
    {
        let ghost pv = string_views(self.pending@);
        proof {
            lemma_string_views(self.pending@);
        }
        let mut i: usize = 0;
        while i < self.pending.len()
            invariant
                self@ == old(self)@,
                pv == string_views(self.pending@),
                pv.len() == self.pending@.len(),
                forall|t: int|
                    0 <= t < self.pending@.len() ==> pv[t] == (#[trigger] self.pending@[t])@,
                i <= self.pending@.len(),
                forall|u: int| 0 <= u < i ==> pv[u] != n@,
            decreases self.pending@.len() - i,
        {
            if crate::names::str_eq(&self.pending[i], n) {
                proof {
                    lemma_drop_name_at(pv, n@, i as int);
                }
                let ghost ppre = self.pending@;
                self.pending.remove(i);
                proof {
                    lemma_string_views(self.pending@);
                    assert(self.pending@ =~= ppre.remove(i as int));
                    assert forall|t: int|
                        0 <= t < self.pending@.len() implies string_views(self.pending@)[t]
                        == pv.remove(i as int)[t] by {
                        if t < i {
                            assert(self.pending@[t] == ppre[t]);
                        } else {
                            assert(self.pending@[t] == ppre[t + 1]);
                        }
                    }
                    assert(string_views(self.pending@) =~= pv.remove(i as int));
                    assert(final(self)@ == (ExecView {
                        pending: drop_name(old(self)@.pending, n@),
                        ..old(self)@
                    }));
                }
                return ;
            }
            i = i + 1;
        }
        proof {
            assert(!pv.contains(n@)) by {
                if pv.contains(n@) {
                    let u = choose|u: int| 0 <= u < pv.len() && pv[u] == n@;
                }
            }
            lemma_drop_name_absent(pv, n@);
        }
    }

    /// Moves the pending names to the blocked list and starts skipping.
    fn block_pending(&mut self)
        ensures
            final(self)@ == (ExecView {
                skipping: true,
                blocked: old(self)@.blocked + old(self)@.pending,
                pending: Seq::empty(),
                ..old(self)@
            }),
    {
        let ghost b0 = self.blocked@;
        let ghost p0 = self.pending@;
        let mut moved = Vec::new();
        core::mem::swap(&mut moved, &mut self.pending);
        self.blocked.append(&mut moved);
        self.skipping = true;
        proof {
            lemma_string_views_concat(b0, p0);
            assert(string_views(self.pending@) =~= Seq::<Seq<char>>::empty());
            assert(self.blocked@ == b0 + p0);
        }
    }

    /// Moves the pending names to the failures list and starts skipping.
    fn fail_pending(&mut self)
        ensures
            final(self)@ == (ExecView {
                skipping: true,
                failures: old(self)@.failures + old(self)@.pending,
                pending: Seq::empty(),
                ..old(self)@
            }),
    {
        let ghost f0 = self.failures@;
        let ghost p0 = self.pending@;
        let mut moved = Vec::new();
        core::mem::swap(&mut moved, &mut self.pending);
        self.failures.append(&mut moved);
        self.skipping = true;
        proof {
            lemma_string_views_concat(f0, p0);
            assert(string_views(self.pending@) =~= Seq::<Seq<char>>::empty());
            assert(self.failures@ == f0 + p0);
        }
    }
}


/// Whether the list holds this name.
fn name_listed(v: &Vec<String>, n: &String) -> (r: bool)
    ensures
        r == string_views(v@).contains(n@),
{
    let ghost sv = string_views(v@);
    proof {
        lemma_string_views(v@);
    }
    let mut i: usize = 0;
    while i < v.len()
        invariant
            i <= v@.len(),
            sv == string_views(v@),
            sv.len() == v@.len(),
            forall|t: int| 0 <= t < v@.len() ==> sv[t] == (#[trigger] v@[t])@,
            forall|t: int| 0 <= t < i ==> sv[t] != n@,
        decreases v@.len() - i,
    {
        if crate::names::str_eq(&v[i], n) {
            assert(sv.contains(n@));
            return true;
        }
        i = i + 1;
    }
    proof {
        if sv.contains(n@) {
            let u = choose|u: int| 0 <= u < sv.len() && sv[u] == n@;
            assert(false);
        }
    }
    false
}

impl Executor {
    /// Runs one command against the snapshot.
    pub fn step(&mut self, repo: &mut Repo, cmd: &Command)
        requires
            old(repo).inv(),
        ensures
            final(repo).inv(),
            final(self)@ == spec_step(old(self)@, old(repo)@, cmd@).0,
            final(repo)@ == spec_step(old(self)@, old(repo)@, cmd@).1,
    {
        let ghost st0 = self@;
        let ghost r0 = repo@;
        match cmd {
            Command::RegisterBranch(n) => {
                let ghost p0 = self@.pending;
                let nc = n.clone();
                let ghost gn = nc;
                self.pending.push(nc);
                proof {
                    lemma_string_views_push(old(self).pending@, gn);
                    assert(self@.pending == p0.push(n@));
                    assert(self@ == spec_step(st0, r0, cmd@).0);
                }
            },
            Command::SwitchCommit(p) => {
                let failed = crate::repo::ids_contain(&self.failed_marks, *p);
                let a = self.resolve_id(*p);
                if !failed && repo.has_commit(a) {
                    self.skipping = false;
                    self.head_plan = *p;
                    if !self.dry_run {
                        match repo.switch_commit(a) {
                            Ok(()) => {},
                            Err(e) => {
                                proof {
                                    assert(false);
                                }
                            },
                        }
                    }
                    proof {
                        assert(self@ == spec_step(st0, r0, cmd@).0);
                        assert(repo@ == spec_step(st0, r0, cmd@).1);
                    }
                } else {
                    self.block_pending();
                    proof {
                        assert(self@ == spec_step(st0, r0, cmd@).0);
                    }
                }
            },
            Command::CherryPick(c) => {
                if self.skipping {
                    let ghost f0 = self@.failed_marks;
                    self.failed_marks.push(*c);
                    proof {
                        assert(self@.failed_marks =~= f0.push(*c));
                        assert(self@ == spec_step(st0, r0, cmd@).0);
                    }
                } else if self.dry_run {
                    let ghost m0 = self@.marks;
                    self.marks.push((*c, *c));
                    self.head_plan = *c;
                    proof {
                        assert(self@.marks =~= m0.push((*c, *c)));
                        assert(self@ == spec_step(st0, r0, cmd@).0);
                    }
                } else {
                    let attached = match self.head_detached(repo) {
                        true => false,
                        false => true,
                    };
                    if attached {
                        self.fail_pending();
                        self.failed_marks.push(*c);
                        proof {
                            assert(self@.failed_marks =~= st0.failed_marks.push(*c));
                            assert(self@ == spec_step(st0, r0, cmd@).0);
                        }
                    } else {
                        match repo.cherry_pick(*c) {
                            Ok(nid) => {
                                let ghost m0 = self@.marks;
                                self.marks.push((*c, nid));
                                self.head_plan = *c;
                                self.dirty = true;
                                proof {
                                    assert(self@.marks =~= m0.push((*c, nid)));
                                    assert(self@ == spec_step(st0, r0, cmd@).0);
                                    assert(repo@ == spec_step(st0, r0, cmd@).1);
                                }
                            },
                            Err(e) => {
                                self.fail_pending();
                                self.failed_marks.push(*c);
                                proof {
                                    assert(self@.failed_marks =~= st0.failed_marks.push(*c));
                                    assert(self@ == spec_step(st0, r0, cmd@).0);
                                }
                            },
                        }
                    }
                }
            },
            Command::Squash(c) => {
                if self.skipping {
                    let ghost f0 = self@.failed_marks;
                    self.failed_marks.push(*c);
                    proof {
                        assert(self@.failed_marks =~= f0.push(*c));
                        assert(self@ == spec_step(st0, r0, cmd@).0);
                    }
                } else if self.dry_run {
                    let hp = self.head_plan;
                    let ghost m0 = self@.marks;
                    self.marks.push((hp, *c));
                    self.marks.push((*c, *c));
                    self.head_plan = *c;
                    proof {
                        assert(self@.marks =~= m0.push((st0.head_plan, *c)).push((*c, *c)));
                        assert(self@ == spec_step(st0, r0, cmd@).0);
                    }
                } else {
                    let attached = match self.head_detached(repo) {
                        true => false,
                        false => true,
                    };
                    if attached {
                        self.fail_pending();
                        self.failed_marks.push(*c);
                        proof {
                            assert(self@.failed_marks =~= st0.failed_marks.push(*c));
                            assert(self@ == spec_step(st0, r0, cmd@).0);
                        }
                    } else {
                        let hp = self.head_plan;
                        match repo.squash(*c) {
                            Ok(nid) => {
                                let ghost m0 = self@.marks;
                                self.marks.push((hp, nid));
                                self.marks.push((*c, nid));
                                self.head_plan = *c;
                                self.dirty = true;
                                proof {
                                    assert(self@.marks =~= m0.push((st0.head_plan, nid)).push(
                                        (*c, nid),
                                    ));
                                    assert(self@ == spec_step(st0, r0, cmd@).0);
                                    assert(repo@ == spec_step(st0, r0, cmd@).1);
                                }
                            },
                            Err(e) => {
                                self.fail_pending();
                                self.failed_marks.push(*c);
                                proof {
                                    assert(self@.failed_marks =~= st0.failed_marks.push(*c));
                                    assert(self@ == spec_step(st0, r0, cmd@).0);
                                }
                            },
                        }
                    }
                }
            },
            Command::CreateBranch(n, p) => {
                let failed = crate::repo::ids_contain(&self.failed_marks, *p);
                if self.skipping || failed {
                    let counted = name_listed(&self.failures, n) || name_listed(&self.blocked, n);
                    if !counted {
                        let ghost b0 = self@.blocked;
                        let nc = n.clone();
                        let ghost gn = nc;
                        self.blocked.push(nc);
                        proof {
                            lemma_string_views_push(old(self).blocked@, gn);
                            assert(self@.blocked == b0.push(n@));
                        }
                    }
                    self.drop_pending(n);
                    proof {
                        assert(self@ == spec_step(st0, r0, cmd@).0);
                    }
                } else {
                    let a = self.resolve_id(*p);
                    if repo.has_commit(a) {
                        if !self.dry_run {
                            match repo.upsert_branch(n, a) {
                                Ok(()) => {},
                                Err(e) => {
                                    proof {
                                        assert(false);
                                    }
                                },
                            }
                            self.dirty = true;
                        }
                        self.drop_pending(n);
                        proof {
                            assert(self@ == spec_step(st0, r0, cmd@).0);
                            assert(repo@ == spec_step(st0, r0, cmd@).1);
                        }
                    } else {
                        let ghost f0 = self@.failures;
                        let nc = n.clone();
                        let ghost gn = nc;
                        self.failures.push(nc);
                        self.drop_pending(n);
                        proof {
                            lemma_string_views_push(old(self).failures@, gn);
                            assert(self@.failures == f0.push(n@));
                            assert(self@ == spec_step(st0, r0, cmd@).0);
                        }
                    }
                }
            },
            Command::DeleteBranch(n) => {
                if self.skipping {
                    let ghost b0 = self@.blocked;
                    let nc = n.clone();
                    let ghost gn = nc;
                    self.blocked.push(nc);
                    proof {
                        lemma_string_views_push(old(self).blocked@, gn);
                        assert(self@.blocked == b0.push(n@));
                        assert(self@ == spec_step(st0, r0, cmd@).0);
                    }
                } else if self.dry_run {
                } else {
                    match repo.delete_branch(n) {
                        Ok(()) => {
                            self.dirty = true;
                            proof {
                                assert(self@ == spec_step(st0, r0, cmd@).0);
                                assert(repo@ == spec_step(st0, r0, cmd@).1);
                            }
                        },
                        Err(e) => {
                            let ghost f0 = self@.failures;
                            let nc = n.clone();
                            let ghost gn = nc;
                            self.failures.push(nc);
                            proof {
                                lemma_string_views_push(old(self).failures@, gn);
                                assert(self@.failures == f0.push(n@));
                                assert(self@ == spec_step(st0, r0, cmd@).0);
                            }
                        },
                    }
                }
            },
            Command::SwitchBranch(n) => {
                match repo.find_local_branch(n) {
                    Some(b) => {
                        self.skipping = false;
                        self.head_plan = b.id;
                        if !self.dry_run {
                            match repo.switch(n) {
                                Ok(()) => {},
                                Err(e) => {
                                    proof {
                                        assert(false);
                                    }
                                },
                            }
                        }
                        proof {
                            assert(self@ == spec_step(st0, r0, cmd@).0);
                            assert(repo@ == spec_step(st0, r0, cmd@).1);
                        }
                    },
                    None => {
                        self.block_pending();
                        proof {
                            assert(self@ == spec_step(st0, r0, cmd@).0);
                        }
                    },
                }
            },
        }
    }

    /// Whether HEAD is detached in the snapshot.
    fn head_detached(&self, repo: &Repo) -> (r: bool)
        ensures
            r == (repo@.head_branch is None),
    {
        match repo.head_branch_name() {
            Some(_) => false,
            None => true,
        }
    }

    /// Runs a whole script against the snapshot, in order.
    pub fn run_script(&mut self, repo: &mut Repo, script: &Script)
        requires
            old(repo).inv(),
        ensures
            final(repo).inv(),
            final(self)@ == spec_run(old(self)@, old(repo)@, script@).0,
            final(repo)@ == spec_run(old(self)@, old(repo)@, script@).1,
    {
        let ghost st0 = self@;
        let ghost r0 = repo@;
        let ghost cmds = script@;
        proof {
            crate::script::lemma_command_views(script.commands@);
            assert(cmds.skip(0) =~= cmds);
        }
        let mut i: usize = 0;
        while i < script.commands.len()
            invariant
                repo.inv(),
                cmds == script@,
                cmds.len() == script.commands@.len(),
                forall|t: int|
                    0 <= t < script.commands@.len() ==> cmds[t] == (
                    #[trigger] script.commands@[t])@,
                i <= script.commands@.len(),
                spec_run(st0, r0, cmds) == spec_run(self@, repo@, cmds.skip(i as int)),
            decreases script.commands@.len() - i,
        {
            let ghost t = cmds.skip(i as int);
            assert(t[0] == cmds[i as int]);
            assert(t.drop_first() =~= cmds.skip(i + 1));
            self.step(repo, &script.commands[i]);
            i = i + 1;
        }
        assert(cmds.skip(cmds.len() as int).len() == 0);
    }
}

} // verus!
