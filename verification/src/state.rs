//! The orchestrator's state: the loaded configuration, the branch index,
//! the stacks under management, and the planning steps that drive
//! pull, re-stack and push.

use vstd::prelude::*;

use crate::branches::{best_base, holds_oid, Branches};
use crate::error::Error;
use crate::graph::Node;
use crate::ids::CommitId;
use crate::protect::ProtectedBranches;
use crate::repo::{Branch, BranchView, Commit, Repo, RepoView};
use crate::script::{CommandView, Script};

verus! {

/// How much the show step prints.
#[derive(Clone, Copy, Debug, PartialEq, Eq, Structural)]
pub enum Format {
    Silent,
    Brief,
    Full,
    Debug,
}

/// Which branches form the stack under management.
#[derive(Clone, Copy, Debug, PartialEq, Eq, Structural)]
pub enum StackChoice {
    Current,
    Dependents,
    Descendants,
    All,
}

/// The resolved configuration the engine consumes: the front end merges
/// defaults, user and repository files and flags into this.
#[derive(Debug)]
pub struct Config {
    pub protected_branches: Vec<String>,
    pub stack: StackChoice,
    pub push_remote: String,
    pub pull_remote: String,
    pub format: Format,
    pub show_stacked: bool,
    pub capacity: Option<usize>,
}

/// The flags of one invocation.
#[derive(Debug)]
pub struct Options {
    pub rebase: bool,
    pub pull: bool,
    pub push: bool,
    pub dry_run: bool,
    pub base: Option<String>,
    pub onto: Option<String>,
}

/// One stack under management: its logical base branch, the branch it
/// rebases onto, and the branches that ride on it.
#[derive(Debug)]
pub struct StackState {
    pub base: Branch,
    pub onto: Branch,
    pub branches: Branches,
}

/// The mathematical value of a [`StackState`].
pub struct StackStateView {
    pub base: BranchView,
    pub onto: BranchView,
    pub branches: Seq<BranchView>,
}

impl View for StackState {
    type V = StackStateView;

    open spec fn view(&self) -> StackStateView {
        StackStateView { base: self.base@, onto: self.onto@, branches: self.branches@ }
    }
}

impl StackState {
    /// Re-resolves the stack against a fresh snapshot: base and onto by
    /// name, and every held branch. Fails with [`Error::NotFound`] when
    /// base or onto no longer exists; the stack is then unchanged except
    /// for what was already re-resolved.
    pub fn update(&mut self, repo: &Repo) -> (r: Result<(), Error>)
        requires
            repo.inv(),
        ensures
            match r {
                Ok(()) => {
                    &&& repo@.contains_branch(old(self)@.base.name)
                    &&& repo@.contains_branch(old(self)@.onto.name)
                    &&& final(self)@.base == repo@.branch_of(old(self)@.base.name)
                    &&& final(self)@.onto == repo@.branch_of(old(self)@.onto.name)
                    &&& final(self)@.branches == crate::branches::refreshed(
                        old(self)@.branches,
                        repo@,
                    )
                },
                Err(e) => e == Error::NotFound && (!repo@.contains_branch(old(self)@.base.name)
                    || !repo@.contains_branch(old(self)@.onto.name)),
            },
    {
        let base = match repo.find_local_branch(&self.base.name) {
            Some(b) => b,
            None => {
                return Err(Error::NotFound);
            },
        };
        let onto = match repo.find_local_branch(&self.onto.name) {
            Some(b) => b,
            None => {
                return Err(Error::NotFound);
            },
        };
        self.base = base;
        self.onto = onto;
        self.branches.update(repo);
        Ok(())
    }
}

/// Resolves a branch name given on the command line. Fails with
/// [`Error::Usage`] when no branch has the name.
pub fn resolve_explicit_base(repo: &Repo, base: &String) -> (r: Result<Branch, Error>)
    requires
        repo.inv(),
    ensures
        match r {
            Ok(b) => repo@.contains_branch(base@) && b@ == repo@.branch_of(base@),
            Err(e) => e == Error::Usage && !repo@.contains_branch(base@),
        },
{
    match repo.find_local_branch(base) {
        Some(b) => Ok(b),
        None => Err(Error::Usage),
    }
}

/// Resolves the implicit base of a commit: the nearest protected branch
/// below it. Fails with [`Error::Usage`] when no protected branch shares
/// history with the commit.
pub fn resolve_implicit_base(
    repo: &Repo,
    head_oid: CommitId,
    protected_branches: &Branches,
) -> (r: Result<Branch, Error>)
    requires
        repo.inv(),
        repo@.contains_commit(head_oid),
    ensures
        match r {
            Ok(b) => best_base(protected_branches@, repo@, head_oid) == Some(b@),
            Err(e) => e == Error::Usage && best_base(protected_branches@, repo@, head_oid)
                is None,
        },
{
    match crate::branches::find_protected_base(repo, protected_branches, head_oid) {
        Some(b) => Ok(b),
        None => Err(Error::Usage),
    }
}

/// How far a local and a remote tip have diverged: how many commits each
/// side is ahead of their merge base. `None` when there is no remote tip
/// or no shared history.
pub fn commit_relation(repo: &Repo, local: CommitId, remote: Option<CommitId>) -> (r: Option<
    (usize, usize),
>)
    requires
        repo.inv(),
        repo@.contains_commit(local),
        match remote {
            Some(rid) => repo@.contains_commit(rid),
            None => true,
        },
    ensures
        match r {
            Some(counts) => {
                &&& remote is Some
                &&& repo@.spec_merge_base(local, remote.unwrap()) is Some
                &&& counts.0 == crate::branches::first_index(
                    repo@.chain(local),
                    repo@.spec_merge_base(local, remote.unwrap()).unwrap(),
                )
                &&& counts.1 == crate::branches::first_index(
                    repo@.chain(remote.unwrap()),
                    repo@.spec_merge_base(local, remote.unwrap()).unwrap(),
                )
            },
            None => remote is None || repo@.spec_merge_base(local, remote.unwrap()) is None,
        },
{
    let rid = match remote {
        Some(rid) => rid,
        None => {
            return None;
        },
    };
    let base = match repo.merge_base(local, rid) {
        Some(b) => b,
        None => {
            return None;
        },
    };
    proof {
        crate::branches::lemma_merge_base_contained(repo@, local, rid, base);
        crate::branches::lemma_first_common_in(repo@.chain(local), repo@.chain(rid), base);
    }
    let cl = repo.chain_ids(local);
    let cr = repo.chain_ids(rid);
    let li = crate::branches::index_in(&cl, base);
    let ri = crate::branches::index_in(&cr, base);
    Some((li, ri))
}

/// What a pull should do, once the remote tip is known.
#[derive(Clone, Copy, Debug, PartialEq, Eq, Structural)]
pub enum PullDecision {
    /// The local branch already holds the remote tip: nothing to do.
    UpToDate,
    /// Rebase the local commits above the given base onto the remote tip.
    Rebase(CommitId),
}

/// Decides a pull, per the local and fetched remote tips: up to date when
/// the remote tip is already an ancestor of the local one, otherwise a
/// rebase of everything above their merge base. Fails with
/// [`Error::NotFound`] when the two tips share no history.
pub fn pull_decision(repo: &Repo, local: CommitId, remote: CommitId) -> (r: Result<
    PullDecision,
    Error,
>)
    requires
        repo.inv(),
        repo@.contains_commit(local),
        repo@.contains_commit(remote),
    ensures
        match r {
            Ok(d) => match d {
                PullDecision::UpToDate => repo@.spec_merge_base(local, remote) == Some(remote),
                PullDecision::Rebase(m) => repo@.spec_merge_base(local, remote) == Some(m) && m
                    != remote,
            },
            Err(e) => e == Error::NotFound && repo@.spec_merge_base(local, remote) is None,
        },
{
    match repo.merge_base(local, remote) {
        Some(m) => {
            if m.eq_id(&remote) {
                Ok(PullDecision::UpToDate)
            } else {
                Ok(PullDecision::Rebase(m))
            }
        },
        None => Err(Error::NotFound),
    }
}

/// Guards a destructive phase: fails with [`Error::Usage`] when the
/// working tree was dirty at load time, before anything is touched.
pub fn ensure_clean(repo: &Repo) -> (r: Result<(), Error>)
    ensures
        match r {
            Ok(()) => !repo@.dirty,
            Err(e) => e == Error::Usage && repo@.dirty,
        },
{
    if repo.is_dirty() {
        Err(Error::Usage)
    } else {
        Ok(())
    }
}


/// The index with a branch added unless its commit is already held.
pub open spec fn with_branch(bm: Seq<BranchView>, b: BranchView) -> Seq<BranchView> {
    if holds_oid(bm, b.id) {
        bm
    } else {
        bm.push(b)
    }
}

/// The commits on the first-parent chain from `from`, stopping before
/// `stop`; the whole chain when `stop` does not lie on it.
pub open spec fn spec_commits_between(repo: RepoView, from: CommitId, stop: CommitId) -> Seq<
    crate::repo::CommitView,
> {
    if repo.chain(from).contains(stop) {
        repo.chain_commits(from).subrange(
            0,
            crate::branches::first_index(repo.chain(from), stop),
        )
    } else {
        repo.chain_commits(from)
    }
}

/// The script a stack compiles to: the graph grown from the stack's
/// branches (base and onto included) under the head commit, protected,
/// rebased onto the onto branch, fixups recognized, commits already on
/// the onto side dropped, and the result flattened. `None` when some
/// branch shares no history, the onto commit is not in the graph, or
/// base and onto share no history.
pub open spec fn spec_plan_rebase(
    repo: RepoView,
    head_commit: crate::repo::CommitView,
    protected: Seq<BranchView>,
    st: StackStateView,
) -> Option<Seq<CommandView>> {
    let bm = with_branch(with_branch(st.branches, st.base), st.onto);
    let root0 = crate::graph::NodeView {
        local_commit: head_commit,
        branches: crate::branches::at_id(bm, head_commit.id),
        action: crate::graph::Action::Pick,
        pushable: false,
        children: Seq::empty(),
    };
    let pool = crate::branches::without_id(bm, head_commit.id);
    match crate::graph::spec_extend_branches(repo, root0, pool) {
        None => None,
        Some(g) => {
            let p = crate::annotate::spec_protect(g, protected);
            match crate::annotate::spec_rebase(p, st.onto.id) {
                None => None,
                Some(rb) => {
                    let f = crate::annotate::spec_fixup(rb, Seq::empty());
                    match repo.spec_merge_base(st.base.id, st.onto.id) {
                        None => None,
                        Some(ob) => {
                            let d = crate::annotate::spec_drop(
                                f,
                                crate::annotate::tree_ids_of(
                                    spec_commits_between(repo, st.onto.id, ob),
                                ),
                            );
                            Some(crate::script::spec_to_script(d))
                        },
                    }
                },
            }
        },
    }
}

/// The commits from `from` down to (not including) `stop`, oldest last.
pub fn commits_between(repo: &Repo, from: CommitId, stop: CommitId) -> (r: Vec<Commit>)
    requires
        repo.inv(),
        repo@.contains_commit(from),
    ensures
        crate::repo::commit_views(r@) == spec_commits_between(repo@, from, stop),
{
    let ids = repo.chain_ids(from);
    let ghost chain = repo@.chain(from);
    proof {
        repo@.lemma_chain_shape(from);
    }
    let mut ci: usize = ids.len();
    let mut j: usize = 0;
    while j < ids.len()
        invariant
            ids@ == chain,
            ci == ids@.len(),
            j <= ids@.len(),
            forall|k: int| 0 <= k < j ==> chain[k] != stop,
        decreases ids@.len() - j,
    {
        if ids[j].eq_id(&stop) {
            ci = j;
            break ;
        }
        j = j + 1;
    }
    proof {
        if ci < ids@.len() {
            assert(chain[ci as int] == stop);
            crate::graph::lemma_first_index_present(chain, stop);
            assert(forall|k: int| 0 <= k < ci ==> chain[k] != stop);
            assert(ci as int == crate::branches::first_index(chain, stop)) by {
                let fi = crate::branches::first_index(chain, stop);
                if fi < ci {
                    assert(chain[fi] != stop);
                }
                if ci < fi {
                }
            }
        } else {
            assert(!chain.contains(stop)) by {
                if chain.contains(stop) {
                    let k = choose|k: int| 0 <= k < chain.len() && chain[k] == stop;
                }
            }
        }
    }
    let mut out: Vec<Commit> = Vec::new();
    proof {
        crate::repo::lemma_commit_views(out@);
        assert(crate::repo::commit_views(out@) =~= repo@.chain_commits(from).subrange(0, 0));
    }
    let mut i: usize = 0;
    while i < ci
        invariant
            repo.inv(),
            repo@.contains_commit(from),
            ids@ == chain,
            chain == repo@.chain(from),
            forall|k: int| 0 <= k < chain.len() ==> repo@.contains_commit(#[trigger] chain[k]),
            ci <= ids@.len(),
            i <= ci,
            crate::repo::commit_views(out@) == repo@.chain_commits(from).subrange(0, i as int),
        decreases ci - i,
    {
        let c = match repo.find_commit(ids[i]) {
            Some(c) => c,
            None => {
                proof {
                    assert(false);
                }
                return out;
            },
        };
        let ghost pre = out@;
        let ghost gc = c;
        out.push(c);
        proof {
            crate::repo::lemma_commit_views(out@);
            crate::repo::lemma_commit_views(pre);
            assert(out@.drop_last() =~= pre);
            assert(repo@.chain_commits(from).len() == chain.len());
            assert(repo@.chain_commits(from)[i as int] == repo@.commit_of(chain[i as int]));
            assert forall|t: int|
                0 <= t < out@.len() implies crate::repo::commit_views(out@)[t]
                == repo@.chain_commits(from).subrange(0, i + 1)[t] by {
                if t < out@.len() - 1 {
                    assert(out@[t] == pre[t]);
                } else {
                    assert(out@[t] == gc);
                }
            }
            assert(crate::repo::commit_views(out@) =~= repo@.chain_commits(from).subrange(
                0,
                i + 1,
            ));
        }
        i = i + 1;
    }
    proof {
        if ci == ids@.len() {
            assert(repo@.chain_commits(from).subrange(0, chain.len() as int)
                =~= repo@.chain_commits(from));
        }
    }
    out
}


/// Plans the re-stack of one stack: grows the graph from the stack's
/// branches (base and onto included) under the head commit, runs the
/// protection, rebase, fixup and landed-commit passes, and compiles the
/// result. Fails with [`Error::NotFound`] exactly when some branch, the
/// onto commit or the base shares no history with the rest.
pub fn plan_rebase(
    repo: &Repo,
    head_commit: &Commit,
    protected_branches: &Branches,
    stack: &StackState,
) -> (r: Result<Script, Error>)
    requires
        repo.inv(),
        repo@.contains_commit(head_commit@.id),
        repo@.contains_commit(stack@.base.id),
        repo@.contains_commit(stack@.onto.id),
        forall|k: int|
            0 <= k < stack@.branches.len() ==> repo@.contains_commit(
                #[trigger] stack@.branches[k].id,
            ),
    ensures
        match r {
            Ok(s) => spec_plan_rebase(repo@, head_commit@, protected_branches@, stack@) == Some(
                s@,
            ),
            Err(e) => e == Error::NotFound && spec_plan_rebase(
                repo@,
                head_commit@,
                protected_branches@,
                stack@,
            ) is None,
        },
{
    let mut graphed = stack.branches.all();
    if !graphed.contains_oid(stack.base.id) {
        graphed.insert(stack.base.clone());
    }
    if !graphed.contains_oid(stack.onto.id) {
        graphed.insert(stack.onto.clone());
    }
    let ghost bm = with_branch(with_branch(stack@.branches, stack@.base), stack@.onto);
    proof {
        assert(graphed@ == bm);
    }
    let mut pool = graphed;
    let root = Node::new(head_commit.clone(), &mut pool);
    proof {
        assert(root@ == (crate::graph::NodeView {
            local_commit: head_commit@,
            branches: crate::branches::at_id(bm, head_commit@.id),
            action: crate::graph::Action::Pick,
            pushable: false,
            children: Seq::empty(),
        }));
        assert forall|k: int| 0 <= k < pool@.len() implies repo@.contains_commit(
            #[trigger] pool@[k].id,
        ) by {
            lemma_without_id_elems(bm, head_commit@.id, k);
            assert(holds_oid(bm, pool@[k].id));
            let u = choose|u: int| 0 <= u < bm.len() && bm[u].id == pool@[k].id;
            if u < stack@.branches.len() {
            } else {
                assert(bm[u] == stack@.base || bm[u] == stack@.onto);
            }
        }
    }
    let g = match root.extend_branches(repo, pool) {
        Ok(g) => g,
        Err(e) => {
            return Err(Error::NotFound);
        },
    };
    let p = crate::annotate::protect_branches(g, protected_branches);
    let rb = match crate::annotate::rebase_branches(p, stack.onto.id) {
        Ok(n) => n,
        Err(e) => {
            return Err(Error::NotFound);
        },
    };
    let f = crate::annotate::fixup(rb);
    let ob = match repo.merge_base(stack.base.id, stack.onto.id) {
        Some(m) => m,
        None => {
            return Err(Error::NotFound);
        },
    };
    let onto_commits = commits_between(repo, stack.onto.id, ob);
    let d = crate::annotate::drop_by_tree_id(f, &onto_commits);
    Ok(crate::script::to_script(&d))
}

/// Every branch kept after dropping one commit was in the index.
pub proof fn lemma_without_id_elems(bm: Seq<BranchView>, id: CommitId, k: int)
    requires
        0 <= k < crate::branches::without_id(bm, id).len(),
    ensures
        holds_oid(bm, crate::branches::without_id(bm, id)[k].id),
    decreases bm.len(),
{
    if bm.len() > 0 {
        let w = crate::branches::without_id(bm, id);
        let wp = crate::branches::without_id(bm.drop_last(), id);
        if bm.last().id == id {
            lemma_without_id_elems(bm.drop_last(), id, k);
            let u = choose|u: int|
                0 <= u < bm.drop_last().len() && bm.drop_last()[u].id == wp[k].id;
            assert(bm[u].id == wp[k].id);
        } else {
            if k < wp.len() {
                lemma_without_id_elems(bm.drop_last(), id, k);
                let u = choose|u: int|
                    0 <= u < bm.drop_last().len() && bm.drop_last()[u].id == wp[k].id;
                assert(bm[u].id == wp[k].id);
                assert(w[k] == wp[k]);
            } else {
                assert(w[k] == bm.last());
                assert(bm[bm.len() - 1].id == w[k].id);
            }
        }
    }
}


/// The views of a stack list, element by element.
pub open spec fn stack_views(v: Seq<StackState>) -> Seq<StackStateView> {
    v.map_values(|s: StackState| s@)
}

/// The views, element by element.
pub proof fn lemma_stack_views(v: Seq<StackState>)
    ensures
        stack_views(v).len() == v.len(),
        forall|i: int| 0 <= i < v.len() ==> stack_views(v)[i] == (#[trigger] v[i])@,
{
}

/// The compiled forms of a pattern list.
pub open spec fn spec_patterns(ps: Seq<String>) -> Seq<(bool, Seq<crate::protect::Tok>)> {
    ps.map_values(|p: String| crate::protect::spec_pattern(p@))
}

/// The compiled forms, element by element.
pub proof fn lemma_spec_patterns(ps: Seq<String>)
    ensures
        spec_patterns(ps).len() == ps.len(),
        forall|i: int|
            0 <= i < ps.len() ==> spec_patterns(ps)[i] == crate::protect::spec_pattern(
                (#[trigger] ps[i])@,
            ),
{
}

/// The position of the group keyed by this base name; `-1` when absent.
pub open spec fn group_pos(gs: Seq<(BranchView, Seq<BranchView>)>, name: Seq<char>) -> int
    decreases gs.len(),
{
    if gs.len() == 0 {
        -1
    } else if gs[0].0.name == name {
        0
    } else {
        let r = group_pos(gs.drop_first(), name);
        if r < 0 {
            -1
        } else {
            r + 1
        }
    }
}

/// Adds a branch to the group of its base, keeping group order by first
/// appearance of each base.
pub open spec fn upsert_group(
    gs: Seq<(BranchView, Seq<BranchView>)>,
    p: BranchView,
    b: BranchView,
) -> Seq<(BranchView, Seq<BranchView>)> {
    let k = group_pos(gs, p.name);
    if k >= 0 {
        gs.update(k, (gs[k].0, gs[k].1.push(b)))
    } else {
        gs.push((p, Seq::empty().push(b)))
    }
}

/// Groups every branch by its implicit base, in order; `None` when some
/// branch has no protected base.
pub open spec fn spec_groups(repo: RepoView, prot: Seq<BranchView>, bm: Seq<BranchView>) -> Option<
    Seq<(BranchView, Seq<BranchView>)>,
>
    decreases bm.len(),
{
    if bm.len() == 0 {
        Some(Seq::empty())
    } else {
        match spec_groups(repo, prot, bm.drop_last()) {
            None => None,
            Some(gs) => match best_base(prot, repo, bm.last().id) {
                None => None,
                Some(p) => Some(upsert_group(gs, p, bm.last())),
            },
        }
    }
}

/// One stack per group, each rebasing onto its own base.
pub open spec fn groups_to_stacks(gs: Seq<(BranchView, Seq<BranchView>)>) -> Seq<StackStateView> {
    gs.map_values(
        |g: (BranchView, Seq<BranchView>)| StackStateView { base: g.0, onto: g.0, branches: g.1 },
    )
}

/// The stacks an invocation manages, per the flags: an explicit base or
/// onto with the whole-tree choice manages everything as one stack; no
/// explicit base with the whole-tree choice groups every branch under its
/// implicit base; otherwise one stack of the chosen breadth around HEAD.
/// `None` when a name does not resolve, a base cannot be found, or base
/// and HEAD share no history.
pub open spec fn spec_stacks(
    repo: RepoView,
    bm: Seq<BranchView>,
    prot: Seq<BranchView>,
    base_name: Option<Seq<char>>,
    onto_name: Option<Seq<char>>,
    choice: StackChoice,
    head_id: CommitId,
) -> Option<Seq<StackStateView>> {
    if base_name is Some && onto_name is None && choice == StackChoice::All {
        if repo.contains_branch(base_name.unwrap()) {
            let b = repo.branch_of(base_name.unwrap());
            Some(Seq::empty().push(StackStateView { base: b, onto: b, branches: bm }))
        } else {
            None
        }
    } else if base_name is None && onto_name is Some && choice == StackChoice::All {
        if repo.contains_branch(onto_name.unwrap()) {
            let b = repo.branch_of(onto_name.unwrap());
            Some(Seq::empty().push(StackStateView { base: b, onto: b, branches: bm }))
        } else {
            None
        }
    } else if base_name is None && onto_name is None && choice == StackChoice::All {
        match spec_groups(repo, prot, bm) {
            None => None,
            Some(gs) => Some(groups_to_stacks(gs)),
        }
    } else {
        let base = if base_name is Some {
            if repo.contains_branch(base_name.unwrap()) {
                Some(repo.branch_of(base_name.unwrap()))
            } else {
                None
            }
        } else {
            best_base(prot, repo, head_id)
        };
        match base {
            None => None,
            Some(b) => {
                let onto = if onto_name is Some {
                    if repo.contains_branch(onto_name.unwrap()) {
                        Some(repo.branch_of(onto_name.unwrap()))
                    } else {
                        None
                    }
                } else {
                    Some(b)
                };
                match onto {
                    None => None,
                    Some(o) => match repo.spec_merge_base(b.id, head_id) {
                        None => None,
                        Some(mb) => {
                            let kept = match choice {
                                StackChoice::Current => crate::branches::kept_on_stack(
                                    bm,
                                    repo,
                                    mb,
                                    head_id,
                                ),
                                StackChoice::Dependents => crate::branches::kept_dependents(
                                    bm,
                                    repo,
                                    mb,
                                    head_id,
                                ),
                                StackChoice::Descendants => crate::branches::kept_descendants(
                                    bm,
                                    repo,
                                    mb,
                                ),
                                StackChoice::All => bm,
                            };
                            Some(
                                Seq::empty().push(
                                    StackStateView { base: b, onto: o, branches: kept },
                                ),
                            )
                        },
                    },
                }
            },
        }
    }
}

/// The orchestrator's aggregate: the branch index, the protected subset,
/// the head commit, the stacks under management, and the behavioural
/// flags of the invocation.
#[derive(Debug)]
pub struct State {
    pub branches: Branches,
    pub protected_branches: Branches,
    pub head_commit: Commit,
    pub stacks: Vec<StackState>,
    pub rebase: bool,
    pub pull: bool,
    pub push: bool,
    pub dry_run: bool,
    pub backup_capacity: Option<usize>,
    pub show_format: Format,
    pub show_stacked: bool,
}

impl State {
    /// Builds the orchestrator state from a snapshot, the invocation's
    /// flags, and the resolved configuration. Pulling implies rebasing.
    /// Fails with [`Error::Config`] when a protected pattern is malformed,
    /// and with [`Error::Usage`] when a named branch does not exist, a
    /// base cannot be resolved, or base and HEAD share no history.
    pub fn new(repo: &Repo, opts: &Options, config: &Config) -> (r: Result<State, Error>)
        requires
            repo.inv(),
            !(opts.base is Some && opts.onto is Some && config.stack == StackChoice::All),
        ensures
            match r {
                Ok(st) => {
                    &&& st.rebase == (opts.rebase || opts.pull)
                    &&& st.pull == opts.pull
                    &&& st.push == opts.push
                    &&& st.dry_run == opts.dry_run
                    &&& st.backup_capacity == config.capacity
                    &&& st.show_format == config.format
                    &&& st.show_stacked == config.show_stacked
                    &&& st.branches@ == repo@.branches
                    &&& st.protected_branches@ == crate::branches::kept_protected(
                        repo@.branches,
                        spec_patterns(config.protected_branches@),
                    )
                    &&& st.head_commit@ == repo@.commit_of(repo@.head_id)
                    &&& spec_stacks(
                        repo@,
                        repo@.branches,
                        st.protected_branches@,
                        match opts.base {
                            Some(ref n) => Some(n@),
                            None => None,
                        },
                        match opts.onto {
                            Some(ref n) => Some(n@),
                            None => None,
                        },
                        config.stack,
                        repo@.head_id,
                    ) == Some(stack_views(st.stacks@))
                },
                Err(e) => {
                    ||| (e == Error::Config && exists|t: int|
                        0 <= t < config.protected_branches@.len() && !crate::protect::pattern_ok(
                            (#[trigger] config.protected_branches@[t])@,
                        ))
                    ||| (e == Error::Usage && spec_stacks(
                        repo@,
                        repo@.branches,
                        crate::branches::kept_protected(
                            repo@.branches,
                            spec_patterns(config.protected_branches@),
                        ),
                        match opts.base {
                            Some(ref n) => Some(n@),
                            None => None,
                        },
                        match opts.onto {
                            Some(ref n) => Some(n@),
                            None => None,
                        },
                        config.stack,
                        repo@.head_id,
                    ) is None)
                },
            },
    {
        let matcher = match ProtectedBranches::new(&config.protected_branches) {
            Ok(m) => m,
            Err(e) => {
                return Err(Error::Config);
            },
        };
        let branches = Branches::new(repo.local_branches());
        proof {
            lemma_spec_patterns(config.protected_branches@);
            assert(matcher@ =~= spec_patterns(config.protected_branches@));
            assert(branches@ == repo@.branches);
        }
        let protected_branches = branches.protected(&matcher);
        let head_id = repo.head_id();
        let head_commit = match repo.find_commit(head_id) {
            Some(c) => c,
            None => {
                proof {
                    assert(false);
                }
                return Err(Error::Usage);
            },
        };
        let ghost prot = protected_branches@;
        let ghost bm = repo@.branches;
        let base_is_some = opts.base.is_some();
        let onto_is_some = opts.onto.is_some();
        let all = match config.stack {
            StackChoice::All => true,
            _ => false,
        };
        let stacks: Vec<StackState>;
        if base_is_some && !onto_is_some && all {
            let bn = match &opts.base {
                Some(n) => n,
                None => {
                    proof {
                        assert(false);
                    }
                    return Err(Error::Usage);
                },
            };
            let b = match repo.find_local_branch(bn) {
                Some(b) => b,
                None => {
                    return Err(Error::Usage);
                },
            };
            let onto = b.clone();
            let mut v: Vec<StackState> = Vec::new();
            v.push(StackState { base: b, onto, branches: branches.all() });
            proof {
                lemma_stack_views(v@);
                assert(stack_views(v@) =~= Seq::empty().push(v@[0]@));
            }
            stacks = v;
        } else if !base_is_some && onto_is_some && all {
            let on = match &opts.onto {
                Some(n) => n,
                None => {
                    proof {
                        assert(false);
                    }
                    return Err(Error::Usage);
                },
            };
            let b = match repo.find_local_branch(on) {
                Some(b) => b,
                None => {
                    return Err(Error::Usage);
                },
            };
            let base = b.clone();
            let mut v: Vec<StackState> = Vec::new();
            v.push(StackState { base, onto: b, branches: branches.all() });
            proof {
                lemma_stack_views(v@);
                assert(stack_views(v@) =~= Seq::empty().push(v@[0]@));
            }
            stacks = v;
        } else if !base_is_some && !onto_is_some && all {
            let mut v: Vec<StackState> = Vec::new();
            let n = branches.len();
            let mut i: usize = 0;
            proof {
                lemma_stack_views(v@);
                assert(spec_groups(repo@, prot, bm.subrange(0, 0)) =~~= Some(
                    Seq::<(BranchView, Seq<BranchView>)>::empty(),
                ));
            }
            let ghost gs: Seq<(BranchView, Seq<BranchView>)> = Seq::empty();
            let mut gs_track = Ghost(gs);
            while i < n
                invariant
                    repo.inv(),
                    n == branches@.len(),
                    branches@ == bm,
                    i <= n,
                    spec_groups(repo@, prot, bm.subrange(0, i as int)) == Some(gs_track@),
                    stack_views(v@) == groups_to_stacks(gs_track@),
                    v@.len() == gs_track@.len(),
                    forall|t: int|
                        0 <= t < v@.len() ==> (#[trigger] v@[t])@.base == gs_track@[t].0 && v@[t]@.onto
                            == gs_track@[t].0 && v@[t]@.branches == gs_track@[t].1,
                decreases n - i,
            {
                let ghost pre = bm.subrange(0, i as int);
                let ghost post = bm.subrange(0, i + 1);
                assert(post.drop_last() =~= pre);
                assert(post.last() == bm[i as int]);
                let bid = branches.item(i).id;
                proof {
                    assert(repo@.contains_commit(bm[i as int].id));
                }
                let p = match crate::branches::find_protected_base(repo, &protected_branches, bid) {
                    Some(p) => p,
                    None => {
                        proof {
                            lemma_groups_fail(repo@, prot, bm, i as int);
                        }
                        return Err(Error::Usage);
                    },
                };
                let b = branches.item(i).clone();
                let ghost gb = b@;
                let ghost gp = p@;
                let mut gi: usize = 0;
                let vn = v.len();
                let mut found = false;
                while gi < vn
                    invariant
                        gi <= vn,
                        vn == v@.len(),
                        v@.len() == gs_track@.len(),
                        forall|t: int|
                            0 <= t < v@.len() ==> (#[trigger] v@[t])@.base == gs_track@[t].0
                                && v@[t]@.onto == gs_track@[t].0 && v@[t]@.branches
                                == gs_track@[t].1,
                        !found,
                        forall|t: int| 0 <= t < gi ==> (#[trigger] gs_track@[t]).0.name != gp.name,
                    decreases vn - gi,
                {
                    if crate::names::str_eq(&v[gi].base.name, &p.name) {
                        found = true;
                        break ;
                    }
                    gi = gi + 1;
                }
                proof {
                    lemma_group_pos_rel(gs_track@, gp.name, gi as int, found);
                }
                if found {
                    let ghost vpre = v@;
                    let e = vstd::std_specs::vec::vec_index_mut(&mut v, gi);
                    e.branches.insert(b);
                    proof {
                        lemma_stack_views(v@);
                        lemma_stack_views(vpre);
                        assert(v@ =~= vpre.update(gi as int, v@[gi as int]));
                        gs_track@ = upsert_group(gs_track@, gp, gb);
                        assert(stack_views(v@) =~= groups_to_stacks(gs_track@));
                    }
                } else {
                    let onto = p.clone();
                    let mut nb = Branches::new_empty();
                    nb.insert(b);
                    let ghost vpre = v@;
                    v.push(StackState { base: p, onto, branches: nb });
                    proof {
                        lemma_stack_views(v@);
                        lemma_stack_views(vpre);
                        assert(v@.drop_last() =~= vpre);
                        gs_track@ = upsert_group(gs_track@, gp, gb);
                        assert(Seq::<BranchView>::empty().push(gb) =~= seq![gb]);
                        assert(stack_views(v@) =~= groups_to_stacks(gs_track@));
                    }
                }
                i = i + 1;
            }
            proof {
                assert(bm.subrange(0, bm.len() as int) =~= bm);
            }
            stacks = v;
        } else {
            let base = if base_is_some {
                let bn = match &opts.base {
                    Some(n) => n,
                    None => {
                        proof {
                            assert(false);
                        }
                        return Err(Error::Usage);
                    },
                };
                match repo.find_local_branch(bn) {
                    Some(b) => b,
                    None => {
                        return Err(Error::Usage);
                    },
                }
            } else {
                match crate::branches::find_protected_base(repo, &protected_branches, head_id) {
                    Some(b) => b,
                    None => {
                        return Err(Error::Usage);
                    },
                }
            };
            let onto = if onto_is_some {
                let on = match &opts.onto {
                    Some(n) => n,
                    None => {
                        proof {
                            assert(false);
                        }
                        return Err(Error::Usage);
                    },
                };
                match repo.find_local_branch(on) {
                    Some(b) => b,
                    None => {
                        return Err(Error::Usage);
                    },
                }
            } else {
                base.clone()
            };
            proof {
                if base_is_some {
                    repo@.lemma_branch_idx(base@.name);
                } else {
                    crate::branches::lemma_best_base_eligible(prot, repo@, head_id);
                }
                assert(repo@.contains_commit(base@.id));
            }
            let mb = match repo.merge_base(base.id, head_id) {
                Some(m) => m,
                None => {
                    return Err(Error::Usage);
                },
            };
            let kept = match config.stack {
                StackChoice::Current => branches.branch(repo, mb, head_id),
                StackChoice::Dependents => branches.dependents(repo, mb, head_id),
                StackChoice::Descendants => branches.descendants(repo, mb),
                StackChoice::All => branches.all(),
            };
            let mut v: Vec<StackState> = Vec::new();
            v.push(StackState { base, onto, branches: kept });
            proof {
                lemma_stack_views(v@);
                assert(stack_views(v@) =~= Seq::empty().push(v@[0]@));
            }
            stacks = v;
        }
        let rebase = opts.rebase || opts.pull;
        Ok(
            State {
                branches,
                protected_branches,
                head_commit,
                stacks,
                rebase,
                pull: opts.pull,
                push: opts.push,
                dry_run: opts.dry_run,
                backup_capacity: config.capacity,
                show_format: config.format,
                show_stacked: config.show_stacked,
            },
        )
    }
}

/// When some branch of a prefix has no protected base, the whole grouping
/// fails.
pub proof fn lemma_groups_fail(repo: RepoView, prot: Seq<BranchView>, bm: Seq<BranchView>, i: int)
    requires
        0 <= i < bm.len(),
        best_base(prot, repo, bm[i].id) is None,
    ensures
        spec_groups(repo, prot, bm) is None,
    decreases bm.len(),
{
    if bm.len() > 0 {
        if i == bm.len() - 1 {
        } else {
            assert(bm.drop_last()[i] == bm[i]);
            lemma_groups_fail(repo, prot, bm.drop_last(), i);
        }
    }
}

/// The loop's linear search finds the first group with the name, as
/// `group_pos` names it.
pub proof fn lemma_group_pos_rel(
    gs: Seq<(BranchView, Seq<BranchView>)>,
    name: Seq<char>,
    gi: int,
    found: bool,
)
    requires
        0 <= gi <= gs.len(),
        found ==> gi < gs.len() && gs[gi].0.name == name,
        forall|t: int| 0 <= t < gi ==> (#[trigger] gs[t]).0.name != name,
        !found ==> gi == gs.len(),
    ensures
        found ==> group_pos(gs, name) == gi,
        !found ==> group_pos(gs, name) == -1,
    decreases gs.len(),
{
    if gs.len() > 0 {
        if gs[0].0.name == name {
        } else {
            assert forall|t: int| 0 <= t < gi - 1 implies (#[trigger] gs.drop_first()[t]).0.name
                != name by {
                assert(gs.drop_first()[t] == gs[t + 1]);
            }
            if found {
                assert(gs.drop_first()[gi - 1] == gs[gi]);
                lemma_group_pos_rel(gs.drop_first(), name, gi - 1, true);
            } else {
                lemma_group_pos_rel(gs.drop_first(), name, gi - 1, false);
            }
        }
    }
}


/// The names of a branch list.
pub open spec fn names_of(bs: Seq<BranchView>) -> Seq<Seq<char>> {
    bs.map_values(|b: BranchView| b.name)
}

/// The names, element by element.
pub proof fn lemma_names_of(bs: Seq<BranchView>)
    ensures
        names_of(bs).len() == bs.len(),
        forall|i: int| 0 <= i < bs.len() ==> names_of(bs)[i] == (#[trigger] bs[i]).name,
{
}

/// Each name paired with the same list of pushable ancestors.
pub open spec fn paired(names: Seq<Seq<char>>, anc: Seq<Seq<char>>) -> Seq<
    (Seq<char>, Seq<Seq<char>>),
>
    decreases names.len(),
{
    if names.len() == 0 {
        Seq::empty()
    } else {
        paired(names.drop_last(), anc).push((names.last(), anc))
    }
}

/// The publish plan of an annotated tree: for every pushable node, each of
/// its branch names paired with the names of the pushable branches above
/// it — a failed push of an ancestor blocks its descendants.
pub open spec fn spec_push_plan(n: crate::graph::NodeView, anc: Seq<Seq<char>>) -> Seq<
    (Seq<char>, Seq<Seq<char>>),
>
    decreases n,
{
    let own = if n.pushable {
        paired(names_of(n.branches), anc)
    } else {
        Seq::empty()
    };
    let child_anc = if n.pushable {
        anc + names_of(n.branches)
    } else {
        anc
    };
    own + spec_push_plan_forest(n.children, child_anc)
}

/// The publish plan over each tree of a forest, in order.
pub open spec fn spec_push_plan_forest(
    cs: Seq<crate::graph::NodeView>,
    anc: Seq<Seq<char>>,
) -> Seq<(Seq<char>, Seq<Seq<char>>)>
    decreases cs,
{
    if cs.len() == 0 {
        Seq::empty()
    } else {
        spec_push_plan_forest(cs.drop_last(), anc) + spec_push_plan(cs.last(), anc)
    }
}

/// One branch to publish, with the pushable branches above it: when one of
/// those failed to push, this one is not attempted.
#[derive(Debug)]
pub struct PushItem {
    pub name: String,
    pub ancestors: Vec<String>,
}

/// The mathematical value of a list of push items.
pub open spec fn push_item_views(v: Seq<PushItem>) -> Seq<(Seq<char>, Seq<Seq<char>>)> {
    v.map_values(
        |p: PushItem| (p.name@, crate::executor::string_views(p.ancestors@)),
    )
}

/// The values, element by element.
pub proof fn lemma_push_item_views(v: Seq<PushItem>)
    ensures
        push_item_views(v).len() == v.len(),
        forall|i: int|
            0 <= i < v.len() ==> push_item_views(v)[i] == (
                (#[trigger] v[i]).name@,
                crate::executor::string_views(v[i].ancestors@),
            ),
{
}

/// Copies a list of strings.
fn copy_names(v: &Vec<String>) -> (r: Vec<String>)
    ensures
        crate::executor::string_views(r@) == crate::executor::string_views(v@),
{
    let ghost sv = crate::executor::string_views(v@);
    proof {
        crate::executor::lemma_string_views(v@);
    }
    let mut r: Vec<String> = Vec::new();
    let mut i: usize = 0;
    proof {
        crate::executor::lemma_string_views(r@);
        assert(crate::executor::string_views(r@) =~= sv.subrange(0, 0));
    }
    while i < v.len()
        invariant
            i <= v@.len(),
            sv == crate::executor::string_views(v@),
            sv.len() == v@.len(),
            forall|t: int| 0 <= t < v@.len() ==> sv[t] == (#[trigger] v@[t])@,
            crate::executor::string_views(r@) == sv.subrange(0, i as int),
        decreases v@.len() - i,
    {
        let ghost pre = r@;
        let c = v[i].clone();
        let ghost gc = c;
        r.push(c);
        proof {
            crate::executor::lemma_string_views_push(pre, gc);
            assert(crate::executor::string_views(r@) =~= sv.subrange(0, i + 1));
        }
        i = i + 1;
    }
    proof {
        assert(sv.subrange(0, sv.len() as int) =~= sv);
    }
    r
}

/// Appends the publish plan of one tree.
fn push_plan_into(node: &Node, anc: &Vec<String>, out: &mut Vec<PushItem>)
    ensures
        push_item_views(final(out)@) == push_item_views(old(out)@) + spec_push_plan(
            node@,
            crate::executor::string_views(anc@),
        ),
    decreases *node,
{
    let ghost base = push_item_views(old(out)@);
    let ghost av = crate::executor::string_views(anc@);
    let mut child_anc = copy_names(anc);
    if node.pushable {
        let ghost nb = crate::graph::branch_views(node.branches@);
        proof {
            crate::graph::lemma_branch_views(node.branches@);
            lemma_names_of(nb);
            lemma_push_item_views(out@);
            assert(push_item_views(out@) =~= base + paired(
                names_of(nb).subrange(0, 0),
                av,
            ));
        }
        let mut t: usize = 0;
        while t < node.branches.len()
            invariant
                t <= node.branches@.len(),
                nb == crate::graph::branch_views(node.branches@),
                nb.len() == node.branches@.len(),
                forall|u: int|
                    0 <= u < node.branches@.len() ==> nb[u] == (#[trigger] node.branches@[u])@,
                names_of(nb).len() == nb.len(),
                forall|u: int| 0 <= u < nb.len() ==> names_of(nb)[u] == (#[trigger] nb[u]).name,
                av == crate::executor::string_views(anc@),
                push_item_views(out@) == base + paired(
                    names_of(nb).subrange(0, t as int),
                    av,
                ),
            decreases node.branches@.len() - t,
        {
            let ghost pre = out@;
            let item = PushItem { name: node.branches[t].name.clone(), ancestors: copy_names(anc) };
            let ghost gi = item;
            out.push(item);
            proof {
                lemma_push_item_views(out@);
                lemma_push_item_views(pre);
                assert(out@.drop_last() =~= pre);
                assert(names_of(nb).subrange(0, t + 1).drop_last() =~= names_of(nb).subrange(
                    0,
                    t as int,
                ));
                assert(names_of(nb).subrange(0, t + 1).last() == names_of(nb)[t as int]);
                assert forall|u: int| 0 <= u < out@.len() implies push_item_views(out@)[u] == (base
                    + paired(names_of(nb).subrange(0, t + 1), av))[u] by {
                    if u < out@.len() - 1 {
                        assert(out@[u] == pre[u]);
                    } else {
                        assert(out@[u] == gi);
                    }
                }
                assert(push_item_views(out@) =~= base + paired(
                    names_of(nb).subrange(0, t + 1),
                    av,
                ));
            }
            t = t + 1;
        }
        proof {
            assert(names_of(nb).subrange(0, names_of(nb).len() as int) =~= names_of(nb));
        }
        let mut u: usize = 0;
        let ghost cpre = crate::executor::string_views(child_anc@);
        while u < node.branches.len()
            invariant
                u <= node.branches@.len(),
                nb == crate::graph::branch_views(node.branches@),
                nb.len() == node.branches@.len(),
                forall|w: int|
                    0 <= w < node.branches@.len() ==> nb[w] == (#[trigger] node.branches@[w])@,
                names_of(nb).len() == nb.len(),
                forall|w: int| 0 <= w < nb.len() ==> names_of(nb)[w] == (#[trigger] nb[w]).name,
                cpre == av,
                crate::executor::string_views(child_anc@) == av + names_of(nb).subrange(
                    0,
                    u as int,
                ),
            decreases node.branches@.len() - u,
        {
            let ghost pre = child_anc@;
            let c = node.branches[u].name.clone();
            let ghost gc = c;
            child_anc.push(c);
            proof {
                crate::executor::lemma_string_views_push(pre, gc);
                assert(crate::executor::string_views(child_anc@) =~= av + names_of(nb).subrange(
                    0,
                    u + 1,
                ));
            }
            u = u + 1;
        }
        proof {
            assert(names_of(nb).subrange(0, names_of(nb).len() as int) =~= names_of(nb));
        }
    } else {
        proof {
            assert(push_item_views(out@) =~= base + Seq::<(Seq<char>, Seq<Seq<char>>)>::empty());
        }
    }
    let ghost mid = push_item_views(out@);
    let ghost cav = crate::executor::string_views(child_anc@);
    let ghost fv = node@.children;
    proof {
        crate::graph::lemma_forest_view(node.children@);
        assert(spec_push_plan_forest(fv.subrange(0, 0), cav) =~= Seq::<(
            Seq<char>,
            Seq<Seq<char>>,
        )>::empty());
        assert(mid =~= mid + spec_push_plan_forest(fv.subrange(0, 0), cav));
    }
    let mut i: usize = 0;
    while i < node.children.len()
        invariant
            i <= node.children@.len(),
            fv == crate::graph::forest_view(node.children@),
            fv.len() == node.children@.len(),
            forall|t: int|
                0 <= t < node.children@.len() ==> fv[t] == crate::graph::node_view(
                    #[trigger] node.children@[t],
                ),
            cav == crate::executor::string_views(child_anc@),
            push_item_views(out@) == mid + spec_push_plan_forest(
                fv.subrange(0, i as int),
                cav,
            ),
        decreases node.children@.len() - i,
    {
        proof {
            assert(decreases_to!(*node => node.children));
            assert(decreases_to!(node.children => node.children@));
            assert(decreases_to!(node.children@ => node.children@[i as int]));
        }
        push_plan_into(&node.children[i], &child_anc, out);
        proof {
            assert(fv.subrange(0, i + 1).drop_last() =~= fv.subrange(0, i as int));
            assert(fv.subrange(0, i + 1).last() == fv[i as int]);
            assert(push_item_views(out@) =~= mid + spec_push_plan_forest(
                fv.subrange(0, i + 1),
                cav,
            ));
        }
        i = i + 1;
    }
    proof {
        assert(fv.subrange(0, fv.len() as int) =~= fv);
        assert(push_item_views(out@) =~= base + spec_push_plan(node@, av));
    }
}

/// The publish plan of an annotated graph: each pushable branch with the
/// pushable branches above it, in depth-first order.
pub fn push_plan(root: &Node) -> (r: Vec<PushItem>)
    ensures
        push_item_views(r@) == spec_push_plan(root@, Seq::empty()),
{
    let mut out: Vec<PushItem> = Vec::new();
    let anc: Vec<String> = Vec::new();
    proof {
        lemma_push_item_views(out@);
        crate::executor::lemma_string_views(anc@);
        assert(push_item_views(out@) =~= Seq::<(Seq<char>, Seq<Seq<char>>)>::empty());
        assert(crate::executor::string_views(anc@) =~= Seq::<Seq<char>>::empty());
    }
    push_plan_into(root, &anc, &mut out);
    proof {
        assert(Seq::<(Seq<char>, Seq<Seq<char>>)>::empty() + spec_push_plan(root@, Seq::empty())
            =~= spec_push_plan(root@, Seq::empty()));
    }
    out
}

/// Whether a planned push should go ahead: none of the pushable branches
/// above it failed.
pub fn should_push(item: &PushItem, failed: &Vec<String>) -> (r: bool)
    ensures
        r == (forall|t: int|
            0 <= t < item.ancestors@.len() ==> !crate::executor::string_views(failed@).contains(
                (#[trigger] item.ancestors@[t])@,
            )),
{
    let ghost fv = crate::executor::string_views(failed@);
    proof {
        crate::executor::lemma_string_views(failed@);
    }
    let mut t: usize = 0;
    while t < item.ancestors.len()
        invariant
            t <= item.ancestors@.len(),
            fv == crate::executor::string_views(failed@),
            fv.len() == failed@.len(),
            forall|u: int| 0 <= u < failed@.len() ==> fv[u] == (#[trigger] failed@[u])@,
            forall|u: int| 0 <= u < t ==> !fv.contains((#[trigger] item.ancestors@[u])@),
        decreases item.ancestors@.len() - t,
    {
        let mut k: usize = 0;
        while k < failed.len()
            invariant
                t < item.ancestors@.len(),
                k <= failed@.len(),
                fv == crate::executor::string_views(failed@),
                fv.len() == failed@.len(),
                forall|u: int| 0 <= u < failed@.len() ==> fv[u] == (#[trigger] failed@[u])@,
                forall|u: int| 0 <= u < k ==> fv[u] != item.ancestors@[t as int]@,
            decreases failed@.len() - k,
        {
            if crate::names::str_eq(&failed[k], &item.ancestors[t]) {
                assert(fv.contains(item.ancestors@[t as int]@));
                return false;
            }
            k = k + 1;
        }
        proof {
            if fv.contains(item.ancestors@[t as int]@) {
                let u = choose|u: int| 0 <= u < fv.len() && fv[u] == item.ancestors@[t as int]@;
                assert(false);
            }
        }
        t = t + 1;
    }
    true
}


/// One step of pruning after a pull.
#[derive(Debug)]
pub enum DropOp {
    /// Move HEAD onto the branch, before deleting the branch it sat on.
    Switch(String),
    /// Delete the branch.
    Delete(String),
}

/// The mathematical value of a [`DropOp`].
pub enum DropOpView {
    Switch(Seq<char>),
    Delete(Seq<char>),
}

impl View for DropOp {
    type V = DropOpView;

    open spec fn view(&self) -> DropOpView {
        match self {
            DropOp::Switch(n) => DropOpView::Switch(n@),
            DropOp::Delete(n) => DropOpView::Delete(n@),
        }
    }
}

/// The values of a list of drop steps.
pub open spec fn drop_op_views(v: Seq<DropOp>) -> Seq<DropOpView> {
    v.map_values(|o: DropOp| o@)
}

/// The values, element by element.
pub proof fn lemma_drop_op_views(v: Seq<DropOp>)
    ensures
        drop_op_views(v).len() == v.len(),
        forall|i: int| 0 <= i < v.len() ==> drop_op_views(v)[i] == (#[trigger] v[i])@,
{
}

/// The branches at this commit that are not protected by name, in index
/// order.
pub open spec fn unprotected_at(
    bm: Seq<BranchView>,
    prot: Seq<BranchView>,
    id: CommitId,
) -> Seq<BranchView>
    decreases bm.len(),
{
    if bm.len() == 0 {
        Seq::empty()
    } else {
        let r = unprotected_at(bm.drop_last(), prot, id);
        if bm.last().id == id && !crate::annotate::name_in(prot, bm.last().name) {
            r.push(bm.last())
        } else {
            r
        }
    }
}

/// The steps that prune one branch: the branch that just received the pull
/// is kept; when HEAD sat on the branch, HEAD first moves to the pulled
/// branch.
pub open spec fn ops_for_branch(
    b: BranchView,
    potential_head: Seq<char>,
    head_name: Option<Seq<char>>,
) -> Seq<DropOpView> {
    if b.name == potential_head {
        Seq::empty()
    } else if head_name == Some(b.name) {
        Seq::empty().push(DropOpView::Switch(potential_head)).push(DropOpView::Delete(b.name))
    } else {
        Seq::empty().push(DropOpView::Delete(b.name))
    }
}

/// The steps that prune the candidates of one commit, in order.
pub open spec fn ops_for_list(
    bs: Seq<BranchView>,
    potential_head: Seq<char>,
    head_name: Option<Seq<char>>,
) -> Seq<DropOpView>
    decreases bs.len(),
{
    if bs.len() == 0 {
        Seq::empty()
    } else {
        ops_for_list(bs.drop_last(), potential_head, head_name) + ops_for_branch(
            bs.last(),
            potential_head,
            head_name,
        )
    }
}

/// The whole pruning plan after a pull: for every newly arrived commit,
/// every non-protected branch sitting at it — other than the branch that
/// received the pull — is deleted, HEAD moving to the pulled branch first
/// when it sat on a victim.
pub open spec fn spec_drop_ops(
    bm: Seq<BranchView>,
    prot: Seq<BranchView>,
    ids: Seq<CommitId>,
    potential_head: Seq<char>,
    head_name: Option<Seq<char>>,
) -> Seq<DropOpView>
    decreases ids.len(),
{
    if ids.len() == 0 {
        Seq::empty()
    } else {
        spec_drop_ops(bm, prot, ids.drop_last(), potential_head, head_name) + ops_for_list(
            unprotected_at(bm, prot, ids.last()),
            potential_head,
            head_name,
        )
    }
}

/// Plans the pruning of branches made redundant by a pull.
pub fn plan_drop_branches(
    branches: &Branches,
    protected: &Branches,
    commit_ids: &Vec<CommitId>,
    potential_head: &String,
    head_name: &Option<String>,
) -> (r: Vec<DropOp>)
    ensures
        drop_op_views(r@) == spec_drop_ops(
            branches@,
            protected@,
            commit_ids@,
            potential_head@,
            match head_name {
                Some(n) => Some(n@),
                None => None,
            },
        ),
{
    let ghost bm = branches@;
    let ghost prot = protected@;
    let ghost hn: Option<Seq<char>> = match head_name {
        Some(n) => Some(n@),
        None => None,
    };
    let mut out: Vec<DropOp> = Vec::new();
    proof {
        lemma_drop_op_views(out@);
        assert(drop_op_views(out@) =~= Seq::<DropOpView>::empty());
    }
    let mut i: usize = 0;
    while i < commit_ids.len()
        invariant
            bm == branches@,
            prot == protected@,
            hn == (match head_name {
                Some(n) => Some(n@),
                None => None,
            }),
            i <= commit_ids@.len(),
            drop_op_views(out@) == spec_drop_ops(
                bm,
                prot,
                commit_ids@.subrange(0, i as int),
                potential_head@,
                hn,
            ),
        decreases commit_ids@.len() - i,
    {
        let ghost pre_ids = commit_ids@.subrange(0, i as int);
        let ghost post_ids = commit_ids@.subrange(0, i + 1);
        assert(post_ids.drop_last() =~= pre_ids);
        assert(post_ids.last() == commit_ids@[i as int]);
        let id = commit_ids[i];
        let ghost cands = unprotected_at(bm, prot, id);
        let ghost base_ops = drop_op_views(out@);
        let n = branches.len();
        let mut k: usize = 0;
        proof {
            assert(base_ops + ops_for_list(
                unprotected_at(bm.subrange(0, 0), prot, id),
                potential_head@,
                hn,
            ) =~= base_ops);
        }
        while k < n
            invariant
                bm == branches@,
                prot == protected@,
                hn == (match head_name {
                    Some(n2) => Some(n2@),
                    None => None,
                }),
                n == branches@.len(),
                k <= n,
                drop_op_views(out@) == base_ops + ops_for_list(
                    unprotected_at(bm.subrange(0, k as int), prot, id),
                    potential_head@,
                    hn,
                ),
            decreases n - k,
        {
            let ghost pre = bm.subrange(0, k as int);
            let ghost post = bm.subrange(0, k + 1);
            assert(post.drop_last() =~= pre);
            assert(post.last() == bm[k as int]);
            let b = branches.item(k);
            let hit = b.id.eq_id(&id) && !protected.contains_branch_name(&b.name);
            proof {
                if hit {
                    assert(unprotected_at(post, prot, id) == unprotected_at(pre, prot, id).push(
                        bm[k as int],
                    ));
                } else {
                    assert(unprotected_at(post, prot, id) == unprotected_at(pre, prot, id));
                }
            }
            if hit {
                let ghost opre = drop_op_views(out@);
                if crate::names::str_eq(&b.name, potential_head) {
                    proof {
                        assert(ops_for_branch(bm[k as int], potential_head@, hn)
                            =~= Seq::<DropOpView>::empty());
                        lemma_ops_for_list_step(
                            unprotected_at(pre, prot, id),
                            bm[k as int],
                            potential_head@,
                            hn,
                        );
                        assert(drop_op_views(out@) =~= base_ops + ops_for_list(
                            unprotected_at(post, prot, id),
                            potential_head@,
                            hn,
                        ));
                    }
                } else {
                    let on_head = match head_name {
                        Some(h) => crate::names::str_eq(h, &b.name),
                        None => false,
                    };
                    if on_head {
                        let ghost p1 = out@;
                        let c1 = DropOp::Switch(potential_head.clone());
                        let ghost g1 = c1;
                        out.push(c1);
                        proof {
                            lemma_drop_op_views(out@);
                            lemma_drop_op_views(p1);
                            assert(out@.drop_last() =~= p1);
                            assert forall|t: int|
                                0 <= t < out@.len() implies drop_op_views(out@)[t] == opre.push(
                                g1@,
                            )[t] by {
                                if t < out@.len() - 1 {
                                    assert(out@[t] == p1[t]);
                                } else {
                                    assert(out@[t] == g1);
                                }
                            }
                            assert(drop_op_views(out@) =~= opre.push(g1@));
                        }
                    }
                    let ghost p2 = out@;
                    let ghost o2 = drop_op_views(out@);
                    let c2 = DropOp::Delete(b.name.clone());
                    let ghost g2 = c2;
                    out.push(c2);
                    proof {
                        lemma_drop_op_views(out@);
                        lemma_drop_op_views(p2);
                        assert(out@.drop_last() =~= p2);
                        assert forall|t: int|
                            0 <= t < out@.len() implies drop_op_views(out@)[t] == o2.push(
                            g2@,
                        )[t] by {
                            if t < out@.len() - 1 {
                                assert(out@[t] == p2[t]);
                            } else {
                                assert(out@[t] == g2);
                            }
                        }
                        assert(drop_op_views(out@) =~= o2.push(g2@));
                        lemma_ops_for_list_step(
                            unprotected_at(pre, prot, id),
                            bm[k as int],
                            potential_head@,
                            hn,
                        );
                        assert(drop_op_views(out@) =~= base_ops + ops_for_list(
                            unprotected_at(post, prot, id),
                            potential_head@,
                            hn,
                        ));
                    }
                }
            }
            k = k + 1;
        }
        proof {
            assert(bm.subrange(0, bm.len() as int) =~= bm);
            assert(drop_op_views(out@) =~= spec_drop_ops(bm, prot, post_ids, potential_head@, hn));
        }
        i = i + 1;
    }
    proof {
        assert(commit_ids@.subrange(0, commit_ids@.len() as int) =~= commit_ids@);
    }
    out
}

/// One pruning step extends the step list of the candidates so far.
pub proof fn lemma_ops_for_list_step(
    bs: Seq<BranchView>,
    b: BranchView,
    potential_head: Seq<char>,
    head_name: Option<Seq<char>>,
)
    ensures
        ops_for_list(bs.push(b), potential_head, head_name) == ops_for_list(
            bs,
            potential_head,
            head_name,
        ) + ops_for_branch(b, potential_head, head_name),
{
    assert(bs.push(b).drop_last() =~= bs);
    assert(bs.push(b).last() == b);
}

} // verus!
