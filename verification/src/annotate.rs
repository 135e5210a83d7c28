//! The annotation passes over a stack graph.
//!
//! Each pass walks the tree and rewrites node actions or flags:
//! protection, rebase planning, fixup recognition, dropping commits that
//! already landed, and the pushable flag. Every pass is a pure transform
//! whose result is pinned to a specification function of its input.

use vstd::prelude::*;

use crate::branches::Branches;
use crate::error::Error;
use crate::graph::{
    forest_has, forest_view, insert_pos, lemma_forest_view, node_view, tree_has, Action, Node,
    NodeView,
};
use crate::ids::CommitId;
use crate::repo::{BranchView, Commit, CommitView};

verus! {

/// Whether the index holds a branch with this name.
pub open spec fn name_in(prot: Seq<BranchView>, name: Seq<char>) -> bool {
    exists|k: int| 0 <= k < prot.len() && prot[k].name == name
}

/// Whether some branch of the node is in the protected index, by name.
pub open spec fn node_branch_protected(n: NodeView, prot: Seq<BranchView>) -> bool {
    exists|t: int| 0 <= t < n.branches.len() && name_in(prot, #[trigger] n.branches[t].name)
}

/// The protection pass: a node becomes `Protected` when one of its
/// branches is in the protected index or when some child came out of the
/// pass protected; other actions are kept.
pub open spec fn spec_protect(n: NodeView, prot: Seq<BranchView>) -> NodeView
    decreases n,
{
    let kids = spec_protect_forest(n.children, prot);
    let hit = node_branch_protected(n, prot) || exists|t: int|
        0 <= t < kids.len() && (#[trigger] kids[t]).action == Action::Protected;
    NodeView {
        action: if hit {
            Action::Protected
        } else {
            n.action
        },
        children: kids,
        ..n
    }
}

/// The protection pass over each tree of a forest.
pub open spec fn spec_protect_forest(cs: Seq<NodeView>, prot: Seq<BranchView>) -> Seq<NodeView>
    decreases cs,
{
    if cs.len() == 0 {
        cs
    } else {
        spec_protect_forest(cs.drop_last(), prot).push(spec_protect(cs.last(), prot))
    }
}

/// Protecting keeps the length of a forest.
pub proof fn lemma_protect_forest_len(cs: Seq<NodeView>, prot: Seq<BranchView>)
    ensures
        spec_protect_forest(cs, prot).len() == cs.len(),
        forall|t: int|
            0 <= t < cs.len() ==> spec_protect_forest(cs, prot)[t] == spec_protect(
                #[trigger] cs[t],
                prot,
            ),
    decreases cs,
{
    if cs.len() > 0 {
        lemma_protect_forest_len(cs.drop_last(), prot);
        assert forall|t: int| 0 <= t < cs.len() implies spec_protect_forest(cs, prot)[t]
            == spec_protect(#[trigger] cs[t], prot) by {
            if t < cs.len() - 1 {
                assert(cs.drop_last()[t] == cs[t]);
            }
        }
    }
}

/// Whether some branch of this node is in the protected index, by name.
fn branch_hit(branches: &Vec<crate::repo::Branch>, protected: &Branches) -> (r: bool)
    ensures
        r == (exists|t: int|
            0 <= t < branches@.len() && name_in(protected@, (#[trigger] branches@[t])@.name)),
{
    let mut t: usize = 0;
    while t < branches.len()
        invariant
            t <= branches@.len(),
            forall|u: int|
                0 <= u < t ==> !name_in(protected@, (#[trigger] branches@[u])@.name),
        decreases branches@.len() - t,
    {
        if protected.contains_branch_name(&branches[t].name) {
            return true;
        }
        t = t + 1;
    }
    false
}

/// The protection pass: marks `Protected` every node carrying a protected
/// branch, and every ancestor of such a node.
pub fn protect_branches(node: Node, protected: &Branches) -> (r: Node)
    ensures
        r@ == spec_protect(node@, protected@),
    decreases node,
{
    let ghost n0 = node;
    let Node { local_commit, branches, action, pushable, children } = node;
    proof {
        assert(decreases_to!(n0 => n0.children));
        assert(decreases_to!(n0.children => n0.children@));
    }
    let kids = protect_forest(children, Ghost(n0.children@), protected);
    let ghost kv = forest_view(kids@);
    proof {
        lemma_protect_forest_len(n0@.children, protected@);
    }
    let hit_self = branch_hit(&branches, protected);
    let mut hit_child = false;
    let mut t: usize = 0;
    proof {
        lemma_forest_view(kids@);
    }
    while t < kids.len()
        invariant
            kv == forest_view(kids@),
            kv.len() == kids@.len(),
            forall|u: int| 0 <= u < kids@.len() ==> kv[u] == node_view(#[trigger] kids@[u]),
            t <= kids@.len(),
            hit_child == (exists|u: int|
                0 <= u < t && (#[trigger] kv[u]).action == Action::Protected),
        decreases kids@.len() - t,
    {
        if !hit_child && kids[t].action.is_protected() {
            hit_child = true;
        }
        t = t + 1;
    }
    let act = if hit_self || hit_child {
        Action::Protected
    } else {
        action
    };
    let r = Node { local_commit, branches, action: act, pushable, children: kids };
    proof {
        assert(r@.children == kv);
        assert(r@.branches == n0@.branches);
        crate::graph::lemma_branch_views(branches@);
        if hit_self {
            let t = choose|t: int|
                0 <= t < branches@.len() && name_in(protected@, (#[trigger] branches@[t])@.name);
            assert(n0@.branches[t] == branches@[t]@);
        }
        if node_branch_protected(n0@, protected@) {
            let t = choose|t: int|
                0 <= t < n0@.branches.len() && name_in(
                    protected@,
                    #[trigger] n0@.branches[t].name,
                );
            assert(n0@.branches[t] == branches@[t]@);
        }
        assert(node_branch_protected(n0@, protected@) == hit_self);
        assert(r@ == spec_protect(n0@, protected@));
    }
    r
}

/// The protection pass over each tree of the forest, in order.
fn protect_forest(mut cs: Vec<Node>, ghost_cs0: Ghost<Seq<Node>>, protected: &Branches) -> (r:
    Vec<Node>)
    requires
        ghost_cs0@ == cs@,
    ensures
        forest_view(r@) == spec_protect_forest(forest_view(ghost_cs0@), protected@),
    decreases cs@,
{
    let ghost cs0 = cs@;
    let ghost fv = forest_view(cs0);
    if cs.len() == 0 {
        proof {
            lemma_forest_view(cs@);
        }
        return cs;
    }
    proof {
        lemma_forest_view(cs0);
    }
    let last = match cs.pop() {
        Some(l) => l,
        None => {
            proof {
                assert(false);
            }
            return cs;
        },
    };
    proof {
        assert(last == cs0.last());
        assert(cs@ =~= cs0.drop_last());
        assert(decreases_to!(cs0 => cs0[cs0.len() - 1]));
        assert(cs0[cs0.len() - 1] == last);
    }
    let mut done = protect_forest(cs, Ghost(cs0.drop_last()), protected);
    let pl = protect_branches(last, protected);
    let ghost gp = pl;
    let ghost dpre = done@;
    done.push(pl);
    proof {
        assert(done@ =~= dpre.push(gp));
        assert(done@.drop_last() =~= dpre);
        lemma_forest_view(done@);
        lemma_forest_view(dpre);
        lemma_forest_view(cs0.drop_last());
        lemma_protect_forest_len(forest_view(cs0.drop_last()), protected@);
        lemma_protect_forest_len(fv, protected@);
        assert(fv.len() == cs0.len());
        assert(fv.drop_last() =~= forest_view(cs0.drop_last()));
        assert(fv.last() == node_view(last));
        let target = spec_protect_forest(fv, protected@);
        assert(target == spec_protect_forest(fv.drop_last(), protected@).push(
            spec_protect(fv.last(), protected@),
        ));
        assert forall|t: int| 0 <= t < done@.len() implies forest_view(done@)[t] == target[t] by {
            assert(forest_view(done@)[t] == node_view(done@[t]));
            if t < done@.len() - 1 {
                assert(done@[t] == dpre[t]);
                assert(forest_view(dpre)[t] == node_view(dpre[t]));
                assert(forest_view(dpre)[t] == spec_protect_forest(
                    forest_view(cs0.drop_last()),
                    protected@,
                )[t]);
                assert(spec_protect_forest(forest_view(cs0.drop_last()), protected@)[t]
                    == spec_protect(forest_view(cs0.drop_last())[t], protected@));
                assert(forest_view(cs0.drop_last())[t] == fv.drop_last()[t]);
                assert(fv.drop_last()[t] == fv[t]);
                assert(target[t] == spec_protect(fv[t], protected@));
            } else {
                assert(done@[t] == gp);
                assert(target[t] == spec_protect(fv.last(), protected@));
                assert(gp@ == spec_protect(node_view(last), protected@));
            }
        }
        assert(forest_view(done@) =~= spec_protect_forest(fv, protected@));
    }
    done
}


/// The tree ids of a sequence of commits.
pub open spec fn tree_ids_of(cs: Seq<CommitView>) -> Seq<CommitId> {
    cs.map_values(|c: CommitView| c.tree_id)
}

/// The landed-commit pass: a non-protected node whose commit's tree id
/// appears among the given tree ids is marked `Delete` — identical tree
/// contents mean its change already landed.
pub open spec fn spec_drop(n: NodeView, tids: Seq<CommitId>) -> NodeView
    decreases n,
{
    NodeView {
        action: if n.action != Action::Protected && tids.contains(n.local_commit.tree_id) {
            Action::Delete
        } else {
            n.action
        },
        children: spec_drop_forest(n.children, tids),
        ..n
    }
}

/// The landed-commit pass over each tree of a forest.
pub open spec fn spec_drop_forest(cs: Seq<NodeView>, tids: Seq<CommitId>) -> Seq<NodeView>
    decreases cs,
{
    if cs.len() == 0 {
        cs
    } else {
        spec_drop_forest(cs.drop_last(), tids).push(spec_drop(cs.last(), tids))
    }
}

/// Dropping keeps the length of a forest.
pub proof fn lemma_drop_forest_len(cs: Seq<NodeView>, tids: Seq<CommitId>)
    ensures
        spec_drop_forest(cs, tids).len() == cs.len(),
        forall|t: int|
            0 <= t < cs.len() ==> spec_drop_forest(cs, tids)[t] == spec_drop(
                #[trigger] cs[t],
                tids,
            ),
    decreases cs,
{
    if cs.len() > 0 {
        lemma_drop_forest_len(cs.drop_last(), tids);
        assert forall|t: int| 0 <= t < cs.len() implies spec_drop_forest(cs, tids)[t]
            == spec_drop(#[trigger] cs[t], tids) by {
            if t < cs.len() - 1 {
                assert(cs.drop_last()[t] == cs[t]);
            }
        }
    }
}

/// The landed-commit pass: marks `Delete` every non-protected node whose
/// commit has the same tree as one of the given commits.
pub fn drop_by_tree_id(node: Node, commits: &Vec<Commit>) -> (r: Node)
    ensures
        r@ == spec_drop(node@, tree_ids_of(crate::repo::commit_views(commits@))),
{
    let ghost tids = tree_ids_of(crate::repo::commit_views(commits@));
    proof {
        crate::repo::lemma_commit_views(commits@);
    }
    let mut tv: Vec<CommitId> = Vec::new();
    let mut i: usize = 0;
    while i < commits.len()
        invariant
            i <= commits@.len(),
            tv@ == tids.subrange(0, i as int),
            tids.len() == commits@.len(),
            forall|t: int|
                0 <= t < commits@.len() ==> crate::repo::commit_views(commits@)[t] == (
                #[trigger] commits@[t])@,
        decreases commits@.len() - i,
    {
        assert(tids[i as int] == crate::repo::commit_views(commits@)[i as int].tree_id);
        tv.push(commits[i].tree_id);
        assert(tv@ =~= tids.subrange(0, i + 1));
        i = i + 1;
    }
    assert(tv@ =~= tids);
    drop_walk(node, &tv)
}

/// The landed-commit pass over one tree.
fn drop_walk(node: Node, tids: &Vec<CommitId>) -> (r: Node)
    ensures
        r@ == spec_drop(node@, tids@),
    decreases node,
{
    let ghost n0 = node;
    let Node { local_commit, branches, action, pushable, children } = node;
    let kids = drop_forest(children, Ghost(n0.children@), tids);
    let hit = crate::repo::ids_contain(tids, local_commit.tree_id);
    let act = if !action.is_protected() && hit {
        Action::Delete
    } else {
        action
    };
    let r = Node { local_commit, branches, action: act, pushable, children: kids };
    proof {
        assert(r@.children == forest_view(kids@));
        assert(r@.branches == n0@.branches);
        assert(r@ == spec_drop(n0@, tids@));
    }
    r
}

/// The landed-commit pass over each tree of the forest, in order.
fn drop_forest(mut cs: Vec<Node>, ghost_cs0: Ghost<Seq<Node>>, tids: &Vec<CommitId>) -> (r: Vec<
    Node,
>)
    requires
        ghost_cs0@ == cs@,
    ensures
        forest_view(r@) == spec_drop_forest(forest_view(ghost_cs0@), tids@),
    decreases cs@,
{
    let ghost cs0 = cs@;
    let ghost fv = forest_view(cs0);
    if cs.len() == 0 {
        proof {
            lemma_forest_view(cs@);
        }
        return cs;
    }
    proof {
        lemma_forest_view(cs0);
    }
    let last = match cs.pop() {
        Some(l) => l,
        None => {
            proof {
                assert(false);
            }
            return cs;
        },
    };
    proof {
        assert(last == cs0.last());
        assert(cs@ =~= cs0.drop_last());
        assert(decreases_to!(cs0 => cs0[cs0.len() - 1]));
        assert(cs0[cs0.len() - 1] == last);
    }
    let mut done = drop_forest(cs, Ghost(cs0.drop_last()), tids);
    let pl = drop_walk(last, tids);
    let ghost gp = pl;
    let ghost dpre = done@;
    done.push(pl);
    proof {
        assert(done@ =~= dpre.push(gp));
        assert(done@.drop_last() =~= dpre);
        lemma_forest_view(done@);
        lemma_forest_view(dpre);
        lemma_forest_view(cs0.drop_last());
        lemma_drop_forest_len(forest_view(cs0.drop_last()), tids@);
        lemma_drop_forest_len(fv, tids@);
        assert(fv.len() == cs0.len());
        assert(fv.drop_last() =~= forest_view(cs0.drop_last()));
        assert(fv.last() == node_view(last));
        let target = spec_drop_forest(fv, tids@);
        assert(target == spec_drop_forest(fv.drop_last(), tids@).push(
            spec_drop(fv.last(), tids@),
        ));
        assert forall|t: int| 0 <= t < done@.len() implies forest_view(done@)[t] == target[t] by {
            assert(forest_view(done@)[t] == node_view(done@[t]));
            if t < done@.len() - 1 {
                assert(done@[t] == dpre[t]);
                assert(forest_view(dpre)[t] == node_view(dpre[t]));
                assert(spec_drop_forest(forest_view(cs0.drop_last()), tids@)[t] == spec_drop(
                    forest_view(cs0.drop_last())[t],
                    tids@,
                ));
                assert(forest_view(cs0.drop_last())[t] == fv.drop_last()[t]);
                assert(fv.drop_last()[t] == fv[t]);
                assert(target[t] == spec_drop(fv[t], tids@));
            } else {
                assert(done@[t] == gp);
                assert(target[t] == spec_drop(fv.last(), tids@));
                assert(gp@ == spec_drop(node_view(last), tids@));
            }
        }
        assert(forest_view(done@) =~= spec_drop_forest(fv, tids@));
    }
    done
}

/// Whether a summary line carries a work-in-progress marker: it begins
/// with `WIP` or `wip`.
pub open spec fn is_wip(s: Seq<u8>) -> bool {
    (s.len() >= 3 && s[0] == 87 && s[1] == 73 && s[2] == 80) || (s.len() >= 3 && s[0] == 119
        && s[1] == 105 && s[2] == 112)
}

/// Whether a node can be published on its own: it carries a branch, is a
/// plain pick of a non-merge commit, has no work-in-progress marker, and
/// no ancestor below the nearest protected node spoiled the run.
pub open spec fn node_pushable(n: NodeView, clean: bool) -> bool {
    clean && n.action == Action::Pick && n.branches.len() > 0 && n.local_commit.parent_ids.len()
        == 1 && !is_wip(n.local_commit.summary)
}

/// Whether the descendants of this node still have a clean run up to the
/// nearest protected node.
pub open spec fn child_clean(n: NodeView, clean: bool) -> bool {
    if n.action == Action::Protected {
        true
    } else {
        clean && n.action == Action::Pick && n.local_commit.parent_ids.len() == 1 && !is_wip(
            n.local_commit.summary,
        )
    }
}

/// The pushable pass: sets the `pushable` flag on every node.
pub open spec fn spec_pushable(n: NodeView, clean: bool) -> NodeView
    decreases n,
{
    NodeView {
        pushable: node_pushable(n, clean),
        children: spec_pushable_forest(n.children, child_clean(n, clean)),
        ..n
    }
}

/// The pushable pass over each tree of a forest.
pub open spec fn spec_pushable_forest(cs: Seq<NodeView>, clean: bool) -> Seq<NodeView>
    decreases cs,
{
    if cs.len() == 0 {
        cs
    } else {
        spec_pushable_forest(cs.drop_last(), clean).push(spec_pushable(cs.last(), clean))
    }
}

/// The pushable pass keeps the length of a forest.
pub proof fn lemma_pushable_forest_len(cs: Seq<NodeView>, clean: bool)
    ensures
        spec_pushable_forest(cs, clean).len() == cs.len(),
        forall|t: int|
            0 <= t < cs.len() ==> spec_pushable_forest(cs, clean)[t] == spec_pushable(
                #[trigger] cs[t],
                clean,
            ),
    decreases cs,
{
    if cs.len() > 0 {
        lemma_pushable_forest_len(cs.drop_last(), clean);
        assert forall|t: int| 0 <= t < cs.len() implies spec_pushable_forest(cs, clean)[t]
            == spec_pushable(#[trigger] cs[t], clean) by {
            if t < cs.len() - 1 {
                assert(cs.drop_last()[t] == cs[t]);
            }
        }
    }
}

/// The pushable pass: flags every node that is safe to publish — it has a
/// branch, is a plain pick of a non-merge, non-WIP commit, and every
/// ancestor up to the nearest protected node is such a pick too.
pub fn pushable(node: Node) -> (r: Node)
    ensures
        r@ == spec_pushable(node@, true),
{
    pushable_walk(node, true)
}

/// Whether the summary starts with a work-in-progress marker.
fn wip_check(summary: &Vec<u8>) -> (r: bool)
    ensures
        r == is_wip(summary@),
{
    if summary.len() >= 3 {
        (summary[0] == 87 && summary[1] == 73 && summary[2] == 80) || (summary[0] == 119
            && summary[1] == 105 && summary[2] == 112)
    } else {
        false
    }
}

/// The pushable pass over one tree, with the run state so far.
fn pushable_walk(node: Node, clean: bool) -> (r: Node)
    ensures
        r@ == spec_pushable(node@, clean),
    decreases node,
{
    let ghost n0 = node;
    let Node { local_commit, branches, action, pushable: _, children } = node;
    let wip = wip_check(&local_commit.summary);
    let pick = match action {
        Action::Pick => true,
        _ => false,
    };
    let ok = clean && pick && branches.len() > 0 && local_commit.parent_ids.len() == 1 && !wip;
    let next_clean = if action.is_protected() {
        true
    } else {
        clean && pick && local_commit.parent_ids.len() == 1 && !wip
    };
    proof {
        crate::graph::lemma_branch_views(branches@);
        assert(ok == node_pushable(n0@, clean));
        assert(next_clean == child_clean(n0@, clean));
    }
    let kids = pushable_forest(children, Ghost(n0.children@), next_clean);
    let r = Node { local_commit, branches, action, pushable: ok, children: kids };
    proof {
        assert(r@.children == forest_view(kids@));
        assert(r@.branches == n0@.branches);
        assert(r@ == spec_pushable(n0@, clean));
    }
    r
}

/// The pushable pass over each tree of the forest, in order.
fn pushable_forest(mut cs: Vec<Node>, ghost_cs0: Ghost<Seq<Node>>, clean: bool) -> (r: Vec<Node>)
    requires
        ghost_cs0@ == cs@,
    ensures
        forest_view(r@) == spec_pushable_forest(forest_view(ghost_cs0@), clean),
    decreases cs@,
{
    let ghost cs0 = cs@;
    let ghost fv = forest_view(cs0);
    if cs.len() == 0 {
        proof {
            lemma_forest_view(cs@);
        }
        return cs;
    }
    proof {
        lemma_forest_view(cs0);
    }
    let last = match cs.pop() {
        Some(l) => l,
        None => {
            proof {
                assert(false);
            }
            return cs;
        },
    };
    proof {
        assert(last == cs0.last());
        assert(cs@ =~= cs0.drop_last());
        assert(decreases_to!(cs0 => cs0[cs0.len() - 1]));
        assert(cs0[cs0.len() - 1] == last);
    }
    let mut done = pushable_forest(cs, Ghost(cs0.drop_last()), clean);
    let pl = pushable_walk(last, clean);
    let ghost gp = pl;
    let ghost dpre = done@;
    done.push(pl);
    proof {
        assert(done@ =~= dpre.push(gp));
        assert(done@.drop_last() =~= dpre);
        lemma_forest_view(done@);
        lemma_forest_view(dpre);
        lemma_forest_view(cs0.drop_last());
        lemma_pushable_forest_len(forest_view(cs0.drop_last()), clean);
        lemma_pushable_forest_len(fv, clean);
        assert(fv.len() == cs0.len());
        assert(fv.drop_last() =~= forest_view(cs0.drop_last()));
        assert(fv.last() == node_view(last));
        let target = spec_pushable_forest(fv, clean);
        assert(target == spec_pushable_forest(fv.drop_last(), clean).push(
            spec_pushable(fv.last(), clean),
        ));
        assert forall|t: int| 0 <= t < done@.len() implies forest_view(done@)[t] == target[t] by {
            assert(forest_view(done@)[t] == node_view(done@[t]));
            if t < done@.len() - 1 {
                assert(done@[t] == dpre[t]);
                assert(forest_view(dpre)[t] == node_view(dpre[t]));
                assert(spec_pushable_forest(forest_view(cs0.drop_last()), clean)[t]
                    == spec_pushable(forest_view(cs0.drop_last())[t], clean));
                assert(forest_view(cs0.drop_last())[t] == fv.drop_last()[t]);
                assert(fv.drop_last()[t] == fv[t]);
                assert(target[t] == spec_pushable(fv[t], clean));
            } else {
                assert(done@[t] == gp);
                assert(target[t] == spec_pushable(fv.last(), clean));
                assert(gp@ == spec_pushable(node_view(last), clean));
            }
        }
        assert(forest_view(done@) =~= spec_pushable_forest(fv, clean));
    }
    done
}


/// Whether `s` begins with `p`.
pub open spec fn bytes_start_with(s: Seq<u8>, p: Seq<u8>) -> bool {
    s.len() >= p.len() && s.subrange(0, p.len() as int) == p
}

/// The bytes of `fixup! `.
pub open spec fn fixup_prefix() -> Seq<u8> {
    seq![102u8, 105u8, 120u8, 117u8, 112u8, 33u8, 32u8]
}

/// The bytes of `squash! `.
pub open spec fn squash_prefix() -> Seq<u8> {
    seq![115u8, 113u8, 117u8, 97u8, 115u8, 104u8, 33u8, 32u8]
}

/// The squash target a summary declares: the rest of the line after a
/// `fixup! ` or `squash! ` prefix; `None` for an ordinary summary.
pub open spec fn fixup_target(s: Seq<u8>) -> Option<Seq<u8>> {
    if bytes_start_with(s, fixup_prefix()) {
        Some(s.skip(7))
    } else if bytes_start_with(s, squash_prefix()) {
        Some(s.skip(8))
    } else {
        None
    }
}

/// Whether some candidate summary begins with the target.
pub open spec fn any_candidate(cands: Seq<Seq<u8>>, target: Seq<u8>) -> bool {
    exists|k: int| 0 <= k < cands.len() && bytes_start_with(#[trigger] cands[k], target)
}

/// The fixup pass: a non-protected node whose summary declares a squash
/// target that some non-protected ancestor summary (below the nearest
/// protected node) begins with is marked `Fixup`; with no such ancestor
/// the node keeps its action.
pub open spec fn spec_fixup(n: NodeView, cands: Seq<Seq<u8>>) -> NodeView
    decreases n,
{
    let act = if n.action != Action::Protected && match fixup_target(n.local_commit.summary) {
        Some(t) => any_candidate(cands, t),
        None => false,
    } {
        Action::Fixup
    } else {
        n.action
    };
    let down = if n.action == Action::Protected {
        Seq::<Seq<u8>>::empty()
    } else {
        cands.push(n.local_commit.summary)
    };
    NodeView { action: act, children: spec_fixup_forest(n.children, down), ..n }
}

/// The fixup pass over each tree of a forest.
pub open spec fn spec_fixup_forest(cs: Seq<NodeView>, cands: Seq<Seq<u8>>) -> Seq<NodeView>
    decreases cs,
{
    if cs.len() == 0 {
        cs
    } else {
        spec_fixup_forest(cs.drop_last(), cands).push(spec_fixup(cs.last(), cands))
    }
}

/// The fixup pass keeps the length of a forest.
pub proof fn lemma_fixup_forest_len(cs: Seq<NodeView>, cands: Seq<Seq<u8>>)
    ensures
        spec_fixup_forest(cs, cands).len() == cs.len(),
        forall|t: int|
            0 <= t < cs.len() ==> spec_fixup_forest(cs, cands)[t] == spec_fixup(
                #[trigger] cs[t],
                cands,
            ),
    decreases cs,
{
    if cs.len() > 0 {
        lemma_fixup_forest_len(cs.drop_last(), cands);
        assert forall|t: int| 0 <= t < cs.len() implies spec_fixup_forest(cs, cands)[t]
            == spec_fixup(#[trigger] cs[t], cands) by {
            if t < cs.len() - 1 {
                assert(cs.drop_last()[t] == cs[t]);
            }
        }
    }
}

/// Whether `s` begins with `p`.
fn starts_with_bytes(s: &Vec<u8>, p: &Vec<u8>) -> (r: bool)
    ensures
        r == bytes_start_with(s@, p@),
{
    if s.len() < p.len() {
        return false;
    }
    let mut i: usize = 0;
    while i < p.len()
        invariant
            i <= p@.len(),
            p@.len() <= s@.len(),
            forall|t: int| 0 <= t < i ==> s@[t] == p@[t],
        decreases p@.len() - i,
    {
        if s[i] != p[i] {
            assert(s@.subrange(0, p@.len() as int)[i as int] != p@[i as int]);
            return false;
        }
        i = i + 1;
    }
    assert(s@.subrange(0, p@.len() as int) =~= p@);
    true
}

/// The bytes of `fixup! `.
fn fixup_prefix_vec() -> (r: Vec<u8>)
    ensures
        r@ == fixup_prefix(),
{
    let mut v: Vec<u8> = Vec::new();
    v.push(102);
    v.push(105);
    v.push(120);
    v.push(117);
    v.push(112);
    v.push(33);
    v.push(32);
    assert(v@ =~= fixup_prefix());
    v
}

/// The bytes of `squash! `.
fn squash_prefix_vec() -> (r: Vec<u8>)
    ensures
        r@ == squash_prefix(),
{
    let mut v: Vec<u8> = Vec::new();
    v.push(115);
    v.push(113);
    v.push(117);
    v.push(97);
    v.push(115);
    v.push(104);
    v.push(33);
    v.push(32);
    assert(v@ =~= squash_prefix());
    v
}

/// The byte strings of a list, as sequences.
pub open spec fn byte_seqs(v: Seq<Vec<u8>>) -> Seq<Seq<u8>> {
    v.map_values(|b: Vec<u8>| b@)
}

/// The byte strings of a list, element by element.
pub proof fn lemma_byte_seqs(v: Seq<Vec<u8>>)
    ensures
        byte_seqs(v).len() == v.len(),
        forall|i: int| 0 <= i < v.len() ==> byte_seqs(v)[i] == (#[trigger] v[i])@,
{
}

/// The squash target the summary declares, if any.
fn target_of(summary: &Vec<u8>) -> (r: Option<Vec<u8>>)
    ensures
        match r {
            Some(t) => fixup_target(summary@) == Some(t@),
            None => fixup_target(summary@) is None,
        },
{
    let fp = fixup_prefix_vec();
    if starts_with_bytes(summary, &fp) {
        let mut t: Vec<u8> = Vec::new();
        let mut i: usize = 7;
        while i < summary.len()
            invariant
                7 <= i <= summary@.len(),
                summary@.len() >= 7,
                t@ == summary@.subrange(7, i as int),
            decreases summary@.len() - i,
        {
            t.push(summary[i]);
            assert(t@ =~= summary@.subrange(7, i + 1));
            i = i + 1;
        }
        assert(t@ =~= summary@.skip(7));
        return Some(t);
    }
    let sp = squash_prefix_vec();
    if starts_with_bytes(summary, &sp) {
        let mut t: Vec<u8> = Vec::new();
        let mut i: usize = 8;
        while i < summary.len()
            invariant
                8 <= i <= summary@.len(),
                summary@.len() >= 8,
                t@ == summary@.subrange(8, i as int),
            decreases summary@.len() - i,
        {
            t.push(summary[i]);
            assert(t@ =~= summary@.subrange(8, i + 1));
            i = i + 1;
        }
        assert(t@ =~= summary@.skip(8));
        return Some(t);
    }
    None
}

/// The fixup pass: marks `Fixup` every non-protected node whose summary
/// declares a squash target that some ancestor summary, below the nearest
/// protected node, begins with.
pub fn fixup(node: Node) -> (r: Node)
    ensures
        r@ == spec_fixup(node@, Seq::<Seq<u8>>::empty()),
{
    let cands: Vec<Vec<u8>> = Vec::new();
    assert(byte_seqs(cands@) =~= Seq::<Seq<u8>>::empty());
    fixup_walk(node, cands)
}

/// Copies a list of byte strings.
fn copy_cands(v: &Vec<Vec<u8>>) -> (r: Vec<Vec<u8>>)
    ensures
        byte_seqs(r@) == byte_seqs(v@),
{
    let mut r: Vec<Vec<u8>> = Vec::new();
    let mut i: usize = 0;
    proof {
        lemma_byte_seqs(v@);
    }
    while i < v.len()
        invariant
            i <= v@.len(),
            byte_seqs(r@) == byte_seqs(v@).subrange(0, i as int),
            byte_seqs(v@).len() == v@.len(),
            forall|t: int| 0 <= t < v@.len() ==> byte_seqs(v@)[t] == (#[trigger] v@[t])@,
        decreases v@.len() - i,
    {
        r.push(crate::repo::copy_bytes(&v[i]));
        proof {
            lemma_byte_seqs(r@);
            assert(byte_seqs(r@) =~= byte_seqs(v@).subrange(0, i + 1));
        }
        i = i + 1;
    }
    proof {
        lemma_byte_seqs(r@);
        assert(byte_seqs(r@) =~= byte_seqs(v@));
    }
    r
}

/// The fixup pass over one tree, carrying the candidate ancestor
/// summaries.
fn fixup_walk(node: Node, cands: Vec<Vec<u8>>) -> (r: Node)
    ensures
        r@ == spec_fixup(node@, byte_seqs(cands@)),
    decreases node,
{
    let ghost n0 = node;
    let ghost cv = byte_seqs(cands@);
    let Node { local_commit, branches, action, pushable, children } = node;
    let hit = match target_of(&local_commit.summary) {
        Some(t) => {
            let mut found = false;
            let mut k: usize = 0;
            proof {
                lemma_byte_seqs(cands@);
            }
            while k < cands.len()
                invariant
                    k <= cands@.len(),
                    cv == byte_seqs(cands@),
                    cv.len() == cands@.len(),
                    forall|u: int| 0 <= u < cands@.len() ==> cv[u] == (#[trigger] cands@[u])@,
                    fixup_target(local_commit@.summary) == Some(t@),
                    found == (exists|u: int|
                        0 <= u < k && bytes_start_with(#[trigger] cv[u], t@)),
                decreases cands@.len() - k,
            {
                if !found && starts_with_bytes(&cands[k], &t) {
                    found = true;
                }
                k = k + 1;
            }
            found
        },
        None => false,
    };
    let act = if !action.is_protected() && hit {
        Action::Fixup
    } else {
        action
    };
    let down: Vec<Vec<u8>> = if action.is_protected() {
        Vec::new()
    } else {
        let mut d = copy_cands(&cands);
        let ghost dpre = d@;
        d.push(crate::repo::copy_bytes(&local_commit.summary));
        proof {
            lemma_byte_seqs(d@);
            lemma_byte_seqs(dpre);
            assert(byte_seqs(d@) =~= cv.push(local_commit@.summary));
        }
        d
    };
    proof {
        if action == Action::Protected {
            assert(byte_seqs(down@) =~= Seq::<Seq<u8>>::empty());
        }
    }
    let kids = fixup_forest(children, Ghost(n0.children@), down);
    let r = Node { local_commit, branches, action: act, pushable, children: kids };
    proof {
        assert(r@.children == forest_view(kids@));
        assert(r@.branches == n0@.branches);
        assert(r@ == spec_fixup(n0@, cv));
    }
    r
}

/// The fixup pass over each tree of the forest, in order.
fn fixup_forest(mut cs: Vec<Node>, ghost_cs0: Ghost<Seq<Node>>, cands: Vec<Vec<u8>>) -> (r: Vec<
    Node,
>)
    requires
        ghost_cs0@ == cs@,
    ensures
        forest_view(r@) == spec_fixup_forest(forest_view(ghost_cs0@), byte_seqs(cands@)),
    decreases cs@,
{
    let ghost cs0 = cs@;
    let ghost fv = forest_view(cs0);
    let ghost cv = byte_seqs(cands@);
    if cs.len() == 0 {
        proof {
            lemma_forest_view(cs@);
        }
        return cs;
    }
    proof {
        lemma_forest_view(cs0);
    }
    let last = match cs.pop() {
        Some(l) => l,
        None => {
            proof {
                assert(false);
            }
            return cs;
        },
    };
    proof {
        assert(last == cs0.last());
        assert(cs@ =~= cs0.drop_last());
        assert(decreases_to!(cs0 => cs0[cs0.len() - 1]));
        assert(cs0[cs0.len() - 1] == last);
    }
    let cands2 = copy_cands(&cands);
    let mut done = fixup_forest(cs, Ghost(cs0.drop_last()), cands2);
    let pl = fixup_walk(last, cands);
    let ghost gp = pl;
    let ghost dpre = done@;
    done.push(pl);
    proof {
        assert(done@ =~= dpre.push(gp));
        assert(done@.drop_last() =~= dpre);
        lemma_forest_view(done@);
        lemma_forest_view(dpre);
        lemma_forest_view(cs0.drop_last());
        lemma_fixup_forest_len(forest_view(cs0.drop_last()), cv);
        lemma_fixup_forest_len(fv, cv);
        assert(fv.len() == cs0.len());
        assert(fv.drop_last() =~= forest_view(cs0.drop_last()));
        assert(fv.last() == node_view(last));
        let target = spec_fixup_forest(fv, cv);
        assert(target == spec_fixup_forest(fv.drop_last(), cv).push(spec_fixup(fv.last(), cv)));
        assert forall|t: int| 0 <= t < done@.len() implies forest_view(done@)[t] == target[t] by {
            assert(forest_view(done@)[t] == node_view(done@[t]));
            if t < done@.len() - 1 {
                assert(done@[t] == dpre[t]);
                assert(forest_view(dpre)[t] == node_view(dpre[t]));
                assert(spec_fixup_forest(forest_view(cs0.drop_last()), cv)[t] == spec_fixup(
                    forest_view(cs0.drop_last())[t],
                    cv,
                ));
                assert(forest_view(cs0.drop_last())[t] == fv.drop_last()[t]);
                assert(fv.drop_last()[t] == fv[t]);
                assert(target[t] == spec_fixup(fv[t], cv));
            } else {
                assert(done@[t] == gp);
                assert(target[t] == spec_fixup(fv.last(), cv));
                assert(gp@ == spec_fixup(node_view(last), cv));
            }
        }
        assert(forest_view(done@) =~= spec_fixup_forest(fv, cv));
    }
    done
}


/// The marking half of the rebase pass: every node whose subtree holds the
/// onto commit becomes `Protected` (the onto node and its ancestors must
/// not be rewritten), already-protected nodes stay protected, and every
/// other node becomes a plain `Pick`.
pub open spec fn spec_mark(n: NodeView, onto: CommitId) -> NodeView
    decreases n,
{
    NodeView {
        action: if tree_has(n, onto) {
            Action::Protected
        } else if n.action == Action::Protected {
            Action::Protected
        } else {
            Action::Pick
        },
        children: spec_mark_forest(n.children, onto),
        ..n
    }
}

/// The marking half over each tree of a forest.
pub open spec fn spec_mark_forest(cs: Seq<NodeView>, onto: CommitId) -> Seq<NodeView>
    decreases cs,
{
    if cs.len() == 0 {
        cs
    } else {
        spec_mark_forest(cs.drop_last(), onto).push(spec_mark(cs.last(), onto))
    }
}

/// Marking keeps the length of a forest.
pub proof fn lemma_mark_forest_len(cs: Seq<NodeView>, onto: CommitId)
    ensures
        spec_mark_forest(cs, onto).len() == cs.len(),
        forall|t: int|
            0 <= t < cs.len() ==> spec_mark_forest(cs, onto)[t] == spec_mark(
                #[trigger] cs[t],
                onto,
            ),
    decreases cs,
{
    if cs.len() > 0 {
        lemma_mark_forest_len(cs.drop_last(), onto);
        assert forall|t: int| 0 <= t < cs.len() implies spec_mark_forest(cs, onto)[t]
            == spec_mark(#[trigger] cs[t], onto) by {
            if t < cs.len() - 1 {
                assert(cs.drop_last()[t] == cs[t]);
            }
        }
    }
}

/// The stripping half of the rebase pass: walking the protected skeleton,
/// every non-protected child subtree is detached and collected, in
/// depth-first order.
pub open spec fn spec_strip(n: NodeView) -> (NodeView, Seq<NodeView>)
    decreases n,
{
    let kept_moved = spec_strip_forest(n.children);
    (NodeView { children: kept_moved.0, ..n }, kept_moved.1)
}

/// The stripping half over a forest of children.
pub open spec fn spec_strip_forest(cs: Seq<NodeView>) -> (Seq<NodeView>, Seq<NodeView>)
    decreases cs,
{
    if cs.len() == 0 {
        (Seq::empty(), Seq::empty())
    } else {
        let km = spec_strip_forest(cs.drop_last());
        if cs.last().action == Action::Protected {
            let kn = spec_strip(cs.last());
            (km.0.push(kn.0), km.1 + kn.1)
        } else {
            (km.0, km.1.push(cs.last()))
        }
    }
}

/// Inserting detached subtrees into a child list, each at its id-ordered
/// position, in order.
pub open spec fn spec_add_children(cs: Seq<NodeView>, moved: Seq<NodeView>) -> Seq<NodeView>
    decreases moved.len(),
{
    if moved.len() == 0 {
        cs
    } else {
        spec_add_children(
            cs.insert(insert_pos(cs, moved[0].local_commit.id), moved[0]),
            moved.drop_first(),
        )
    }
}

/// The attaching half of the rebase pass: the detached subtrees are added
/// beneath the (first, in depth-first order) node carrying the onto
/// commit.
pub open spec fn spec_attach(n: NodeView, onto: CommitId, moved: Seq<NodeView>) -> NodeView
    decreases n,
{
    if n.local_commit.id == onto {
        NodeView { children: spec_add_children(n.children, moved), ..n }
    } else {
        NodeView { children: spec_attach_forest(n.children, onto, moved), ..n }
    }
}

/// Attaches beneath the first tree of the forest that holds the onto
/// commit.
pub open spec fn spec_attach_forest(cs: Seq<NodeView>, onto: CommitId, moved: Seq<NodeView>) -> Seq<
    NodeView,
>
    decreases cs,
{
    if cs.len() == 0 {
        cs
    } else if tree_has(cs[0], onto) {
        cs.update(0, spec_attach(cs[0], onto, moved))
    } else {
        spec_attach_forest(cs.drop_first(), onto, moved).insert(0, cs[0])
    }
}

/// The whole rebase pass: mark, strip, attach. `None` when the graph does
/// not hold the onto commit.
pub open spec fn spec_rebase(n: NodeView, onto: CommitId) -> Option<NodeView> {
    if !tree_has(n, onto) {
        None
    } else {
        let m = spec_mark(n, onto);
        let km = spec_strip(m);
        Some(spec_attach(km.0, onto, km.1))
    }
}

/// Marking keeps which commits a tree holds.
pub proof fn lemma_mark_has(n: NodeView, onto: CommitId, id: CommitId)
    ensures
        tree_has(spec_mark(n, onto), id) == tree_has(n, id),
    decreases n,
{
    lemma_mark_forest_has(n.children, onto, id);
}

/// Marking keeps which commits a forest holds.
pub proof fn lemma_mark_forest_has(cs: Seq<NodeView>, onto: CommitId, id: CommitId)
    ensures
        forest_has(spec_mark_forest(cs, onto), id) == forest_has(cs, id),
    decreases cs,
{
    lemma_mark_forest_len(cs, onto);
    crate::graph::lemma_forest_has_index(cs, id);
    crate::graph::lemma_forest_has_index(spec_mark_forest(cs, onto), id);
    if forest_has(cs, id) {
        let t = choose|t: int| 0 <= t < cs.len() && tree_has(#[trigger] cs[t], id);
        assert(decreases_to!(cs => cs[t]));
        lemma_mark_has(cs[t], onto, id);
        assert(tree_has(spec_mark_forest(cs, onto)[t], id));
    }
    if forest_has(spec_mark_forest(cs, onto), id) {
        let t = choose|t: int|
            0 <= t < spec_mark_forest(cs, onto).len() && tree_has(
                #[trigger] spec_mark_forest(cs, onto)[t],
                id,
            );
        assert(decreases_to!(cs => cs[t]));
        lemma_mark_has(cs[t], onto, id);
        assert(tree_has(cs[t], id));
    }
}

/// After marking, stripping keeps the onto commit in the kept tree: every
/// node on the path to it is protected and so never detached.
pub proof fn lemma_mark_strip_keeps(n0: NodeView, onto: CommitId)
    requires
        tree_has(n0, onto),
    ensures
        tree_has(spec_strip(spec_mark(n0, onto)).0, onto),
    decreases n0,
{
    let m = spec_mark(n0, onto);
    if n0.local_commit.id == onto {
    } else {
        crate::graph::lemma_forest_has_index(n0.children, onto);
        let t = choose|t: int|
            0 <= t < n0.children.len() && tree_has(#[trigger] n0.children[t], onto);
        lemma_mark_strip_forest_keeps(n0.children, onto, t);
        crate::graph::lemma_forest_has_index(spec_strip_forest(m.children).0, onto);
        assert(forest_has(spec_strip(m).0.children, onto));
    }
}

/// After marking a forest one of whose trees holds the onto commit,
/// stripping keeps a tree holding it.
pub proof fn lemma_mark_strip_forest_keeps(cs0: Seq<NodeView>, onto: CommitId, t: int)
    requires
        0 <= t < cs0.len(),
        tree_has(cs0[t], onto),
    ensures
        exists|u: int|
            0 <= u < spec_strip_forest(spec_mark_forest(cs0, onto)).0.len() && tree_has(
                #[trigger] spec_strip_forest(spec_mark_forest(cs0, onto)).0[u],
                onto,
            ),
    decreases cs0,
{
    let ms = spec_mark_forest(cs0, onto);
    lemma_mark_forest_len(cs0, onto);
    if t == cs0.len() - 1 {
        assert(decreases_to!(cs0 => cs0[t]));
        assert(ms.last() == spec_mark(cs0[t], onto));
        assert(ms.last().action == Action::Protected);
        lemma_mark_strip_keeps(cs0[t], onto);
        let res = spec_strip_forest(ms).0;
        assert(res == spec_strip_forest(ms.drop_last()).0.push(spec_strip(ms.last()).0));
        assert(res[res.len() - 1] == spec_strip(spec_mark(cs0[t], onto)).0);
        assert(tree_has(res[res.len() - 1], onto));
    } else {
        assert(cs0.drop_last()[t] == cs0[t]);
        lemma_mark_strip_forest_keeps(cs0.drop_last(), onto, t);
        assert(ms.drop_last() =~= spec_mark_forest(cs0.drop_last(), onto));
        let km = spec_strip_forest(spec_mark_forest(cs0.drop_last(), onto));
        let u = choose|u: int| 0 <= u < km.0.len() && tree_has(#[trigger] km.0[u], onto);
        let res = spec_strip_forest(ms).0;
        if ms.last().action == Action::Protected {
            assert(res == km.0.push(spec_strip(ms.last()).0));
            assert(res[u] == km.0[u]);
        } else {
            assert(res == km.0);
        }
        assert(tree_has(res[u], onto));
    }
}


/// The views of two node lists, concatenated.
pub proof fn lemma_forest_view_concat(a: Seq<Node>, b: Seq<Node>)
    ensures
        forest_view(a + b) == forest_view(a) + forest_view(b),
    decreases b.len(),
{
    if b.len() == 0 {
        assert(a + b =~= a);
        assert(forest_view(a) + forest_view(b) =~= forest_view(a));
    } else {
        lemma_forest_view_concat(a, b.drop_last());
        assert((a + b).drop_last() =~= a + b.drop_last());
        assert((a + b).last() == b.last());
        assert(forest_view(a + b) == forest_view(a + b.drop_last()).push(
            node_view(b.last()),
        ));
        assert(forest_view(a) + forest_view(b) =~= (forest_view(a) + forest_view(
            b.drop_last(),
        )).push(node_view(b.last())));
    }
}

/// The marking half of the rebase pass over one tree.
fn mark_walk(node: Node, onto: CommitId) -> (r: Node)
    ensures
        r@ == spec_mark(node@, onto),
    decreases node,
{
    let ghost n0 = node;
    let has = node.contains_id(onto);
    let Node { local_commit, branches, action, pushable, children } = node;
    let act = if has {
        Action::Protected
    } else if action.is_protected() {
        Action::Protected
    } else {
        Action::Pick
    };
    let kids = mark_forest(children, Ghost(n0.children@), onto);
    let r = Node { local_commit, branches, action: act, pushable, children: kids };
    proof {
        assert(r@.children == forest_view(kids@));
        assert(r@.branches == n0@.branches);
        assert(r@ == spec_mark(n0@, onto));
    }
    r
}

/// The marking half over each tree of the forest, in order.
fn mark_forest(mut cs: Vec<Node>, ghost_cs0: Ghost<Seq<Node>>, onto: CommitId) -> (r: Vec<Node>)
    requires
        ghost_cs0@ == cs@,
    ensures
        forest_view(r@) == spec_mark_forest(forest_view(ghost_cs0@), onto),
    decreases cs@,
{
    let ghost cs0 = cs@;
    let ghost fv = forest_view(cs0);
    if cs.len() == 0 {
        proof {
            lemma_forest_view(cs@);
        }
        return cs;
    }
    proof {
        lemma_forest_view(cs0);
    }
    let last = match cs.pop() {
        Some(l) => l,
        None => {
            proof {
                assert(false);
            }
            return cs;
        },
    };
    proof {
        assert(last == cs0.last());
        assert(cs@ =~= cs0.drop_last());
        assert(decreases_to!(cs0 => cs0[cs0.len() - 1]));
        assert(cs0[cs0.len() - 1] == last);
    }
    let mut done = mark_forest(cs, Ghost(cs0.drop_last()), onto);
    let pl = mark_walk(last, onto);
    let ghost gp = pl;
    let ghost dpre = done@;
    done.push(pl);
    proof {
        assert(done@ =~= dpre.push(gp));
        assert(done@.drop_last() =~= dpre);
        lemma_forest_view(done@);
        lemma_forest_view(dpre);
        lemma_forest_view(cs0.drop_last());
        lemma_mark_forest_len(forest_view(cs0.drop_last()), onto);
        lemma_mark_forest_len(fv, onto);
        assert(fv.len() == cs0.len());
        assert(fv.drop_last() =~= forest_view(cs0.drop_last()));
        assert(fv.last() == node_view(last));
        let target = spec_mark_forest(fv, onto);
        assert(target == spec_mark_forest(fv.drop_last(), onto).push(
            spec_mark(fv.last(), onto),
        ));
        assert forall|t: int| 0 <= t < done@.len() implies forest_view(done@)[t] == target[t] by {
            assert(forest_view(done@)[t] == node_view(done@[t]));
            if t < done@.len() - 1 {
                assert(done@[t] == dpre[t]);
                assert(forest_view(dpre)[t] == node_view(dpre[t]));
                assert(spec_mark_forest(forest_view(cs0.drop_last()), onto)[t] == spec_mark(
                    forest_view(cs0.drop_last())[t],
                    onto,
                ));
                assert(forest_view(cs0.drop_last())[t] == fv.drop_last()[t]);
                assert(fv.drop_last()[t] == fv[t]);
                assert(target[t] == spec_mark(fv[t], onto));
            } else {
                assert(done@[t] == gp);
                assert(target[t] == spec_mark(fv.last(), onto));
                assert(gp@ == spec_mark(node_view(last), onto));
            }
        }
        assert(forest_view(done@) =~= spec_mark_forest(fv, onto));
    }
    done
}

/// The stripping half of the rebase pass over one tree.
fn strip_walk(node: Node) -> (r: (Node, Vec<Node>))
    ensures
        r.0@ == spec_strip(node@).0,
        forest_view(r.1@) == spec_strip(node@).1,
    decreases node,
{
    let ghost n0 = node;
    let Node { local_commit, branches, action, pushable, children } = node;
    let (kept, moved) = strip_forest(children, Ghost(n0.children@));
    let r0 = Node { local_commit, branches, action, pushable, children: kept };
    proof {
        assert(r0@.children == forest_view(kept@));
        assert(r0@.branches == n0@.branches);
        assert(r0@ == spec_strip(n0@).0);
    }
    (r0, moved)
}

/// The stripping half over each tree of the forest, in order.
fn strip_forest(mut cs: Vec<Node>, ghost_cs0: Ghost<Seq<Node>>) -> (r: (Vec<Node>, Vec<Node>))
    requires
        ghost_cs0@ == cs@,
    ensures
        forest_view(r.0@) == spec_strip_forest(forest_view(ghost_cs0@)).0,
        forest_view(r.1@) == spec_strip_forest(forest_view(ghost_cs0@)).1,
    decreases cs@,
{
    let ghost cs0 = cs@;
    let ghost fv = forest_view(cs0);
    if cs.len() == 0 {
        proof {
            lemma_forest_view(cs@);
            assert(forest_view(Seq::<Node>::empty()) =~= Seq::<NodeView>::empty());
        }
        let empty_moved: Vec<Node> = Vec::new();
        assert(cs@ =~= Seq::<Node>::empty());
        return (cs, empty_moved);
    }
    proof {
        lemma_forest_view(cs0);
    }
    let last = match cs.pop() {
        Some(l) => l,
        None => {
            proof {
                assert(false);
            }
            let e: Vec<Node> = Vec::new();
            return (cs, e);
        },
    };
    proof {
        assert(last == cs0.last());
        assert(cs@ =~= cs0.drop_last());
        assert(decreases_to!(cs0 => cs0[cs0.len() - 1]));
        assert(cs0[cs0.len() - 1] == last);
        assert(fv.last() == node_view(last));
        assert(fv.drop_last() =~= forest_view(cs0.drop_last()));
    }
    let (mut kept, mut moved) = strip_forest(cs, Ghost(cs0.drop_last()));
    if last.action.is_protected() {
        let (kn, mut mn) = strip_walk(last);
        let ghost gk = kn;
        let ghost kpre = kept@;
        let ghost mpre = moved@;
        kept.push(kn);
        let ghost mnv = mn@;
        moved.append(&mut mn);
        proof {
            assert(kept@ =~= kpre.push(gk));
            assert(moved@ =~= mpre + mnv);
            lemma_forest_view(kept@);
            lemma_forest_view(kpre);
            assert(kept@.drop_last() =~= kpre);
            assert forall|t: int| 0 <= t < kept@.len() implies forest_view(kept@)[t]
                == spec_strip_forest(fv).0[t] by {
                assert(forest_view(kept@)[t] == node_view(kept@[t]));
                assert(spec_strip_forest(fv).0 == spec_strip_forest(fv.drop_last()).0.push(
                    spec_strip(fv.last()).0,
                ));
                if t < kept@.len() - 1 {
                    assert(kept@[t] == kpre[t]);
                    assert(forest_view(kpre)[t] == node_view(kpre[t]));
                } else {
                    assert(kept@[t] == gk);
                }
            }
            assert(forest_view(kept@).len() == spec_strip_forest(fv).0.len()) by {
                assert(spec_strip_forest(fv).0 == spec_strip_forest(fv.drop_last()).0.push(
                    spec_strip(fv.last()).0,
                ));
                lemma_forest_view(kept@);
            }
            assert(forest_view(kept@) =~= spec_strip_forest(fv).0);
            lemma_forest_view_concat(mpre, mnv);
            assert(forest_view(moved@) == forest_view(mpre) + forest_view(mnv));
            assert(forest_view(moved@) == spec_strip_forest(fv).1);
        }
    } else {
        let ghost mpre = moved@;
        let ghost gl = last;
        moved.push(last);
        proof {
            assert(moved@ =~= mpre.push(gl));
            lemma_forest_view(moved@);
            lemma_forest_view(mpre);
            assert(moved@.drop_last() =~= mpre);
            assert(spec_strip_forest(fv).0 == spec_strip_forest(fv.drop_last()).0);
            assert(spec_strip_forest(fv).1 == spec_strip_forest(fv.drop_last()).1.push(
                fv.last(),
            ));
            assert forall|t: int| 0 <= t < moved@.len() implies forest_view(moved@)[t]
                == spec_strip_forest(fv).1[t] by {
                assert(forest_view(moved@)[t] == node_view(moved@[t]));
                if t < moved@.len() - 1 {
                    assert(moved@[t] == mpre[t]);
                    assert(forest_view(mpre)[t] == node_view(mpre[t]));
                } else {
                    assert(moved@[t] == gl);
                }
            }
            assert(forest_view(moved@).len() == spec_strip_forest(fv).1.len()) by {
                lemma_forest_view(moved@);
            }
            assert(forest_view(moved@) =~= spec_strip_forest(fv).1);
        }
    }
    (kept, moved)
}


/// Inserts the detached subtrees into a child list, each at its
/// id-ordered position, in order.
fn add_children(children: &mut Vec<Node>, rest: Vec<Node>)
    ensures
        forest_view(final(children)@) == spec_add_children(
            forest_view(old(children)@),
            forest_view(rest@),
        ),
    decreases rest@,
{
    let ghost bc = forest_view(rest@);
    let ghost rest0 = rest@;
    if rest.len() == 0 {
        proof {
            lemma_forest_view(rest@);
            assert(bc.len() == 0);
        }
        return ;
    }
    proof {
        lemma_forest_view(rest@);
    }
    let mut rest = rest;
    let b0 = rest.remove(0);
    let ghost b0v = node_view(b0);
    proof {
        assert(b0 == rest0[0]);
        assert(bc[0] == node_view(rest0[0]));
        lemma_forest_view(rest@);
        assert(rest@ =~= rest0.drop_first());
        assert forall|t: int| 0 <= t < rest@.len() implies forest_view(rest@)[t]
            == bc.drop_first()[t] by {
            assert(forest_view(rest@)[t] == node_view(rest@[t]));
            assert(rest@[t] == rest0[t + 1]);
            assert(bc[t + 1] == node_view(rest0[t + 1]));
        }
        assert(forest_view(rest@) =~= bc.drop_first());
    }
    let ghost acv = forest_view(children@);
    let ghost cpre = children@;
    proof {
        lemma_forest_view(cpre);
    }
    let pos = crate::graph::find_insert_pos_pub(children, Ghost(acv), b0.local_commit.id);
    let ghost gb0 = b0;
    children.insert(pos, b0);
    proof {
        assert(children@ =~= cpre.insert(pos as int, gb0));
        lemma_forest_view(children@);
        assert forall|t: int| 0 <= t < children@.len() implies forest_view(children@)[t]
            == acv.insert(pos as int, b0v)[t] by {
            assert(forest_view(children@)[t] == node_view(children@[t]));
            if t < pos {
                assert(children@[t] == cpre[t]);
                assert(acv[t] == node_view(cpre[t]));
            } else if t == pos {
                assert(children@[t] == gb0);
            } else {
                assert(children@[t] == cpre[t - 1]);
                assert(acv[t - 1] == node_view(cpre[t - 1]));
            }
        }
        assert(forest_view(children@) =~= acv.insert(pos as int, b0v));
        assert(spec_add_children(acv, bc) == spec_add_children(
            forest_view(children@),
            bc.drop_first(),
        ));
    }
    add_children(children, rest);
}

impl Node {
    /// Attaches the detached subtrees beneath the first node (in
    /// depth-first order) of this tree carrying the onto commit.
    fn attach_at(self, onto: CommitId, moved: Vec<Node>) -> (r: Node)
        requires
            tree_has(self@, onto),
        ensures
            r@ == spec_attach(self@, onto, forest_view(moved@)),
        decreases self,
    {
        let ghost s0 = self;
        let ghost mv = forest_view(moved@);
        if self.local_commit.id.eq_id(&onto) {
            let Node { local_commit, branches, action, pushable, mut children } = self;
            add_children(&mut children, moved);
            let r = Node { local_commit, branches, action, pushable, children };
            proof {
                assert(r@.children == forest_view(children@));
                assert(r@.branches == s0@.branches);
                assert(r@ == spec_attach(s0@, onto, mv));
            }
            return r;
        }
        let Node { local_commit, branches, action, pushable, mut children } = self;
        let ghost fv = forest_view(children@);
        let ghost cpre = children@;
        proof {
            lemma_forest_view(children@);
            assert(s0@.children == fv);
            crate::graph::lemma_forest_has_index(fv, onto);
        }
        let mut i: usize = 0;
        loop
            invariant
                cpre == children@,
                fv == forest_view(children@),
                fv.len() == children@.len(),
                forall|t: int|
                    0 <= t < children@.len() ==> fv[t] == node_view(#[trigger] children@[t]),
                i <= children@.len(),
                forall|u: int| 0 <= u < i ==> !tree_has(#[trigger] fv[u], onto),
                exists|t: int| 0 <= t < fv.len() && tree_has(#[trigger] fv[t], onto),
            decreases children@.len() - i,
        {
            if i >= children.len() {
                proof {
                    let t = choose|t: int| 0 <= t < fv.len() && tree_has(#[trigger] fv[t], onto);
                    assert(false);
                }
            }
            if children[i].contains_id(onto) {
                break ;
            }
            assert(!tree_has(fv[i as int], onto));
            i = i + 1;
        }
        let c = children.remove(i);
        proof {
            assert(c == cpre[i as int]);
            assert(c@ == fv[i as int]);
            assert(decreases_to!(s0 => s0.children));
            assert(decreases_to!(s0.children => s0.children@));
            assert(s0.children@ == cpre);
            assert(decreases_to!(s0.children@ => s0.children@[i as int]));
            assert(s0.children@[i as int] == c);
        }
        let m = c.attach_at(onto, moved);
        let ghost gm = m;
        children.insert(i, m);
        proof {
            assert(children@ =~= cpre.update(i as int, gm));
            lemma_forest_view(children@);
            assert forall|t: int| 0 <= t < children@.len() implies forest_view(children@)[t]
                == fv.update(i as int, spec_attach(fv[i as int], onto, mv))[t] by {
                assert(forest_view(children@)[t] == node_view(children@[t]));
                if t != i {
                    assert(children@[t] == cpre[t]);
                    assert(fv[t] == node_view(cpre[t]));
                }
            }
            assert(forest_view(children@) =~= fv.update(
                i as int,
                spec_attach(fv[i as int], onto, mv),
            ));
            lemma_attach_forest_at(fv, onto, mv, i as int);
        }
        let r = Node { local_commit, branches, action, pushable, children };
        proof {
            assert(r@.children == forest_view(children@));
            assert(r@.branches == s0@.branches);
            assert(r@ == spec_attach(s0@, onto, mv));
        }
        r
    }
}

/// When the first tree holding the onto commit sits at position `t`,
/// attaching updates exactly that position.
pub proof fn lemma_attach_forest_at(cs: Seq<NodeView>, onto: CommitId, mv: Seq<NodeView>, t: int)
    requires
        0 <= t < cs.len(),
        tree_has(cs[t], onto),
        forall|u: int| 0 <= u < t ==> !tree_has(#[trigger] cs[u], onto),
    ensures
        spec_attach_forest(cs, onto, mv) == cs.update(t, spec_attach(cs[t], onto, mv)),
    decreases cs.len(),
{
    if t == 0 {
    } else {
        assert(!tree_has(cs[0], onto));
        assert forall|u: int| 0 <= u < t - 1 implies !tree_has(
            #[trigger] cs.drop_first()[u],
            onto,
        ) by {
            assert(cs.drop_first()[u] == cs[u + 1]);
        }
        assert(cs.drop_first()[t - 1] == cs[t]);
        lemma_attach_forest_at(cs.drop_first(), onto, mv, t - 1);
        assert(spec_attach_forest(cs, onto, mv) == cs.drop_first().update(
            t - 1,
            spec_attach(cs[t], onto, mv),
        ).insert(0, cs[0]));
        assert(cs.drop_first().update(t - 1, spec_attach(cs[t], onto, mv)).insert(0, cs[0])
            =~= cs.update(t, spec_attach(cs[t], onto, mv)));
    }
}

/// The rebase pass: protects the onto commit and its ancestors, turns
/// every other node into a plain pick, and re-hangs every movable subtree
/// beneath the onto node, so that the tree shows the planned shape of the
/// stack. Fails with [`Error::NotFound`] exactly when the graph does not
/// hold the onto commit.
pub fn rebase_branches(node: Node, onto_id: CommitId) -> (r: Result<Node, Error>)
    ensures
        match r {
            Ok(n) => spec_rebase(node@, onto_id) == Some(n@),
            Err(e) => e == Error::NotFound && spec_rebase(node@, onto_id) is None,
        },
{
    if !node.contains_id(onto_id) {
        return Err(Error::NotFound);
    }
    let ghost n0 = node@;
    let marked = mark_walk(node, onto_id);
    proof {
        lemma_mark_has(n0, onto_id, onto_id);
        lemma_mark_strip_keeps(n0, onto_id);
    }
    let (kept, moved) = strip_walk(marked);
    let attached = kept.attach_at(onto_id, moved);
    Ok(attached)
}

} // verus!
