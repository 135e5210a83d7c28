//! The general laws this library states about itself, each proved from
//! the contracts of the functions it speaks of.

use vstd::prelude::*;
use vstd::seq_lib::lemma_multiset_commutative;

use crate::annotate::{
    spec_drop, spec_drop_forest, spec_fixup, spec_fixup_forest, spec_mark, spec_mark_forest,
    spec_protect, spec_protect_forest, spec_pushable, spec_pushable_forest,
};
use crate::graph::{forest_branches, tree_branches, Action, NodeView};
use crate::ids::CommitId;
use crate::repo::{BranchView, RepoView};
use crate::script::{in_place, spec_compile, spec_compile_forest, spec_to_script};

verus! {


/// Graph construction is deterministic: for one snapshot and one branch
/// index there is exactly one graph, since the construction's result is a
/// function of its inputs.
pub proof fn lemma_graph_deterministic(
    repo: RepoView,
    bm: Seq<BranchView>,
    a: NodeView,
    b: NodeView,
)
    requires
        crate::graph::spec_from_branches(repo, bm) == Some(a),
        crate::graph::spec_from_branches(repo, bm) == Some(b),
    ensures
        a == b,
{
}

/// Two forests whose trees carry the same branches carry the same
/// branches.
proof fn lemma_forest_branches_pointwise(a: Seq<NodeView>, b: Seq<NodeView>)
    requires
        a.len() == b.len(),
        forall|t: int| 0 <= t < a.len() ==> tree_branches(#[trigger] a[t]) == tree_branches(b[t]),
    ensures
        forest_branches(a) == forest_branches(b),
    decreases a.len(),
{
    if a.len() > 0 {
        assert forall|t: int| 0 <= t < a.drop_first().len() implies tree_branches(
            #[trigger] a.drop_first()[t],
        ) == tree_branches(b.drop_first()[t]) by {
            assert(a.drop_first()[t] == a[t + 1]);
            assert(b.drop_first()[t] == b[t + 1]);
        }
        lemma_forest_branches_pointwise(a.drop_first(), b.drop_first());
    }
}

/// Branch conservation under protection: the protection pass moves no
/// branch, so the tree carries the same branches in the same order.
pub proof fn lemma_protect_conserves(n: NodeView, prot: Seq<BranchView>)
    ensures
        tree_branches(spec_protect(n, prot)) == tree_branches(n),
    decreases n,
{
    crate::annotate::lemma_protect_forest_len(n.children, prot);
    assert forall|t: int| 0 <= t < n.children.len() implies tree_branches(
        #[trigger] spec_protect_forest(n.children, prot)[t],
    ) == tree_branches(n.children[t]) by {
        lemma_protect_conserves(n.children[t], prot);
    }
    lemma_forest_branches_pointwise(spec_protect_forest(n.children, prot), n.children);
}

/// Branch conservation under the fixup pass.
pub proof fn lemma_fixup_conserves(n: NodeView, cands: Seq<Seq<u8>>)
    ensures
        tree_branches(spec_fixup(n, cands)) == tree_branches(n),
    decreases n,
{
    let down = if n.action == Action::Protected {
        Seq::<Seq<u8>>::empty()
    } else {
        cands.push(n.local_commit.summary)
    };
    crate::annotate::lemma_fixup_forest_len(n.children, down);
    assert forall|t: int| 0 <= t < n.children.len() implies tree_branches(
        #[trigger] spec_fixup_forest(n.children, down)[t],
    ) == tree_branches(n.children[t]) by {
        lemma_fixup_conserves(n.children[t], down);
    }
    lemma_forest_branches_pointwise(spec_fixup_forest(n.children, down), n.children);
}

/// Branch conservation under the pushable pass.
pub proof fn lemma_pushable_conserves(n: NodeView, clean: bool)
    ensures
        tree_branches(spec_pushable(n, clean)) == tree_branches(n),
    decreases n,
{
    let down = crate::annotate::child_clean(n, clean);
    crate::annotate::lemma_pushable_forest_len(n.children, down);
    assert forall|t: int| 0 <= t < n.children.len() implies tree_branches(
        #[trigger] spec_pushable_forest(n.children, down)[t],
    ) == tree_branches(n.children[t]) by {
        lemma_pushable_conserves(n.children[t], down);
    }
    lemma_forest_branches_pointwise(spec_pushable_forest(n.children, down), n.children);
}

/// Branch conservation under the landed-commit pass: dropping marks
/// commits but carries every branch along.
pub proof fn lemma_drop_conserves(n: NodeView, tids: Seq<CommitId>)
    ensures
        tree_branches(spec_drop(n, tids)) == tree_branches(n),
    decreases n,
{
    crate::annotate::lemma_drop_forest_len(n.children, tids);
    assert forall|t: int| 0 <= t < n.children.len() implies tree_branches(
        #[trigger] spec_drop_forest(n.children, tids)[t],
    ) == tree_branches(n.children[t]) by {
        lemma_drop_conserves(n.children[t], tids);
    }
    lemma_forest_branches_pointwise(spec_drop_forest(n.children, tids), n.children);
}

/// Branch conservation under the marking half of the rebase pass.
pub proof fn lemma_mark_conserves(n: NodeView, onto: CommitId)
    ensures
        tree_branches(spec_mark(n, onto)) == tree_branches(n),
    decreases n,
{
    crate::annotate::lemma_mark_forest_len(n.children, onto);
    assert forall|t: int| 0 <= t < n.children.len() implies tree_branches(
        #[trigger] spec_mark_forest(n.children, onto)[t],
    ) == tree_branches(n.children[t]) by {
        lemma_mark_conserves(n.children[t], onto);
    }
    lemma_forest_branches_pointwise(spec_mark_forest(n.children, onto), n.children);
}

/// Whether a planned graph is already in its target shape: every picked
/// node sits on its target parent, and nothing is squashed or dropped.
pub open spec fn settled(n: NodeView, target: CommitId) -> bool
    decreases n,
{
    match n.action {
        Action::Protected => forest_settled(n.children, n.local_commit.id),
        Action::Pick => (n.local_commit.parent_ids.len() == 0 || in_place(n, target, false))
            && forest_settled(n.children, n.local_commit.id),
        _ => false,
    }
}

/// Whether every tree of the forest is settled on this parent.
pub open spec fn forest_settled(cs: Seq<NodeView>, target: CommitId) -> bool
    decreases cs,
{
    if cs.len() == 0 {
        true
    } else {
        settled(cs[0], target) && forest_settled(cs.drop_first(), target)
    }
}

/// Idempotence of planning: a settled graph compiles to an empty script,
/// so planning a second time, after a successful run changed the repo into
/// the planned shape, emits no commands.
pub proof fn lemma_settled_no_commands(n: NodeView, target: CommitId)
    requires
        settled(n, target),
    ensures
        spec_compile(n, target, false) == Seq::<crate::script::CommandView>::empty(),
    decreases n,
{
    lemma_forest_settled_no_commands(n.children, n.local_commit.id);
}

/// A settled forest compiles to an empty script.
pub proof fn lemma_forest_settled_no_commands(cs: Seq<NodeView>, target: CommitId)
    requires
        forest_settled(cs, target),
    ensures
        spec_compile_forest(cs, target, false) == Seq::<crate::script::CommandView>::empty(),
    decreases cs,
{
    if cs.len() > 0 {
        assert forall|t: int| 0 <= t < cs.drop_last().len() implies settled(
            #[trigger] cs.drop_last()[t],
            target,
        ) by {
            lemma_forest_settled_index(cs, target, t);
            assert(cs.drop_last()[t] == cs[t]);
        }
        lemma_forest_settled_front(cs, target);
        lemma_forest_settled_no_commands(cs.drop_last(), target);
        lemma_forest_settled_index(cs, target, cs.len() - 1);
        lemma_settled_no_commands(cs.last(), target);
        assert(spec_compile_forest(cs, target, false) =~= Seq::<
            crate::script::CommandView,
        >::empty());
    }
}

/// Each tree of a settled forest is settled.
pub proof fn lemma_forest_settled_index(cs: Seq<NodeView>, target: CommitId, t: int)
    requires
        forest_settled(cs, target),
        0 <= t < cs.len(),
    ensures
        settled(cs[t], target),
    decreases cs.len(),
{
    if t > 0 {
        assert(cs.drop_first()[t - 1] == cs[t]);
        lemma_forest_settled_index(cs.drop_first(), target, t - 1);
    }
}

/// A settled forest is settled without its last tree.
pub proof fn lemma_forest_settled_front(cs: Seq<NodeView>, target: CommitId)
    requires
        forest_settled(cs, target),
        cs.len() > 0,
    ensures
        forest_settled(cs.drop_last(), target),
    decreases cs.len(),
{
    if cs.len() > 1 {
        lemma_forest_settled_front(cs.drop_first(), target);
        assert(cs.drop_last()[0] == cs[0]);
        assert(cs.drop_last().drop_first() =~= cs.drop_first().drop_last());
    }
}

/// Idempotence at the whole-script level: a settled graph yields an empty
/// script.
pub proof fn lemma_settled_script_empty(n: NodeView)
    requires
        settled(
            n,
            if n.local_commit.parent_ids.len() >= 1 {
                n.local_commit.parent_ids[0]
            } else {
                n.local_commit.id
            },
        ),
    ensures
        spec_to_script(n).len() == 0,
{
    lemma_settled_no_commands(
        n,
        if n.local_commit.parent_ids.len() >= 1 {
            n.local_commit.parent_ids[0]
        } else {
            n.local_commit.id
        },
    );
}


/// The branches of two concatenated forests.
pub proof fn lemma_forest_branches_concat(a: Seq<NodeView>, b: Seq<NodeView>)
    ensures
        forest_branches(a + b) == forest_branches(a) + forest_branches(b),
    decreases a.len(),
{
    if a.len() == 0 {
        assert(a + b =~= b);
        assert(forest_branches(a) + forest_branches(b) =~= forest_branches(b));
    } else {
        assert((a + b)[0] == a[0]);
        assert((a + b).drop_first() =~= a.drop_first() + b);
        lemma_forest_branches_concat(a.drop_first(), b);
        assert(tree_branches(a[0]) + (forest_branches(a.drop_first()) + forest_branches(b))
            =~= (tree_branches(a[0]) + forest_branches(a.drop_first())) + forest_branches(b));
    }
}

/// The branches of a forest with one more tree at the end.
pub proof fn lemma_forest_branches_push(cs: Seq<NodeView>, x: NodeView)
    ensures
        forest_branches(cs.push(x)) == forest_branches(cs) + tree_branches(x),
{
    assert(cs.push(x) =~= cs + seq![x]);
    lemma_forest_branches_concat(cs, seq![x]);
    assert(seq![x].drop_first() =~= Seq::<NodeView>::empty());
    assert(tree_branches(x) + forest_branches(Seq::<NodeView>::empty()) =~= tree_branches(x));
}

/// Stripping loses no branch: the kept tree and the detached subtrees
/// together carry exactly the branches of the input, as a multiset.
pub proof fn lemma_strip_conserves(n: NodeView)
    ensures
        tree_branches(crate::annotate::spec_strip(n).0).to_multiset().add(
            forest_branches(crate::annotate::spec_strip(n).1).to_multiset(),
        ) == tree_branches(n).to_multiset(),
    decreases n,
{
    broadcast use vstd::multiset::group_multiset_axioms;
    broadcast use vstd::seq_lib::group_to_multiset_ensures;

    lemma_strip_forest_conserves(n.children);
    let km = crate::annotate::spec_strip_forest(n.children);
    lemma_multiset_commutative(n.branches, forest_branches(km.0));
    lemma_multiset_commutative(n.branches, forest_branches(n.children));
    assert(tree_branches(crate::annotate::spec_strip(n).0) == n.branches + forest_branches(
        km.0,
    ));
    assert(tree_branches(n) == n.branches + forest_branches(n.children));
    assert(forest_branches(km.0).to_multiset().add(forest_branches(km.1).to_multiset())
        == forest_branches(n.children).to_multiset());
    assert(tree_branches(crate::annotate::spec_strip(n).0).to_multiset().add(
        forest_branches(km.1).to_multiset(),
    ) =~= tree_branches(n).to_multiset());
}

/// Stripping a forest loses no branch.
pub proof fn lemma_strip_forest_conserves(cs: Seq<NodeView>)
    ensures
        forest_branches(crate::annotate::spec_strip_forest(cs).0).to_multiset().add(
            forest_branches(crate::annotate::spec_strip_forest(cs).1).to_multiset(),
        ) == forest_branches(cs).to_multiset(),
    decreases cs,
{
    broadcast use vstd::multiset::group_multiset_axioms;
    broadcast use vstd::seq_lib::group_to_multiset_ensures;

    if cs.len() == 0 {
        assert(forest_branches(crate::annotate::spec_strip_forest(cs).0).to_multiset().add(
            forest_branches(crate::annotate::spec_strip_forest(cs).1).to_multiset(),
        ) =~= forest_branches(cs).to_multiset());
    } else {
        lemma_strip_forest_conserves(cs.drop_last());
        let km = crate::annotate::spec_strip_forest(cs.drop_last());
        assert(cs =~= cs.drop_last().push(cs.last()));
        lemma_forest_branches_push(cs.drop_last(), cs.last());
        lemma_multiset_commutative(forest_branches(cs.drop_last()), tree_branches(cs.last()));
        if cs.last().action == Action::Protected {
            lemma_strip_conserves(cs.last());
            let kn = crate::annotate::spec_strip(cs.last());
            lemma_forest_branches_push(km.0, kn.0);
            lemma_multiset_commutative(forest_branches(km.0), tree_branches(kn.0));
            lemma_forest_branches_concat(km.1, kn.1);
            lemma_multiset_commutative(forest_branches(km.1), forest_branches(kn.1));
            assert(forest_branches(crate::annotate::spec_strip_forest(cs).0).to_multiset().add(
                forest_branches(crate::annotate::spec_strip_forest(cs).1).to_multiset(),
            ) =~= forest_branches(cs).to_multiset());
        } else {
            lemma_forest_branches_push(km.1, cs.last());
            lemma_multiset_commutative(forest_branches(km.1), tree_branches(cs.last()));
            assert(forest_branches(crate::annotate::spec_strip_forest(cs).0).to_multiset().add(
                forest_branches(crate::annotate::spec_strip_forest(cs).1).to_multiset(),
            ) =~= forest_branches(cs).to_multiset());
        }
    }
}

/// Inserting a tree into a child list adds exactly its branches.
pub proof fn lemma_insert_tree_branches(cs: Seq<NodeView>, pos: int, x: NodeView)
    requires
        0 <= pos <= cs.len(),
    ensures
        forest_branches(cs.insert(pos, x)).to_multiset() == forest_branches(cs).to_multiset().add(
            tree_branches(x).to_multiset(),
        ),
{
    broadcast use vstd::multiset::group_multiset_axioms;
    broadcast use vstd::seq_lib::group_to_multiset_ensures;

    let a = cs.subrange(0, pos);
    let b = cs.subrange(pos, cs.len() as int);
    assert(cs.insert(pos, x) =~= a.push(x) + b);
    assert(cs =~= a + b);
    lemma_forest_branches_concat(a.push(x), b);
    lemma_forest_branches_push(a, x);
    lemma_forest_branches_concat(a, b);
    lemma_multiset_commutative(forest_branches(a.push(x)), forest_branches(b));
    lemma_multiset_commutative(forest_branches(a), tree_branches(x));
    lemma_multiset_commutative(forest_branches(a), forest_branches(b));
    assert(forest_branches(cs.insert(pos, x)).to_multiset() =~= forest_branches(
        cs,
    ).to_multiset().add(tree_branches(x).to_multiset()));
}

/// Re-hanging detached subtrees adds exactly their branches.
pub proof fn lemma_add_children_branches(cs: Seq<NodeView>, moved: Seq<NodeView>)
    ensures
        forest_branches(crate::annotate::spec_add_children(cs, moved)).to_multiset()
            == forest_branches(cs).to_multiset().add(forest_branches(moved).to_multiset()),
    decreases moved.len(),
{
    broadcast use vstd::multiset::group_multiset_axioms;
    broadcast use vstd::seq_lib::group_to_multiset_ensures;

    if moved.len() == 0 {
        assert(forest_branches(crate::annotate::spec_add_children(cs, moved)).to_multiset()
            =~= forest_branches(cs).to_multiset().add(forest_branches(moved).to_multiset()));
    } else {
        let pos = crate::graph::insert_pos(cs, moved[0].local_commit.id);
        crate::graph::lemma_insert_pos_range(cs, moved[0].local_commit.id);
        lemma_insert_tree_branches(cs, pos, moved[0]);
        lemma_add_children_branches(cs.insert(pos, moved[0]), moved.drop_first());
        assert(moved =~= Seq::empty().push(moved[0]) + moved.drop_first());
        lemma_forest_branches_concat(Seq::empty().push(moved[0]), moved.drop_first());
        lemma_forest_branches_push(Seq::empty(), moved[0]);
        assert(forest_branches(Seq::<NodeView>::empty()) + tree_branches(moved[0])
            =~= tree_branches(moved[0]));
        lemma_multiset_commutative(
            forest_branches(Seq::empty().push(moved[0])),
            forest_branches(moved.drop_first()),
        );
        lemma_multiset_commutative(tree_branches(moved[0]), forest_branches(moved.drop_first()));
        assert(forest_branches(crate::annotate::spec_add_children(cs, moved)).to_multiset()
            =~= forest_branches(cs).to_multiset().add(forest_branches(moved).to_multiset()));
    }
}

/// Attaching detached subtrees beneath the onto node adds exactly their
/// branches.
pub proof fn lemma_attach_branches(n: NodeView, onto: CommitId, moved: Seq<NodeView>)
    requires
        crate::graph::tree_has(n, onto),
    ensures
        tree_branches(crate::annotate::spec_attach(n, onto, moved)).to_multiset()
            == tree_branches(n).to_multiset().add(forest_branches(moved).to_multiset()),
    decreases n,
{
    broadcast use vstd::multiset::group_multiset_axioms;
    broadcast use vstd::seq_lib::group_to_multiset_ensures;

    if n.local_commit.id == onto {
        lemma_add_children_branches(n.children, moved);
        lemma_multiset_commutative(
            n.branches,
            forest_branches(crate::annotate::spec_add_children(n.children, moved)),
        );
        lemma_multiset_commutative(n.branches, forest_branches(n.children));
        assert(tree_branches(crate::annotate::spec_attach(n, onto, moved)).to_multiset()
            =~= tree_branches(n).to_multiset().add(forest_branches(moved).to_multiset()));
    } else {
        lemma_attach_forest_branches(n.children, onto, moved);
        lemma_multiset_commutative(
            n.branches,
            forest_branches(crate::annotate::spec_attach_forest(n.children, onto, moved)),
        );
        lemma_multiset_commutative(n.branches, forest_branches(n.children));
        assert(tree_branches(crate::annotate::spec_attach(n, onto, moved)).to_multiset()
            =~= tree_branches(n).to_multiset().add(forest_branches(moved).to_multiset()));
    }
}

/// Attaching into the first tree that holds the onto commit adds exactly
/// the moved branches.
pub proof fn lemma_attach_forest_branches(
    cs: Seq<NodeView>,
    onto: CommitId,
    moved: Seq<NodeView>,
)
    requires
        crate::graph::forest_has(cs, onto),
    ensures
        forest_branches(crate::annotate::spec_attach_forest(cs, onto, moved)).to_multiset()
            == forest_branches(cs).to_multiset().add(forest_branches(moved).to_multiset()),
    decreases cs,
{
    broadcast use vstd::multiset::group_multiset_axioms;
    broadcast use vstd::seq_lib::group_to_multiset_ensures;

    if crate::graph::tree_has(cs[0], onto) {
        lemma_attach_branches(cs[0], onto, moved);
        let new0 = crate::annotate::spec_attach(cs[0], onto, moved);
        assert(cs.update(0, new0) =~= Seq::empty().push(new0) + cs.drop_first());
        assert(cs =~= Seq::empty().push(cs[0]) + cs.drop_first());
        lemma_forest_branches_concat(Seq::empty().push(new0), cs.drop_first());
        lemma_forest_branches_concat(Seq::empty().push(cs[0]), cs.drop_first());
        lemma_forest_branches_push(Seq::empty(), new0);
        lemma_forest_branches_push(Seq::empty(), cs[0]);
        assert(forest_branches(Seq::<NodeView>::empty()) + tree_branches(new0) =~= tree_branches(
            new0,
        ));
        assert(forest_branches(Seq::<NodeView>::empty()) + tree_branches(cs[0]) =~= tree_branches(
            cs[0],
        ));
        lemma_multiset_commutative(tree_branches(new0), forest_branches(cs.drop_first()));
        lemma_multiset_commutative(tree_branches(cs[0]), forest_branches(cs.drop_first()));
        assert(forest_branches(crate::annotate::spec_attach_forest(cs, onto, moved)).to_multiset()
            =~= forest_branches(cs).to_multiset().add(forest_branches(moved).to_multiset()));
    } else {
        lemma_attach_forest_branches(cs.drop_first(), onto, moved);
        let rest = crate::annotate::spec_attach_forest(cs.drop_first(), onto, moved);
        lemma_insert_tree_branches(rest, 0, cs[0]);
        assert(cs =~= Seq::empty().push(cs[0]) + cs.drop_first());
        lemma_forest_branches_concat(Seq::empty().push(cs[0]), cs.drop_first());
        lemma_forest_branches_push(Seq::empty(), cs[0]);
        assert(forest_branches(Seq::<NodeView>::empty()) + tree_branches(cs[0]) =~= tree_branches(
            cs[0],
        ));
        lemma_multiset_commutative(tree_branches(cs[0]), forest_branches(cs.drop_first()));
        assert(forest_branches(crate::annotate::spec_attach_forest(cs, onto, moved)).to_multiset()
            =~= forest_branches(cs).to_multiset().add(forest_branches(moved).to_multiset()));
    }
}

/// Branch conservation under the whole rebase pass: marking, stripping and
/// re-attaching move branches between nodes but lose none, so the rebased
/// graph carries exactly the branches of the input, as a multiset.
pub proof fn lemma_rebase_conserves(n: NodeView, onto: CommitId)
    requires
        crate::graph::tree_has(n, onto),
    ensures
        crate::annotate::spec_rebase(n, onto) is Some,
        tree_branches(crate::annotate::spec_rebase(n, onto).unwrap()).to_multiset()
            == tree_branches(n).to_multiset(),
{
    broadcast use vstd::multiset::group_multiset_axioms;
    broadcast use vstd::seq_lib::group_to_multiset_ensures;

    let m = spec_mark(n, onto);
    lemma_mark_conserves(n, onto);
    crate::annotate::lemma_mark_has(n, onto, onto);
    crate::annotate::lemma_mark_strip_keeps(n, onto);
    let km = crate::annotate::spec_strip(m);
    lemma_strip_conserves(m);
    lemma_attach_branches(km.0, onto, km.1);
}


/// Whether the node carrying commit `anc` has commit `desc` somewhere in
/// its subtree: in graph terms, the ancestor's node is an ancestor of the
/// descendant's node.
pub open spec fn above_in_tree(n: NodeView, anc: CommitId, desc: CommitId) -> bool
    decreases n,
{
    (n.local_commit.id == anc && crate::graph::tree_has(n, desc)) || above_in_forest(
        n.children,
        anc,
        desc,
    )
}

/// Whether some tree of the forest places `anc` above `desc`.
pub open spec fn above_in_forest(cs: Seq<NodeView>, anc: CommitId, desc: CommitId) -> bool
    decreases cs,
{
    if cs.len() == 0 {
        false
    } else {
        above_in_tree(cs[0], anc, desc) || above_in_forest(cs.drop_first(), anc, desc)
    }
}

/// A chain graph holds a node for every id of its list.
pub proof fn lemma_chain_nodes_has(
    repo: RepoView,
    bm: Seq<BranchView>,
    ids: Seq<CommitId>,
    act: crate::graph::Action,
    k: int,
)
    requires
        0 <= k < ids.len(),
        repo.graph_wf(),
        repo.contains_commit(ids[k]),
    ensures
        crate::graph::tree_has(crate::graph::spec_chain_nodes(repo, bm, ids, act), ids[k]),
    decreases ids.len(),
{
    if ids.len() == 1 {
        repo.lemma_idx(ids[0]);
    } else if k == ids.len() - 1 {
        repo.lemma_idx(ids[k]);
    } else {
        assert(ids.drop_last()[k] == ids[k]);
        lemma_chain_nodes_has(repo, bm, ids.drop_last(), act, k);
        let n = crate::graph::spec_chain_nodes(repo, bm, ids, act);
        let child = crate::graph::spec_chain_nodes(repo, bm, ids.drop_last(), act);
        assert(n.children == Seq::empty().push(child));
        assert(n.children[0] == child);
        assert(crate::graph::forest_has(n.children, ids[k]));
    }
}

/// Ancestry preservation on a chain graph: when one commit of the chain
/// is an ancestor of another (it sits later in the tip-first id list),
/// its node is an ancestor of the other's node in the graph.
pub proof fn lemma_chain_ancestry(
    repo: RepoView,
    bm: Seq<BranchView>,
    ids: Seq<CommitId>,
    act: crate::graph::Action,
    i: int,
    j: int,
)
    requires
        0 <= j < i < ids.len(),
        repo.graph_wf(),
        repo.contains_commit(ids[i]),
        repo.contains_commit(ids[j]),
    ensures
        above_in_tree(crate::graph::spec_chain_nodes(repo, bm, ids, act), ids[i], ids[j]),
    decreases ids.len(),
{
    let n = crate::graph::spec_chain_nodes(repo, bm, ids, act);
    if i == ids.len() - 1 {
        repo.lemma_idx(ids[i]);
        assert(n.local_commit.id == ids[i]);
        lemma_chain_nodes_has(repo, bm, ids, act, j);
    } else {
        assert(ids.drop_last()[i] == ids[i]);
        assert(ids.drop_last()[j] == ids[j]);
        lemma_chain_ancestry(repo, bm, ids.drop_last(), act, i, j);
        let child = crate::graph::spec_chain_nodes(repo, bm, ids.drop_last(), act);
        assert(n.children == Seq::empty().push(child));
        assert(n.children[0] == child);
        assert(above_in_forest(n.children, ids[i], ids[j]));
    }
}

} // verus!
