//! The stack graph: one node per commit, children keyed and ordered by
//! commit id, each node carrying the branches at its commit and the action
//! planned for it.
//!
//! Construction splices linear first-parent ancestry segments together:
//! a chain is built from a tip down to a base, and further branches are
//! folded in by merging chains at shared commits.

use vstd::prelude::*;

use crate::branches::{at_id, first_index, holds_oid, without_id, Branches};
use crate::error::Error;
use crate::ids::CommitId;
use crate::repo::{Branch, BranchView, Commit, CommitView, Repo, RepoView};

verus! {

/// What the rebase plan intends for a commit.
#[derive(Clone, Copy, Debug, PartialEq, Eq, Structural)]
pub enum Action {
    /// Keep the commit, rewriting it onto its new parent.
    Pick,
    /// Never rewrite this commit; children may still move.
    Protected,
    /// Drop the commit entirely.
    Delete,
    /// Squash the commit into the tip below it.
    Fixup,
}

impl Action {
    /// Whether this is the protected action.
    pub fn is_protected(&self) -> (r: bool)
        ensures
            r == (*self == Action::Protected),
    {
        match self {
            Action::Protected => true,
            _ => false,
        }
    }

    /// Whether the commit is rewritten onto a new parent: picked or
    /// squashed.
    pub fn is_rebase(&self) -> (r: bool)
        ensures
            r == (*self == Action::Pick || *self == Action::Fixup),
    {
        match self {
            Action::Pick => true,
            Action::Fixup => true,
            _ => false,
        }
    }

    /// Whether the commit is dropped.
    pub fn is_delete(&self) -> (r: bool)
        ensures
            r == (*self == Action::Delete),
    {
        match self {
            Action::Delete => true,
            _ => false,
        }
    }
}

/// One node of the stack graph.
#[derive(Debug)]
pub struct Node {
    pub local_commit: Commit,
    pub branches: Vec<Branch>,
    pub action: Action,
    pub pushable: bool,
    pub children: Vec<Node>,
}

/// The mathematical value of a [`Node`]. Children are ordered by commit
/// id, which the construction maintains, making the child list an ordered
/// map from commit id to subtree.
pub struct NodeView {
    pub local_commit: CommitView,
    pub branches: Seq<BranchView>,
    pub action: Action,
    pub pushable: bool,
    pub children: Seq<NodeView>,
}

/// The mathematical values of a branch list.
pub open spec fn branch_views(bs: Seq<Branch>) -> Seq<BranchView> {
    bs.map_values(|b: Branch| b@)
}

/// The views of a branch list, element by element.
pub proof fn lemma_branch_views(bs: Seq<Branch>)
    ensures
        branch_views(bs).len() == bs.len(),
        forall|i: int| 0 <= i < bs.len() ==> branch_views(bs)[i] == (#[trigger] bs[i])@,
{
}

/// Pushing a branch pushes its view.
pub proof fn lemma_branch_views_push(bs: Seq<Branch>, b: Branch)
    ensures
        branch_views(bs.push(b)) == branch_views(bs).push(b@),
{
    lemma_branch_views(bs);
    lemma_branch_views(bs.push(b));
    assert(branch_views(bs.push(b)) =~= branch_views(bs).push(b@));
}

/// The mathematical value of a node.
pub open spec fn node_view(n: Node) -> NodeView
    decreases n,
{
    NodeView {
        local_commit: n.local_commit@,
        branches: branch_views(n.branches@),
        action: n.action,
        pushable: n.pushable,
        children: forest_view(n.children@),
    }
}

/// The mathematical values of a sequence of nodes.
pub open spec fn forest_view(cs: Seq<Node>) -> Seq<NodeView>
    decreases cs,
{
    if cs.len() == 0 {
        Seq::empty()
    } else {
        forest_view(cs.drop_last()).push(node_view(cs.last()))
    }
}

impl View for Node {
    type V = NodeView;

    open spec fn view(&self) -> NodeView {
        node_view(*self)
    }
}

/// The views of a node sequence, element by element.
pub proof fn lemma_forest_view(cs: Seq<Node>)
    ensures
        forest_view(cs).len() == cs.len(),
        forall|i: int| 0 <= i < cs.len() ==> forest_view(cs)[i] == node_view(#[trigger] cs[i]),
    decreases cs,
{
    if cs.len() > 0 {
        lemma_forest_view(cs.drop_last());
        assert forall|i: int| 0 <= i < cs.len() implies forest_view(cs)[i] == node_view(
            #[trigger] cs[i],
        ) by {
            if i < cs.len() - 1 {
                assert(cs.drop_last()[i] == cs[i]);
            }
        }
    }
}

/// Whether the tree holds a node for this commit id.
pub open spec fn tree_has(n: NodeView, id: CommitId) -> bool
    decreases n,
{
    n.local_commit.id == id || forest_has(n.children, id)
}

/// Whether some tree of the forest holds a node for this commit id.
pub open spec fn forest_has(cs: Seq<NodeView>, id: CommitId) -> bool
    decreases cs,
{
    if cs.len() == 0 {
        false
    } else {
        tree_has(cs[0], id) || forest_has(cs.drop_first(), id)
    }
}

/// All branches carried by the tree, in depth-first order: the node's own
/// branches first, then those of each child in order.
pub open spec fn tree_branches(n: NodeView) -> Seq<BranchView>
    decreases n,
{
    n.branches + forest_branches(n.children)
}

/// All branches carried by the forest, in order.
pub open spec fn forest_branches(cs: Seq<NodeView>) -> Seq<BranchView>
    decreases cs,
{
    if cs.len() == 0 {
        Seq::empty()
    } else {
        tree_branches(cs[0]) + forest_branches(cs.drop_first())
    }
}

impl Node {
    /// A leaf node for this commit, taking every branch at the commit out
    /// of the index. The action starts as `Pick` and the node as not
    /// pushable.
    pub fn new(local_commit: Commit, possible_branches: &mut Branches) -> (r: Node)
        ensures
            r@ == (NodeView {
                local_commit: local_commit@,
                branches: at_id(old(possible_branches)@, local_commit@.id),
                action: Action::Pick,
                pushable: false,
                children: Seq::empty(),
            }),
            final(possible_branches)@ == without_id(old(possible_branches)@, local_commit@.id),
    {
        let branches = match possible_branches.remove(local_commit.id) {
            Some(v) => v,
            None => {
                proof {
                    crate::branches::lemma_at_id_absent(old(possible_branches)@, local_commit@.id);
                }
                Vec::new()
            },
        };
        let r = Node {
            local_commit,
            branches,
            action: Action::Pick,
            pushable: false,
            children: Vec::new(),
        };
        assert(forest_view(r.children@) =~= Seq::<NodeView>::empty());
        assert(r@.branches =~= at_id(old(possible_branches)@, r.local_commit@.id));
        r
    }
}


/// The linear chain graph over these commit ids: `ids[0]` is the deepest
/// node (the head), `ids.last()` the root (the base); each node carries
/// the branches at its commit and the given action.
pub open spec fn spec_chain_nodes(
    repo: RepoView,
    bm: Seq<BranchView>,
    ids: Seq<CommitId>,
    act: Action,
) -> NodeView
    decreases ids.len(),
{
    if ids.len() <= 1 {
        NodeView {
            local_commit: repo.commit_of(ids[0]),
            branches: at_id(bm, ids[0]),
            action: act,
            pushable: false,
            children: Seq::empty(),
        }
    } else {
        let child = spec_chain_nodes(repo, bm, ids.drop_last(), act);
        NodeView {
            local_commit: repo.commit_of(ids.last()),
            branches: at_id(bm, ids.last()),
            action: act,
            pushable: false,
            children: Seq::empty().push(child),
        }
    }
}

/// The prefix of `head`'s first-parent chain down to `base`, ends
/// included; meaningful when `base` lies on that chain.
pub open spec fn chain_upto(repo: RepoView, base: CommitId, head: CommitId) -> Seq<CommitId> {
    repo.chain(head).subrange(
        0,
        crate::branches::first_index(repo.chain(head), base) + 1,
    )
}

/// A chain contains `base` exactly when the merge base of `base` and the
/// chain tip is `base` itself.
pub proof fn lemma_base_on_chain(repo: RepoView, base: CommitId, head: CommitId)
    requires
        repo.graph_wf(),
        repo.contains_commit(base),
        repo.contains_commit(head),
    ensures
        (repo.spec_merge_base(base, head) == Some(base)) <==> repo.chain(head).contains(base),
{
    repo.lemma_chain_shape(base);
    repo.lemma_chain_shape(head);
    if repo.chain(head).contains(base) {
        assert(repo.chain(base)[0] == base);
        assert(crate::repo::first_common(repo.chain(base), repo.chain(head)) == Some(base));
    }
    if repo.spec_merge_base(base, head) == Some(base) {
        crate::branches::lemma_first_common_in(repo.chain(base), repo.chain(head), base);
    }
}

/// The first occurrence of a present element, as `first_index` finds it.
pub proof fn lemma_first_index_present(s: Seq<CommitId>, x: CommitId)
    requires
        s.contains(x),
    ensures
        0 <= first_index(s, x) < s.len(),
        s[first_index(s, x)] == x,
        forall|k: int| 0 <= k < first_index(s, x) ==> s[k] != x,
    decreases s.len(),
{
    if s[0] == x {
    } else {
        let t = choose|t: int| 0 <= t < s.len() && s[t] == x;
        assert(s.drop_first()[t - 1] == x);
        lemma_first_index_present(s.drop_first(), x);
        assert forall|k: int| 0 <= k < first_index(s, x) implies s[k] != x by {
            if k > 0 {
                assert(s.drop_first()[k - 1] != x);
            }
        }
    }
}

impl Node {
    /// A linear graph from `head_id` down to `base_id` along first-parent
    /// ancestry, rooted at `base_id`, every node taking its branches out
    /// of the index and carrying `default_action`. Fails with
    /// [`Error::NotFound`], leaving the index untouched, exactly when
    /// `head_id` does not descend from `base_id` along first parents.
    pub fn populate(
        repo: &Repo,
        base_id: CommitId,
        head_id: CommitId,
        branches: &mut Branches,
        default_action: Action,
    ) -> (r: Result<Node, Error>)
        requires
            repo.inv(),
            repo@.contains_commit(base_id),
            repo@.contains_commit(head_id),
        ensures
            match r {
                Ok(n) => {
                    &&& repo@.chain(head_id).contains(base_id)
                    &&& n@ == spec_chain_nodes(
                        repo@,
                        old(branches)@,
                        chain_upto(repo@, base_id, head_id),
                        default_action,
                    )
                    &&& final(branches)@ == crate::branches::without_ids(
                        old(branches)@,
                        chain_upto(repo@, base_id, head_id),
                    )
                },
                Err(e) => {
                    &&& e == Error::NotFound
                    &&& !repo@.chain(head_id).contains(base_id)
                    &&& final(branches)@ == old(branches)@
                },
            },
    {
        proof {
            lemma_base_on_chain(repo@, base_id, head_id);
        }
        let descends = match repo.merge_base(base_id, head_id) {
            Some(m) => m.eq_id(&base_id),
            None => false,
        };
        if !descends {
            return Err(Error::NotFound);
        }
        let ghost bm0 = branches@;
        let ghost chain = repo@.chain(head_id);
        proof {
            repo@.lemma_chain_shape(head_id);
            repo@.lemma_chain_distinct(head_id);
            lemma_first_index_present(chain, base_id);
        }
        let chead = repo.chain_ids(head_id);
        let clen = chead.len();
        let pb = crate::branches::index_in(&chead, base_id);
        let ghost ids = chain_upto(repo@, base_id, head_id);
        assert(ids == chain.subrange(0, pb + 1));
        assert(ids.len() == pb + 1);
        assert(chead@[0] == head_id);
        let c0 = match repo.find_commit(chead[0]) {
            Some(c) => c,
            None => {
                proof {
                    assert(false);
                }
                return Err(Error::NotFound);
            },
        };
        let mut root = Node::new(c0, branches);
        root.action = default_action;
        proof {
            assert(ids[0] == chain[0]);
            assert(ids.subrange(0, 1) =~= seq![head_id]);
            assert(root@ == spec_chain_nodes(repo@, bm0, ids.subrange(0, 1), default_action));
            assert(chain.subrange(0, 1) =~= seq![head_id]);
            crate::branches::lemma_without_ids_push(bm0, Seq::<CommitId>::empty(), head_id);
            assert(Seq::<CommitId>::empty().push(head_id) =~= chain.subrange(0, 1));
            assert(branches@ == crate::branches::without_ids(bm0, chain.subrange(0, 1)));
        }
        let mut p: usize = 1;
        while p <= pb
            invariant
                repo.inv(),
                repo@.contains_commit(head_id),
                chead@ == chain,
                chain == repo@.chain(head_id),
                ids == chain.subrange(0, pb + 1),
                forall|i: int, j: int| 0 <= i < j < chain.len() ==> chain[i] != chain[j],
                forall|k: int|
                    0 <= k < chain.len() ==> repo@.contains_commit(#[trigger] chain[k]),
                pb < clen == chain.len(),
                1 <= p <= pb + 1,
                root@ == spec_chain_nodes(repo@, bm0, chain.subrange(0, p as int), default_action),
                branches@ == crate::branches::without_ids(bm0, chain.subrange(0, p as int)),
            decreases pb + 1 - p,
        {
            let ghost pre = chain.subrange(0, p as int);
            let ghost post = chain.subrange(0, p + 1);
            assert(post.drop_last() =~= pre);
            assert(post.last() == chain[p as int]);
            let cid = chead[p];
            let c = match repo.find_commit(cid) {
                Some(c) => c,
                None => {
                    proof {
                        assert(false);
                    }
                    return Err(Error::NotFound);
                },
            };
            let ghost cur_bm = branches@;
            let mut n = Node::new(c, branches);
            let ghost n0v = n@;
            n.action = default_action;
            proof {
                assert(!pre.contains(cid)) by {
                    if pre.contains(cid) {
                        let t = choose|t: int| 0 <= t < pre.len() && pre[t] == cid;
                        assert(chain[t] == chain[p as int]);
                    }
                }
                crate::branches::lemma_at_id_without_ids(bm0, pre, cid);
                assert(at_id(cur_bm, cid) == at_id(bm0, cid));
                crate::branches::lemma_without_ids_push(bm0, pre, cid);
                assert(pre.push(cid) =~= post);
                assert(branches@ == crate::branches::without_ids(bm0, post));
            }
            proof {
                lemma_forest_view(n.children@);
                assert(n.children@.len() == 0);
            }
            let ghost prev_root = root@;
            n.children.push(root);
            root = n;
            proof {
                assert(root.children@.len() == 1);
                assert(forest_view(root.children@.drop_last()) =~= Seq::<NodeView>::empty());
                assert(root.children@.last()@ == prev_root);
                assert(root@.children =~= Seq::empty().push(prev_root));
                assert(root.branches@ == n.branches@);
                assert(root@.branches =~= n0v.branches);
                assert(root@.local_commit == c@);
                assert(post.len() >= 2);
                assert(spec_chain_nodes(repo@, bm0, post, default_action) == (NodeView {
                    local_commit: repo@.commit_of(post.last()),
                    branches: at_id(bm0, post.last()),
                    action: default_action,
                    pushable: false,
                    children: Seq::empty().push(
                        spec_chain_nodes(repo@, bm0, post.drop_last(), default_action),
                    ),
                }));
                assert(root@ == spec_chain_nodes(repo@, bm0, post, default_action));
            }
            p = p + 1;
        }
        assert(chain.subrange(0, pb + 1) == ids);
        Ok(root)
    }
}


/// The position of the child with this commit id; `-1` when absent.
pub open spec fn child_pos(cs: Seq<NodeView>, id: CommitId) -> int
    decreases cs.len(),
{
    if cs.len() == 0 {
        -1
    } else if cs[0].local_commit.id == id {
        0
    } else {
        let r = child_pos(cs.drop_first(), id);
        if r < 0 {
            -1
        } else {
            r + 1
        }
    }
}

/// Where a child with this commit id belongs in the id-ordered child
/// list: before the first child with a greater id.
pub open spec fn insert_pos(cs: Seq<NodeView>, id: CommitId) -> int
    decreases cs.len(),
{
    if cs.len() == 0 {
        0
    } else if id.spec_lt(cs[0].local_commit.id) {
        0
    } else {
        1 + insert_pos(cs.drop_first(), id)
    }
}

/// The insertion position lies within the child list.
pub proof fn lemma_insert_pos_range(cs: Seq<NodeView>, id: CommitId)
    ensures
        0 <= insert_pos(cs, id) <= cs.len(),
    decreases cs.len(),
{
    if cs.len() > 0 && !id.spec_lt(cs[0].local_commit.id) {
        lemma_insert_pos_range(cs.drop_first(), id);
    }
}

/// Two graphs rooted at the same commit, merged: the branch lists are
/// concatenated and the children merged child by child, children sharing
/// a commit id merging recursively, new children entering in id order.
pub open spec fn spec_merge(a: NodeView, b: NodeView) -> NodeView
    decreases b,
{
    NodeView {
        local_commit: a.local_commit,
        branches: a.branches + b.branches,
        action: a.action,
        pushable: a.pushable,
        children: spec_merge_children(a.children, b.children),
    }
}

/// Folds the children of `bc` into `ac`, in order.
pub open spec fn spec_merge_children(ac: Seq<NodeView>, bc: Seq<NodeView>) -> Seq<NodeView>
    decreases bc,
{
    if bc.len() == 0 {
        ac
    } else {
        let b0 = bc[0];
        let k = child_pos(ac, b0.local_commit.id);
        let ac2 = if k >= 0 {
            ac.update(k, spec_merge(ac[k], b0))
        } else {
            ac.insert(insert_pos(ac, b0.local_commit.id), b0)
        };
        spec_merge_children(ac2, bc.drop_first())
    }
}

/// The position of the child of `cs` carrying commit `id`.
fn find_child_pos(children: &Vec<Node>, ghost_fv: Ghost<Seq<NodeView>>, id: CommitId) -> (r:
    Option<usize>)
    requires
        ghost_fv@ == forest_view(children@),
    ensures
        match r {
            Some(k) => child_pos(ghost_fv@, id) == k && k < children@.len() && ghost_fv@[k as int].local_commit.id
                == id,
            None => child_pos(ghost_fv@, id) == -1,
        },
{
    let ghost fv = ghost_fv@;
    proof {
        lemma_forest_view(children@);
        assert(fv.skip(0) =~= fv);
    }
    let mut i: usize = 0;
    while i < children.len()
        invariant
            fv == forest_view(children@),
            fv.len() == children@.len(),
            forall|t: int| 0 <= t < children@.len() ==> fv[t] == node_view(#[trigger] children@[t]),
            i <= children@.len(),
            child_pos(fv, id) == if child_pos(fv.skip(i as int), id) < 0 {
                -1
            } else {
                child_pos(fv.skip(i as int), id) + i
            },
        decreases children@.len() - i,
    {
        let ghost t = fv.skip(i as int);
        assert(t[0] == fv[i as int]);
        assert(t.drop_first() =~= fv.skip(i + 1));
        if children[i].local_commit.id.eq_id(&id) {
            assert(fv[i as int].local_commit.id == id);
            return Some(i);
        }
        assert(fv[i as int].local_commit.id != id);
        i = i + 1;
    }
    assert(fv.skip(children@.len() as int).len() == 0);
    None
}

/// The id-ordered insertion position for a child carrying commit `id`.
fn find_insert_pos(children: &Vec<Node>, ghost_fv: Ghost<Seq<NodeView>>, id: CommitId) -> (r:
    usize)
    requires
        ghost_fv@ == forest_view(children@),
    ensures
        r == insert_pos(ghost_fv@, id),
        r <= children@.len(),
{
    let ghost fv = ghost_fv@;
    proof {
        lemma_forest_view(children@);
        assert(fv.skip(0) =~= fv);
        lemma_insert_pos_range(fv, id);
    }
    let mut i: usize = 0;
    while i < children.len()
        invariant
            fv == forest_view(children@),
            fv.len() == children@.len(),
            forall|t: int| 0 <= t < children@.len() ==> fv[t] == node_view(#[trigger] children@[t]),
            i <= children@.len(),
            insert_pos(fv, id) == i + insert_pos(fv.skip(i as int), id),
            insert_pos(fv.skip(i as int), id) >= 0,
        decreases children@.len() - i,
    {
        let ghost t = fv.skip(i as int);
        assert(t[0] == fv[i as int]);
        assert(t.drop_first() =~= fv.skip(i + 1));
        if id.lt_id(&children[i].local_commit.id) {
            assert(insert_pos(t, id) == 0);
            return i;
        }
        proof {
            lemma_insert_pos_range(fv.skip(i + 1), id);
        }
        i = i + 1;
    }
    assert(fv.skip(children@.len() as int).len() == 0);
    i
}

/// The id-ordered insertion position for a child carrying commit `id`;
/// the position [`insert_pos`] names.
pub fn find_insert_pos_pub(children: &Vec<Node>, ghost_fv: Ghost<Seq<NodeView>>, id: CommitId) -> (r:
    usize)
    requires
        ghost_fv@ == forest_view(children@),
    ensures
        r == insert_pos(ghost_fv@, id),
        r <= children@.len(),
{
    find_insert_pos(children, ghost_fv, id)
}

impl Node {
    /// Whether the tree holds a node for this commit id.
    pub fn contains_id(&self, id: CommitId) -> (r: bool)
        ensures
            r == tree_has(self@, id),
        decreases *self,
    {
        if self.local_commit.id.eq_id(&id) {
            return true;
        }
        let ghost fv = self@.children;
        proof {
            lemma_forest_view(self.children@);
            assert(fv.skip(0) =~= fv);
        }
        let mut i: usize = 0;
        while i < self.children.len()
            invariant
                fv == forest_view(self.children@),
                fv.len() == self.children@.len(),
                forall|t: int|
                    0 <= t < self.children@.len() ==> fv[t] == node_view(
                        #[trigger] self.children@[t],
                    ),
                i <= self.children@.len(),
                forest_has(fv, id) == forest_has(fv.skip(i as int), id),
            decreases self.children@.len() - i,
        {
            let ghost t = fv.skip(i as int);
            assert(t[0] == fv[i as int]);
            assert(t.drop_first() =~= fv.skip(i + 1));
            proof {
                assert(decreases_to!(*self => self.children));
                assert(decreases_to!(self.children => self.children@));
                assert(decreases_to!(self.children@ => self.children@[i as int]));
            }
            if self.children[i].contains_id(id) {
                return true;
            }
            i = i + 1;
        }
        assert(fv.skip(self.children@.len() as int).len() == 0);
        false
    }

    /// Merges another graph rooted at the same commit into this one:
    /// branch lists are concatenated and children sharing a commit merge
    /// recursively, new children entering in id order.
    pub fn merge(self, other: Node) -> (r: Node)
        requires
            self@.local_commit.id == other@.local_commit.id,
        ensures
            r@ == spec_merge(self@, other@),
        decreases other,
    {
        let ghost av = self@;
        let ghost ov = other@;
        let Node { local_commit, mut branches, action, pushable, mut children } = self;
        let Node {
            local_commit: other_commit,
            branches: other_branches,
            action: other_action,
            pushable: other_pushable,
            children: other_children,
        } = other;
        proof {
            assert(ov.branches == branch_views(other_branches@));
            assert(ov.children == forest_view(other_children@));
            assert(av.branches == branch_views(branches@));
            assert(av.children == forest_view(children@));
        }
        append_branches(&mut branches, other_branches);
        merge_children_into(&mut children, other_children);
        let r = Node { local_commit, branches, action, pushable, children };
        proof {
            assert(r@.children == forest_view(children@));
            assert(r@.branches == branch_views(branches@));
            assert(r@ == spec_merge(av, ov));
        }
        r
    }
}

/// Appends the branches of `more` to `out`, in order.
fn append_branches(out: &mut Vec<Branch>, more: Vec<Branch>)
    ensures
        branch_views(final(out)@) == branch_views(old(out)@) + branch_views(more@),
{
    let ghost ob = branch_views(more@);
    let ghost base = branch_views(old(out)@);
    proof {
        lemma_branch_views(more@);
        lemma_branch_views(out@);
        assert(branch_views(out@) =~= base + ob.subrange(0, 0));
    }
    let mut i: usize = 0;
    while i < more.len()
        invariant
            i <= more@.len(),
            ob == branch_views(more@),
            ob.len() == more@.len(),
            branch_views(out@) == base + ob.subrange(0, i as int),
        decreases more@.len() - i,
    {
        proof {
            lemma_branch_views(more@);
            assert(ob[i as int] == more@[i as int]@);
        }
        let ghost pre = out@;
        let b = more[i].clone();
        let ghost gb = b;
        out.push(b);
        proof {
            lemma_branch_views_push(pre, gb);
            assert(branch_views(out@) =~= base + ob.subrange(0, i + 1));
        }
        i = i + 1;
    }
    proof {
        assert(ob.subrange(0, ob.len() as int) =~= ob);
    }
}

/// Folds each tree of `rest`, in order, into the id-ordered child list.
fn merge_children_into(children: &mut Vec<Node>, rest: Vec<Node>)
    ensures
        forest_view(final(children)@) == spec_merge_children(
            forest_view(old(children)@),
            forest_view(rest@),
        ),
    decreases rest@,
{
    let ghost bc = forest_view(rest@);
    let ghost rest0 = rest@;
    if rest.len() == 0 {
        proof {
            lemma_forest_view(rest@);
            assert(bc.len() == 0);
        }
        return ;
    }
    proof {
        lemma_forest_view(rest@);
    }
    let mut rest = rest;
    let b0 = rest.remove(0);
    let ghost b0v = node_view(b0);
    proof {
        assert(b0 == rest0[0]);
        assert(bc[0] == node_view(rest0[0]));
        assert(b0v == bc[0]);
        lemma_forest_view(rest@);
        assert(rest@ =~= rest0.drop_first());
        assert forall|t: int| 0 <= t < rest@.len() implies forest_view(rest@)[t]
            == bc.drop_first()[t] by {
            assert(forest_view(rest@)[t] == node_view(rest@[t]));
            assert(rest@[t] == rest0[t + 1]);
            assert(bc[t + 1] == node_view(rest0[t + 1]));
        }
        assert(forest_view(rest@) =~= bc.drop_first());
    }
    let ghost acv = forest_view(children@);
    let k = find_child_pos(children, Ghost(acv), b0.local_commit.id);
    let ghost cpre = children@;
    proof {
        lemma_forest_view(cpre);
    }
    match k {
        Some(kk) => {
            let ex = children.remove(kk);
            proof {
                assert(ex == cpre[kk as int]);
                assert(acv[kk as int] == node_view(cpre[kk as int]));
                assert(ex@ == acv[kk as int]);
                assert(decreases_to!(rest0 => rest0[0]));
                assert(rest0[0] == b0);
            }
            let merged = ex.merge(b0);
            let ghost gm = merged;
            children.insert(kk, merged);
            proof {
                assert(children@ =~= cpre.update(kk as int, gm));
                lemma_forest_view(children@);
                assert(gm@ == spec_merge(acv[kk as int], b0v));
                assert forall|t: int| 0 <= t < children@.len() implies forest_view(children@)[t]
                    == acv.update(kk as int, spec_merge(acv[kk as int], b0v))[t] by {
                    assert(forest_view(children@)[t] == node_view(children@[t]));
                    if t != kk {
                        assert(children@[t] == cpre[t]);
                        assert(acv[t] == node_view(cpre[t]));
                    }
                }
                assert(forest_view(children@) =~= acv.update(
                    kk as int,
                    spec_merge(acv[kk as int], b0v),
                ));
            }
        },
        None => {
            let pos = find_insert_pos(children, Ghost(acv), b0.local_commit.id);
            let ghost gb0 = b0;
            children.insert(pos, b0);
            proof {
                assert(children@ =~= cpre.insert(pos as int, gb0));
                lemma_forest_view(children@);
                assert forall|t: int| 0 <= t < children@.len() implies forest_view(children@)[t]
                    == acv.insert(pos as int, b0v)[t] by {
                    assert(forest_view(children@)[t] == node_view(children@[t]));
                    if t < pos {
                        assert(children@[t] == cpre[t]);
                        assert(acv[t] == node_view(cpre[t]));
                    } else if t == pos {
                        assert(children@[t] == gb0);
                    } else {
                        assert(children@[t] == cpre[t - 1]);
                        assert(acv[t - 1] == node_view(cpre[t - 1]));
                    }
                }
                assert(forest_view(children@) =~= acv.insert(pos as int, b0v));
            }
        },
    }
    proof {
        assert(spec_merge_children(acv, bc) == spec_merge_children(
            forest_view(children@),
            bc.drop_first(),
        ));
        assert(rest@ =~= rest0.drop_first());
    }
    merge_children_into(children, rest);
}


/// The graph with `other` merged into its (first, in depth-first order)
/// node carrying commit `id`.
pub open spec fn spec_merge_at(n: NodeView, id: CommitId, other: NodeView) -> NodeView
    decreases n,
{
    if n.local_commit.id == id {
        spec_merge(n, other)
    } else {
        NodeView { children: spec_merge_at_forest(n.children, id, other), ..n }
    }
}

/// Merges `other` into the first tree of the forest that holds `id`.
pub open spec fn spec_merge_at_forest(cs: Seq<NodeView>, id: CommitId, other: NodeView) -> Seq<
    NodeView,
>
    decreases cs,
{
    if cs.len() == 0 {
        cs
    } else if tree_has(cs[0], id) {
        cs.update(0, spec_merge_at(cs[0], id, other))
    } else {
        spec_merge_at_forest(cs.drop_first(), id, other).insert(0, cs[0])
    }
}

/// A forest holds an id exactly when one of its trees does.
pub proof fn lemma_forest_has_index(cs: Seq<NodeView>, id: CommitId)
    ensures
        forest_has(cs, id) <==> exists|t: int| 0 <= t < cs.len() && tree_has(#[trigger] cs[t], id),
    decreases cs.len(),
{
    if cs.len() > 0 {
        lemma_forest_has_index(cs.drop_first(), id);
        if forest_has(cs, id) {
            if tree_has(cs[0], id) {
            } else {
                let t = choose|t: int|
                    0 <= t < cs.drop_first().len() && tree_has(#[trigger] cs.drop_first()[t], id);
                assert(cs[t + 1] == cs.drop_first()[t]);
                assert(tree_has(cs[t + 1], id));
            }
        }
        if exists|t: int| 0 <= t < cs.len() && tree_has(#[trigger] cs[t], id) {
            let t = choose|t: int| 0 <= t < cs.len() && tree_has(#[trigger] cs[t], id);
            if t > 0 {
                assert(cs.drop_first()[t - 1] == cs[t]);
                assert(tree_has(cs.drop_first()[t - 1], id));
            }
        }
    }
}

/// When the first tree holding `id` sits at position `t`, merging at `id`
/// updates exactly that position.
pub proof fn lemma_merge_at_forest_at(cs: Seq<NodeView>, id: CommitId, other: NodeView, t: int)
    requires
        0 <= t < cs.len(),
        tree_has(cs[t], id),
        forall|u: int| 0 <= u < t ==> !tree_has(#[trigger] cs[u], id),
    ensures
        spec_merge_at_forest(cs, id, other) == cs.update(t, spec_merge_at(cs[t], id, other)),
    decreases cs.len(),
{
    if t == 0 {
    } else {
        assert(!tree_has(cs[0], id));
        assert forall|u: int| 0 <= u < t - 1 implies !tree_has(
            #[trigger] cs.drop_first()[u],
            id,
        ) by {
            assert(cs.drop_first()[u] == cs[u + 1]);
        }
        assert(cs.drop_first()[t - 1] == cs[t]);
        lemma_merge_at_forest_at(cs.drop_first(), id, other, t - 1);
        assert(spec_merge_at_forest(cs, id, other) == cs.drop_first().update(
            t - 1,
            spec_merge_at(cs[t], id, other),
        ).insert(0, cs[0]));
        assert(cs.drop_first().update(t - 1, spec_merge_at(cs[t], id, other)).insert(0, cs[0])
            =~= cs.update(t, spec_merge_at(cs[t], id, other)));
    }
}

impl Node {
    /// Merges `other` into the first node (in depth-first order) of this
    /// tree that carries commit `id`.
    pub fn merge_at(self, id: CommitId, other: Node) -> (r: Node)
        requires
            tree_has(self@, id),
            other@.local_commit.id == id,
        ensures
            r@ == spec_merge_at(self@, id, other@),
        decreases self,
    {
        let ghost s0 = self;
        if self.local_commit.id.eq_id(&id) {
            return self.merge(other);
        }
        let Node { local_commit, branches, action, pushable, mut children } = self;
        let ghost fv = forest_view(children@);
        let ghost cpre = children@;
        proof {
            lemma_forest_view(children@);
            assert(s0@.children == fv);
            lemma_forest_has_index(fv, id);
        }
        let mut i: usize = 0;
        loop
            invariant
                cpre == children@,
                fv == forest_view(children@),
                fv.len() == children@.len(),
                forall|t: int|
                    0 <= t < children@.len() ==> fv[t] == node_view(#[trigger] children@[t]),
                i <= children@.len(),
                forall|u: int| 0 <= u < i ==> !tree_has(#[trigger] fv[u], id),
                exists|t: int| 0 <= t < fv.len() && tree_has(#[trigger] fv[t], id),
                other@.local_commit.id == id,
            decreases children@.len() - i,
        {
            if i >= children.len() {
                proof {
                    let t = choose|t: int| 0 <= t < fv.len() && tree_has(#[trigger] fv[t], id);
                    assert(false);
                }
            }
            if children[i].contains_id(id) {
                break ;
            }
            assert(!tree_has(fv[i as int], id));
            i = i + 1;
        }
        let c = children.remove(i);
        proof {
            assert(c == cpre[i as int]);
            assert(c@ == fv[i as int]);
            assert(decreases_to!(s0 => s0.children));
            assert(decreases_to!(s0.children => s0.children@));
            assert(s0.children@ == cpre);
            assert(decreases_to!(s0.children@ => s0.children@[i as int]));
            assert(s0.children@[i as int] == c);
        }
        let m = c.merge_at(id, other);
        let ghost gm = m;
        children.insert(i, m);
        proof {
            assert(children@ =~= cpre.update(i as int, gm));
            lemma_forest_view(children@);
            assert forall|t: int| 0 <= t < children@.len() implies forest_view(children@)[t]
                == fv.update(i as int, spec_merge_at(fv[i as int], id, other@))[t] by {
                assert(forest_view(children@)[t] == node_view(children@[t]));
                if t != i {
                    assert(children@[t] == cpre[t]);
                    assert(fv[t] == node_view(cpre[t]));
                }
            }
            assert(forest_view(children@) =~= fv.update(
                i as int,
                spec_merge_at(fv[i as int], id, other@),
            ));
            lemma_merge_at_forest_at(fv, id, other@, i as int);
        }
        let r = Node { local_commit, branches, action, pushable, children };
        proof {
            assert(r@.children == forest_view(children@));
            assert(r@.branches == s0@.branches);
            assert(r@ == spec_merge_at(s0@, id, other@));
        }
        r
    }
}


/// A chain graph holds the commit at the head of its id list.
pub proof fn lemma_chain_nodes_has_head(
    repo: RepoView,
    bm: Seq<BranchView>,
    ids: Seq<CommitId>,
    act: Action,
)
    requires
        ids.len() >= 1,
        repo.graph_wf(),
        repo.contains_commit(ids[0]),
    ensures
        tree_has(spec_chain_nodes(repo, bm, ids, act), ids[0]),
    decreases ids.len(),
{
    if ids.len() == 1 {
        repo.lemma_idx(ids[0]);
    } else {
        lemma_chain_nodes_has_head(repo, bm, ids.drop_last(), act);
        assert(ids.drop_last()[0] == ids[0]);
        let n = spec_chain_nodes(repo, bm, ids, act);
        let child = spec_chain_nodes(repo, bm, ids.drop_last(), act);
        assert(n.children == Seq::empty().push(child));
        assert(n.children[0] == child);
        assert(forest_has(n.children, ids[0]));
    }
}

/// Extending a graph by another graph: when the other's root commit is
/// already in the graph, the other merges there; otherwise both graphs are
/// spliced below their merge base (each gaining a branchless prefix chain
/// down to it) and merged at that base. `None` when their histories are
/// disjoint.
pub open spec fn spec_extend(repo: RepoView, a: NodeView, b: NodeView) -> Option<NodeView> {
    if tree_has(a, b.local_commit.id) {
        Some(spec_merge_at(a, b.local_commit.id, b))
    } else {
        match repo.spec_merge_base(a.local_commit.id, b.local_commit.id) {
            None => None,
            Some(m) => {
                let ea = if m == a.local_commit.id {
                    a
                } else {
                    spec_merge_at(
                        spec_chain_nodes(
                            repo,
                            Seq::empty(),
                            chain_upto(repo, m, a.local_commit.id),
                            a.action,
                        ),
                        a.local_commit.id,
                        a,
                    )
                };
                let eb = if m == b.local_commit.id {
                    b
                } else {
                    spec_merge_at(
                        spec_chain_nodes(
                            repo,
                            Seq::empty(),
                            chain_upto(repo, m, b.local_commit.id),
                            b.action,
                        ),
                        b.local_commit.id,
                        b,
                    )
                };
                Some(spec_merge(ea, eb))
            },
        }
    }
}

impl Node {
    /// Splices a chain from `base_id` up to this graph's root beneath it:
    /// the root then becomes `base_id`. The chain nodes carry no branches
    /// and this graph's root action.
    fn splice_below(self, repo: &Repo, base_id: CommitId) -> (r: Node)
        requires
            repo.inv(),
            repo@.contains_commit(base_id),
            repo@.contains_commit(self@.local_commit.id),
            repo@.chain(self@.local_commit.id).contains(base_id),
            base_id != self@.local_commit.id,
        ensures
            r@.local_commit.id == base_id,
            r@ == spec_merge_at(
                spec_chain_nodes(
                    repo@,
                    Seq::empty(),
                    chain_upto(repo@, base_id, self@.local_commit.id),
                    self@.action,
                ),
                self@.local_commit.id,
                self@,
            ),
    {
        let ghost ids = chain_upto(repo@, base_id, self@.local_commit.id);
        let mut empty = Branches::new_empty();
        let act = match self.action {
            Action::Pick => Action::Pick,
            Action::Protected => Action::Protected,
            Action::Delete => Action::Delete,
            Action::Fixup => Action::Fixup,
        };
        let root_id = self.local_commit.id;
        let prefix = match Node::populate(repo, base_id, root_id, &mut empty, act) {
            Ok(p) => p,
            Err(e) => {
                proof {
                    assert(false);
                }
                return self;
            },
        };
        proof {
            repo@.lemma_chain_shape(self@.local_commit.id);
            lemma_first_index_present(
                repo@.chain(self@.local_commit.id),
                base_id,
            );
            assert(ids[0] == repo@.chain(self@.local_commit.id)[0]);
            lemma_chain_nodes_has_head(repo@, Seq::empty(), ids, self@.action);
            assert(tree_has(prefix@, self@.local_commit.id));
        }
        let ghost sv = self@;
        let r = prefix.merge_at(root_id, self);
        proof {
            repo@.lemma_idx(base_id);
            assert(ids.last() == repo@.chain(sv.local_commit.id)[ids.len() - 1]);
            assert(ids.last() == base_id);
            assert(prefix@.local_commit == repo@.commit_of(base_id));
            assert(prefix@.local_commit.id == base_id);
            assert(r@.local_commit.id == base_id);
        }
        r
    }

    /// Extends this graph by another graph: when the other's root commit
    /// already appears here, the other merges at that node; otherwise both
    /// graphs are spliced below their merge base and merged there. Fails
    /// with [`Error::NotFound`] exactly when the two root commits share no
    /// history.
    pub fn extend(self, repo: &Repo, other: Node) -> (r: Result<Node, Error>)
        requires
            repo.inv(),
            repo@.contains_commit(self@.local_commit.id),
            repo@.contains_commit(other@.local_commit.id),
        ensures
            match r {
                Ok(n) => spec_extend(repo@, self@, other@) == Some(n@),
                Err(e) => e == Error::NotFound && spec_extend(repo@, self@, other@) is None,
            },
    {
        let oid = other.local_commit.id;
        if self.contains_id(oid) {
            return Ok(self.merge_at(oid, other));
        }
        let sid = self.local_commit.id;
        let m = match repo.merge_base(sid, oid) {
            Some(m) => m,
            None => {
                return Err(Error::NotFound);
            },
        };
        proof {
            crate::branches::lemma_merge_base_contained(repo@, sid, oid, m);
            repo@.lemma_chain_shape(oid);
            assert(repo@.spec_merge_base(oid, sid) == crate::repo::first_common(
                repo@.chain(oid),
                repo@.chain(sid),
            ));
            crate::branches::lemma_first_common_in(repo@.chain(sid), repo@.chain(oid), m);
        }
        let ea = if m.eq_id(&sid) {
            self
        } else {
            self.splice_below(repo, m)
        };
        let eb = if m.eq_id(&oid) {
            other
        } else {
            other.splice_below(repo, m)
        };
        proof {
            assert(ea@.local_commit.id == m);
            assert(eb@.local_commit.id == m);
        }
        Ok(ea.merge(eb))
    }
}


/// Folding one more branch commit into a graph: the graph is spliced down
/// to its merge base with the commit when needed, and a chain from there
/// up to the commit (taking branches out of the index) merges in. `None`
/// when the commit shares no history with the graph's root.
pub open spec fn spec_insert_commit(
    repo: RepoView,
    a: NodeView,
    bm: Seq<BranchView>,
    cid: CommitId,
) -> Option<(NodeView, Seq<BranchView>)> {
    match repo.spec_merge_base(a.local_commit.id, cid) {
        None => None,
        Some(m) => {
            let spliced = if m == a.local_commit.id {
                a
            } else {
                spec_merge_at(
                    spec_chain_nodes(
                        repo,
                        bm,
                        chain_upto(repo, m, a.local_commit.id),
                        a.action,
                    ),
                    a.local_commit.id,
                    a,
                )
            };
            let bm1 = if m == a.local_commit.id {
                bm
            } else {
                crate::branches::without_ids(bm, chain_upto(repo, m, a.local_commit.id))
            };
            if repo.chain(cid).contains(spliced.local_commit.id) {
                let o = spec_chain_nodes(
                    repo,
                    bm1,
                    chain_upto(repo, spliced.local_commit.id, cid),
                    Action::Pick,
                );
                let bm2 = crate::branches::without_ids(
                    bm1,
                    chain_upto(repo, spliced.local_commit.id, cid),
                );
                Some((spec_merge(spliced, o), bm2))
            } else {
                None
            }
        },
    }
}

impl Node {
    /// Splices a branchless prefix chain beneath this graph, taken from
    /// the index: like [`Node::splice_below`] but consuming branches.
    fn splice_below_with(self, repo: &Repo, base_id: CommitId, branches: &mut Branches) -> (r:
        Node)
        requires
            repo.inv(),
            repo@.contains_commit(base_id),
            repo@.contains_commit(self@.local_commit.id),
            repo@.chain(self@.local_commit.id).contains(base_id),
            base_id != self@.local_commit.id,
        ensures
            r@.local_commit.id == base_id,
            r@ == spec_merge_at(
                spec_chain_nodes(
                    repo@,
                    old(branches)@,
                    chain_upto(repo@, base_id, self@.local_commit.id),
                    self@.action,
                ),
                self@.local_commit.id,
                self@,
            ),
            final(branches)@ == crate::branches::without_ids(
                old(branches)@,
                chain_upto(repo@, base_id, self@.local_commit.id),
            ),
    {
        let ghost ids = chain_upto(repo@, base_id, self@.local_commit.id);
        let act = match self.action {
            Action::Pick => Action::Pick,
            Action::Protected => Action::Protected,
            Action::Delete => Action::Delete,
            Action::Fixup => Action::Fixup,
        };
        let root_id = self.local_commit.id;
        let prefix = match Node::populate(repo, base_id, root_id, branches, act) {
            Ok(p) => p,
            Err(e) => {
                proof {
                    assert(false);
                }
                return self;
            },
        };
        proof {
            repo@.lemma_chain_shape(self@.local_commit.id);
            lemma_first_index_present(repo@.chain(self@.local_commit.id), base_id);
            assert(ids[0] == repo@.chain(self@.local_commit.id)[0]);
            lemma_chain_nodes_has_head(repo@, old(branches)@, ids, self@.action);
            assert(tree_has(prefix@, self@.local_commit.id));
        }
        let ghost sv = self@;
        let r = prefix.merge_at(root_id, self);
        proof {
            repo@.lemma_idx(base_id);
            assert(ids.last() == repo@.chain(sv.local_commit.id)[ids.len() - 1]);
            assert(ids.last() == base_id);
            assert(prefix@.local_commit == repo@.commit_of(base_id));
            assert(r@.local_commit.id == base_id);
        }
        r
    }

    /// Folds the commit `local_commit` into this graph: the graph is
    /// spliced down to its merge base with the commit when needed, and a
    /// chain from the root up to the commit, carrying branches taken from
    /// the index, merges in. Fails with [`Error::NotFound`] exactly when
    /// the commit shares no history with the graph's root; the index is
    /// untouched then.
    pub fn insert_commit(
        self,
        repo: &Repo,
        local_commit: Commit,
        possible_branches: &mut Branches,
    ) -> (r: Result<Node, Error>)
        requires
            repo.inv(),
            repo@.contains_commit(self@.local_commit.id),
            repo@.contains_commit(local_commit@.id),
        ensures
            match r {
                Ok(n) => {
                    &&& spec_insert_commit(
                        repo@,
                        self@,
                        old(possible_branches)@,
                        local_commit@.id,
                    ) == Some((n@, final(possible_branches)@))
                    &&& repo@.contains_commit(n@.local_commit.id)
                },
                Err(e) => {
                    &&& e == Error::NotFound
                    &&& spec_insert_commit(
                        repo@,
                        self@,
                        old(possible_branches)@,
                        local_commit@.id,
                    ) is None
                    &&& final(possible_branches)@ == old(possible_branches)@
                },
            },
    {
        let sid = self.local_commit.id;
        let cid = local_commit.id;
        let m = match repo.merge_base(sid, cid) {
            Some(m) => m,
            None => {
                return Err(Error::NotFound);
            },
        };
        proof {
            crate::branches::lemma_merge_base_contained(repo@, sid, cid, m);
            crate::branches::lemma_first_common_in(repo@.chain(sid), repo@.chain(cid), m);
        }
        let spliced = if m.eq_id(&sid) {
            self
        } else {
            self.splice_below_with(repo, m, possible_branches)
        };
        proof {
            assert(spliced@.local_commit.id == m);
            assert(repo@.chain(cid).contains(m));
        }
        let rid = spliced.local_commit.id;
        let other = match Node::populate(repo, rid, cid, possible_branches, Action::Pick) {
            Ok(o) => o,
            Err(e) => {
                proof {
                    assert(false);
                }
                return Err(Error::NotFound);
            },
        };
        proof {
            repo@.lemma_chain_shape(cid);
            lemma_first_index_present(repo@.chain(cid), m);
            repo@.lemma_idx(m);
            assert(chain_upto(repo@, m, cid).last() == m);
            assert(other@.local_commit == repo@.commit_of(m));
            assert(other@.local_commit.id == m);
        }
        Ok(spliced.merge(other))
    }
}


/// Folds commits into a graph one after another, threading the branch
/// index through; `None` as soon as one commit shares no history.
pub open spec fn spec_insert_many(
    repo: RepoView,
    a: NodeView,
    bm: Seq<BranchView>,
    ids: Seq<CommitId>,
) -> Option<(NodeView, Seq<BranchView>)>
    decreases ids.len(),
{
    if ids.len() == 0 {
        Some((a, bm))
    } else {
        match spec_insert_commit(repo, a, bm, ids[0]) {
            None => None,
            Some((a2, bm2)) => spec_insert_many(repo, a2, bm2, ids.drop_first()),
        }
    }
}

/// The graph grown from a branch index: the branch whose name sorts first
/// roots a chain, and the remaining branch commits fold in one by one in
/// name order. `None` when some branch shares no history with the rest.
pub open spec fn spec_from_branches(repo: RepoView, bm: Seq<BranchView>) -> Option<NodeView> {
    let ids = crate::branches::sort_ids_by_name(bm, crate::branches::scan_oids(bm));
    let root0 = NodeView {
        local_commit: repo.commit_of(ids[0]),
        branches: at_id(bm, ids[0]),
        action: Action::Pick,
        pushable: false,
        children: Seq::empty(),
    };
    match spec_insert_many(repo, root0, without_id(bm, ids[0]), ids.drop_first()) {
        None => None,
        Some((n, rest)) => Some(n),
    }
}

/// A graph extended by every branch of an index, in name order.
pub open spec fn spec_extend_branches(repo: RepoView, a: NodeView, bm: Seq<BranchView>) -> Option<
    NodeView,
> {
    if bm.len() == 0 {
        Some(a)
    } else {
        match spec_insert_many(
            repo,
            a,
            bm,
            crate::branches::sort_ids_by_name(bm, crate::branches::scan_oids(bm)),
        ) {
            None => None,
            Some((n, rest)) => Some(n),
        }
    }
}

impl Node {
    /// Folds the commits at `ids[start..]` into the graph, in order.
    fn insert_many(
        self,
        repo: &Repo,
        ids: &Vec<CommitId>,
        start: usize,
        pool: &mut Branches,
    ) -> (r: Result<Node, Error>)
        requires
            repo.inv(),
            start <= ids@.len(),
            repo@.contains_commit(self@.local_commit.id),
            forall|t: int|
                start <= t < ids@.len() ==> repo@.contains_commit(#[trigger] ids@[t]),
        ensures
            match r {
                Ok(n) => spec_insert_many(
                    repo@,
                    self@,
                    old(pool)@,
                    ids@.skip(start as int),
                ) == Some((n@, final(pool)@)),
                Err(e) => e == Error::NotFound && spec_insert_many(
                    repo@,
                    self@,
                    old(pool)@,
                    ids@.skip(start as int),
                ) is None,
            },
        decreases ids@.len() - start,
    {
        let ghost tail = ids@.skip(start as int);
        if start >= ids.len() {
            assert(tail.len() == 0);
            return Ok(self);
        }
        assert(tail[0] == ids@[start as int]);
        assert(tail.drop_first() =~= ids@.skip(start + 1));
        let c = match repo.find_commit(ids[start]) {
            Some(c) => c,
            None => {
                proof {
                    assert(false);
                }
                return Err(Error::NotFound);
            },
        };
        match self.insert_commit(repo, c, pool) {
            Ok(n2) => n2.insert_many(repo, ids, start + 1, pool),
            Err(e) => Err(Error::NotFound),
        }
    }

    /// The graph grown from a branch index: the branch whose name sorts
    /// first roots a chain, and the remaining branch commits fold in one
    /// by one in name order. Fails with [`Error::Usage`] when the index is
    /// empty, and with [`Error::NotFound`] when some branch commit shares
    /// no history with the rest.
    pub fn from_branches(repo: &Repo, branches: Branches) -> (r: Result<Node, Error>)
        requires
            repo.inv(),
            forall|k: int|
                0 <= k < branches@.len() ==> repo@.contains_commit(#[trigger] branches@[k].id),
        ensures
            match r {
                Ok(n) => branches@.len() > 0 && spec_from_branches(repo@, branches@) == Some(
                    n@,
                ),
                Err(e) => {
                    ||| (e == Error::Usage && branches@.len() == 0)
                    ||| (e == Error::NotFound && branches@.len() > 0 && spec_from_branches(
                        repo@,
                        branches@,
                    ) is None)
                },
            },
    {
        let ghost bm = branches@;
        if branches.is_empty() {
            return Err(Error::Usage);
        }
        proof {
            crate::branches::lemma_scan_oids_nonempty(bm);
            crate::branches::lemma_sort_ids_elems(bm, crate::branches::scan_oids(bm));
        }
        let ids = crate::branches::sorted_oids(&branches);
        assert(ids@.len() > 0);
        let first = ids[0];
        proof {
            assert(holds_oid(bm, first));
            let u = choose|u: int| 0 <= u < bm.len() && bm[u].id == first;
        }
        let c = match repo.find_commit(first) {
            Some(c) => c,
            None => {
                proof {
                    assert(false);
                }
                return Err(Error::NotFound);
            },
        };
        let mut pool = branches;
        let root = Node::new(c, &mut pool);
        assert forall|t: int| 1 <= t < ids@.len() implies repo@.contains_commit(
            #[trigger] ids@[t],
        ) by {
            assert(holds_oid(bm, ids@[t]));
            let u = choose|u: int| 0 <= u < bm.len() && bm[u].id == ids@[t];
        }
        assert(ids@.skip(1) =~= ids@.drop_first());
        match root.insert_many(repo, &ids, 1, &mut pool) {
            Ok(n) => Ok(n),
            Err(e) => Err(Error::NotFound),
        }
    }

    /// Extends the graph by every branch of an index, folding each branch
    /// commit in by name order. Fails with [`Error::NotFound`] when some
    /// branch commit shares no history with the graph.
    pub fn extend_branches(self, repo: &Repo, branches: Branches) -> (r: Result<Node, Error>)
        requires
            repo.inv(),
            repo@.contains_commit(self@.local_commit.id),
            forall|k: int|
                0 <= k < branches@.len() ==> repo@.contains_commit(#[trigger] branches@[k].id),
        ensures
            match r {
                Ok(n) => spec_extend_branches(repo@, self@, branches@) == Some(n@),
                Err(e) => e == Error::NotFound && spec_extend_branches(
                    repo@,
                    self@,
                    branches@,
                ) is None,
            },
    {
        let ghost bm = branches@;
        if branches.is_empty() {
            return Ok(self);
        }
        proof {
            crate::branches::lemma_sort_ids_elems(bm, crate::branches::scan_oids(bm));
        }
        let ids = crate::branches::sorted_oids(&branches);
        let mut pool = branches;
        assert forall|t: int| 0 <= t < ids@.len() implies repo@.contains_commit(
            #[trigger] ids@[t],
        ) by {
            assert(holds_oid(bm, ids@[t]));
            let u = choose|u: int| 0 <= u < bm.len() && bm[u].id == ids@[t];
        }
        assert(ids@.skip(0) =~= ids@);
        match self.insert_many(repo, &ids, 0, &mut pool) {
            Ok(n) => Ok(n),
            Err(e) => Err(Error::NotFound),
        }
    }
}

} // verus!
