//! The branch index: a multimap from commit id to the branches sitting at
//! that commit.
//!
//! The index holds branches in insertion order; every query is answered
//! from that sequence. `remove` hands out all branches of one commit at
//! once, which is how graph construction moves branches onto their nodes.

use vstd::prelude::*;

use crate::ids::CommitId;
use crate::repo::{Branch, BranchView, Repo, RepoView};

verus! {

/// The branches of `s` sitting at commit `id`, in order.
pub open spec fn at_id(s: Seq<BranchView>, id: CommitId) -> Seq<BranchView>
    decreases s.len(),
{
    if s.len() == 0 {
        Seq::empty()
    } else {
        let r = at_id(s.drop_last(), id);
        if s.last().id == id {
            r.push(s.last())
        } else {
            r
        }
    }
}

/// The branches of `s` not sitting at commit `id`, in order.
pub open spec fn without_id(s: Seq<BranchView>, id: CommitId) -> Seq<BranchView>
    decreases s.len(),
{
    if s.len() == 0 {
        Seq::empty()
    } else {
        let r = without_id(s.drop_last(), id);
        if s.last().id == id {
            r
        } else {
            r.push(s.last())
        }
    }
}

/// Whether some branch of `s` sits at commit `id`.
pub open spec fn holds_oid(s: Seq<BranchView>, id: CommitId) -> bool {
    exists|i: int| 0 <= i < s.len() && s[i].id == id
}

/// When no branch sits at `id`, there are no branches at it.
pub proof fn lemma_at_id_absent(s: Seq<BranchView>, id: CommitId)
    requires
        !holds_oid(s, id),
    ensures
        at_id(s, id) == Seq::<BranchView>::empty(),
    decreases s.len(),
{
    if s.len() > 0 {
        assert forall|t: int| 0 <= t < s.len() - 1 implies s.drop_last()[t].id != id by {
            assert(s[t].id != id);
        }
        lemma_at_id_absent(s.drop_last(), id);
        assert(s.last().id != id);
    }
}

/// When no branch sits at `id`, dropping that id changes nothing.
pub proof fn lemma_without_id_absent(s: Seq<BranchView>, id: CommitId)
    requires
        !holds_oid(s, id),
    ensures
        without_id(s, id) == s,
    decreases s.len(),
{
    if s.len() > 0 {
        assert forall|t: int| 0 <= t < s.len() - 1 implies s.drop_last()[t].id != id by {
            assert(s[t].id != id);
        }
        lemma_without_id_absent(s.drop_last(), id);
        assert(s.last().id != id);
        assert(without_id(s, id) =~= s);
    }
}

/// The index refreshed against a snapshot: each branch is re-resolved by
/// name, in order, and the ones that no longer exist drop out.
pub open spec fn refreshed(s: Seq<BranchView>, repo: RepoView) -> Seq<BranchView>
    decreases s.len(),
{
    if s.len() == 0 {
        Seq::empty()
    } else {
        let r = refreshed(s.drop_last(), repo);
        if repo.contains_branch(s.last().name) {
            r.push(repo.branch_of(s.last().name))
        } else {
            r
        }
    }
}

/// A multimap from commit id to the local branches at that commit.
///
/// Its mathematical value is the sequence of held branches in insertion
/// order; the map structure is recovered by [`at_id`].
#[derive(Debug)]
pub struct Branches {
    items: Vec<Branch>,
}

impl View for Branches {
    type V = Seq<BranchView>;

    closed spec fn view(&self) -> Seq<BranchView> {
        self.items@.map_values(|b: Branch| b@)
    }
}

impl Branches {
    /// An index over the given branches, in their order.
    pub fn new(items: Vec<Branch>) -> (r: Branches)
        ensures
            r@ == items@.map_values(|b: Branch| b@),
    {
        let r = Branches { items };
        assert(r@ =~= r.items@.map_values(|b: Branch| b@));
        r
    }

    /// An empty index.
    pub fn new_empty() -> (r: Branches)
        ensures
            r@ == Seq::<BranchView>::empty(),
    {
        let r = Branches { items: Vec::new() };
        assert(r@ =~= Seq::<BranchView>::empty());
        r
    }

    /// Whether the index holds no branch.
    pub fn is_empty(&self) -> (r: bool)
        ensures
            r == (self@.len() == 0),
    {
        self.items.len() == 0
    }

    /// How many branches the index holds.
    pub fn len(&self) -> (r: usize)
        ensures
            r == self@.len(),
    {
        self.items.len()
    }

    /// The branch at position `i` of the index, by insertion order.
    pub fn item(&self, i: usize) -> (r: &Branch)
        requires
            i < self@.len(),
        ensures
            r@ == self@[i as int],
    {
        &self.items[i]
    }

    /// Adds a branch to the index.
    pub fn insert(&mut self, b: Branch)
        ensures
            final(self)@ == old(self)@.push(b@),
    {
        self.items.push(b);
        assert(self@ =~= old(self)@.push(self.items@.last()@));
    }

    /// Adds every branch of `other`, in order.
    pub fn extend(&mut self, other: Branches)
        ensures
            final(self)@ == old(self)@ + other@,
    {
        let rest = other.items;
        let ghost restv = rest@.map_values(|b: Branch| b@);
        assert(old(self)@ + restv.subrange(0, 0) =~= old(self)@);
        let mut i: usize = 0;
        while i < rest.len()
            invariant
                i <= rest.len(),
                restv == rest@.map_values(|b: Branch| b@),
                self@ == old(self)@ + restv.subrange(0, i as int),
            decreases rest.len() - i,
        {
            assert(restv[i as int] == rest@[i as int]@);
            let b = rest[i].clone();
            self.insert(b);
            assert(self@ =~= old(self)@ + restv.subrange(0, i + 1));
            i = i + 1;
        }
        assert(restv.subrange(0, restv.len() as int) =~= restv);
    }

    /// A copy of the whole index.
    pub fn all(&self) -> (r: Branches)
        ensures
            r@ == self@,
    {
        let mut items: Vec<Branch> = Vec::new();
        let mut i: usize = 0;
        while i < self.items.len()
            invariant
                i <= self.items.len(),
                items@.map_values(|b: Branch| b@) == self@.subrange(0, i as int),
            decreases self.items.len() - i,
        {
            items.push(self.items[i].clone());
            assert(items@.map_values(|b: Branch| b@) =~= self@.subrange(0, i + 1));
            i = i + 1;
        }
        assert(items@.map_values(|b: Branch| b@) =~= self@);
        Branches::new(items)
    }

    /// Whether the index holds a branch with this name.
    pub fn contains_branch_name(&self, name: &String) -> (r: bool)
        ensures
            r == (exists|k: int| 0 <= k < self@.len() && (#[trigger] self@[k]).name == name@),
    {
        let mut i: usize = 0;
        while i < self.items.len()
            invariant
                i <= self.items.len(),
                forall|t: int| 0 <= t < i ==> (#[trigger] self@[t]).name != name@,
            decreases self.items.len() - i,
        {
            assert(self@[i as int] == self.items@[i as int]@);
            if self.items[i].name == *name {
                return true;
            }
            i = i + 1;
        }
        false
    }

    /// Whether some held branch sits at commit `id`.
    pub fn contains_oid(&self, id: CommitId) -> (r: bool)
        ensures
            r == holds_oid(self@, id),
    {
        let mut i: usize = 0;
        while i < self.items.len()
            invariant
                i <= self.items.len(),
                forall|t: int| 0 <= t < i ==> (#[trigger] self@[t]).id != id,
            decreases self.items.len() - i,
        {
            assert(self@[i as int] == self.items@[i as int]@);
            if self.items[i].id.eq_id(&id) {
                return true;
            }
            i = i + 1;
        }
        false
    }

    /// A copy of the branches sitting at commit `id`; `None` when there are
    /// none.
    pub fn get(&self, id: CommitId) -> (r: Option<Vec<Branch>>)
        ensures
            match r {
                Some(v) => holds_oid(self@, id) && v@.map_values(|b: Branch| b@) == at_id(
                    self@,
                    id,
                ) && v@.len() > 0,
                None => !holds_oid(self@, id),
            },
    {
        let mut v: Vec<Branch> = Vec::new();
        let mut i: usize = 0;
        while i < self.items.len()
            invariant
                i <= self.items.len(),
                v@.map_values(|b: Branch| b@) == at_id(self@.subrange(0, i as int), id),
                v@.len() == 0 <==> !holds_oid(self@.subrange(0, i as int), id),
            decreases self.items.len() - i,
        {
            let ghost pre = self@.subrange(0, i as int);
            let ghost post = self@.subrange(0, i + 1);
            assert(post.drop_last() =~= pre);
            assert(post.last() == self@[i as int]);
            assert(self@[i as int] == self.items@[i as int]@);
            if self.items[i].id.eq_id(&id) {
                v.push(self.items[i].clone());
                assert(v@.map_values(|b: Branch| b@) =~= at_id(pre, id).push(
                    self@[i as int],
                ));
                assert(holds_oid(post, id));
            } else {
                proof {
                    if holds_oid(post, id) && !holds_oid(pre, id) {
                        let t = choose|t: int| 0 <= t < post.len() && post[t].id == id;
                        assert(pre[t] == post[t]);
                    }
                }
            }
            i = i + 1;
        }
        assert(self@.subrange(0, self@.len() as int) =~= self@);
        if v.len() == 0 {
            None
        } else {
            Some(v)
        }
    }

    /// Takes the branches sitting at commit `id` out of the index and
    /// returns them; `None` (and no change) when there are none.
    pub fn remove(&mut self, id: CommitId) -> (r: Option<Vec<Branch>>)
        ensures
            final(self)@ == without_id(old(self)@, id),
            match r {
                Some(v) => holds_oid(old(self)@, id) && v@.map_values(|b: Branch| b@) == at_id(
                    old(self)@,
                    id,
                ) && v@.len() > 0,
                None => !holds_oid(old(self)@, id) && final(self)@ == old(self)@,
            },
    {
        let ghost orig = self@;
        let mut taken: Vec<Branch> = Vec::new();
        let mut kept: Vec<Branch> = Vec::new();
        let mut i: usize = 0;
        while i < self.items.len()
            invariant
                i <= self.items.len(),
                orig == self@,
                taken@.map_values(|b: Branch| b@) == at_id(orig.subrange(0, i as int), id),
                kept@.map_values(|b: Branch| b@) == without_id(orig.subrange(0, i as int), id),
                taken@.len() == 0 <==> !holds_oid(orig.subrange(0, i as int), id),
            decreases self.items.len() - i,
        {
            let ghost pre = orig.subrange(0, i as int);
            let ghost post = orig.subrange(0, i + 1);
            assert(post.drop_last() =~= pre);
            assert(post.last() == orig[i as int]);
            assert(orig[i as int] == self.items@[i as int]@);
            if self.items[i].id.eq_id(&id) {
                taken.push(self.items[i].clone());
                assert(taken@.map_values(|b: Branch| b@) =~= at_id(pre, id).push(
                    orig[i as int],
                ));
                assert(holds_oid(post, id));
            } else {
                kept.push(self.items[i].clone());
                assert(kept@.map_values(|b: Branch| b@) =~= without_id(pre, id).push(
                    orig[i as int],
                ));
                proof {
                    if holds_oid(post, id) && !holds_oid(pre, id) {
                        let t = choose|t: int| 0 <= t < post.len() && post[t].id == id;
                        assert(pre[t] == post[t]);
                    }
                }
            }
            i = i + 1;
        }
        assert(orig.subrange(0, orig.len() as int) =~= orig);
        self.items = kept;
        assert(self@ =~= without_id(orig, id));
        assert(taken@.map_values(|b: Branch| b@) == at_id(old(self)@, id));
        assert(taken@.len() == 0 <==> !holds_oid(old(self)@, id));
        proof {
            if taken@.len() == 0 {
                lemma_without_id_absent(orig, id);
            }
        }
        if taken.len() == 0 {
            None
        } else {
            Some(taken)
        }
    }

    /// Re-resolves every held branch against the snapshot, in order; the
    /// branches whose names no longer exist drop out.
    pub fn update(&mut self, repo: &Repo)
        requires
            repo.inv(),
        ensures
            final(self)@ == refreshed(old(self)@, repo@),
    {
        let ghost orig = self@;
        let mut kept: Vec<Branch> = Vec::new();
        let mut i: usize = 0;
        while i < self.items.len()
            invariant
                repo.inv(),
                i <= self.items.len(),
                orig == self@,
                kept@.map_values(|b: Branch| b@) == refreshed(orig.subrange(0, i as int), repo@),
            decreases self.items.len() - i,
        {
            let ghost pre = orig.subrange(0, i as int);
            let ghost post = orig.subrange(0, i + 1);
            assert(post.drop_last() =~= pre);
            assert(post.last() == orig[i as int]);
            assert(orig[i as int] == self.items@[i as int]@);
            match repo.find_local_branch(&self.items[i].name) {
                Some(b) => {
                    kept.push(b);
                    assert(kept@.map_values(|b: Branch| b@) =~= refreshed(pre, repo@).push(
                        repo@.branch_of(orig[i as int].name),
                    ));
                },
                None => {},
            }
            i = i + 1;
        }
        assert(orig.subrange(0, orig.len() as int) =~= orig);
        self.items = kept;
        assert(self@ =~= refreshed(orig, repo@));
    }
}


/// Whether branch `b` lies on the stack between `base` and `head`: its
/// commit is on the first-parent ancestry of `head` and descends from
/// `base`.
pub open spec fn on_stack(repo: RepoView, base: CommitId, head: CommitId, b: BranchView) -> bool {
    repo.contains_commit(b.id) && repo.chain(head).contains(b.id) && repo.chain(b.id).contains(
        base,
    )
}

/// The branches of `s` that lie on the stack between `base` and `head`.
pub open spec fn kept_on_stack(
    s: Seq<BranchView>,
    repo: RepoView,
    base: CommitId,
    head: CommitId,
) -> Seq<BranchView>
    decreases s.len(),
{
    if s.len() == 0 {
        Seq::empty()
    } else {
        let r = kept_on_stack(s.drop_last(), repo, base, head);
        if on_stack(repo, base, head, s.last()) {
            r.push(s.last())
        } else {
            r
        }
    }
}

/// Whether branch `b` is a dependent of the stack between `base` and
/// `head`: it lies on the stack, or its merge base with `head` sits
/// strictly above `base`.
pub open spec fn is_dependent(
    repo: RepoView,
    base: CommitId,
    head: CommitId,
    b: BranchView,
) -> bool {
    on_stack(repo, base, head, b) || (repo.contains_commit(b.id) && match repo.spec_merge_base(
        head,
        b.id,
    ) {
        Some(m) => m != base && repo.chain(m).contains(base),
        None => false,
    })
}

/// The branches of `s` that are dependents of the stack.
pub open spec fn kept_dependents(
    s: Seq<BranchView>,
    repo: RepoView,
    base: CommitId,
    head: CommitId,
) -> Seq<BranchView>
    decreases s.len(),
{
    if s.len() == 0 {
        Seq::empty()
    } else {
        let r = kept_dependents(s.drop_last(), repo, base, head);
        if is_dependent(repo, base, head, s.last()) {
            r.push(s.last())
        } else {
            r
        }
    }
}

/// Whether branch `b` descends from `base` along first parents.
pub open spec fn is_descendant(repo: RepoView, base: CommitId, b: BranchView) -> bool {
    repo.contains_commit(b.id) && repo.chain(b.id).contains(base)
}

/// The branches of `s` that descend from `base`.
pub open spec fn kept_descendants(s: Seq<BranchView>, repo: RepoView, base: CommitId) -> Seq<
    BranchView,
>
    decreases s.len(),
{
    if s.len() == 0 {
        Seq::empty()
    } else {
        let r = kept_descendants(s.drop_last(), repo, base);
        if is_descendant(repo, base, s.last()) {
            r.push(s.last())
        } else {
            r
        }
    }
}

/// The branches of `s` whose names the protected patterns match.
pub open spec fn kept_protected(
    s: Seq<BranchView>,
    pats: Seq<(bool, Seq<crate::protect::Tok>)>,
) -> Seq<BranchView>
    decreases s.len(),
{
    if s.len() == 0 {
        Seq::empty()
    } else {
        let r = kept_protected(s.drop_last(), pats);
        if crate::protect::spec_matches(pats, s.last().name) {
            r.push(s.last())
        } else {
            r
        }
    }
}

impl Branches {
    /// The held branches whose names the protected patterns match.
    pub fn protected(&self, matcher: &crate::protect::ProtectedBranches) -> (r: Branches)
        ensures
            r@ == kept_protected(self@, matcher@),
    {
        let mut out = Branches::new_empty();
        let mut i: usize = 0;
        while i < self.items.len()
            invariant
                i <= self.items.len(),
                out@ == kept_protected(self@.subrange(0, i as int), matcher@),
            decreases self.items.len() - i,
        {
            let ghost pre = self@.subrange(0, i as int);
            let ghost post = self@.subrange(0, i + 1);
            assert(post.drop_last() =~= pre);
            assert(post.last() == self@[i as int]);
            assert(self@[i as int] == self.items@[i as int]@);
            if matcher.matches(&self.items[i].name) {
                out.insert(self.items[i].clone());
            }
            i = i + 1;
        }
        assert(self@.subrange(0, self@.len() as int) =~= self@);
        out
    }

    /// The held branches that lie on the stack between `base` and `head`.
    pub fn branch(&self, repo: &Repo, base: CommitId, head: CommitId) -> (r: Branches)
        requires
            repo.inv(),
            repo@.contains_commit(head),
        ensures
            r@ == kept_on_stack(self@, repo@, base, head),
    {
        let chead = repo.chain_ids(head);
        let mut out = Branches::new_empty();
        let mut i: usize = 0;
        while i < self.items.len()
            invariant
                repo.inv(),
                repo@.contains_commit(head),
                chead@ == repo@.chain(head),
                i <= self.items.len(),
                out@ == kept_on_stack(self@.subrange(0, i as int), repo@, base, head),
            decreases self.items.len() - i,
        {
            let ghost pre = self@.subrange(0, i as int);
            let ghost post = self@.subrange(0, i + 1);
            assert(post.drop_last() =~= pre);
            assert(post.last() == self@[i as int]);
            assert(self@[i as int] == self.items@[i as int]@);
            let bid = self.items[i].id;
            if repo.has_commit(bid) && crate::repo::ids_contain(&chead, bid) {
                let cb = repo.chain_ids(bid);
                if crate::repo::ids_contain(&cb, base) {
                    out.insert(self.items[i].clone());
                } else {
                    assert(!on_stack(repo@, base, head, self@[i as int]));
                }
            } else {
                assert(!on_stack(repo@, base, head, self@[i as int]));
            }
            i = i + 1;
        }
        assert(self@.subrange(0, self@.len() as int) =~= self@);
        out
    }

    /// The held branches that are dependents of the stack between `base`
    /// and `head`.
    pub fn dependents(&self, repo: &Repo, base: CommitId, head: CommitId) -> (r: Branches)
        requires
            repo.inv(),
            repo@.contains_commit(head),
        ensures
            r@ == kept_dependents(self@, repo@, base, head),
    {
        let chead = repo.chain_ids(head);
        let mut out = Branches::new_empty();
        let mut i: usize = 0;
        while i < self.items.len()
            invariant
                repo.inv(),
                repo@.contains_commit(head),
                chead@ == repo@.chain(head),
                i <= self.items.len(),
                out@ == kept_dependents(self@.subrange(0, i as int), repo@, base, head),
            decreases self.items.len() - i,
        {
            let ghost pre = self@.subrange(0, i as int);
            let ghost post = self@.subrange(0, i + 1);
            assert(post.drop_last() =~= pre);
            assert(post.last() == self@[i as int]);
            assert(self@[i as int] == self.items@[i as int]@);
            let bid = self.items[i].id;
            let mut keep = false;
            if repo.has_commit(bid) {
                if crate::repo::ids_contain(&chead, bid) {
                    let cb = repo.chain_ids(bid);
                    if crate::repo::ids_contain(&cb, base) {
                        keep = true;
                    }
                }
                if !keep {
                    match repo.merge_base(head, bid) {
                        Some(m) => {
                            if !m.eq_id(&base) {
                                proof {
                                    repo@.lemma_chain_shape(head);
                                    let t = choose|t: int|
                                        0 <= t < repo@.chain(head).len() && repo@.chain(head)[t]
                                            == m;
                                }
                                assert(repo@.contains_commit(m)) by {
                                    lemma_merge_base_contained(repo@, head, bid, m);
                                }
                                let cm = repo.chain_ids(m);
                                if crate::repo::ids_contain(&cm, base) {
                                    keep = true;
                                }
                            }
                        },
                        None => {},
                    }
                }
            }
            assert(keep == is_dependent(repo@, base, head, self@[i as int]));
            if keep {
                out.insert(self.items[i].clone());
            }
            i = i + 1;
        }
        assert(self@.subrange(0, self@.len() as int) =~= self@);
        out
    }

    /// The held branches that descend from `base`.
    pub fn descendants(&self, repo: &Repo, base: CommitId) -> (r: Branches)
        requires
            repo.inv(),
        ensures
            r@ == kept_descendants(self@, repo@, base),
    {
        let mut out = Branches::new_empty();
        let mut i: usize = 0;
        while i < self.items.len()
            invariant
                repo.inv(),
                i <= self.items.len(),
                out@ == kept_descendants(self@.subrange(0, i as int), repo@, base),
            decreases self.items.len() - i,
        {
            let ghost pre = self@.subrange(0, i as int);
            let ghost post = self@.subrange(0, i + 1);
            assert(post.drop_last() =~= pre);
            assert(post.last() == self@[i as int]);
            assert(self@[i as int] == self.items@[i as int]@);
            let bid = self.items[i].id;
            if repo.has_commit(bid) {
                let cb = repo.chain_ids(bid);
                if crate::repo::ids_contain(&cb, base) {
                    out.insert(self.items[i].clone());
                } else {
                    assert(!is_descendant(repo@, base, self@[i as int]));
                }
            } else {
                assert(!is_descendant(repo@, base, self@[i as int]));
            }
            i = i + 1;
        }
        assert(self@.subrange(0, self@.len() as int) =~= self@);
        out
    }
}

/// A merge base of two contained commits is itself a contained commit.
pub proof fn lemma_merge_base_contained(repo: RepoView, a: CommitId, b: CommitId, m: CommitId)
    requires
        repo.graph_wf(),
        repo.contains_commit(a),
        repo.spec_merge_base(a, b) == Some(m),
    ensures
        repo.contains_commit(m),
        repo.chain(a).contains(m),
{
    lemma_first_common_in(repo.chain(a), repo.chain(b), m);
    repo.lemma_chain_shape(a);
    let t = choose|t: int| 0 <= t < repo.chain(a).len() && repo.chain(a)[t] == m;
    assert(repo.contains_commit(repo.chain(a)[t]));
}

/// What `first_common` returns occurs in its first argument.
pub proof fn lemma_first_common_in(ca: Seq<CommitId>, cb: Seq<CommitId>, m: CommitId)
    requires
        crate::repo::first_common(ca, cb) == Some(m),
    ensures
        ca.contains(m),
        cb.contains(m),
    decreases ca.len(),
{
    if ca.len() == 0 {
    } else if cb.contains(ca[0]) {
    } else {
        lemma_first_common_in(ca.drop_first(), cb, m);
        let t = choose|t: int| 0 <= t < ca.drop_first().len() && ca.drop_first()[t] == m;
        assert(ca[t + 1] == m);
    }
}


/// The position of the first occurrence of `x` in `s`; `-1` when absent.
pub open spec fn first_index(s: Seq<CommitId>, x: CommitId) -> int
    decreases s.len(),
{
    if s.len() == 0 {
        -1
    } else if s[0] == x {
        0
    } else {
        let r = first_index(s.drop_first(), x);
        if r < 0 {
            -1
        } else {
            r + 1
        }
    }
}

/// Whether `b` can serve as a protected base for `head`: it points at a
/// commit of the snapshot that shares history with `head`.
pub open spec fn eligible_base(repo: RepoView, head: CommitId, b: BranchView) -> bool {
    repo.contains_commit(b.id) && repo.spec_merge_base(head, b.id) is Some
}

/// How far from `head` the merge base of `head` and `b` sits: its position
/// on `head`'s first-parent chain.
pub open spec fn base_pos(repo: RepoView, head: CommitId, b: BranchView) -> int {
    first_index(repo.chain(head), repo.spec_merge_base(head, b.id).unwrap())
}

/// Whether base candidate `a` beats candidate `b`: its merge base with
/// `head` sits nearer `head`, with ties broken by name order.
pub open spec fn better_base(repo: RepoView, head: CommitId, a: BranchView, b: BranchView) -> bool {
    base_pos(repo, head, a) < base_pos(repo, head, b) || (base_pos(repo, head, a) == base_pos(
        repo,
        head,
        b,
    ) && crate::names::chars_lt(a.name, b.name))
}

/// The best protected base among `s` for `head`: the eligible branch whose
/// merge base with `head` is nearest `head`, ties broken by name order,
/// later entries never displacing equal earlier ones.
pub open spec fn best_base(s: Seq<BranchView>, repo: RepoView, head: CommitId) -> Option<
    BranchView,
>
    decreases s.len(),
{
    if s.len() == 0 {
        None
    } else {
        let prev = best_base(s.drop_last(), repo, head);
        let c = s.last();
        if !eligible_base(repo, head, c) {
            prev
        } else {
            match prev {
                None => Some(c),
                Some(p) => if better_base(repo, head, c, p) {
                    Some(c)
                } else {
                    prev
                },
            }
        }
    }
}

/// The first position of `x` in `v`.
pub fn index_in(v: &Vec<CommitId>, x: CommitId) -> (r: usize)
    requires
        v@.contains(x),
    ensures
        r == first_index(v@, x),
        r < v@.len(),
{
    let mut i: usize = 0;
    assert(v@.skip(0) =~= v@);
    loop
        invariant
            i <= v@.len(),
            v@.contains(x),
            forall|t: int| 0 <= t < i ==> v@[t] != x,
            first_index(v@, x) == if first_index(v@.skip(i as int), x) < 0 {
                -1
            } else {
                first_index(v@.skip(i as int), x) + i
            },
        decreases v@.len() - i,
    {
        let ghost t = v@.skip(i as int);
        if i >= v.len() {
            proof {
                let w = choose|w: int| 0 <= w < v@.len() && v@[w] == x;
                assert(false);
            }
        }
        assert(t[0] == v@[i as int]);
        assert(t.drop_first() =~= v@.skip(i + 1));
        if v[i].eq_id(&x) {
            return i;
        }
        i = i + 1;
    }
}

/// The nearest protected branch below `head`: among the given protected
/// branches, the one whose merge base with `head` sits nearest `head`,
/// ties broken by name order. `None` when no protected branch shares
/// history with `head`.
pub fn find_protected_base(
    repo: &Repo,
    protected: &Branches,
    head: CommitId,
) -> (r: Option<Branch>)
    requires
        repo.inv(),
        repo@.contains_commit(head),
    ensures
        match r {
            Some(b) => best_base(protected@, repo@, head) == Some(b@),
            None => best_base(protected@, repo@, head) is None,
        },
{
    let chead = repo.chain_ids(head);
    let mut best: Option<Branch> = None;
    let mut best_at: usize = 0;
    let n = protected.len();
    let mut i: usize = 0;
    while i < n
        invariant
            repo.inv(),
            repo@.contains_commit(head),
            chead@ == repo@.chain(head),
            n == protected@.len(),
            i <= n,
            match best {
                Some(b) => best_base(protected@.subrange(0, i as int), repo@, head) == Some(b@)
                    && best_at == base_pos(repo@, head, b@),
                None => best_base(protected@.subrange(0, i as int), repo@, head) is None,
            },
        decreases n - i,
    {
        let ghost pre = protected@.subrange(0, i as int);
        let ghost post = protected@.subrange(0, i + 1);
        assert(post.drop_last() =~= pre);
        assert(post.last() == protected@[i as int]);
        let c = protected.item(i);
        let cid = c.id;
        if repo.has_commit(cid) {
            match repo.merge_base(head, cid) {
                Some(m) => {
                    proof {
                        lemma_merge_base_contained(repo@, head, cid, m);
                    }
                    let pos = index_in(&chead, m);
                    assert(pos == base_pos(repo@, head, protected@[i as int]));
                    assert(eligible_base(repo@, head, protected@[i as int]));
                    let take = match &best {
                        None => true,
                        Some(p) => pos < best_at || (pos == best_at && crate::names::str_lt(
                            c.name.as_str(),
                            p.name.as_str(),
                        )),
                    };
                    if take {
                        best = Some(c.clone());
                        best_at = pos;
                    }
                },
                None => {
                    assert(!eligible_base(repo@, head, protected@[i as int]));
                },
            }
        } else {
            assert(!eligible_base(repo@, head, protected@[i as int]));
        }
        i = i + 1;
    }
    assert(protected@.subrange(0, protected@.len() as int) =~= protected@);
    best
}


/// The branches of `s` not sitting at any of the given commits, in order.
pub open spec fn without_ids(s: Seq<BranchView>, ids: Seq<CommitId>) -> Seq<BranchView>
    decreases ids.len(),
{
    if ids.len() == 0 {
        s
    } else {
        without_ids(without_id(s, ids[0]), ids.drop_first())
    }
}

/// Dropping one id then another is dropping them one after the other.
pub proof fn lemma_without_ids_push(s: Seq<BranchView>, ids: Seq<CommitId>, x: CommitId)
    ensures
        without_ids(s, ids.push(x)) == without_id(without_ids(s, ids), x),
    decreases ids.len(),
{
    if ids.len() == 0 {
        assert(ids.push(x)[0] == x);
        assert(ids.push(x).drop_first() =~= Seq::<CommitId>::empty());
        assert(without_ids(s, ids) == s);
        assert(without_ids(without_id(s, x), Seq::<CommitId>::empty()) == without_id(s, x));
    } else {
        assert(ids.push(x)[0] == ids[0]);
        assert(ids.push(x).drop_first() =~= ids.drop_first().push(x));
        lemma_without_ids_push(without_id(s, ids[0]), ids.drop_first(), x);
        assert(without_ids(s, ids) == without_ids(without_id(s, ids[0]), ids.drop_first()));
    }
}

/// Dropping the branches of one commit leaves those of another alone.
pub proof fn lemma_at_id_without_other(s: Seq<BranchView>, id: CommitId, other: CommitId)
    requires
        id != other,
    ensures
        at_id(without_id(s, other), id) == at_id(s, id),
    decreases s.len(),
{
    if s.len() > 0 {
        lemma_at_id_without_other(s.drop_last(), id, other);
        if s.last().id == other {
        } else {
            let w = without_id(s.drop_last(), other);
            assert(w.push(s.last()).drop_last() =~= w);
            assert(w.push(s.last()).last() == s.last());
        }
    }
}

/// Dropping the branches of commits other than `id` leaves those of `id`
/// alone.
pub proof fn lemma_at_id_without_ids(s: Seq<BranchView>, ids: Seq<CommitId>, id: CommitId)
    requires
        !ids.contains(id),
    ensures
        at_id(without_ids(s, ids), id) == at_id(s, id),
    decreases ids.len(),
{
    if ids.len() > 0 {
        assert(ids[0] != id);
        lemma_at_id_without_other(s, id, ids[0]);
        assert forall|t: int| 0 <= t < ids.drop_first().len() implies ids.drop_first()[t]
            != id by {
            assert(ids[t + 1] != id);
        }
        lemma_at_id_without_ids(without_id(s, ids[0]), ids.drop_first(), id);
    }
}


/// The distinct commit ids of `s`, each at its first occurrence, in
/// order.
pub open spec fn scan_oids(s: Seq<BranchView>) -> Seq<CommitId>
    decreases s.len(),
{
    if s.len() == 0 {
        Seq::empty()
    } else {
        let r = scan_oids(s.drop_last());
        if r.contains(s.last().id) {
            r
        } else {
            r.push(s.last().id)
        }
    }
}

/// Every scanned id has a branch sitting at it.
pub proof fn lemma_scan_oids_held(s: Seq<BranchView>)
    ensures
        forall|t: int| 0 <= t < scan_oids(s).len() ==> holds_oid(s, #[trigger] scan_oids(s)[t]),
    decreases s.len(),
{
    if s.len() > 0 {
        lemma_scan_oids_held(s.drop_last());
        assert forall|t: int| 0 <= t < scan_oids(s).len() implies holds_oid(
            s,
            #[trigger] scan_oids(s)[t],
        ) by {
            let r = scan_oids(s.drop_last());
            if t < r.len() {
                assert(holds_oid(s.drop_last(), r[t]));
                let u = choose|u: int| 0 <= u < s.drop_last().len() && s.drop_last()[u].id == r[t];
                assert(s[u].id == r[t]);
            } else {
                assert(scan_oids(s)[t] == s.last().id);
                assert(s[s.len() - 1].id == s.last().id);
            }
        }
    }
}

/// A nonempty index scans to at least one id.
pub proof fn lemma_scan_oids_nonempty(s: Seq<BranchView>)
    requires
        s.len() > 0,
    ensures
        scan_oids(s).len() > 0,
    decreases s.len(),
{
    if s.len() > 1 && scan_oids(s.drop_last()).contains(s.last().id) {
        lemma_scan_oids_nonempty(s.drop_last());
    }
}

impl Branches {
    /// The distinct commit ids held, each at its first occurrence.
    pub fn oids(&self) -> (r: Vec<CommitId>)
        ensures
            r@ == scan_oids(self@),
    {
        let mut out: Vec<CommitId> = Vec::new();
        let mut i: usize = 0;
        while i < self.items.len()
            invariant
                i <= self.items.len(),
                out@ == scan_oids(self@.subrange(0, i as int)),
            decreases self.items.len() - i,
        {
            let ghost pre = self@.subrange(0, i as int);
            let ghost post = self@.subrange(0, i + 1);
            assert(post.drop_last() =~= pre);
            assert(post.last() == self@[i as int]);
            assert(self@[i as int] == self.items@[i as int]@);
            if !crate::repo::ids_contain(&out, self.items[i].id) {
                out.push(self.items[i].id);
            }
            i = i + 1;
        }
        assert(self@.subrange(0, self@.len() as int) =~= self@);
        out
    }
}

/// The name that represents a commit in the index: the name of the first
/// branch sitting at it.
pub open spec fn rep_name(bm: Seq<BranchView>, id: CommitId) -> Seq<char> {
    at_id(bm, id)[0].name
}

/// Where `id` belongs among `sorted`, ordering ids by their representative
/// branch names: before the first id with a greater name.
pub open spec fn name_insert_pos(bm: Seq<BranchView>, id: CommitId, sorted: Seq<CommitId>) -> int
    decreases sorted.len(),
{
    if sorted.len() == 0 {
        0
    } else if crate::names::chars_lt(rep_name(bm, id), rep_name(bm, sorted[0])) {
        0
    } else {
        1 + name_insert_pos(bm, id, sorted.drop_first())
    }
}

/// The insertion position lies within the list.
pub proof fn lemma_name_insert_pos_range(bm: Seq<BranchView>, id: CommitId, sorted: Seq<CommitId>)
    ensures
        0 <= name_insert_pos(bm, id, sorted) <= sorted.len(),
    decreases sorted.len(),
{
    if sorted.len() > 0 && !crate::names::chars_lt(rep_name(bm, id), rep_name(bm, sorted[0])) {
        lemma_name_insert_pos_range(bm, id, sorted.drop_first());
    }
}

/// `id` inserted into `sorted` at its name-ordered position.
pub open spec fn insert_by_name(bm: Seq<BranchView>, id: CommitId, sorted: Seq<CommitId>) -> Seq<
    CommitId,
> {
    sorted.insert(name_insert_pos(bm, id, sorted), id)
}

/// The ids sorted by their representative branch names, by insertion in
/// order.
pub open spec fn sort_ids_by_name(bm: Seq<BranchView>, ids: Seq<CommitId>) -> Seq<CommitId>
    decreases ids.len(),
{
    if ids.len() == 0 {
        ids
    } else {
        insert_by_name(bm, ids[0], sort_ids_by_name(bm, ids.drop_first()))
    }
}

/// Sorting keeps exactly the given ids.
pub proof fn lemma_sort_ids_elems(bm: Seq<BranchView>, ids: Seq<CommitId>)
    ensures
        sort_ids_by_name(bm, ids).len() == ids.len(),
        forall|t: int|
            0 <= t < sort_ids_by_name(bm, ids).len() ==> ids.contains(
                #[trigger] sort_ids_by_name(bm, ids)[t],
            ),
    decreases ids.len(),
{
    if ids.len() > 0 {
        lemma_sort_ids_elems(bm, ids.drop_first());
        let rest = sort_ids_by_name(bm, ids.drop_first());
        lemma_name_insert_pos_range(bm, ids[0], rest);
        let p = name_insert_pos(bm, ids[0], rest);
        assert forall|t: int| 0 <= t < sort_ids_by_name(bm, ids).len() implies ids.contains(
            #[trigger] sort_ids_by_name(bm, ids)[t],
        ) by {
            let r = sort_ids_by_name(bm, ids);
            if t < p {
                assert(r[t] == rest[t]);
                assert(ids.drop_first().contains(rest[t]));
                let u = choose|u: int|
                    0 <= u < ids.drop_first().len() && ids.drop_first()[u] == rest[t];
                assert(ids[u + 1] == rest[t]);
            } else if t == p {
                assert(r[t] == ids[0]);
            } else {
                assert(r[t] == rest[t - 1]);
                assert(ids.drop_first().contains(rest[t - 1]));
                let u = choose|u: int|
                    0 <= u < ids.drop_first().len() && ids.drop_first()[u] == rest[t - 1];
                assert(ids[u + 1] == rest[t - 1]);
            }
        }
    }
}

/// The name of the first branch at this commit.
pub fn rep_name_of(branches: &Branches, id: CommitId) -> (r: String)
    requires
        holds_oid(branches@, id),
    ensures
        r@ == rep_name(branches@, id),
{
    match branches.get(id) {
        Some(v) => {
            assert(v@[0]@ == at_id(branches@, id)[0]);
            v[0].name.clone()
        },
        None => {
            proof {
                assert(false);
            }
            String::new()
        },
    }
}

/// The held commit ids, each at its first occurrence, sorted by the name
/// of the first branch at each.
pub fn sorted_oids(branches: &Branches) -> (r: Vec<CommitId>)
    ensures
        r@ == sort_ids_by_name(branches@, scan_oids(branches@)),
        forall|t: int| 0 <= t < r@.len() ==> holds_oid(branches@, #[trigger] r@[t]),
{
    let ghost bm = branches@;
    let ghost all = scan_oids(bm);
    proof {
        lemma_scan_oids_held(bm);
        lemma_sort_ids_elems(bm, all);
    }
    let ids = branches.oids();
    let mut acc: Vec<CommitId> = Vec::new();
    let mut i = ids.len();
    proof {
        assert(all.skip(ids@.len() as int) =~= Seq::<CommitId>::empty());
    }
    while i > 0
        invariant
            i <= ids@.len(),
            ids@ == all,
            acc@ == sort_ids_by_name(bm, all.skip(i as int)),
            forall|t: int| 0 <= t < acc@.len() ==> all.contains(#[trigger] acc@[t]),
            forall|t: int| 0 <= t < all.len() ==> holds_oid(bm, #[trigger] all[t]),
        decreases i,
    {
        i = i - 1;
        let ghost tail = all.skip(i as int);
        assert(tail[0] == all[i as int]);
        assert(tail.drop_first() =~= all.skip(i + 1));
        let id = ids[i];
        assert(holds_oid(bm, id));
        let name = rep_name_of(branches, id);
        let mut pos: usize = 0;
        let ghost sorted = acc@;
        proof {
            assert(sorted.skip(0) =~= sorted);
            lemma_name_insert_pos_range(bm, id, sorted);
        }
        while pos < acc.len()
            invariant
                acc@ == sorted,
                pos <= sorted.len(),
                name@ == rep_name(bm, id),
                holds_oid(bm, id),
                forall|t: int| 0 <= t < sorted.len() ==> all.contains(#[trigger] sorted[t]),
                forall|t: int| 0 <= t < all.len() ==> holds_oid(bm, #[trigger] all[t]),
                name_insert_pos(bm, id, sorted) == pos + name_insert_pos(
                    bm,
                    id,
                    sorted.skip(pos as int),
                ),
                name_insert_pos(bm, id, sorted.skip(pos as int)) >= 0,
            decreases sorted.len() - pos,
        {
            let ghost st = sorted.skip(pos as int);
            assert(st[0] == sorted[pos as int]);
            assert(st.drop_first() =~= sorted.skip(pos + 1));
            assert(all.contains(sorted[pos as int]));
            proof {
                let u = choose|u: int| 0 <= u < all.len() && all[u] == sorted[pos as int];
            }
            assert(holds_oid(bm, sorted[pos as int]));
            let cand = rep_name_of(branches, acc[pos]);
            if crate::names::str_lt(name.as_str(), cand.as_str()) {
                assert(name_insert_pos(bm, id, st) == 0);
                break ;
            }
            proof {
                lemma_name_insert_pos_range(bm, id, sorted.skip(pos + 1));
            }
            pos = pos + 1;
        }
        proof {
            if pos == sorted.len() {
                assert(sorted.skip(pos as int).len() == 0);
            }
            assert(pos == name_insert_pos(bm, id, sorted));
        }
        acc.insert(pos, id);
        proof {
            assert(acc@ =~= insert_by_name(bm, id, sorted));
            assert(acc@ == sort_ids_by_name(bm, tail));
        }
    }
    proof {
        assert(all.skip(0) =~= all);
        assert forall|t: int| 0 <= t < acc@.len() implies holds_oid(
            bm,
            #[trigger] acc@[t],
        ) by {
            let u = choose|u: int| 0 <= u < all.len() && all[u] == acc@[t];
        }
    }
    acc
}


/// A chosen base is eligible: it points at a commit of the snapshot and
/// shares history with the head.
pub proof fn lemma_best_base_eligible(s: Seq<BranchView>, repo: RepoView, head: CommitId)
    requires
        best_base(s, repo, head) is Some,
    ensures
        eligible_base(repo, head, best_base(s, repo, head).unwrap()),
    decreases s.len(),
{
    if s.len() > 0 {
        let prev = best_base(s.drop_last(), repo, head);
        if !eligible_base(repo, head, s.last()) {
            lemma_best_base_eligible(s.drop_last(), repo, head);
        } else {
            match prev {
                None => {},
                Some(p) => {
                    if better_base(repo, head, s.last(), p) {
                    } else {
                        lemma_best_base_eligible(s.drop_last(), repo, head);
                    }
                },
            }
        }
    }
}

} // verus!
