//! The backup ring: named snapshots of all local refs, taken before
//! destructive operations, kept in a bounded ring so the newest entries
//! survive.

use vstd::prelude::*;

use crate::ids::CommitId;
use crate::repo::Repo;

verus! {

/// One snapshot: every local branch name mapped to the commit it pointed
/// at when the snapshot was taken.
#[derive(Debug)]
pub struct BackupEntry {
    refs: Vec<(String, CommitId)>,
}

/// The pairs of a snapshot, as character sequences and ids.
pub open spec fn ref_views(v: Seq<(String, CommitId)>) -> Seq<(Seq<char>, CommitId)> {
    v.map_values(|p: (String, CommitId)| (p.0@, p.1))
}

impl View for BackupEntry {
    type V = Seq<(Seq<char>, CommitId)>;

    closed spec fn view(&self) -> Seq<(Seq<char>, CommitId)> {
        ref_views(self.refs@)
    }
}

impl BackupEntry {
    /// Captures every local branch of the snapshot, in order.
    pub fn from_repo(repo: &Repo) -> (r: BackupEntry)
        ensures
            r@.len() == repo@.branches.len(),
            forall|t: int|
                0 <= t < repo@.branches.len() ==> r@[t] == (
                    #[trigger] repo@.branches[t].name,
                    repo@.branches[t].id,
                ),
    {
        let branches = repo.local_branches();
        let ghost bs = repo@.branches;
        let mut refs: Vec<(String, CommitId)> = Vec::new();
        let mut i: usize = 0;
        proof {
            assert(branches@.map_values(|b: crate::repo::Branch| b@) == bs);
        }
        while i < branches.len()
            invariant
                i <= branches@.len(),
                branches@.map_values(|b: crate::repo::Branch| b@) == bs,
                bs.len() == branches@.len(),
                ref_views(refs@).len() == i,
                forall|t: int|
                    0 <= t < i ==> ref_views(refs@)[t] == (#[trigger] bs[t].name, bs[t].id),
            decreases branches@.len() - i,
        {
            assert(bs[i as int] == branches@[i as int]@);
            let b = &branches[i];
            let ghost pre = refs@;
            let pair = (b.name.clone(), b.id);
            let ghost gp = pair;
            refs.push(pair);
            proof {
                assert(refs@ =~= pre.push(gp));
                assert forall|t: int| 0 <= t < refs@.len() implies ref_views(refs@)[t] == (
                if t < pre.len() {
                    ref_views(pre)[t]
                } else {
                    (gp.0@, gp.1)
                }) by {
                    if t < pre.len() {
                        assert(refs@[t] == pre[t]);
                    } else {
                        assert(refs@[t] == gp);
                    }
                }
            }
            i = i + 1;
        }
        let r = BackupEntry { refs };
        proof {
            assert(r@ == ref_views(r.refs@));
        }
        r
    }

    /// The captured pairs, for reading a snapshot back.
    pub fn entries(&self) -> (r: &Vec<(String, CommitId)>)
        ensures
            ref_views(r@) == self@,
    {
        &self.refs
    }
}

/// A named, bounded ring of backup entries: pushing past the capacity
/// drops the oldest entries.
#[derive(Debug)]
pub struct BackupStack {
    name: String,
    capacity: Option<usize>,
    entries: Vec<BackupEntry>,
}

/// The mathematical state of a [`BackupStack`].
pub struct BackupStackView {
    pub name: Seq<char>,
    pub capacity: Option<usize>,
    pub entries: Seq<Seq<(Seq<char>, CommitId)>>,
}

/// The views of a list of entries.
pub open spec fn entry_views(v: Seq<BackupEntry>) -> Seq<Seq<(Seq<char>, CommitId)>> {
    v.map_values(|e: BackupEntry| e@)
}

impl View for BackupStack {
    type V = BackupStackView;

    closed spec fn view(&self) -> BackupStackView {
        BackupStackView {
            name: self.name@,
            capacity: self.capacity,
            entries: entry_views(self.entries@),
        }
    }
}

/// What the ring holds after a push: the new entry at the end, with the
/// oldest entries dropped when a capacity is set and exceeded.
pub open spec fn ring_after_push(
    entries: Seq<Seq<(Seq<char>, CommitId)>>,
    capacity: Option<usize>,
    e: Seq<(Seq<char>, CommitId)>,
) -> Seq<Seq<(Seq<char>, CommitId)>> {
    let full = entries.push(e);
    match capacity {
        Some(c) => if full.len() > c {
            full.skip(full.len() - c)
        } else {
            full
        },
        None => full,
    }
}

impl BackupStack {
    /// An empty ring under the given namespace, unbounded until a
    /// capacity is set.
    pub fn new(name: String) -> (r: BackupStack)
        ensures
            r@.name == name@,
            r@.capacity is None,
            r@.entries == Seq::<Seq<(Seq<char>, CommitId)>>::empty(),
    {
        let r = BackupStack { name, capacity: None, entries: Vec::new() };
        proof {
            assert(entry_views(r.entries@) =~= Seq::<Seq<(Seq<char>, CommitId)>>::empty());
        }
        r
    }

    /// Bounds the ring.
    pub fn capacity(&mut self, capacity: Option<usize>)
        ensures
            final(self)@ == (BackupStackView { capacity, ..old(self)@ }),
    {
        self.capacity = capacity;
    }

    /// The namespace of the ring.
    pub fn name(&self) -> (r: &String)
        ensures
            r@ == self@.name,
    {
        &self.name
    }

    /// How many entries the ring holds.
    pub fn len(&self) -> (r: usize)
        ensures
            r == self@.entries.len(),
    {
        self.entries.len()
    }

    /// Pushes a snapshot, dropping the oldest entries when the capacity
    /// is exceeded.
    pub fn push(&mut self, e: BackupEntry)
        ensures
            final(self)@ == (BackupStackView {
                entries: ring_after_push(old(self)@.entries, old(self)@.capacity, e@),
                ..old(self)@
            }),
    {
        let ghost pre = self@.entries;
        let ghost ge = e;
        self.entries.push(e);
        proof {
            assert(self.entries@ =~= old(self).entries@.push(ge));
            assert forall|t: int|
                0 <= t < self.entries@.len() implies entry_views(self.entries@)[t] == pre.push(
                ge@,
            )[t] by {
                if t < old(self).entries@.len() {
                    assert(self.entries@[t] == old(self).entries@[t]);
                } else {
                    assert(self.entries@[t] == ge);
                }
            }
            assert(entry_views(self.entries@) =~= pre.push(ge@));
        }
        match self.capacity {
            Some(c) => {
                while self.entries.len() > c
                    invariant
                        self@.name == old(self)@.name,
                        self@.capacity == old(self)@.capacity,
                        old(self)@.capacity == Some(c),
                        entry_views(self.entries@).len() >= c ==> entry_views(self.entries@)
                            == ring_after_push(pre, old(self)@.capacity, ge@) || entry_views(
                            self.entries@,
                        ).len() > c,
                        ring_after_push(pre, old(self)@.capacity, ge@) == (
                        if entry_views(self.entries@).len() > c {
                            entry_views(self.entries@).skip(
                                entry_views(self.entries@).len() - c,
                            )
                        } else {
                            entry_views(self.entries@)
                        }),
                    decreases self.entries@.len(),
                {
                    let ghost cur = entry_views(self.entries@);
                    let ghost epre = self.entries@;
                    self.entries.remove(0);
                    proof {
                        assert(self.entries@ =~= epre.drop_first());
                        assert forall|t: int|
                            0 <= t < self.entries@.len() implies entry_views(self.entries@)[t]
                            == cur.drop_first()[t] by {
                            assert(self.entries@[t] == epre[t + 1]);
                            assert(cur[t + 1] == epre[t + 1]@);
                        }
                        assert(entry_views(self.entries@) =~= cur.drop_first());
                        if cur.len() - 1 > c {
                            assert(cur.skip(cur.len() - c) =~= cur.drop_first().skip(
                                cur.drop_first().len() - c,
                            ));
                        } else {
                            assert(cur.skip(cur.len() - c) =~= cur.drop_first());
                        }
                    }
                }
            },
            None => {},
        }
    }

    /// Takes the newest entry out of the ring.
    pub fn pop(&mut self) -> (r: Option<BackupEntry>)
        ensures
            match r {
                Some(e) => old(self)@.entries.len() > 0 && e@ == old(self)@.entries.last()
                    && final(self)@ == (BackupStackView {
                    entries: old(self)@.entries.drop_last(),
                    ..old(self)@
                }),
                None => old(self)@.entries.len() == 0 && final(self)@ == old(self)@,
            },
    {
        let ghost pre = self.entries@;
        let r = self.entries.pop();
        proof {
            match &r {
                Some(e) => {
                    assert(self.entries@ =~= pre.drop_last());
                    assert forall|t: int|
                        0 <= t < self.entries@.len() implies entry_views(self.entries@)[t]
                        == entry_views(pre).drop_last()[t] by {
                        assert(self.entries@[t] == pre[t]);
                        assert(entry_views(pre)[t] == pre[t]@);
                    }
                    assert(entry_views(self.entries@) =~= entry_views(pre).drop_last());
                    assert(entry_views(pre).last() == pre.last()@);
                },
                None => {
                    assert(entry_views(pre).len() == 0);
                },
            }
        }
        r
    }

    /// The entries, oldest first.
    pub fn list(&self) -> (r: &Vec<BackupEntry>)
        ensures
            entry_views(r@) == self@.entries,
    {
        &self.entries
    }
}

/// Backups round-trip: pushing a snapshot onto a ring with room and
/// reading the newest entry back yields exactly the captured mapping.
pub proof fn lemma_backup_round_trip(
    entries: Seq<Seq<(Seq<char>, CommitId)>>,
    capacity: Option<usize>,
    e: Seq<(Seq<char>, CommitId)>,
)
    requires
        match capacity {
            Some(c) => c > 0,
            None => true,
        },
    ensures
        ring_after_push(entries, capacity, e).last() == e,
        ring_after_push(entries, capacity, e).len() > 0,
{
    let full = entries.push(e);
    match capacity {
        Some(c) => {
            if full.len() > c {
                assert(full.skip(full.len() - c).last() == full.last());
            }
        },
        None => {},
    }
}

} // verus!
