//! The script compiler: flattens an annotated graph into an ordered list
//! of low-level operations.
//!
//! Commands name commits by their plan-time ids; the executor maps those
//! to the ids that actually come out of rewriting. A node already sitting
//! on its target parent, with nothing above it rewritten, produces no
//! commands; protected nodes anchor their children and produce none
//! either.

use vstd::prelude::*;

use crate::graph::{forest_view, lemma_forest_view, node_view, Action, Node, NodeView};
use crate::ids::CommitId;
use crate::repo::{Branch, BranchView};

verus! {

/// One low-level operation of a rebase script.
#[derive(Debug)]
pub enum Command {
    /// Announces that the branch takes part in the run that follows.
    RegisterBranch(String),
    /// Moves the working head to a commit, by plan-time id, detached.
    SwitchCommit(CommitId),
    /// Rewrites the commit, by plan-time id, onto the working head.
    CherryPick(CommitId),
    /// Squashes the commit, by plan-time id, into the working head.
    Squash(CommitId),
    /// Points the branch at the commit a plan-time id came to denote.
    CreateBranch(String, CommitId),
    /// Deletes the branch.
    DeleteBranch(String),
    /// Moves the working head onto the branch.
    SwitchBranch(String),
}

/// The mathematical value of a [`Command`].
pub enum CommandView {
    RegisterBranch(Seq<char>),
    SwitchCommit(CommitId),
    CherryPick(CommitId),
    Squash(CommitId),
    CreateBranch(Seq<char>, CommitId),
    DeleteBranch(Seq<char>),
    SwitchBranch(Seq<char>),
}

impl View for Command {
    type V = CommandView;

    open spec fn view(&self) -> CommandView {
        match self {
            Command::RegisterBranch(n) => CommandView::RegisterBranch(n@),
            Command::SwitchCommit(id) => CommandView::SwitchCommit(*id),
            Command::CherryPick(id) => CommandView::CherryPick(*id),
            Command::Squash(id) => CommandView::Squash(*id),
            Command::CreateBranch(n, id) => CommandView::CreateBranch(n@, *id),
            Command::DeleteBranch(n) => CommandView::DeleteBranch(n@),
            Command::SwitchBranch(n) => CommandView::SwitchBranch(n@),
        }
    }
}

/// The mathematical values of a command list.
pub open spec fn command_views(cs: Seq<Command>) -> Seq<CommandView> {
    cs.map_values(|c: Command| c@)
}

/// The views of a command list, element by element.
pub proof fn lemma_command_views(cs: Seq<Command>)
    ensures
        command_views(cs).len() == cs.len(),
        forall|i: int| 0 <= i < cs.len() ==> command_views(cs)[i] == (#[trigger] cs[i])@,
{
}

/// An ordered rebase script.
#[derive(Debug)]
pub struct Script {
    pub commands: Vec<Command>,
}

impl View for Script {
    type V = Seq<CommandView>;

    open spec fn view(&self) -> Seq<CommandView> {
        command_views(self.commands@)
    }
}

/// `RegisterBranch` for each branch, in order.
pub open spec fn spec_registers(bs: Seq<BranchView>) -> Seq<CommandView>
    decreases bs.len(),
{
    if bs.len() == 0 {
        Seq::empty()
    } else {
        spec_registers(bs.drop_last()).push(CommandView::RegisterBranch(bs.last().name))
    }
}

/// `CreateBranch` at the plan-time id for each branch, in order.
pub open spec fn spec_creates(bs: Seq<BranchView>, id: CommitId) -> Seq<CommandView>
    decreases bs.len(),
{
    if bs.len() == 0 {
        Seq::empty()
    } else {
        spec_creates(bs.drop_last(), id).push(CommandView::CreateBranch(bs.last().name, id))
    }
}

/// Whether a picked node already sits where the plan wants it: nothing
/// above it was rewritten and its only parent is the plan target.
pub open spec fn in_place(n: NodeView, target: CommitId, moved: bool) -> bool {
    !moved && n.local_commit.parent_ids.len() == 1 && n.local_commit.parent_ids[0] == target
}

/// The commands for one node and its subtree, given the plan-time id of
/// its target parent and whether anything above it was rewritten.
pub open spec fn spec_compile(n: NodeView, target: CommitId, moved: bool) -> Seq<CommandView>
    decreases n,
{
    match n.action {
        Action::Protected => spec_compile_forest(n.children, n.local_commit.id, false),
        Action::Pick => {
            if n.local_commit.parent_ids.len() == 0 {
                spec_compile_forest(n.children, n.local_commit.id, false)
            } else if in_place(n, target, moved) {
                spec_compile_forest(n.children, n.local_commit.id, false)
            } else {
                spec_registers(n.branches) + seq![
                    CommandView::SwitchCommit(target),
                    CommandView::CherryPick(n.local_commit.id),
                ] + spec_creates(n.branches, n.local_commit.id) + spec_compile_forest(
                    n.children,
                    n.local_commit.id,
                    true,
                )
            }
        },
        Action::Fixup => spec_registers(n.branches) + seq![
            CommandView::SwitchCommit(target),
            CommandView::Squash(n.local_commit.id),
        ] + spec_creates(n.branches, n.local_commit.id) + spec_compile_forest(
            n.children,
            n.local_commit.id,
            true,
        ),
        Action::Delete => spec_registers(n.branches) + spec_creates(n.branches, target)
            + spec_compile_forest(n.children, target, true),
    }
}

/// The commands for each tree of a forest, in order.
pub open spec fn spec_compile_forest(cs: Seq<NodeView>, target: CommitId, moved: bool) -> Seq<
    CommandView,
>
    decreases cs,
{
    if cs.len() == 0 {
        Seq::empty()
    } else {
        spec_compile_forest(cs.drop_last(), target, moved) + spec_compile(
            cs.last(),
            target,
            moved,
        )
    }
}

/// The whole script of an annotated graph: the root anchors at its own
/// first parent (or itself, at a root commit), with nothing rewritten yet.
pub open spec fn spec_to_script(n: NodeView) -> Seq<CommandView> {
    spec_compile(
        n,
        if n.local_commit.parent_ids.len() >= 1 {
            n.local_commit.parent_ids[0]
        } else {
            n.local_commit.id
        },
        false,
    )
}

/// Appends `RegisterBranch` for every branch.
fn emit_registers(out: &mut Vec<Command>, branches: &Vec<Branch>)
    ensures
        command_views(final(out)@) == command_views(old(out)@) + spec_registers(
            crate::graph::branch_views(branches@),
        ),
{
    let ghost bs = crate::graph::branch_views(branches@);
    let ghost base = command_views(old(out)@);
    proof {
        crate::graph::lemma_branch_views(branches@);
        lemma_command_views(out@);
        assert(spec_registers(bs.subrange(0, 0)) =~= Seq::<CommandView>::empty());
        assert(command_views(out@) =~= base + spec_registers(bs.subrange(0, 0)));
    }
    let mut i: usize = 0;
    while i < branches.len()
        invariant
            i <= branches@.len(),
            bs == crate::graph::branch_views(branches@),
            bs.len() == branches@.len(),
            forall|t: int| 0 <= t < branches@.len() ==> bs[t] == (#[trigger] branches@[t])@,
            command_views(out@) == base + spec_registers(bs.subrange(0, i as int)),
        decreases branches@.len() - i,
    {
        let ghost pre = out@;
        let cmd = Command::RegisterBranch(branches[i].name.clone());
        let ghost gc = cmd;
        out.push(cmd);
        proof {
            lemma_command_views(out@);
            lemma_command_views(pre);
            assert(out@.drop_last() =~= pre);
            assert(bs.subrange(0, i + 1).drop_last() =~= bs.subrange(0, i as int));
            assert(bs.subrange(0, i + 1).last() == bs[i as int]);
            assert(gc@ == CommandView::RegisterBranch(bs[i as int].name));
            assert forall|t: int| 0 <= t < out@.len() implies command_views(out@)[t] == (base
                + spec_registers(bs.subrange(0, i + 1)))[t] by {
                if t < out@.len() - 1 {
                    assert(out@[t] == pre[t]);
                } else {
                    assert(out@[t] == gc);
                }
            }
            assert(command_views(out@) =~= base + spec_registers(bs.subrange(0, i + 1)));
        }
        i = i + 1;
    }
    proof {
        assert(bs.subrange(0, bs.len() as int) =~= bs);
    }
}

/// Appends `CreateBranch` at the plan-time id for every branch.
fn emit_creates(out: &mut Vec<Command>, branches: &Vec<Branch>, id: CommitId)
    ensures
        command_views(final(out)@) == command_views(old(out)@) + spec_creates(
            crate::graph::branch_views(branches@),
            id,
        ),
{
    let ghost bs = crate::graph::branch_views(branches@);
    let ghost base = command_views(old(out)@);
    proof {
        crate::graph::lemma_branch_views(branches@);
        lemma_command_views(out@);
        assert(spec_creates(bs.subrange(0, 0), id) =~= Seq::<CommandView>::empty());
        assert(command_views(out@) =~= base + spec_creates(bs.subrange(0, 0), id));
    }
    let mut i: usize = 0;
    while i < branches.len()
        invariant
            i <= branches@.len(),
            bs == crate::graph::branch_views(branches@),
            bs.len() == branches@.len(),
            forall|t: int| 0 <= t < branches@.len() ==> bs[t] == (#[trigger] branches@[t])@,
            command_views(out@) == base + spec_creates(bs.subrange(0, i as int), id),
        decreases branches@.len() - i,
    {
        let ghost pre = out@;
        let cmd = Command::CreateBranch(branches[i].name.clone(), id);
        let ghost gc = cmd;
        out.push(cmd);
        proof {
            lemma_command_views(out@);
            lemma_command_views(pre);
            assert(out@.drop_last() =~= pre);
            assert(bs.subrange(0, i + 1).drop_last() =~= bs.subrange(0, i as int));
            assert(bs.subrange(0, i + 1).last() == bs[i as int]);
            assert(gc@ == CommandView::CreateBranch(bs[i as int].name, id));
            assert forall|t: int| 0 <= t < out@.len() implies command_views(out@)[t] == (base
                + spec_creates(bs.subrange(0, i + 1), id))[t] by {
                if t < out@.len() - 1 {
                    assert(out@[t] == pre[t]);
                } else {
                    assert(out@[t] == gc);
                }
            }
            assert(command_views(out@) =~= base + spec_creates(bs.subrange(0, i + 1), id));
        }
        i = i + 1;
    }
    proof {
        assert(bs.subrange(0, bs.len() as int) =~= bs);
    }
}

/// Appends one command.
fn push_cmd(out: &mut Vec<Command>, cmd: Command)
    ensures
        command_views(final(out)@) == command_views(old(out)@).push(cmd@),
{
    let ghost pre = out@;
    let ghost gc = cmd;
    out.push(cmd);
    proof {
        lemma_command_views(out@);
        lemma_command_views(pre);
        assert(out@.drop_last() =~= pre);
        assert forall|t: int| 0 <= t < out@.len() implies command_views(out@)[t]
            == command_views(pre).push(gc@)[t] by {
            if t < out@.len() - 1 {
                assert(out@[t] == pre[t]);
            } else {
                assert(out@[t] == gc);
            }
        }
        assert(command_views(out@) =~= command_views(pre).push(gc@));
    }
}

/// Appends the commands for one node and its subtree.
fn compile_into(node: &Node, target: CommitId, moved: bool, out: &mut Vec<Command>)
    ensures
        command_views(final(out)@) == command_views(old(out)@) + spec_compile(
            node@,
            target,
            moved,
        ),
    decreases *node,
{
    let ghost base = command_views(old(out)@);
    let id = node.local_commit.id;
    let mut child_target = id;
    let mut child_moved = false;
    let emit: bool;
    let pick: bool;
    match &node.action {
        Action::Protected => {
            emit = false;
            pick = false;
        },
        Action::Pick => {
            let parents = node.local_commit.parent_ids.len();
            if parents == 0 {
                emit = false;
            } else if !moved && parents == 1 && node.local_commit.parent_ids[0].eq_id(&target) {
                emit = false;
            } else {
                emit = true;
                child_moved = true;
            }
            pick = true;
        },
        Action::Fixup => {
            emit = true;
            pick = false;
            child_moved = true;
        },
        Action::Delete => {
            emit = true;
            pick = false;
            child_target = target;
            child_moved = true;
        },
    }
    if emit {
        emit_registers(out, &node.branches);
        match &node.action {
            Action::Pick => {
                push_cmd(out, Command::SwitchCommit(target));
                push_cmd(out, Command::CherryPick(id));
                emit_creates(out, &node.branches, id);
            },
            Action::Fixup => {
                push_cmd(out, Command::SwitchCommit(target));
                push_cmd(out, Command::Squash(id));
                emit_creates(out, &node.branches, id);
            },
            Action::Delete => {
                emit_creates(out, &node.branches, target);
            },
            Action::Protected => {},
        }
    }
    let ghost mid = command_views(out@);
    let ghost fv = node@.children;
    proof {
        lemma_forest_view(node.children@);
        lemma_command_views(out@);
        assert(spec_compile_forest(fv.subrange(0, 0), child_target, child_moved)
            =~= Seq::<CommandView>::empty());
        assert(mid =~= mid + spec_compile_forest(fv.subrange(0, 0), child_target, child_moved));
    }
    let mut i: usize = 0;
    while i < node.children.len()
        invariant
            i <= node.children@.len(),
            fv == forest_view(node.children@),
            fv.len() == node.children@.len(),
            forall|t: int|
                0 <= t < node.children@.len() ==> fv[t] == node_view(
                    #[trigger] node.children@[t],
                ),
            command_views(out@) == mid + spec_compile_forest(
                fv.subrange(0, i as int),
                child_target,
                child_moved,
            ),
        decreases node.children@.len() - i,
    {
        proof {
            assert(decreases_to!(*node => node.children));
            assert(decreases_to!(node.children => node.children@));
            assert(decreases_to!(node.children@ => node.children@[i as int]));
        }
        compile_into(&node.children[i], child_target, child_moved, out);
        proof {
            assert(fv.subrange(0, i + 1).drop_last() =~= fv.subrange(0, i as int));
            assert(fv.subrange(0, i + 1).last() == fv[i as int]);
            assert(command_views(out@) =~= mid + spec_compile_forest(
                fv.subrange(0, i + 1),
                child_target,
                child_moved,
            ));
        }
        i = i + 1;
    }
    proof {
        assert(fv.subrange(0, fv.len() as int) =~= fv);
        assert(command_views(out@) == mid + spec_compile_forest(fv, child_target, child_moved));
        if emit {
            match node@.action {
                Action::Pick => {
                    assert(command_views(out@) =~= base + spec_compile(node@, target, moved));
                },
                Action::Fixup => {
                    assert(command_views(out@) =~= base + spec_compile(node@, target, moved));
                },
                Action::Delete => {
                    assert(command_views(out@) =~= base + spec_compile(node@, target, moved));
                },
                Action::Protected => {},
            }
        } else {
            assert(command_views(out@) =~= base + spec_compile(node@, target, moved));
        }
    }
}

/// Compiles an annotated graph into its script.
pub fn to_script(root: &Node) -> (r: Script)
    ensures
        r@ == spec_to_script(root@),
{
    let target = if root.local_commit.parent_ids.len() >= 1 {
        root.local_commit.parent_ids[0]
    } else {
        root.local_commit.id
    };
    let mut out: Vec<Command> = Vec::new();
    proof {
        lemma_command_views(out@);
        assert(command_views(out@) =~= Seq::<CommandView>::empty());
    }
    compile_into(root, target, false, &mut out);
    let s = Script { commands: out };
    proof {
        assert(Seq::<CommandView>::empty() + spec_compile(root@, target, false) =~= spec_compile(
            root@,
            target,
            false,
        ));
    }
    s
}

} // verus!
