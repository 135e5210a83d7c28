//! Scenario tests for graph construction, planning and execution.

use git_stack::branches::Branches;
use git_stack::executor::Executor;
use git_stack::graph::{Action, Node};
use git_stack::ids::CommitId;
use git_stack::repo::{Branch, Commit, Repo};
use git_stack::script::Command;
use git_stack::state::{plan_rebase, StackState};

fn cid(n: u32) -> CommitId {
    CommitId::from_number(n)
}

fn commit(id: u32, tree: u32, parents: &[u32], summary: &str) -> Commit {
    Commit {
        id: cid(id),
        tree_id: cid(tree),
        parent_ids: parents.iter().map(|p| cid(*p)).collect(),
        summary: summary.as_bytes().to_vec(),
    }
}

fn branch(name: &str, id: u32) -> Branch {
    Branch { name: name.to_string(), id: cid(id), push_id: None, pull_id: None }
}

fn repo_of(commits: Vec<Commit>, branches: Vec<Branch>, head: u32, head_branch: Option<&str>) -> Repo {
    Repo::new(
        commits,
        branches,
        cid(head),
        head_branch.map(|s| s.to_string()),
        false,
        "origin".to_string(),
        "origin".to_string(),
    )
    .unwrap()
}

fn protected_index(repo: &Repo, patterns: &[&str]) -> Branches {
    let pats: Vec<String> = patterns.iter().map(|s| s.to_string()).collect();
    let matcher = git_stack::protect::ProtectedBranches::new(&pats).unwrap();
    let all = Branches::new(repo.local_branches());
    all.protected(&matcher)
}

fn run_plan(repo: &mut Repo, patterns: &[&str], base: &str, onto: &str) -> (Vec<Command>, Executor) {
    let protected = protected_index(repo, patterns);
    let head = repo.find_commit(repo.head_id()).unwrap();
    let base_b = repo.find_local_branch(&base.to_string()).unwrap();
    let onto_b = repo.find_local_branch(&onto.to_string()).unwrap();
    let all = Branches::new(repo.local_branches());
    let stack = StackState { base: base_b, onto: onto_b, branches: all };
    let script = plan_rebase(repo, &head, &protected, &stack).unwrap();
    let head_name = repo.head_branch_name();
    let mut exec = Executor::new(repo, false);
    exec.run_script(repo, &script);
    if let Some(name) = head_name {
        exec.close(repo, &name).unwrap();
    }
    (script.commands, exec)
}

/// A lone protected branch plans an empty script and nothing is touched.
#[test]
fn trivial_noop_plans_empty_script() {
    let mut repo = repo_of(
        vec![commit(1, 101, &[], "init")],
        vec![branch("main", 1)],
        1,
        Some("main"),
    );
    let (commands, exec) = run_plan(&mut repo, &["main"], "main", "main");
    assert!(commands.is_empty());
    assert!(!exec.is_dirty());
    assert!(exec.failures().is_empty());
}

/// A three-commit stack follows its base to a pulled tip: the rebased
/// branch carries the same tree ids on top of the new base.
#[test]
fn single_stack_rebases_onto_pulled_base() {
    let mut repo = repo_of(
        vec![
            commit(1, 101, &[], "init"),
            commit(2, 102, &[1], "one"),
            commit(3, 103, &[2], "two"),
            commit(10, 110, &[1], "pulled"),
        ],
        vec![branch("main", 10), branch("feature", 3)],
        3,
        Some("feature"),
    );
    let (_commands, exec) = run_plan(&mut repo, &["main"], "main", "main");
    assert!(exec.is_dirty());
    assert!(exec.failures().is_empty());
    let feature = repo.find_local_branch(&"feature".to_string()).unwrap();
    let chain = repo.commits_from(feature.id);
    let trees: Vec<CommitId> = chain.iter().map(|c| c.tree_id).collect();
    assert_eq!(trees, vec![cid(103), cid(102), cid(110), cid(101)]);
    let main = repo.find_local_branch(&"main".to_string()).unwrap();
    assert_eq!(repo.merge_base(main.id, feature.id), Some(cid(10)));
}

/// A dependent branch follows the branch it sits on to the new base.
#[test]
fn dependents_follow_their_parent_branch() {
    let mut repo = repo_of(
        vec![
            commit(1, 101, &[], "init"),
            commit(2, 102, &[1], "a one"),
            commit(3, 103, &[2], "a two"),
            commit(4, 104, &[3], "b one"),
            commit(5, 105, &[4], "b two"),
            commit(10, 110, &[1], "pulled"),
        ],
        vec![branch("main", 10), branch("feature-a", 3), branch("feature-b", 5)],
        5,
        Some("feature-b"),
    );
    let (_commands, exec) = run_plan(&mut repo, &["main"], "main", "main");
    assert!(exec.failures().is_empty());
    let a = repo.find_local_branch(&"feature-a".to_string()).unwrap();
    let b = repo.find_local_branch(&"feature-b".to_string()).unwrap();
    let a_trees: Vec<CommitId> = repo.commits_from(a.id).iter().map(|c| c.tree_id).collect();
    assert_eq!(a_trees, vec![cid(103), cid(102), cid(110), cid(101)]);
    let b_trees: Vec<CommitId> = repo.commits_from(b.id).iter().map(|c| c.tree_id).collect();
    assert_eq!(
        b_trees,
        vec![cid(105), cid(104), cid(103), cid(102), cid(110), cid(101)],
    );
    assert!(repo.is_ancestor_of(a.id, b.id));
}

/// A commit whose tree already landed between the base and the onto
/// branch is dropped from the rebased stack.
#[test]
fn landed_commit_is_dropped() {
    let mut repo = repo_of(
        vec![
            commit(1, 101, &[], "init"),
            commit(2, 200, &[1], "landed work"),
            commit(3, 103, &[2], "new work"),
            commit(10, 200, &[1], "landed upstream"),
        ],
        vec![branch("trunk", 1), branch("main", 10), branch("feature", 3)],
        3,
        Some("feature"),
    );
    let (_commands, exec) = run_plan(&mut repo, &["trunk", "main"], "trunk", "main");
    assert!(exec.failures().is_empty());
    let feature = repo.find_local_branch(&"feature".to_string()).unwrap();
    let trees: Vec<CommitId> = repo.commits_from(feature.id).iter().map(|c| c.tree_id).collect();
    assert_eq!(trees, vec![cid(103), cid(200), cid(101)]);
}

/// A fixup commit squashes into its target, and the squashed commit keeps
/// the fixup's tree.
#[test]
fn fixup_squashes_into_target() {
    let mut repo = repo_of(
        vec![
            commit(1, 101, &[], "init"),
            commit(2, 102, &[1], "add x"),
            commit(3, 103, &[2], "fixup! add x"),
        ],
        vec![branch("main", 1), branch("feature", 3)],
        3,
        Some("feature"),
    );
    let (_commands, exec) = run_plan(&mut repo, &["main"], "main", "main");
    assert!(exec.failures().is_empty());
    let feature = repo.find_local_branch(&"feature".to_string()).unwrap();
    let chain = repo.commits_from(feature.id);
    let trees: Vec<CommitId> = chain.iter().map(|c| c.tree_id).collect();
    assert_eq!(trees, vec![cid(103), cid(101)]);
    assert_eq!(chain[0].summary, b"add x".to_vec());
}

/// Planning right after a successful run emits no commands.
#[test]
fn second_plan_is_empty() {
    let mut repo = repo_of(
        vec![
            commit(1, 101, &[], "init"),
            commit(2, 102, &[1], "one"),
            commit(3, 103, &[2], "two"),
            commit(10, 110, &[1], "pulled"),
        ],
        vec![branch("main", 10), branch("feature", 3)],
        3,
        Some("feature"),
    );
    let (first, _) = run_plan(&mut repo, &["main"], "main", "main");
    assert!(!first.is_empty());
    let (second, exec) = run_plan(&mut repo, &["main"], "main", "main");
    assert!(second.is_empty());
    assert!(!exec.is_dirty());
}

/// Graph construction is deterministic: two runs on the same snapshot
/// build equal scripts.
#[test]
fn planning_twice_gives_equal_scripts() {
    let repo = repo_of(
        vec![
            commit(1, 101, &[], "init"),
            commit(2, 102, &[1], "one"),
            commit(3, 103, &[2], "two"),
            commit(10, 110, &[1], "pulled"),
        ],
        vec![branch("main", 10), branch("feature", 3)],
        3,
        Some("feature"),
    );
    let protected = protected_index(&repo, &["main"]);
    let head = repo.find_commit(repo.head_id()).unwrap();
    let base = repo.find_local_branch(&"main".to_string()).unwrap();
    let onto = repo.find_local_branch(&"main".to_string()).unwrap();
    let s1 = plan_rebase(
        &repo,
        &head,
        &protected,
        &StackState {
            base: base.clone(),
            onto: onto.clone(),
            branches: Branches::new(repo.local_branches()),
        },
    )
    .unwrap();
    let s2 = plan_rebase(
        &repo,
        &head,
        &protected,
        &StackState { base, onto, branches: Branches::new(repo.local_branches()) },
    )
    .unwrap();
    assert_eq!(format!("{:?}", s1.commands), format!("{:?}", s2.commands));
}

/// Branch conservation: every branch of the input is still on a node
/// after protection and rebase annotation.
#[test]
fn passes_conserve_branches() {
    let repo = repo_of(
        vec![
            commit(1, 101, &[], "init"),
            commit(2, 102, &[1], "one"),
            commit(3, 103, &[2], "two"),
            commit(10, 110, &[1], "pulled"),
        ],
        vec![branch("main", 10), branch("feature", 3)],
        3,
        Some("feature"),
    );
    let protected = protected_index(&repo, &["main"]);
    let head = repo.find_commit(repo.head_id()).unwrap();
    let mut pool = Branches::new(repo.local_branches());
    let root = Node::new(head, &mut pool);
    let g = root.extend_branches(&repo, pool).unwrap();
    let g = git_stack::annotate::protect_branches(g, &protected);
    let g = git_stack::annotate::rebase_branches(g, cid(10)).unwrap();
    fn collect_names(n: &Node, out: &mut Vec<String>) {
        for b in n.branches.iter() {
            out.push(b.name.clone());
        }
        for c in n.children.iter() {
            collect_names(c, out);
        }
    }
    let mut names = Vec::new();
    collect_names(&g, &mut names);
    names.sort();
    assert_eq!(names, vec!["feature".to_string(), "main".to_string()]);
}

/// Ancestry preservation: with one branch an ancestor of the other, the
/// node carrying the first is an ancestor of the node carrying the second.
#[test]
fn graph_keeps_branch_ancestry() {
    let repo = repo_of(
        vec![
            commit(1, 101, &[], "init"),
            commit(2, 102, &[1], "one"),
            commit(3, 103, &[2], "two"),
        ],
        vec![branch("inner", 2), branch("outer", 3)],
        3,
        Some("outer"),
    );
    let all = Branches::new(repo.local_branches());
    let g = Node::from_branches(&repo, all).unwrap();
    fn find_path<'a>(n: &'a Node, id: CommitId, path: &mut Vec<CommitId>) -> bool {
        path.push(n.local_commit.id);
        if n.local_commit.id == id {
            return true;
        }
        for c in n.children.iter() {
            if find_path(c, id, path) {
                return true;
            }
        }
        path.pop();
        false
    }
    let mut path_to_outer = Vec::new();
    assert!(find_path(&g, cid(3), &mut path_to_outer));
    assert!(path_to_outer.contains(&cid(2)));
    assert_eq!(g.local_commit.id, cid(2));
    assert_eq!(g.action, Action::Pick);
}

/// Graph construction fails on an empty index and on disjoint histories.
#[test]
fn construction_error_cases() {
    let repo = repo_of(
        vec![commit(1, 101, &[], "init"), commit(7, 107, &[], "island")],
        vec![branch("main", 1), branch("alone", 7)],
        1,
        Some("main"),
    );
    let empty = Branches::new(Vec::new());
    assert_eq!(
        Node::from_branches(&repo, empty).unwrap_err(),
        git_stack::error::Error::Usage,
    );
    let all = Branches::new(repo.local_branches());
    assert_eq!(
        Node::from_branches(&repo, all).unwrap_err(),
        git_stack::error::Error::NotFound,
    );
}
