//! Tests for the matcher, the repository model, the executor discipline,
//! the backup ring and the orchestrator state.

use git_stack::backup::{BackupEntry, BackupStack};
use git_stack::branches::Branches;
use git_stack::error::Error;
use git_stack::executor::Executor;
use git_stack::ids::CommitId;
use git_stack::protect::ProtectedBranches;
use git_stack::repo::{Branch, Commit, Repo};
use git_stack::script::{Command, Script};
use git_stack::state::{
    ensure_clean, pull_decision, Config, Format, Options, PullDecision, StackChoice, State,
};

fn cid(n: u32) -> CommitId {
    CommitId::from_number(n)
}

fn commit(id: u32, tree: u32, parents: &[u32], summary: &str) -> Commit {
    Commit {
        id: cid(id),
        tree_id: cid(tree),
        parent_ids: parents.iter().map(|p| cid(*p)).collect(),
        summary: summary.as_bytes().to_vec(),
    }
}

fn branch(name: &str, id: u32) -> Branch {
    Branch { name: name.to_string(), id: cid(id), push_id: None, pull_id: None }
}

fn plain_repo(dirty: bool) -> Repo {
    Repo::new(
        vec![
            commit(1, 101, &[], "init"),
            commit(2, 102, &[1], "one"),
            commit(3, 103, &[2], "two"),
        ],
        vec![branch("main", 1), branch("feature", 3)],
        cid(3),
        Some("feature".to_string()),
        dirty,
        "origin".to_string(),
        "origin".to_string(),
    )
    .unwrap()
}

fn matcher(patterns: &[&str]) -> ProtectedBranches {
    let pats: Vec<String> = patterns.iter().map(|s| s.to_string()).collect();
    ProtectedBranches::new(&pats).unwrap()
}

#[test]
fn matcher_literals_and_wildcards() {
    let m = matcher(&["main", "release/*"]);
    assert!(m.matches(&"main".to_string()));
    assert!(!m.matches(&"maintenance".to_string()));
    assert!(m.matches(&"release/one".to_string()));
    assert!(!m.matches(&"release/one/two".to_string()));
    assert!(!m.matches(&"feature".to_string()));
}

#[test]
fn matcher_double_star_spans_separators() {
    let m = matcher(&["release/**"]);
    assert!(m.matches(&"release/one".to_string()));
    assert!(m.matches(&"release/one/two".to_string()));
    assert!(!m.matches(&"main".to_string()));
}

#[test]
fn matcher_question_mark_single_character() {
    let m = matcher(&["v?"]);
    assert!(m.matches(&"v1".to_string()));
    assert!(!m.matches(&"v12".to_string()));
    assert!(!m.matches(&"v/".to_string()));
}

#[test]
fn matcher_negation_last_match_wins() {
    let m = matcher(&["release/*", "!release/wip"]);
    assert!(m.matches(&"release/one".to_string()));
    assert!(!m.matches(&"release/wip".to_string()));
}

#[test]
fn matcher_rejects_triple_star() {
    let pats = vec!["a***b".to_string()];
    assert_eq!(ProtectedBranches::new(&pats).unwrap_err(), Error::Config);
}

#[test]
fn snapshot_validation_rejects_bad_topology() {
    let out_of_order = Repo::new(
        vec![commit(2, 102, &[1], "child first"), commit(1, 101, &[], "parent")],
        Vec::new(),
        cid(2),
        None,
        false,
        "origin".to_string(),
        "origin".to_string(),
    );
    assert_eq!(out_of_order.unwrap_err(), Error::Protocol);
    let bad_head = Repo::new(
        vec![commit(1, 101, &[], "init")],
        Vec::new(),
        cid(9),
        None,
        false,
        "origin".to_string(),
        "origin".to_string(),
    );
    assert_eq!(bad_head.unwrap_err(), Error::Protocol);
}

#[test]
fn merge_base_and_ancestry() {
    let repo = Repo::new(
        vec![
            commit(1, 101, &[], "init"),
            commit(2, 102, &[1], "one"),
            commit(3, 103, &[1], "side"),
        ],
        vec![branch("a", 2), branch("b", 3)],
        cid(2),
        Some("a".to_string()),
        false,
        "origin".to_string(),
        "origin".to_string(),
    )
    .unwrap();
    assert_eq!(repo.merge_base(cid(2), cid(3)), Some(cid(1)));
    assert!(repo.is_ancestor_of(cid(1), cid(2)));
    assert!(!repo.is_ancestor_of(cid(3), cid(2)));
}

#[test]
fn pull_decision_cases() {
    let repo = Repo::new(
        vec![
            commit(1, 101, &[], "init"),
            commit(2, 102, &[1], "local"),
            commit(3, 103, &[1], "remote"),
            commit(9, 109, &[], "island"),
        ],
        vec![branch("main", 2)],
        cid(2),
        Some("main".to_string()),
        false,
        "origin".to_string(),
        "origin".to_string(),
    )
    .unwrap();
    assert_eq!(pull_decision(&repo, cid(2), cid(1)).unwrap(), PullDecision::UpToDate);
    assert_eq!(pull_decision(&repo, cid(2), cid(3)).unwrap(), PullDecision::Rebase(cid(1)));
    assert_eq!(pull_decision(&repo, cid(2), cid(9)).unwrap_err(), Error::NotFound);
}

#[test]
fn dirty_tree_aborts_before_any_change() {
    let repo = plain_repo(true);
    assert_eq!(ensure_clean(&repo).unwrap_err(), Error::Usage);
    assert_eq!(Error::Usage.exit_code(), 2);
    let clean = plain_repo(false);
    assert!(ensure_clean(&clean).is_ok());
}

#[test]
fn error_exit_codes() {
    assert_eq!(Error::Usage.exit_code(), 2);
    assert_eq!(Error::Config.exit_code(), 2);
    assert_eq!(Error::NotFound.exit_code(), 1);
    assert_eq!(Error::Conflict.exit_code(), 1);
    assert_eq!(Error::Network.exit_code(), 1);
}

#[test]
fn dry_run_changes_nothing() {
    let mut repo = plain_repo(false);
    let script = Script {
        commands: vec![
            Command::RegisterBranch("feature".to_string()),
            Command::SwitchCommit(cid(1)),
            Command::CherryPick(cid(2)),
            Command::CherryPick(cid(3)),
            Command::CreateBranch("feature".to_string(), cid(3)),
        ],
    };
    let before_branches: Vec<(String, CommitId)> =
        repo.local_branches().iter().map(|b| (b.name.clone(), b.id)).collect();
    let before_head = repo.head_id();
    let mut exec = Executor::new(&repo, true);
    exec.run_script(&mut repo, &script);
    assert!(!exec.is_dirty());
    let after_branches: Vec<(String, CommitId)> =
        repo.local_branches().iter().map(|b| (b.name.clone(), b.id)).collect();
    assert_eq!(before_branches, after_branches);
    assert_eq!(before_head, repo.head_id());
}

#[test]
fn failed_pick_blocks_dependents() {
    let mut repo = Repo::new(
        vec![
            commit(1, 101, &[], "init"),
            commit(2, 102, &[1], "side a"),
            commit(3, 103, &[1], "side b"),
            commit(4, 104, &[2, 3], "merge"),
            commit(5, 105, &[4], "on top"),
        ],
        vec![branch("main", 1), branch("merged", 4), branch("tip", 5)],
        cid(1),
        Some("main".to_string()),
        false,
        "origin".to_string(),
        "origin".to_string(),
    )
    .unwrap();
    // Cherry-picking a merge commit cannot be linearized: `merged` fails
    // and `tip`, whose work sits on it, is blocked.
    let script = Script {
        commands: vec![
            Command::RegisterBranch("merged".to_string()),
            Command::SwitchCommit(cid(1)),
            Command::CherryPick(cid(4)),
            Command::CreateBranch("merged".to_string(), cid(4)),
            Command::RegisterBranch("tip".to_string()),
            Command::SwitchCommit(cid(4)),
            Command::CherryPick(cid(5)),
            Command::CreateBranch("tip".to_string(), cid(5)),
        ],
    };
    let mut exec = Executor::new(&repo, false);
    exec.run_script(&mut repo, &script);
    assert_eq!(exec.failures().clone(), vec!["merged".to_string()]);
    assert_eq!(exec.blocked().clone(), vec!["tip".to_string()]);
}

#[test]
fn backup_round_trip_and_ring() {
    let repo = plain_repo(false);
    let entry = BackupEntry::from_repo(&repo);
    let pairs = entry.entries().clone();
    assert_eq!(
        pairs,
        vec![("main".to_string(), cid(1)), ("feature".to_string(), cid(3))],
    );
    let mut ring = BackupStack::new("branch-stash".to_string());
    ring.capacity(Some(2));
    ring.push(BackupEntry::from_repo(&repo));
    ring.push(BackupEntry::from_repo(&repo));
    ring.push(BackupEntry::from_repo(&repo));
    assert_eq!(ring.len(), 2);
    let back = ring.pop().unwrap();
    assert_eq!(back.entries().clone(), pairs);
    assert_eq!(ring.len(), 1);
}

fn default_config(patterns: &[&str]) -> Config {
    Config {
        protected_branches: patterns.iter().map(|s| s.to_string()).collect(),
        stack: StackChoice::Current,
        push_remote: "origin".to_string(),
        pull_remote: "origin".to_string(),
        format: Format::Brief,
        show_stacked: true,
        capacity: Some(5),
    }
}

fn default_options() -> Options {
    Options { rebase: true, pull: false, push: false, dry_run: false, base: None, onto: None }
}

#[test]
fn state_resolves_implicit_base_and_stack() {
    let repo = plain_repo(false);
    let st = State::new(&repo, &default_options(), &default_config(&["main"])).unwrap();
    assert!(st.rebase);
    assert_eq!(st.stacks.len(), 1);
    assert_eq!(st.stacks[0].base.name, "main");
    assert_eq!(st.stacks[0].onto.name, "main");
    assert_eq!(st.stacks[0].branches.len(), 2);
    assert_eq!(st.head_commit.id, cid(3));
}

#[test]
fn state_groups_all_stacks_by_implicit_base() {
    let repo = Repo::new(
        vec![
            commit(1, 101, &[], "init"),
            commit(2, 102, &[1], "one"),
            commit(5, 105, &[1], "elsewhere"),
            commit(6, 106, &[5], "other work"),
        ],
        vec![
            branch("main", 1),
            branch("feature", 2),
            branch("release", 5),
            branch("hotfix", 6),
        ],
        cid(2),
        Some("feature".to_string()),
        false,
        "origin".to_string(),
        "origin".to_string(),
    )
    .unwrap();
    let mut config = default_config(&["main", "release"]);
    config.stack = StackChoice::All;
    let st = State::new(&repo, &default_options(), &config).unwrap();
    let mut bases: Vec<String> = st.stacks.iter().map(|s| s.base.name.clone()).collect();
    bases.sort();
    assert_eq!(bases, vec!["main".to_string(), "release".to_string()]);
}

#[test]
fn state_reports_usage_errors() {
    let repo = plain_repo(false);
    let mut opts = default_options();
    opts.base = Some("missing".to_string());
    assert_eq!(
        State::new(&repo, &opts, &default_config(&["main"])).unwrap_err(),
        Error::Usage,
    );
    let bad = Config {
        protected_branches: vec!["a***".to_string()],
        ..default_config(&["main"])
    };
    assert_eq!(
        State::new(&repo, &default_options(), &bad).unwrap_err(),
        Error::Config,
    );
}

#[test]
fn commit_relation_counts_divergence() {
    let repo = Repo::new(
        vec![
            commit(1, 101, &[], "init"),
            commit(2, 102, &[1], "local one"),
            commit(3, 103, &[2], "local two"),
            commit(4, 104, &[1], "remote one"),
        ],
        vec![branch("main", 3)],
        cid(3),
        Some("main".to_string()),
        false,
        "origin".to_string(),
        "origin".to_string(),
    )
    .unwrap();
    assert_eq!(git_stack::state::commit_relation(&repo, cid(3), Some(cid(4))), Some((2, 1)));
    assert_eq!(git_stack::state::commit_relation(&repo, cid(3), None), None);
}

#[test]
fn push_plan_respects_pushable_and_order() {
    let repo = Repo::new(
        vec![
            commit(1, 101, &[], "init"),
            commit(2, 102, &[1], "one"),
            commit(3, 103, &[2], "WIP two"),
        ],
        vec![branch("main", 1), branch("inner", 2), branch("outer", 3)],
        cid(3),
        Some("outer".to_string()),
        false,
        "origin".to_string(),
        "origin".to_string(),
    )
    .unwrap();
    let pats = vec!["main".to_string()];
    let m = ProtectedBranches::new(&pats).unwrap();
    let all = Branches::new(repo.local_branches());
    let protected = all.protected(&m);
    let mut pool = Branches::new(repo.local_branches());
    let head = repo.find_commit(repo.head_id()).unwrap();
    let root = git_stack::graph::Node::new(head, &mut pool);
    let g = root.extend_branches(&repo, pool).unwrap();
    let g = git_stack::annotate::protect_branches(g, &protected);
    let g = git_stack::annotate::pushable(g);
    let plan = git_stack::state::push_plan(&g);
    let names: Vec<String> = plan.iter().map(|p| p.name.clone()).collect();
    // `outer` carries a WIP summary, `main` is protected: only `inner` is
    // safe to publish.
    assert_eq!(names, vec!["inner".to_string()]);
    assert!(git_stack::state::should_push(&plan[0], &Vec::new()));
}

#[test]
fn drop_plan_prunes_absorbed_branches() {
    let repo = plain_repo(false);
    let all = Branches::new(repo.local_branches());
    let pats = vec!["main".to_string()];
    let m = ProtectedBranches::new(&pats).unwrap();
    let protected = all.protected(&m);
    let ops = git_stack::state::plan_drop_branches(
        &all,
        &protected,
        &vec![cid(3)],
        &"main".to_string(),
        &Some("feature".to_string()),
    );
    let shown: Vec<String> = ops
        .iter()
        .map(|o| match o {
            git_stack::state::DropOp::Switch(n) => format!("switch {}", n),
            git_stack::state::DropOp::Delete(n) => format!("delete {}", n),
        })
        .collect();
    assert_eq!(shown, vec!["switch main".to_string(), "delete feature".to_string()]);
}
