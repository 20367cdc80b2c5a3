use std::collections::BTreeMap;

use skillctl::config::HashAlgo;
use skillctl::digest::{digest_entries, EntryKind, TreeEntry};
use skillctl::error::AppError;
use skillctl::snapshot::RootSnapshot;
use skillctl::status::{skills_from_entries, status_for_target, ScanEntry, State};
use skillctl::sync::{
    op_action, plan_actions, plan_import, plan_push, summarize_plan, FsAction, Plan, PlanKind,
    PlanOp, Selection,
};

type Tree = Vec<TreeEntry>;
type Roots = BTreeMap<String, BTreeMap<String, Tree>>;

const ALGO: HashAlgo = HashAlgo::Blake3;

fn tree(files: &[(&str, &str)]) -> Tree {
    files
        .iter()
        .map(|(path, data)| TreeEntry {
            kind: EntryKind::File,
            parts: path.split('/').map(|p| p.to_string()).collect(),
            data: data.as_bytes().to_vec(),
        })
        .collect()
}

fn skills(entries: &[(&str, &[(&str, &str)])]) -> BTreeMap<String, Tree> {
    entries.iter().map(|(name, files)| (name.to_string(), tree(files))).collect()
}

fn snapshot(root: &str, trees: &BTreeMap<String, Tree>) -> RootSnapshot {
    let mut snap = RootSnapshot::new(root.to_string());
    for (skill, t) in trees {
        let digest = digest_entries(t, ALGO, None).unwrap();
        snap.push_skill(skill.clone(), Some(digest));
    }
    snap
}

fn split_path(path: &str) -> (String, String) {
    let i = path.rfind('/').unwrap();
    (path[..i].to_string(), path[i + 1..].to_string())
}

fn apply_actions(actions: &[FsAction], roots: &mut Roots) {
    for action in actions {
        match action {
            FsAction::Replace { src, dest } => {
                let (sroot, sskill) = split_path(src);
                let (droot, dskill) = split_path(dest);
                let copied = roots[&sroot][&sskill].clone();
                roots.get_mut(&droot).unwrap().insert(dskill, copied);
            }
            FsAction::Remove { dest } => {
                let (droot, dskill) = split_path(dest);
                roots.get_mut(&droot).unwrap().remove(&dskill);
            }
        }
    }
}

fn digests(trees: &BTreeMap<String, Tree>) -> BTreeMap<String, String> {
    trees
        .iter()
        .map(|(k, t)| (k.clone(), digest_entries(t, ALGO, None).unwrap()))
        .collect()
}

fn op_for<'a>(plan: &'a Plan, skill: &str) -> &'a PlanOp {
    plan.ops.iter().find(|op| op.skill == skill).unwrap()
}

#[test]
fn status_end_to_end() {
    let global = skills(&[
        ("skill_same", &[("file.txt", "same")]),
        ("skill_diff", &[("file.txt", "g")]),
        ("skill_missing", &[("file.txt", "m")]),
    ]);
    let target = skills(&[
        ("skill_same", &[("file.txt", "same")]),
        ("skill_diff", &[("file.txt", "t")]),
        ("skill_extra", &[("file.txt", "e")]),
    ]);
    let rows = status_for_target(&snapshot("g", &global), &snapshot("t", &target));

    let lookup: BTreeMap<String, State> =
        rows.into_iter().map(|row| (row.skill, row.state)).collect();
    assert_eq!(lookup["skill_same"], State::Same);
    assert_eq!(lookup["skill_diff"], State::Diff);
    assert_eq!(lookup["skill_missing"], State::Missing);
    assert_eq!(lookup["skill_extra"], State::Extra);
}

#[test]
fn status_rows_come_out_sorted() {
    let global = skills(&[("b", &[("f", "1")]), ("d", &[("f", "2")])]);
    let target = skills(&[("a", &[("f", "3")]), ("c", &[("f", "4")])]);
    let rows = status_for_target(&snapshot("g", &global), &snapshot("t", &target));
    let names: Vec<String> = rows.into_iter().map(|r| r.skill).collect();
    assert_eq!(names, vec!["a", "b", "c", "d"]);
}

#[test]
fn push_dry_run_is_immutable() {
    let global = skills(&[
        ("skill_missing", &[("file.txt", "m")]),
        ("skill_diff", &[("file.txt", "g")]),
    ]);
    let mut target = skills(&[("skill_diff", &[("file.txt", "t")])]);

    let plan =
        plan_push(&snapshot("g", &global), &snapshot("t", &target), Selection::All, false)
            .unwrap();
    let before = digests(&target);
    let actions = plan_actions(&plan, true).unwrap();
    assert!(actions.is_empty());
    let mut roots: Roots = BTreeMap::new();
    roots.insert("g".to_string(), global);
    roots.insert("t".to_string(), std::mem::take(&mut target));
    apply_actions(&actions, &mut roots);
    assert_eq!(digests(&roots["t"]), before);
}

#[test]
fn push_execute_converges() {
    let global = skills(&[
        ("skill_missing", &[("file.txt", "m")]),
        ("skill_diff", &[("file.txt", "g")]),
    ]);
    let target = skills(&[("skill_diff", &[("file.txt", "t")])]);

    let plan =
        plan_push(&snapshot("g", &global), &snapshot("t", &target), Selection::All, false)
            .unwrap();
    let actions = plan_actions(&plan, false).unwrap();
    let mut roots: Roots = BTreeMap::new();
    roots.insert("g".to_string(), global);
    roots.insert("t".to_string(), target);
    apply_actions(&actions, &mut roots);

    let rows = status_for_target(&snapshot("g", &roots["g"]), &snapshot("t", &roots["t"]));
    let lookup: BTreeMap<String, State> =
        rows.into_iter().map(|row| (row.skill, row.state)).collect();
    assert_eq!(lookup["skill_missing"], State::Same);
    assert_eq!(lookup["skill_diff"], State::Same);
}

#[test]
fn push_replan_is_all_skips() {
    let global = skills(&[
        ("skill_missing", &[("file.txt", "m")]),
        ("skill_diff", &[("file.txt", "g")]),
        ("skill_same", &[("file.txt", "s")]),
    ]);
    let target = skills(&[
        ("skill_diff", &[("file.txt", "t")]),
        ("skill_same", &[("file.txt", "s")]),
        ("skill_extra", &[("file.txt", "e")]),
    ]);

    let plan =
        plan_push(&snapshot("g", &global), &snapshot("t", &target), Selection::All, false)
            .unwrap();
    let actions = plan_actions(&plan, false).unwrap();
    let mut roots: Roots = BTreeMap::new();
    roots.insert("g".to_string(), global);
    roots.insert("t".to_string(), target);
    apply_actions(&actions, &mut roots);

    let replan =
        plan_push(&snapshot("g", &roots["g"]), &snapshot("t", &roots["t"]), Selection::All, false)
            .unwrap();
    assert!(!replan.ops.is_empty());
    assert!(replan.ops.iter().all(|op| op.kind == PlanKind::Skip));
    assert!(plan_actions(&replan, false).unwrap().is_empty());
}

#[test]
fn import_execute_add_only() {
    let global = skills(&[("skill_keep", &[("file.txt", "global")])]);
    let target = skills(&[
        ("skill_keep", &[("file.txt", "target")]),
        ("skill_extra", &[("file.txt", "e")]),
    ]);
    let before = digest_entries(&global["skill_keep"], ALGO, None).unwrap();

    let plan =
        plan_import(&snapshot("g", &global), &snapshot("t", &target), Selection::All, false)
            .unwrap();
    let actions = plan_actions(&plan, false).unwrap();
    let mut roots: Roots = BTreeMap::new();
    roots.insert("g".to_string(), global);
    roots.insert("t".to_string(), target);
    apply_actions(&actions, &mut roots);

    let after = digest_entries(&roots["g"]["skill_keep"], ALGO, None).unwrap();
    assert_eq!(before, after);
    assert!(roots["g"].contains_key("skill_extra"));
}

#[test]
fn push_prune_removes_extra() {
    let global = skills(&[("skill_keep", &[("file.txt", "keep")])]);
    let target = skills(&[
        ("skill_keep", &[("file.txt", "keep")]),
        ("skill_extra", &[("file.txt", "extra")]),
    ]);

    let plan =
        plan_push(&snapshot("g", &global), &snapshot("t", &target), Selection::All, true)
            .unwrap();
    let actions = plan_actions(&plan, false).unwrap();
    let mut roots: Roots = BTreeMap::new();
    roots.insert("g".to_string(), global);
    roots.insert("t".to_string(), target);
    apply_actions(&actions, &mut roots);

    assert!(!roots["t"].contains_key("skill_extra"));
    assert!(roots["t"].contains_key("skill_keep"));
}

#[test]
fn import_overwrite_replaces() {
    let global = skills(&[("skill_keep", &[("file.txt", "global")])]);
    let target = skills(&[("skill_keep", &[("file.txt", "target")])]);

    let plan =
        plan_import(&snapshot("g", &global), &snapshot("t", &target), Selection::All, true)
            .unwrap();
    let actions = plan_actions(&plan, false).unwrap();
    let mut roots: Roots = BTreeMap::new();
    roots.insert("g".to_string(), global);
    roots.insert("t".to_string(), target);
    apply_actions(&actions, &mut roots);

    let g = digest_entries(&roots["g"]["skill_keep"], ALGO, None).unwrap();
    let t = digest_entries(&roots["t"]["skill_keep"], ALGO, None).unwrap();
    assert_eq!(g, t);
}

#[test]
fn import_dry_run_is_immutable() {
    let global = skills(&[("skill_keep", &[("file.txt", "global")])]);
    let target = skills(&[
        ("skill_keep", &[("file.txt", "target")]),
        ("skill_extra", &[("file.txt", "extra")]),
    ]);
    let before = digests(&global);

    let plan =
        plan_import(&snapshot("g", &global), &snapshot("t", &target), Selection::All, false)
            .unwrap();
    let actions = plan_actions(&plan, true).unwrap();
    assert!(actions.is_empty());
    let mut roots: Roots = BTreeMap::new();
    roots.insert("g".to_string(), global);
    roots.insert("t".to_string(), target);
    apply_actions(&actions, &mut roots);
    assert_eq!(digests(&roots["g"]), before);
}

#[test]
fn prune_scenario_yields_exactly_one_prune() {
    let global = skills(&[]);
    let target = skills(&[("skill_extra", &[("file.txt", "e")])]);

    let plan =
        plan_push(&snapshot("g", &global), &snapshot("t", &target), Selection::All, true)
            .unwrap();
    assert_eq!(plan.ops.len(), 1);
    assert_eq!(plan.ops[0].kind, PlanKind::Prune);
    assert_eq!(plan.ops[0].skill, "skill_extra");
    assert_eq!(plan.ops[0].dest.as_deref(), Some("t/skill_extra"));

    let actions = plan_actions(&plan, false).unwrap();
    let mut roots: Roots = BTreeMap::new();
    roots.insert("g".to_string(), global);
    roots.insert("t".to_string(), target);
    apply_actions(&actions, &mut roots);
    assert!(!roots["t"].contains_key("skill_extra"));
    assert!(roots["t"].is_empty());
}

#[test]
fn install_update_scenario() {
    let global = skills(&[
        ("skill_missing", &[("file.txt", "m")]),
        ("skill_diff", &[("file.txt", "g")]),
    ]);
    let target = skills(&[("skill_diff", &[("file.txt", "t")])]);

    let plan =
        plan_push(&snapshot("g", &global), &snapshot("t", &target), Selection::All, false)
            .unwrap();
    assert_eq!(plan.ops.len(), 2);
    assert_eq!(op_for(&plan, "skill_missing").kind, PlanKind::Install);
    assert_eq!(op_for(&plan, "skill_diff").kind, PlanKind::Update);
    assert_eq!(op_for(&plan, "skill_missing").src.as_deref(), Some("g/skill_missing"));
    assert_eq!(op_for(&plan, "skill_missing").dest.as_deref(), Some("t/skill_missing"));

    let actions = plan_actions(&plan, false).unwrap();
    let mut roots: Roots = BTreeMap::new();
    roots.insert("g".to_string(), global);
    roots.insert("t".to_string(), target);
    apply_actions(&actions, &mut roots);
    assert_eq!(digests(&roots["g"]), digests(&roots["t"]));
}

#[test]
fn import_without_overwrite_keeps_divergence() {
    let global = skills(&[("skill_keep", &[("file.txt", "global")])]);
    let target = skills(&[("skill_keep", &[("file.txt", "target")])]);
    let before = digests(&global);

    let plan =
        plan_import(&snapshot("g", &global), &snapshot("t", &target), Selection::All, false)
            .unwrap();
    assert_eq!(plan.ops.len(), 1);
    assert_eq!(plan.ops[0].kind, PlanKind::Skip);
    assert_eq!(plan.ops[0].note.as_deref(), Some("diff"));

    let actions = plan_actions(&plan, false).unwrap();
    assert!(actions.is_empty());
    let mut roots: Roots = BTreeMap::new();
    roots.insert("g".to_string(), global);
    roots.insert("t".to_string(), target);
    apply_actions(&actions, &mut roots);
    assert_eq!(digests(&roots["g"]), before);
}

#[test]
fn push_without_prune_skips_extras() {
    let global = skills(&[("skill_keep", &[("file.txt", "k")])]);
    let target = skills(&[
        ("skill_extra", &[("file.txt", "e")]),
        ("skill_keep", &[("file.txt", "k")]),
    ]);

    let plan =
        plan_push(&snapshot("g", &global), &snapshot("t", &target), Selection::All, false)
            .unwrap();
    assert_eq!(plan.ops.len(), 2);
    let extra = op_for(&plan, "skill_extra");
    assert_eq!(extra.kind, PlanKind::Skip);
    assert_eq!(extra.note.as_deref(), Some("extra"));
    assert_eq!(op_for(&plan, "skill_keep").kind, PlanKind::Skip);
    assert!(op_for(&plan, "skill_keep").note.is_none());
    assert!(plan_actions(&plan, false).unwrap().is_empty());
}

#[test]
fn plan_ops_are_sorted_by_skill() {
    let global = skills(&[
        ("zeta", &[("f", "1")]),
        ("alpha", &[("f", "2")]),
        ("mid", &[("f", "3")]),
    ]);
    let target = skills(&[("beta", &[("f", "4")])]);

    let plan = plan_push(&snapshot("g", &global), &snapshot("t", &target), Selection::All, true)
        .unwrap();
    let names: Vec<&str> = plan.ops.iter().map(|op| op.skill.as_str()).collect();
    assert_eq!(names, vec!["alpha", "beta", "mid", "zeta"]);
}

#[test]
fn plan_push_one_rejects_invalid_id() {
    let global = skills(&[("a", &[("f", "1")])]);
    let target = skills(&[]);
    let err = plan_push(
        &snapshot("g", &global),
        &snapshot("t", &target),
        Selection::One("../bad"),
        false,
    )
    .unwrap_err();
    assert!(matches!(err, AppError::Config { .. }));
}

#[test]
fn plan_push_one_rejects_absent_skill() {
    let global = skills(&[("a", &[("f", "1")])]);
    let target = skills(&[]);
    let err = plan_push(
        &snapshot("g", &global),
        &snapshot("t", &target),
        Selection::One("missing"),
        false,
    )
    .unwrap_err();
    assert!(matches!(err, AppError::Exec { .. }));
}

#[test]
fn plan_push_one_prunes_target_only_skill() {
    let global = skills(&[]);
    let target = skills(&[("stale", &[("f", "1")])]);
    let plan = plan_push(
        &snapshot("g", &global),
        &snapshot("t", &target),
        Selection::One("stale"),
        true,
    )
    .unwrap();
    assert_eq!(plan.ops.len(), 1);
    assert_eq!(plan.ops[0].kind, PlanKind::Prune);
}

#[test]
fn plan_import_one_rejects_absent_skill() {
    let global = skills(&[("only_global", &[("f", "1")])]);
    let target = skills(&[]);
    let err = plan_import(
        &snapshot("g", &global),
        &snapshot("t", &target),
        Selection::One("only_global"),
        false,
    )
    .unwrap_err();
    assert!(matches!(err, AppError::Exec { .. }));
}

#[test]
fn summarize_plan_renders_lines() {
    let global = skills(&[("skill_new", &[("f", "x")])]);
    let target = skills(&[("skill_old", &[("f", "y")])]);
    let plan =
        plan_push(&snapshot("g", &global), &snapshot("t", &target), Selection::All, false)
            .unwrap();
    assert_eq!(
        summarize_plan(&plan),
        vec!["install skill_new", "skip skill_old (extra)"]
    );

    let imported =
        plan_import(&snapshot("g", &global), &snapshot("t", &target), Selection::All, false)
            .unwrap();
    assert_eq!(summarize_plan(&imported), vec!["install skill_old"]);
}

#[test]
fn import_skip_diff_line_is_rendered() {
    let global = skills(&[("skill_keep", &[("f", "a")])]);
    let target = skills(&[("skill_keep", &[("f", "b")])]);
    let plan =
        plan_import(&snapshot("g", &global), &snapshot("t", &target), Selection::All, false)
            .unwrap();
    assert_eq!(summarize_plan(&plan), vec!["skip skill_keep (diff)"]);
}

#[test]
fn op_action_rejects_missing_source() {
    let op = PlanOp {
        kind: PlanKind::Install,
        skill: "broken".to_string(),
        src: None,
        dest: Some("t/broken".to_string()),
        note: None,
    };
    let err = op_action(&op, false).unwrap_err();
    assert!(matches!(err, AppError::Exec { .. }));
    let err_dry = op_action(&op, true).unwrap_err();
    assert!(matches!(err_dry, AppError::Exec { .. }));
}

#[test]
fn op_action_skip_does_nothing() {
    let op = PlanOp {
        kind: PlanKind::Skip,
        skill: "quiet".to_string(),
        src: None,
        dest: None,
        note: None,
    };
    assert!(op_action(&op, false).unwrap().is_none());
}

#[test]
fn state_labels_match_table_words() {
    assert_eq!(State::Missing.label(), "missing");
    assert_eq!(State::Same.label(), "same");
    assert_eq!(State::Diff.label(), "diff");
    assert_eq!(State::Extra.label(), "extra");
}

#[test]
fn list_skills_errors_on_symlink() {
    let entries = vec![
        ScanEntry { name: "real".to_string(), kind: EntryKind::Dir },
        ScanEntry { name: "link".to_string(), kind: EntryKind::Symlink },
    ];
    let err = skills_from_entries(&entries).unwrap_err();
    assert!(matches!(err, AppError::Exec { .. }));
}

#[test]
fn listed_skills_are_sorted_directories() {
    let entries = vec![
        ScanEntry { name: "zeta".to_string(), kind: EntryKind::Dir },
        ScanEntry { name: "notes.txt".to_string(), kind: EntryKind::File },
        ScanEntry { name: "alpha".to_string(), kind: EntryKind::Dir },
        ScanEntry { name: "socket".to_string(), kind: EntryKind::Other },
        ScanEntry { name: "mid".to_string(), kind: EntryKind::Dir },
    ];
    let names = skills_from_entries(&entries).unwrap();
    assert_eq!(names, vec!["alpha", "mid", "zeta"]);
}
