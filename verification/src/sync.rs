//! Reconciliation planning and the decisions of plan execution.
//!
//! A plan is an ascending list of operations, one per candidate skill,
//! classified from the two snapshots: `Install` where only the source side
//! has the skill, `Skip` where both sides agree, `Update` where they
//! differ and the direction allows overwriting, `Prune` where a push with
//! pruning removes a target-only skill — without pruning such a skill is
//! kept, marked `Skip` with the note `extra`. Pushing reads global as the
//! source and a target as the destination; importing reads the other way and
//! never deletes, so the global root is never auto-pruned. Executing a
//! plan reduces to a list of filesystem actions; a dry run yields none.

use vstd::prelude::*;
use vstd::string::StringExecFns;

use crate::error::{AppError, AppResult};
use crate::skill::{valid_skill_id, validate_skill_id};
use crate::snapshot::{
    clone_opt_str, contains_name, names_of, opt_digests_equal, opt_str_view, union_names,
    RootSnapshot,
};
use crate::text::lex_lt_chars;

verus! {

#[derive(Debug, Clone, Copy, PartialEq, Eq, Structural)]
pub enum PlanKind {
    Install,
    Update,
    Skip,
    Prune,
}

/// One reconciliation operation of a plan.
#[derive(Debug, Clone)]
pub struct PlanOp {
    pub kind: PlanKind,
    pub skill: String,
    pub src: Option<String>,
    pub dest: Option<String>,
    pub note: Option<String>,
}

/// The mathematical image of a plan operation.
pub ghost struct PlanOpS {
    pub kind: PlanKind,
    pub skill: Seq<char>,
    pub src: Option<Seq<char>>,
    pub dest: Option<Seq<char>>,
    pub note: Option<Seq<char>>,
}

impl View for PlanOp {
    type V = PlanOpS;

    open spec fn view(&self) -> PlanOpS {
        PlanOpS {
            kind: self.kind,
            skill: self.skill@,
            src: opt_str_view(self.src),
            dest: opt_str_view(self.dest),
            note: opt_str_view(self.note),
        }
    }
}

/// An ordered sequence of operations for one synchronization direction.
#[derive(Debug, Clone)]
pub struct Plan {
    pub ops: Vec<PlanOp>,
}

/// Which skills a plan covers: all of them, or one validated id.
#[derive(Debug, Clone, Copy)]
pub enum Selection<'a> {
    All,
    One(&'a str),
}

/// The path of a skill directory under a root.
pub open spec fn path_under(root: Seq<char>, skill: Seq<char>) -> Seq<char> {
    root + seq!['/'] + skill
}

fn join_path(root: &String, skill: &String) -> (r: String)
    ensures
        r@ == path_under(root@, skill@),
{
    let mut out = root.clone();
    out.append("/");
    out.append(skill.as_str());
    proof {
        reveal_strlit("/");
        assert("/"@ =~= seq!['/']);
        assert(out@ =~= path_under(root@, skill@));
    }
    out
}

/// The note a push without pruning leaves on a target-only skill.
pub open spec fn note_extra() -> Seq<char> {
    seq!['e', 'x', 't', 'r', 'a']
}

/// The note an import without overwriting leaves on a diverged skill.
pub open spec fn note_diff() -> Seq<char> {
    seq!['d', 'i', 'f', 'f']
}

/// The note an import leaves on a skill absent from the target.
pub open spec fn note_missing() -> Seq<char> {
    seq!['m', 'i', 's', 's', 'i', 'n', 'g']
}

/// The push classification of one candidate skill: source is the global
/// root, destination the target.
pub open spec fn push_op_for(
    g: RootSnapshot,
    t: RootSnapshot,
    skill: Seq<char>,
    prune: bool,
) -> Option<PlanOpS> {
    if g.has(skill) && !t.has(skill) {
        Some(
            PlanOpS {
                kind: PlanKind::Install,
                skill: skill,
                src: Some(path_under(g.root@, skill)),
                dest: Some(path_under(t.root@, skill)),
                note: None,
            },
        )
    } else if g.has(skill) && t.has(skill) {
        if g.digest_of(skill) == t.digest_of(skill) {
            Some(PlanOpS { kind: PlanKind::Skip, skill: skill, src: None, dest: None, note: None })
        } else {
            Some(
                PlanOpS {
                    kind: PlanKind::Update,
                    skill: skill,
                    src: Some(path_under(g.root@, skill)),
                    dest: Some(path_under(t.root@, skill)),
                    note: None,
                },
            )
        }
    } else if t.has(skill) {
        if prune {
            Some(
                PlanOpS {
                    kind: PlanKind::Prune,
                    skill: skill,
                    src: None,
                    dest: Some(path_under(t.root@, skill)),
                    note: None,
                },
            )
        } else {
            Some(
                PlanOpS {
                    kind: PlanKind::Skip,
                    skill: skill,
                    src: None,
                    dest: None,
                    note: Some(note_extra()),
                },
            )
        }
    } else {
        None
    }
}

/// The import classification of one candidate skill: source is the
/// target, destination the global root. Importing never deletes.
pub open spec fn import_op_for(
    g: RootSnapshot,
    t: RootSnapshot,
    skill: Seq<char>,
    overwrite: bool,
) -> Option<PlanOpS> {
    if !g.has(skill) && t.has(skill) {
        Some(
            PlanOpS {
                kind: PlanKind::Install,
                skill: skill,
                src: Some(path_under(t.root@, skill)),
                dest: Some(path_under(g.root@, skill)),
                note: None,
            },
        )
    } else if g.has(skill) && t.has(skill) {
        if g.digest_of(skill) == t.digest_of(skill) {
            Some(PlanOpS { kind: PlanKind::Skip, skill: skill, src: None, dest: None, note: None })
        } else if overwrite {
            Some(
                PlanOpS {
                    kind: PlanKind::Update,
                    skill: skill,
                    src: Some(path_under(t.root@, skill)),
                    dest: Some(path_under(g.root@, skill)),
                    note: None,
                },
            )
        } else {
            Some(
                PlanOpS {
                    kind: PlanKind::Skip,
                    skill: skill,
                    src: None,
                    dest: None,
                    note: Some(note_diff()),
                },
            )
        }
    } else if g.has(skill) {
        Some(
            PlanOpS {
                kind: PlanKind::Skip,
                skill: skill,
                src: None,
                dest: None,
                note: Some(note_missing()),
            },
        )
    } else {
        None
    }
}

/// Whether a skill belongs to the candidate set of a push: every skill
/// either side holds, so a target-only skill stays visible in the plan
/// even when the push does not prune.
pub open spec fn push_selected<'a>(
    g: RootSnapshot,
    t: RootSnapshot,
    prune: bool,
    sel: Selection<'a>,
    skill: Seq<char>,
) -> bool {
    match sel {
        Selection::All => g.has(skill) || t.has(skill),
        Selection::One(s) => s@ == skill,
    }
}

/// Whether a skill belongs to the candidate set of an import.
pub open spec fn import_selected<'a>(t: RootSnapshot, sel: Selection<'a>, skill: Seq<char>) -> bool {
    match sel {
        Selection::All => t.has(skill),
        Selection::One(s) => s@ == skill,
    }
}

/// Whether a push of this selection is allowed to proceed.
pub open spec fn push_sel_ok<'a>(
    g: RootSnapshot,
    t: RootSnapshot,
    prune: bool,
    sel: Selection<'a>,
) -> bool {
    match sel {
        Selection::All => true,
        Selection::One(s) => valid_skill_id(s@) && (g.has(s@) || (prune && t.has(s@))),
    }
}

/// Whether an import of this selection is allowed to proceed.
pub open spec fn import_sel_ok<'a>(t: RootSnapshot, sel: Selection<'a>) -> bool {
    match sel {
        Selection::All => true,
        Selection::One(s) => valid_skill_id(s@) && t.has(s@),
    }
}

/// Every skill present on both sides has a digest on both sides.
pub open spec fn digests_ready(g: RootSnapshot, t: RootSnapshot) -> bool {
    forall|n: Seq<char>|
        #[trigger] g.has(n) && #[trigger] t.has(n) ==> g.digest_of(n) is Some && t.digest_of(n)
            is Some
}

/// The digests a plan of this selection needs: both sides of every
/// compared skill.
pub open spec fn selection_digests_ready<'a>(
    g: RootSnapshot,
    t: RootSnapshot,
    sel: Selection<'a>,
) -> bool {
    match sel {
        Selection::All => digests_ready(g, t),
        Selection::One(s) => g.has(s@) && t.has(s@) ==> g.digest_of(s@) is Some && t.digest_of(s@)
            is Some,
    }
}

/// Whether some operation of the list names this skill.
pub open spec fn has_op(ops: Seq<PlanOp>, skill: Seq<char>) -> bool {
    exists|i: int| 0 <= i < ops.len() && (#[trigger] ops[i])@.skill == skill
}

fn classify_push(global: &RootSnapshot, target: &RootSnapshot, skill: &String, prune: bool) -> (op:
    PlanOp)
    requires
        global.wf(),
        target.wf(),
        global.has(skill@) || target.has(skill@),
        global.has(skill@) && target.has(skill@) ==> global.digest_of(skill@) is Some
            && target.digest_of(skill@) is Some,
    ensures
        Some(op@) == push_op_for(*global, *target, skill@, prune),
        op@.skill == skill@,
{
    let gpos = global.find(skill.as_str());
    let tpos = target.find(skill.as_str());
    match (gpos, tpos) {
        (Some(_), None) => PlanOp {
            kind: PlanKind::Install,
            skill: skill.clone(),
            src: Some(join_path(&global.root, skill)),
            dest: Some(join_path(&target.root, skill)),
            note: None,
        },
        (Some(gi), Some(ti)) => {
            if opt_digests_equal(&global.skills[gi].digest, &target.skills[ti].digest) {
                PlanOp {
                    kind: PlanKind::Skip,
                    skill: skill.clone(),
                    src: None,
                    dest: None,
                    note: None,
                }
            } else {
                PlanOp {
                    kind: PlanKind::Update,
                    skill: skill.clone(),
                    src: Some(join_path(&global.root, skill)),
                    dest: Some(join_path(&target.root, skill)),
                    note: None,
                }
            }
        },
        (None, Some(_)) => {
            if prune {
                PlanOp {
                    kind: PlanKind::Prune,
                    skill: skill.clone(),
                    src: None,
                    dest: Some(join_path(&target.root, skill)),
                    note: None,
                }
            } else {
                let op = PlanOp {
                    kind: PlanKind::Skip,
                    skill: skill.clone(),
                    src: None,
                    dest: None,
                    note: Some(String::from_str("extra")),
                };
                proof {
                    reveal_strlit("extra");
                    assert("extra"@ =~= note_extra());
                }
                op
            }
        },
        (None, None) => {
            proof {
                assert(false);
            }
            PlanOp {
                kind: PlanKind::Skip,
                skill: skill.clone(),
                src: None,
                dest: None,
                note: None,
            }
        },
    }
}

fn classify_import(
    global: &RootSnapshot,
    target: &RootSnapshot,
    skill: &String,
    overwrite: bool,
) -> (op: PlanOp)
    requires
        global.wf(),
        target.wf(),
        global.has(skill@) || target.has(skill@),
        global.has(skill@) && target.has(skill@) ==> global.digest_of(skill@) is Some
            && target.digest_of(skill@) is Some,
    ensures
        Some(op@) == import_op_for(*global, *target, skill@, overwrite),
        op@.skill == skill@,
{
    let gpos = global.find(skill.as_str());
    let tpos = target.find(skill.as_str());
    match (gpos, tpos) {
        (None, Some(_)) => PlanOp {
            kind: PlanKind::Install,
            skill: skill.clone(),
            src: Some(join_path(&target.root, skill)),
            dest: Some(join_path(&global.root, skill)),
            note: None,
        },
        (Some(gi), Some(ti)) => {
            if opt_digests_equal(&global.skills[gi].digest, &target.skills[ti].digest) {
                PlanOp {
                    kind: PlanKind::Skip,
                    skill: skill.clone(),
                    src: None,
                    dest: None,
                    note: None,
                }
            } else if overwrite {
                PlanOp {
                    kind: PlanKind::Update,
                    skill: skill.clone(),
                    src: Some(join_path(&target.root, skill)),
                    dest: Some(join_path(&global.root, skill)),
                    note: None,
                }
            } else {
                let op = PlanOp {
                    kind: PlanKind::Skip,
                    skill: skill.clone(),
                    src: None,
                    dest: None,
                    note: Some(String::from_str("diff")),
                };
                proof {
                    reveal_strlit("diff");
                    assert("diff"@ =~= note_diff());
                }
                op
            }
        },
        (Some(_), None) => {
            let op = PlanOp {
                kind: PlanKind::Skip,
                skill: skill.clone(),
                src: None,
                dest: None,
                note: Some(String::from_str("missing")),
            };
            proof {
                reveal_strlit("missing");
                assert("missing"@ =~= note_missing());
            }
            op
        },
        (None, None) => {
            proof {
                assert(false);
            }
            PlanOp {
                kind: PlanKind::Skip,
                skill: skill.clone(),
                src: None,
                dest: None,
                note: None,
            }
        },
    }
}

/// Plans a push of the selection from the global root into the target.
///
/// Requires both snapshots sorted and digests present where both sides
/// hold a skill. Succeeds always for `All`; for `One` exactly when the id
/// is valid (else a `Config` error) and the skill is present on a side the
/// push can use (else an `Exec` error). The plan holds one operation per
/// candidate skill — the union of both sides' skills — in ascending
/// order, each the classification of its skill.
pub fn plan_push<'a>(
    global: &RootSnapshot,
    target: &RootSnapshot,
    selection: Selection<'a>,
    prune: bool,
) -> (r: AppResult<Plan>)
    requires
        global.wf(),
        target.wf(),
        selection_digests_ready(*global, *target, selection),
    ensures
        r is Ok <==> push_sel_ok(*global, *target, prune, selection),
        r is Err ==> match selection {
            Selection::One(s) => if !valid_skill_id(s@) {
                r->Err_0 is Config
            } else {
                r->Err_0 is Exec
            },
            Selection::All => false,
        },
        r is Ok ==> forall|p: int, q: int|
            0 <= p < q < r->Ok_0.ops@.len() ==> lex_lt_chars(
                (#[trigger] r->Ok_0.ops@[p])@.skill,
                (#[trigger] r->Ok_0.ops@[q])@.skill,
            ),
        r is Ok ==> forall|i: int|
            0 <= i < r->Ok_0.ops@.len() ==> Some((#[trigger] r->Ok_0.ops@[i])@) == push_op_for(
                *global,
                *target,
                r->Ok_0.ops@[i]@.skill,
                prune,
            ),
        r is Ok ==> forall|n: Seq<char>| #[trigger] has_op(r->Ok_0.ops@, n) <==> push_selected(
            *global,
            *target,
            prune,
            selection,
            n,
        ),
{
    match selection {
        Selection::One(skill) => {
            if let Err(e) = validate_skill_id(skill) {
                return Err(e);
            }
            let in_g = global.find(skill).is_some();
            let in_t = target.find(skill).is_some();
            if !(in_g || (prune && in_t)) {
                let mut message = String::from_str("skill does not exist in the global root: ");
                message.append(skill);
                return Err(
                    AppError::exec(
                        message,
                        Some(String::from_str("list the global root to see the available skills")),
                    ),
                );
            }
            let mut ops: Vec<PlanOp> = Vec::new();
            let name = String::from_str(skill);
            let op = classify_push(global, target, &name, prune);
            ops.push(op);
            proof {
                assert forall|n: Seq<char>| #[trigger] has_op(ops@, n) <==> push_selected(
                    *global,
                    *target,
                    prune,
                    selection,
                    n,
                ) by {
                    if has_op(ops@, n) {
                        let k = choose|k: int|
                            0 <= k < ops@.len() && (#[trigger] ops@[k])@.skill == n;
                        assert(n == skill@);
                    }
                    if n == skill@ {
                        assert(ops@[0]@.skill == n);
                        assert(has_op(ops@, n));
                    }
                }
            }
            Ok(Plan { ops })
        },
        Selection::All => {
            let names = union_names(global, target);
            proof {
                assert forall|n: Seq<char>| #[trigger] contains_name(names@, n) <==> push_selected(
                    *global,
                    *target,
                    prune,
                    selection,
                    n,
                ) by {}
            }
            let mut ops: Vec<PlanOp> = Vec::new();
            let m = names.len();
            let mut i: usize = 0;
            while i < m
                invariant
                    0 <= i <= m,
                    m == names@.len(),
                    global.wf(),
                    target.wf(),
                    digests_ready(*global, *target),
                    forall|p: int, q: int|
                        0 <= p < q < names@.len() ==> lex_lt_chars(
                            #[trigger] names@[p]@,
                            #[trigger] names@[q]@,
                        ),
                    forall|n: Seq<char>| #[trigger] contains_name(names@, n) <==> (global.has(n)
                        || target.has(n)),
                    ops@.len() == i,
                    forall|k: int| 0 <= k < i ==> (#[trigger] ops@[k])@.skill == names@[k]@,
                    forall|k: int|
                        0 <= k < i ==> Some((#[trigger] ops@[k])@) == push_op_for(
                            *global,
                            *target,
                            names@[k]@,
                            prune,
                        ),
                decreases m - i,
            {
                proof {
                    assert(contains_name(names@, names@[i as int]@));
                }
                let op = classify_push(global, target, &names[i], prune);
                ops.push(op);
                i = i + 1;
            }
            proof {
                assert forall|n: Seq<char>| #[trigger] has_op(ops@, n) <==> push_selected(
                    *global,
                    *target,
                    prune,
                    selection,
                    n,
                ) by {
                    if has_op(ops@, n) {
                        let k = choose|k: int|
                            0 <= k < ops@.len() && (#[trigger] ops@[k])@.skill == n;
                        assert(names@[k]@ == n);
                        assert(contains_name(names@, n));
                    }
                    if push_selected(*global, *target, prune, selection, n) {
                        assert(contains_name(names@, n));
                        let k = choose|k: int| 0 <= k < names@.len() && #[trigger] names@[k]@ == n;
                        assert(ops@[k]@.skill == n);
                        assert(has_op(ops@, n));
                    }
                }
            }
            Ok(Plan { ops })
        },
    }
}

/// Plans an import of the selection from the target into the global root.
///
/// Requires both snapshots sorted and digests present where both sides
/// hold a skill. Succeeds always for `All`; for `One` exactly when the id
/// is valid (else a `Config` error) and the skill is present in the
/// target (else an `Exec` error). The plan holds one operation per
/// candidate skill — the target's skills — ascending, each the
/// classification of its skill; skills only the global root holds are
/// left alone.
pub fn plan_import<'a>(
    global: &RootSnapshot,
    target: &RootSnapshot,
    selection: Selection<'a>,
    overwrite: bool,
) -> (r: AppResult<Plan>)
    requires
        global.wf(),
        target.wf(),
        selection_digests_ready(*global, *target, selection),
    ensures
        r is Ok <==> import_sel_ok(*target, selection),
        r is Err ==> match selection {
            Selection::One(s) => if !valid_skill_id(s@) {
                r->Err_0 is Config
            } else {
                r->Err_0 is Exec
            },
            Selection::All => false,
        },
        r is Ok ==> forall|p: int, q: int|
            0 <= p < q < r->Ok_0.ops@.len() ==> lex_lt_chars(
                (#[trigger] r->Ok_0.ops@[p])@.skill,
                (#[trigger] r->Ok_0.ops@[q])@.skill,
            ),
        r is Ok ==> forall|i: int|
            0 <= i < r->Ok_0.ops@.len() ==> Some((#[trigger] r->Ok_0.ops@[i])@) == import_op_for(
                *global,
                *target,
                r->Ok_0.ops@[i]@.skill,
                overwrite,
            ),
        r is Ok ==> forall|n: Seq<char>| #[trigger] has_op(r->Ok_0.ops@, n) <==> import_selected(
            *target,
            selection,
            n,
        ),
{
    match selection {
        Selection::One(skill) => {
            if let Err(e) = validate_skill_id(skill) {
                return Err(e);
            }
            let in_t = target.find(skill).is_some();
            if !in_t {
                let mut message = String::from_str("skill does not exist in the target: ");
                message.append(skill);
                return Err(
                    AppError::exec(
                        message,
                        Some(String::from_str("list the target to see the available skills")),
                    ),
                );
            }
            let mut ops: Vec<PlanOp> = Vec::new();
            let name = String::from_str(skill);
            let op = classify_import(global, target, &name, overwrite);
            ops.push(op);
            proof {
                assert forall|n: Seq<char>| #[trigger] has_op(ops@, n) <==> import_selected(
                    *target,
                    selection,
                    n,
                ) by {
                    if has_op(ops@, n) {
                        let k = choose|k: int|
                            0 <= k < ops@.len() && (#[trigger] ops@[k])@.skill == n;
                        assert(n == skill@);
                    }
                    if n == skill@ {
                        assert(ops@[0]@.skill == n);
                        assert(has_op(ops@, n));
                    }
                }
            }
            Ok(Plan { ops })
        },
        Selection::All => {
            let names = names_of(target);
            let mut ops: Vec<PlanOp> = Vec::new();
            let m = names.len();
            let mut i: usize = 0;
            while i < m
                invariant
                    0 <= i <= m,
                    m == names@.len(),
                    global.wf(),
                    target.wf(),
                    digests_ready(*global, *target),
                    forall|p: int, q: int|
                        0 <= p < q < names@.len() ==> lex_lt_chars(
                            #[trigger] names@[p]@,
                            #[trigger] names@[q]@,
                        ),
                    forall|n: Seq<char>| #[trigger] contains_name(names@, n) <==> target.has(n),
                    ops@.len() == i,
                    forall|k: int| 0 <= k < i ==> (#[trigger] ops@[k])@.skill == names@[k]@,
                    forall|k: int|
                        0 <= k < i ==> Some((#[trigger] ops@[k])@) == import_op_for(
                            *global,
                            *target,
                            names@[k]@,
                            overwrite,
                        ),
                decreases m - i,
            {
                proof {
                    assert(contains_name(names@, names@[i as int]@));
                }
                let op = classify_import(global, target, &names[i], overwrite);
                ops.push(op);
                i = i + 1;
            }
            proof {
                assert forall|n: Seq<char>| #[trigger] has_op(ops@, n) <==> import_selected(
                    *target,
                    selection,
                    n,
                ) by {
                    if has_op(ops@, n) {
                        let k = choose|k: int|
                            0 <= k < ops@.len() && (#[trigger] ops@[k])@.skill == n;
                        assert(names@[k]@ == n);
                        assert(contains_name(names@, n));
                    }
                    if import_selected(*target, selection, n) {
                        assert(contains_name(names@, n));
                        let k = choose|k: int| 0 <= k < names@.len() && #[trigger] names@[k]@ == n;
                        assert(ops@[k]@.skill == n);
                        assert(has_op(ops@, n));
                    }
                }
            }
            Ok(Plan { ops })
        },
    }
}

/// The summary label of an operation kind.
pub open spec fn kind_label(k: PlanKind) -> Seq<char> {
    match k {
        PlanKind::Install => seq!['i', 'n', 's', 't', 'a', 'l', 'l'],
        PlanKind::Update => seq!['u', 'p', 'd', 'a', 't', 'e'],
        PlanKind::Skip => seq!['s', 'k', 'i', 'p'],
        PlanKind::Prune => seq!['p', 'r', 'u', 'n', 'e'],
    }
}

/// One summary line: the kind, the skill, and the note in parentheses if
/// there is one.
pub open spec fn op_line(op: PlanOpS) -> Seq<char> {
    let base = kind_label(op.kind) + seq![' '] + op.skill;
    match op.note {
        Some(n) => base + seq![' ', '('] + n + seq![')'],
        None => base,
    }
}

fn kind_label_str(k: PlanKind) -> (r: &'static str)
    ensures
        r@ == kind_label(k),
{
    proof {
        reveal_strlit("install");
        reveal_strlit("update");
        reveal_strlit("skip");
        reveal_strlit("prune");
    }
    let r = match k {
        PlanKind::Install => "install",
        PlanKind::Update => "update",
        PlanKind::Skip => "skip",
        PlanKind::Prune => "prune",
    };
    proof {
        assert(r@ =~= kind_label(k));
    }
    r
}

/// Renders a plan as one line per operation.
pub fn summarize_plan(plan: &Plan) -> (r: Vec<String>)
    ensures
        r@.len() == plan.ops@.len(),
        forall|i: int| 0 <= i < r@.len() ==> (#[trigger] r@[i])@ == op_line(plan.ops@[i]@),
{
    let mut lines: Vec<String> = Vec::new();
    let n = plan.ops.len();
    let mut i: usize = 0;
    while i < n
        invariant
            0 <= i <= n,
            n == plan.ops@.len(),
            lines@.len() == i,
            forall|k: int| 0 <= k < i ==> (#[trigger] lines@[k])@ == op_line(plan.ops@[k]@),
        decreases n - i,
    {
        let op = &plan.ops[i];
        let mut line = String::from_str(kind_label_str(op.kind));
        line.append(" ");
        line.append(op.skill.as_str());
        match &op.note {
            Some(note) => {
                line.append(" (");
                line.append(note.as_str());
                line.append(")");
            },
            None => {},
        }
        proof {
            reveal_strlit(" ");
            reveal_strlit(" (");
            reveal_strlit(")");
            assert(" "@ =~= seq![' ']);
            assert(" ("@ =~= seq![' ', '(']);
            assert(")"@ =~= seq![')']);
            assert(line@ =~= op_line(plan.ops@[i as int]@));
        }
        lines.push(line);
        i = i + 1;
    }
    lines
}

/// One filesystem action that realizes part of a plan: replace the
/// destination tree with a copy of the source tree, or remove it.
#[derive(Debug, Clone)]
pub enum FsAction {
    Replace { src: String, dest: String },
    Remove { dest: String },
}

/// The mathematical image of a filesystem action.
pub ghost enum FsActionS {
    Replace { src: Seq<char>, dest: Seq<char> },
    Remove { dest: Seq<char> },
}

impl View for FsAction {
    type V = FsActionS;

    open spec fn view(&self) -> FsActionS {
        match self {
            FsAction::Replace { src, dest } => FsActionS::Replace { src: src@, dest: dest@ },
            FsAction::Remove { dest } => FsActionS::Remove { dest: dest@ },
        }
    }
}

/// A well-formed operation carries the paths its kind needs.
pub open spec fn op_wf(op: PlanOpS) -> bool {
    match op.kind {
        PlanKind::Install => op.src is Some && op.dest is Some,
        PlanKind::Update => op.src is Some && op.dest is Some,
        PlanKind::Prune => op.dest is Some,
        PlanKind::Skip => true,
    }
}

/// The action one operation performs; none on a dry run or a skip.
pub open spec fn op_action_spec(op: PlanOpS, dry_run: bool) -> Option<FsActionS> {
    if dry_run {
        None
    } else {
        match op.kind {
            PlanKind::Install => Some(FsActionS::Replace { src: op.src->0, dest: op.dest->0 }),
            PlanKind::Update => Some(FsActionS::Replace { src: op.src->0, dest: op.dest->0 }),
            PlanKind::Prune => Some(FsActionS::Remove { dest: op.dest->0 }),
            PlanKind::Skip => None,
        }
    }
}

/// The view of an optional action.
pub open spec fn opt_action_view(o: Option<FsAction>) -> Option<FsActionS> {
    match o {
        Some(a) => Some(a@),
        None => None,
    }
}

/// Decides what one operation performs.
///
/// Fails with an `Exec` error exactly when the operation is missing a
/// path its kind requires; the check runs on dry runs too. Otherwise the
/// result is the operation's action: none for a skip or under dry run.
pub fn op_action(op: &PlanOp, dry_run: bool) -> (r: AppResult<Option<FsAction>>)
    ensures
        r is Ok <==> op_wf(op@),
        r is Ok ==> opt_action_view(r->Ok_0) == op_action_spec(op@, dry_run),
        r is Err ==> r->Err_0 is Exec,
{
    match op.kind {
        PlanKind::Install | PlanKind::Update => {
            let src = match &op.src {
                Some(s) => s,
                None => {
                    let mut message = String::from_str("source path is not set: ");
                    message.append(op.skill.as_str());
                    return Err(
                        AppError::exec(message, Some(String::from_str("the plan is malformed"))),
                    );
                },
            };
            let dest = match &op.dest {
                Some(d) => d,
                None => {
                    let mut message = String::from_str("destination path is not set: ");
                    message.append(op.skill.as_str());
                    return Err(
                        AppError::exec(message, Some(String::from_str("the plan is malformed"))),
                    );
                },
            };
            if dry_run {
                Ok(None)
            } else {
                Ok(Some(FsAction::Replace { src: src.clone(), dest: dest.clone() }))
            }
        },
        PlanKind::Prune => {
            let dest = match &op.dest {
                Some(d) => d,
                None => {
                    let mut message = String::from_str("destination path is not set: ");
                    message.append(op.skill.as_str());
                    return Err(
                        AppError::exec(message, Some(String::from_str("the plan is malformed"))),
                    );
                },
            };
            if dry_run {
                Ok(None)
            } else {
                Ok(Some(FsAction::Remove { dest: dest.clone() }))
            }
        },
        PlanKind::Skip => Ok(None),
    }
}

/// The view of a plan's operation list.
pub open spec fn ops_view(ops: Seq<PlanOp>) -> Seq<PlanOpS> {
    ops.map_values(|o: PlanOp| o@)
}

/// The view of an action list.
pub open spec fn actions_view(acts: Seq<FsAction>) -> Seq<FsActionS> {
    acts.map_values(|a: FsAction| a@)
}

/// The actions a whole plan performs, in plan order.
pub open spec fn plan_actions_spec(ops: Seq<PlanOpS>, dry_run: bool) -> Seq<FsActionS>
    decreases ops.len(),
{
    if ops.len() == 0 {
        Seq::empty()
    } else {
        let rest = plan_actions_spec(ops.drop_last(), dry_run);
        match op_action_spec(ops.last(), dry_run) {
            Some(a) => rest.push(a),
            None => rest,
        }
    }
}

/// Dry-run purity: a dry run performs no action at all.
pub proof fn lemma_dry_run_no_actions(ops: Seq<PlanOpS>)
    ensures
        plan_actions_spec(ops, true).len() == 0,
    decreases ops.len(),
{
    if ops.len() > 0 {
        lemma_dry_run_no_actions(ops.drop_last());
    }
}

/// A plan of skips performs no action, dry run or not.
pub proof fn lemma_skip_plan_no_actions(ops: Seq<PlanOpS>, dry_run: bool)
    requires
        forall|i: int| 0 <= i < ops.len() ==> (#[trigger] ops[i]).kind is Skip,
    ensures
        plan_actions_spec(ops, dry_run).len() == 0,
    decreases ops.len(),
{
    if ops.len() > 0 {
        assert(ops[ops.len() - 1].kind is Skip);
        lemma_skip_plan_no_actions(ops.drop_last(), dry_run);
    }
}

/// Turns a plan into the list of filesystem actions that realize it.
///
/// Fails with an `Exec` error exactly when some operation is missing a
/// required path. With dry run enabled the result is empty: nothing is
/// performed.
pub fn plan_actions(plan: &Plan, dry_run: bool) -> (r: AppResult<Vec<FsAction>>)
    ensures
        r is Ok <==> (forall|i: int| 0 <= i < plan.ops@.len() ==> op_wf((#[trigger] plan.ops@[i])@)),
        r is Ok ==> actions_view(r->Ok_0@) == plan_actions_spec(ops_view(plan.ops@), dry_run),
        r is Ok && dry_run ==> r->Ok_0@.len() == 0,
        r is Err ==> r->Err_0 is Exec,
{
    let mut out: Vec<FsAction> = Vec::new();
    let n = plan.ops.len();
    let mut i: usize = 0;
    proof {
        assert(actions_view(out@) =~= plan_actions_spec(ops_view(plan.ops@.take(0)), dry_run));
    }
    while i < n
        invariant
            0 <= i <= n,
            n == plan.ops@.len(),
            forall|k: int| 0 <= k < i ==> op_wf((#[trigger] plan.ops@[k])@),
            actions_view(out@) == plan_actions_spec(ops_view(plan.ops@.take(i as int)), dry_run),
        decreases n - i,
    {
        let ghost pre = out@;
        let step = op_action(&plan.ops[i], dry_run);
        match step {
            Ok(Some(a)) => {
                out.push(a);
            },
            Ok(None) => {},
            Err(e) => {
                proof {
                    assert(!op_wf(plan.ops@[i as int]@));
                }
                return Err(e);
            },
        }
        proof {
            assert(ops_view(plan.ops@.take(i + 1)).drop_last() =~= ops_view(
                plan.ops@.take(i as int),
            ));
            assert(ops_view(plan.ops@.take(i + 1)).last() == plan.ops@[i as int]@);
            assert(actions_view(out@) =~= plan_actions_spec(
                ops_view(plan.ops@.take(i + 1)),
                dry_run,
            ));
        }
        i = i + 1;
    }
    proof {
        assert(plan.ops@.take(n as int) =~= plan.ops@);
        if dry_run {
            lemma_dry_run_no_actions(ops_view(plan.ops@));
            assert(actions_view(out@).len() == out@.len());
        }
    }
    Ok(out)
}

/// Push idempotence: once a full push has run, planning the same push
/// again classifies every candidate skill as a skip.
///
/// Here `after` stands for the target as re-listed after the push: every
/// skill of the global root is present with the global root's digest, and
/// whatever else remains is a target-only skill that survived because the
/// push did not prune — the re-plan keeps it as a skip noted `extra`.
pub proof fn lemma_push_idempotent(
    g: RootSnapshot,
    t: RootSnapshot,
    after: RootSnapshot,
    prune: bool,
    n: Seq<char>,
)
    requires
        forall|m: Seq<char>| #[trigger] after.has(m) <==> (g.has(m) || (!prune && t.has(m))),
        forall|m: Seq<char>| g.has(m) ==> #[trigger] after.digest_of(m) == g.digest_of(m),
        g.has(n) || after.has(n),
    ensures
        push_op_for(g, after, n, prune) is Some,
        push_op_for(g, after, n, prune)->0.kind is Skip,
{
    if g.has(n) {
        assert(after.has(n));
        assert(after.digest_of(n) == g.digest_of(n));
    } else {
        assert(after.has(n));
        assert(g.has(n) || (!prune && t.has(n)));
        assert(!prune);
    }
}

} // verus!
