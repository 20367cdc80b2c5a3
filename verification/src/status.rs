//! The read-only status report: one row per skill known on either side.
//!
//! Each skill in the union of the two inventories is classified by where
//! it exists and whether the two digests agree: `Missing` (global only),
//! `Extra` (target only), `Same` or `Diff` (both). Nothing is mutated;
//! the rows come out in ascending skill order.

use vstd::prelude::*;
use vstd::string::StringExecFns;

use vstd::relations::sorted_by;
use vstd::seq_lib::group_to_multiset_ensures;
use vstd::seq_lib::lemma_sorted_unique;

use crate::digest::EntryKind;
use crate::error::{AppError, AppResult};
use crate::snapshot::{
    clone_opt_str, contains_name, opt_digests_equal, opt_str_view, union_names, RootSnapshot,
};
use crate::text::{lemma_name_le_total, lex_lt_chars, name_le_fn, str_lt};

verus! {

#[derive(Debug, Clone, Copy, PartialEq, Eq, Structural)]
pub enum State {
    Missing,
    Same,
    Diff,
    Extra,
}

/// The table label of a state.
pub open spec fn state_label(s: State) -> Seq<char> {
    match s {
        State::Missing => seq!['m', 'i', 's', 's', 'i', 'n', 'g'],
        State::Same => seq!['s', 'a', 'm', 'e'],
        State::Diff => seq!['d', 'i', 'f', 'f'],
        State::Extra => seq!['e', 'x', 't', 'r', 'a'],
    }
}

impl State {
    /// The state's display label.
    pub fn label(&self) -> (r: &'static str)
        ensures
            r@ == state_label(*self),
    {
        proof {
            reveal_strlit("missing");
            reveal_strlit("same");
            reveal_strlit("diff");
            reveal_strlit("extra");
        }
        let r = match self {
            State::Missing => "missing",
            State::Same => "same",
            State::Diff => "diff",
            State::Extra => "extra",
        };
        proof {
            assert(r@ =~= state_label(*self));
        }
        r
    }
}

/// One skill's comparison between the global root and a target.
#[derive(Debug, Clone)]
pub struct StatusRow {
    pub skill: String,
    pub state: State,
    pub global_digest: Option<String>,
    pub target_digest: Option<String>,
}

/// The mathematical image of a status row.
pub ghost struct StatusRowS {
    pub skill: Seq<char>,
    pub state: State,
    pub global_digest: Option<Seq<char>>,
    pub target_digest: Option<Seq<char>>,
}

impl View for StatusRow {
    type V = StatusRowS;

    open spec fn view(&self) -> StatusRowS {
        StatusRowS {
            skill: self.skill@,
            state: self.state,
            global_digest: opt_str_view(self.global_digest),
            target_digest: opt_str_view(self.target_digest),
        }
    }
}

/// The state a skill is in, given both snapshots.
pub open spec fn status_state_for(g: RootSnapshot, t: RootSnapshot, skill: Seq<char>) -> State {
    if g.has(skill) && t.has(skill) {
        if g.digest_of(skill) == t.digest_of(skill) {
            State::Same
        } else {
            State::Diff
        }
    } else if g.has(skill) {
        State::Missing
    } else {
        State::Extra
    }
}

/// The full row a skill receives.
pub open spec fn status_row_for(g: RootSnapshot, t: RootSnapshot, skill: Seq<char>) -> StatusRowS {
    StatusRowS {
        skill: skill,
        state: status_state_for(g, t, skill),
        global_digest: g.digest_of(skill),
        target_digest: t.digest_of(skill),
    }
}

/// Whether some row carries this skill name.
pub open spec fn has_row(rows: Seq<StatusRow>, skill: Seq<char>) -> bool {
    exists|i: int| 0 <= i < rows.len() && (#[trigger] rows[i])@.skill == skill
}

/// Builds the status table of one target against the global root.
///
/// Rows come out ascending by skill; there is exactly one row for each
/// skill present on either side, and each row is that skill's
/// classification and digests.
pub fn status_for_target(global: &RootSnapshot, target: &RootSnapshot) -> (rows: Vec<StatusRow>)
    requires
        global.wf(),
        target.wf(),
        forall|i: int| 0 <= i < global.skills@.len() ==> (#[trigger] global.skills@[i].digest) is Some,
        forall|i: int| 0 <= i < target.skills@.len() ==> (#[trigger] target.skills@[i].digest) is Some,
    ensures
        forall|p: int, q: int|
            0 <= p < q < rows@.len() ==> lex_lt_chars(
                (#[trigger] rows@[p])@.skill,
                (#[trigger] rows@[q])@.skill,
            ),
        forall|i: int|
            0 <= i < rows@.len() ==> (#[trigger] rows@[i])@ == status_row_for(
                *global,
                *target,
                rows@[i]@.skill,
            ),
        forall|n: Seq<char>| #[trigger] has_row(rows@, n) <==> (global.has(n) || target.has(n)),
{
    let names = union_names(global, target);
    let mut rows: Vec<StatusRow> = Vec::new();
    let m = names.len();
    let mut i: usize = 0;
    while i < m
        invariant
            0 <= i <= m,
            m == names@.len(),
            global.wf(),
            target.wf(),
            forall|k: int|
                0 <= k < global.skills@.len() ==> (#[trigger] global.skills@[k].digest) is Some,
            forall|k: int|
                0 <= k < target.skills@.len() ==> (#[trigger] target.skills@[k].digest) is Some,
            forall|p: int, q: int|
                0 <= p < q < names@.len() ==> lex_lt_chars(#[trigger] names@[p]@, #[trigger] names@[q]@),
            forall|n: Seq<char>| #[trigger] contains_name(names@, n) <==> (global.has(n)
                || target.has(n)),
            rows@.len() == i,
            forall|k: int| 0 <= k < i ==> (#[trigger] rows@[k])@.skill == names@[k]@,
            forall|k: int|
                0 <= k < i ==> (#[trigger] rows@[k])@ == status_row_for(
                    *global,
                    *target,
                    names@[k]@,
                ),
        decreases m - i,
    {
        let name = &names[i];
        proof {
            assert(contains_name(names@, name@));
        }
        let gpos = global.find(name.as_str());
        let tpos = target.find(name.as_str());
        let row = match (gpos, tpos) {
            (Some(gi), Some(ti)) => {
                let gd = clone_opt_str(&global.skills[gi].digest);
                let td = clone_opt_str(&target.skills[ti].digest);
                let state = if opt_digests_equal(&global.skills[gi].digest, &target.skills[ti].digest) {
                    State::Same
                } else {
                    State::Diff
                };
                StatusRow { skill: name.clone(), state, global_digest: gd, target_digest: td }
            },
            (Some(gi), None) => {
                let gd = clone_opt_str(&global.skills[gi].digest);
                StatusRow {
                    skill: name.clone(),
                    state: State::Missing,
                    global_digest: gd,
                    target_digest: None,
                }
            },
            (None, Some(ti)) => {
                let td = clone_opt_str(&target.skills[ti].digest);
                StatusRow {
                    skill: name.clone(),
                    state: State::Extra,
                    global_digest: None,
                    target_digest: td,
                }
            },
            (None, None) => {
                proof {
                    assert(false);
                }
                StatusRow {
                    skill: name.clone(),
                    state: State::Extra,
                    global_digest: None,
                    target_digest: None,
                }
            },
        };
        rows.push(row);
        proof {
            assert(rows@[i as int]@ == status_row_for(*global, *target, names@[i as int]@));
        }
        i = i + 1;
    }
    proof {
        assert forall|n: Seq<char>| #[trigger] has_row(rows@, n) <==> (global.has(n)
            || target.has(n)) by {
            if has_row(rows@, n) {
                let k = choose|k: int| 0 <= k < rows@.len() && (#[trigger] rows@[k])@.skill == n;
                assert(names@[k]@ == n);
                assert(contains_name(names@, n));
            }
            if global.has(n) || target.has(n) {
                assert(contains_name(names@, n));
                let k = choose|k: int| 0 <= k < names@.len() && #[trigger] names@[k]@ == n;
                assert(rows@[k]@.skill == n);
                assert(has_row(rows@, n));
            }
        }
    }
    rows
}


/// One entry of a root directory listing: a name and what kind of entry
/// bears it.
#[derive(Debug, Clone)]
pub struct ScanEntry {
    pub name: String,
    pub kind: EntryKind,
}

/// The names of the directory entries, in listing order.
pub open spec fn dir_names(entries: Seq<ScanEntry>) -> Seq<Seq<char>>
    decreases entries.len(),
{
    if entries.len() == 0 {
        Seq::empty()
    } else {
        let rest = dir_names(entries.drop_last());
        if entries.last().kind is Dir {
            rest.push(entries.last().name@)
        } else {
            rest
        }
    }
}

/// Names in ascending order.
pub open spec fn sorted_names(names: Seq<Seq<char>>) -> Seq<Seq<char>> {
    names.sort_by(name_le_fn())
}

fn insert_name_sorted(names: &mut Vec<String>, name: String)
    requires
        sorted_by(old(names).deep_view(), name_le_fn()),
    ensures
        sorted_by(final(names).deep_view(), name_le_fn()),
        final(names).deep_view().to_multiset() == old(names).deep_view().to_multiset().insert(
            name@,
        ),
{
    broadcast use group_to_multiset_ensures;

    let ghost olds = old(names).deep_view();
    proof {
        lemma_name_le_total();
    }
    let n = names.len();
    let mut j: usize = 0;
    loop
        invariant
            0 <= j <= n,
            n == names@.len(),
            names@ == old(names)@,
            olds == old(names).deep_view(),
            forall|k: int| 0 <= k < j ==> lex_lt_chars(#[trigger] olds[k], name@),
        ensures
            0 <= j <= n,
            j < n ==> !lex_lt_chars(olds[j as int], name@),
        decreases n - j,
    {
        if j >= n {
            break ;
        }
        let go = str_lt(names[j].as_str(), name.as_str());
        proof {
            assert(olds[j as int] == names@[j as int]@);
        }
        if !go {
            break ;
        }
        proof {
            assert(lex_lt_chars(olds[j as int], name@));
        }
        j = j + 1;
    }
    proof {
        assert(olds.len() == n);
    }
    names.insert(j, name);
    proof {
        let leq = name_le_fn();
        let news = names.deep_view();
        assert(names@ == old(names)@.insert(j as int, name));
        assert(news =~= olds.insert(j as int, name@)) by {
            assert(news.len() == olds.len() + 1);
            assert forall|k: int| 0 <= k < news.len() implies news[k] == olds.insert(
                j as int,
                name@,
            )[k] by {
                if k < j {
                    assert(names@[k] == old(names)@[k]);
                } else if k > j {
                    assert(names@[k] == old(names)@[k - 1]);
                } else {
                    assert(names@[k] == name);
                }
            }
        }
        assert forall|k: int| j <= k < olds.len() implies leq(name@, #[trigger] olds[k]) by {
            if !leq(name@, olds[j as int]) {
                assert(leq(olds[j as int], name@));
                assert(false);
            }
            if k > j {
                assert(leq(olds[j as int], olds[k]));
                assert(leq(name@, olds[k]));
            }
        }
        assert forall|p: int, q: int| 0 <= p < q < news.len() implies #[trigger] leq(
            news[p],
            news[q],
        ) by {
            let jj = j as int;
            if q < jj {
                assert(news[p] == olds[p] && news[q] == olds[q]);
                assert(leq(olds[p], olds[q]));
            } else if p < jj && q == jj {
                assert(news[p] == olds[p]);
                assert(lex_lt_chars(olds[p], name@));
            } else if p < jj && q > jj {
                assert(news[p] == olds[p] && news[q] == olds[q - 1]);
                assert(leq(olds[p], olds[q - 1]));
            } else if p == jj {
                assert(news[q] == olds[q - 1]);
                assert(leq(name@, olds[q - 1]));
            } else {
                assert(news[p] == olds[p - 1] && news[q] == olds[q - 1]);
                assert(leq(olds[p - 1], olds[q - 1]));
            }
        }
        assert(news.to_multiset() == olds.to_multiset().insert(name@)) by {
            vstd::seq_lib::to_multiset_insert(olds, j as int, name@);
        }
    }
}

/// Lists the skills of a root presented as directory entries.
///
/// Succeeds exactly when no entry is a symlink — a symlink is an `Exec`
/// error for the whole listing, because later stages may replace or
/// delete whatever a listed name denotes. Regular files and special
/// entries are passed over; the directory names come back in ascending
/// order.
pub fn skills_from_entries(entries: &Vec<ScanEntry>) -> (r: AppResult<Vec<String>>)
    ensures
        r is Ok <==> (forall|i: int| 0 <= i < entries@.len() ==> !((#[trigger] entries@[i]).kind
            is Symlink)),
        r is Ok ==> r->Ok_0.deep_view() == sorted_names(dir_names(entries@)),
        r is Err ==> r->Err_0 is Exec,
{
    broadcast use group_to_multiset_ensures;

    let mut names: Vec<String> = Vec::new();
    let n = entries.len();
    let mut i: usize = 0;
    proof {
        assert(names.deep_view() =~= Seq::<Seq<char>>::empty());
        assert(dir_names(entries@.take(0)) =~= Seq::<Seq<char>>::empty());
        assert(names.deep_view().to_multiset() =~= dir_names(entries@.take(0)).to_multiset());
    }
    while i < n
        invariant
            0 <= i <= n,
            n == entries@.len(),
            forall|k: int| 0 <= k < i ==> !((#[trigger] entries@[k]).kind is Symlink),
            sorted_by(names.deep_view(), name_le_fn()),
            names.deep_view().to_multiset() == dir_names(entries@.take(i as int)).to_multiset(),
        decreases n - i,
    {
        proof {
            assert(entries@.take(i + 1).drop_last() =~= entries@.take(i as int));
            assert(entries@.take(i + 1).last() == entries@[i as int]);
        }
        let e = &entries[i];
        match e.kind {
            EntryKind::Symlink => {
                let mut message = String::from_str("symlinks are not supported: ");
                message.append(e.name.as_str());
                return Err(
                    AppError::exec(
                        message,
                        Some(String::from_str("place a regular directory instead")),
                    ),
                );
            },
            EntryKind::Dir => {
                insert_name_sorted(&mut names, e.name.clone());
                proof {
                    assert(dir_names(entries@.take(i + 1)) =~= dir_names(
                        entries@.take(i as int),
                    ).push(entries@[i as int].name@));
                    vstd::seq_lib::to_multiset_build(
                        dir_names(entries@.take(i as int)),
                        entries@[i as int].name@,
                    );
                }
            },
            _ => {
                proof {
                    assert(dir_names(entries@.take(i + 1)) =~= dir_names(entries@.take(i as int)));
                }
            },
        }
        i = i + 1;
    }
    proof {
        assert(entries@.take(n as int) =~= entries@);
        lemma_name_le_total();
        dir_names(entries@).lemma_sort_by_ensures(name_le_fn());
        lemma_sorted_unique(names.deep_view(), sorted_names(dir_names(entries@)), name_le_fn());
        assert(names.deep_view() == sorted_names(dir_names(entries@)));
    }
    Ok(names)
}

} // verus!