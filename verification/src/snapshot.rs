//! The snapshot a planner or status run works from.
//!
//! Listing and digesting happen against the filesystem; what the planner
//! and the status reporter need from them is only this: for one root, the
//! ascending list of its skill directories, each with the digest of its
//! tree where one was computed. A snapshot is that list together with the
//! root path, and every consumer requires it to be strictly sorted, which
//! makes a skill's digest a function of its name.

use vstd::prelude::*;

use crate::text::{
    lemma_lt_chars_transitive, lemma_lt_chars_trichotomy, lex_lt_chars, str_eq, str_lt,
};

verus! {

/// One skill of a snapshot: its directory name and, if it was digested,
/// the digest of its tree.
#[derive(Debug, Clone)]
pub struct SkillDigest {
    pub skill: String,
    pub digest: Option<String>,
}

/// The observed state of one root: its path and its skills in ascending
/// name order.
#[derive(Debug, Clone)]
pub struct RootSnapshot {
    pub root: String,
    pub skills: Vec<SkillDigest>,
}

/// The view of an optional owned string.
pub open spec fn opt_str_view(o: Option<String>) -> Option<Seq<char>> {
    match o {
        Some(s) => Some(s@),
        None => None,
    }
}

/// The index of the first skill with this name, or the skill count if none
/// has it.
pub open spec fn skill_idx(skills: Seq<SkillDigest>, name: Seq<char>) -> int
    decreases skills.len(),
{
    if skills.len() == 0 {
        0
    } else if skills[0].skill@ == name {
        0
    } else {
        1 + skill_idx(skills.drop_first(), name)
    }
}

pub proof fn lemma_skill_idx(skills: Seq<SkillDigest>, name: Seq<char>)
    ensures
        0 <= skill_idx(skills, name) <= skills.len(),
        forall|k: int| 0 <= k < skill_idx(skills, name) ==> skills[k].skill@ != name,
        skill_idx(skills, name) < skills.len() ==> skills[skill_idx(skills, name)].skill@ == name,
    decreases skills.len(),
{
    if skills.len() > 0 && skills[0].skill@ != name {
        lemma_skill_idx(skills.drop_first(), name);
        assert forall|k: int| 0 <= k < skill_idx(skills, name) implies skills[k].skill@ != name by {
            if k > 0 {
                assert(skills.drop_first()[k - 1] == skills[k]);
            }
        }
    }
}

impl RootSnapshot {
    /// The skill names, in list order.
    pub open spec fn names(self) -> Seq<Seq<char>> {
        self.skills@.map_values(|d: SkillDigest| d.skill@)
    }

    /// A usable snapshot: names strictly ascending, hence unique.
    pub open spec fn wf(self) -> bool {
        forall|i: int, j: int|
            0 <= i < j < self.skills@.len() ==> lex_lt_chars(
                #[trigger] self.skills@[i].skill@,
                #[trigger] self.skills@[j].skill@,
            )
    }

    /// Whether the root holds a skill of this name.
    pub open spec fn has(self, name: Seq<char>) -> bool {
        skill_idx(self.skills@, name) < self.skills@.len()
    }

    /// The digest recorded for this name, `None` when the skill is absent
    /// or was not digested.
    pub open spec fn digest_of(self, name: Seq<char>) -> Option<Seq<char>> {
        if self.has(name) {
            opt_str_view(self.skills@[skill_idx(self.skills@, name)].digest)
        } else {
            None
        }
    }

    /// An empty snapshot of a root.
    pub fn new(root: String) -> (r: Self)
        ensures
            r.root == root,
            r.skills@.len() == 0,
            r.wf(),
    {
        RootSnapshot { root, skills: Vec::new() }
    }

    /// Appends a skill whose name follows every name already present.
    pub fn push_skill(&mut self, skill: String, digest: Option<String>)
        requires
            old(self).wf(),
            forall|i: int|
                0 <= i < old(self).skills@.len() ==> lex_lt_chars(
                    #[trigger] old(self).skills@[i].skill@,
                    skill@,
                ),
        ensures
            final(self).wf(),
            final(self).root == old(self).root,
            final(self).skills@ == old(self).skills@.push(
                (SkillDigest { skill: skill, digest: digest }),
            ),
    {
        self.skills.push(SkillDigest { skill, digest });
        proof {
            assert forall|i: int, j: int|
                0 <= i < j < self.skills@.len() implies lex_lt_chars(
                #[trigger] self.skills@[i].skill@,
                #[trigger] self.skills@[j].skill@,
            ) by {
                if j < old(self).skills@.len() {
                    assert(lex_lt_chars(old(self).skills@[i].skill@, old(self).skills@[j].skill@));
                } else {
                    assert(lex_lt_chars(old(self).skills@[i].skill@, self.skills@[j].skill@));
                }
            }
        }
    }

    /// Finds the position of a skill by name.
    pub fn find(&self, name: &str) -> (r: Option<usize>)
        ensures
            r is Some <==> self.has(name@),
            r is Some ==> r->0 == skill_idx(self.skills@, name@),
            r is Some ==> self.digest_of(name@) == opt_str_view(
                self.skills@[r->0 as int].digest,
            ),
    {
        proof {
            lemma_skill_idx(self.skills@, name@);
        }
        let n = self.skills.len();
        let mut i: usize = 0;
        while i < n
            invariant
                0 <= i <= n,
                n == self.skills@.len(),
                forall|k: int| 0 <= k < i ==> self.skills@[k].skill@ != name@,
            decreases n - i,
        {
            if str_eq(self.skills[i].skill.as_str(), name) {
                proof {
                    lemma_skill_idx(self.skills@, name@);
                    if skill_idx(self.skills@, name@) < i {
                        assert(self.skills@[skill_idx(self.skills@, name@)].skill@ == name@);
                    }
                    assert(i == skill_idx(self.skills@, name@));
                }
                return Some(i);
            }
            i = i + 1;
        }
        None
    }
}

/// Whether one of the first `n` skills bears this name.
pub open spec fn in_prefix(skills: Seq<SkillDigest>, n: int, name: Seq<char>) -> bool {
    exists|k: int| 0 <= k < n && #[trigger] skills[k].skill@ == name
}

/// Whether the name list holds this name.
pub open spec fn contains_name(names: Seq<String>, name: Seq<char>) -> bool {
    exists|i: int| 0 <= i < names.len() && #[trigger] names[i]@ == name
}

/// Presence in a snapshot coincides with presence among all its skills.
pub proof fn lemma_has_iff(s: RootSnapshot, name: Seq<char>)
    ensures
        s.has(name) <==> in_prefix(s.skills@, s.skills@.len() as int, name),
{
    lemma_skill_idx(s.skills@, name);
    if s.has(name) {
        assert(s.skills@[skill_idx(s.skills@, name)].skill@ == name);
    }
    if in_prefix(s.skills@, s.skills@.len() as int, name) {
        let k = choose|k: int| 0 <= k < s.skills@.len() && #[trigger] s.skills@[k].skill@ == name;
        if !s.has(name) {
            assert(s.skills@[k].skill@ != name);
        }
    }
}

/// The names of one snapshot, ascending.
pub fn names_of(s: &RootSnapshot) -> (r: Vec<String>)
    requires
        s.wf(),
    ensures
        forall|p: int, q: int|
            0 <= p < q < r@.len() ==> lex_lt_chars(#[trigger] r@[p]@, #[trigger] r@[q]@),
        forall|n: Seq<char>| #[trigger] contains_name(r@, n) <==> s.has(n),
{
    let mut r: Vec<String> = Vec::new();
    let count = s.skills.len();
    let mut i: usize = 0;
    while i < count
        invariant
            0 <= i <= count,
            count == s.skills@.len(),
            s.wf(),
            r@.len() == i,
            forall|k: int| 0 <= k < i ==> r@[k]@ == #[trigger] s.skills@[k].skill@,
        decreases count - i,
    {
        r.push(s.skills[i].skill.clone());
        i = i + 1;
    }
    proof {
        assert forall|p: int, q: int| 0 <= p < q < r@.len() implies lex_lt_chars(
            #[trigger] r@[p]@,
            #[trigger] r@[q]@,
        ) by {
            assert(r@[p]@ == s.skills@[p].skill@);
            assert(r@[q]@ == s.skills@[q].skill@);
        }
        assert forall|n: Seq<char>| #[trigger] contains_name(r@, n) <==> s.has(n) by {
            lemma_has_iff(*s, n);
            if contains_name(r@, n) {
                let k = choose|k: int| 0 <= k < r@.len() && #[trigger] r@[k]@ == n;
                assert(s.skills@[k].skill@ == n);
                assert(in_prefix(s.skills@, s.skills@.len() as int, n));
            }
            if s.has(n) {
                let k = skill_idx(s.skills@, n);
                lemma_skill_idx(s.skills@, n);
                assert(r@[k]@ == n);
            }
        }
    }
    r
}

/// The ascending union of the names of two snapshots.
pub fn union_names(g: &RootSnapshot, t: &RootSnapshot) -> (r: Vec<String>)
    requires
        g.wf(),
        t.wf(),
    ensures
        forall|p: int, q: int|
            0 <= p < q < r@.len() ==> lex_lt_chars(#[trigger] r@[p]@, #[trigger] r@[q]@),
        forall|n: Seq<char>| #[trigger] contains_name(r@, n) <==> (g.has(n) || t.has(n)),
{
    let mut r: Vec<String> = Vec::new();
    let gn = g.skills.len();
    let tn = t.skills.len();
    let mut gi: usize = 0;
    let mut ti: usize = 0;
    while gi < gn || ti < tn
        invariant
            0 <= gi <= gn,
            0 <= ti <= tn,
            gn == g.skills@.len(),
            tn == t.skills@.len(),
            g.wf(),
            t.wf(),
            forall|p: int, q: int|
                0 <= p < q < r@.len() ==> lex_lt_chars(#[trigger] r@[p]@, #[trigger] r@[q]@),
            forall|k: int, l: int|
                0 <= k < r@.len() && gi <= l < gn ==> lex_lt_chars(
                    #[trigger] r@[k]@,
                    #[trigger] g.skills@[l].skill@,
                ),
            forall|k: int, l: int|
                0 <= k < r@.len() && ti <= l < tn ==> lex_lt_chars(
                    #[trigger] r@[k]@,
                    #[trigger] t.skills@[l].skill@,
                ),
            forall|n: Seq<char>| #[trigger] contains_name(r@, n) <==> (in_prefix(
                g.skills@,
                gi as int,
                n,
            ) || in_prefix(t.skills@, ti as int, n)),
        decreases (gn - gi) + (tn - ti),
    {
        let ghost old_r = r@;
        let ghost old_gi = gi as int;
        let ghost old_ti = ti as int;
        let take_g = ti >= tn || (gi < gn && str_lt(
            g.skills[gi].skill.as_str(),
            t.skills[ti].skill.as_str(),
        ));
        if take_g {
            r.push(g.skills[gi].skill.clone());
            gi = gi + 1;
            proof {
                let pushed = r@[r@.len() - 1]@;
                assert(pushed == g.skills@[old_gi].skill@);
                assert forall|l: int| ti <= l < tn implies lex_lt_chars(
                    pushed,
                    #[trigger] t.skills@[l].skill@,
                ) by {
                    assert(lex_lt_chars(pushed, t.skills@[old_ti].skill@));
                    if l > old_ti {
                        lemma_lt_chars_transitive(
                            pushed,
                            t.skills@[old_ti].skill@,
                            t.skills@[l].skill@,
                        );
                    }
                }
            }
        } else {
            let take_t = gi >= gn || str_lt(
                t.skills[ti].skill.as_str(),
                g.skills[gi].skill.as_str(),
            );
            if take_t {
                r.push(t.skills[ti].skill.clone());
                ti = ti + 1;
                proof {
                    let pushed = r@[r@.len() - 1]@;
                    assert(pushed == t.skills@[old_ti].skill@);
                    assert forall|l: int| gi <= l < gn implies lex_lt_chars(
                        pushed,
                        #[trigger] g.skills@[l].skill@,
                    ) by {
                        assert(lex_lt_chars(pushed, g.skills@[old_gi].skill@));
                        if l > old_gi {
                            lemma_lt_chars_transitive(
                                pushed,
                                g.skills@[old_gi].skill@,
                                g.skills@[l].skill@,
                            );
                        }
                    }
                }
            } else {
                proof {
                    lemma_lt_chars_trichotomy(g.skills@[old_gi].skill@, t.skills@[old_ti].skill@);
                    assert(g.skills@[old_gi].skill@ == t.skills@[old_ti].skill@);
                }
                r.push(g.skills[gi].skill.clone());
                gi = gi + 1;
                ti = ti + 1;
            }
        }
        proof {
            let pushed = r@[r@.len() - 1]@;
            assert(r@.len() == old_r.len() + 1);
            assert(forall|k: int| 0 <= k < old_r.len() ==> r@[k] == old_r[k]);
            if old_gi < gi {
                assert(pushed == g.skills@[old_gi].skill@);
            } else {
                assert(pushed == t.skills@[old_ti].skill@);
            }
            assert forall|n: Seq<char>| #[trigger] contains_name(r@, n) <==> (in_prefix(
                g.skills@,
                gi as int,
                n,
            ) || in_prefix(t.skills@, ti as int, n)) by {
                if contains_name(r@, n) {
                    let k = choose|k: int| 0 <= k < r@.len() && #[trigger] r@[k]@ == n;
                    if k < old_r.len() {
                        assert(old_r[k]@ == n);
                        assert(contains_name(old_r, n));
                        assert(in_prefix(g.skills@, old_gi, n) || in_prefix(t.skills@, old_ti, n));
                        if in_prefix(g.skills@, old_gi, n) {
                            let w = choose|w: int|
                                0 <= w < old_gi && #[trigger] g.skills@[w].skill@ == n;
                            assert(in_prefix(g.skills@, gi as int, n));
                        } else {
                            let w = choose|w: int|
                                0 <= w < old_ti && #[trigger] t.skills@[w].skill@ == n;
                            assert(in_prefix(t.skills@, ti as int, n));
                        }
                    } else {
                        assert(n == pushed);
                        if old_gi < gi {
                            assert(g.skills@[old_gi].skill@ == n);
                            assert(in_prefix(g.skills@, gi as int, n));
                        } else {
                            assert(t.skills@[old_ti].skill@ == n);
                            assert(in_prefix(t.skills@, ti as int, n));
                        }
                    }
                }
                if in_prefix(g.skills@, gi as int, n) {
                    let k = choose|k: int| 0 <= k < gi && #[trigger] g.skills@[k].skill@ == n;
                    if k < old_gi {
                        assert(in_prefix(g.skills@, old_gi, n));
                        assert(contains_name(old_r, n));
                        let w = choose|i: int| 0 <= i < old_r.len() && #[trigger] old_r[i]@ == n;
                        assert(r@[w]@ == n);
                        assert(contains_name(r@, n));
                    } else {
                        assert(k == old_gi && old_gi < gi);
                        assert(n == g.skills@[old_gi].skill@);
                        assert(r@[r@.len() - 1]@ == n);
                        assert(contains_name(r@, n));
                    }
                }
                if in_prefix(t.skills@, ti as int, n) {
                    let k = choose|k: int| 0 <= k < ti && #[trigger] t.skills@[k].skill@ == n;
                    if k < old_ti {
                        assert(in_prefix(t.skills@, old_ti, n));
                        assert(contains_name(old_r, n));
                        let w = choose|i: int| 0 <= i < old_r.len() && #[trigger] old_r[i]@ == n;
                        assert(r@[w]@ == n);
                        assert(contains_name(r@, n));
                    } else {
                        assert(k == old_ti && old_ti < ti);
                        assert(n == t.skills@[old_ti].skill@);
                        if old_gi < gi && old_ti < ti {
                            assert(g.skills@[old_gi].skill@ == t.skills@[old_ti].skill@);
                        }
                        assert(r@[r@.len() - 1]@ == n);
                        assert(contains_name(r@, n));
                    }
                }
            }
        }
    }
    proof {
        assert forall|n: Seq<char>| #[trigger] contains_name(r@, n) <==> (g.has(n) || t.has(
            n,
        )) by {
            lemma_has_iff(*g, n);
            lemma_has_iff(*t, n);
        }
    }
    r
}

/// Copies an optional digest string.
pub fn clone_opt_str(o: &Option<String>) -> (r: Option<String>)
    ensures
        opt_str_view(r) == opt_str_view(*o),
{
    match o {
        Some(s) => Some(s.clone()),
        None => None,
    }
}

/// Compares two recorded digests.
pub fn opt_digests_equal(a: &Option<String>, b: &Option<String>) -> (r: bool)
    requires
        *a is Some,
        *b is Some,
    ensures
        r == (opt_str_view(*a) == opt_str_view(*b)),
{
    match a {
        Some(x) => match b {
            Some(y) => *x == *y,
            None => {
                proof {
                    assert(false);
                }
                false
            },
        },
        None => {
            proof {
                assert(false);
            }
            false
        },
    }
}

} // verus!
