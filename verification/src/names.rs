//! Alias assignment: every module of one import graph receives a short
//! name, derived from its file stem and only as much parent-path context as
//! is needed to set it apart from every other module's name.
//!
//! Names are refined at a fixed point: while any name has two or more
//! claimants, every claimant of one such name consumes one more path
//! component to extend its name, or, with its path exhausted, takes a
//! numeric fallback suffix.  The fallback is separated by `/`, a character
//! no path component can contain, and carries the claimant's node number,
//! so a fallback name is unique by construction and its owner is never
//! refined again.  Each round therefore spends path budget or retires
//! claimants for good, which bounds the refinement; and the loop ends only
//! when all names are pairwise distinct, which is exactly the uniqueness
//! the assignment promises.
//!
//! The result is pinned by a refinement trace in the contract: every alias
//! is reached from the bare file stems by steps that each extend all
//! claimants of one name with at least two claimants.  No alias is longer
//! than a collision forced it to be, and a graph whose stems are already
//! distinct keeps its bare stems.

use vstd::prelude::*;
use vstd::string::{StringExecFns, StrSliceExecFns};
use crate::module::Module;
use crate::order::{ImportOrder, nodes_view};
use crate::paths::{spec_stem, valid_component, wf_file_path};
use crate::strutil::{decimal_string, lemma_decimal_injective, spec_decimal};

verus! {

/// A mapping from the modules of one resolution pass to their aliases,
/// parallel by index.
pub struct NameAssignment {
    pub modules: Vec<Module>,
    pub names: Vec<String>,
}

impl NameAssignment {
    /// Well-formed: one name per module, over distinct modules.
    pub open spec fn wf(&self) -> bool {
        &&& self.modules@.len() == self.names@.len()
        &&& forall|i: int, j: int|
            0 <= i < self.modules@.len() && 0 <= j < self.modules@.len() && i != j
                ==> self.modules@[i]@ != self.modules@[j]@
    }

    /// The alias of the module with view `m`, if any module of this pass
    /// has that view.
    pub open spec fn spec_alias(&self, m: Seq<Seq<char>>) -> Option<Seq<char>> {
        if exists|i: int| 0 <= i < self.modules@.len() && (#[trigger] self.modules@[i])@ == m {
            let i = choose|i: int|
                0 <= i < self.modules@.len() && (#[trigger] self.modules@[i])@ == m;
            Some(self.names@[i]@)
        } else {
            None
        }
    }

    /// No two distinct modules share an alias.
    pub open spec fn unique_names(&self) -> bool {
        forall|i: int, j: int|
            0 <= i < self.names@.len() && 0 <= j < self.names@.len() && i != j
                ==> self.names@[i]@ != self.names@[j]@
    }

    /// The alias assigned to `m`, or nothing if `m` is not of this pass.
    pub fn lookup(&self, m: &Module) -> (r: Option<&String>)
        requires
            self.wf(),
        ensures
            match r {
                Some(s) => self.spec_alias(m@) == Some(s@),
                None => self.spec_alias(m@) is None,
            },
    {
        let mut i: usize = 0;
        while i < self.modules.len()
            invariant
                self.wf(),
                i <= self.modules@.len(),
                forall|j: int| 0 <= j < i ==> (#[trigger] self.modules@[j])@ != m@,
            decreases self.modules@.len() - i,
        {
            if self.modules[i].matches(m) {
                proof {
                    assert(self.modules@[i as int]@ == m@);
                    let j = choose|j: int|
                        0 <= j < self.modules@.len() && (#[trigger] self.modules@[j])@ == m@;
                    assert(j == i as int);
                }
                return Some(&self.names[i]);
            }
            i = i + 1;
        }
        None
    }
}

/// Holds no `/`: true of every file stem and every alias extension built
/// from path components, and false of every fallback suffix.
pub open spec fn slash_free(s: Seq<char>) -> bool {
    forall|x: int| 0 <= x < s.len() ==> s[x] != '/'
}

/// The candidate of a module before any refinement: its bare file stem,
/// with one path component (the file name itself) consumed.
pub open spec fn initial_pairs(nvs: Seq<Seq<Seq<char>>>) -> Seq<(Seq<char>, int)> {
    Seq::new(nvs.len(), |i: int| (spec_stem(nvs[i].last()), 1int))
}

/// One claimant's refinement: its alias grows by the next path component
/// counted from the file upward, or, with the path exhausted, by a `/` and
/// the claimant's node number; either way one more component is consumed.
pub open spec fn refined_pair(
    m: Seq<Seq<char>>,
    i: int,
    b: (Seq<char>, int),
    a: (Seq<char>, int),
) -> bool {
    &&& a.1 == b.1 + 1
    &&& if b.1 < m.len() {
        a.0 == b.0 + "_"@ + m[m.len() - 1 - b.1]
    } else {
        a.0 == b.0 + "/"@ + spec_decimal(i as nat)
    }
}

/// One refinement round: every claimant of the colliding name `cn` — a
/// name with at least two claimants — is refined; everything else stays.
pub open spec fn refine_step_with(
    nvs: Seq<Seq<Seq<char>>>,
    b4: Seq<(Seq<char>, int)>,
    af: Seq<(Seq<char>, int)>,
    cn: Seq<char>,
) -> bool {
    &&& b4.len() == nvs.len()
    &&& af.len() == nvs.len()
    &&& exists|i: int, j: int|
        0 <= i < b4.len() && 0 <= j < b4.len() && i != j && (#[trigger] b4[i]).0 == cn && (
        #[trigger] b4[j]).0 == cn
    &&& forall|i: int|
        0 <= i < b4.len() ==> (if (#[trigger] b4[i]).0 == cn {
            refined_pair(nvs[i], i, b4[i], af[i])
        } else {
            af[i] == b4[i]
        })
}

pub open spec fn refine_step(
    nvs: Seq<Seq<Seq<char>>>,
    b4: Seq<(Seq<char>, int)>,
    af: Seq<(Seq<char>, int)>,
) -> bool {
    exists|cn: Seq<char>| refine_step_with(nvs, b4, af, cn)
}

/// The candidates reachable from the bare stems in `steps` refinement
/// rounds: the derivation the fixed point walks.
pub open spec fn names_reachable(
    nvs: Seq<Seq<Seq<char>>>,
    pairs: Seq<(Seq<char>, int)>,
    steps: nat,
) -> bool
    decreases steps,
{
    if steps == 0 {
        pairs == initial_pairs(nvs)
    } else {
        exists|prev: Seq<(Seq<char>, int)>|
            names_reachable(nvs, prev, (steps - 1) as nat) && refine_step(nvs, prev, pairs)
    }
}

/// The assigned alias strings are the names of the trace's final pairs.
pub open spec fn names_match_pairs(names: Seq<String>, pairs: Seq<(Seq<char>, int)>) -> bool {
    pairs.len() == names.len() && forall|i: int|
        0 <= i < pairs.len() ==> (#[trigger] pairs[i]).0 == names[i]@
}

/// A pass whose file stems are already pairwise distinct keeps the bare
/// stems: no refinement step can fire on it, so the only reachable
/// candidate set is the initial one.
pub proof fn lemma_distinct_stems_stay_bare(
    nvs: Seq<Seq<Seq<char>>>,
    pairs: Seq<(Seq<char>, int)>,
    steps: nat,
)
    requires
        forall|i: int, j: int|
            0 <= i < nvs.len() && 0 <= j < nvs.len() && i != j ==> spec_stem(
                (#[trigger] nvs[i]).last(),
            ) != spec_stem((#[trigger] nvs[j]).last()),
        names_reachable(nvs, pairs, steps),
    ensures
        pairs == initial_pairs(nvs),
    decreases steps,
{
    if steps > 0 {
        let prev = choose|prev: Seq<(Seq<char>, int)>|
            names_reachable(nvs, prev, (steps - 1) as nat) && refine_step(nvs, prev, pairs);
        lemma_distinct_stems_stay_bare(nvs, prev, (steps - 1) as nat);
        let cn = choose|cn: Seq<char>| refine_step_with(nvs, prev, pairs, cn);
        let (i, j) = choose|i: int, j: int|
            0 <= i < prev.len() && 0 <= j < prev.len() && i != j && (#[trigger] prev[i]).0 == cn
                && (#[trigger] prev[j]).0 == cn;
        assert(prev[i].0 == spec_stem(nvs[i].last()));
        assert(prev[j].0 == spec_stem(nvs[j].last()));
        assert(false);
    }
}

/// The path context a candidate can still consume, plus one fallback step.
pub open spec fn pair_budget(m: Seq<Seq<char>>, p: (Seq<char>, int)) -> nat {
    if p.1 <= m.len() + 1 {
        (m.len() + 2 - p.1) as nat
    } else {
        0
    }
}

pub open spec fn budget_sum(
    nvs: Seq<Seq<Seq<char>>>,
    pairs: Seq<(Seq<char>, int)>,
    upto: int,
) -> nat
    decreases upto,
{
    if upto <= 0 {
        0
    } else {
        budget_sum(nvs, pairs, upto - 1) + pair_budget(nvs[upto - 1], pairs[upto - 1])
    }
}

proof fn lemma_budget_le(
    nvs: Seq<Seq<Seq<char>>>,
    p0: Seq<(Seq<char>, int)>,
    p1: Seq<(Seq<char>, int)>,
    upto: int,
)
    requires
        forall|i: int|
            0 <= i < upto ==> pair_budget(nvs[i], #[trigger] p1[i]) <= pair_budget(nvs[i], p0[i]),
    ensures
        budget_sum(nvs, p1, upto) <= budget_sum(nvs, p0, upto),
    decreases upto,
{
    if upto > 0 {
        lemma_budget_le(nvs, p0, p1, upto - 1);
    }
}

proof fn lemma_budget_lt(
    nvs: Seq<Seq<Seq<char>>>,
    p0: Seq<(Seq<char>, int)>,
    p1: Seq<(Seq<char>, int)>,
    upto: int,
    iw: int,
)
    requires
        0 <= iw < upto,
        forall|i: int|
            0 <= i < upto ==> pair_budget(nvs[i], #[trigger] p1[i]) <= pair_budget(nvs[i], p0[i]),
        pair_budget(nvs[iw], p1[iw]) < pair_budget(nvs[iw], p0[iw]),
    ensures
        budget_sum(nvs, p1, upto) < budget_sum(nvs, p0, upto),
    decreases upto,
{
    if iw == upto - 1 {
        lemma_budget_le(nvs, p0, p1, upto - 1);
    } else {
        lemma_budget_lt(nvs, p0, p1, upto - 1, iw);
    }
}

/// The shape every reachable candidate set keeps: consumed depth between
/// one and one past the path; a candidate still on its path is slash-free;
/// a candidate past its path carries a `/` and its own node number, and is
/// unique among all candidates.
pub open spec fn name_inv(nvs: Seq<Seq<Seq<char>>>, pairs: Seq<(Seq<char>, int)>) -> bool {
    &&& pairs.len() == nvs.len()
    &&& forall|i: int| 0 <= i < pairs.len() ==> 1 <= (#[trigger] pairs[i]).1 <= nvs[i].len() + 1
    &&& forall|i: int|
        0 <= i < pairs.len() && (#[trigger] pairs[i]).1 <= nvs[i].len() ==> slash_free(pairs[i].0)
    &&& forall|i: int|
        0 <= i < pairs.len() && (#[trigger] pairs[i]).1 == nvs[i].len() + 1 ==> exists|b: Seq<char>|
            slash_free(b) && pairs[i].0 == b + "/"@ + spec_decimal(i as nat)
    &&& forall|i: int, j: int|
        0 <= i < pairs.len() && 0 <= j < pairs.len() && j != i && (#[trigger] pairs[i]).1
            == nvs[i].len() + 1 ==> (#[trigger] pairs[j]).0 != pairs[i].0
}

/// Two slash-free prefixes followed by `/` split a string the same way.
proof fn lemma_slash_split(b1: Seq<char>, t1: Seq<char>, b2: Seq<char>, t2: Seq<char>)
    requires
        slash_free(b1),
        slash_free(b2),
        b1 + "/"@ + t1 == b2 + "/"@ + t2,
    ensures
        b1 == b2,
        t1 == t2,
{
    reveal_strlit("/");
    let s = b1 + "/"@ + t1;
    let s2 = b2 + "/"@ + t2;
    assert(s == s2);
    assert(s[b1.len() as int] == '/');
    assert(s2[b2.len() as int] == '/');
    if b1.len() < b2.len() {
        assert(s[b1.len() as int] == b2[b1.len() as int]);
        assert(false);
    }
    if b2.len() < b1.len() {
        assert(s[b2.len() as int] == b1[b2.len() as int]);
        assert(false);
    }
    assert(b1 =~= b2) by {
        assert forall|x: int| 0 <= x < b1.len() implies b1[x] == b2[x] by {
            assert(s[x] == b1[x] && s[x] == b2[x]);
        }
    }
    assert(b1.len() == b2.len());
    assert(s.len() == b1.len() + 1 + t1.len());
    assert(s2.len() == b2.len() + 1 + t2.len());
    assert(t1.len() == t2.len());
    assert(t1 =~= t2) by {
        assert forall|x: int| 0 <= x < t1.len() implies t1[x] == t2[x] by {
            assert(s[b1.len() + 1 + x] == t1[x]);
            assert(s2[b2.len() + 1 + x] == t2[x]);
        }
    }
}

/// One refinement round keeps the candidate-shape invariant and spends
/// budget: every claimant still had path context or its one fallback step
/// left, so the total strictly decreases.
#[verifier::spinoff_prover]
proof fn lemma_round(
    nvs: Seq<Seq<Seq<char>>>,
    p0: Seq<(Seq<char>, int)>,
    p1: Seq<(Seq<char>, int)>,
    cn: Seq<char>,
)
    requires
        forall|i: int| 0 <= i < nvs.len() ==> (#[trigger] nvs[i]).len() >= 1,
        forall|i: int, c: int|
            0 <= i < nvs.len() && 0 <= c < (#[trigger] nvs[i]).len() ==> valid_component(
                #[trigger] nvs[i][c],
            ),
        name_inv(nvs, p0),
        refine_step_with(nvs, p0, p1, cn),
    ensures
        name_inv(nvs, p1),
        budget_sum(nvs, p1, nvs.len() as int) < budget_sum(nvs, p0, nvs.len() as int),
{
    reveal_strlit("/");
    reveal_strlit("_");
    let n = nvs.len() as int;
    // every claimant still stands on its path or exactly at its end
    assert forall|i: int| 0 <= i < n && (#[trigger] p0[i]).0 == cn implies p0[i].1
        <= nvs[i].len() by {
        if p0[i].1 == nvs[i].len() + 1 {
            let (a, b) = choose|a: int, b: int|
                0 <= a < p0.len() && 0 <= b < p0.len() && a != b && (#[trigger] p0[a]).0 == cn && (
                #[trigger] p0[b]).0 == cn;
            let other = if a == i {
                b
            } else {
                a
            };
            assert(p0[other].0 == p0[i].0 && other != i);
            assert(false);
        }
    }
    // the colliding name itself is slash-free
    let (wa, wb) = choose|a: int, b: int|
        0 <= a < p0.len() && 0 <= b < p0.len() && a != b && (#[trigger] p0[a]).0 == cn && (
        #[trigger] p0[b]).0 == cn;
    assert(slash_free(cn)) by {
        assert(p0[wa].1 <= nvs[wa].len());
    }
    // budget strictly decreases
    assert forall|i: int| 0 <= i < n implies pair_budget(nvs[i], #[trigger] p1[i]) <= pair_budget(
        nvs[i],
        p0[i],
    ) by {
        if p0[i].0 == cn {
            assert(refined_pair(nvs[i], i, p0[i], p1[i]));
        }
    }
    assert(pair_budget(nvs[wa], p1[wa]) < pair_budget(nvs[wa], p0[wa])) by {
        assert(refined_pair(nvs[wa], wa, p0[wa], p1[wa]));
    }
    lemma_budget_lt(nvs, p0, p1, n, wa);
    // depth bounds
    assert forall|i: int| 0 <= i < n implies 1 <= (#[trigger] p1[i]).1 <= nvs[i].len() + 1 by {
        if p0[i].0 == cn {
            assert(refined_pair(nvs[i], i, p0[i], p1[i]));
        }
    }
    // candidates still on their path stay slash-free
    assert forall|i: int|
        0 <= i < n && (#[trigger] p1[i]).1 <= nvs[i].len() implies slash_free(p1[i].0) by {
        if p0[i].0 == cn {
            assert(refined_pair(nvs[i], i, p0[i], p1[i]));
            assert(p0[i].1 < nvs[i].len());
            let comp = nvs[i][nvs[i].len() - 1 - p0[i].1];
            assert(valid_component(comp));
            assert(p1[i].0 == cn + "_"@ + comp);
            assert forall|x: int| 0 <= x < p1[i].0.len() implies p1[i].0[x] != '/' by {
                if x < cn.len() {
                    assert(p1[i].0[x] == cn[x]);
                } else if x == cn.len() {
                    assert(p1[i].0[x] == '_');
                } else {
                    assert(p1[i].0[x] == comp[x - cn.len() - 1]);
                    assert(comp.contains(comp[x - cn.len() - 1]));
                }
            }
        }
    }
    // candidates past their path carry the slash form
    assert forall|i: int|
        0 <= i < n && (#[trigger] p1[i]).1 == nvs[i].len() + 1 implies exists|b: Seq<char>|
        slash_free(b) && p1[i].0 == b + "/"@ + spec_decimal(i as nat) by {
        if p0[i].0 == cn {
            assert(refined_pair(nvs[i], i, p0[i], p1[i]));
            assert(p0[i].1 == nvs[i].len());
            assert(slash_free(cn) && p1[i].0 == cn + "/"@ + spec_decimal(i as nat));
        }
    }
    // a fallback name is unique among all candidates
    assert forall|i: int, j: int|
        0 <= i < n && 0 <= j < n && j != i && (#[trigger] p1[i]).1 == nvs[i].len()
            + 1 implies (#[trigger] p1[j]).0 != p1[i].0 by {
        if p1[j].0 == p1[i].0 {
            let ei = if p0[i].0 == cn {
                assert(refined_pair(nvs[i], i, p0[i], p1[i]));
                assert(p0[i].1 == nvs[i].len());
                cn
            } else {
                assert(p1[i] == p0[i]);
                let b = choose|b: Seq<char>|
                    slash_free(b) && p0[i].0 == b + "/"@ + spec_decimal(i as nat);
                b
            };
            assert(slash_free(ei) && p1[i].0 == ei + "/"@ + spec_decimal(i as nat));
            if p0[j].0 == cn {
                assert(refined_pair(nvs[j], j, p0[j], p1[j]));
                if p0[j].1 < nvs[j].len() {
                    // a component extension carries `_` where the fallback
                    // carries `/`
                    let comp = nvs[j][nvs[j].len() - 1 - p0[j].1];
                    assert(p1[j].0 == cn + "_"@ + comp);
                    assert(p1[j].0[cn.len() as int] == '_');
                    assert(p1[i].0[ei.len() as int] == '/');
                    lemma_slash_split(ei, spec_decimal(i as nat), ei, spec_decimal(i as nat));
                    assert(ei == cn) by {
                        if ei.len() < cn.len() {
                            assert(p1[j].0[ei.len() as int] == cn[ei.len() as int]);
                            assert(p1[i].0[ei.len() as int] == '/');
                            assert(false);
                        }
                        if cn.len() < ei.len() {
                            assert(p1[i].0[cn.len() as int] == ei[cn.len() as int]);
                            assert(p1[j].0[cn.len() as int] == '_');
                            assert(false);
                        }
                        assert forall|x: int| 0 <= x < ei.len() implies ei[x] == cn[x] by {
                            assert(p1[i].0[x] == ei[x] && p1[j].0[x] == cn[x]);
                        }
                        assert(ei =~= cn);
                    }
                    assert(p1[i].0[cn.len() as int] == '/');
                    assert(false);
                } else {
                    // two fallback names differ in their node numbers
                    assert(p1[j].0 == cn + "/"@ + spec_decimal(j as nat));
                    lemma_slash_split(ei, spec_decimal(i as nat), cn, spec_decimal(j as nat));
                    lemma_decimal_injective(i as nat, j as nat);
                    assert(false);
                }
            } else {
                assert(p1[j] == p0[j]);
                if p0[j].1 == nvs[j].len() + 1 {
                    let bj = choose|b: Seq<char>|
                        slash_free(b) && p0[j].0 == b + "/"@ + spec_decimal(j as nat);
                    lemma_slash_split(ei, spec_decimal(i as nat), bj, spec_decimal(j as nat));
                    lemma_decimal_injective(i as nat, j as nat);
                    assert(false);
                } else {
                    // an unchanged on-path candidate is slash-free; the
                    // fallback is not
                    assert(slash_free(p0[j].0));
                    assert(p1[i].0[ei.len() as int] == '/');
                    assert(p0[j].0[ei.len() as int] != '/');
                    assert(false);
                }
            }
        }
    }
}

/// Finds a name claimed by two different entries, if any; `None` certifies
/// that all names are pairwise distinct.
fn find_colliding_name(names: &Vec<String>) -> (r: Option<String>)
    ensures
        match r {
            Some(s) => exists|i: int, j: int|
                0 <= i < names@.len() && 0 <= j < names@.len() && i != j && names@[i]@ == s@
                    && names@[j]@ == s@,
            None => forall|i: int, j: int|
                0 <= i < names@.len() && 0 <= j < names@.len() && i != j ==> names@[i]@
                    != names@[j]@,
        },
{
    let mut i: usize = 0;
    while i < names.len()
        invariant
            i <= names@.len(),
            forall|a: int, b: int|
                0 <= a < i && 0 <= b < names@.len() && a != b ==> names@[a]@ != names@[b]@,
        decreases names@.len() - i,
    {
        let mut j: usize = i + 1;
        while j < names.len()
            invariant
                i < j,
                i < names@.len(),
                j <= names@.len(),
                forall|a: int, b: int|
                    0 <= a < i && 0 <= b < names@.len() && a != b ==> names@[a]@ != names@[b]@,
                forall|b: int| i < b < j ==> names@[i as int]@ != names@[b]@,
            decreases names@.len() - j,
        {
            if names[i] == names[j] {
                proof {
                    assert(names@[i as int]@ == names@[j as int]@);
                }
                return Some(names[i].clone());
            }
            j = j + 1;
        }
        proof {
            assert forall|a: int, b: int|
                0 <= a < i + 1 && 0 <= b < names@.len() && a != b implies names@[a]@
                != names@[b]@ by {
                if a == i {
                    if b < i {
                        assert(names@[b]@ != names@[a]@);
                    }
                }
            }
        }
        i = i + 1;
    }
    None
}

/// The candidates as a ghost pair sequence: alias text and consumed depth.
pub open spec fn cur_pairs(names: Seq<String>, gd: Seq<int>) -> Seq<(Seq<char>, int)> {
    Seq::new(names.len(), |i: int| (names[i]@, gd[i]))
}

/// Index `i` lies among the first `t` gathered claimants.
pub open spec fn claimed_before(cl: Seq<usize>, t: int, i: int) -> bool {
    exists|t2: int| 0 <= t2 < t && cl[t2] == i as usize
}

impl ImportOrder {
    /// Assigns every module of the graph an alias: initially its bare file
    /// stem, then refined one path component at a time — or by a fallback
    /// suffix once its path is exhausted — only while its name is claimed
    /// by more than one module.  The assignment is unique across the graph,
    /// and the refinement trace in the contract pins every alias to that
    /// derivation: collision-free stems stay bare, and no alias consumes
    /// more context than some collision forced.
    pub fn reduced_names(&self) -> (r: NameAssignment)
        requires
            self.wf(),
        ensures
            r.wf(),
            r.unique_names(),
            r.modules@.len() == self.nodes@.len(),
            forall|i: int|
                0 <= i < r.modules@.len() ==> (#[trigger] r.modules@[i])@ == self.nodes@[i]@,
            exists|pairs: Seq<(Seq<char>, int)>, steps: nat|
                names_reachable(nodes_view(self.nodes@), pairs, steps) && names_match_pairs(
                    r.names@,
                    pairs,
                ),
    {
        let ghost nvs = nodes_view(self.nodes@);
        let n = self.nodes.len();
        let mut names: Vec<String> = Vec::new();
        let mut depths: Vec<usize> = Vec::new();
        let mut modules: Vec<Module> = Vec::new();
        let ghost mut gd: Seq<int> = Seq::empty();
        let mut i: usize = 0;
        while i < n
            invariant
                self.wf(),
                nvs == nodes_view(self.nodes@),
                n == self.nodes@.len(),
                i <= n,
                names@.len() == i,
                depths@.len() == i,
                modules@.len() == i,
                gd.len() == i as int,
                forall|k: int| 0 <= k < i ==> (#[trigger] modules@[k])@ == self.nodes@[k]@,
                forall|k: int| 0 <= k < i ==> (#[trigger] gd[k]) == 1,
                forall|k: int| 0 <= k < i ==> (#[trigger] depths@[k]) == 1,
                forall|k: int| 0 <= k < i ==> (#[trigger] names@[k])@ == spec_stem(nvs[k].last()),
            decreases n - i,
        {
            names.push(self.nodes[i].file_name());
            depths.push(1);
            modules.push(self.nodes[i].duplicate());
            proof {
                gd = gd.push(1);
                assert(nvs[i as int] == self.nodes@[i as int]@);
            }
            i = i + 1;
        }
        proof {
            assert(cur_pairs(names@, gd) =~= initial_pairs(nvs));
            assert(names_reachable(nvs, cur_pairs(names@, gd), 0));
            // the path facts the refinement leans on
            assert forall|k: int| 0 <= k < n implies (#[trigger] nvs[k]).len() >= 1 by {
                assert(self.nodes@[k].wf());
                assert(nvs[k] == self.nodes@[k]@);
            }
            assert forall|k: int, c: int|
                0 <= k < n && 0 <= c < (#[trigger] nvs[k]).len() implies valid_component(
                #[trigger] nvs[k][c],
            ) by {
                assert(self.nodes@[k].wf());
                assert(nvs[k] == self.nodes@[k]@);
                assert(wf_file_path(nvs[k]));
            }
            assert(name_inv(nvs, cur_pairs(names@, gd))) by {
                assert forall|k: int|
                    0 <= k < n && (#[trigger] cur_pairs(names@, gd)[k]).1 <= nvs[k].len()
                        implies slash_free(cur_pairs(names@, gd)[k].0) by {
                    assert(cur_pairs(names@, gd)[k].0 == spec_stem(nvs[k].last()));
                    assert(valid_component(nvs[k].last()));
                    assert forall|x: int|
                        0 <= x < spec_stem(nvs[k].last()).len() implies spec_stem(
                        nvs[k].last(),
                    )[x] != '/' by {
                        assert(spec_stem(nvs[k].last())[x] == nvs[k].last()[x]);
                        assert(nvs[k].last().contains(nvs[k].last()[x]));
                    }
                }
            }
        }
        loop
            invariant
                self.wf(),
                nvs == nodes_view(self.nodes@),
                n == self.nodes@.len(),
                names@.len() == n,
                depths@.len() == n,
                modules@.len() == n,
                gd.len() == n as int,
                forall|k: int| 0 <= k < n ==> (#[trigger] modules@[k])@ == self.nodes@[k]@,
                forall|k: int| 0 <= k < n ==> (#[trigger] nvs[k]).len() >= 1,
                forall|k: int, c: int|
                    0 <= k < n && 0 <= c < (#[trigger] nvs[k]).len() ==> valid_component(
                        #[trigger] nvs[k][c],
                    ),
                name_inv(nvs, cur_pairs(names@, gd)),
                // the executable depth mirrors the consumed depth, capped at
                // the path's length once the path is exhausted
                forall|k: int|
                    0 <= k < n ==> (if (#[trigger] gd[k]) <= nvs[k].len() {
                        depths@[k] as int == gd[k]
                    } else {
                        depths@[k] as int == nvs[k].len()
                    }),
                exists|st: nat| names_reachable(nvs, cur_pairs(names@, gd), st),
            decreases budget_sum(nvs, cur_pairs(names@, gd), n as int),
        {
            let colliding = match find_colliding_name(&names) {
                None => {
                    let ghost mods0 = modules@;
                    let ghost names0 = names@;
                    let na = NameAssignment { modules, names };
                    proof {
                        assert(na.modules@ == mods0);
                        assert(na.names@ == names0);
                        assert forall|a: int, b: int|
                            0 <= a < na.modules@.len() && 0 <= b < na.modules@.len() && a
                                != b implies na.modules@[a]@ != na.modules@[b]@ by {
                            assert(nodes_view(self.nodes@)[a] == self.nodes@[a]@);
                            assert(nodes_view(self.nodes@)[b] == self.nodes@[b]@);
                            assert(mods0[a]@ == self.nodes@[a]@);
                            assert(mods0[b]@ == self.nodes@[b]@);
                        }
                        let st = choose|st: nat| names_reachable(nvs, cur_pairs(names0, gd), st);
                        assert(names_match_pairs(na.names@, cur_pairs(names0, gd)));
                    }
                    return na;
                },
                Some(s) => s,
            };
            let ghost p0 = cur_pairs(names@, gd);
            let ghost names0 = names@;
            let ghost depths0 = depths@;
            let ghost gd0 = gd;
            proof {
                assert(exists|x: int, y: int|
                    0 <= x < n && 0 <= y < n && x != y && (#[trigger] names0[x])@ == colliding@
                        && (#[trigger] names0[y])@ == colliding@);
            }
            // gather the claimants of the colliding name, in index order
            let mut claimants: Vec<usize> = Vec::new();
            let mut k: usize = 0;
            while k < n
                invariant
                    names@.len() == n,
                    names@ == names0,
                    k <= n,
                    exists|x: int, y: int|
                        0 <= x < n && 0 <= y < n && x != y && (#[trigger] names0[x])@
                            == colliding@ && (#[trigger] names0[y])@ == colliding@,
                    forall|t: int|
                        0 <= t < claimants@.len() ==> (#[trigger] claimants@[t]) < k,
                    forall|t: int|
                        0 <= t < claimants@.len() ==> names0[(#[trigger] claimants@[t]) as int]@
                            == colliding@,
                    forall|t1: int, t2: int|
                        0 <= t1 < t2 < claimants@.len() ==> claimants@[t1] < claimants@[t2],
                    forall|i2: int|
                        0 <= i2 < k && names0[i2]@ == colliding@ ==> claimed_before(
                            claimants@,
                            claimants@.len() as int,
                            i2,
                        ),
                decreases n - k,
            {
                if names[k] == colliding {
                    let ghost cl0 = claimants@;
                    claimants.push(k);
                    proof {
                        assert forall|i2: int|
                            0 <= i2 < k + 1 && names0[i2]@ == colliding@ implies claimed_before(
                            claimants@,
                            claimants@.len() as int,
                            i2,
                        ) by {
                            if i2 < k {
                                assert(claimed_before(cl0, cl0.len() as int, i2));
                                let t2 = choose|t2: int|
                                    0 <= t2 < cl0.len() && cl0[t2] == i2 as usize;
                                assert(claimants@[t2] == cl0[t2]);
                            } else {
                                assert(claimants@[claimants@.len() - 1] == k);
                            }
                        }
                    }
                }
                k = k + 1;
            }
            // refine every claimant by one more path component, or by its
            // fallback suffix once its path is exhausted
            let mut t: usize = 0;
            while t < claimants.len()
                invariant
                    self.wf(),
                    nvs == nodes_view(self.nodes@),
                    n == self.nodes@.len(),
                    names@.len() == n,
                    depths@.len() == n,
                    gd.len() == n as int,
                    t <= claimants@.len(),
                    p0 == cur_pairs(names0, gd0),
                    name_inv(nvs, p0),
                    exists|x: int, y: int|
                        0 <= x < n && 0 <= y < n && x != y && (#[trigger] names0[x])@
                            == colliding@ && (#[trigger] names0[y])@ == colliding@,
                    forall|k2: int, c: int|
                        0 <= k2 < n && 0 <= c < (#[trigger] nvs[k2]).len() ==> valid_component(
                            #[trigger] nvs[k2][c],
                        ),
                    forall|k2: int| 0 <= k2 < n ==> (#[trigger] nvs[k2]).len() >= 1,
                    forall|t2: int|
                        0 <= t2 < claimants@.len() ==> (#[trigger] claimants@[t2]) < n,
                    forall|t2: int|
                        0 <= t2 < claimants@.len() ==> names0[(#[trigger] claimants@[t2]) as int]@
                            == colliding@,
                    forall|t1: int, t2: int|
                        0 <= t1 < t2 < claimants@.len() ==> claimants@[t1] < claimants@[t2],
                    forall|i2: int|
                        0 <= i2 < n && names0[i2]@ == colliding@ ==> claimed_before(
                            claimants@,
                            claimants@.len() as int,
                            i2,
                        ),
                    // untouched entries keep their pair
                    forall|i2: int|
                        0 <= i2 < n && !claimed_before(claimants@, t as int, i2) ==> names@[i2]
                            == names0[i2] && depths@[i2] == depths0[i2] && gd[i2] == gd0[i2],
                    // processed claimants carry their refined pair
                    forall|t2: int|
                        0 <= t2 < t ==> refined_pair(
                            nvs[(#[trigger] claimants@[t2]) as int],
                            claimants@[t2] as int,
                            p0[claimants@[t2] as int],
                            (names@[claimants@[t2] as int]@, gd[claimants@[t2] as int]),
                        ),
                    // the executable depth keeps mirroring the consumed depth
                    forall|k2: int|
                        0 <= k2 < n ==> (if (#[trigger] gd[k2]) <= nvs[k2].len() {
                            depths@[k2] as int == gd[k2]
                        } else {
                            depths@[k2] as int == nvs[k2].len()
                        }),
                decreases claimants@.len() - t,
            {
                let node = claimants[t];
                let d = depths[node];
                proof {
                    // this claimant is still untouched and still on its path
                    assert(!claimed_before(claimants@, t as int, node as int)) by {
                        if claimed_before(claimants@, t as int, node as int) {
                            let t2 = choose|t2: int|
                                0 <= t2 < t && claimants@[t2] == node;
                            assert(claimants@[t2] < claimants@[t as int]);
                        }
                    }
                    assert(names@[node as int] == names0[node as int]);
                    assert(gd[node as int] == gd0[node as int]);
                    assert(p0[node as int] == (colliding@, gd0[node as int]));
                    assert(p0[node as int].1 <= nvs[node as int].len()) by {
                        if p0[node as int].1 == nvs[node as int].len() + 1 {
                            // the collision certificate names another
                            // claimant of the same name
                            let (x, y) = choose|x: int, y: int|
                                0 <= x < n && 0 <= y < n && x != y && (#[trigger] names0[x])@
                                    == colliding@ && (#[trigger] names0[y])@ == colliding@;
                            let other: int = if x == node as int {
                                y
                            } else {
                                x
                            };
                            assert(other != node as int && p0[other].0 == p0[node as int].0);
                            assert(false);
                        }
                    }
                    assert(d as int == gd0[node as int]);
                }
                let plen = self.nodes[node].path.depth();
                proof {
                    assert(self.nodes@[node as int]@ == nvs[node as int]);
                    assert(plen as int == nvs[node as int].len());
                }
                let mut refined = colliding.clone();
                match self.nodes[node].nth_path_component(d) {
                    Some(comp) => {
                        refined.append("_");
                        refined.append(comp.as_str());
                        proof {
                            assert(comp@ == nvs[node as int][nvs[node as int].len() - 1 - d]);
                        }
                        names[node] = refined;
                        depths[node] = d + 1;
                        proof {
                            gd = gd.update(node as int, d as int + 1);
                        }
                    },
                    None => {
                        refined.append("/");
                        let suffix = decimal_string(node);
                        refined.append(suffix.as_str());
                        names[node] = refined;
                        proof {
                            assert(d as int == nvs[node as int].len());
                            gd = gd.update(node as int, d as int + 1);
                        }
                    },
                }
                proof {
                    assert(refined_pair(
                        nvs[node as int],
                        node as int,
                        p0[node as int],
                        (names@[node as int]@, gd[node as int]),
                    ));
                    assert forall|i2: int|
                        0 <= i2 < n && !claimed_before(claimants@, t + 1, i2) implies names@[i2]
                        == names0[i2] && depths@[i2] == depths0[i2] && gd[i2] == gd0[i2] by {
                        assert(i2 != node as int) by {
                            if i2 == node as int {
                                assert(claimants@[t as int] == node);
                                assert(claimed_before(claimants@, t + 1, i2));
                            }
                        }
                        assert(!claimed_before(claimants@, t as int, i2)) by {
                            if claimed_before(claimants@, t as int, i2) {
                                let t2 = choose|t2: int|
                                    0 <= t2 < t && claimants@[t2] == i2 as usize;
                                assert(claimants@[t2] == i2 as usize);
                                assert(claimed_before(claimants@, t + 1, i2));
                            }
                        }
                    }
                    assert forall|t2: int| 0 <= t2 < t + 1 implies refined_pair(
                        nvs[(#[trigger] claimants@[t2]) as int],
                        claimants@[t2] as int,
                        p0[claimants@[t2] as int],
                        (names@[claimants@[t2] as int]@, gd[claimants@[t2] as int]),
                    ) by {
                        if t2 < t {
                            assert(claimants@[t2] < claimants@[t as int]);
                        }
                    }
                }
                t = t + 1;
            }
            proof {
                let p1 = cur_pairs(names@, gd);
                assert(refine_step_with(nvs, p0, p1, colliding@)) by {
                    let (x, y) = choose|x: int, y: int|
                        0 <= x < names0.len() && 0 <= y < names0.len() && x != y && names0[x]@
                            == colliding@ && names0[y]@ == colliding@;
                    assert(p0[x].0 == colliding@ && p0[y].0 == colliding@);
                    assert forall|i2: int| 0 <= i2 < n implies (if (#[trigger] p0[i2]).0
                        == colliding@ {
                        refined_pair(nvs[i2], i2, p0[i2], p1[i2])
                    } else {
                        p1[i2] == p0[i2]
                    }) by {
                        if p0[i2].0 == colliding@ {
                            assert(names0[i2]@ == colliding@);
                            assert(claimed_before(claimants@, claimants@.len() as int, i2));
                            let t2 = choose|t2: int|
                                0 <= t2 < claimants@.len() && claimants@[t2] == i2 as usize;
                            assert(refined_pair(
                                nvs[i2],
                                i2,
                                p0[i2],
                                (names@[i2]@, gd[i2]),
                            ));
                        } else {
                            assert(names0[i2]@ != colliding@);
                            assert(!claimed_before(claimants@, claimants@.len() as int, i2)) by {
                                if claimed_before(claimants@, claimants@.len() as int, i2) {
                                    let t2 = choose|t2: int|
                                        0 <= t2 < claimants@.len() && claimants@[t2]
                                            == i2 as usize;
                                    assert(names0[claimants@[t2] as int]@ == colliding@);
                                }
                            }
                        }
                    }
                }
                lemma_round(nvs, p0, p1, colliding@);
                let st0 = choose|st: nat| names_reachable(nvs, p0, st);
                assert(names_reachable(nvs, p1, st0 + 1)) by {
                    assert(refine_step(nvs, p0, p1));
                }
            }
        }
    }
}

} // verus!
