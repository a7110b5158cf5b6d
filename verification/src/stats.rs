//! What verification cost.

use crate::text::{
    before, comes_before, concat, copy_text, decimal, law_before, law_before_trans, long_number,
    same_text, texts,
};
use vstd::prelude::*;
use vstd::relations::{sorted_by, total_ordering};
use vstd::seq_lib::{group_to_multiset_ensures, lemma_sorted_unique, to_multiset_build};

verus! {

/// How often something was done, and how large the graph became. What was applied is
/// counted by rule, in the order of the names.
#[derive(Debug)]
pub struct VerifyStats {
    pub saturations: u64,
    pub reduces: u64,
    /// All rounds of rules.
    pub sat_iterations: u64,
    pub egraph_nodes_peak: usize,
    pub egraph_classes_peak: usize,
    /// The instructions that were processed to their end.
    pub insts_processed: u64,
    pub rule_applications: u64,
    pub per_rule: Vec<(String, u64)>,
    pub prove_calls: u64,
    /// Goals for which a scratch graph was needed.
    pub prove_probe: u64,
}

/// One round of rules: how large the graph was then, and how often each rule was
/// applied.
#[derive(Debug)]
pub struct Iteration {
    pub egraph_nodes: usize,
    pub egraph_classes: usize,
    pub applied: Vec<(String, u64)>,
}

/// How often a rule is listed.
pub open spec fn count_of(ps: Seq<(String, u64)>, rule: Seq<char>) -> nat
    decreases ps.len(),
{
    if ps.len() == 0 {
        0
    } else {
        count_of(ps.drop_last(), rule) + if ps.last().0@ == rule {
            ps.last().1 as nat
        } else {
            0
        }
    }
}

/// How often all rules together are listed.
pub open spec fn count_all(ps: Seq<(String, u64)>) -> nat
    decreases ps.len(),
{
    if ps.len() == 0 {
        0
    } else {
        count_all(ps.drop_last()) + ps.last().1 as nat
    }
}

/// How often a rule is listed in rounds.
pub open spec fn count_in(its: Seq<Iteration>, rule: Seq<char>) -> nat
    decreases its.len(),
{
    if its.len() == 0 {
        0
    } else {
        count_in(its.drop_last(), rule) + count_of(its.last().applied@, rule)
    }
}

/// How often all rules together are listed in rounds.
pub open spec fn count_all_in(its: Seq<Iteration>) -> nat
    decreases its.len(),
{
    if its.len() == 0 {
        0
    } else {
        count_all_in(its.drop_last()) + count_all(its.last().applied@)
    }
}

/// The names of rules in order, each once.
pub open spec fn in_order(ps: Seq<(String, u64)>) -> bool {
    forall|i: int, j: int|
        0 <= i < j < ps.len() ==> before((#[trigger] ps[i]).0@, (#[trigger] ps[j]).0@)
}

pub open spec fn larger(a: usize, b: usize) -> usize {
    if a < b {
        b
    } else {
        a
    }
}

/// The most nodes of rounds, and no less than a number.
pub open spec fn most_nodes(its: Seq<Iteration>, start: usize) -> usize
    decreases its.len(),
{
    if its.len() == 0 {
        start
    } else {
        larger(most_nodes(its.drop_last(), start), its.last().egraph_nodes)
    }
}

/// The most classes of rounds, and no less than a number.
pub open spec fn most_classes(its: Seq<Iteration>, start: usize) -> usize
    decreases its.len(),
{
    if its.len() == 0 {
        start
    } else {
        larger(most_classes(its.drop_last(), start), its.last().egraph_classes)
    }
}

/// A line of counts.
pub open spec fn line(key: Seq<char>, n: nat) -> Seq<char> {
    key + "="@ + decimal(n) + "\n"@
}

/// The lines of the rules.
pub open spec fn rule_lines(ps: Seq<(String, u64)>) -> Seq<Seq<char>> {
    Seq::new(ps.len(), |i: int| line("rule."@ + ps[i].0@, ps[i].1 as nat))
}

/// One text comes after another, or is the same.
pub open spec fn not_before() -> spec_fn(Seq<char>, Seq<char>) -> bool {
    |a: Seq<char>, b: Seq<char>| !before(b, a)
}

/// Lines, one behind the other.
pub open spec fn run_together(ls: Seq<Seq<char>>) -> Seq<char>
    decreases ls.len(),
{
    if ls.len() == 0 {
        Seq::empty()
    } else {
        run_together(ls.drop_last()) + ls.last()
    }
}

/// Texts are in a total order.
pub proof fn law_texts_ordered()
    ensures
        total_ordering(not_before()),
{
    let le = not_before();
    assert forall|a: Seq<char>| #[trigger] le(a, a) by {
        law_before(a, a);
    }
    assert forall|a: Seq<char>, b: Seq<char>| #[trigger] le(a, b) && #[trigger] le(
        b,
        a,
    ) implies a == b by {
        law_before(a, b);
    }
    assert forall|a: Seq<char>, b: Seq<char>| #[trigger] le(a, b) || #[trigger] le(b, a) by {
        law_before(a, b);
    }
    assert forall|a: Seq<char>, b: Seq<char>, c: Seq<char>| #[trigger] le(a, b)
        && #[trigger] le(b, c) implies le(a, c) by {
        law_before(a, b);
        law_before(b, c);
        law_before(a, c);
        if before(c, a) {
            if a == b {
                assert(before(c, b));
            } else if b == c {
                assert(before(b, a));
            } else {
                law_before_trans(a, b, c);
            }
        }
    }
}

/// Puts a line where it belongs.
fn put_in_order(ls: &mut Vec<String>, new: String)
    requires
        sorted_by(texts(old(ls)@), not_before()),
    ensures
        sorted_by(texts(final(ls)@), not_before()),
        texts(final(ls)@).to_multiset() == texts(old(ls)@).to_multiset().insert(new@),
{
    broadcast use group_to_multiset_ensures;

    let ghost had = texts(ls@);
    let ghost shown = new@;
    let ghost le = not_before();
    let mut i: usize = 0;
    while i < ls.len() && comes_before(ls[i].as_str(), new.as_str())
        invariant
            i <= ls@.len(),
            texts(ls@) == had,
            new@ == shown,
            forall|k: int| 0 <= k < i ==> before(#[trigger] had[k], shown),
        decreases ls.len() - i,
    {
        proof {
            assert(had[i as int] == ls@[i as int]@);
        }
        i += 1;
    }
    proof {
        if i < had.len() {
            assert(had[i as int] == ls@[i as int]@);
        }
    }
    ls.insert(i, new);
    proof {
        let now = texts(ls@);
        assert(now =~= had.insert(i as int, shown));
        had.insert_ensures(i as int, shown);
        assert(now.remove(i as int) =~= had);
        assert(now[i as int] == shown && now.contains(shown));
        assert(now.to_multiset() =~= had.to_multiset().insert(shown));
        law_texts_ordered();
        assert forall|a: int, b: int| 0 <= a < b < now.len() implies #[trigger] le(
            now[a],
            now[b],
        ) by {
            if b < i {
                assert(le(had[a], had[b]));
            } else if b == i {
                law_before(had[a], shown);
            } else if a < i {
                assert(le(had[a], had[b - 1]));
            } else if a == i {
                assert(le(shown, had[i as int]));
                if b - 1 > i {
                    assert(le(had[i as int], had[b - 1]));
                }
            } else {
                assert(le(had[a - 1], had[b - 1]));
            }
        }
    }
}

proof fn lemma_count_bound(ps: Seq<(String, u64)>, rule: Seq<char>)
    ensures
        count_of(ps, rule) <= count_all(ps),
    decreases ps.len(),
{
    if ps.len() > 0 {
        lemma_count_bound(ps.drop_last(), rule);
    }
}

proof fn lemma_count_update(ps: Seq<(String, u64)>, i: int, n: u64, rule: Seq<char>)
    requires
        0 <= i < ps.len(),
    ensures
        count_of(ps.update(i, (ps[i].0, n)), rule) == count_of(ps, rule) + (if ps[i].0@ == rule {
            n - ps[i].1
        } else {
            0
        }),
        count_all(ps.update(i, (ps[i].0, n))) == count_all(ps) + n - ps[i].1,
    decreases ps.len(),
{
    let up = ps.update(i, (ps[i].0, n));
    if i == ps.len() - 1 {
        assert(up.drop_last() =~= ps.drop_last());
    } else {
        assert(up.drop_last() =~= ps.drop_last().update(i, (ps[i].0, n)));
        lemma_count_update(ps.drop_last(), i, n, rule);
    }
}

proof fn lemma_count_insert(ps: Seq<(String, u64)>, i: int, p: (String, u64), rule: Seq<char>)
    requires
        0 <= i <= ps.len(),
    ensures
        count_of(ps.insert(i, p), rule) == count_of(ps, rule) + (if p.0@ == rule {
            p.1 as int
        } else {
            0
        }),
        count_all(ps.insert(i, p)) == count_all(ps) + p.1,
    decreases ps.len(),
{
    let all = ps.insert(i, p);
    if i == ps.len() {
        assert(all.drop_last() =~= ps);
    } else {
        assert(all.drop_last() =~= ps.drop_last().insert(i, p));
        assert(all.last() == ps.last());
        lemma_count_insert(ps.drop_last(), i, p, rule);
    }
}

/// Counts more applications of a rule.
fn add_count(ps: &mut Vec<(String, u64)>, rule: &str, n: u64)
    requires
        in_order(old(ps)@),
        count_all(old(ps)@) + n <= u64::MAX,
    ensures
        in_order(final(ps)@),
        count_all(final(ps)@) == count_all(old(ps)@) + n,
        forall|r: Seq<char>| #[trigger]
            count_of(final(ps)@, r) == count_of(old(ps)@, r) + (if r == rule@ {
                n as nat
            } else {
                0
            }),
{
    let ghost had = ps@;
    let mut i: usize = 0;
    while i < ps.len() && comes_before(ps[i].0.as_str(), rule)
        invariant
            i <= ps@.len(),
            ps@ == had,
            forall|k: int| 0 <= k < i ==> before((#[trigger] ps@[k]).0@, rule@),
        decreases ps.len() - i,
    {
        i += 1;
    }
    if i < ps.len() && same_text(ps[i].0.as_str(), rule) {
        let ghost at = ps@[i as int];
        proof {
            assert(count_of(had, rule@) <= count_all(had)) by {
                lemma_count_bound(had, rule@);
            }
            lemma_one_count(had, i as int);
        }
        let name = copy_text(ps[i].0.as_str());
        let next: u64 = ps[i].1 + n;
        ps.set(i, (name, next));
        proof {
            lemma_same_names(had.update(i as int, (at.0, next)), ps@);
            assert forall|r: Seq<char>| #[trigger]
                count_of(ps@, r) == count_of(had, r) + (if r == rule@ {
                    n as nat
                } else {
                    0
                }) by {
                lemma_count_update(had, i as int, next, r);
                lemma_same_counts(had.update(i as int, (at.0, next)), ps@, r);
            }
            lemma_count_update(had, i as int, next, rule@);
            lemma_same_counts(had.update(i as int, (at.0, next)), ps@, rule@);
            assert forall|a: int, b: int| 0 <= a < b < ps@.len() implies before(
                (#[trigger] ps@[a]).0@,
                (#[trigger] ps@[b]).0@,
            ) by {
                assert(before(had[a].0@, had[b].0@));
            }
        }
    } else {
        let p = (copy_text(rule), n);
        let ghost q = p;
        ps.insert(i, p);
        proof {
            assert forall|r: Seq<char>| #[trigger]
                count_of(ps@, r) == count_of(had, r) + (if r == rule@ {
                    n as nat
                } else {
                    0
                }) by {
                lemma_count_insert(had, i as int, q, r);
            }
            lemma_count_insert(had, i as int, q, rule@);
            if i < had.len() {
                law_before(had[i as int].0@, rule@);
            }
            assert forall|a: int, b: int| 0 <= a < b < ps@.len() implies before(
                (#[trigger] ps@[a]).0@,
                (#[trigger] ps@[b]).0@,
            ) by {
                if b < i {
                    assert(before(had[a].0@, had[b].0@));
                } else if b == i {
                    assert(before(had[a].0@, rule@));
                } else if a < i {
                    assert(before(had[a].0@, had[b - 1].0@));
                } else if a == i {
                    if b - 1 > i {
                        assert(before(had[i as int].0@, had[b - 1].0@));
                        law_before_trans(rule@, had[i as int].0@, had[b - 1].0@);
                    }
                } else {
                    assert(before(had[a - 1].0@, had[b - 1].0@));
                }
            }
        }
    }
}

/// One rule's count is no more than all counts.
proof fn lemma_one_count(ps: Seq<(String, u64)>, i: int)
    requires
        0 <= i < ps.len(),
    ensures
        ps[i].1 <= count_all(ps),
    decreases ps.len(),
{
    if i < ps.len() - 1 {
        lemma_one_count(ps.drop_last(), i);
    }
}

/// Lists of the same names and counts.
spec fn alike(a: Seq<(String, u64)>, b: Seq<(String, u64)>) -> bool {
    &&& a.len() == b.len()
    &&& forall|i: int| 0 <= i < a.len() ==> (#[trigger] a[i]).0@ == b[i].0@ && a[i].1 == b[i].1
}

proof fn lemma_same_names(a: Seq<(String, u64)>, b: Seq<(String, u64)>)
    requires
        alike(a, b),
    ensures
        forall|i: int| 0 <= i < a.len() ==> (#[trigger] b[i]).0@ == a[i].0@,
{
    assert forall|i: int| 0 <= i < a.len() implies (#[trigger] b[i]).0@ == a[i].0@ by {
        let _ = a[i];
    }
}

proof fn lemma_same_counts(a: Seq<(String, u64)>, b: Seq<(String, u64)>, rule: Seq<char>)
    requires
        alike(a, b),
    ensures
        count_of(a, rule) == count_of(b, rule),
        count_all(a) == count_all(b),
    decreases a.len(),
{
    if a.len() > 0 {
        let x = a.drop_last();
        let y = b.drop_last();
        assert forall|i: int| 0 <= i < x.len() implies (#[trigger] x[i]).0@ == y[i].0@ && x[i].1
            == y[i].1 by {
            assert(a[i].0@ == b[i].0@);
        }
        lemma_same_counts(x, y, rule);
        assert(a[a.len() - 1].0@ == b[a.len() - 1].0@);
    }
}

fn put_line(out: &str, key: &str, n: u64) -> (r: String)
    ensures
        r@ == out@ + line(key@, n as nat),
{
    let a = concat(out, key);
    let b = concat(a.as_str(), "=");
    let c = concat(b.as_str(), long_number(n).as_str());
    let r = concat(c.as_str(), "\n");
    proof {
        assert(r@ =~= out@ + line(key@, n as nat));
    }
    r
}

impl VerifyStats {
    /// Nothing was counted.
    pub fn zero() -> (r: VerifyStats)
        ensures
            r.wf(),
            r.saturations == 0,
            r.reduces == 0,
            r.sat_iterations == 0,
            r.egraph_nodes_peak == 0,
            r.egraph_classes_peak == 0,
            r.insts_processed == 0,
            r.rule_applications == 0,
            r.per_rule@.len() == 0,
            r.prove_calls == 0,
            r.prove_probe == 0,
    {
        VerifyStats {
            saturations: 0,
            reduces: 0,
            sat_iterations: 0,
            egraph_nodes_peak: 0,
            egraph_classes_peak: 0,
            insts_processed: 0,
            rule_applications: 0,
            per_rule: Vec::new(),
            prove_calls: 0,
            prove_probe: 0,
        }
    }

    /// Rules are in order, and what was applied is what was applied of each.
    pub open spec fn wf(self) -> bool {
        in_order(self.per_rule@) && count_all(self.per_rule@) == self.rule_applications
    }

    /// The lines of the counts.
    pub open spec fn lines(self) -> Seq<Seq<char>> {
        seq![
            line("saturations"@, self.saturations as nat),
            line("reduces"@, self.reduces as nat),
            line("sat_iterations"@, self.sat_iterations as nat),
            line("egraph_nodes_peak"@, self.egraph_nodes_peak as nat),
            line("egraph_classes_peak"@, self.egraph_classes_peak as nat),
            line("rule_applications"@, self.rule_applications as nat),
            line("prove_calls"@, self.prove_calls as nat),
            line("prove_probe"@, self.prove_probe as nat),
        ] + rule_lines(self.per_rule@)
    }

    /// The counts as a text, a line each, the lines in order.
    pub open spec fn shown(self) -> Seq<char> {
        run_together(self.lines().sort_by(not_before()))
    }

    /// The counts as a text, a line each, the lines in order.
    pub fn snapshot_string(&self) -> (r: String)
        ensures
            r@ == self.shown(),
    {
        broadcast use group_to_multiset_ensures;

        let mut ls: Vec<String> = Vec::new();
        let ghost want = self.lines();
        proof {
            assert(texts(ls@) =~= Seq::<Seq<char>>::empty());
            assert(want.take(0) =~= Seq::<Seq<char>>::empty());
            reveal_strlit("");
        }
        put_in_order(&mut ls, put_line("", "saturations", self.saturations));
        put_in_order(&mut ls, put_line("", "reduces", self.reduces));
        put_in_order(&mut ls, put_line("", "sat_iterations", self.sat_iterations));
        put_in_order(
            &mut ls,
            put_line("", "egraph_nodes_peak", self.egraph_nodes_peak as u64),
        );
        put_in_order(
            &mut ls,
            put_line("", "egraph_classes_peak", self.egraph_classes_peak as u64),
        );
        put_in_order(&mut ls, put_line("", "rule_applications", self.rule_applications));
        put_in_order(&mut ls, put_line("", "prove_calls", self.prove_calls));
        put_in_order(&mut ls, put_line("", "prove_probe", self.prove_probe));
        proof {
            let none = Seq::<Seq<char>>::empty();
            assert(want.take(8) =~= none.push(want[0]).push(want[1]).push(want[2]).push(
                want[3],
            ).push(want[4]).push(want[5]).push(want[6]).push(want[7]));
            assert(""@ + want[0] =~= want[0]);
            assert(""@ + want[1] =~= want[1]);
            assert(""@ + want[2] =~= want[2]);
            assert(""@ + want[3] =~= want[3]);
            assert(""@ + want[4] =~= want[4]);
            assert(""@ + want[5] =~= want[5]);
            assert(""@ + want[6] =~= want[6]);
            assert(""@ + want[7] =~= want[7]);
            assert(texts(ls@).to_multiset() =~= want.take(8).to_multiset());
        }
        let mut i: usize = 0;
        while i < self.per_rule.len()
            invariant
                i <= self.per_rule@.len(),
                want == self.lines(),
                want.len() == 8 + self.per_rule@.len(),
                ""@.len() == 0,
                sorted_by(texts(ls@), not_before()),
                texts(ls@).to_multiset() == want.take(8 + i).to_multiset(),
            decreases self.per_rule.len() - i,
        {
            let key = concat("rule.", self.per_rule[i].0.as_str());
            put_in_order(&mut ls, put_line("", key.as_str(), self.per_rule[i].1));
            proof {
                let at = want[8 + i];
                assert(at == rule_lines(self.per_rule@)[i as int]);
                assert(key@ == "rule."@ + self.per_rule@[i as int].0@);
                assert(""@ + at =~= at);
                let had = want.take(8 + i);
                assert(want.take(9 + i) =~= had.push(at));
                to_multiset_build(had, at);
            }
            i += 1;
        }
        proof {
            assert(want.take(want.len() as int) =~= want);
            law_texts_ordered();
            want.lemma_sort_by_ensures(not_before());
            lemma_sorted_unique(texts(ls@), want.sort_by(not_before()), not_before());
        }
        let mut out = copy_text("");
        let mut j: usize = 0;
        proof {
            assert(texts(ls@).take(0) =~= Seq::<Seq<char>>::empty());
            assert(out@ =~= Seq::<char>::empty());
        }
        while j < ls.len()
            invariant
                j <= ls@.len(),
                out@ == run_together(texts(ls@).take(j as int)),
            decreases ls.len() - j,
        {
            out = concat(out.as_str(), ls[j].as_str());
            proof {
                let next = texts(ls@).take(j + 1);
                assert(next.drop_last() =~= texts(ls@).take(j as int));
                assert(next.last() == ls@[j as int]@);
            }
            j += 1;
        }
        proof {
            assert(texts(ls@).take(ls@.len() as int) =~= texts(ls@));
        }
        out
    }

    /// Counts the rounds of a run.
    pub fn record_run(&mut self, iterations: &Vec<Iteration>)
        requires
            old(self).wf(),
            old(self).sat_iterations + iterations@.len() <= u64::MAX,
            old(self).rule_applications + count_all_in(iterations@) <= u64::MAX,
        ensures
            final(self).wf(),
            final(self).sat_iterations == old(self).sat_iterations + iterations@.len(),
            final(self).egraph_nodes_peak == most_nodes(iterations@, old(self).egraph_nodes_peak),
            final(self).egraph_classes_peak == most_classes(
                iterations@,
                old(self).egraph_classes_peak,
            ),
            final(self).rule_applications == old(self).rule_applications + count_all_in(
                iterations@,
            ),
            forall|r: Seq<char>| #[trigger]
                count_of(final(self).per_rule@, r) == count_of(old(self).per_rule@, r) + count_in(
                    iterations@,
                    r,
                ),
            final(self).saturations == old(self).saturations,
            final(self).reduces == old(self).reduces,
            final(self).insts_processed == old(self).insts_processed,
            final(self).prove_calls == old(self).prove_calls,
            final(self).prove_probe == old(self).prove_probe,
    {
        let ghost s0 = *self;
        let mut i: usize = 0;
        proof {
            assert(iterations@.take(0) =~= Seq::empty());
        }
        while i < iterations.len()
            invariant
                i <= iterations@.len(),
                self.wf(),
                s0.wf(),
                s0.sat_iterations + iterations@.len() <= u64::MAX,
                s0.rule_applications + count_all_in(iterations@) <= u64::MAX,
                self.sat_iterations == s0.sat_iterations + i,
                self.egraph_nodes_peak == most_nodes(
                    iterations@.take(i as int),
                    s0.egraph_nodes_peak,
                ),
                self.egraph_classes_peak == most_classes(
                    iterations@.take(i as int),
                    s0.egraph_classes_peak,
                ),
                self.rule_applications == s0.rule_applications + count_all_in(
                    iterations@.take(i as int),
                ),
                forall|r: Seq<char>| #[trigger]
                    count_of(self.per_rule@, r) == count_of(s0.per_rule@, r) + count_in(
                        iterations@.take(i as int),
                        r,
                    ),
                self.saturations == s0.saturations,
                self.reduces == s0.reduces,
                self.insts_processed == s0.insts_processed,
                self.prove_calls == s0.prove_calls,
                self.prove_probe == s0.prove_probe,
            decreases iterations.len() - i,
        {
            let ghost s1 = *self;
            let ghost done = iterations@.take(i as int);
            let ghost more = iterations@.take(i + 1);
            let it = &iterations[i];
            proof {
                assert(more.drop_last() =~= done);
                assert(more.last() == *it);
                lemma_rounds_grow(iterations@, i + 1);
            }
            self.sat_iterations = self.sat_iterations + 1;
            if self.egraph_nodes_peak < it.egraph_nodes {
                self.egraph_nodes_peak = it.egraph_nodes;
            }
            if self.egraph_classes_peak < it.egraph_classes {
                self.egraph_classes_peak = it.egraph_classes;
            }
            let ghost s2 = *self;
            let mut k: usize = 0;
            proof {
                assert(it.applied@.take(0) =~= Seq::empty());
            }
            while k < it.applied.len()
                invariant
                    k <= it.applied@.len(),
                    self.wf(),
                    s1.rule_applications + count_all(it.applied@) <= u64::MAX,
                    self.rule_applications == s1.rule_applications + count_all(
                        it.applied@.take(k as int),
                    ),
                    forall|r: Seq<char>| #[trigger]
                        count_of(self.per_rule@, r) == count_of(s1.per_rule@, r) + count_of(
                            it.applied@.take(k as int),
                            r,
                        ),
                    self.sat_iterations == s2.sat_iterations,
                    self.egraph_nodes_peak == s2.egraph_nodes_peak,
                    self.egraph_classes_peak == s2.egraph_classes_peak,
                    self.saturations == s2.saturations,
                    self.reduces == s2.reduces,
                    self.insts_processed == s2.insts_processed,
                    self.prove_calls == s2.prove_calls,
                    self.prove_probe == s2.prove_probe,
                decreases it.applied.len() - k,
            {
                proof {
                    let next = it.applied@.take(k + 1);
                    assert(next.drop_last() =~= it.applied@.take(k as int));
                    assert(next.last() == it.applied@[k as int]);
                    lemma_counts_grow(it.applied@, k + 1);
                }
                let n = it.applied[k].1;
                add_count(&mut self.per_rule, it.applied[k].0.as_str(), n);
                self.rule_applications = self.rule_applications + n;
                k += 1;
            }
            proof {
                assert(it.applied@.take(it.applied@.len() as int) =~= it.applied@);
            }
            i += 1;
        }
        proof {
            assert(iterations@.take(iterations@.len() as int) =~= iterations@);
        }
    }
}

proof fn lemma_counts_grow(ps: Seq<(String, u64)>, n: int)
    requires
        0 <= n <= ps.len(),
    ensures
        count_all(ps.take(n)) <= count_all(ps),
    decreases ps.len(),
{
    if n < ps.len() {
        lemma_counts_grow(ps.drop_last(), n);
        assert(ps.drop_last().take(n) =~= ps.take(n));
    } else {
        assert(ps.take(n) =~= ps);
    }
}

proof fn lemma_rounds_grow(its: Seq<Iteration>, n: int)
    requires
        0 <= n <= its.len(),
    ensures
        count_all_in(its.take(n)) <= count_all_in(its),
    decreases its.len(),
{
    if n < its.len() {
        lemma_rounds_grow(its.drop_last(), n);
        assert(its.drop_last().take(n) =~= its.take(n));
    } else {
        assert(its.take(n) =~= its);
    }
}

} // verus!
