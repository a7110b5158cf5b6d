//! Rule names, the rules that are kept, and the rules of a program's members.

use crate::lang::FuncId;
use crate::rewrite::adt::{InjApplier, TagApplier};
use crate::rewrite::function::{FunctionDefinition, FunctionUnfoldApplier};
use crate::rewrite::instantiate::ForallApplier;
use crate::rewrite::memo::Memo;
use crate::rewrite::proj::ProjApplier;
use crate::rewrite::rules::Rule;
use crate::rewrite::table::{static_rules, static_table, terminating_ite_rules};
use crate::text::{decimal, 
    concat, contains_text, copy_text, lists_text, number, pieces, split, texts, trim, trimmed,
};
use crate::vmir::BinOp;
use vstd::prelude::*;
use vstd::string::StrSliceExecFns;

verus! {

/// The name of a rule.
pub open spec fn rule_name(r: Rule) -> Seq<char> {
    match r {
        Rule::IteReduce => "ite-reduce"@,
        Rule::Identity(i) => i.name@,
        Rule::EqTrueUnion => "eq-true-union"@,
        Rule::EqFalseMirror => "eq-false-mirror"@,
        Rule::ContraCongruence(_) => "contra-congruence"@,
        Rule::DistinguishingObservation(_) => "distinguishing-observation"@,
        Rule::EqFalseUnit(u) => if u.then_side {
            "eq-false-then"@
        } else {
            "eq-false-else"@
        },
        Rule::LtAsymmetry(op) => if op == BinOp::LtI {
            "lt-asymmetry-int"@
        } else {
            "lt-asymmetry-real"@
        },
        Rule::Tag(t) => "tag-"@ + decimal(t.tag_fn.0 as nat),
        Rule::Inj(i) => "inj-"@ + decimal(i.ctor.0 as nat),
        Rule::Proj(p) => "proj-"@ + decimal(p.accessor.0 as nat),
        Rule::Instantiate(_) => "forall-instantiate"@,
        Rule::Unfold(name, _) => name@,
    }
}

impl Rule {
    pub fn name(&self) -> (r: String)
        ensures
            r@ == rule_name(*self),
    {
        match self {
            Rule::IteReduce => copy_text("ite-reduce"),
            Rule::Identity(i) => copy_text(i.name),
            Rule::EqTrueUnion => copy_text("eq-true-union"),
            Rule::EqFalseMirror => copy_text("eq-false-mirror"),
            Rule::ContraCongruence(_) => copy_text("contra-congruence"),
            Rule::DistinguishingObservation(_) => copy_text("distinguishing-observation"),
            Rule::EqFalseUnit(u) => if u.then_side {
                copy_text("eq-false-then")
            } else {
                copy_text("eq-false-else")
            },
            Rule::LtAsymmetry(op) => if *op == BinOp::LtI {
                copy_text("lt-asymmetry-int")
            } else {
                copy_text("lt-asymmetry-real")
            },
            Rule::Tag(t) => concat("tag-", number(t.tag_fn.0).as_str()),
            Rule::Inj(i) => concat("inj-", number(i.ctor.0).as_str()),
            Rule::Proj(p) => concat("proj-", number(p.accessor.0).as_str()),
            Rule::Instantiate(_) => copy_text("forall-instantiate"),
            Rule::Unfold(name, _) => copy_text(name.as_str()),
        }
    }
}

/// The names that a comma-separated list holds: its pieces, trimmed, but for the
/// empty ones.
pub open spec fn listed_names(ps: Seq<Seq<char>>) -> Seq<Seq<char>>
    decreases ps.len(),
{
    if ps.len() == 0 {
        Seq::empty()
    } else {
        let front = listed_names(ps.drop_last());
        let name = trimmed(ps.last());
        if name.len() == 0 {
            front
        } else {
            front.push(name)
        }
    }
}

/// The rules to drop, out of a comma-separated list of names.
pub fn dropped_rules(list: &str) -> (out: Vec<String>)
    ensures
        texts(out@) == listed_names(pieces(list@, ',')),
{
    let ps = split(list, ',');
    let ghost all = texts(ps@);
    let mut out: Vec<String> = Vec::new();
    let mut i: usize = 0;
    proof {
        assert(all.take(0) =~= Seq::empty());
        assert(texts(out@) =~= Seq::empty());
    }
    while i < ps.len()
        invariant
            i <= ps@.len(),
            all == texts(ps@),
            texts(out@) == listed_names(all.take(i as int)),
        decreases ps.len() - i,
    {
        let ghost before = texts(out@);
        proof {
            assert(all.take(i + 1).drop_last() =~= all.take(i as int));
            assert(all.take(i + 1).last() == ps@[i as int]@);
        }
        let name = copy_text(trim(ps[i].as_str()));
        if name.as_str().unicode_len() > 0 {
            let ghost n = name@;
            out.push(name);
            proof {
                assert(texts(out@) =~= before.push(n));
            }
        }
        i += 1;
    }
    proof {
        assert(all.take(all.len() as int) =~= all);
    }
    out
}

/// The rules whose names are not among those to drop.
pub open spec fn kept_rules(rs: Seq<Rule>, drop: Seq<String>) -> Seq<Rule>
    decreases rs.len(),
{
    if rs.len() == 0 {
        Seq::empty()
    } else {
        let rest = kept_rules(rs.drop_first(), drop);
        if lists_text(drop, rule_name(rs[0])) {
            rest
        } else {
            seq![rs[0]] + rest
        }
    }
}

/// Drops rules by name. Without a rule less is derived, never more.
pub fn kept(rs: Vec<Rule>, drop: &Vec<String>) -> (out: Vec<Rule>)
    ensures
        out@ == kept_rules(rs@, drop@),
{
    let ghost all = rs@;
    let mut rest = rs;
    let mut out: Vec<Rule> = Vec::new();
    let ghost mut i: int = 0;
    proof {
        assert(all.skip(0) =~= all);
        assert(out@ + kept_rules(all, drop@) =~= kept_rules(all, drop@));
    }
    while rest.len() > 0
        invariant
            0 <= i <= all.len(),
            rest@ == all.skip(i),
            out@ + kept_rules(rest@, drop@) == kept_rules(all, drop@),
        decreases rest.len(),
    {
        let ghost before = rest@;
        let ghost had = out@;
        let r = rest.remove(0);
        proof {
            assert(rest@ =~= before.drop_first());
            assert(rest@ =~= all.skip(i + 1));
            i = i + 1;
        }
        if !contains_text(drop, r.name().as_str()) {
            out.push(r);
            proof {
                assert(out@ + kept_rules(rest@, drop@) =~= had + (seq![before[0]] + kept_rules(
                    rest@,
                    drop@,
                )));
            }
        }
    }
    proof {
        assert(out@ + Seq::<Rule>::empty() =~= out@);
    }
    out
}

/// The static rules that are kept.
pub fn rules(drop: &Vec<String>) -> (out: Vec<Rule>)
    ensures
        exists|rs: Seq<Rule>| #[trigger] static_table(rs) && out@ == kept_rules(rs, drop@),
{
    let rs = static_rules();
    let ghost all = rs@;
    let out = kept(rs, drop);
    proof {
        assert(static_table(all));
    }
    out
}

/// The terminating reductions that are kept.
pub fn reduce_rules(drop: &Vec<String>) -> (out: Vec<Rule>)
    ensures
        out@ == kept_rules(seq![Rule::IteReduce], drop@),
{
    kept(terminating_ite_rules(), drop)
}

/// The rule `accessor(ctor(a0..an)) == a_index`.
pub fn proj_rule(accessor: FuncId, ctor: FuncId, index: usize) -> (r: Rule)
    ensures
        r == Rule::Proj(ProjApplier { accessor, ctor, index }),
{
    Rule::Proj(ProjApplier { accessor, ctor, index })
}

/// The rule that a constructor is injective.
pub fn inj_rule(ctor: FuncId) -> (r: Rule)
    ensures
        r == Rule::Inj(InjApplier { ctor }),
{
    Rule::Inj(InjApplier { ctor })
}

/// The rule `tag_fn(ctor(..)) == tag`.
pub fn tag_rule(tag_fn: FuncId, ctor_tags: Vec<(FuncId, usize)>) -> (r: Rule)
    ensures
        r == Rule::Tag(TagApplier { tag_fn, ctor_tags }),
{
    Rule::Tag(TagApplier { tag_fn, ctor_tags })
}

/// The rule that instantiates quantifiers.
pub fn forall_rule() -> (r: Rule)
    ensures
        r is Instantiate,
{
    Rule::Instantiate(ForallApplier { memo: Memo::new() })
}

/// The rule that unfolds a verified function.
pub fn function_rule(name: &str, func: FuncId, def: FunctionDefinition, pre_token: Option<FuncId>) -> (r:
    Rule)
    ensures
        r matches Rule::Unfold(n, p) && n@ == "fn-"@ + name@ && p.func == func && p.def == def
            && !p.limited_post && p.pre_token == pre_token,
{
    Rule::Unfold(
        concat("fn-", name),
        FunctionUnfoldApplier {
            func,
            def,
            limited_post: false,
            memo: Memo::new(),
            union_memo: Memo::new(),
            pre_token,
        },
    )
}

/// The rule that replays a function's postcondition and does nothing else.
pub fn post_rule(name: &str, func: FuncId, def: FunctionDefinition) -> (r: Rule)
    ensures
        r matches Rule::Unfold(n, p) && n@ == "fn-post-"@ + name@ && p.func == func && p.def == def
            && p.limited_post && p.pre_token is None,
{
    Rule::Unfold(
        concat("fn-post-", name),
        FunctionUnfoldApplier {
            func,
            def,
            limited_post: true,
            memo: Memo::new(),
            union_memo: Memo::new(),
            pre_token: None,
        },
    )
}

/// The rule that replays a recursive function's postcondition at its limited calls.
pub fn function_post_rule(name: &str, def: FunctionDefinition) -> (r: Rule)
    requires
        def.limited is Some,
    ensures
        r matches Rule::Unfold(n, p) && n@ == "fn-post-"@ + name@ && p.func == def.limited.unwrap()
            && p.def == def && p.limited_post && p.pre_token is None,
{
    let func = def.limited.unwrap();
    post_rule(name, func, def)
}

} // verus!
