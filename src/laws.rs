use crate::accessor::{
    all_facts, arm_lookup, arms_for, fact_value, generated, has_fact, variant_names, AccessorView,
    Fact, VariantView,
};
use crate::accessor::{accessor_views, run_outcome, Accessor};
use crate::error::{Category, TagError};
use crate::eval::evaluation;
use crate::tags::{
    duplicated, dup_at, first_in, fixpoint, lemma_unresolved_resolve, open_at, parse_failed, parsed_facts,
    pass, resolved, some_in, start, step, unresolved, unsupported_at, variant_result, Resolution,
};
use crate::value::Value;
use vstd::prelude::*;

verus! {

/// No arm of the accessor built from the first `rs.len()` variants is for a
/// variant name that none of them has.
proof fn lemma_arms_avoid(vn: Seq<Seq<char>>, rs: Seq<Seq<Fact>>, name: Seq<char>, x: Seq<char>)
    requires
        rs.len() <= vn.len(),
        forall|j: int| 0 <= j < rs.len() ==> vn[j] != x,
    ensures
        arm_lookup(arms_for(vn, rs, name), x) is None,
    decreases rs.len(),
{
    if rs.len() > 0 {
        let prev = arms_for(vn, rs.drop_last(), name);
        lemma_arms_avoid(vn, rs.drop_last(), name, x);
        if let Some(v) = fact_value(rs.last(), name) {
            assert(prev.push((vn[rs.len() - 1], v)).drop_last() =~= prev);
        }
    }
}

/// With distinct variant names, the arm for variant `i` holds the value of
/// the fact on that variant, and there is none where it lacks the fact.
proof fn lemma_arms_lookup(vn: Seq<Seq<char>>, rs: Seq<Seq<Fact>>, name: Seq<char>, i: int)
    requires
        rs.len() <= vn.len(),
        forall|a: int, b: int| 0 <= a < b < vn.len() ==> vn[a] != vn[b],
        0 <= i < rs.len(),
    ensures
        arm_lookup(arms_for(vn, rs, name), vn[i]) == fact_value(rs[i], name),
    decreases rs.len(),
{
    let prev = rs.drop_last();
    let pa = arms_for(vn, prev, name);
    if let Some(v) = fact_value(rs.last(), name) {
        assert(pa.push((vn[rs.len() - 1], v)).drop_last() =~= pa);
    }
    if i < rs.len() - 1 {
        assert(prev[i] == rs[i]);
        lemma_arms_lookup(vn, prev, name, i);
    } else {
        lemma_arms_avoid(vn, prev, name, vn[i]);
    }
}

/// Where every variant has the fact, there is one arm per variant.
proof fn lemma_arms_len(vn: Seq<Seq<char>>, rs: Seq<Seq<Fact>>, name: Seq<char>)
    requires
        forall|j: int| 0 <= j < rs.len() ==> (#[trigger] fact_value(rs[j], name)) is Some,
    ensures
        arms_for(vn, rs, name).len() == rs.len(),
    decreases rs.len(),
{
    if rs.len() > 0 {
        let prev = rs.drop_last();
        assert forall|j: int| 0 <= j < prev.len() implies (#[trigger] fact_value(prev[j], name)) is Some by {
            assert(prev[j] == rs[j]);
        }
        lemma_arms_len(vn, prev, name);
        assert(fact_value(rs[rs.len() - 1], name) is Some);
    }
}

/// The arms never outnumber the variants.
proof fn lemma_arms_bound(vn: Seq<Seq<char>>, rs: Seq<Seq<Fact>>, name: Seq<char>)
    ensures
        arms_for(vn, rs, name).len() <= rs.len(),
    decreases rs.len(),
{
    if rs.len() > 0 {
        lemma_arms_bound(vn, rs.drop_last(), name);
    }
}

pub open spec fn distinct_names(vs: Seq<VariantView>) -> bool {
    forall|a: int, b: int| 0 <= a < b < vs.len() ==> vs[a].0 != vs[b].0
}

/// A fact declared on every variant: its accessor has no fallback arm and
/// returns, for each variant, the value that the fact's expression took in
/// that variant's own scope.
pub proof fn law_full_coverage(vs: Seq<VariantView>, g: int, i: int)
    requires
        distinct_names(vs),
        generated(vs) is Ok,
        0 <= g < generated(vs)->Ok_0.len(),
        0 <= i < vs.len(),
        forall|j: int|
            0 <= j < vs.len() ==> (#[trigger] fact_value(
                variant_result(vs[j].0, vs[j].1)->Ok_0,
                generated(vs)->Ok_0[g].0,
            )) is Some,
    ensures
        !generated(vs)->Ok_0[g].3,
        arm_lookup(generated(vs)->Ok_0[g].2, vs[i].0) == fact_value(
            variant_result(vs[i].0, vs[i].1)->Ok_0,
            generated(vs)->Ok_0[g].0,
        ),
        arm_lookup(generated(vs)->Ok_0[g].2, vs[i].0) is Some,
{
    let rs = all_facts(vs)->Ok_0;
    let vn = variant_names(vs);
    let acc: AccessorView = generated(vs)->Ok_0[g];
    let name = acc.0;
    assert(rs.len() == vs.len());
    assert forall|j: int| 0 <= j < rs.len() implies (#[trigger] fact_value(rs[j], name)) is Some by {
        assert(fact_value(variant_result(vs[j].0, vs[j].1)->Ok_0, name) is Some);
    }
    lemma_arms_len(vn, rs, name);
    lemma_arms_lookup(vn, rs, name, i);
    assert(vn[i] == vs[i].0);
}

/// A fact missing from some variant: its accessor has a fallback arm and
/// returns no value for that variant; for every other variant it returns the
/// value of the fact there.
pub proof fn law_partial_coverage(vs: Seq<VariantView>, g: int, i: int)
    requires
        distinct_names(vs),
        generated(vs) is Ok,
        0 <= g < generated(vs)->Ok_0.len(),
        0 <= i < vs.len(),
        fact_value(variant_result(vs[i].0, vs[i].1)->Ok_0, generated(vs)->Ok_0[g].0) is None,
    ensures
        generated(vs)->Ok_0[g].3,
        arm_lookup(generated(vs)->Ok_0[g].2, vs[i].0) is None,
        forall|j: int|
            0 <= j < vs.len() ==> arm_lookup(generated(vs)->Ok_0[g].2, #[trigger] vs[j].0)
                == fact_value(variant_result(vs[j].0, vs[j].1)->Ok_0, generated(vs)->Ok_0[g].0),
{
    let rs = all_facts(vs)->Ok_0;
    let vn = variant_names(vs);
    let name = generated(vs)->Ok_0[g].0;
    assert forall|j: int| 0 <= j < vs.len() implies arm_lookup(
        generated(vs)->Ok_0[g].2,
        #[trigger] vs[j].0,
    ) == fact_value(variant_result(vs[j].0, vs[j].1)->Ok_0, name) by {
        lemma_arms_lookup(vn, rs, name, j);
        assert(vn[j] == vs[j].0);
    }
    lemma_arms_lookup(vn, rs, name, i);
    assert(vn[i] == vs[i].0);
    lemma_arms_drop(vn, rs, name, i);
}

/// Without the fact on variant `i` there are fewer arms than variants.
proof fn lemma_arms_drop(vn: Seq<Seq<char>>, rs: Seq<Seq<Fact>>, name: Seq<char>, i: int)
    requires
        0 <= i < rs.len(),
        fact_value(rs[i], name) is None,
    ensures
        arms_for(vn, rs, name).len() < rs.len(),
    decreases rs.len(),
{
    let prev = rs.drop_last();
    if i < rs.len() - 1 {
        assert(prev[i] == rs[i]);
        lemma_arms_drop(vn, prev, name, i);
    } else {
        lemma_arms_bound(vn, prev, name);
    }
}

/// Two runs on the same variants produce the same accessors, or the same
/// error.
pub proof fn law_deterministic(
    vs: Seq<VariantView>,
    r1: Result<Vec<Accessor>, TagError>,
    r2: Result<Vec<Accessor>, TagError>,
)
    requires
        run_outcome(vs, r1),
        run_outcome(vs, r2),
    ensures
        r1 is Ok <==> r2 is Ok,
        r1 is Ok ==> accessor_views(r1->Ok_0@) == accessor_views(r2->Ok_0@),
        r1 is Err ==> r1->Err_0@ == r2->Err_0@,
{
}

/// The state keeps fact `k` unresolved and binds only names of facts.
pub open spec fn held_back(facts: Seq<(Seq<char>, Seq<char>)>, st: Resolution, k: int) -> bool {
    &&& st.0.len() == facts.len()
    &&& st.0[k] is None
    &&& forall|key: Seq<char>|
        #[trigger] st.1.contains_key(key) ==> exists|j: int| 0 <= j < facts.len() && facts[j].0 == key
}

/// Fact `k` needs a variable `x` that no fact defines: without `x` in
/// scope its expression evaluates to nothing.
pub open spec fn needs_missing(facts: Seq<(Seq<char>, Seq<char>)>, k: int, x: Seq<char>) -> bool {
    &&& 0 <= k < facts.len()
    &&& forall|j: int| 0 <= j < facts.len() ==> facts[j].0 != x
    &&& forall|m: Map<Seq<char>, Value>| !m.contains_key(x) ==> (#[trigger] evaluation(facts[k].1, m)) is None
}

proof fn lemma_pass_held_back(
    facts: Seq<(Seq<char>, Seq<char>)>,
    st: Resolution,
    n: nat,
    k: int,
    x: Seq<char>,
)
    requires
        needs_missing(facts, k, x),
        held_back(facts, st, k),
        n <= facts.len(),
    ensures
        held_back(facts, pass(facts, st, n), k),
    decreases n,
{
    if n > 0 {
        lemma_pass_held_back(facts, st, (n - 1) as nat, k, x);
        let pre = pass(facts, st, (n - 1) as nat);
        let i = n - 1;
        if pre.0[i] is None {
            assert(!pre.1.contains_key(x));
            if i == k {
                assert(evaluation(facts[k].1, pre.1) is None);
            }
            if let Some(v) = evaluation(facts[i].1, pre.1) {
                let post = step(facts, pre, i);
                assert forall|key: Seq<char>| #[trigger] post.1.contains_key(key) implies exists|j: int|
                    0 <= j < facts.len() && facts[j].0 == key by {
                    if key != facts[i].0 {
                        assert(pre.1.contains_key(key));
                    }
                }
            }
        }
    }
}

proof fn lemma_fixpoint_held_back(
    facts: Seq<(Seq<char>, Seq<char>)>,
    st: Resolution,
    k: int,
    x: Seq<char>,
)
    requires
        needs_missing(facts, k, x),
        held_back(facts, st, k),
    ensures
        held_back(facts, fixpoint(facts, st), k),
    decreases unresolved(st.0),
{
    let next = pass(facts, st, facts.len());
    lemma_pass_held_back(facts, st, facts.len(), k, x);
    if unresolved(next.0) < unresolved(st.0) {
        lemma_fixpoint_held_back(facts, next, k, x);
    }
}

/// A fact whose expression cannot be evaluated without a variable `x` fails
/// with `UnresolvableExpression` when no fact of its own variant is named
/// `x`; the declarations of other variants play no part.
pub proof fn law_scoped_resolution(variant: Seq<char>, ds: Seq<Seq<Seq<char>>>, k: int, x: Seq<char>)
    requires
        !some_in(ds.len() as int, parse_failed(variant, ds)),
        !some_in(ds.len() as int, duplicated(parsed_facts(variant, ds))),
        needs_missing(parsed_facts(variant, ds), k, x),
    ensures
        variant_result(variant, ds) is Err,
        variant_result(variant, ds)->Err_0.0 == Category::UnresolvableExpression,
{
    reveal(variant_result);
    let facts = parsed_facts(variant, ds);
    let n = ds.len() as int;
    lemma_fixpoint_held_back(facts, start(facts), k, x);
    let vals = resolved(facts);
    assert(open_at(vals)(k));
    assert(some_in(n, open_at(vals)));
}

/// A run fails as soon as one variant holds such a fact, whatever the other
/// variants declare.
pub proof fn law_scoped_run(vs: Seq<VariantView>, i: int, k: int, x: Seq<char>)
    requires
        0 <= i < vs.len(),
        !some_in(vs[i].1.len() as int, parse_failed(vs[i].0, vs[i].1)),
        !some_in(vs[i].1.len() as int, duplicated(parsed_facts(vs[i].0, vs[i].1))),
        needs_missing(parsed_facts(vs[i].0, vs[i].1), k, x),
    ensures
        generated(vs) is Err,
{
    law_scoped_resolution(vs[i].0, vs[i].1, k, x);
    assert(crate::accessor::variant_failed(vs)(i));
}

/// Adding variables never changes what a successful evaluation yields.
pub open spec fn monotone_evaluation() -> bool {
    forall|e: Seq<char>, m1: Map<Seq<char>, Value>, m2: Map<Seq<char>, Value>|
        #[trigger] evaluation(e, m1) is Some && m1.submap_of(m2) ==> #[trigger] evaluation(e, m2)
            == evaluation(e, m1)
}

/// No two facts share a name.
pub open spec fn unique_names(facts: Seq<(Seq<char>, Seq<char>)>) -> bool {
    forall|i: int, j: int| 0 <= i < j < facts.len() ==> facts[i].0 != facts[j].0
}

/// The state of a resolution is consistent: every binding is a resolved
/// fact's supported value, every resolved supported fact is bound, and
/// every resolved fact's value is what its expression yields with the
/// other bindings.
pub open spec fn consistent(facts: Seq<(Seq<char>, Seq<char>)>, st: Resolution) -> bool {
    &&& st.0.len() == facts.len()
    &&& forall|key: Seq<char>|
        #[trigger] st.1.contains_key(key) ==> exists|j: int|
            0 <= j < facts.len() && facts[j].0 == key && st.0[j] is Some
    &&& forall|j: int|
        0 <= j < facts.len() && (#[trigger] st.0[j]) is Some && st.0[j]->0.is_supported()
            ==> st.1.contains_key(facts[j].0) && st.1[facts[j].0] == st.0[j]->0
    &&& forall|j: int|
        0 <= j < facts.len() && (#[trigger] st.0[j]) is Some ==> evaluation(
            facts[j].1,
            st.1.remove(facts[j].0),
        ) == st.0[j]
}

proof fn lemma_step_consistent(facts: Seq<(Seq<char>, Seq<char>)>, st: Resolution, i: int)
    requires
        monotone_evaluation(),
        unique_names(facts),
        consistent(facts, st),
        0 <= i < facts.len(),
    ensures
        consistent(facts, step(facts, st, i)),
        forall|j: int| 0 <= j < facts.len() && st.0[j] is Some ==> step(facts, st, i).0[j] == st.0[j],
        st.1.submap_of(step(facts, st, i).1),
{
    let post = step(facts, st, i);
    if st.0[i] is None {
        if let Some(v) = evaluation(facts[i].1, st.1) {
            let n = facts[i].0;
            assert(!st.1.contains_key(n)) by {
                if st.1.contains_key(n) {
                    let j = choose|j: int| 0 <= j < facts.len() && facts[j].0 == n && st.0[j] is Some;
                    assert(j != i);
                }
            }
            assert(post.1.remove(n) =~= st.1) by {
                if v.is_supported() {
                    assert(st.1.insert(n, v).remove(n) =~= st.1);
                } else {
                    assert(st.1.remove(n) =~= st.1);
                }
            }
            assert forall|j: int|
                0 <= j < facts.len() && (#[trigger] post.0[j]) is Some implies evaluation(
                facts[j].1,
                post.1.remove(facts[j].0),
            ) == post.0[j] by {
                if j != i {
                    assert(st.1.remove(facts[j].0).submap_of(post.1.remove(facts[j].0)));
                    assert(evaluation(facts[j].1, st.1.remove(facts[j].0)) == st.0[j]);
                }
            }
            assert forall|key: Seq<char>| #[trigger] post.1.contains_key(key) implies exists|j: int|
                0 <= j < facts.len() && facts[j].0 == key && post.0[j] is Some by {
                if key != n {
                    assert(st.1.contains_key(key));
                    let j = choose|j: int| 0 <= j < facts.len() && facts[j].0 == key && st.0[j] is Some;
                    assert(post.0[j] is Some);
                } else {
                    assert(post.0[i] is Some);
                }
            }
            assert forall|j: int|
                0 <= j < facts.len() && (#[trigger] post.0[j]) is Some && post.0[j]->0.is_supported()
                    implies post.1.contains_key(facts[j].0) && post.1[facts[j].0] == post.0[j]->0 by {
                if j != i {
                    assert(facts[j].0 != n);
                }
            }
        }
    }
}

proof fn lemma_pass_consistent(facts: Seq<(Seq<char>, Seq<char>)>, st: Resolution, m: nat)
    requires
        monotone_evaluation(),
        unique_names(facts),
        consistent(facts, st),
        m <= facts.len(),
    ensures
        consistent(facts, pass(facts, st, m)),
        forall|j: int| 0 <= j < facts.len() && st.0[j] is Some ==> pass(facts, st, m).0[j] == st.0[j],
        st.1.submap_of(pass(facts, st, m).1),
    decreases m,
{
    if m > 0 {
        lemma_pass_consistent(facts, st, (m - 1) as nat);
        lemma_step_consistent(facts, pass(facts, st, (m - 1) as nat), m - 1);
    }
}

proof fn lemma_fixpoint_consistent(facts: Seq<(Seq<char>, Seq<char>)>, st: Resolution)
    requires
        monotone_evaluation(),
        unique_names(facts),
        consistent(facts, st),
    ensures
        consistent(facts, fixpoint(facts, st)),
        forall|j: int| 0 <= j < facts.len() && st.0[j] is Some ==> fixpoint(facts, st).0[j] == st.0[j],
        st.1.submap_of(fixpoint(facts, st).1),
    decreases unresolved(st.0),
{
    let next = pass(facts, st, facts.len());
    lemma_pass_consistent(facts, st, facts.len());
    if unresolved(next.0) < unresolved(st.0) {
        lemma_fixpoint_consistent(facts, next);
        let f = fixpoint(facts, next).1;
        assert forall|k: Seq<char>| #[trigger] st.1.contains_key(k) implies f.contains_key(k)
            && f[k] == st.1[k] by {
            assert(next.1.contains_key(k));
        }
    }
}

/// A pass either resolves something or changes nothing, and then every
/// fact it left unresolved evaluates to nothing in the state's scope.
proof fn lemma_pass_progress(facts: Seq<(Seq<char>, Seq<char>)>, st: Resolution, m: nat)
    requires
        st.0.len() == facts.len(),
        m <= facts.len(),
    ensures
        unresolved(pass(facts, st, m).0) <= unresolved(st.0),
        unresolved(pass(facts, st, m).0) == unresolved(st.0) ==> pass(facts, st, m) == st
            && forall|i: int| 0 <= i < m && st.0[i] is None ==> evaluation(facts[i].1, st.1) is None,
        pass(facts, st, m).0.len() == facts.len(),
    decreases m,
{
    if m > 0 {
        lemma_pass_progress(facts, st, (m - 1) as nat);
        let pre = pass(facts, st, (m - 1) as nat);
        let i = m - 1;
        if pre.0[i] is None {
            if let Some(v) = evaluation(facts[i].1, pre.1) {
                lemma_unresolved_resolve(pre.0, i, v);
            }
        }
    }
}

/// Where resolution stops, every unresolved fact evaluates to nothing in
/// the final scope.
proof fn lemma_fixpoint_stuck(facts: Seq<(Seq<char>, Seq<char>)>, st: Resolution)
    requires
        st.0.len() == facts.len(),
    ensures
        fixpoint(facts, st).0.len() == facts.len(),
        forall|i: int|
            0 <= i < facts.len() && (#[trigger] fixpoint(facts, st).0[i]) is None ==> evaluation(
                facts[i].1,
                fixpoint(facts, st).1,
            ) is None,
    decreases unresolved(st.0),
{
    let next = pass(facts, st, facts.len());
    lemma_pass_progress(facts, st, facts.len());
    if unresolved(next.0) < unresolved(st.0) {
        lemma_fixpoint_stuck(facts, next);
    }
}

/// The final state of resolving `facts` is consistent and stuck.
proof fn lemma_final(facts: Seq<(Seq<char>, Seq<char>)>)
    requires
        monotone_evaluation(),
        unique_names(facts),
    ensures
        consistent(facts, fixpoint(facts, start(facts))),
        forall|i: int|
            0 <= i < facts.len() && (#[trigger] fixpoint(facts, start(facts)).0[i]) is None
                ==> evaluation(facts[i].1, fixpoint(facts, start(facts)).1) is None,
{
    lemma_fixpoint_consistent(facts, start(facts));
    lemma_fixpoint_stuck(facts, start(facts));
}

/// The facts of a resolved variant as a map from name to value.
pub open spec fn facts_map(fs: Seq<(Seq<char>, Seq<char>, Value)>) -> Map<Seq<char>, Value> {
    Map::new(
        |n: Seq<char>| exists|j: int| 0 <= j < fs.len() && fs[j].0 == n,
        |n: Seq<char>| fs[choose|j: int| 0 <= j < fs.len() && fs[j].0 == n].2,
    )
}

/// Declarations that parse and repeat no name have facts with unique names.
proof fn lemma_unique(variant: Seq<char>, ds: Seq<Seq<Seq<char>>>)
    requires
        !some_in(ds.len() as int, duplicated(parsed_facts(variant, ds))),
    ensures
        unique_names(parsed_facts(variant, ds)),
{
    let facts = parsed_facts(variant, ds);
    assert forall|i: int, j: int| 0 <= i < j < facts.len() implies facts[i].0 != facts[j].0 by {
        if facts[i].0 == facts[j].0 {
            assert(duplicated(facts)(j));
        }
    }
}

/// A successful resolution: its final state binds exactly the facts, each
/// to its value, and each value is what the fact's expression yields with
/// the other bindings.
proof fn lemma_ok_state(variant: Seq<char>, ds: Seq<Seq<Seq<char>>>)
    requires
        monotone_evaluation(),
        variant_result(variant, ds) is Ok,
    ensures
        ({
            let facts = parsed_facts(variant, ds);
            let fin = fixpoint(facts, start(facts));
            let fs = variant_result(variant, ds)->Ok_0;
            &&& unique_names(facts)
            &&& !some_in(ds.len() as int, parse_failed(variant, ds))
            &&& !some_in(ds.len() as int, duplicated(facts))
            &&& fs.len() == facts.len()
            &&& fin.1 == facts_map(fs)
            &&& forall|k: int|
                0 <= k < fs.len() ==> fin.0[k] == Some(#[trigger] fs[k].2) && fs[k].0 == facts[k].0
                    && fs[k].1 == facts[k].1 && fs[k].2.is_supported()
            &&& consistent(facts, fin)
        }),
{
    reveal(variant_result);
    let facts = parsed_facts(variant, ds);
    let n = ds.len() as int;
    lemma_unique(variant, ds);
    lemma_final(facts);
    let fin = fixpoint(facts, start(facts));
    let vals = resolved(facts);
    let fs = variant_result(variant, ds)->Ok_0;
    assert forall|k: int| 0 <= k < fs.len() implies fin.0[k] == Some(#[trigger] fs[k].2) && fs[k].0
        == facts[k].0 && fs[k].1 == facts[k].1 && fs[k].2.is_supported() by {
        assert(!open_at(vals)(k));
        assert(!unsupported_at(vals)(k));
        assert(fin.0[k] is Some);
    }
    let m = facts_map(fs);
    assert forall|key: Seq<char>| fin.1.contains_key(key) <==> m.contains_key(key) by {
        if fin.1.contains_key(key) {
            let j = choose|j: int| 0 <= j < facts.len() && facts[j].0 == key && fin.0[j] is Some;
            assert(fs[j].0 == key);
        }
        if m.contains_key(key) {
            let j = choose|j: int| 0 <= j < fs.len() && fs[j].0 == key;
            assert(fs[j].2.is_supported());
        }
    }
    assert forall|key: Seq<char>| #[trigger] m.contains_key(key) implies fin.1[key] == m[key] by {
        let j = choose|j: int| 0 <= j < fs.len() && fs[j].0 == key;
        assert(fs[j].2.is_supported());
        assert(fin.0[j] == Some(fs[j].2));
        assert(m[key] == fs[j].2);
    }
    assert(fin.1.dom() =~= m.dom());
    assert(fin.1 =~= m);
}

/// Given that adding variables never changes a successful evaluation: in a
/// variant that resolves, each fact's value is what its expression yields
/// with every other fact of the variant in scope.
pub proof fn law_value_in_full_scope(variant: Seq<char>, ds: Seq<Seq<Seq<char>>>, k: int)
    requires
        monotone_evaluation(),
        variant_result(variant, ds) is Ok,
        0 <= k < variant_result(variant, ds)->Ok_0.len(),
    ensures
        ({
            let fs = variant_result(variant, ds)->Ok_0;
            evaluation(fs[k].1, facts_map(fs).remove(fs[k].0)) == Some(fs[k].2)
        }),
{
    lemma_ok_state(variant, ds);
    let facts = parsed_facts(variant, ds);
    let fin = fixpoint(facts, start(facts));
    let fs = variant_result(variant, ds)->Ok_0;
    assert(fs[k].2.is_supported());
    assert(fin.0[k] is Some);
}

/// Every unresolved fact evaluates to nothing in the state's scope.
pub open spec fn stuck(facts: Seq<(Seq<char>, Seq<char>)>, st: Resolution) -> bool {
    forall|i: int|
        0 <= i < facts.len() && (#[trigger] st.0[i]) is None ==> evaluation(facts[i].1, st.1) is None
}

/// What the state `st1` of resolving `facts1` has found, the final state
/// `f2` of resolving `facts2` has found too, with the same values.
pub open spec fn included(
    facts1: Seq<(Seq<char>, Seq<char>)>,
    st1: Resolution,
    facts2: Seq<(Seq<char>, Seq<char>)>,
    f2: Resolution,
) -> bool {
    &&& st1.0.len() == facts1.len()
    &&& st1.1.submap_of(f2.1)
    &&& forall|j: int|
        0 <= j < facts1.len() && (#[trigger] st1.0[j]) is Some ==> exists|j2: int|
            0 <= j2 < facts2.len() && facts2[j2] == facts1[j] && f2.0[j2] == st1.0[j]
}

/// The assumptions under which one resolution is included in another.
pub open spec fn comparable(
    facts1: Seq<(Seq<char>, Seq<char>)>,
    facts2: Seq<(Seq<char>, Seq<char>)>,
    f2: Resolution,
) -> bool {
    &&& monotone_evaluation()
    &&& unique_names(facts2)
    &&& forall|x: (Seq<char>, Seq<char>)| facts1.contains(x) ==> facts2.contains(x)
    &&& consistent(facts2, f2)
    &&& stuck(facts2, f2)
}

proof fn lemma_step_included(
    facts1: Seq<(Seq<char>, Seq<char>)>,
    st1: Resolution,
    i: int,
    facts2: Seq<(Seq<char>, Seq<char>)>,
    f2: Resolution,
)
    requires
        comparable(facts1, facts2, f2),
        included(facts1, st1, facts2, f2),
        0 <= i < facts1.len(),
    ensures
        included(facts1, step(facts1, st1, i), facts2, f2),
{
    let post = step(facts1, st1, i);
    if st1.0[i] is None {
        if let Some(v) = evaluation(facts1[i].1, st1.1) {
            let e = facts1[i].1;
            let n = facts1[i].0;
            assert(evaluation(e, f2.1) == Some(v));
            assert(facts1.contains(facts1[i]));
            let j2 = choose|j2: int| 0 <= j2 < facts2.len() && facts2[j2] == facts1[i];
            if f2.0[j2] is None {
                assert(evaluation(facts2[j2].1, f2.1) is None);
            }
            let w = f2.0[j2]->0;
            assert(evaluation(e, f2.1.remove(n)) == Some(w));
            assert(f2.1.remove(n).submap_of(f2.1));
            assert(w == v);
            if v.is_supported() {
                assert(f2.1.contains_key(facts2[j2].0) && f2.1[facts2[j2].0] == w);
                assert(post.1.submap_of(f2.1));
            }
            assert forall|j: int|
                0 <= j < facts1.len() && (#[trigger] post.0[j]) is Some implies exists|k2: int|
                    0 <= k2 < facts2.len() && facts2[k2] == facts1[j] && f2.0[k2] == post.0[j] by {
                if j == i {
                    assert(facts2[j2] == facts1[j] && f2.0[j2] == post.0[j]);
                } else {
                    assert(st1.0[j] is Some);
                }
            }
        }
    }
}

proof fn lemma_pass_included(
    facts1: Seq<(Seq<char>, Seq<char>)>,
    st1: Resolution,
    m: nat,
    facts2: Seq<(Seq<char>, Seq<char>)>,
    f2: Resolution,
)
    requires
        comparable(facts1, facts2, f2),
        included(facts1, st1, facts2, f2),
        m <= facts1.len(),
    ensures
        included(facts1, pass(facts1, st1, m), facts2, f2),
    decreases m,
{
    if m > 0 {
        lemma_pass_included(facts1, st1, (m - 1) as nat, facts2, f2);
        lemma_step_included(facts1, pass(facts1, st1, (m - 1) as nat), m - 1, facts2, f2);
    }
}

proof fn lemma_fixpoint_included(
    facts1: Seq<(Seq<char>, Seq<char>)>,
    st1: Resolution,
    facts2: Seq<(Seq<char>, Seq<char>)>,
    f2: Resolution,
)
    requires
        comparable(facts1, facts2, f2),
        included(facts1, st1, facts2, f2),
    ensures
        included(facts1, fixpoint(facts1, st1), facts2, f2),
    decreases unresolved(st1.0),
{
    let next = pass(facts1, st1, facts1.len());
    lemma_pass_included(facts1, st1, facts1.len(), facts2, f2);
    if unresolved(next.0) < unresolved(st1.0) {
        lemma_fixpoint_included(facts1, next, facts2, f2);
    }
}

/// Where the declarations `ds1` resolve, declarations `ds2` that declare
/// the same facts in another order resolve too, to the same values.
proof fn lemma_reordered(variant: Seq<char>, ds1: Seq<Seq<Seq<char>>>, ds2: Seq<Seq<Seq<char>>>)
    requires
        monotone_evaluation(),
        variant_result(variant, ds1) is Ok,
        !some_in(ds2.len() as int, parse_failed(variant, ds2)),
        !some_in(ds2.len() as int, duplicated(parsed_facts(variant, ds2))),
        forall|x: (Seq<char>, Seq<char>)|
            parsed_facts(variant, ds1).contains(x) <==> parsed_facts(variant, ds2).contains(x),
    ensures
        variant_result(variant, ds2) is Ok,
        facts_map(variant_result(variant, ds1)->Ok_0) == facts_map(
            variant_result(variant, ds2)->Ok_0,
        ),
{
    let facts1 = parsed_facts(variant, ds1);
    let facts2 = parsed_facts(variant, ds2);
    lemma_ok_state(variant, ds1);
    lemma_unique(variant, ds2);
    lemma_final(facts2);
    let f1 = fixpoint(facts1, start(facts1));
    let f2 = fixpoint(facts2, start(facts2));
    let fs1 = variant_result(variant, ds1)->Ok_0;
    assert(included(facts1, start(facts1), facts2, f2)) by {
        assert(start(facts1).1.submap_of(f2.1));
    }
    lemma_fixpoint_included(facts1, start(facts1), facts2, f2);
    let vals2 = resolved(facts2);
    let n2 = ds2.len() as int;
    assert forall|j2: int| 0 <= j2 < n2 implies (#[trigger] vals2[j2]) is Some
        && vals2[j2]->0.is_supported() by {
        assert(facts2.contains(facts2[j2]));
        let j = choose|j: int| 0 <= j < facts1.len() && facts1[j] == facts2[j2];
        assert(f1.0[j] == Some(fs1[j].2));
        let k2 = choose|k2: int|
            0 <= k2 < facts2.len() && facts2[k2] == facts1[j] && f2.0[k2] == f1.0[j];
        if k2 != j2 {
            if k2 < j2 {
                assert(facts2[k2].0 != facts2[j2].0);
            } else {
                assert(facts2[j2].0 != facts2[k2].0);
            }
        }
    }
    assert(!some_in(n2, open_at(vals2))) by {
        if some_in(n2, open_at(vals2)) {
            let j = choose|j: int| 0 <= j < n2 && #[trigger] open_at(vals2)(j);
            assert(vals2[j] is Some);
        }
    }
    assert(!some_in(n2, unsupported_at(vals2))) by {
        if some_in(n2, unsupported_at(vals2)) {
            let j = choose|j: int| 0 <= j < n2 && #[trigger] unsupported_at(vals2)(j);
            assert(vals2[j] is Some);
        }
    }
    assert(variant_result(variant, ds2) is Ok) by {
        reveal(variant_result);
    }
    lemma_ok_state(variant, ds2);
    let fs2 = variant_result(variant, ds2)->Ok_0;
    assert forall|key: Seq<char>| f1.1.contains_key(key) <==> f2.1.contains_key(key) by {
        if f2.1.contains_key(key) {
            let j2 = choose|j2: int| 0 <= j2 < facts2.len() && facts2[j2].0 == key && f2.0[j2] is Some;
            assert(facts2.contains(facts2[j2]));
            let j = choose|j: int| 0 <= j < facts1.len() && facts1[j] == facts2[j2];
            assert(f1.0[j] == Some(fs1[j].2));
        }
    }
    assert(f1.1 =~= f2.1);
}

/// Given that adding variables never changes a successful evaluation: the
/// order in which a variant declares its facts does not matter. Two lists of
/// declarations that parse, repeat no name and declare the same facts
/// either both resolve, to the same value for each name, or both fail.
pub proof fn law_order_irrelevant(
    variant: Seq<char>,
    ds1: Seq<Seq<Seq<char>>>,
    ds2: Seq<Seq<Seq<char>>>,
)
    requires
        monotone_evaluation(),
        !some_in(ds1.len() as int, parse_failed(variant, ds1)),
        !some_in(ds1.len() as int, duplicated(parsed_facts(variant, ds1))),
        !some_in(ds2.len() as int, parse_failed(variant, ds2)),
        !some_in(ds2.len() as int, duplicated(parsed_facts(variant, ds2))),
        forall|x: (Seq<char>, Seq<char>)|
            parsed_facts(variant, ds1).contains(x) <==> parsed_facts(variant, ds2).contains(x),
    ensures
        variant_result(variant, ds1) is Ok <==> variant_result(variant, ds2) is Ok,
        variant_result(variant, ds1) is Ok ==> facts_map(variant_result(variant, ds1)->Ok_0)
            == facts_map(variant_result(variant, ds2)->Ok_0),
{
    if variant_result(variant, ds1) is Ok {
        lemma_reordered(variant, ds1, ds2);
    }
    if variant_result(variant, ds2) is Ok {
        lemma_reordered(variant, ds2, ds1);
    }
}

/// The first `p` facts of the order `ord`, bound to the values `vals`.
pub open spec fn prefix_scope(
    facts: Seq<(Seq<char>, Seq<char>)>,
    ord: Seq<int>,
    vals: Seq<Value>,
    p: int,
) -> Map<Seq<char>, Value> {
    Map::new(
        |n: Seq<char>| exists|q: int| 0 <= q < p && facts[ord[q]].0 == n,
        |n: Seq<char>| vals[choose|q: int| 0 <= q < p && facts[ord[q]].0 == n],
    )
}

/// `ord` lists each fact once, and evaluating the facts in that order, each
/// with the ones before it in scope, yields the supported values `vals`.
pub open spec fn evaluation_order(
    facts: Seq<(Seq<char>, Seq<char>)>,
    ord: Seq<int>,
    vals: Seq<Value>,
) -> bool {
    &&& ord.len() == facts.len()
    &&& vals.len() == facts.len()
    &&& forall|p: int| 0 <= p < ord.len() ==> 0 <= #[trigger] ord[p] < facts.len()
    &&& forall|p: int, q: int| 0 <= p < q < ord.len() ==> ord[p] != ord[q]
    &&& forall|i: int| 0 <= i < facts.len() ==> #[trigger] ord.contains(i)
    &&& forall|p: int|
        0 <= p < ord.len() ==> (#[trigger] vals[p]).is_supported() && evaluation(
            facts[ord[p]].1,
            prefix_scope(facts, ord, vals, p),
        ) == Some(vals[p])
}

proof fn lemma_order_prefix(
    facts: Seq<(Seq<char>, Seq<char>)>,
    ord: Seq<int>,
    vals: Seq<Value>,
    f: Resolution,
    p: int,
)
    requires
        monotone_evaluation(),
        unique_names(facts),
        evaluation_order(facts, ord, vals),
        consistent(facts, f),
        stuck(facts, f),
        0 <= p <= ord.len(),
    ensures
        forall|q: int| 0 <= q < p ==> f.0[#[trigger] ord[q]] == Some(vals[q]),
    decreases p,
{
    if p > 0 {
        let r = p - 1;
        lemma_order_prefix(facts, ord, vals, f, r);
        let scope = prefix_scope(facts, ord, vals, r);
        assert forall|n: Seq<char>| #[trigger] scope.contains_key(n) implies f.1.contains_key(n)
            && f.1[n] == scope[n] by {
            let q = choose|q: int| 0 <= q < r && facts[ord[q]].0 == n;
            assert(f.0[ord[q]] == Some(vals[q]));
            assert(vals[q].is_supported());
        }
        assert(scope.submap_of(f.1));
        let i = ord[r];
        let e = facts[i].1;
        assert(vals[r].is_supported());
        assert(evaluation(e, f.1) == Some(vals[r]));
        if f.0[i] is None {
            assert(evaluation(e, f.1) is None);
        }
        assert(evaluation(e, f.1.remove(facts[i].0)) == f.0[i]);
        assert(f.1.remove(facts[i].0).submap_of(f.1));
    }
}

/// Given that adding variables never changes a successful evaluation: a
/// variant whose declarations parse and repeat no name resolves whenever
/// some order of its facts evaluates each from the ones before it, and
/// each fact gets the value that order gives it.
pub proof fn law_some_order_resolves(
    variant: Seq<char>,
    ds: Seq<Seq<Seq<char>>>,
    ord: Seq<int>,
    vals: Seq<Value>,
)
    requires
        monotone_evaluation(),
        !some_in(ds.len() as int, parse_failed(variant, ds)),
        !some_in(ds.len() as int, duplicated(parsed_facts(variant, ds))),
        evaluation_order(parsed_facts(variant, ds), ord, vals),
    ensures
        variant_result(variant, ds) is Ok,
        forall|p: int|
            0 <= p < ord.len() ==> variant_result(variant, ds)->Ok_0[#[trigger] ord[p]].2 == vals[p],
{
    let facts = parsed_facts(variant, ds);
    let n = ds.len() as int;
    lemma_unique(variant, ds);
    lemma_final(facts);
    let f = fixpoint(facts, start(facts));
    lemma_order_prefix(facts, ord, vals, f, ord.len() as int);
    let rv = resolved(facts);
    assert forall|i: int| 0 <= i < n implies (#[trigger] rv[i]) is Some && rv[i]->0.is_supported() by {
        assert(ord.contains(i));
        let p = choose|p: int| 0 <= p < ord.len() && ord[p] == i;
        assert(f.0[ord[p]] == Some(vals[p]));
        assert(vals[p].is_supported());
    }
    assert(!some_in(n, open_at(rv))) by {
        if some_in(n, open_at(rv)) {
            let j = choose|j: int| 0 <= j < n && #[trigger] open_at(rv)(j);
            assert(rv[j] is Some);
        }
    }
    assert(!some_in(n, unsupported_at(rv))) by {
        if some_in(n, unsupported_at(rv)) {
            let j = choose|j: int| 0 <= j < n && #[trigger] unsupported_at(rv)(j);
            assert(rv[j] is Some);
        }
    }
    reveal(variant_result);
    assert forall|p: int| 0 <= p < ord.len() implies variant_result(variant, ds)->Ok_0[#[trigger] ord[p]].2
        == vals[p] by {
        assert(f.0[ord[p]] == Some(vals[p]));
    }
}

/// Where `p` holds somewhere below `n`, there is a least such index.
proof fn lemma_first_exists(n: int, p: spec_fn(int) -> bool)
    requires
        some_in(n, p),
    ensures
        0 <= first_in(n, p) < n,
        p(first_in(n, p)),
        forall|k: int| 0 <= k < first_in(n, p) ==> !#[trigger] p(k),
    decreases n,
{
    if some_in(n - 1, p) {
        lemma_first_exists(n - 1, p);
        let f = first_in(n - 1, p);
        assert(0 <= f < n && p(f) && forall|k: int| 0 <= k < f ==> !#[trigger] p(k));
    } else {
        let i = choose|i: int| 0 <= i < n && #[trigger] p(i);
        assert(i == n - 1);
        assert(0 <= i < n && p(i) && forall|k: int| 0 <= k < i ==> !#[trigger] p(k));
    }
}

/// Given that adding variables never changes a successful evaluation: where
/// a fact is declared on every variant, its accessor returns for each
/// variant what the fact's expression there yields with every other fact of
/// that variant in scope; no fact of another variant takes part.
pub proof fn law_full_coverage_in_scope(vs: Seq<VariantView>, g: int, i: int)
    requires
        monotone_evaluation(),
        distinct_names(vs),
        generated(vs) is Ok,
        0 <= g < generated(vs)->Ok_0.len(),
        0 <= i < vs.len(),
        forall|j: int|
            0 <= j < vs.len() ==> (#[trigger] fact_value(
                variant_result(vs[j].0, vs[j].1)->Ok_0,
                generated(vs)->Ok_0[g].0,
            )) is Some,
    ensures
        ({
            let fs = variant_result(vs[i].0, vs[i].1)->Ok_0;
            let name = generated(vs)->Ok_0[g].0;
            exists|k: int|
                0 <= k < fs.len() && fs[k].0 == name && arm_lookup(generated(vs)->Ok_0[g].2, vs[i].0)
                    == Some(fs[k].2) && evaluation(fs[k].1, facts_map(fs).remove(name)) == Some(
                    fs[k].2,
                )
        }),
{
    law_full_coverage(vs, g, i);
    let fs = variant_result(vs[i].0, vs[i].1)->Ok_0;
    let name = generated(vs)->Ok_0[g].0;
    assert(!crate::accessor::variant_failed(vs)(i));
    assert(fact_value(fs, name) is Some);
    lemma_first_exists(fs.len() as int, has_fact(fs, name));
    let k = first_in(fs.len() as int, has_fact(fs, name));
    assert(has_fact(fs, name)(k));
    law_value_in_full_scope(vs[i].0, vs[i].1, k);
}

} // verus!
