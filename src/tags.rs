use crate::error::{Category, ErrorView, TagError};
use crate::eval::{bind, evaluate_expr, evaluation, new_scope, scope_vars, Scope};
use crate::tag::{declared, Tag};
use crate::text::views;
use crate::value::{Kind, Value};
use vstd::prelude::*;

verus! {

/// The resolved facts of one variant, in declaration order.
#[derive(Debug, Clone)]
pub struct Tags(pub Vec<Tag>);

/// The state of a resolution: the value found so far for each fact, and
/// the variables in scope.
pub type Resolution = (Seq<Option<Value>>, Map<Seq<char>, Value>);

/// The least index below `n` at which `p` holds.
pub open spec fn first_in(n: int, p: spec_fn(int) -> bool) -> int {
    choose|i: int| 0 <= i < n && #[trigger] p(i) && forall|k: int| 0 <= k < i ==> !#[trigger] p(k)
}

/// Whether `p` holds at some index below `n`.
pub open spec fn some_in(n: int, p: spec_fn(int) -> bool) -> bool {
    exists|i: int| 0 <= i < n && #[trigger] p(i)
}

/// The number of facts without a value.
pub open spec fn unresolved(vals: Seq<Option<Value>>) -> nat
    decreases vals.len(),
{
    if vals.len() == 0 {
        0
    } else {
        unresolved(vals.drop_last()) + if vals.last() is None {
            1nat
        } else {
            0nat
        }
    }
}

/// One evaluation attempt on fact `i` (name and expression) in state `st`.
pub open spec fn step(facts: Seq<(Seq<char>, Seq<char>)>, st: Resolution, i: int) -> Resolution {
    if st.0[i] is Some {
        st
    } else {
        match evaluation(facts[i].1, st.1) {
            Some(v) => (
                st.0.update(i, Some(v)),
                if v.is_supported() {
                    st.1.insert(facts[i].0, v)
                } else {
                    st.1
                },
            ),
            None => st,
        }
    }
}

/// The first `n` evaluation attempts of a pass over the facts, in order.
pub open spec fn pass(facts: Seq<(Seq<char>, Seq<char>)>, st: Resolution, n: nat) -> Resolution
    decreases n,
{
    if n == 0 {
        st
    } else {
        step(facts, pass(facts, st, (n - 1) as nat), n - 1)
    }
}

/// Full passes from `st` until a pass resolves nothing.
pub open spec fn fixpoint(facts: Seq<(Seq<char>, Seq<char>)>, st: Resolution) -> Resolution
    decreases unresolved(st.0),
{
    let next = pass(facts, st, facts.len());
    if unresolved(next.0) < unresolved(st.0) {
        fixpoint(facts, next)
    } else {
        next
    }
}

/// The state that resolution starts from: nothing resolved, nothing bound.
pub open spec fn start(facts: Seq<(Seq<char>, Seq<char>)>) -> Resolution {
    (Seq::new(facts.len(), |i: int| None), Map::empty())
}

/// The values that resolution finds for the facts, starting from nothing.
pub open spec fn resolved(facts: Seq<(Seq<char>, Seq<char>)>) -> Seq<Option<Value>> {
    fixpoint(facts, start(facts)).0
}

/// Whether fact `j` has the name of an earlier one.
pub open spec fn dup_at(facts: Seq<(Seq<char>, Seq<char>)>, j: int) -> bool {
    exists|i: int| 0 <= i < j && facts[i].0 == facts[j].0
}

/// Where declaration `i` of `variant` is refused.
pub open spec fn parse_failed(variant: Seq<char>, ds: Seq<Seq<Seq<char>>>) -> spec_fn(int) -> bool {
    |i: int| declared(variant, ds[i]) is Err
}

/// The names and expressions that the declarations of `variant` give.
pub open spec fn parsed_facts(variant: Seq<char>, ds: Seq<Seq<Seq<char>>>) -> Seq<
    (Seq<char>, Seq<char>),
> {
    Seq::new(ds.len(), |i: int| declared(variant, ds[i])->Ok_0)
}

/// Where a fact repeats the name of an earlier one.
pub open spec fn duplicated(facts: Seq<(Seq<char>, Seq<char>)>) -> spec_fn(int) -> bool {
    |j: int| dup_at(facts, j)
}

/// Where a fact resolved to a value outside the supported kinds.
pub open spec fn unsupported_at(vals: Seq<Option<Value>>) -> spec_fn(int) -> bool {
    |i: int| vals[i] == Some(Value::Unsupported)
}

/// Where a fact stayed without a value.
pub open spec fn open_at(vals: Seq<Option<Value>>) -> spec_fn(int) -> bool {
    |i: int| vals[i] is None
}

/// What the declarations `ds` of `variant` come to: each fact's name,
/// expression and value, or the first error.
#[verifier::opaque]
pub open spec fn variant_result(variant: Seq<char>, ds: Seq<Seq<Seq<char>>>) -> Result<
    Seq<(Seq<char>, Seq<char>, Value)>,
    ErrorView,
> {
    let n = ds.len() as int;
    if some_in(n, parse_failed(variant, ds)) {
        Err(declared(variant, ds[first_in(n, parse_failed(variant, ds))])->Err_0)
    } else {
        let facts = parsed_facts(variant, ds);
        if some_in(n, duplicated(facts)) {
            Err((Category::DuplicateFact, facts[first_in(n, duplicated(facts))].0, variant))
        } else {
            let vals = resolved(facts);
            if some_in(n, open_at(vals)) {
                Err((Category::UnresolvableExpression, facts[first_in(n, open_at(vals))].0, variant))
            } else if some_in(n, unsupported_at(vals)) {
                Err((Category::UnsupportedValueKind, facts[first_in(n, unsupported_at(vals))].0, variant))
            } else {
                Ok(Seq::new(ds.len(), |i: int| (facts[i].0, facts[i].1, vals[i]->0)))
            }
        }
    }
}

/// The token views of a list of declarations.
pub open spec fn decl_views(ds: Seq<Vec<String>>) -> Seq<Seq<Seq<char>>> {
    ds.map_values(|d: Vec<String>| views(d@))
}

/// The names and expressions of tags.
pub open spec fn fact_pairs(tags: Seq<Tag>) -> Seq<(Seq<char>, Seq<char>)> {
    tags.map_values(|t: Tag| (t.name@, t.expression@))
}

pub proof fn lemma_unresolved_resolve(vals: Seq<Option<Value>>, i: int, v: Value)
    requires
        0 <= i < vals.len(),
        vals[i] is None,
    ensures
        unresolved(vals.update(i, Some(v))) + 1 == unresolved(vals),
    decreases vals.len(),
{
    let u = vals.update(i, Some(v));
    if i == vals.len() - 1 {
        assert(u.drop_last() =~= vals.drop_last());
    } else {
        assert(u.drop_last() =~= vals.drop_last().update(i, Some(v)));
        lemma_unresolved_resolve(vals.drop_last(), i, v);
    }
}

/// Runs full passes over the facts until one resolves nothing; returns the
/// values found.
fn resolve(tags: &Vec<Tag>) -> (r: Vec<Option<Value>>)
    requires
        forall|i: int, j: int|
            0 <= i < j < tags.len() ==> tags@[i].name@ != tags@[j].name@,
    ensures
        r@ == resolved(fact_pairs(tags@)),
        r.len() == tags.len(),
{
    let ghost facts = fact_pairs(tags@);
    let n = tags.len();
    let mut vals: Vec<Option<Value>> = Vec::new();
    let mut k: usize = 0;
    while k < n
        invariant
            k <= n,
            vals@ == Seq::new(k as nat, |i: int| None::<Value>),
        decreases n - k,
    {
        vals.push(None);
        assert(vals@ =~= Seq::new((k + 1) as nat, |i: int| None::<Value>));
        k = k + 1;
    }
    let mut scope = new_scope();
    let ghost init: Resolution = (vals@, scope_vars(scope));
    assert(init.0 =~= start(facts).0);
    assert(init.1 =~= start(facts).1);
    let mut progress = true;
    while progress
        invariant
            n == tags.len(),
            vals.len() == n,
            facts == fact_pairs(tags@),
            forall|i: int, j: int| 0 <= i < j < n ==> tags@[i].name@ != tags@[j].name@,
            forall|key: Seq<char>|
                #[trigger] scope_vars(scope).contains_key(key) ==> exists|k: int|
                    0 <= k < n && vals@[k] is Some && tags@[k].name@ == key,
            progress ==> fixpoint(facts, (vals@, scope_vars(scope))) == fixpoint(facts, init),
            !progress ==> (vals@, scope_vars(scope)) == fixpoint(facts, init),
        decreases unresolved(vals@) + if progress {
            1int
        } else {
            0int
        },
    {
        progress = false;
        let ghost start: Resolution = (vals@, scope_vars(scope));
        let mut i: usize = 0;
        while i < n
            invariant
                i <= n,
                n == tags.len(),
                vals.len() == n,
                facts == fact_pairs(tags@),
                forall|i: int, j: int| 0 <= i < j < n ==> tags@[i].name@ != tags@[j].name@,
                forall|key: Seq<char>|
                    #[trigger] scope_vars(scope).contains_key(key) ==> exists|k: int|
                        0 <= k < n && vals@[k] is Some && tags@[k].name@ == key,
                (vals@, scope_vars(scope)) == pass(facts, start, i as nat),
                progress ==> unresolved(vals@) < unresolved(start.0),
                !progress ==> vals@ == start.0 && scope_vars(scope) == start.1,
            decreases n - i,
        {
            let ghost before: Resolution = (vals@, scope_vars(scope));
            assert(facts[i as int] == (tags@[i as int].name@, tags@[i as int].expression@));
            if vals[i].is_none() {
                match evaluate_expr(&tags[i].expression, &scope) {
                    Some(v) => {
                        if v.kind() != Kind::Unsupported {
                            proof {
                                let key = tags@[i as int].name@;
                                if scope_vars(scope).contains_key(key) {
                                    let k = choose|k: int|
                                        0 <= k < n && vals@[k] is Some && tags@[k].name@ == key;
                                    assert(k == i);
                                }
                            }
                            let _ = bind(&mut scope, &tags[i].name, &v);
                        }
                        proof {
                            lemma_unresolved_resolve(vals@, i as int, v);
                        }
                        vals.set(i, Some(v));
                        progress = true;
                        assert forall|key: Seq<char>|
                            #[trigger] scope_vars(scope).contains_key(key) implies exists|k: int|
                                0 <= k < n && vals@[k] is Some && tags@[k].name@ == key by {
                            if key != tags@[i as int].name@ {
                                assert(before.1.contains_key(key));
                                let k = choose|k: int|
                                    0 <= k < n && before.0[k] is Some && tags@[k].name@ == key;
                                assert(vals@[k] is Some);
                            } else {
                                assert(vals@[i as int] is Some);
                            }
                        }
                    },
                    None => {},
                }
            }
            i = i + 1;
        }
        proof {
            let next = pass(facts, start, facts.len());
            assert((vals@, scope_vars(scope)) == next);
            if !progress {
                assert(unresolved(next.0) == unresolved(start.0));
            }
        }
    }
    vals
}

impl Tags {
    /// Reads the declarations of `variant` (the tokens of each) and resolves
    /// the facts they declare against one another.
    pub fn parse(variant: &String, decls: &Vec<Vec<String>>) -> (r: Result<Tags, TagError>)
        ensures
            match variant_result(variant@, decl_views(decls@)) {
                Ok(fs) => r is Ok && r->Ok_0.0@.len() == fs.len() && forall|i: int|
                    0 <= i < fs.len() ==> {
                        let t = #[trigger] r->Ok_0.0@[i];
                        t.name@ == fs[i].0 && t.expression@ == fs[i].1 && t.value == Some(fs[i].2)
                            && t.variant@ == variant@
                    },
                Err(e) => r is Err && r->Err_0@ == e,
            },
    {
        reveal(variant_result);
        let ghost ds = decl_views(decls@);
        let ghost n = ds.len() as int;
        let ghost facts = parsed_facts(variant@, ds);
        let mut tags: Vec<Tag> = Vec::new();
        let mut i: usize = 0;
        while i < decls.len()
            invariant
                i <= decls.len(),
                ds == decl_views(decls@),
                n == decls.len(),
                facts == parsed_facts(variant@, ds),
                tags.len() == i,
                forall|k: int| 0 <= k < i ==> !#[trigger] parse_failed(variant@, ds)(k),
                forall|k: int|
                    0 <= k < i ==> (#[trigger] tags@[k].name@, tags@[k].expression@) == facts[k]
                        && tags@[k].variant@ == variant@ && tags@[k].value is None,
            decreases decls.len() - i,
        {
            assert(ds[i as int] == views(decls@[i as int]@));
            match Tag::parse(variant, &decls[i]) {
                Ok(t) => {
                    tags.push(t);
                },
                Err(e) => {
                    assert(parse_failed(variant@, ds)(i as int));
                    assert(some_in(n, parse_failed(variant@, ds)));
                    reveal(variant_result);
                    return Err(e);
                },
            }
            i = i + 1;
        }
        assert(fact_pairs(tags@) =~= facts);
        let mut j: usize = 0;
        while j < tags.len()
            invariant
                j <= tags.len(),
                tags.len() == n,
                fact_pairs(tags@) == facts,
                ds == decl_views(decls@),
                n == ds.len(),
                facts == parsed_facts(variant@, ds),
                !some_in(n, parse_failed(variant@, ds)),
                forall|k: int| 0 <= k < j ==> !#[trigger] duplicated(facts)(k),
                forall|k: int| 0 <= k < n ==> (#[trigger] tags@[k]).name@ == facts[k].0,
            decreases tags.len() - j,
        {
            let mut i: usize = 0;
            while i < j
                invariant
                    i <= j < tags.len(),
                    tags.len() == n,
                    forall|k: int| 0 <= k < n ==> (#[trigger] tags@[k]).name@ == facts[k].0,
                    forall|k: int| 0 <= k < i ==> facts[k].0 != facts[j as int].0,
                    forall|k: int| 0 <= k < j ==> !#[trigger] duplicated(facts)(k),
                    ds == decl_views(decls@),
                    n == ds.len(),
                    facts == parsed_facts(variant@, ds),
                    !some_in(n, parse_failed(variant@, ds)),
                decreases j - i,
            {
                if tags[i] .name == tags[j].name {
                    assert(duplicated(facts)(j as int));
                    assert(some_in(n, duplicated(facts)));
                    let ghost f = first_in(n, duplicated(facts));
                    assert(f == j);
                    reveal(variant_result);
                    return Err(TagError::new(Category::DuplicateFact, &tags[j].name, variant));
                }
                i = i + 1;
            }
            assert(!duplicated(facts)(j as int));
            j = j + 1;
        }
        assert(!some_in(n, duplicated(facts)));
        assert forall|a: int, b: int| 0 <= a < b < tags.len() implies tags@[a].name@
            != tags@[b].name@ by {
            assert(!duplicated(facts)(b));
        }
        let vals = resolve(&tags);
        let mut i: usize = 0;
        while i < tags.len()
            invariant
                i <= tags.len(),
                tags.len() == n,
                vals@ == resolved(facts),
                vals.len() == n,
                ds == decl_views(decls@),
                n == ds.len(),
                facts == parsed_facts(variant@, ds),
                !some_in(n, parse_failed(variant@, ds)),
                !some_in(n, duplicated(facts)),
                forall|k: int| 0 <= k < n ==> (#[trigger] tags@[k]).name@ == facts[k].0,
                forall|k: int| 0 <= k < i ==> !#[trigger] open_at(vals@)(k),
            decreases tags.len() - i,
        {
            if vals[i].is_none() {
                assert(open_at(vals@)(i as int));
                assert(some_in(n, open_at(vals@)));
                let ghost f = first_in(n, open_at(vals@));
                assert(f == i);
                reveal(variant_result);
                return Err(TagError::new(Category::UnresolvableExpression, &tags[i].name, variant));
            }
            i = i + 1;
        }
        assert(!some_in(n, open_at(vals@)));
        let mut i: usize = 0;
        while i < tags.len()
            invariant
                i <= tags.len(),
                tags.len() == n,
                vals@ == resolved(facts),
                vals.len() == n,
                ds == decl_views(decls@),
                n == ds.len(),
                facts == parsed_facts(variant@, ds),
                !some_in(n, parse_failed(variant@, ds)),
                !some_in(n, duplicated(facts)),
                forall|k: int| 0 <= k < n ==> (#[trigger] tags@[k]).name@ == facts[k].0,
                forall|k: int| 0 <= k < i ==> !#[trigger] unsupported_at(vals@)(k),
                !some_in(n, open_at(vals@)),
            decreases tags.len() - i,
        {
            if let Some(v) = &vals[i] {
                if v.kind() == Kind::Unsupported {
                    assert(unsupported_at(vals@)(i as int));
                    assert(some_in(n, unsupported_at(vals@)));
                    let ghost f = first_in(n, unsupported_at(vals@));
                    assert(f == i);
                    reveal(variant_result);
                    return Err(
                        TagError::new(Category::UnsupportedValueKind, &tags[i].name, variant),
                    );
                }
            }
            i = i + 1;
        }
        assert(!some_in(n, unsupported_at(vals@)));
        assert(!some_in(n, open_at(vals@)));
        let mut out: Vec<Tag> = Vec::new();
        let mut i: usize = 0;
        while i < tags.len()
            invariant
                i <= tags.len(),
                tags.len() == n,
                vals@ == resolved(facts),
                vals.len() == n,
                ds == decl_views(decls@),
                n == ds.len(),
                facts == parsed_facts(variant@, ds),
                !some_in(n, parse_failed(variant@, ds)),
                !some_in(n, duplicated(facts)),
                out.len() == i,
                forall|k: int| 0 <= k < n ==> !#[trigger] open_at(vals@)(k),
                forall|k: int|
                    0 <= k < n ==> (#[trigger] tags@[k]).name@ == facts[k].0
                        && tags@[k].expression@ == facts[k].1 && tags@[k].variant@ == variant@,
                forall|k: int|
                    0 <= k < i ==> {
                        let t = #[trigger] out@[k];
                        t.name@ == facts[k].0 && t.expression@ == facts[k].1 && t.value == Some(
                            vals@[k]->0,
                        ) && t.variant@ == variant@
                    },
            decreases tags.len() - i,
        {
            assert(!open_at(vals@)(i as int));
            let value = match &vals[i] {
                Some(v) => Some(v.duplicate()),
                None => None,
            };
            let t = &tags[i];
            out.push(
                Tag {
                    name: t.name.clone(),
                    variant: t.variant.clone(),
                    expression: t.expression.clone(),
                    value,
                },
            );
            i = i + 1;
        }
        Ok(Tags(out))
    }
}

} // verus!
