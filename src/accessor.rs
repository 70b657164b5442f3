use crate::error::{Category, ErrorView, TagError};
use crate::order::{insert_sorted, lemma_sorted_unique, strictly_sorted};
use crate::tag::Tag;
use crate::tags::{decl_views, first_in, some_in, variant_result, Tags};
use crate::text::views;
use crate::value::{Kind, Value};
use vstd::prelude::*;

verus! {

/// One variant of the subject type: its name and, for each `tag(...)`
/// declaration on it, the tokens between the parentheses.
#[derive(Debug, Clone)]
pub struct VariantDecl {
    pub name: String,
    pub decls: Vec<Vec<String>>,
}

/// A resolved fact: name, expression, value.
pub type Fact = (Seq<char>, Seq<char>, Value);

/// A variant as the specification reads it: name and declaration tokens.
pub type VariantView = (Seq<char>, Seq<Seq<Seq<char>>>);

/// An accessor as the specification reads it: fact name, value kind, the
/// match arms (variant name and value) in variant order, and whether a
/// fallback arm that returns no value follows them.
pub type AccessorView = (Seq<char>, Kind, Seq<(Seq<char>, Value)>, bool);

/// One generated lookup function: for each variant that declares the fact,
/// an arm that returns its value; a fallback arm where some variant does not.
#[derive(Debug, Clone, PartialEq, Eq)]
pub struct Accessor {
    pub name: String,
    pub kind: Kind,
    pub arms: Vec<(String, Value)>,
    pub fallback: bool,
}

pub open spec fn arm_views(arms: Seq<(String, Value)>) -> Seq<(Seq<char>, Value)> {
    arms.map_values(|a: (String, Value)| (a.0@, a.1))
}

impl View for Accessor {
    type V = AccessorView;

    open spec fn view(&self) -> AccessorView {
        (self.name@, self.kind, arm_views(self.arms@), self.fallback)
    }
}

/// What a generated accessor returns for `variant`: the value of the first
/// arm for it, or no value where no arm is for it.
pub open spec fn arm_lookup(arms: Seq<(Seq<char>, Value)>, variant: Seq<char>) -> Option<Value>
    decreases arms.len(),
{
    if arms.len() == 0 {
        None
    } else {
        match arm_lookup(arms.drop_last(), variant) {
            Some(x) => Some(x),
            None => if arms.last().0 == variant {
                Some(arms.last().1)
            } else {
                None
            },
        }
    }
}

/// A match found in a prefix of the arms stays the answer.
pub proof fn lemma_lookup_prefix(arms: Seq<(Seq<char>, Value)>, k: int, variant: Seq<char>)
    requires
        0 <= k <= arms.len(),
        arm_lookup(arms.take(k), variant) is Some,
    ensures
        arm_lookup(arms, variant) == arm_lookup(arms.take(k), variant),
    decreases arms.len(),
{
    if k < arms.len() {
        assert(arms.drop_last().take(k) =~= arms.take(k));
        lemma_lookup_prefix(arms.drop_last(), k, variant);
    } else {
        assert(arms.take(k) =~= arms);
    }
}

impl Accessor {
    /// What the generated function returns for the variant named `variant`.
    pub fn lookup(&self, variant: &String) -> (r: Option<Value>)
        ensures
            r == arm_lookup(arm_views(self.arms@), variant@),
    {
        let ghost av = arm_views(self.arms@);
        let mut k: usize = 0;
        while k < self.arms.len()
            invariant
                k <= self.arms.len(),
                av == arm_views(self.arms@),
                arm_lookup(av.take(k as int), variant@) is None,
            decreases self.arms.len() - k,
        {
            assert(av.take(k as int + 1).drop_last() =~= av.take(k as int));
            if self.arms[k].0 == *variant {
                assert(arm_lookup(av.take(k as int + 1), variant@) == Some(self.arms@[k as int].1));
                proof {
                    lemma_lookup_prefix(av, k as int + 1, variant@);
                }
                return Some(self.arms[k].1.duplicate());
            }
            k = k + 1;
        }
        assert(av.take(k as int) =~= av);
        None
    }
}

pub open spec fn accessor_views(s: Seq<Accessor>) -> Seq<AccessorView> {
    s.map_values(|a: Accessor| a@)
}

pub open spec fn variant_views(vs: Seq<VariantDecl>) -> Seq<VariantView> {
    vs.map_values(|v: VariantDecl| (v.name@, decl_views(v.decls@)))
}

/// The names of the variants.
pub open spec fn variant_names(vs: Seq<VariantView>) -> Seq<Seq<char>> {
    vs.map_values(|v: VariantView| v.0)
}

/// Where the declarations of a variant fail.
pub open spec fn variant_failed(vs: Seq<VariantView>) -> spec_fn(int) -> bool {
    |i: int| variant_result(vs[i].0, vs[i].1) is Err
}

/// The resolved facts of every variant, or the first error.
pub open spec fn all_facts(vs: Seq<VariantView>) -> Result<Seq<Seq<Fact>>, ErrorView> {
    let n = vs.len() as int;
    if some_in(n, variant_failed(vs)) {
        let i = first_in(n, variant_failed(vs));
        Err(variant_result(vs[i].0, vs[i].1)->Err_0)
    } else {
        Ok(Seq::new(vs.len(), |i: int| variant_result(vs[i].0, vs[i].1)->Ok_0))
    }
}

/// Where a variant's facts hold one named `name`.
pub open spec fn has_fact(fs: Seq<Fact>, name: Seq<char>) -> spec_fn(int) -> bool {
    |k: int| fs[k].0 == name
}

/// The value of the fact `name` among `fs`, if there is one.
pub open spec fn fact_value(fs: Seq<Fact>, name: Seq<char>) -> Option<Value> {
    if some_in(fs.len() as int, has_fact(fs, name)) {
        Some(fs[first_in(fs.len() as int, has_fact(fs, name))].2)
    } else {
        None
    }
}

/// The arms of the accessor for `name`: one for each variant, in order,
/// whose facts hold `name`.
pub open spec fn arms_for(vn: Seq<Seq<char>>, rs: Seq<Seq<Fact>>, name: Seq<char>) -> Seq<
    (Seq<char>, Value),
>
    decreases rs.len(),
{
    if rs.len() == 0 {
        Seq::empty()
    } else {
        let prev = arms_for(vn, rs.drop_last(), name);
        match fact_value(rs.last(), name) {
            Some(v) => prev.push((vn[rs.len() - 1], v)),
            None => prev,
        }
    }
}

/// Whether some variant declares a fact named `name`.
pub open spec fn is_fact_name(rs: Seq<Seq<Fact>>, name: Seq<char>) -> bool {
    exists|i: int, k: int| 0 <= i < rs.len() && 0 <= k < rs[i].len() && #[trigger] rs[i][k].0 == name
}

/// Every fact name, each once, in lexicographic order.
pub open spec fn fact_names(rs: Seq<Seq<Fact>>) -> Seq<Seq<char>> {
    choose|s: Seq<Seq<char>>|
        strictly_sorted(s) && forall|x: Seq<char>| s.contains(x) <==> is_fact_name(rs, x)
}

/// Where an arm's value differs in kind from the first arm's.
pub open spec fn mismatch(arms: Seq<(Seq<char>, Value)>) -> spec_fn(int) -> bool {
    |a: int| arms[a].1.kind_of() != arms[0].1.kind_of()
}

/// Where the accessor for the `g`-th name has arms of different kinds.
pub open spec fn group_mismatch(vn: Seq<Seq<char>>, rs: Seq<Seq<Fact>>, names: Seq<Seq<char>>) -> spec_fn(int) -> bool {
    |g: int| {
        let arms = arms_for(vn, rs, names[g]);
        some_in(arms.len() as int, mismatch(arms))
    }
}

/// The accessor for `name`.
pub open spec fn accessor_for(vn: Seq<Seq<char>>, rs: Seq<Seq<Fact>>, name: Seq<char>) -> AccessorView {
    let arms = arms_for(vn, rs, name);
    (name, arms[0].1.kind_of(), arms, arms.len() < vn.len())
}

/// What a run on the variants `vs` yields: the accessors, one per fact
/// name in name order, or the first error.
pub open spec fn generated(vs: Seq<VariantView>) -> Result<Seq<AccessorView>, ErrorView> {
    match all_facts(vs) {
        Err(e) => Err(e),
        Ok(rs) => {
            let vn = variant_names(vs);
            let names = fact_names(rs);
            let n = names.len() as int;
            if some_in(n, group_mismatch(vn, rs, names)) {
                let g = first_in(n, group_mismatch(vn, rs, names));
                let arms = arms_for(vn, rs, names[g]);
                let a = first_in(arms.len() as int, mismatch(arms));
                Err(
                    (
                        Category::TypeMismatch {
                            expected: arms[0].1.kind_of(),
                            found: arms[a].1.kind_of(),
                        },
                        names[g],
                        arms[a].0,
                    ),
                )
            } else {
                Ok(Seq::new(names.len(), |g: int| accessor_for(vn, rs, names[g])))
            }
        }
    }
}

/// `r` is what a run on `vs` returns.
pub open spec fn run_outcome(vs: Seq<VariantView>, r: Result<Vec<Accessor>, TagError>) -> bool {
    match generated(vs) {
        Ok(accs) => r is Ok && accessor_views(r->Ok_0@) == accs,
        Err(e) => r is Err && r->Err_0@ == e,
    }
}

/// The facts that resolved tags hold.
pub open spec fn tag_facts(ts: Seq<Tag>) -> Seq<Fact> {
    ts.map_values(|t: Tag| (t.name@, t.expression@, t.value->0))
}

/// The facts of each variant's resolved tags.
pub open spec fn facts_of(all: Seq<Tags>) -> Seq<Seq<Fact>> {
    all.map_values(|t: Tags| tag_facts(t.0@))
}

/// Every tag holds a value.
pub open spec fn all_valued(all: Seq<Tags>) -> bool {
    forall|i: int, k: int|
        0 <= i < all.len() && 0 <= k < all[i].0.len() ==> (#[trigger] all[i].0@[k]).value is Some
}

/// Resolves the facts of every variant, stopping at the first error.
fn resolve_all(variants: &Vec<VariantDecl>) -> (r: Result<Vec<Tags>, TagError>)
    ensures
        match all_facts(variant_views(variants@)) {
            Ok(rs) => r is Ok && facts_of(r->Ok_0@) == rs && all_valued(r->Ok_0@),
            Err(e) => r is Err && r->Err_0@ == e,
        },
{
    let ghost vs = variant_views(variants@);
    let ghost n = vs.len() as int;
    let mut all: Vec<Tags> = Vec::new();
    let mut i: usize = 0;
    while i < variants.len()
        invariant
            i <= variants.len(),
            vs == variant_views(variants@),
            n == variants.len(),
            all.len() == i,
            all_valued(all@),
            forall|k: int| 0 <= k < i ==> !#[trigger] variant_failed(vs)(k),
            forall|k: int|
                0 <= k < i ==> #[trigger] tag_facts(all@[k].0@) == variant_result(
                    vs[k].0,
                    vs[k].1,
                )->Ok_0,
        decreases variants.len() - i,
    {
        let v = &variants[i];
        assert(vs[i as int] == (v.name@, decl_views(v.decls@)));
        match Tags::parse(&v.name, &v.decls) {
            Ok(t) => {
                let ghost fs = variant_result(vs[i as int].0, vs[i as int].1)->Ok_0;
                assert(tag_facts(t.0@) =~= fs);
                all.push(t);
                assert(tag_facts(all@[i as int].0@) == fs);
            },
            Err(e) => {
                assert(variant_failed(vs)(i as int));
                assert(some_in(n, variant_failed(vs)));
                return Err(e);
            },
        }
        i = i + 1;
    }
    assert(!some_in(n, variant_failed(vs)));
    assert(facts_of(all@) =~= Seq::new(
        vs.len(),
        |i: int| variant_result(vs[i].0, vs[i].1)->Ok_0,
    ));
    Ok(all)
}

/// Every fact name of the resolved variants, each once, in name order.
fn sorted_names(all: &Vec<Tags>) -> (r: Vec<String>)
    ensures
        views(r@) == fact_names(facts_of(all@)),
        forall|x: Seq<char>| views(r@).contains(x) <==> is_fact_name(facts_of(all@), x),
{
    let ghost rs = facts_of(all@);
    let mut names: Vec<String> = Vec::new();
    let mut i: usize = 0;
    while i < all.len()
        invariant
            i <= all.len(),
            rs == facts_of(all@),
            strictly_sorted(views(names@)),
            forall|x: Seq<char>|
                views(names@).contains(x) <==> exists|a: int, k: int|
                    0 <= a < i && 0 <= k < rs[a].len() && #[trigger] rs[a][k].0 == x,
        decreases all.len() - i,
    {
        let tags = &all[i].0;
        let mut k: usize = 0;
        while k < tags.len()
            invariant
                i < all.len(),
                k <= tags.len(),
                tags == all@[i as int].0,
                rs == facts_of(all@),
                strictly_sorted(views(names@)),
                forall|x: Seq<char>|
                    views(names@).contains(x) <==> (exists|a: int, k: int|
                        0 <= a < i && 0 <= k < rs[a].len() && #[trigger] rs[a][k].0 == x) || (
                    exists|j: int| 0 <= j < k && #[trigger] rs[i as int][j].0 == x),
            decreases tags.len() - k,
        {
            assert(rs[i as int][k as int].0 == tags@[k as int].name@);
            insert_sorted(&mut names, &tags[k].name);
            k = k + 1;
        }
        i = i + 1;
    }
    proof {
        let s = views(names@);
        assert(strictly_sorted(s) && forall|x: Seq<char>| s.contains(x) <==> is_fact_name(rs, x));
        let t = fact_names(rs);
        lemma_sorted_unique(s, t);
    }
    names
}

/// The value of the tag named `name`, if `tags` holds one.
fn value_in(tags: &Tags, name: &String) -> (r: Option<Value>)
    requires
        forall|k: int| 0 <= k < tags.0.len() ==> (#[trigger] tags.0@[k]).value is Some,
    ensures
        r == fact_value(tag_facts(tags.0@), name@),
{
    let ghost fs = tag_facts(tags.0@);
    let ghost n = fs.len() as int;
    let mut k: usize = 0;
    while k < tags.0.len()
        invariant
            k <= tags.0.len(),
            fs == tag_facts(tags.0@),
            n == tags.0.len(),
            forall|j: int| 0 <= j < k ==> !#[trigger] has_fact(fs, name@)(j),
            forall|k: int| 0 <= k < tags.0.len() ==> (#[trigger] tags.0@[k]).value is Some,
        decreases tags.0.len() - k,
    {
        let t = &tags.0[k];
        if t.name == *name {
            assert(t.value is Some);
            assert(fs[k as int] == (t.name@, t.expression@, t.value->0));
            assert(has_fact(fs, name@)(k as int));
            assert(some_in(n, has_fact(fs, name@)));
            let ghost f = first_in(n, has_fact(fs, name@));
            assert(f == k);
            return match &t.value {
                Some(v) => Some(v.duplicate()),
                None => None,
            };
        }
        k = k + 1;
    }
    assert(!some_in(n, has_fact(fs, name@)));
    None
}

/// The arms of the accessor for `name`.
fn arms_of(variants: &Vec<VariantDecl>, all: &Vec<Tags>, name: &String) -> (r: Vec<(String, Value)>)
    requires
        all.len() == variants.len(),
        all_valued(all@),
    ensures
        arm_views(r@) == arms_for(
            variant_names(variant_views(variants@)),
            facts_of(all@),
            name@,
        ),
        is_fact_name(facts_of(all@), name@) ==> r.len() > 0,
        r.len() <= variants.len(),
{
    let ghost vn = variant_names(variant_views(variants@));
    let ghost rs = facts_of(all@);
    let mut arms: Vec<(String, Value)> = Vec::new();
    let mut i: usize = 0;
    while i < all.len()
        invariant
            i <= all.len(),
            all.len() == variants.len(),
            all_valued(all@),
            vn == variant_names(variant_views(variants@)),
            rs == facts_of(all@),
            arm_views(arms@) == arms_for(vn, rs.take(i as int), name@),
            arms.len() <= i,
            (exists|a: int, k: int|
                0 <= a < i && 0 <= k < rs[a].len() && #[trigger] rs[a][k].0 == name@) ==> arms.len()
                > 0,
        decreases all.len() - i,
    {
        assert(rs.take(i as int + 1).drop_last() =~= rs.take(i as int));
        assert(rs[i as int] == tag_facts(all@[i as int].0@));
        assert(vn[i as int] == variants@[i as int].name@);
        match value_in(&all[i], name) {
            Some(v) => {
                arms.push((variants[i].name.clone(), v));
                assert(arm_views(arms@) =~= arms_for(vn, rs.take(i as int + 1), name@));
            },
            None => {
                assert forall|k: int| 0 <= k < rs[i as int].len() implies rs[i as int][k].0 != name@ by {
                    if rs[i as int][k].0 == name@ {
                        assert(has_fact(rs[i as int], name@)(k));
                    }
                }
            },
        }
        i = i + 1;
    }
    assert(rs.take(all.len() as int) =~= rs);
    arms
}

/// Resolves the facts declared on `variants` and builds one accessor per
/// fact name, in name order; fails on the first error.
pub fn tagged_derive(variants: &Vec<VariantDecl>) -> (r: Result<Vec<Accessor>, TagError>)
    ensures
        run_outcome(variant_views(variants@), r),
{
    let ghost vs = variant_views(variants@);
    let ghost vn = variant_names(vs);
    let all = match resolve_all(variants) {
        Ok(all) => all,
        Err(e) => {
            return Err(e);
        },
    };
    let ghost rs = facts_of(all@);
    assert(all.len() == variants.len()) by {
        assert(rs.len() == all.len());
    }
    let names = sorted_names(&all);
    let ghost fnames = fact_names(rs);
    let ghost ng = fnames.len() as int;
    let mut out: Vec<Accessor> = Vec::new();
    let mut g: usize = 0;
    while g < names.len()
        invariant
            g <= names.len(),
            all_facts(vs) == Ok::<Seq<Seq<Fact>>, ErrorView>(rs),
            vs == variant_views(variants@),
            vn == variant_names(vs),
            rs == facts_of(all@),
            all.len() == variants.len(),
            all_valued(all@),
            views(names@) == fnames,
            fnames == fact_names(rs),
            forall|x: Seq<char>| views(names@).contains(x) <==> is_fact_name(rs, x),
            vn.len() == variants.len(),
            ng == names.len(),
            out.len() == g,
            forall|h: int| 0 <= h < g ==> !#[trigger] group_mismatch(vn, rs, fnames)(h),
            forall|h: int| 0 <= h < g ==> #[trigger] out@[h]@ == accessor_for(vn, rs, fnames[h]),
        decreases names.len() - g,
    {
        let name = &names[g];
        assert(name@ == fnames[g as int]);
        assert(fnames.contains(fnames[g as int]));
        assert(is_fact_name(rs, name@));
        let arms = arms_of(variants, &all, name);
        let ghost av = arm_views(arms@);
        let kind = arms[0].1.kind();
        let mut a: usize = 1;
        while a < arms.len()
            invariant
                1 <= a <= arms.len(),
                av == arm_views(arms@),
                kind == av[0].1.kind_of(),
                forall|b: int| 0 <= b < a ==> !#[trigger] mismatch(av)(b),
                av == arms_for(vn, rs, fnames[g as int]),
                ng == fnames.len(),
                g < ng,
                name@ == fnames[g as int],
                all_facts(vs) == Ok::<Seq<Seq<Fact>>, ErrorView>(rs),
                vs == variant_views(variants@),
                vn == variant_names(vs),
                fnames == fact_names(rs),
                forall|h: int| 0 <= h < g ==> !#[trigger] group_mismatch(vn, rs, fnames)(h),
            decreases arms.len() - a,
        {
            let found = arms[a].1.kind();
            assert(av[a as int] == (arms@[a as int].0@, arms@[a as int].1));
            if found != kind {
                assert(mismatch(av)(a as int));
                assert(some_in(av.len() as int, mismatch(av)));
                assert(first_in(av.len() as int, mismatch(av)) == a);
                assert(group_mismatch(vn, rs, fnames)(g as int));
                assert(some_in(ng, group_mismatch(vn, rs, fnames)));
                assert(first_in(ng, group_mismatch(vn, rs, fnames)) == g);
                return Err(
                    TagError {
                        category: Category::TypeMismatch { expected: kind, found },
                        fact: name.clone(),
                        variant: arms[a].0.clone(),
                    },
                );
            }
            a = a + 1;
        }
        assert(!mismatch(av)(0));
        assert(!group_mismatch(vn, rs, fnames)(g as int));
        let fallback = arms.len() != variants.len();
        let acc = Accessor { name: name.clone(), kind, arms, fallback };
        out.push(acc);
        assert(out@[g as int]@ == accessor_for(vn, rs, fnames[g as int]));
        g = g + 1;
    }
    assert(!some_in(ng, group_mismatch(vn, rs, fnames)));
    assert(accessor_views(out@) =~= Seq::new(fnames.len(), |h: int| accessor_for(vn, rs, fnames[h])));
    Ok(out)
}

} // verus!
