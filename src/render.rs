use crate::accessor::{accessor_views, arm_views, Accessor, AccessorView};
use crate::literal::{has_literal, literal_fits, type_text};
use crate::text::append;
use crate::value::Value;
use vstd::prelude::*;

verus! {

/// The text of one match arm, given the literal text of its value.
pub open spec fn arm_text(variant: Seq<char>, lit: Seq<char>) -> Seq<char> {
    "Self::"@ + variant + " => Some("@ + lit + "), "@
}

/// The text of the match arms, in order, given the literal text of each
/// arm's value.
pub open spec fn arms_text(arms: Seq<(Seq<char>, Value)>, lits: Seq<Seq<char>>) -> Seq<char>
    decreases arms.len(),
{
    if arms.len() == 0 || lits.len() == 0 {
        Seq::empty()
    } else {
        arms_text(arms.drop_last(), lits.drop_last()) + arm_text(arms.last().0, lits.last())
    }
}

/// `lits` holds one fitting literal text for each arm's value.
pub open spec fn lits_fit(arms: Seq<(Seq<char>, Value)>, lits: Seq<Seq<char>>) -> bool {
    lits.len() == arms.len() && forall|i: int|
        0 <= i < arms.len() ==> literal_fits(arms[i].1, #[trigger] lits[i])
}

/// Whether the accessor can be written out: its kind names a type and each
/// value has a literal form.
pub open spec fn renderable(acc: AccessorView) -> bool {
    type_text(acc.1) is Some && forall|i: int|
        0 <= i < acc.2.len() ==> has_literal(#[trigger] acc.2[i].1)
}

/// The text of the fallback arm, where there is one.
pub open spec fn fallback_text(fallback: bool) -> Seq<char> {
    if fallback {
        "_ => None, "@
    } else {
        Seq::empty()
    }
}

/// The source text of the accessor function, given the literal text of
/// each arm's value.
pub open spec fn accessor_text(acc: AccessorView, lits: Seq<Seq<char>>) -> Seq<char> {
    "pub fn "@ + acc.0 + "(&self) -> Option<"@ + type_text(acc.1)->0 + "> { match self { "@
        + arms_text(acc.2, lits) + fallback_text(acc.3) + "} } "@
}

/// The source text of the accessor functions, one after another.
pub open spec fn accessors_text(accs: Seq<AccessorView>, litss: Seq<Seq<Seq<char>>>) -> Seq<char>
    decreases accs.len(),
{
    if accs.len() == 0 || litss.len() == 0 {
        Seq::empty()
    } else {
        accessors_text(accs.drop_last(), litss.drop_last()) + accessor_text(
            accs.last(),
            litss.last(),
        )
    }
}

/// `litss` holds fitting literal texts for every accessor.
pub open spec fn all_fit(accs: Seq<AccessorView>, litss: Seq<Seq<Seq<char>>>) -> bool {
    litss.len() == accs.len() && forall|g: int|
        0 <= g < accs.len() ==> lits_fit(accs[g].2, #[trigger] litss[g])
}

/// The source text of the `impl` block of `name` with the accessors.
pub open spec fn impl_text(
    name: Seq<char>,
    accs: Seq<AccessorView>,
    litss: Seq<Seq<Seq<char>>>,
) -> Seq<char> {
    "impl "@ + name + " { "@ + accessors_text(accs, litss) + "}"@
}

impl Accessor {
    /// The source text of this accessor; none where its kind names no type
    /// or a value has no literal form.
    pub fn render(&self) -> (r: Option<String>)
        ensures
            r is Some <==> renderable(self@),
            r is Some ==> exists|lits: Seq<Seq<char>>|
                lits_fit(self@.2, lits) && r->0@ == accessor_text(self@, lits),
    {
        let ghost av = arm_views(self.arms@);
        let t = match self.kind.rust_type() {
            Some(t) => t,
            None => {
                return None;
            },
        };
        let ghost mut lits: Seq<Seq<char>> = Seq::empty();
        let mut arms = String::new();
        let mut k: usize = 0;
        while k < self.arms.len()
            invariant
                k <= self.arms.len(),
                av == arm_views(self.arms@),
                lits_fit(av.take(k as int), lits),
                forall|i: int| 0 <= i < k ==> has_literal(#[trigger] av[i].1),
                arms@ == arms_text(av.take(k as int), lits),
            decreases self.arms.len() - k,
        {
            let (variant, value) = &self.arms[k];
            assert(av[k as int] == (variant@, *value));
            let lit = match value.value_tokens() {
                Some(l) => l,
                None => {
                    assert(!has_literal(self@.2[k as int].1));
                    return None;
                },
            };
            let ghost before = lits;
            proof {
                lits = lits.push(lit@);
            }
            assert(av.take(k as int + 1).drop_last() =~= av.take(k as int));
            assert(lits.drop_last() =~= before);
            append(&mut arms, "Self::");
            append(&mut arms, variant.as_str());
            append(&mut arms, " => Some(");
            append(&mut arms, lit.as_str());
            append(&mut arms, "), ");
            assert(arms@ =~= arms_text(av.take(k as int + 1), lits));
            assert forall|i: int| 0 <= i < k + 1 implies literal_fits(
                av.take(k as int + 1)[i].1,
                #[trigger] lits[i],
            ) by {
                if i < k {
                    assert(av.take(k as int)[i] == av.take(k as int + 1)[i]);
                    assert(literal_fits(av.take(k as int)[i].1, before[i]));
                }
            }
            k = k + 1;
        }
        assert(av.take(k as int) =~= av);
        let mut r = String::new();
        append(&mut r, "pub fn ");
        append(&mut r, self.name.as_str());
        append(&mut r, "(&self) -> Option<");
        append(&mut r, t);
        append(&mut r, "> { match self { ");
        append(&mut r, arms.as_str());
        if self.fallback {
            append(&mut r, "_ => None, ");
        }
        append(&mut r, "} } ");
        assert(r@ =~= accessor_text(self@, lits));
        Some(r)
    }
}

/// The source text of the `impl` block of the type `name` that holds the
/// accessors; none where one of them cannot be written out.
pub fn render_impl(name: &String, accs: &Vec<Accessor>) -> (r: Option<String>)
    ensures
        r is Some <==> forall|g: int|
            0 <= g < accs.len() ==> renderable(#[trigger] accessor_views(accs@)[g]),
        r is Some ==> exists|litss: Seq<Seq<Seq<char>>>|
            all_fit(accessor_views(accs@), litss) && r->0@ == impl_text(
                name@,
                accessor_views(accs@),
                litss,
            ),
{
    let ghost avs = accessor_views(accs@);
    let ghost mut litss: Seq<Seq<Seq<char>>> = Seq::empty();
    let mut body = String::new();
    let mut k: usize = 0;
    while k < accs.len()
        invariant
            k <= accs.len(),
            avs == accessor_views(accs@),
            all_fit(avs.take(k as int), litss),
            forall|g: int| 0 <= g < k ==> renderable(#[trigger] avs[g]),
            body@ == accessors_text(avs.take(k as int), litss),
        decreases accs.len() - k,
    {
        assert(avs[k as int] == accs@[k as int]@);
        let f = match accs[k].render() {
            Some(f) => f,
            None => {
                return None;
            },
        };
        let ghost lits = choose|lits: Seq<Seq<char>>|
            lits_fit(avs[k as int].2, lits) && f@ == accessor_text(avs[k as int], lits);
        let ghost before = litss;
        proof {
            litss = litss.push(lits);
        }
        assert(avs.take(k as int + 1).drop_last() =~= avs.take(k as int));
        assert(litss.drop_last() =~= before);
        append(&mut body, f.as_str());
        assert(body@ =~= accessors_text(avs.take(k as int + 1), litss));
        assert forall|g: int| 0 <= g < k + 1 implies lits_fit(
            avs.take(k as int + 1)[g].2,
            #[trigger] litss[g],
        ) by {
            if g < k {
                assert(avs.take(k as int)[g] == avs.take(k as int + 1)[g]);
                assert(lits_fit(avs.take(k as int)[g].2, before[g]));
            }
        }
        k = k + 1;
    }
    assert(avs.take(k as int) =~= avs);
    let mut r = String::new();
    append(&mut r, "impl ");
    append(&mut r, name.as_str());
    append(&mut r, " { ");
    append(&mut r, body.as_str());
    append(&mut r, "}");
    assert(r@ =~= impl_text(name@, avs, litss));
    Some(r)
}

} // verus!
