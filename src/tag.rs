use crate::error::{Category, ErrorView, TagError};
use crate::eval::{evaluate_expr, evaluation, scope_vars, Scope};
use crate::text::{concat, concat_from, is_ident, trim_of, trimmed, valid_ident, views};
use crate::value::Value;
use vstd::prelude::*;

verus! {

/// One fact declared on a variant: its name, the variant, the expression
/// text, and the value once it is resolved.
#[derive(Debug, Clone)]
pub struct Tag {
    pub name: String,
    pub variant: String,
    pub expression: String,
    pub value: Option<Value>,
}

/// The expression text of a declaration: the tokens after the separator,
/// joined and trimmed; `true` where nothing is left.
pub open spec fn expression_text(toks: Seq<Seq<char>>) -> Seq<char> {
    let rest = if toks.len() <= 2 {
        Seq::empty()
    } else {
        concat(toks.skip(2))
    };
    let e = trim_of(rest);
    if e.len() == 0 {
        seq!['t', 'r', 'u', 'e']
    } else {
        e
    }
}

/// What one declaration on `variant` with the tokens `toks` declares: the
/// fact's name and expression text, or why it is refused.
pub open spec fn declared(variant: Seq<char>, toks: Seq<Seq<char>>) -> Result<
    (Seq<char>, Seq<char>),
    ErrorView,
> {
    if toks.len() == 0 {
        Err((Category::InvalidFactName, Seq::empty(), variant))
    } else if !valid_ident(toks[0]) {
        Err((Category::InvalidFactName, toks[0], variant))
    } else if toks.len() > 1 && toks[1] != seq![','] {
        Err((Category::MalformedDeclaration, toks[0], variant))
    } else {
        Ok((toks[0], expression_text(toks)))
    }
}

impl Tag {
    /// Whether both tags are resolved, to values of the same kind.
    pub fn is_type(&self, other: &Tag) -> (r: bool)
        ensures
            r == (self.value is Some && other.value is Some && self.value->0.kind_of()
                == other.value->0.kind_of()),
    {
        match (&self.value, &other.value) {
            (Some(a), Some(b)) => a.kind() == b.kind(),
            _ => false,
        }
    }

    pub fn is_evaluated(&self) -> (r: bool)
        ensures
            r == self.value is Some,
    {
        self.value.is_some()
    }

    /// Evaluates the expression in `scope` unless the tag is resolved
    /// already, and returns its value.
    pub fn evaluate(&mut self, scope: &Scope) -> (r: Option<Value>)
        ensures
            final(self).name == old(self).name,
            final(self).variant == old(self).variant,
            final(self).expression == old(self).expression,
            final(self).value == (if old(self).value is Some {
                old(self).value
            } else {
                evaluation(old(self).expression@, scope_vars(*scope))
            }),
            r == final(self).value,
    {
        if self.value.is_none() {
            self.value = evaluate_expr(&self.expression, scope);
        }
        match &self.value {
            Some(v) => Some(v.duplicate()),
            None => None,
        }
    }

    /// Reads one declaration `tag(name[, expression])` of `variant`, given
    /// the tokens between the parentheses.
    pub fn parse(variant: &String, tokens: &Vec<String>) -> (r: Result<Tag, TagError>)
        ensures
            match declared(variant@, views(tokens@)) {
                Ok((name, expr)) => r is Ok && r->Ok_0.name@ == name && r->Ok_0.variant@
                    == variant@ && r->Ok_0.expression@ == expr && r->Ok_0.value is None,
                Err(e) => r is Err && r->Err_0@ == e,
            },
    {
        if tokens.len() == 0 {
            let empty = String::new();
            return Err(TagError::new(Category::InvalidFactName, &empty, variant));
        }
        let name = &tokens[0];
        assert(views(tokens@)[0] == tokens@[0]@);
        if !is_ident(name) {
            return Err(TagError::new(Category::InvalidFactName, name, variant));
        }
        let comma = ",".to_owned();
        proof {
            reveal_strlit(",");
        }
        if tokens.len() > 1 && tokens[1] != comma {
            assert(views(tokens@)[1] == tokens@[1]@);
            assert(comma@ == seq![',']);
            return Err(TagError::new(Category::MalformedDeclaration, name, variant));
        }
        assert(tokens.len() > 1 ==> views(tokens@)[1] == seq![',']) by {
            if tokens.len() > 1 {
                assert(views(tokens@)[1] == tokens@[1]@);
            }
        }
        let rest = if tokens.len() > 2 {
            concat_from(tokens, 2)
        } else {
            String::new()
        };
        let mut expression = trimmed(&rest);
        if expression.as_str().is_empty() {
            expression = "true".to_owned();
            proof {
                reveal_strlit("true");
            }
        }
        Ok(Tag { name: name.clone(), variant: variant.clone(), expression, value: None })
    }
}

} // verus!
