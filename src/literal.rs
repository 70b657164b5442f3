use crate::value::{Kind, Value};
use evalexpr::{DefaultNumericTypes, EvalexprNumericTypes};
use vstd::prelude::*;

verus! {

/// The source text of a suffixed 64-bit float literal for the float with
/// the bit pattern `bits`.
pub uninterp spec fn float_literal(bits: u64) -> Seq<char>;

/// The decimal digits of `n`.
pub open spec fn digits(n: nat) -> Seq<char>
    decreases n,
{
    let d = seq!['0', '1', '2', '3', '4', '5', '6', '7', '8', '9'][(n % 10) as int];
    if n < 10 {
        seq![d]
    } else {
        digits(n / 10).push(d)
    }
}

/// The decimal text of `i`, with a leading `-` where it is negative.
pub open spec fn decimal(i: int) -> Seq<char> {
    if i < 0 {
        seq!['-'] + digits((-i) as nat)
    } else {
        digits(i as nat)
    }
}

/// Whether the float with bit pattern `bits` is finite: its exponent bits
/// are not all set.
pub open spec fn finite_bits(bits: u64) -> bool {
    (bits >> 52u64) & 0x7ffu64 != 0x7ffu64
}

/// Whether every character is printable ASCII other than `"`, `\` and
/// `'`: characters that a string literal holds as they are.
pub open spec fn plain_text(s: Seq<char>) -> bool {
    forall|i: int|
        0 <= i < s.len() ==> ' ' <= #[trigger] s[i] && s[i] <= '~' && s[i] != '"' && s[i]
            != '\\' && s[i] != '\''
}

/// Relies on proc_macro2::Literal::string: the escaped text between two
/// double quotes. Printable ASCII other than `"`, `\` and `'` stands as it
/// is; how other characters are escaped differs between the compiler's
/// literal and proc-macro2's own, so it is not stated.
#[verifier::external_body]
fn string_literal_text(s: &String) -> (r: String)
    ensures
        quoted(r@),
        plain_text(s@) ==> r@ == seq!['"'] + s@ + seq!['"'],
{
    proc_macro2::Literal::string(s).to_string()
}

/// Relies on proc_macro2::Literal::i64_suffixed: the decimal digits
/// followed by `i64`.
#[verifier::external_body]
fn int_literal_text(i: i64) -> (r: String)
    ensures
        r@ == decimal(i as int) + seq!['i', '6', '4'],
{
    proc_macro2::Literal::i64_suffixed(i).to_string()
}

/// Relies on proc_macro2::Literal::f64_suffixed, which panics on a float
/// that is not finite.
#[verifier::external_body]
fn float_literal_text(bits: u64) -> (r: String)
    requires
        finite_bits(bits),
    ensures
        r@ == float_literal(bits),
{
    let f = <<DefaultNumericTypes as EvalexprNumericTypes>::Float>::from_bits(bits);
    proc_macro2::Literal::f64_suffixed(f).to_string()
}

/// Text that begins and ends with a double quote.
pub open spec fn quoted(t: Seq<char>) -> bool {
    t.len() >= 2 && t[0] == '"' && t[t.len() - 1] == '"'
}

/// Whether a value has a literal form.
pub open spec fn has_literal(v: Value) -> bool {
    match v {
        Value::String(_) => true,
        _ => literal_of(v) is Some,
    }
}

/// Whether `t` is literal text for `v`: for a string, a quoted literal,
/// which is the string between double quotes where it is plain text; the
/// exact text for the other kinds.
pub open spec fn literal_fits(v: Value, t: Seq<char>) -> bool {
    match v {
        Value::String(s) => quoted(t) && (plain_text(s@) ==> t == seq!['"'] + s@ + seq!['"']),
        _ => literal_of(v) == Some(t),
    }
}

/// The source text of a value other than a string as a literal, where it
/// has one.
pub open spec fn literal_of(v: Value) -> Option<Seq<char>> {
    match v {
        Value::String(_) => None,
        Value::Float(b) => if finite_bits(b) {
            Some(float_literal(b))
        } else {
            None
        },
        Value::Integer(i) => Some(decimal(i as int) + seq!['i', '6', '4']),
        Value::Boolean(b) => Some(
            if b {
                seq!['t', 'r', 'u', 'e']
            } else {
                seq!['f', 'a', 'l', 's', 'e']
            },
        ),
        Value::Unsupported => None,
    }
}

/// The source text of the type that a generated accessor returns inside
/// its `Option`.
pub open spec fn type_text(k: Kind) -> Option<Seq<char>> {
    match k {
        Kind::String => Some("&'static str"@),
        Kind::Float => Some(seq!['f', '6', '4']),
        Kind::Integer => Some(seq!['i', '6', '4']),
        Kind::Boolean => Some(seq!['b', 'o', 'o', 'l']),
        Kind::Unsupported => None,
    }
}

impl Kind {
    /// The name of the Rust type for values of this kind.
    pub fn rust_type(&self) -> (r: Option<&'static str>)
        ensures
            match type_text(*self) {
                Some(t) => r is Some && r->0@ == t,
                None => r is None,
            },
    {
        proof {
            reveal_strlit("f64");
            reveal_strlit("i64");
            reveal_strlit("bool");
        }
        match self {
            Kind::String => Some("&'static str"),
            Kind::Float => Some("f64"),
            Kind::Integer => Some("i64"),
            Kind::Boolean => Some("bool"),
            Kind::Unsupported => None,
        }
    }
}

impl Value {
    /// The name of the Rust type of this value.
    pub fn return_type_string(&self) -> (r: &'static str)
        requires
            self.is_supported(),
        ensures
            Some(r@) == type_text(self.kind_of()),
    {
        match self.kind().rust_type() {
            Some(t) => t,
            None => "",
        }
    }

    /// The source text of this value as a literal; none for an unsupported
    /// value or a float that is not finite.
    pub fn value_tokens(&self) -> (r: Option<String>)
        ensures
            r is Some <==> has_literal(*self),
            r is Some ==> literal_fits(*self, r->0@),
    {
        match self {
            Value::String(s) => {
                let t = string_literal_text(s);
                assert(literal_fits(*self, t@));
                Some(t)
            },
            Value::Float(b) => {
                if (*b >> 52u64) & 0x7ffu64 != 0x7ffu64 {
                    let t = float_literal_text(*b);
                    assert(literal_of(*self) == Some(t@));
                    Some(t)
                } else {
                    None
                }
            },
            Value::Integer(i) => {
                let t = int_literal_text(*i);
                assert(literal_of(*self) == Some(t@));
                Some(t)
            },
            Value::Boolean(b) => {
                proof {
                    reveal_strlit("true");
                    reveal_strlit("false");
                }
                let t = if *b {
                    "true".to_owned()
                } else {
                    "false".to_owned()
                };
                assert(literal_of(*self) == Some(t@));
                Some(t)
            },
            Value::Unsupported => None,
        }
    }
}

} // verus!
