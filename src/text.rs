use vstd::prelude::*;
use vstd::string::StringExecFns;

verus! {

/// Whether a string is an identifier under Rust's naming rules (keywords
/// excluded).
pub uninterp spec fn valid_ident(s: Seq<char>) -> bool;

/// Whether `c` has the Unicode property White_Space.
pub open spec fn is_white(c: char) -> bool {
    c == ' ' || ('\t' <= c && c <= '\r') || c == '\u{85}' || c == '\u{a0}' || c == '\u{1680}'
        || ('\u{2000}' <= c && c <= '\u{200a}') || c == '\u{2028}' || c == '\u{2029}' || c
        == '\u{202f}' || c == '\u{205f}' || c == '\u{3000}'
}

/// `s` without its leading White_Space characters.
pub open spec fn trim_start_of(s: Seq<char>) -> Seq<char>
    decreases s.len(),
{
    if s.len() > 0 && is_white(s[0]) {
        trim_start_of(s.drop_first())
    } else {
        s
    }
}

/// `s` without its trailing White_Space characters.
pub open spec fn trim_end_of(s: Seq<char>) -> Seq<char>
    decreases s.len(),
{
    if s.len() > 0 && is_white(s.last()) {
        trim_end_of(s.drop_last())
    } else {
        s
    }
}

/// `s` without its leading and trailing White_Space characters.
pub open spec fn trim_of(s: Seq<char>) -> Seq<char> {
    trim_end_of(trim_start_of(s))
}

/// Relies on syn::parse_str::<syn::Ident>: it succeeds exactly on identifiers.
#[verifier::external_body]
pub(crate) fn is_ident(s: &String) -> (r: bool)
    ensures
        r == valid_ident(s@),
{
    syn::parse_str::<syn::Ident>(s).is_ok()
}

/// Relies on str::trim: removes leading and trailing characters with the
/// Unicode property White_Space.
#[verifier::external_body]
pub(crate) fn trimmed(s: &String) -> (r: String)
    ensures
        r@ == trim_of(s@),
{
    s.trim().to_string()
}

/// Appends the characters of `s`.
pub(crate) fn append(dst: &mut String, s: &str)
    ensures
        final(dst)@ == old(dst)@ + s@,
{
    dst.append(s)
}

/// The concatenation of a sequence of strings.
pub open spec fn concat(ts: Seq<Seq<char>>) -> Seq<char>
    decreases ts.len(),
{
    if ts.len() == 0 {
        Seq::empty()
    } else {
        concat(ts.drop_last()) + ts.last()
    }
}

/// The views of a sequence of strings.
pub open spec fn views(ts: Seq<String>) -> Seq<Seq<char>> {
    ts.map_values(|t: String| t@)
}

/// Concatenates `ts[from..]`.
pub fn concat_from(ts: &Vec<String>, from: usize) -> (r: String)
    requires
        from <= ts.len(),
    ensures
        r@ == concat(views(ts@).skip(from as int)),
{
    let mut r = String::new();
    let mut i = from;
    while i < ts.len()
        invariant
            from <= i <= ts.len(),
            r@ == concat(views(ts@).subrange(from as int, i as int)),
        decreases ts.len() - i,
    {
        append(&mut r, ts[i].as_str());
        proof {
            let s = views(ts@).subrange(from as int, i as int + 1);
            assert(s.drop_last() =~= views(ts@).subrange(from as int, i as int));
        }
        i = i + 1;
    }
    assert(views(ts@).subrange(from as int, ts.len() as int) =~= views(ts@).skip(from as int));
    r
}

} // verus!
