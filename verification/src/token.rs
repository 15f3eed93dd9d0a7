//! Display tokens emitted by the markdown tokenizer and consumed by the
//! terminal renderer.

use vstd::prelude::*;

verus! {

/// A terminal text attribute that inline markup toggles.
#[derive(Clone, Copy, PartialEq, Eq, Structural, Debug)]
pub enum Style {
    Italic,
    Bold,
}

/// One display token.
///
/// A token sequence carries the input text with the markdown markup
/// consumed: `Text` holds verbatim characters, the other variants mark
/// structure around them.
#[derive(Clone, Debug)]
pub enum Token {
    Text(String),
    StyleBegin(Style),
    StyleEnd(Style),
    HeaderStart(usize),
    HeaderEnd,
    CodeFenceStart(String),
    CodeFenceEnd,
}

/// Mathematical image of a `Token`: text carried as a character sequence.
pub enum TokenModel {
    Text(Seq<char>),
    StyleBegin(Style),
    StyleEnd(Style),
    HeaderStart(nat),
    HeaderEnd,
    CodeFenceStart(Seq<char>),
    CodeFenceEnd,
}

impl View for Token {
    type V = TokenModel;

    open spec fn view(&self) -> TokenModel {
        match self {
            Token::Text(s) => TokenModel::Text(s@),
            Token::StyleBegin(st) => TokenModel::StyleBegin(*st),
            Token::StyleEnd(st) => TokenModel::StyleEnd(*st),
            Token::HeaderStart(l) => TokenModel::HeaderStart(*l as nat),
            Token::HeaderEnd => TokenModel::HeaderEnd,
            Token::CodeFenceStart(lang) => TokenModel::CodeFenceStart(lang@),
            Token::CodeFenceEnd => TokenModel::CodeFenceEnd,
        }
    }
}

/// The views of a token sequence.
pub open spec fn token_views(ts: Seq<Token>) -> Seq<TokenModel> {
    ts.map_values(|t: Token| t@)
}

/// The text a token contributes to the rendered output.
pub open spec fn token_text(t: TokenModel) -> Seq<char> {
    match t {
        TokenModel::Text(s) => s,
        _ => Seq::empty(),
    }
}

/// Copy of `v[a..b]`.
pub fn vec_slice_copy<T: Copy>(v: &Vec<T>, a: usize, b: usize) -> (r: Vec<T>)
    requires
        a <= b <= v@.len(),
    ensures
        r@ == v@.subrange(a as int, b as int),
{
    let mut r: Vec<T> = Vec::new();
    let mut i: usize = a;
    while i < b
        invariant
            a <= i <= b <= v@.len(),
            r@ == v@.subrange(a as int, i as int),
        decreases b - i,
    {
        r.push(v[i]);
        i += 1;
        proof {
            assert(r@ =~= v@.subrange(a as int, i as int));
        }
    }
    r
}

/// The characters of a string slice, in order.
pub fn str_to_chars(s: &str) -> (r: Vec<char>)
    ensures
        r@ == s@,
{
    let n = s.unicode_len();
    let mut r: Vec<char> = Vec::new();
    let mut i: usize = 0;
    while i < n
        invariant
            n == s@.len(),
            0 <= i <= n,
            r@ == s@.take(i as int),
        decreases n - i,
    {
        r.push(s.get_char(i));
        i += 1;
        proof {
            assert(r@ =~= s@.take(i as int));
        }
    }
    proof {
        assert(s@.take(n as int) =~= s@);
    }
    r
}

/// Relies on `String`'s `FromIterator` over `char`: collecting yields the
/// string of exactly the given characters, in order.
#[verifier::external_body]
pub fn chars_to_string(v: &Vec<char>) -> (r: String)
    ensures
        r@ == v@,
{
    v.iter().collect()
}


} // verus!
