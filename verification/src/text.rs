//! Pieces of text: joining them, guarding their commas, trimming them.

use crate::ast::Token;
use itertools::Itertools;
use vstd::prelude::*;
use vstd::string::{StrSliceExecFns, StringExecFns};

verus! {

/// A sequence of no item or one.
pub open spec fn option_seq<T>(item: Option<T>) -> Seq<T> {
    match item {
        Some(one) => seq![one],
        None => Seq::empty(),
    }
}

/// The texts of `parts`.
pub open spec fn texts(parts: Seq<String>) -> Seq<Seq<char>> {
    parts.map_values(|part: String| part@)
}

/// The `parts` one after the other.
pub open spec fn concat_spec(parts: Seq<Seq<char>>) -> Seq<char>
    decreases parts.len(),
{
    if parts.len() == 0 {
        Seq::empty()
    } else {
        concat_spec(parts.drop_last()) + parts.last()
    }
}

/// The `parts` with `sep` between each two neighbours.
pub open spec fn intersperse_spec(parts: Seq<Seq<char>>, sep: Seq<char>) -> Seq<Seq<char>>
    decreases parts.len(),
{
    if parts.len() <= 1 {
        parts
    } else {
        intersperse_spec(parts.drop_last(), sep).push(sep).push(parts.last())
    }
}

/// The `parts` one after the other, with `sep` between each two neighbours.
pub open spec fn join_spec(parts: Seq<Seq<char>>, sep: Seq<char>) -> Seq<char>
    decreases parts.len(),
{
    if parts.len() == 0 {
        Seq::empty()
    } else if parts.len() == 1 {
        parts[0]
    } else {
        join_spec(parts.drop_last(), sep) + sep + parts.last()
    }
}

/// Parts with a separator put between them and then written one after the
/// other are the parts joined by the separator.
pub proof fn lemma_interspersed_parts_join(parts: Seq<Seq<char>>, sep: Seq<char>)
    ensures
        concat_spec(intersperse_spec(parts, sep)) == join_spec(parts, sep),
    decreases parts.len(),
{
    if parts.len() == 1 {
        assert(concat_spec(parts.drop_last()) =~= Seq::empty());
        assert(concat_spec(parts) =~= parts[0]);
    } else if parts.len() > 1 {
        let before = intersperse_spec(parts.drop_last(), sep);
        lemma_interspersed_parts_join(parts.drop_last(), sep);
        let with_sep = before.push(sep);
        let whole = with_sep.push(parts.last());
        assert(whole.drop_last() =~= with_sep);
        assert(with_sep.drop_last() =~= before);
        assert(concat_spec(whole) == concat_spec(with_sep) + parts.last());
        assert(concat_spec(with_sep) == concat_spec(before) + sep);
    }
}

/// Each token with the one after it; the last token with the first.
pub open spec fn circular_pairs_spec(tokens: Seq<Token>) -> Seq<(Token, Token)> {
    Seq::new(tokens.len(), |i: int| (tokens[i], tokens[(i + 1) % (tokens.len() as int)]))
}

/// `itertools::Itertools::circular_tuple_windows` on pairs: as many pairs as
/// there are tokens, each token with a copy of the one after it, the last with
/// a copy of the first.
#[verifier::external_body]
pub(crate) fn circular_pairs(tokens: &Vec<Token>) -> (pairs: Vec<(Token, Token)>)
    ensures
        pairs@ == circular_pairs_spec(tokens@),
{
    tokens.iter().cloned().circular_tuple_windows().collect()
}

/// `itertools::Itertools::intersperse`: the parts in their order, with a copy
/// of `sep` between each two neighbours.
#[verifier::external_body]
pub(crate) fn interspersed(parts: Vec<String>, sep: String) -> (spread: Vec<String>)
    ensures
        texts(spread@) == intersperse_spec(texts(parts@), sep@),
{
    Itertools::intersperse(parts.into_iter(), sep).collect()
}

/// `itertools::Itertools::join`: the parts written one after the other, with
/// `sep` between each two neighbours.
#[verifier::external_body]
pub(crate) fn join_with(parts: &Vec<String>, sep: &str) -> (joined: String)
    ensures
        joined@ == join_spec(texts(parts@), sep@),
{
    parts.iter().join(sep)
}

/// Whether `c` is white space: one of the characters that Unicode gives the
/// property White_Space.
pub open spec fn is_whitespace(c: char) -> bool {
    let code: u32 = c as u32;
    ||| 0x0009 <= code <= 0x000d
    ||| code == 0x0020
    ||| code == 0x0085
    ||| code == 0x00a0
    ||| code == 0x1680
    ||| 0x2000 <= code <= 0x200a
    ||| code == 0x2028
    ||| code == 0x2029
    ||| code == 0x202f
    ||| code == 0x205f
    ||| code == 0x3000
}

/// `char::is_whitespace`: whether the character has the Unicode property
/// White_Space, whose characters `is_whitespace` lists.
#[verifier::external_body]
pub(crate) fn char_is_whitespace(c: char) -> (white: bool)
    ensures
        white == is_whitespace(c),
{
    c.is_whitespace()
}

/// The parts one after the other.
pub fn concat_all(parts: &Vec<String>) -> (whole: String)
    ensures
        whole@ == concat_spec(texts(parts@)),
{
    let mut whole = String::new();
    let mut at: usize = 0;
    while at < parts.len()
        invariant
            at <= parts@.len(),
            whole@ == concat_spec(texts(parts@.take(at as int))),
        decreases parts@.len() - at,
    {
        proof {
            let upto = texts(parts@.take(at + 1));
            assert(upto.drop_last() =~= texts(parts@.take(at as int)));
            assert(upto.last() == parts@[at as int]@);
        }
        whole.append(parts[at].as_str());
        at += 1;
    }
    proof {
        assert(parts@.take(at as int) =~= parts@);
    }
    whole
}

/// The parts one after the other, with `sep` between each two neighbours.
pub fn join(parts: &Vec<String>, sep: &str) -> (joined: String)
    ensures
        joined@ == join_spec(texts(parts@), sep@),
{
    let mut joined = String::new();
    let mut at: usize = 0;
    while at < parts.len()
        invariant
            at <= parts@.len(),
            joined@ == join_spec(texts(parts@.take(at as int)), sep@),
        decreases parts@.len() - at,
    {
        proof {
            let upto = texts(parts@.take(at + 1));
            assert(upto.drop_last() =~= texts(parts@.take(at as int)));
            assert(upto.last() == parts@[at as int]@);
            if at == 0 {
                assert(joined@ =~= Seq::empty());
                assert(upto[0] =~= joined@ + parts@[at as int]@);
            }
        }
        if at > 0 {
            joined.append(sep);
        }
        joined.append(parts[at].as_str());
        at += 1;
    }
    proof {
        assert(parts@.take(at as int) =~= parts@);
    }
    joined
}

/// The depth inside parentheses after `c`, from the depth before it.
pub open spec fn depth_after(depth: nat, c: char) -> nat {
    if c == '(' {
        depth + 1
    } else if c == ')' && depth > 0 {
        (depth - 1) as nat
    } else {
        depth
    }
}

/// Whether `text`, read from inside `depth` open parentheses, holds a comma
/// that no parentheses enclose.
pub open spec fn has_bare_comma_from(text: Seq<char>, depth: nat) -> bool
    decreases text.len(),
{
    if text.len() == 0 {
        false
    } else if text[0] == ',' && depth == 0 {
        true
    } else {
        has_bare_comma_from(text.drop_first(), depth_after(depth, text[0]))
    }
}

/// Whether `text` holds a comma that no parentheses enclose.
pub open spec fn has_bare_comma(text: Seq<char>) -> bool {
    has_bare_comma_from(text, 0)
}

/// A text without a comma holds none that no parentheses enclose.
pub proof fn lemma_no_comma_is_no_bare_comma(text: Seq<char>, depth: nat)
    requires
        !text.contains(','),
    ensures
        !has_bare_comma_from(text, depth),
    decreases text.len(),
{
    if text.len() > 0 {
        assert(text[0] != ',');
        assert forall|i: int| 0 <= i < text.drop_first().len() implies text.drop_first()[i] != ',' by {
            assert(text[i + 1] != ',');
        }
        lemma_no_comma_is_no_bare_comma(text.drop_first(), depth_after(depth, text[0]));
    }
}

/// In a text without an opening parenthesis no comma is enclosed: if it holds
/// a comma, it holds one that no parentheses enclose.
pub proof fn lemma_comma_without_parentheses_is_bare(text: Seq<char>)
    requires
        text.contains(','),
        !text.contains('('),
    ensures
        has_bare_comma(text),
    decreases text.len(),
{
    if text[0] != ',' {
        let rest = text.drop_first();
        let at = choose|at: int| 0 <= at < text.len() && text[at] == ',';
        assert(rest[at - 1] == ',');
        assert(text[0] != '(');
        assert forall|i: int| 0 <= i < rest.len() implies rest[i] != '(' by {
            assert(text[i + 1] != '(');
        }
        lemma_comma_without_parentheses_is_bare(rest);
    }
}

/// Whether `text` holds a comma that no parentheses enclose.
pub fn contains_bare_comma(text: &str) -> (found: bool)
    ensures
        found == has_bare_comma(text@),
{
    let length = text.unicode_len();
    let mut depth: usize = 0;
    proof {
        assert(text@.skip(0) =~= text@);
    }
    for c in it: text.chars()
        invariant
            it.seq() == text@,
            length == text@.len(),
            depth <= it.index(),
            has_bare_comma(text@) == has_bare_comma_from(
                text@.skip(it.index() as int),
                depth as nat,
            ),
    {
        proof {
            let rest = text@.skip(it.index() as int);
            assert(rest[0] == c);
            assert(rest.drop_first() =~= text@.skip(it.index() + 1));
        }
        if c == ',' && depth == 0 {
            return true;
        }
        if c == '(' {
            depth += 1;
        } else if c == ')' && depth > 0 {
            depth -= 1;
        }
    }
    false
}

/// The type spelling `ty`, in parentheses if it holds a comma that no
/// parentheses enclose.
pub open spec fn protect_commas_spec(ty: Seq<char>) -> Seq<char> {
    if has_bare_comma(ty) {
        "("@ + ty + ")"@
    } else {
        ty
    }
}

/// Puts `ty` in parentheses if it holds a comma that no parentheses enclose,
/// so that the comma does not end a macro argument.
pub fn protect_commas(ty: String) -> (protected: String)
    ensures
        protected@ == protect_commas_spec(ty@),
{
    if contains_bare_comma(ty.as_str()) {
        let mut protected = String::from_str("(");
        protected.append(ty.as_str());
        protected.append(")");
        protected
    } else {
        ty
    }
}

/// `text` without the white space at its end.
pub open spec fn trim_end_spec(text: Seq<char>) -> Seq<char>
    decreases text.len(),
{
    if text.len() > 0 && is_whitespace(text.last()) {
        trim_end_spec(text.drop_last())
    } else {
        text
    }
}

/// What is left of a text after trimming is the text up to some place, and
/// does not end in white space.
pub proof fn lemma_trimmed_text_ends_without_white_space(text: Seq<char>)
    ensures
        trim_end_spec(text).is_prefix_of(text),
        trim_end_spec(text).len() > 0 ==> !is_whitespace(trim_end_spec(text).last()),
    decreases text.len(),
{
    if text.len() > 0 && is_whitespace(text.last()) {
        lemma_trimmed_text_ends_without_white_space(text.drop_last());
    }
}

/// `text` without the white space at its end.
pub fn trim_end(text: &str) -> (trimmed: String)
    ensures
        trimmed@ == trim_end_spec(text@),
{
    let mut chars: Vec<char> = Vec::new();
    for c in it: text.chars()
        invariant
            it.seq() == text@,
            chars@ == text@.take(it.index() as int),
    {
        proof {
            assert(text@.take(it.index() + 1) =~= text@.take(it.index() as int).push(c));
        }
        chars.push(c);
    }
    proof {
        assert(text@.take(text@.len() as int) =~= text@);
    }
    let mut keep = chars.len();
    while keep > 0 && char_is_whitespace(chars[keep - 1])
        invariant
            chars@ == text@,
            keep <= chars@.len(),
            trim_end_spec(text@) == trim_end_spec(text@.take(keep as int)),
        decreases keep,
    {
        proof {
            let upto = text@.take(keep as int);
            assert(upto.last() == chars@[keep - 1]);
            assert(upto.drop_last() =~= text@.take(keep - 1));
        }
        keep -= 1;
    }
    proof {
        let upto = text@.take(keep as int);
        if keep > 0 {
            assert(upto.last() == chars@[keep - 1]);
        }
        assert(upto =~= text@.subrange(0, keep as int));
    }
    String::from_str(text.substring_char(0, keep))
}

/// The text of a text that may be missing.
pub open spec fn text_of(text: Option<String>) -> Option<Seq<char>> {
    match text {
        Some(t) => Some(t@),
        None => None,
    }
}

/// `texts` distributes over `push`.
pub proof fn lemma_texts_push(parts: Seq<String>, part: String)
    ensures
        texts(parts.push(part)) == texts(parts).push(part@),
{
    assert(texts(parts.push(part)) =~= texts(parts).push(part@));
}

/// The texts of `items`, or `None` if one of them is missing.
pub open spec fn all_or_none(items: Seq<Option<Seq<char>>>) -> Option<Seq<Seq<char>>>
    decreases items.len(),
{
    if items.len() == 0 {
        Some(Seq::empty())
    } else {
        match (all_or_none(items.drop_last()), items.last()) {
            (Some(before), Some(last)) => Some(before.push(last)),
            _ => None,
        }
    }
}

/// Where the first items hold a missing one, all the items do.
pub proof fn lemma_all_or_none_missing(items: Seq<Option<Seq<char>>>, upto: int)
    requires
        0 <= upto <= items.len(),
        all_or_none(items.take(upto)) is None,
    ensures
        all_or_none(items) is None,
    decreases items.len(),
{
    if upto < items.len() {
        assert(items.drop_last().take(upto) =~= items.take(upto));
        lemma_all_or_none_missing(items.drop_last(), upto);
    } else {
        assert(items.take(upto) =~= items);
    }
}

/// The parts in the opposite order.
pub fn reversed(parts: Vec<String>) -> (turned: Vec<String>)
    ensures
        turned@ == parts@.reverse(),
{
    let mut parts = parts;
    let ghost all = parts@;
    let mut turned: Vec<String> = Vec::new();
    while parts.len() > 0
        invariant
            parts@ == all.take(parts@.len() as int),
            parts@.len() + turned@.len() == all.len(),
            forall|j: int| 0 <= j < turned@.len() ==> turned@[j] == all[all.len() - 1 - j],
        decreases parts@.len(),
    {
        let part = parts.pop().unwrap();
        proof {
            assert(parts@ =~= all.take(parts@.len() as int));
        }
        turned.push(part);
    }
    proof {
        assert(turned@ =~= all.reverse());
    }
    turned
}

} // verus!
