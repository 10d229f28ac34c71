//! Query normalisation: what is left of a query once its white space is gone.

use vstd::prelude::*;

verus! {

/// Whether `c` is white space: a character with Unicode's `White_Space`
/// property.
pub open spec fn is_white_space(c: char) -> bool {
    let code = c as u32;
    ||| 0x0009 <= code <= 0x000d
    ||| code == 0x0020
    ||| code == 0x0085
    ||| code == 0x00a0
    ||| code == 0x1680
    ||| 0x2000 <= code <= 0x200a
    ||| code == 0x2028
    ||| code == 0x2029
    ||| code == 0x202f
    ||| code == 0x205f
    ||| code == 0x3000
}

/// Decides [`is_white_space`].
pub fn is_whitespace(c: char) -> (white: bool)
    ensures
        white == is_white_space(c),
{
    let code: u32 = c as u32;
    (0x0009 <= code && code <= 0x000d) || code == 0x0020 || code == 0x0085 || code == 0x00a0
        || code == 0x1680 || (0x2000 <= code && code <= 0x200a) || code == 0x2028 || code
        == 0x2029 || code == 0x202f || code == 0x205f || code == 0x3000
}

/// The characters of `text` that are not white space, in their order.
pub open spec fn without_whitespace(text: Seq<char>) -> Seq<char> {
    text.filter(|c: char| !is_white_space(c))
}

/// `String::push` of std appends one character to the end of the string.
pub assume_specification[ String::push ](text: &mut String, c: char)
    ensures
        final(text)@ == old(text)@.push(c),
;

/// Brings a query into the form in which it is compared and remembered:
/// every white-space character is removed, the others keep their order.
///
/// `query` is the text after its composed characters have been taken apart.
pub fn convert_query(query: &str) -> (normalized: String)
    ensures
        normalized@ == without_whitespace(query@),
{
    broadcast use vstd::string::axiom_spec_iter;

    let mut normalized = String::new();
    for c in it: query.chars()
        invariant
            it.seq() == query@,
            normalized@ == without_whitespace(query@.take(it.index())),
    {
        proof {
            lemma_without_whitespace_step(query@, it.index());
        }
        if !is_whitespace(c) {
            normalized.push(c);
        }
    }
    assert(query@.take(query@.len() as int) == query@);
    normalized
}

/// Reading one more character of `text` appends it to what has been kept,
/// unless it is white space.
proof fn lemma_without_whitespace_step(text: Seq<char>, i: int)
    requires
        0 <= i < text.len(),
    ensures
        without_whitespace(text.take(i + 1)) == if is_white_space(text[i]) {
            without_whitespace(text.take(i))
        } else {
            without_whitespace(text.take(i)).push(text[i])
        },
{
    reveal(Seq::filter);
    assert(text.take(i + 1).drop_last() == text.take(i));
}

/// A text without white space is its own normal form.
pub proof fn lemma_normalized_stays(text: Seq<char>)
    requires
        forall|i: int| 0 <= i < text.len() ==> !is_white_space(#[trigger] text[i]),
    ensures
        without_whitespace(text) == text,
    decreases text.len(),
{
    reveal(Seq::filter);
    if text.len() > 0 {
        lemma_normalized_stays(text.drop_last());
        assert(text.drop_last().push(text.last()) == text);
    }
}

/// Normalising is idempotent: what comes out holds no white space, and
/// normalising it again changes nothing.
pub proof fn lemma_normalizing_twice(text: Seq<char>)
    ensures
        forall|i: int|
            0 <= i < without_whitespace(text).len() ==> !is_white_space(
                #[trigger] without_whitespace(text)[i],
            ),
        without_whitespace(without_whitespace(text)) == without_whitespace(text),
{
    let kept = |c: char| !is_white_space(c);
    assert forall|i: int| 0 <= i < without_whitespace(text).len() implies !is_white_space(
        #[trigger] without_whitespace(text)[i],
    ) by {
        text.lemma_filter_pred(kept, i);
    }
    lemma_normalized_stays(without_whitespace(text));
}

} // verus!
