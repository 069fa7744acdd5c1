//! Dice-notation arithmetic: a small expression language with numeric
//! literals, dice rolls (`NdM`), `+ - * / %`, unary signs and parentheses.
//!
//! [`parse::parse_input`] reads and values an input. Its result holds a text
//! with a marker `{}` where dice were rolled; the two functions of this file
//! put the texts of the dice, or the faces they showed, back in place of the
//! markers.

pub mod decimal;
pub mod dice;
pub mod error;
pub mod markers;
pub mod eval;
pub mod parse;
pub mod parser;
pub mod syntax;
pub mod text;
pub mod theorems;

use crate::decimal::{decimal_text, Dec};
use crate::markers::{
    brace_free, filled, first_marker, lemma_filled, lemma_no_opens, opens, paired, replaced_first,
};
use crate::parse::texts_of;
use crate::text::{chars_of, string_of};
use vstd::prelude::*;

verus! {

/// The texts of `items` with `, ` between each two.
pub open spec fn joined(items: Seq<Seq<char>>) -> Seq<char>
    decreases items.len(),
{
    if items.len() == 0 {
        Seq::empty()
    } else if items.len() == 1 {
        items[0]
    } else {
        joined(items.drop_last()) + seq![',', ' '] + items.last()
    }
}

/// The texts of a group of decimals.
pub open spec fn decimal_texts(group: Seq<Dec>) -> Seq<Seq<char>> {
    group.map_values(|d: Dec| decimal_text(d))
}

/// A group of faces as it is shown: in brackets, with `, ` between each two.
pub open spec fn group_text(group: Seq<Dec>) -> Seq<char> {
    seq!['['] + joined(decimal_texts(group)) + seq![']']
}

/// The texts of the groups of faces, as they are shown.
pub open spec fn group_texts(groups: Seq<Vec<Dec>>) -> Seq<Seq<char>> {
    groups.map_values(|g: Vec<Dec>| group_text(g@))
}

/// The place of the first marker; the length of the text where there is
/// none.
pub fn find_marker(text: &Vec<char>) -> (r: usize)
    ensures
        r == first_marker(text@, 0),
        r <= text.len(),
        r < text.len() ==> r + 1 < text.len(),
{
    let mut i: usize = 0;
    while i < text.len() && i + 1 < text.len()
        invariant
            first_marker(text@, 0) == first_marker(text@, i as int),
            i <= text.len(),
        decreases text.len() - i,
    {
        if text[i] == '{' && text[i + 1] == '}' {
            return i;
        }
        i = i + 1;
    }
    text.len()
}

/// Adds the characters of `source` from `from` up to `to` at the end of
/// `out`.
pub fn extend_with(out: &mut Vec<char>, source: &Vec<char>, from: usize, to: usize)
    requires
        from <= to <= source.len(),
    ensures
        final(out)@ == old(out)@ + source@.subrange(from as int, to as int),
{
    let mut i: usize = from;
    proof {
        assert(out@ =~= old(out)@ + source@.subrange(from as int, i as int));
    }
    while i < to
        invariant
            from <= i <= to <= source.len(),
            out@ == old(out)@ + source@.subrange(from as int, i as int),
        decreases to - i,
    {
        out.push(source[i]);
        i = i + 1;
        proof {
            assert(out@ =~= old(out)@ + source@.subrange(from as int, i as int));
        }
    }
}

/// Replaces the first marker of `text` by `with`.
pub fn replace_first(text: &Vec<char>, with: &Vec<char>) -> (r: Vec<char>)
    ensures
        r@ == replaced_first(text@, with@),
{
    let at = find_marker(text);
    let mut out: Vec<char> = Vec::new();
    if at < text.len() {
        extend_with(&mut out, text, 0, at);
        extend_with(&mut out, with, 0, with.len());
        extend_with(&mut out, text, at + 2, text.len());
        proof {
            assert(with@.subrange(0, with@.len() as int) =~= with@);
            assert(out@ =~= replaced_first(text@, with@));
        }
    } else {
        extend_with(&mut out, text, 0, text.len());
        proof {
            assert(out@ =~= text@);
        }
    }
    out
}

/// Puts the texts of the dice back: each text of `rolls`, in order, takes
/// the place of the first marker that is left.
pub fn format_string_with_rolls(string: &str, rolls: Vec<String>) -> (r: String)
    ensures
        r@ == filled(string@, texts_of(rolls@)),
{
    let mut formatted = chars_of(string);
    let mut i: usize = 0;
    proof {
        assert(texts_of(rolls@).skip(0) =~= texts_of(rolls@));
    }
    while i < rolls.len()
        invariant
            0 <= i <= rolls.len(),
            filled(string@, texts_of(rolls@)) == filled(formatted@, texts_of(rolls@).skip(i as int)),
        decreases rolls.len() - i,
    {
        let roll = chars_of(rolls[i].as_str());
        proof {
            let left = texts_of(rolls@).skip(i as int);
            assert(left[0] == roll@);
            assert(left.drop_first() =~= texts_of(rolls@).skip(i + 1));
        }
        formatted = replace_first(&formatted, &roll);
        i = i + 1;
    }
    let len = formatted.len();
    proof {
        assert(formatted@.subrange(0, len as int) =~= formatted@);
    }
    string_of(&formatted, 0, len)
}

/// A group of faces as it is shown.
pub fn render_group(group: &Vec<Dec>) -> (r: Vec<char>)
    requires
        forall|i: int| 0 <= i < group@.len() ==> (#[trigger] group@[i]).wf(),
    ensures
        r@ == group_text(group@),
        r@.len() > 0,
        forall|i: int| 0 <= i < r@.len() ==> r@[i] != '{' && r@[i] != '}',
{
    let mut out: Vec<char> = Vec::new();
    out.push('[');
    let mut i: usize = 0;
    proof {
        assert(decimal_texts(group@).take(0) =~= Seq::<Seq<char>>::empty());
        assert(out@ =~= seq!['['] + joined(decimal_texts(group@).take(0)));
    }
    while i < group.len()
        invariant
            0 <= i <= group.len(),
            forall|k: int| 0 <= k < group@.len() ==> (#[trigger] group@[k]).wf(),
            out@ == seq!['['] + joined(decimal_texts(group@).take(i as int)),
            forall|k: int| 0 <= k < out@.len() ==> out@[k] != '{' && out@[k] != '}',
        decreases group.len() - i,
    {
        let ghost before = out@;
        let ghost shorter = decimal_texts(group@).take(i as int);
        let ghost longer = decimal_texts(group@).take(i + 1);
        if i > 0 {
            out.push(',');
            out.push(' ');
        }
        let item = chars_of(group[i].to_text().as_str());
        let count = item.len();
        extend_with(&mut out, &item, 0, count);
        proof {
            assert(item@.subrange(0, count as int) =~= item@);
            assert(longer.drop_last() =~= shorter);
            assert(longer.last() == item@);
            if i == 0 {
                assert(joined(shorter) =~= Seq::<char>::empty());
                assert(out@ =~= seq!['['] + joined(longer));
            } else {
                assert(out@ =~= seq!['['] + joined(longer));
            }
        }
        i = i + 1;
    }
    out.push(']');
    proof {
        assert(decimal_texts(group@).take(i as int) =~= decimal_texts(group@));
    }
    out
}

/// Puts the faces of the dice in place: each group of `result_vecs`, in
/// order, takes the place of the first marker that is left, in brackets and
/// with `, ` between its faces.
pub fn format_string_with_results(string: &str, result_vecs: Vec<Vec<Dec>>) -> (r: String)
    requires
        forall|i: int, j: int|
            0 <= i < result_vecs@.len() && 0 <= j < result_vecs@[i]@.len() ==> (
            #[trigger] result_vecs@[i]@[j]).wf(),
    ensures
        r@ == filled(string@, group_texts(result_vecs@)),
        paired(string@) ==> paired(r@) && opens(r@) == if opens(string@) > result_vecs@.len() {
            (opens(string@) - result_vecs@.len()) as nat
        } else {
            0
        },
        paired(string@) && opens(string@) <= result_vecs@.len() ==> brace_free(r@),
{
    let mut formatted = chars_of(string);
    let mut i: usize = 0;
    proof {
        assert(group_texts(result_vecs@).skip(0) =~= group_texts(result_vecs@));
    }
    while i < result_vecs.len()
        invariant
            0 <= i <= result_vecs.len(),
            forall|k: int| 0 <= k < i ==> brace_free(#[trigger] group_texts(result_vecs@)[k]),
            forall|k: int, j: int|
                0 <= k < result_vecs@.len() && 0 <= j < result_vecs@[k]@.len() ==> (
                #[trigger] result_vecs@[k]@[j]).wf(),
            filled(string@, group_texts(result_vecs@)) == filled(
                formatted@,
                group_texts(result_vecs@).skip(i as int),
            ),
        decreases result_vecs.len() - i,
    {
        let shown = render_group(&result_vecs[i]);
        proof {
            let left = group_texts(result_vecs@).skip(i as int);
            assert(group_texts(result_vecs@)[i as int] == shown@);
            assert(left[0] == shown@);
            assert(left.drop_first() =~= group_texts(result_vecs@).skip(i + 1));
        }
        formatted = replace_first(&formatted, &shown);
        i = i + 1;
    }
    let len = formatted.len();
    proof {
        assert(formatted@.subrange(0, len as int) =~= formatted@);
        if paired(string@) {
            lemma_filled(string@, group_texts(result_vecs@));
            if opens(string@) <= result_vecs@.len() {
                lemma_no_opens(formatted@);
            }
        }
    }
    string_of(&formatted, 0, len)
}

} // verus!
