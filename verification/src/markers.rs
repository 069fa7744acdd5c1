//! Braces in a text: how many markers it holds, and when every brace
//! belongs to a marker.

use vstd::prelude::*;

verus! {

/// The text holds no brace.
pub open spec fn brace_free(text: Seq<char>) -> bool {
    forall|i: int| 0 <= i < text.len() ==> #[trigger] text[i] != '{' && text[i] != '}'
}

/// Every brace of the text belongs to a marker `{}`.
pub open spec fn paired(text: Seq<char>) -> bool {
    forall|i: int|
        0 <= i < text.len() ==> (#[trigger] text[i] == '{' ==> i + 1 < text.len() && text[i + 1]
            == '}') && (text[i] == '}' ==> i >= 1 && text[i - 1] == '{')
}

/// How many opening braces the text holds.
pub open spec fn opens(text: Seq<char>) -> nat
    decreases text.len(),
{
    if text.len() == 0 {
        0
    } else {
        opens(text.drop_last()) + if text.last() == '{' {
            1nat
        } else {
            0nat
        }
    }
}

/// The opening braces of two texts add up in their concatenation.
pub proof fn lemma_opens_add(a: Seq<char>, b: Seq<char>)
    ensures
        opens(a + b) == opens(a) + opens(b),
    decreases b.len(),
{
    if b.len() == 0 {
        assert(a + b =~= a);
    } else {
        lemma_opens_add(a, b.drop_last());
        assert((a + b).drop_last() =~= a + b.drop_last());
    }
}

/// A text without braces holds no opening brace, and all its braces are
/// in markers.
pub proof fn lemma_brace_free(text: Seq<char>)
    requires
        brace_free(text),
    ensures
        opens(text) == 0,
        paired(text),
    decreases text.len(),
{
    if text.len() > 0 {
        lemma_brace_free(text.drop_last());
    }
}

/// A text whose braces are all in markers, and which holds no opening
/// brace, holds no brace.
pub proof fn lemma_no_opens(text: Seq<char>)
    requires
        paired(text),
        opens(text) == 0,
    ensures
        brace_free(text),
{
    assert forall|i: int| 0 <= i < text.len() implies #[trigger] text[i] != '{' && text[i]
        != '}' by {
        if text[i] == '{' {
            lemma_opens_positive(text, i);
        }
        if text[i] == '}' {
            lemma_opens_positive(text, i - 1);
        }
    }
}

/// A text that holds an opening brace counts at least one.
pub proof fn lemma_opens_positive(text: Seq<char>, at: int)
    requires
        0 <= at < text.len(),
        text[at] == '{',
    ensures
        opens(text) > 0,
    decreases text.len(),
{
    if at < text.len() - 1 {
        lemma_opens_positive(text.drop_last(), at);
    }
}

/// Two texts whose braces are all in markers join into such a text.
pub proof fn lemma_paired_add(a: Seq<char>, b: Seq<char>)
    requires
        paired(a),
        paired(b),
    ensures
        paired(a + b),
{
    let both = a + b;
    assert forall|i: int| 0 <= i < both.len() implies (#[trigger] both[i] == '{' ==> i + 1
        < both.len() && both[i + 1] == '}') && (both[i] == '}' ==> i >= 1 && both[i - 1] == '{') by {
        if i < a.len() {
            assert(both[i] == a[i]);
            if a[i] == '{' {
                assert(both[i + 1] == a[i + 1]);
            }
            if a[i] == '}' {
                assert(both[i - 1] == a[i - 1]);
            }
        } else {
            let k = i - a.len();
            assert(both[i] == b[k]);
            if b[k] == '{' {
                assert(both[i + 1] == b[k + 1]);
            }
            if b[k] == '}' {
                assert(both[i - 1] == b[k - 1]);
            }
        }
    }
}

/// The place of the first marker `{}` at or after `from`; the length of the
/// text where there is none.
pub open spec fn first_marker(text: Seq<char>, from: int) -> int
    decreases text.len() - from,
{
    if from < 0 || from + 1 >= text.len() {
        text.len() as int
    } else if text[from] == '{' && text[from + 1] == '}' {
        from
    } else {
        first_marker(text, from + 1)
    }
}

/// The text with its first marker replaced by `with`; the text itself
/// where it holds no marker.
pub open spec fn replaced_first(text: Seq<char>, with: Seq<char>) -> Seq<char> {
    let at = first_marker(text, 0);
    if at < text.len() {
        text.subrange(0, at) + with + text.subrange(at + 2, text.len() as int)
    } else {
        text
    }
}

/// The text after each of `fillers`, in order, has replaced the first
/// marker that the text then holds.
pub open spec fn filled(text: Seq<char>, fillers: Seq<Seq<char>>) -> Seq<char>
    decreases fillers.len(),
{
    if fillers.len() == 0 {
        text
    } else {
        filled(replaced_first(text, fillers[0]), fillers.drop_first())
    }
}

/// A text that holds no opening brace counts none.
pub proof fn lemma_no_open_brace(text: Seq<char>)
    requires
        forall|i: int| 0 <= i < text.len() ==> #[trigger] text[i] != '{',
    ensures
        opens(text) == 0,
    decreases text.len(),
{
    if text.len() > 0 {
        lemma_no_open_brace(text.drop_last());
    }
}

/// In a text whose braces are all in markers, no opening brace stands
/// before the first marker.
pub proof fn lemma_before_first_marker(text: Seq<char>, from: int)
    requires
        paired(text),
        0 <= from,
    ensures
        from <= first_marker(text, from) || first_marker(text, from) == text.len(),
        first_marker(text, from) <= text.len(),
        first_marker(text, from) < text.len() ==> first_marker(text, from) + 1 < text.len()
            && text[first_marker(text, from)] == '{' && text[first_marker(text, from) + 1] == '}',
        forall|i: int| from <= i < first_marker(text, from) ==> #[trigger] text[i] != '{',
    decreases text.len() - from,
{
    if from + 1 >= text.len() {
    } else if text[from] == '{' && text[from + 1] == '}' {
    } else {
        lemma_before_first_marker(text, from + 1);
    }
}

/// Replacing the first marker of a text whose braces are all in markers
/// by a text without braces takes one marker away, and leaves every brace
/// in a marker.
pub proof fn lemma_replaced_first(text: Seq<char>, with: Seq<char>)
    requires
        paired(text),
        brace_free(with),
    ensures
        paired(replaced_first(text, with)),
        opens(replaced_first(text, with)) == if opens(text) > 0 {
            (opens(text) - 1) as nat
        } else {
            0
        },
{
    let at = first_marker(text, 0);
    lemma_before_first_marker(text, 0);
    if at >= text.len() {
        lemma_no_open_brace(text);
    } else {
        let head = text.subrange(0, at);
        let tail = text.subrange(at + 2, text.len() as int);
        let mark = seq!['{', '}'];
        assert(text =~= head + mark + tail);
        assert(brace_free(head)) by {
            assert forall|i: int| 0 <= i < head.len() implies #[trigger] head[i] != '{' && head[i]
                != '}' by {
                assert(head[i] == text[i]);
                if text[i] == '}' {
                    assert(text[i - 1] == '{');
                }
            }
        }
        assert(paired(tail)) by {
            assert forall|k: int| 0 <= k < tail.len() implies (#[trigger] tail[k] == '{' ==> k + 1
                < tail.len() && tail[k + 1] == '}') && (tail[k] == '}' ==> k >= 1 && tail[k - 1]
                == '{') by {
                assert(tail[k] == text[at + 2 + k]);
                if tail[k] == '{' {
                    assert(text[at + 3 + k] == '}');
                    assert(tail[k + 1] == text[at + 3 + k]);
                }
                if tail[k] == '}' {
                    assert(text[at + 1 + k] == '{');
                    if k >= 1 {
                        assert(tail[k - 1] == text[at + 1 + k]);
                    }
                }
            }
        }
        lemma_brace_free(head);
        lemma_brace_free(with);
        lemma_paired_add(head, with);
        lemma_paired_add(head + with, tail);
        lemma_opens_add(head, with);
        lemma_opens_add(head + with, tail);
        lemma_opens_add(head, mark);
        lemma_opens_add(head + mark, tail);
        assert(opens(mark) == 1) by {
            reveal_with_fuel(opens, 3);
            assert(mark.drop_last() =~= seq!['{']);
            assert(seq!['{'].drop_last() =~= Seq::<char>::empty());
        }
    }
}

/// Filling a text whose braces are all in markers with texts without braces
/// takes one marker away for each text, as long as one is left.
pub proof fn lemma_filled(text: Seq<char>, fillers: Seq<Seq<char>>)
    requires
        paired(text),
        forall|k: int| 0 <= k < fillers.len() ==> brace_free(#[trigger] fillers[k]),
    ensures
        paired(filled(text, fillers)),
        opens(filled(text, fillers)) == if opens(text) > fillers.len() {
            (opens(text) - fillers.len()) as nat
        } else {
            0
        },
    decreases fillers.len(),
{
    if fillers.len() > 0 {
        lemma_replaced_first(text, fillers[0]);
        let rest = fillers.drop_first();
        assert forall|k: int| 0 <= k < rest.len() implies brace_free(#[trigger] rest[k]) by {
            assert(rest[k] == fillers[k + 1]);
        }
        lemma_filled(replaced_first(text, fillers[0]), rest);
    }
}

} // verus!
