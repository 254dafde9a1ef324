//! Lists of names and lines of text.

use vstd::multiset::*;
use vstd::prelude::*;
use vstd::seq_lib::*;
use vstd::slice::slice_subrange;

use crate::text;
use crate::text::{chars_of, comes_before, same_text, split_once};

verus! {

/// Each text comes before the next.
pub open spec fn ascending(texts: Seq<Seq<char>>) -> bool {
    forall|i: int, j: int|
        0 <= i < j < texts.len() ==> text::before(#[trigger] texts[i], #[trigger] texts[j])
}

/// No text comes before an earlier one.
pub open spec fn in_order(texts: Seq<Seq<char>>) -> bool {
    forall|i: int, j: int|
        0 <= i < j < texts.len() ==> !text::before(#[trigger] texts[j], #[trigger] texts[i])
}

/// How many texts at the start come before another.
fn count_before(names: &Vec<String>, name: &str) -> (count: usize)
    ensures
        count <= names@.len(),
        forall|i: int| 0 <= i < count ==> text::before(text::views(names@)[i], name@),
        count < names@.len() ==> !text::before(text::views(names@)[count as int], name@),
{
    let chars = chars_of(name);
    let mut i: usize = 0;
    while i < names.len()
        invariant
            i <= names@.len(),
            chars@ == name@,
            forall|k: int| 0 <= k < i ==> text::before(text::views(names@)[k], name@),
        decreases names@.len() - i,
    {
        let other = chars_of(names[i].as_str());
        if !comes_before(other.as_slice(), chars.as_slice()) {
            return i;
        }
        i += 1;
    }
    i
}

/// How many texts at the start do not come after another.
fn count_not_after(names: &Vec<String>, name: &str) -> (count: usize)
    ensures
        count <= names@.len(),
        forall|i: int| 0 <= i < count ==> !text::before(name@, text::views(names@)[i]),
        count < names@.len() ==> text::before(name@, text::views(names@)[count as int]),
{
    let chars = chars_of(name);
    let mut i: usize = 0;
    while i < names.len()
        invariant
            i <= names@.len(),
            chars@ == name@,
            forall|k: int| 0 <= k < i ==> !text::before(name@, text::views(names@)[k]),
        decreases names@.len() - i,
    {
        let other = chars_of(names[i].as_str());
        if comes_before(chars.as_slice(), other.as_slice()) {
            return i;
        }
        i += 1;
    }
    i
}

/// Sort names and drop repetitions.
pub fn sorted_names(names: Vec<String>) -> (sorted: Vec<String>)
    ensures
        ascending(text::views(sorted@)),
        forall|x: Seq<char>| #[trigger]
            text::views(sorted@).contains(x) <==> text::views(names@).contains(x),
{
    let mut sorted: Vec<String> = Vec::new();
    let ghost all = text::views(names@);
    proof {
        assert(text::views(sorted@) =~= Seq::<Seq<char>>::empty());
        assert(all.take(0) =~= Seq::<Seq<char>>::empty());
    }
    for name in it: names
        invariant
            it.seq() == names@,
            all == text::views(names@),
            ascending(text::views(sorted@)),
            forall|x: Seq<char>| #[trigger]
                text::views(sorted@).contains(x) <==> all.take(it.index() as int).contains(x),
    {
        let ghost i = it.index() as int;
        let ghost before = text::views(sorted@);
        let ghost added = name@;
        proof {
            assert(all.take(i + 1) =~= all.take(i).push(all[i]));
            assert(all[i] == name@);
        }
        let at: usize = count_before(&sorted, name.as_str());
        if at < sorted.len() && same_text(sorted[at].as_str(), name.as_str()) {
            proof {
                assert(before[at as int] == added);
                assert forall|x: Seq<char>| #[trigger] text::views(sorted@).contains(x)
                    <==> all.take(i + 1).contains(x) by {
                    lemma_push_contains(all.take(i), all[i], x);
                }
            }
        } else {
            sorted.insert(at, name);
            proof {
                let after = text::views(sorted@);
                assert(after =~= before.insert(at as int, added));
                lemma_insert_ascending(before, at as int, added);
                assert forall|x: Seq<char>| #[trigger] after.contains(x) <==> all.take(
                    i + 1,
                ).contains(x) by {
                    lemma_push_contains(all.take(i), all[i], x);
                    lemma_insert_contains(before, at as int, added, x);
                }
            }
        }
    }
    proof {
        assert(all.take(names@.len() as int) =~= all);
    }
    sorted
}

/// What a sequence with one more text contains.
pub proof fn lemma_push_contains(s: Seq<Seq<char>>, last: Seq<char>, x: Seq<char>)
    ensures
        s.push(last).contains(x) <==> s.contains(x) || x == last,
{
    if s.contains(x) {
        let k = choose|k: int| 0 <= k < s.len() && s[k] == x;
        assert(s.push(last)[k] == x);
    }
    if x == last {
        assert(s.push(last)[s.len() as int] == x);
    }
    if s.push(last).contains(x) {
        let k = choose|k: int| 0 <= k < s.push(last).len() && s.push(last)[k] == x;
        if k < s.len() {
            assert(s[k] == x);
        }
    }
}

proof fn lemma_insert_contains(s: Seq<Seq<char>>, at: int, new: Seq<char>, x: Seq<char>)
    requires
        0 <= at <= s.len(),
    ensures
        s.insert(at, new).contains(x) <==> s.contains(x) || x == new,
{
    let t = s.insert(at, new);
    if s.contains(x) {
        let k = choose|k: int| 0 <= k < s.len() && s[k] == x;
        if k < at {
            assert(t[k] == x);
        } else {
            assert(t[k + 1] == x);
        }
    }
    if x == new {
        assert(t[at] == x);
    }
    if t.contains(x) {
        let k = choose|k: int| 0 <= k < t.len() && t[k] == x;
        if k < at {
            assert(s[k] == x);
        } else if k > at {
            assert(s[k - 1] == x);
        }
    }
}

proof fn lemma_insert_ascending(s: Seq<Seq<char>>, at: int, new: Seq<char>)
    requires
        ascending(s),
        0 <= at <= s.len(),
        forall|i: int| 0 <= i < at ==> text::before(s[i], new),
        at < s.len() ==> !text::before(s[at], new) && s[at] != new,
    ensures
        ascending(s.insert(at, new)),
{
    let t = s.insert(at, new);
    if at < s.len() {
        text::lemma_before_total(s[at], new);
    }
    assert forall|i: int, j: int| 0 <= i < j < t.len() implies text::before(
        #[trigger] t[i],
        #[trigger] t[j],
    ) by {
        if i == at {
            assert(t[j] == s[j - 1]);
            if j - 1 > at {
                assert(text::before(s[at], s[j - 1]));
                text::lemma_before_transitive(new, s[at], s[j - 1]);
            }
        } else if j == at {
            assert(t[i] == s[i]);
        } else {
            let a = if i < at {
                i
            } else {
                i - 1
            };
            let b = if j < at {
                j
            } else {
                j - 1
            };
            assert(t[i] == s[a] && t[j] == s[b]);
        }
    }
}

/// Sort names, keeping repetitions.
pub fn sort_names(names: Vec<String>) -> (sorted: Vec<String>)
    ensures
        in_order(text::views(sorted@)),
        text::views(sorted@).to_multiset() == text::views(names@).to_multiset(),
{
    broadcast use group_to_multiset_ensures;

    let mut sorted: Vec<String> = Vec::new();
    let ghost all = text::views(names@);
    proof {
        assert(text::views(sorted@) =~= Seq::<Seq<char>>::empty());
        assert(all.take(0) =~= Seq::<Seq<char>>::empty());
    }
    for name in it: names
        invariant
            it.seq() == names@,
            all == text::views(names@),
            in_order(text::views(sorted@)),
            text::views(sorted@).to_multiset() == all.take(it.index() as int).to_multiset(),
    {
        broadcast use group_to_multiset_ensures;

        let ghost i = it.index() as int;
        let ghost before = text::views(sorted@);
        let ghost added = name@;
        proof {
            assert(all.take(i + 1) =~= all.take(i).push(all[i]));
            assert(all[i] == name@);
        }
        let at: usize = count_not_after(&sorted, name.as_str());
        sorted.insert(at, name);
        proof {
            let after = text::views(sorted@);
            assert(after =~= before.insert(at as int, added));
            lemma_insert_in_order(before, at as int, added);
            assert(after.to_multiset() == before.to_multiset().insert(added));
        }
    }
    proof {
        assert(all.take(names@.len() as int) =~= all);
    }
    sorted
}

proof fn lemma_insert_in_order(s: Seq<Seq<char>>, at: int, new: Seq<char>)
    requires
        in_order(s),
        0 <= at <= s.len(),
        forall|i: int| 0 <= i < at ==> !text::before(new, s[i]),
        at < s.len() ==> text::before(new, s[at]),
    ensures
        in_order(s.insert(at, new)),
{
    let t = s.insert(at, new);
    assert forall|i: int, j: int| 0 <= i < j < t.len() implies !text::before(
        #[trigger] t[j],
        #[trigger] t[i],
    ) by {
        if i == at {
            assert(t[j] == s[j - 1]);
            if text::before(s[j - 1], new) {
                text::lemma_before_transitive(s[j - 1], new, s[at]);
                if j - 1 > at {
                    assert(!text::before(s[j - 1], s[at]));
                } else {
                    text::lemma_before_irreflexive(s[at]);
                }
            }
        } else if j == at {
            assert(t[i] == s[i]);
        } else {
            let a = if i < at {
                i
            } else {
                i - 1
            };
            let b = if j < at {
                j
            } else {
                j - 1
            };
            assert(t[i] == s[a] && t[j] == s[b]);
        }
    }
}

/// A line without the carriage return before its end.
pub open spec fn without_return(line: Seq<char>) -> Seq<char> {
    if line.len() > 0 && line.last() == '\r' {
        line.drop_last()
    } else {
        line
    }
}

/// The lines of a text. A text that ends in a line break has no further line.
pub open spec fn lines_of(s: Seq<char>) -> Seq<Seq<char>>
    decreases s.len(),
{
    match text::split_once_of(s, '\n') {
        Some((line, rest)) => if rest.len() < s.len() {
            seq![without_return(line)] + lines_of(rest)
        } else {
            Seq::empty()
        },
        None => if s.len() == 0 {
            Seq::empty()
        } else {
            seq![s]
        },
    }
}

/// The views of slices of characters.
pub open spec fn slice_texts(slices: Seq<&[char]>) -> Seq<Seq<char>> {
    slices.map_values(|s: &[char]| s@)
}

/// Split a text into lines.
pub fn lines(s: &[char]) -> (split: Vec<&[char]>)
    ensures
        slice_texts(split@) == lines_of(s@),
{
    let mut split: Vec<&[char]> = Vec::new();
    let mut rest: &[char] = s;
    proof {
        assert(slice_texts(split@) =~= Seq::<Seq<char>>::empty());
        assert(Seq::<Seq<char>>::empty() + lines_of(s@) =~= lines_of(s@));
    }
    loop
        invariant_except_break
            slice_texts(split@) + lines_of(rest@) == lines_of(s@),
        ensures
            slice_texts(split@) == lines_of(s@),
        decreases rest@.len(),
    {
        let ghost before = slice_texts(split@);
        proof {
            rest@.index_of_first_ensures('\n');
        }
        match split_once(rest, '\n') {
            Some((line, more)) => {
                let line: &[char] = if line.len() > 0 && line[line.len() - 1] == '\r' {
                    proof {
                        assert(line@.subrange(0, line@.len() - 1) =~= line@.drop_last());
                    }
                    slice_subrange(line, 0, line.len() - 1)
                } else {
                    line
                };
                split.push(line);
                proof {
                    assert(slice_texts(split@) =~= before.push(line@));
                    assert(before.push(line@) + lines_of(more@) =~= before + (seq![line@]
                        + lines_of(more@)));
                }
                rest = more;
            },
            None => {
                if rest.len() > 0 {
                    split.push(rest);
                    proof {
                        assert(slice_texts(split@) =~= before + seq![rest@]);
                    }
                } else {
                    proof {
                        assert(before + Seq::<Seq<char>>::empty() =~= before);
                    }
                }
                break;
            },
        }
    }
    split
}

/// Texts in ascending order are each there once, and in the order in which they compare.
pub proof fn law_ascending_texts_are_distinct_and_in_order(texts: Seq<Seq<char>>, i: int, j: int)
    requires
        ascending(texts),
        0 <= i < j < texts.len(),
    ensures
        texts[i] != texts[j],
        text::before(texts[i], texts[j]),
        in_order(texts),
{
    text::lemma_before_irreflexive(texts[i]);
    assert forall|a: int, b: int| 0 <= a < b < texts.len() implies !text::before(
        #[trigger] texts[b],
        #[trigger] texts[a],
    ) by {
        text::lemma_before_total(texts[a], texts[b]);
        if text::before(texts[b], texts[a]) {
            text::lemma_before_transitive(texts[a], texts[b], texts[a]);
            text::lemma_before_irreflexive(texts[a]);
        }
    }
}

/// Texts in order stay so where the later of two is not before the earlier.
pub proof fn law_texts_in_order_compare_so(texts: Seq<Seq<char>>, i: int, j: int)
    requires
        in_order(texts),
        0 <= i < j < texts.len(),
    ensures
        text::before(texts[i], texts[j]) || texts[i] == texts[j],
{
    text::lemma_before_total(texts[i], texts[j]);
}

} // verus!
