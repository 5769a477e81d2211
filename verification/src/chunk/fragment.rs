//! Joining fragments into a chunk and splitting a chunk back into fragments.
use vstd::prelude::*;
use vstd::string::StringExecFns;
use crate::chunk::TOK_SEP;

verus! {

/// Taken on trust of `String::push`: it appends the character at the end
/// of the string.
pub assume_specification[ String::push ](s: &mut String, c: char)
    ensures
        final(s)@ == old(s)@.push(c),
;

/// The texts of a sequence of strings.
pub open spec fn texts(strings: Seq<String>) -> Seq<Seq<char>> {
    strings.map_values(|s: String| s@)
}

/// The texts of a sequence of pairs of strings.
pub open spec fn text_pairs(pairs: Seq<(String, String)>) -> Seq<(Seq<char>, Seq<char>)> {
    pairs.map_values(|pair: (String, String)| (pair.0@, pair.1@))
}

/// Number of separator occurrences in `text`.
pub open spec fn separators(text: Seq<char>) -> nat
    decreases text.len(),
{
    if text.len() == 0 {
        0
    } else {
        separators(text.drop_last()) + if text.last() == TOK_SEP {
            1nat
        } else {
            0nat
        }
    }
}

/// No character of `text` is the separator.
pub open spec fn separator_free(text: Seq<char>) -> bool {
    forall|i: int| 0 <= i < text.len() ==> text[i] != TOK_SEP
}

/// Every fragment is free of the separator.
pub open spec fn all_separator_free(fragments: Seq<Seq<char>>) -> bool {
    forall|i: int| 0 <= i < fragments.len() ==> separator_free(#[trigger] fragments[i])
}

/// The chunk of a list of fragments: the fragments in order, with one
/// separator between each two neighbours. No fragments give the empty chunk.
pub open spec fn joined(fragments: Seq<Seq<char>>) -> Seq<char>
    decreases fragments.len(),
{
    if fragments.len() == 0 {
        Seq::empty()
    } else if fragments.len() == 1 {
        fragments[0]
    } else {
        joined(fragments.drop_last()).push(TOK_SEP) + fragments.last()
    }
}

/// The fragments of a chunk: the maximal separator-free runs, in order. A
/// chunk with `n` separators has `n + 1` fragments, some of them possibly
/// empty.
pub open spec fn fragments_of(chunk: Seq<char>) -> Seq<Seq<char>>
    decreases chunk.len(),
{
    if chunk.len() == 0 {
        seq![Seq::empty()]
    } else {
        let before = fragments_of(chunk.drop_last());
        if chunk.last() == TOK_SEP {
            before.push(Seq::empty())
        } else {
            before.drop_last().push(before.last().push(chunk.last()))
        }
    }
}

/// A chunk has one fragment more than it has separators.
pub proof fn lemma_fragment_count(chunk: Seq<char>)
    ensures
        fragments_of(chunk).len() == separators(chunk) + 1,
    decreases chunk.len(),
{
    if chunk.len() > 0 {
        lemma_fragment_count(chunk.drop_last());
    }
}

/// The fragments of a chunk hold no separator.
pub proof fn lemma_fragments_separator_free(chunk: Seq<char>)
    ensures
        all_separator_free(fragments_of(chunk)),
    decreases chunk.len(),
{
    if chunk.len() > 0 {
        lemma_fragment_count(chunk.drop_last());
        lemma_fragments_separator_free(chunk.drop_last());
        let before = fragments_of(chunk.drop_last());
        let after = fragments_of(chunk);
        assert forall|i: int| 0 <= i < after.len() implies separator_free(#[trigger] after[i]) by {
            if i < before.len() - 1 {
                assert(after[i] == before[i]);
            } else if chunk.last() != TOK_SEP {
                assert(separator_free(before[before.len() - 1]));
            } else if i < before.len() {
                assert(after[i] == before[i]);
            }
        }
    }
}

/// Separators add up over concatenation.
pub proof fn lemma_separators_concat(a: Seq<char>, b: Seq<char>)
    ensures
        separators(a + b) == separators(a) + separators(b),
    decreases b.len(),
{
    if b.len() == 0 {
        assert(a + b == a);
    } else {
        lemma_separators_concat(a, b.drop_last());
        assert((a + b).drop_last() == a + b.drop_last());
    }
}

/// A separator-free text has no separators.
pub proof fn lemma_separator_free_count(text: Seq<char>)
    requires
        separator_free(text),
    ensures
        separators(text) == 0,
    decreases text.len(),
{
    if text.len() > 0 {
        lemma_separator_free_count(text.drop_last());
    }
}

/// Joining separator-free fragments puts exactly one separator between each
/// two neighbours.
pub proof fn lemma_joined_separators(fragments: Seq<Seq<char>>)
    requires
        fragments.len() >= 1,
        all_separator_free(fragments),
    ensures
        separators(joined(fragments)) == fragments.len() - 1,
    decreases fragments.len(),
{
    if fragments.len() == 1 {
        lemma_separator_free_count(fragments[0]);
    } else {
        let head = fragments.drop_last();
        assert forall|i: int| 0 <= i < head.len() implies separator_free(#[trigger] head[i]) by {
            assert(head[i] == fragments[i]);
        }
        lemma_joined_separators(head);
        lemma_separators_concat(joined(head).push(TOK_SEP), fragments.last());
        lemma_separator_free_count(fragments.last());
        assert(joined(head).push(TOK_SEP).drop_last() == joined(head));
    }
}

/// Appending a separator-free text to a chunk extends its last fragment.
pub proof fn lemma_fragments_append(chunk: Seq<char>, tail: Seq<char>)
    requires
        separator_free(tail),
    ensures
        fragments_of(chunk + tail) == fragments_of(chunk).drop_last().push(
            fragments_of(chunk).last() + tail,
        ),
    decreases tail.len(),
{
    lemma_fragment_count(chunk);
    if tail.len() == 0 {
        assert(chunk + tail == chunk);
        assert(fragments_of(chunk).last() + tail == fragments_of(chunk).last());
        assert(fragments_of(chunk).drop_last().push(fragments_of(chunk).last())
            == fragments_of(chunk));
    } else {
        let shorter = tail.drop_last();
        assert forall|i: int| 0 <= i < shorter.len() implies shorter[i] != TOK_SEP by {
            assert(shorter[i] == tail[i]);
        }
        lemma_fragments_append(chunk, shorter);
        assert((chunk + tail).drop_last() == chunk + shorter);
        assert((chunk + tail).last() == tail.last());
        let base = fragments_of(chunk);
        let before = fragments_of(chunk + shorter);
        assert(before.drop_last() == base.drop_last());
        assert(before.last().push(tail.last()) == base.last() + tail);
    }
}

/// Splitting the chunk of separator-free fragments gives the fragments back.
pub proof fn lemma_split_joined(fragments: Seq<Seq<char>>)
    requires
        fragments.len() >= 1,
        all_separator_free(fragments),
    ensures
        fragments_of(joined(fragments)) == fragments,
    decreases fragments.len(),
{
    if fragments.len() == 1 {
        lemma_fragments_append(Seq::empty(), fragments[0]);
        assert(Seq::<char>::empty() + fragments[0] == fragments[0]);
        assert(fragments_of(Seq::empty()).last() + fragments[0] == fragments[0]);
        assert(fragments_of(Seq::empty()).drop_last().push(fragments[0]) == fragments);
    } else {
        let head = fragments.drop_last();
        assert forall|i: int| 0 <= i < head.len() implies separator_free(#[trigger] head[i]) by {
            assert(head[i] == fragments[i]);
        }
        lemma_split_joined(head);
        let stem = joined(head).push(TOK_SEP);
        assert(stem.drop_last() == joined(head));
        assert(fragments_of(stem) == head.push(Seq::empty()));
        lemma_fragments_append(stem, fragments.last());
        assert(Seq::<char>::empty() + fragments.last() == fragments.last());
        assert(head.push(Seq::empty()).drop_last() == head);
        assert(head.push(fragments.last()) == fragments);
    }
}

/// Joining the fragments of a chunk gives the chunk back.
pub proof fn lemma_joined_split(chunk: Seq<char>)
    ensures
        joined(fragments_of(chunk)) == chunk,
    decreases chunk.len(),
{
    if chunk.len() == 0 {
        assert(chunk == Seq::<char>::empty());
    } else {
        let shorter = chunk.drop_last();
        lemma_joined_split(shorter);
        lemma_fragment_count(shorter);
        let before = fragments_of(shorter);
        if chunk.last() == TOK_SEP {
            let after = before.push(Seq::empty());
            assert(after.drop_last() == before);
            assert(joined(after) == shorter.push(TOK_SEP) + Seq::<char>::empty());
            assert(shorter.push(TOK_SEP) + Seq::<char>::empty() == chunk);
        } else {
            let last = before.last().push(chunk.last());
            let after = before.drop_last().push(last);
            assert(after.drop_last() == before.drop_last());
            if before.len() == 1 {
                assert(joined(before) == before[0]);
                assert(joined(after) == last);
                assert(last == chunk);
            } else {
                assert(joined(before) == joined(before.drop_last()).push(TOK_SEP) + before.last());
                assert(joined(after) == joined(before.drop_last()).push(TOK_SEP) + last);
                assert(joined(before.drop_last()).push(TOK_SEP) + last == (joined(
                    before.drop_last(),
                ).push(TOK_SEP) + before.last()).push(chunk.last()));
                assert(shorter.push(chunk.last()) == chunk);
            }
        }
    }
}

/// Counts the separators of `text`.
pub fn count_separators(text: &str) -> (n: usize)
    ensures
        n == separators(text@),
{
    let len = text.unicode_len();
    let mut n: usize = 0;
    for c in it: text.chars()
        invariant
            it.seq() == text@,
            len == text@.len(),
            n == separators(text@.take(it.index() as int)),
            n <= it.index(),
    {
        proof {
            assert(text@.take(it.index() + 1).drop_last() == text@.take(it.index() as int));
        }
        if c == TOK_SEP {
            n = n + 1;
        }
    }
    proof {
        assert(text@.take(text@.len() as int) == text@);
    }
    n
}

/// Joins `fragments` into one chunk.
pub fn join(fragments: &Vec<String>) -> (chunk: String)
    ensures
        chunk@ == joined(texts(fragments@)),
{
    let mut chunk = String::new();
    let mut i: usize = 0;
    while i < fragments.len()
        invariant
            i <= fragments.len(),
            chunk@ == joined(texts(fragments@).take(i as int)),
        decreases fragments.len() - i,
    {
        proof {
            let all = texts(fragments@);
            assert(all.take(i + 1).drop_last() == all.take(i as int));
            assert(all.take(i + 1).last() == fragments[i as int]@);
        }
        if i > 0 {
            chunk.push(TOK_SEP);
        }
        chunk.append(fragments[i].as_str());
        i = i + 1;
    }
    proof {
        assert(texts(fragments@).take(fragments.len() as int) == texts(fragments@));
    }
    chunk
}

/// Splits `chunk` at every separator.
pub fn split(chunk: &str) -> (fragments: Vec<String>)
    ensures
        texts(fragments@) == fragments_of(chunk@),
{
    let mut done: Vec<String> = Vec::new();
    let mut current = String::new();
    for c in it: chunk.chars()
        invariant
            it.seq() == chunk@,
            texts(done@).push(current@) == fragments_of(chunk@.take(it.index() as int)),
    {
        proof {
            assert(chunk@.take(it.index() + 1).drop_last() == chunk@.take(it.index() as int));
            assert(texts(done@).push(current@).drop_last() == texts(done@));
        }
        if c == TOK_SEP {
            let ghost before = texts(done@);
            done.push(current);
            current = String::new();
            proof {
                assert(texts(done@) == before.push(done@.last()@));
            }
        } else {
            current.push(c);
        }
    }
    let ghost before = texts(done@);
    done.push(current);
    proof {
        assert(chunk@.take(chunk@.len() as int) == chunk@);
        assert(texts(done@) == before.push(done@.last()@));
    }
    done
}

} // verus!
