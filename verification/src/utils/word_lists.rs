//! Lists of words: their order, their points, and what is in them.
use crate::utils::dict_trie::words_of;
use crate::utils::letter_case::{chars_of, lemma_char_range};
use vstd::prelude::*;
use vstd::seq_lib::to_multiset_insert;
use vstd::string::StrSliceExecFns;

verus! {

/// Whether `a` stands before `b` in a word book that goes by the numbers of the
/// characters: at the first place where they differ `a` has the smaller one, or `a` ends
/// there and `b` goes on.
pub open spec fn lex_less(a: Seq<char>, b: Seq<char>) -> bool
    decreases a.len(),
{
    if b.len() == 0 {
        false
    } else if a.len() == 0 {
        true
    } else if a[0] != b[0] {
        (a[0] as u32) < (b[0] as u32)
    } else {
        lex_less(a.drop_first(), b.drop_first())
    }
}

/// Whether `a` is listed before `b`: the longer word first and, with `by_letters`, of two
/// words of one length the one that stands first in a word book.
pub open spec fn ranks_before(a: Seq<char>, b: Seq<char>, by_letters: bool) -> bool {
    a.len() > b.len() || (a.len() == b.len() && by_letters && lex_less(a, b))
}

/// Whether no word of `list` is listed before one that comes earlier in it.
pub open spec fn is_ranked(list: Seq<Seq<char>>, by_letters: bool) -> bool {
    forall|i: int, j: int|
        0 <= i < j < list.len() ==> !ranks_before(
            #[trigger] list[j],
            #[trigger] list[i],
            by_letters,
        )
}

/// The points that a word brings: one for each letter after the second.
pub open spec fn points(word: Seq<char>) -> nat {
    if word.len() > 2 {
        (word.len() - 2) as nat
    } else {
        0
    }
}

/// The points that the words of `list` bring together.
pub open spec fn total_points(list: Seq<Seq<char>>) -> nat
    decreases list.len(),
{
    if list.len() == 0 {
        0
    } else {
        total_points(list.drop_last()) + points(list.last())
    }
}

/// No two words stand before each other.
pub proof fn lemma_lex_less_one_way(a: Seq<char>, b: Seq<char>)
    requires
        lex_less(a, b),
    ensures
        !lex_less(b, a),
    decreases a.len(),
{
    if a.len() > 0 && b.len() > 0 && a[0] == b[0] {
        lemma_lex_less_one_way(a.drop_first(), b.drop_first());
    }
}

/// What stands before a word stands before all that the word stands before.
pub proof fn lemma_lex_less_chain(a: Seq<char>, b: Seq<char>, c: Seq<char>)
    requires
        lex_less(a, b),
        lex_less(b, c),
    ensures
        lex_less(a, c),
    decreases a.len(),
{
    if a.len() > 0 && a[0] == b[0] && b[0] == c[0] {
        lemma_lex_less_chain(a.drop_first(), b.drop_first(), c.drop_first());
    }
}

/// The order of the listing goes one way and carries on.
pub proof fn lemma_ranks_before(a: Seq<char>, b: Seq<char>, c: Seq<char>, by_letters: bool)
    ensures
        ranks_before(a, b, by_letters) ==> !ranks_before(b, a, by_letters),
        ranks_before(a, b, by_letters) && ranks_before(b, c, by_letters) ==> ranks_before(
            a,
            c,
            by_letters,
        ),
{
    if lex_less(a, b) {
        lemma_lex_less_one_way(a, b);
        if lex_less(b, c) {
            lemma_lex_less_chain(a, b, c);
        }
    }
}

/// Whether `a` stands before `b` in a word book that goes by the numbers of the
/// characters.
fn stands_before(a: &String, b: &String) -> (r: bool)
    ensures
        r == lex_less(a@, b@),
{
    let x = chars_of(a.as_str());
    let y = chars_of(b.as_str());
    let mut i: usize = 0;
    assert(x@.skip(0) =~= x@ && y@.skip(0) =~= y@);
    while i < x.len() && i < y.len()
        invariant
            x@ == a@,
            y@ == b@,
            i <= x@.len(),
            i <= y@.len(),
            lex_less(a@, b@) == lex_less(x@.skip(i as int), y@.skip(i as int)),
        decreases x@.len() - i,
    {
        let c: char = x[i];
        let d: char = y[i];
        proof {
            lemma_char_range(c);
            lemma_char_range(d);
            assert(x@.skip(i as int)[0] == c && y@.skip(i as int)[0] == d);
            assert(x@.skip(i as int).drop_first() =~= x@.skip(i + 1));
            assert(y@.skip(i as int).drop_first() =~= y@.skip(i + 1));
        }
        if c != d {
            return (c as u32) < (d as u32);
        }
        i = i + 1;
    }
    i < y.len()
}

/// Whether `a` is listed before `b`.
fn is_listed_before(a: &String, b: &String, by_letters: bool) -> (r: bool)
    ensures
        r == ranks_before(a@, b@, by_letters),
{
    let a_len = a.as_str().unicode_len();
    let b_len = b.as_str().unicode_len();
    if a_len != b_len {
        a_len > b_len
    } else {
        by_letters && stands_before(a, b)
    }
}

/// The words of `words` with the longest first and, with `by_letters`, those of one
/// length as in a word book.
pub fn sort_words(words: &Vec<String>, by_letters: bool) -> (sorted: Vec<String>)
    ensures
        sorted@.to_multiset() == words@.to_multiset(),
        is_ranked(words_of(sorted@), by_letters),
{
    let mut sorted: Vec<String> = Vec::new();
    assert(sorted@ =~= words@.take(0));
    for i in 0..words.len()
        invariant
            sorted@.to_multiset() == words@.take(i as int).to_multiset(),
            is_ranked(words_of(sorted@), by_letters),
    {
        let word = words[i].clone();
        let mut place: usize = 0;
        while place < sorted.len() && !is_listed_before(&word, &sorted[place], by_letters)
            invariant
                place <= sorted@.len(),
                forall|k: int|
                    0 <= k < place ==> !ranks_before(word@, (#[trigger] sorted@[k])@, by_letters),
            decreases sorted@.len() - place,
        {
            place = place + 1;
        }
        let ghost before = sorted@;
        sorted.insert(place, word);
        proof {
            to_multiset_insert(before, place as int, word);
            assert(words@.take(i + 1) =~= words@.take(i as int).push(words@[i as int]));
            words@.take(i as int).to_multiset_ensures();
            let old_list = words_of(before);
            let new_list = words_of(sorted@);
            assert forall|a: int, b: int| 0 <= a < b < new_list.len() implies !ranks_before(
                #[trigger] new_list[b],
                #[trigger] new_list[a],
                by_letters,
            ) by {
                let p = place as int;
                if b == p {
                    assert(new_list[a] == old_list[a]);
                } else if a == p {
                    assert(new_list[b] == old_list[b - 1]);
                    lemma_ranks_before(word@, before[p]@, word@, by_letters);
                    if b - 1 > p {
                        assert(!ranks_before(old_list[b - 1], old_list[p], by_letters));
                    }
                    lemma_ranks_before(old_list[b - 1], word@, old_list[p], by_letters);
                } else {
                    let a0 = if a < p {
                        a
                    } else {
                        a - 1
                    };
                    let b0 = if b < p {
                        b
                    } else {
                        b - 1
                    };
                    assert(new_list[a] == old_list[a0]);
                    assert(new_list[b] == old_list[b0]);
                }
            }
        }
    }
    assert(words@.take(words@.len() as int) =~= words@);
    sorted
}

/// The first `count` words of `words`, or all of them where there are fewer.
pub fn first_words(words: &Vec<String>, count: usize) -> (r: Vec<String>)
    ensures
        r@ == if count <= words@.len() {
            words@.take(count as int)
        } else {
            words@
        },
{
    let mut r: Vec<String> = Vec::new();
    let end = if count <= words.len() {
        count
    } else {
        words.len()
    };
    for i in 0..end
        invariant
            end <= words@.len(),
            r@ == words@.take(i as int),
    {
        r.push(words[i].clone());
    }
    r
}

/// The points that a word brings: one for each letter after the second.
pub fn word_points(word: &String) -> (r: usize)
    ensures
        r == points(word@),
{
    let letters = word.as_str().unicode_len();
    if letters > 2 {
        letters - 2
    } else {
        0
    }
}

/// The points that the words bring together.
pub fn score(words: &Vec<String>) -> (r: usize)
    requires
        total_points(words_of(words@)) <= usize::MAX,
    ensures
        r == total_points(words_of(words@)),
{
    let ghost list = words_of(words@);
    let mut sum: usize = 0;
    for i in 0..words.len()
        invariant
            list == words_of(words@),
            total_points(list) <= usize::MAX,
            sum == total_points(list.take(i as int)),
    {
        proof {
            assert(list.take(i + 1).drop_last() =~= list.take(i as int));
            lemma_total_points_grows(list, i + 1);
        }
        sum = sum + word_points(&words[i]);
    }
    assert(list.take(list.len() as int) =~= list);
    sum
}

/// The points of the first words of a list are no more than the points of all of them.
pub proof fn lemma_total_points_grows(list: Seq<Seq<char>>, n: int)
    requires
        0 <= n <= list.len(),
    ensures
        total_points(list.take(n)) <= total_points(list),
    decreases list.len() - n,
{
    if n < list.len() {
        assert(list.take(n + 1).drop_last() =~= list.take(n));
        lemma_total_points_grows(list, n + 1);
    } else {
        assert(list.take(n) =~= list);
    }
}

/// A copy of each string.
pub fn copy_words(list: &Vec<String>) -> (r: Vec<String>)
    ensures
        r@ == list@,
{
    let mut r: Vec<String> = Vec::new();
    for i in 0..list.len()
        invariant
            r@ == list@.take(i as int),
    {
        r.push(list[i].clone());
    }
    r
}

/// Whether `word` is among the strings of `list`.
pub fn contains_word(list: &Vec<String>, word: &String) -> (r: bool)
    ensures
        r == words_of(list@).contains(word@),
{
    for i in 0..list.len()
        invariant
            forall|k: int| 0 <= k < i ==> list@[k]@ != word@,
    {
        if list[i] == *word {
            assert(words_of(list@)[i as int] == word@);
            return true;
        }
    }
    assert forall|k: int| 0 <= k < words_of(list@).len() implies words_of(list@)[k] != word@ by {
        assert(list@[k]@ != word@);
    }
    false
}

/// The strings of `all`, each kept where it first comes and left out after that.
pub fn without_repeats(all: &Vec<String>) -> (unique: Vec<String>)
    ensures
        words_of(unique@).no_duplicates(),
        words_of(unique@).to_set() == words_of(all@).to_set(),
{
    let mut unique: Vec<String> = Vec::new();
    for i in 0..all.len()
        invariant
            words_of(unique@).no_duplicates(),
            words_of(unique@).to_set() == words_of(all@.take(i as int)).to_set(),
    {
        let ghost kept = words_of(unique@);
        let ghost read = words_of(all@.take(i as int));
        let ghost next = all@[i as int]@;
        assert(words_of(all@.take(i + 1)) =~= read.push(next));
        assert(read.push(next).to_set() =~= read.to_set().insert(next)) by {
            assert forall|s: Seq<char>| read.to_set().insert(next).contains(s) implies read.push(
                next,
            ).to_set().contains(s) by {
                if s == next {
                    assert(read.push(next)[read.len() as int] == s);
                } else {
                    let j = choose|j: int| 0 <= j < read.len() && read[j] == s;
                    assert(read.push(next)[j] == s);
                }
            }
        }
        if !contains_word(&unique, &all[i]) {
            unique.push(all[i].clone());
            proof {
                assert(words_of(unique@) =~= kept.push(next));
                assert(kept.push(next).to_set() =~= kept.to_set().insert(next)) by {
                    assert forall|s: Seq<char>|
                        kept.to_set().insert(next).contains(s) implies kept.push(
                        next,
                    ).to_set().contains(s) by {
                        if s == next {
                            assert(kept.push(next)[kept.len() as int] == s);
                        } else {
                            let j = choose|j: int| 0 <= j < kept.len() && kept[j] == s;
                            assert(kept.push(next)[j] == s);
                        }
                    }
                }
            }
        } else {
            assert(kept.to_set().insert(next) =~= kept.to_set());
        }
    }
    assert(all@.take(all@.len() as int) =~= all@);
    unique
}

/// The strings of `list` that are not among those of `left_out`, in the order of `list`.
pub fn words_without(list: &Vec<String>, left_out: &Vec<String>) -> (r: Vec<String>)
    ensures
        words_of(r@) == words_of(list@).filter(|w: Seq<char>| !words_of(left_out@).contains(w)),
{
    let ghost keep = |w: Seq<char>| !words_of(left_out@).contains(w);
    let ghost all = words_of(list@);
    let mut r: Vec<String> = Vec::new();
    assert(all.take(0).filter(keep) =~= Seq::<Seq<char>>::empty()) by {
        all.take(0).lemma_filter_len(keep);
    }
    for i in 0..list.len()
        invariant
            all == words_of(list@),
            keep == |w: Seq<char>| !words_of(left_out@).contains(w),
            words_of(r@) == all.take(i as int).filter(keep),
    {
        proof {
            assert(all.take(i + 1) =~= all.take(i as int).push(all[i as int]));
            all.take(i as int).lemma_filter_push(all[i as int], keep);
        }
        if !contains_word(left_out, &list[i]) {
            r.push(list[i].clone());
        }
    }
    assert(all.take(all.len() as int) =~= all);
    r
}

} // verus!
