//! Reading a dictionary from a list of words, and keeping it as bytes.
use crate::boggle_utils::boggle_char::is_ascii_letter;
use crate::utils::dict_trie::{words_of, DictTrie};
use crate::utils::letter_case::{chars_of, lower_seq, to_lower};
use vstd::prelude::*;

verus! {

/// Why a dictionary could not be read or written.
#[derive(Debug, PartialEq, Eq, Clone, Copy, Structural)]
pub enum TrieError {
    /// The text is no JSON list of strings.
    BadWordList,
    /// The bytes do not hold a list of words.
    BadBytes,
    /// The words could not be put into bytes.
    NotWritten,
}

/// The error type of the serde_json crate, carried through without a look inside.
#[verifier::external_type_specification]
#[verifier::external_body]
pub struct ExJsonError(serde_json::Error);

/// The error type of the bincode crate, carried through without a look inside.
#[verifier::external_type_specification]
#[verifier::external_body]
pub struct ExBincodeErrorKind(bincode::ErrorKind);

/// What `serde_json::from_str` reads from a text as a list of strings; `None` where it
/// reports an error.
pub uninterp spec fn json_word_list(text: Seq<char>) -> Option<Seq<Seq<char>>>;

/// The bytes that `bincode::serialize` gives for a list of strings; `None` where it
/// reports an error.
pub uninterp spec fn bincode_of_words(words: Seq<Seq<char>>) -> Option<Seq<u8>>;

/// What `bincode::deserialize` reads from bytes as a list of strings; `None` where it
/// reports an error.
pub uninterp spec fn words_of_bincode(bytes: Seq<u8>) -> Option<Seq<Seq<char>>>;

/// `serde_json::from_str`, asked for a list of strings: what it returns depends on the
/// text alone.
#[verifier::external_body]
fn parse_word_list(text: &str) -> (r: Result<Vec<String>, serde_json::Error>)
    ensures
        match r {
            Ok(words) => json_word_list(text@) == Some(words_of(words@)),
            Err(_) => json_word_list(text@) is None,
        },
{
    serde_json::from_str::<Vec<String>>(text)
}

/// `bincode::serialize`, given a list of strings: what it returns depends on the strings
/// alone.
#[verifier::external_body]
fn encode_words(words: &Vec<String>) -> (r: Result<Vec<u8>, Box<bincode::ErrorKind>>)
    ensures
        match r {
            Ok(bytes) => bincode_of_words(words_of(words@)) == Some(bytes@),
            Err(_) => bincode_of_words(words_of(words@)) is None,
        },
{
    bincode::serialize(words)
}

/// `bincode::deserialize`, asked for a list of strings: what it returns depends on the
/// bytes alone.
#[verifier::external_body]
fn decode_words(bytes: &[u8]) -> (r: Result<Vec<String>, Box<bincode::ErrorKind>>)
    ensures
        match r {
            Ok(words) => words_of_bincode(bytes@) == Some(words_of(words@)),
            Err(_) => words_of_bincode(bytes@) is None,
        },
{
    bincode::deserialize::<Vec<String>>(bytes)
}

/// The words that a dictionary built from `list` holds: each string of the list but the
/// empty one, in lower case.
pub open spec fn word_set(list: Seq<Seq<char>>) -> Set<Seq<char>> {
    Set::new(
        |w: Seq<char>|
            exists|i: int|
                0 <= i < list.len() && (#[trigger] list[i]).len() > 0 && w == lower_seq(list[i]),
    )
}

/// The words that a dictionary read from `bytes` holds; `None` where the bytes hold no
/// list of words.
pub open spec fn words_read_from(bytes: Seq<u8>) -> Option<Set<Seq<char>>> {
    match words_of_bincode(bytes) {
        Some(list) => Some(word_set(list)),
        None => None,
    }
}

/// The dictionary of the words of `words`.
pub fn create_trie(words: &Vec<String>) -> (trie: DictTrie)
    ensures
        trie@ == word_set(words_of(words@)),
{
    let mut trie = DictTrie::new();
    let ghost list = words_of(words@);
    for i in 0..words.len()
        invariant
            list == words_of(words@),
            trie@ == word_set(list.take(i as int)),
    {
        let ghost before = trie@;
        trie.insert_word(words[i].as_str());
        proof {
            let word = list[i as int];
            let shorter = list.take(i as int);
            let longer = list.take(i + 1);
            assert forall|w: Seq<char>| trie@.contains(w) <==> word_set(longer).contains(w) by {
                if word_set(longer).contains(w) {
                    let k = choose|k: int|
                        0 <= k < longer.len() && (#[trigger] longer[k]).len() > 0 && w == lower_seq(
                            longer[k],
                        );
                    if k < i {
                        assert(shorter[k] == longer[k]);
                    }
                }
                if trie@.contains(w) {
                    if before.contains(w) {
                        let k = choose|k: int|
                            0 <= k < shorter.len() && (#[trigger] shorter[k]).len() > 0 && w
                                == lower_seq(shorter[k]);
                        assert(longer[k] == shorter[k]);
                    } else {
                        assert(longer[i as int] == word);
                    }
                }
            }
        }
    }
    assert(list.take(list.len() as int) =~= list);
    trie
}

/// The strings of a JSON list of strings.
pub fn load_words_from_json(text: &str) -> (r: Result<Vec<String>, TrieError>)
    ensures
        match json_word_list(text@) {
            Some(list) => r is Ok && words_of(r->Ok_0@) == list,
            None => r == Err::<Vec<String>, TrieError>(TrieError::BadWordList),
        },
{
    match parse_word_list(text) {
        Ok(words) => Ok(words),
        Err(_) => Err(TrieError::BadWordList),
    }
}

/// Whether the bytes that are written for the list `list` are there and give the list back
/// when they are read.
pub open spec fn is_written(list: Seq<Seq<char>>) -> bool {
    match bincode_of_words(list) {
        Some(bytes) => words_of_bincode(bytes) == Some(list),
        None => false,
    }
}

/// Whether two lists hold the same words in the same order.
fn same_words(a: &Vec<String>, b: &Vec<String>) -> (r: bool)
    ensures
        r == (words_of(a@) == words_of(b@)),
{
    if a.len() != b.len() {
        assert(words_of(a@).len() != words_of(b@).len());
        return false;
    }
    for i in 0..a.len()
        invariant
            a@.len() == b@.len(),
            forall|k: int| 0 <= k < i ==> a@[k]@ == b@[k]@,
    {
        if a[i] != b[i] {
            assert(words_of(a@)[i as int] != words_of(b@)[i as int]);
            return false;
        }
    }
    assert(words_of(a@) =~= words_of(b@));
    true
}

/// The words of the dictionary as bytes. The bytes are read once before they are handed
/// out, and are handed out only if they give the words back: `deserialize_trie` reads from
/// them a dictionary with the same words.
pub fn serialize_trie(trie: &DictTrie) -> (r: Result<Vec<u8>, TrieError>)
    ensures
        exists|list: Seq<Seq<char>>|
            #![trigger bincode_of_words(list)]
            {
                &&& list.no_duplicates()
                &&& list.to_set() == trie@
                &&& if is_written(list) {
                    r is Ok && Some(r->Ok_0@) == bincode_of_words(list)
                } else {
                    r == Err::<Vec<u8>, TrieError>(TrieError::NotWritten)
                }
            },
        r is Ok ==> words_read_from(r->Ok_0@) == Some(trie@),
{
    let words = trie.extend_word("");
    let ghost list = words_of(words@);
    proof {
        reveal_strlit("");
        assert forall|w: Seq<char>| trie.completions(""@).contains(w) <==> trie@.contains(w) by {
            assert(w.skip(0) =~= w);
        }
        use_type_invariant(trie);
        assert forall|w: Seq<char>| trie@.contains(w) <==> word_set(list).contains(w) by {
            if trie@.contains(w) {
                trie.lemma_words_are_lower(w);
                let i = choose|i: int| 0 <= i < list.len() && list[i] == w;
                assert(list[i].len() > 0 && w == lower_seq(list[i]));
            }
            if word_set(list).contains(w) {
                let i = choose|i: int|
                    0 <= i < list.len() && (#[trigger] list[i]).len() > 0 && w == lower_seq(
                        list[i],
                    );
                assert(list.to_set().contains(list[i]));
                trie.lemma_words_are_lower(list[i]);
            }
        }
        assert(word_set(list) =~= trie@);
    }
    let bytes = match encode_words(&words) {
        Ok(bytes) => bytes,
        Err(_) => {
            return Err(TrieError::NotWritten);
        },
    };
    match decode_words(bytes.as_slice()) {
        Ok(read) => if same_words(&read, &words) {
            Ok(bytes)
        } else {
            Err(TrieError::NotWritten)
        },
        Err(_) => Err(TrieError::NotWritten),
    }
}

/// The dictionary of the words that the bytes hold.
pub fn deserialize_trie(bytes: &[u8]) -> (r: Result<DictTrie, TrieError>)
    ensures
        match words_read_from(bytes@) {
            Some(words) => r is Ok && r->Ok_0@ == words,
            None => r is Err && r->Err_0 == TrieError::BadBytes,
        },
{
    match decode_words(bytes) {
        Ok(words) => Ok(create_trie(&words)),
        Err(_) => Err(TrieError::BadBytes),
    }
}

/// The dictionary kept in `cached`, where there are bytes and they hold a list of words.
pub fn trie_from_cache(cached: Option<Vec<u8>>) -> (r: Option<DictTrie>)
    ensures
        match cached {
            Some(bytes) => match words_read_from(bytes@) {
                Some(words) => r is Some && r->Some_0@ == words,
                None => r is None,
            },
            None => r is None,
        },
{
    match cached {
        Some(bytes) => match deserialize_trie(bytes.as_slice()) {
            Ok(trie) => Some(trie),
            Err(_) => None,
        },
        None => None,
    }
}

/// The dictionary of the words of a JSON list of strings, and the bytes to keep it in.
/// Where the text is such a list, the words of the dictionary are put in some order, each
/// once, and the outcome goes by the bytes of that list: if they are written and give the
/// list back when read, the dictionary and these bytes come back, else `NotWritten`.
pub fn create_and_serialize_trie(text: &str) -> (r: Result<(DictTrie, Vec<u8>), TrieError>)
    ensures
        match r {
            Ok((trie, bytes)) => {
                &&& json_word_list(text@) matches Some(list) && trie@ == word_set(list)
                &&& words_read_from(bytes@) == Some(trie@)
            },
            Err(TrieError::BadWordList) => json_word_list(text@) is None,
            Err(TrieError::NotWritten) => json_word_list(text@) is Some,
            Err(TrieError::BadBytes) => false,
        },
        json_word_list(text@) matches Some(list) ==> exists|kept: Seq<Seq<char>>|
            #![trigger bincode_of_words(kept)]
            {
                &&& kept.no_duplicates()
                &&& kept.to_set() == word_set(list)
                &&& if is_written(kept) {
                    r is Ok && r->Ok_0.0@ == word_set(list) && Some(r->Ok_0.1@)
                        == bincode_of_words(kept)
                } else {
                    r == Err::<(DictTrie, Vec<u8>), TrieError>(TrieError::NotWritten)
                }
            },
{
    let words = match load_words_from_json(text) {
        Ok(words) => words,
        Err(_) => {
            return Err(TrieError::BadWordList);
        },
    };
    let trie = create_trie(&words);
    match serialize_trie(&trie) {
        Ok(bytes) => Ok((trie, bytes)),
        Err(_) => Err(TrieError::NotWritten),
    }
}

/// Whether every character of `word` is an ASCII letter.
pub open spec fn is_alphabetic(word: Seq<char>) -> bool {
    forall|i: int| 0 <= i < word.len() ==> is_ascii_letter(#[trigger] word[i])
}

/// The strings of `keys` that hold ASCII letters only, in lower case and in their order.
pub fn alphabetic_words(keys: &Vec<String>) -> (r: Vec<String>)
    ensures
        words_of(r@) == words_of(keys@).filter(|w: Seq<char>| is_alphabetic(w)).map_values(
            |w: Seq<char>| lower_seq(w),
        ),
{
    let ghost all = words_of(keys@);
    let ghost keep = |w: Seq<char>| is_alphabetic(w);
    let ghost lowered = |w: Seq<char>| lower_seq(w);
    let mut r: Vec<String> = Vec::new();
    proof {
        all.take(0).lemma_filter_len(keep);
    }
    for i in 0..keys.len()
        invariant
            all == words_of(keys@),
            keep == |w: Seq<char>| is_alphabetic(w),
            lowered == |w: Seq<char>| lower_seq(w),
            words_of(r@) == all.take(i as int).filter(keep).map_values(lowered),
    {
        proof {
            assert(all.take(i + 1) =~= all.take(i as int).push(all[i as int]));
            all.take(i as int).lemma_filter_push(all[i as int], keep);
        }
        let letters = chars_of(keys[i].as_str());
        let mut word = String::new();
        let mut plain = true;
        let mut k: usize = 0;
        while k < letters.len() && plain
            invariant
                k <= letters@.len(),
                plain ==> word@ == lower_seq(letters@.take(k as int)),
                plain ==> is_alphabetic(letters@.take(k as int)),
                !plain ==> !is_alphabetic(letters@),
            decreases letters@.len() - k + if plain { 1int } else { 0int },
        {
            let c: char = letters[k];
            if (c >= 'a' && c <= 'z') || (c >= 'A' && c <= 'Z') {
                word.push(to_lower(c));
                k = k + 1;
                proof {
                    assert(letters@.take(k as int) =~= letters@.take(k - 1).push(c));
                }
            } else {
                plain = false;
            }
        }
        if plain {
            assert(letters@.take(letters@.len() as int) =~= letters@);
            r.push(word);
            proof {
                let filtered = all.take(i as int).filter(keep);
                assert(filtered.push(all[i as int]).map_values(lowered) =~= filtered.map_values(
                    lowered,
                ).push(lower_seq(all[i as int])));
            }
        }
    }
    assert(all.take(all.len() as int) =~= all);
    r
}

/// A dictionary read back from the bytes that it was written to has the words of the one
/// that was written, and so gives the same answer to every query.
pub proof fn lemma_round_trip(written: DictTrie, bytes: Seq<u8>, read: DictTrie, probe: Seq<char>)
    requires
        words_read_from(bytes) == Some(written@),
        words_read_from(bytes) == Some(read@),
    ensures
        read@ == written@,
        read@.contains(lower_seq(probe)) == written@.contains(lower_seq(probe)),
        crate::utils::dict_trie::some_word_extends(read@, lower_seq(probe))
            == crate::utils::dict_trie::some_word_extends(written@, lower_seq(probe)),
        read.completions(probe) == written.completions(probe),
{
    written.lemma_same_words_same_answers(read, probe);
}

} // verus!
