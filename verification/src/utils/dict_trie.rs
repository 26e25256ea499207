//! The dictionary, kept as a prefix tree.
use crate::utils::letter_case::{
    is_lower, is_scalar_value, lemma_char_range, lower_chars, lower_seq, to_lower,
};
use crate::utils::seq_facts::lemma_prefix_split;
use std::collections::HashMap;
use vstd::prelude::*;
use vstd::std_specs::hash::*;
use vstd::std_specs::iter::IteratorSpec;

verus! {

broadcast use group_hash_axioms;

/// Whether some word of `words` begins with `prefix`. The empty prefix is always extended.
pub open spec fn some_word_extends(words: Set<Seq<char>>, prefix: Seq<char>) -> bool {
    prefix.len() == 0 || exists|w: Seq<char>| words.contains(w) && prefix.is_prefix_of(w)
}

/// What each string of `v` holds.
pub open spec fn words_of(v: Seq<String>) -> Seq<Seq<char>> {
    v.map_values(|s: String| s@)
}

/// One node of the prefix tree: the edges that leave it, and whether a word ends here.
#[derive(Debug)]
pub struct DictTrieNode {
    children: HashMap<u32, DictTrieNode>,
    pub end: bool,
}

impl DictTrieNode {
    /// The nodes one edge below this one, by the letter on the edge.
    pub closed spec fn edges(self) -> Map<char, DictTrieNode> {
        Map::new(
            |c: char| self.children@.contains_key(c as u32),
            |c: char| self.children@[c as u32],
        )
    }

    /// Whether a word ends at this node.
    pub closed spec fn ends_word(self) -> bool {
        self.end
    }

    /// The node that the letters of `path` lead to from this one, if every edge is there.
    pub open spec fn descend(self, path: Seq<char>) -> Option<DictTrieNode>
        decreases path.len(),
    {
        if path.len() == 0 {
            Some(self)
        } else if self.edges().contains_key(path[0]) {
            self.edges()[path[0]].descend(path.drop_first())
        } else {
            None
        }
    }

    /// Whether the letters of `path` can be followed from this node to the last.
    pub open spec fn has_path(self, path: Seq<char>) -> bool {
        self.descend(path) is Some
    }

    /// Whether the letters of `word` lead from this node to one where a word ends.
    pub open spec fn accepts(self, word: Seq<char>) -> bool {
        match self.descend(word) {
            Some(n) => n.ends_word(),
            None => false,
        }
    }

    /// Following `path` and then one more letter is following the longer path.
    pub proof fn lemma_descend_push(self, path: Seq<char>, c: char)
        ensures
            self.descend(path.push(c)) == match self.descend(path) {
                Some(n) => if n.edges().contains_key(c) {
                    Some(n.edges()[c])
                } else {
                    None
                },
                None => None,
            },
        decreases path.len(),
    {
        let longer = path.push(c);
        if path.len() == 0 {
            if self.edges().contains_key(c) {
                assert(self.edges()[c].descend(longer.drop_first()) == Some(self.edges()[c]));
            }
        } else {
            assert(longer.drop_first() =~= path.drop_first().push(c));
            if self.edges().contains_key(path[0]) {
                self.edges()[path[0]].lemma_descend_push(path.drop_first(), c);
            }
        }
    }

    /// Following `a` and then `b` is following `a + b`.
    pub proof fn lemma_descend_concat(self, a: Seq<char>, b: Seq<char>)
        ensures
            self.descend(a + b) == match self.descend(a) {
                Some(n) => n.descend(b),
                None => None,
            },
        decreases a.len(),
    {
        if a.len() == 0 {
            assert(a + b =~= b);
        } else {
            assert((a + b).drop_first() =~= a.drop_first() + b);
            if self.edges().contains_key(a[0]) {
                self.edges()[a[0]].lemma_descend_concat(a.drop_first(), b);
            }
        }
    }

    /// Where the letters of `path` lead to no node, no word begins with them.
    pub proof fn lemma_no_word_past_missing_node(self, path: Seq<char>)
        requires
            self.descend(path) is None,
        ensures
            forall|w: Seq<char>| self.accepts(w) ==> !path.is_prefix_of(w),
    {
        assert forall|w: Seq<char>| self.accepts(w) implies !path.is_prefix_of(w) by {
            if path.is_prefix_of(w) {
                lemma_prefix_split(path, w);
                self.lemma_descend_concat(path, w.skip(path.len() as int));
            }
        }
    }

    /// A node with no edge, at which no word ends.
    pub fn new() -> (r: Self)
        ensures
            !r.ends_word(),
            r.edges() == Map::<char, DictTrieNode>::empty(),
            forall|w: Seq<char>| !r.accepts(w),
            forall|p: Seq<char>| r.has_path(p) <==> p.len() == 0,
    {
        let r = Self { children: HashMap::new(), end: false };
        assert(r.edges() =~= Map::<char, DictTrieNode>::empty());
        r
    }

    /// Whether a word ends at this node.
    pub fn is_end(&self) -> (r: bool)
        ensures
            r == self.ends_word(),
    {
        self.end
    }

    /// The node below this one on the edge that carries `letter`, if there is such an edge.
    pub fn get_child(&self, letter: &char) -> (r: Option<&Self>)
        ensures
            match r {
                Some(n) => self.edges().contains_key(*letter) && *n == self.edges()[*letter],
                None => !self.edges().contains_key(*letter),
            },
    {
        let key: u32 = *letter as u32;
        self.children.get(&key)
    }

    /// Adds the letters of `word` as a word below this node: steps down along them, and
    /// where an edge is not there puts one in, and marks the node that they lead to.
    fn insert_letters(&mut self, word: &Vec<char>)
        ensures
            forall|w: Seq<char>| #[trigger]
                final(self).accepts(w) <==> old(self).accepts(w) || w == word@,
            forall|p: Seq<char>| #[trigger]
                final(self).has_path(p) <==> old(self).has_path(p) || p.is_prefix_of(word@),
    {
        let ghost start = *self;
        let ghost root_final = *final(self);
        let mut node: &mut DictTrieNode = self;
        let mut i: usize = 0;
        proof {
            lemma_graft_start(start, root_final);
        }
        while i < word.len()
            invariant
                i <= word.len(),
                is_grafted(start, root_final, word@.take(i as int), *final(node)),
                is_below(start, word@.take(i as int), *node),
            decreases word.len() - i,
        {
            let c: char = word[i];
            proof {
                lemma_char_range(c);
            }
            let key: u32 = c as u32;
            let ghost before = *node;
            let ghost node_final = *final(node);
            let next = node.children.entry(key).or_insert(DictTrieNode::new());
            proof {
                let below = *next;
                let below_final = *final(next);
                assert(node_final.edges() =~= before.edges().insert(c, below_final)) by {
                    assert forall|d: char|
                        node_final.edges().contains_key(d) <==> #[trigger] before.edges().insert(
                            c,
                            below_final,
                        ).contains_key(d) by {
                        lemma_char_range(d);
                    }
                    assert forall|d: char| #[trigger]
                        node_final.edges().contains_key(d) implies node_final.edges()[d]
                        == before.edges().insert(c, below_final)[d] by {
                        lemma_char_range(d);
                    }
                }
                assert(word@.take(i + 1) =~= word@.take(i as int).push(c));
                lemma_graft_step(
                    start,
                    root_final,
                    word@.take(i as int),
                    c,
                    before,
                    node_final,
                    below,
                    below_final,
                );
            }
            node = next;
            i = i + 1;
        }
        let ghost before = *node;
        node.end = true;
        proof {
            assert(word@.take(word@.len() as int) =~= word@);
            assert(node.edges() =~= before.edges());
            lemma_graft_end(start, root_final, word@, before, *node);
        }
    }
}

/// Whether `root` is the tree `start` with the tree `sub` put where the letters of `done`
/// lead to, and with the nodes along these letters put in where they were not there.
spec fn is_grafted(
    start: DictTrieNode,
    root: DictTrieNode,
    done: Seq<char>,
    sub: DictTrieNode,
) -> bool {
    &&& forall|w: Seq<char>| #[trigger]
        root.accepts(w) <==> if done.is_prefix_of(w) {
            sub.accepts(w.skip(done.len() as int))
        } else {
            start.accepts(w)
        }
    &&& forall|p: Seq<char>| #[trigger]
        root.has_path(p) <==> if done.is_prefix_of(p) {
            sub.has_path(p.skip(done.len() as int))
        } else {
            start.has_path(p) || p.is_prefix_of(done)
        }
}

/// Whether `node` holds what the tree `start` holds where the letters of `done` lead to,
/// or nothing where they lead nowhere.
spec fn is_below(start: DictTrieNode, done: Seq<char>, node: DictTrieNode) -> bool {
    &&& forall|w: Seq<char>| #[trigger] node.accepts(w) <==> start.accepts(done + w)
    &&& forall|p: Seq<char>| #[trigger]
        node.has_path(p) <==> p.len() == 0 || start.has_path(done + p)
}

/// Before a step is taken, the tree is put where it is.
proof fn lemma_graft_start(start: DictTrieNode, root: DictTrieNode)
    ensures
        is_grafted(start, root, Seq::<char>::empty(), root),
        is_below(start, Seq::<char>::empty(), start),
{
    let none = Seq::<char>::empty();
    assert forall|w: Seq<char>| none.is_prefix_of(w) && w.skip(0) == w && none + w == w by {
        assert(w.skip(0) =~= w);
        assert(none + w =~= w);
    }
}

/// One step down: the node `node`, where `done` leads to, gets the edge with the letter `c`
/// to the node `below`, which is the one that was there or a new one.
proof fn lemma_graft_step(
    start: DictTrieNode,
    root: DictTrieNode,
    done: Seq<char>,
    c: char,
    node: DictTrieNode,
    node_final: DictTrieNode,
    below: DictTrieNode,
    below_final: DictTrieNode,
)
    requires
        is_grafted(start, root, done, node_final),
        is_below(start, done, node),
        node_final.edges() == node.edges().insert(c, below_final),
        node_final.ends_word() == node.ends_word(),
        node.edges().contains_key(c) ==> below == node.edges()[c],
        !node.edges().contains_key(c) ==> !below.ends_word() && below.edges() == Map::<
            char,
            DictTrieNode,
        >::empty(),
    ensures
        is_grafted(start, root, done.push(c), below_final),
        is_below(start, done.push(c), below),
{
    let longer = done.push(c);
    let k = done.len() as int;
    assert forall|w: Seq<char>| #[trigger] below.accepts(w) <==> start.accepts(longer + w) by {
        let cw = seq![c] + w;
        assert(longer + w =~= done + cw);
        assert(cw.drop_first() =~= w);
        assert(node.accepts(cw) <==> start.accepts(done + cw));
    }
    assert forall|p: Seq<char>| #[trigger]
        below.has_path(p) <==> p.len() == 0 || start.has_path(longer + p) by {
        let cp = seq![c] + p;
        assert(longer + p =~= done + cp);
        assert(cp.drop_first() =~= p);
        assert(node.has_path(cp) <==> start.has_path(done + cp));
    }
    assert forall|w: Seq<char>| #[trigger]
        root.accepts(w) <==> if longer.is_prefix_of(w) {
            below_final.accepts(w.skip(k + 1))
        } else {
            start.accepts(w)
        } by {
        lemma_prefix_split(done, w);
        lemma_prefix_split(longer, w);
        if done.is_prefix_of(w) {
            let rest = w.skip(k);
            assert(w =~= done + rest);
            assert(node.accepts(rest) <==> start.accepts(done + rest));
            if rest.len() > 0 {
                assert(rest.drop_first() =~= w.skip(k + 1));
                if rest[0] == c {
                    assert(longer =~= w.subrange(0, k + 1));
                }
            }
            if longer.is_prefix_of(w) {
                assert(longer[k] == w.subrange(0, k + 1)[k]);
            }
        } else {
            if longer.is_prefix_of(w) {
                assert(done =~= w.subrange(0, k)) by {
                    assert forall|j: int| 0 <= j < k implies done[j] == w[j] by {
                        assert(longer[j] == w.subrange(0, k + 1)[j]);
                    }
                }
            }
        }
    }
    assert forall|p: Seq<char>| #[trigger]
        root.has_path(p) <==> if longer.is_prefix_of(p) {
            below_final.has_path(p.skip(k + 1))
        } else {
            start.has_path(p) || p.is_prefix_of(longer)
        } by {
        lemma_prefix_split(done, p);
        lemma_prefix_split(longer, p);
        if done.is_prefix_of(p) {
            let rest = p.skip(k);
            assert(p =~= done + rest);
            assert(node.has_path(rest) <==> rest.len() == 0 || start.has_path(done + rest));
            if rest.len() > 0 {
                assert(rest.drop_first() =~= p.skip(k + 1));
                if rest[0] == c {
                    assert(longer =~= p.subrange(0, k + 1));
                }
                assert(!p.is_prefix_of(longer) || p =~= longer) by {
                    if p.is_prefix_of(longer) {
                        assert(p.len() == k + 1);
                        assert(p =~= longer.subrange(0, k + 1));
                    }
                }
            } else {
                assert(p =~= done);
                assert(p =~= longer.subrange(0, k));
            }
            if longer.is_prefix_of(p) {
                assert(longer[k] == p.subrange(0, k + 1)[k]);
            }
        } else {
            if longer.is_prefix_of(p) {
                assert(done =~= p.subrange(0, k)) by {
                    assert forall|j: int| 0 <= j < k implies done[j] == p[j] by {
                        assert(longer[j] == p.subrange(0, k + 1)[j]);
                    }
                }
            }
            if p.is_prefix_of(longer) && p.len() <= k {
                assert(p =~= done.subrange(0, p.len() as int)) by {
                    assert forall|j: int| 0 <= j < p.len() implies p[j] == done[j] by {
                        assert(p[j] == longer.subrange(0, p.len() as int)[j]);
                    }
                }
            }
            if p.is_prefix_of(done) {
                assert(p =~= longer.subrange(0, p.len() as int)) by {
                    assert forall|j: int| 0 <= j < p.len() implies p[j] == longer[j] by {
                        assert(p[j] == done.subrange(0, p.len() as int)[j]);
                    }
                }
            }
            if p.is_prefix_of(longer) && p.len() == k + 1 {
                assert(p =~= longer);
                assert(longer.is_prefix_of(p));
            }
        }
    }
}

/// At the end the node that the letters lead to is marked: the word is in the tree.
proof fn lemma_graft_end(
    start: DictTrieNode,
    root: DictTrieNode,
    word: Seq<char>,
    node: DictTrieNode,
    node_final: DictTrieNode,
)
    requires
        is_grafted(start, root, word, node_final),
        is_below(start, word, node),
        node_final.edges() == node.edges(),
        node_final.ends_word(),
    ensures
        forall|w: Seq<char>| #[trigger] root.accepts(w) <==> start.accepts(w) || w == word,
        forall|p: Seq<char>| #[trigger]
            root.has_path(p) <==> start.has_path(p) || p.is_prefix_of(word),
{
    let k = word.len() as int;
    assert forall|w: Seq<char>| #[trigger] root.accepts(w) <==> start.accepts(w) || w == word by {
        lemma_prefix_split(word, w);
        if word.is_prefix_of(w) {
            let rest = w.skip(k);
            assert(w =~= word + rest);
            assert(node.accepts(rest) <==> start.accepts(word + rest));
            if rest.len() == 0 {
                assert(w =~= word);
            }
        }
    }
    assert forall|p: Seq<char>| #[trigger]
        root.has_path(p) <==> start.has_path(p) || p.is_prefix_of(word) by {
        lemma_prefix_split(word, p);
        if word.is_prefix_of(p) {
            let rest = p.skip(k);
            assert(p =~= word + rest);
            assert(node.has_path(rest) <==> rest.len() == 0 || start.has_path(word + rest));
            if rest.len() == 0 {
                assert(p =~= word);
            } else {
                assert(!p.is_prefix_of(word));
            }
        }
    }
}

/// Whether `out`, from position `from` on, lists each word below `node` once, each with
/// `prefix` put before it, and nothing else.
spec fn lists_words_below(
    out: Seq<String>,
    from: int,
    node: DictTrieNode,
    prefix: Seq<char>,
) -> bool {
    &&& 0 <= from <= out.len()
    &&& forall|j: int|
        from <= j < out.len() ==> prefix.is_prefix_of(#[trigger] out[j]@) && node.accepts(
            out[j]@.skip(prefix.len() as int),
        )
    &&& forall|s: Seq<char>| #[trigger]
        node.accepts(s) ==> exists|j: int| from <= j < out.len() && out[j]@ == prefix + s
    &&& forall|j: int, k: int| from <= j < k < out.len() ==> out[j]@ != out[k]@
}

/// Whether the key `key` is among the first `n` entries of `entries`.
spec fn key_among(entries: Seq<(&u32, &DictTrieNode)>, n: int, key: u32) -> bool {
    exists|i: int| 0 <= i < n && i < entries.len() && *(#[trigger] entries[i]).0 == key
}

/// Whether `out`, from position `from` on, lists each word below `node` that is empty or
/// begins with a letter whose key is among the first `done` of `entries`, once, each with
/// `prefix` put before it, and nothing else.
#[verifier::opaque]
spec fn lists_partly(
    out: Seq<String>,
    from: int,
    node: DictTrieNode,
    prefix: Seq<char>,
    entries: Seq<(&u32, &DictTrieNode)>,
    done: int,
) -> bool {
    &&& 0 <= from <= out.len()
    &&& forall|j: int|
        from <= j < out.len() ==> {
            &&& prefix.is_prefix_of(#[trigger] out[j]@)
            &&& node.accepts(out[j]@.skip(prefix.len() as int))
            &&& out[j]@.len() == prefix.len() || key_among(
                entries,
                done,
                out[j]@[prefix.len() as int] as u32,
            )
        }
    &&& forall|s: Seq<char>|
        #[trigger] node.accepts(s) && (s.len() == 0 || key_among(entries, done, s[0] as u32))
            ==> exists|j: int| from <= j < out.len() && out[j]@ == prefix + s
    &&& forall|j: int, k: int| from <= j < k < out.len() ==> out[j]@ != out[k]@
}

/// Before any edge is followed, the listing holds the empty word if it ends at `node`.
proof fn lemma_listing_start(
    before: Seq<String>,
    after: Seq<String>,
    node: DictTrieNode,
    prefix: Seq<char>,
    entries: Seq<(&u32, &DictTrieNode)>,
)
    requires
        node.ends_word() ==> after.len() == before.len() + 1 && after[before.len() as int]@
            == prefix,
        !node.ends_word() ==> after == before,
    ensures
        lists_partly(after, before.len() as int, node, prefix, entries, 0),
{
    reveal(lists_partly);
    let from = before.len() as int;
    assert forall|s: Seq<char>|
        #[trigger] node.accepts(s) && (s.len() == 0 || key_among(entries, 0, s[0] as u32))
        implies exists|j: int| from <= j < after.len() && after[j]@ == prefix + s by {
        assert(s.len() == 0);
    }
}

/// The listing after the words below the next edge were appended.
proof fn lemma_listing_step(
    before: Seq<String>,
    after: Seq<String>,
    from: int,
    node: DictTrieNode,
    prefix: Seq<char>,
    entries: Seq<(&u32, &DictTrieNode)>,
    done: int,
    letter: char,
    child: DictTrieNode,
)
    requires
        lists_partly(before, from, node, prefix, entries, done),
        before.is_prefix_of(after),
        0 <= done < entries.len(),
        *entries[done].0 == letter as u32,
        forall|i: int| 0 <= i < done ==> *(#[trigger] entries[i]).0 != letter as u32,
        node.edges().contains_key(letter),
        node.edges()[letter] == child,
        lists_words_below(after, before.len() as int, child, prefix.push(letter)),
    ensures
        lists_partly(after, from, node, prefix, entries, done + 1),
{
    reveal(lists_partly);
    let plen = prefix.len() as int;
    let longer = prefix.push(letter);
    let one = seq![letter];
    lemma_char_range(letter);
    assert forall|j: int| 0 <= j < before.len() implies after[j] == before[j] by {
        assert(before[j] == after.subrange(0, before.len() as int)[j]);
    }
    assert forall|n: u32| key_among(entries, done, n) implies key_among(entries, done + 1, n) by {
        let i = choose|i: int|
            0 <= i < done && i < entries.len() && *(#[trigger] entries[i]).0 == n;
        assert(*entries[i].0 == n);
    }
    assert(key_among(entries, done + 1, letter as u32)) by {
        assert(*entries[done].0 == letter as u32);
    }
    // what the new part holds
    assert forall|j: int| before.len() <= j < after.len() implies {
        &&& prefix.is_prefix_of(#[trigger] after[j]@)
        &&& node.accepts(after[j]@.skip(plen))
        &&& after[j]@.len() > plen
        &&& after[j]@[plen] == letter
    } by {
        let word = after[j]@;
        lemma_prefix_split(longer, word);
        let rest = word.skip(plen + 1);
        lemma_prefix_split(prefix, word);
        assert(word.skip(plen) =~= one + rest);
        assert((one + rest).drop_first() =~= rest);
    }
    assert forall|j: int| from <= j < after.len() implies {
        &&& prefix.is_prefix_of(#[trigger] after[j]@)
        &&& node.accepts(after[j]@.skip(plen))
        &&& after[j]@.len() == plen || key_among(entries, done + 1, after[j]@[plen] as u32)
    } by {
        if j < before.len() {
            assert(after[j] == before[j]);
        }
    }
    assert forall|s: Seq<char>|
        #[trigger] node.accepts(s) && (s.len() == 0 || key_among(entries, done + 1, s[0] as u32))
        implies exists|j: int| from <= j < after.len() && after[j]@ == prefix + s by {
        if s.len() == 0 || key_among(entries, done, s[0] as u32) {
            let j = choose|j: int| from <= j < before.len() && before[j]@ == prefix + s;
            assert(after[j] == before[j]);
        } else {
            let i = choose|i: int|
                0 <= i < done + 1 && i < entries.len() && *(#[trigger] entries[i]).0 == s[0] as u32;
            if i < done {
                assert(key_among(entries, done, s[0] as u32));
            }
            lemma_char_range(s[0]);
            assert(s[0] == letter);
            assert(child.accepts(s.drop_first()));
            assert(longer + s.drop_first() =~= prefix + s);
        }
    }
    assert forall|j: int, k: int| from <= j < k < after.len() implies after[j]@ != after[k]@ by {
        if k < before.len() {
            assert(after[j] == before[j]);
        } else if j < before.len() {
            if before[j]@.len() != plen {
                let n = before[j]@[plen] as u32;
                let i = choose|i: int|
                    0 <= i < done && i < entries.len() && *(#[trigger] entries[i]).0 == n;
                assert(*entries[i].0 != letter as u32);
            }
        }
    }
}

/// The listing after an entry whose key is no letter was passed over.
proof fn lemma_listing_skip(
    out: Seq<String>,
    from: int,
    node: DictTrieNode,
    prefix: Seq<char>,
    entries: Seq<(&u32, &DictTrieNode)>,
    done: int,
)
    requires
        lists_partly(out, from, node, prefix, entries, done),
        0 <= done < entries.len(),
        !is_scalar_value(*entries[done].0),
    ensures
        lists_partly(out, from, node, prefix, entries, done + 1),
{
    reveal(lists_partly);
    assert forall|n: u32| key_among(entries, done, n) implies key_among(entries, done + 1, n) by {
        let i = choose|i: int|
            0 <= i < done && i < entries.len() && *(#[trigger] entries[i]).0 == n;
        assert(*entries[i].0 == n);
    }
    assert forall|s: Seq<char>|
        #[trigger] node.accepts(s) && (s.len() == 0 || key_among(entries, done + 1, s[0] as u32))
        implies exists|j: int| from <= j < out.len() && out[j]@ == prefix + s by {
        if s.len() > 0 {
            let i = choose|i: int|
                0 <= i < done + 1 && i < entries.len() && *(#[trigger] entries[i]).0 == s[0] as u32;
            lemma_char_range(s[0]);
            assert(i < done);
        }
    }
}

/// Once every edge was followed, the listing is complete.
proof fn lemma_listing_end(
    out: Seq<String>,
    from: int,
    node: DictTrieNode,
    prefix: Seq<char>,
    entries: Seq<(&u32, &DictTrieNode)>,
)
    requires
        lists_partly(out, from, node, prefix, entries, entries.len() as int),
        forall|c: char| #[trigger]
            node.edges().contains_key(c) ==> key_among(entries, entries.len() as int, c as u32),
    ensures
        lists_words_below(out, from, node, prefix),
{
    reveal(lists_partly);
    assert forall|s: Seq<char>| #[trigger] node.accepts(s) implies exists|j: int|
        from <= j < out.len() && out[j]@ == prefix + s by {
        if s.len() > 0 {
            assert(node.edges().contains_key(s[0]));
        }
    }
}

/// Appends to `results` every word below `node`, each with `prefix` put before it.
fn collect_words(node: &DictTrieNode, prefix: &String, results: &mut Vec<String>)
    ensures
        old(results)@.is_prefix_of(final(results)@),
        lists_words_below(final(results)@, old(results)@.len() as int, *node, prefix@),
    decreases node,
{
    let ghost start = results@.len() as int;
    if node.end {
        results.push(prefix.clone());
    }
    let ghost entries = spec_hash_map_iter(&node.children).remaining();
    let ghost done: int = 0;
    proof {
        lemma_listing_start(old(results)@, results@, *node, prefix@, entries);
    }
    for entry in it: node.children.iter()
        invariant
            it.seq() == entries,
            done == it.index(),
            entries == spec_hash_map_iter(&node.children).remaining(),
            entries.no_duplicates(),
            start == old(results)@.len(),
            old(results)@.is_prefix_of(results@),
            lists_partly(results@, start, *node, prefix@, entries, done),
    {
        let (key, child) = entry;
        let ghost before = results@;
        proof {
            assert(node.children@.contains_key(*key) && node.children@[*key] == *child);
        }
        match char::from_u32(*key) {
            Some(letter) => {
                let mut longer = prefix.clone();
                longer.push(letter);
                collect_words(child, &longer, results);
                proof {
                    lemma_char_range(letter);
                    assert forall|i: int| 0 <= i < done implies *(#[trigger] entries[i]).0
                        != letter as u32 by {
                        assert(node.children@[*entries[i].0] == *entries[i].1);
                    }
                    lemma_listing_step(
                        before,
                        results@,
                        start,
                        *node,
                        prefix@,
                        entries,
                        done,
                        letter,
                        *child,
                    );
                }
            },
            None => {
                proof {
                    lemma_listing_skip(results@, start, *node, prefix@, entries, done);
                }
            },
        }
        proof {
            done = done + 1;
        }
    }
    proof {
        assert forall|c: char| #[trigger] node.edges().contains_key(c) implies key_among(
            entries,
            entries.len() as int,
            c as u32,
        ) by {
            lemma_char_range(c);
            let k = c as u32;
            let pair = (&k, &node.children@[k]);
            let i = choose|i: int| 0 <= i < entries.len() && entries[i] == pair;
            assert(*entries[i].0 == k);
        }
        lemma_listing_end(results@, start, *node, prefix@, entries);
    }
}

impl DictTrieNode {
    /// Whether the same letters lead on from both nodes, and to the ends of the same words.
    pub open spec fn same_tree(self, other: DictTrieNode) -> bool {
        forall|p: Seq<char>|
            #![trigger self.has_path(p)]
            #![trigger self.accepts(p)]
            self.has_path(p) == other.has_path(p) && self.accepts(p) == other.accepts(p)
    }

    /// Two nodes with the same mark, and with edges for the same letters that lead to the
    /// same trees, are the same tree.
    proof fn lemma_same_tree(self, other: DictTrieNode)
        requires
            self.ends_word() == other.ends_word(),
            forall|c: char| self.edges().contains_key(c) == other.edges().contains_key(c),
            forall|c: char| #[trigger]
                self.edges().contains_key(c) ==> self.edges()[c].same_tree(other.edges()[c]),
        ensures
            self.same_tree(other),
    {
        assert forall|p: Seq<char>|
            #![trigger self.has_path(p)]
            #![trigger self.accepts(p)]
            self.has_path(p) == other.has_path(p) && self.accepts(p) == other.accepts(p) by {
            if p.len() > 0 && self.edges().contains_key(p[0]) {
                let a = self.edges()[p[0]];
                let b = other.edges()[p[0]];
                assert(a.same_tree(b));
                assert(a.has_path(p.drop_first()) == b.has_path(p.drop_first()));
                assert(a.accepts(p.drop_first()) == b.accepts(p.drop_first()));
            }
        }
    }

    /// A copy of the node and of all that is below it.
    fn copy(&self) -> (r: Self)
        ensures
            r.same_tree(*self),
        decreases self,
    {
        let mut children: HashMap<u32, DictTrieNode> = HashMap::new();
        let ghost entries = spec_hash_map_iter(&self.children).remaining();
        let ghost done: int = 0;
        for entry in it: self.children.iter()
            invariant
                it.seq() == entries,
                done == it.index(),
                entries == spec_hash_map_iter(&self.children).remaining(),
                forall|k: u32|
                    children@.contains_key(k) <==> exists|i: int|
                        0 <= i < done && *(#[trigger] entries[i]).0 == k,
                forall|k: u32| #[trigger]
                    children@.contains_key(k) ==> self.children@.contains_key(k)
                        && children@[k].same_tree(self.children@[k]),
        {
            let (key, child) = entry;
            proof {
                assert(entries[done] == entry);
                assert(self.children@.contains_key(*key) && self.children@[*key] == *child);
            }
            let below = child.copy();
            let ghost before = children@;
            children.insert(*key, below);
            proof {
                assert forall|k: u32|
                    children@.contains_key(k) <==> exists|i: int|
                        0 <= i < done + 1 && *(#[trigger] entries[i]).0 == k by {
                    if before.contains_key(k) {
                        let i = choose|i: int| 0 <= i < done && *(#[trigger] entries[i]).0 == k;
                        assert(*entries[i].0 == k);
                    }
                    if k == *key {
                        assert(*entries[done].0 == k);
                    }
                    if exists|i: int| 0 <= i < done + 1 && *(#[trigger] entries[i]).0 == k {
                        let i = choose|i: int|
                            0 <= i < done + 1 && *(#[trigger] entries[i]).0 == k;
                        if i < done {
                            assert(*entries[i].0 == k);
                            assert(before.contains_key(k));
                        }
                    }
                }
                done = done + 1;
            }
        }
        let r = Self { children, end: self.end };
        proof {
            assert forall|k: u32| self.children@.contains_key(k) implies r.children@.contains_key(
                k,
            ) by {
                let pair = (&k, &self.children@[k]);
                assert(entries.contains(pair));
                let i = choose|i: int| 0 <= i < entries.len() && entries[i] == pair;
                assert(*entries[i].0 == k);
            }
            assert forall|c: char| r.edges().contains_key(c) == self.edges().contains_key(c) by {
                lemma_char_range(c);
            }
            r.lemma_same_tree(*self);
        }
        r
    }
}

impl Clone for DictTrieNode {
    /// A copy of the node and of all that is below it.
    fn clone(&self) -> (r: Self)
        ensures
            r.same_tree(*self),
    {
        self.copy()
    }
}

/// A dictionary of words, kept as a prefix tree. Letters are case-insensitive: every word is
/// stored, and every probe is read, with its ASCII capitals in lower case.
#[derive(Debug)]
pub struct DictTrie {
    root: DictTrieNode,
}

impl Clone for DictTrie {
    /// A dictionary with the same words.
    fn clone(&self) -> (r: Self)
        ensures
            r@ == self@,
    {
        proof {
            use_type_invariant(self);
        }
        let root = self.root.clone();
        proof {
            assert forall|p: Seq<char>|
                p.len() > 0 && #[trigger] root.has_path(p) implies exists|w: Seq<char>|
                root.accepts(w) && p.is_prefix_of(w) by {
                assert(self.root.has_path(p));
                let w = choose|w: Seq<char>| self.root.accepts(w) && p.is_prefix_of(w);
                assert(root.accepts(w));
            }
            assert(root.accepts(Seq::<char>::empty()) == self.root.accepts(Seq::<char>::empty()));
            assert forall|w: Seq<char>| #[trigger] root.accepts(w) implies is_lower(w) by {
                assert(self.root.accepts(w));
            }
        }
        let r = Self { root };
        assert(r@ =~= self@);
        r
    }
}

impl View for DictTrie {
    type V = Set<Seq<char>>;

    /// The words of the dictionary, in lower case.
    open spec fn view(&self) -> Set<Seq<char>> {
        Set::new(|w: Seq<char>| self.root_node().accepts(w))
    }
}

impl DictTrie {
    /// The node for the empty prefix.
    pub closed spec fn root_node(self) -> DictTrieNode {
        self.root
    }

    /// The empty word is no entry, no word holds a capital, and below every node but the
    /// root some word ends.
    #[verifier::type_invariant]
    pub closed spec fn wf(self) -> bool {
        &&& !self.root.ends_word()
        &&& forall|w: Seq<char>| #[trigger] self.root.accepts(w) ==> is_lower(w)
        &&& forall|p: Seq<char>|
            p.len() > 0 && #[trigger] self.root.has_path(p) ==> exists|w: Seq<char>|
                self.root.accepts(w) && p.is_prefix_of(w)
    }

    /// In a valid dictionary the nodes of the tree are the prefixes of its words.
    pub proof fn lemma_paths_are_prefixes(self, p: Seq<char>)
        requires
            self.wf(),
        ensures
            self.root_node().has_path(p) <==> some_word_extends(self@, p),
            !self@.contains(Seq::<char>::empty()),
    {
        if self.root.has_path(p) && p.len() > 0 {
            let w = choose|w: Seq<char>| self.root.accepts(w) && p.is_prefix_of(w);
            assert(self@.contains(w));
        }
        if p.len() > 0 && some_word_extends(self@, p) {
            let w = choose|w: Seq<char>| self@.contains(w) && p.is_prefix_of(w);
            lemma_prefix_split(p, w);
            self.root.lemma_descend_concat(p, w.skip(p.len() as int));
        }
    }

    /// In a valid dictionary every word has a letter, and none has a capital.
    pub proof fn lemma_words_are_lower(self, w: Seq<char>)
        requires
            self.wf(),
            self@.contains(w),
        ensures
            w.len() > 0,
            is_lower(w),
            lower_seq(w) == w,
    {
        assert(lower_seq(w) =~= w);
    }

    /// The dictionary without a word.
    pub fn new() -> (r: Self)
        ensures
            r@ == Set::<Seq<char>>::empty(),
    {
        let r = Self { root: DictTrieNode::new() };
        r
    }

    /// Adds `word`, in lower case, to the dictionary. The empty word is not taken in.
    pub fn insert_word(&mut self, word: &str)
        ensures
            final(self)@ == if word@.len() == 0 {
                old(self)@
            } else {
                old(self)@.insert(lower_seq(word@))
            },
    {
        proof {
            use_type_invariant(&*self);
        }
        let letters = lower_chars(word);
        if letters.len() > 0 {
            let mut taken = DictTrie::new();
            std::mem::swap(self, &mut taken);
            let DictTrie { root } = taken;
            let mut root = root;
            let ghost before = root;
            root.insert_letters(&letters);
            proof {
                assert(!root.accepts(Seq::<char>::empty()));
                assert forall|p: Seq<char>|
                    p.len() > 0 && #[trigger] root.has_path(p) implies exists|w: Seq<char>|
                    root.accepts(w) && p.is_prefix_of(w) by {
                    if before.has_path(p) {
                        let w = choose|w: Seq<char>| before.accepts(w) && p.is_prefix_of(w);
                        assert(root.accepts(w));
                    } else {
                        assert(root.accepts(letters@));
                    }
                }
            }
            *self = DictTrie { root };
        }
    }

    /// The node that `word`, read in lower case, leads to from the root, if there is one.
    fn find_node(&self, word: &str) -> (r: Option<&DictTrieNode>)
        ensures
            r == match self.root_node().descend(lower_seq(word@)) {
                Some(n) => Some(&n),
                None => None,
            },
    {
        let ghost probe = lower_seq(word@);
        let mut current_node = &self.root;
        for c in it: word.chars()
            invariant
                it.seq() == word@,
                probe == lower_seq(word@),
                self.root.descend(probe.take(it.index())) == Some(*current_node),
        {
            let letter = to_lower(c);
            proof {
                assert(probe.take(it.index() + 1) =~= probe.take(it.index()).push(letter));
                self.root.lemma_descend_push(probe.take(it.index()), letter);
            }
            match current_node.get_child(&letter) {
                Some(child) => current_node = child,
                None => {
                    proof {
                        let seen = probe.take(it.index() + 1);
                        assert(probe =~= seen + probe.skip(it.index() + 1));
                        self.root.lemma_descend_concat(seen, probe.skip(it.index() + 1));
                    }
                    return None;
                },
            }
        }
        assert(probe.take(probe.len() as int) =~= probe);
        Some(current_node)
    }

    /// Whether `word`, read in lower case, is a word of the dictionary.
    pub fn check_word(&self, word: &str) -> (r: bool)
        ensures
            r == self@.contains(lower_seq(word@)),
    {
        match self.find_node(word) {
            Some(node) => node.end,
            None => false,
        }
    }

    /// Whether some node of the tree stands for `prefix`, read in lower case: whether the
    /// prefix is empty or some word of the dictionary begins with it.
    pub fn has_extension(&self, prefix: &str) -> (r: bool)
        ensures
            r == some_word_extends(self@, lower_seq(prefix@)),
    {
        proof {
            use_type_invariant(self);
            self.lemma_paths_are_prefixes(lower_seq(prefix@));
        }
        self.find_node(prefix).is_some()
    }

    /// The strings that begin with `prefix` as it is written and, read with `prefix` in lower
    /// case, are words of the dictionary.
    pub open spec fn completions(self, prefix: Seq<char>) -> Set<Seq<char>> {
        Set::new(
            |w: Seq<char>|
                prefix.is_prefix_of(w) && self@.contains(
                    lower_seq(prefix) + w.skip(prefix.len() as int),
                ),
        )
    }

    /// Every word of the dictionary that begins with `word`, read in lower case; each comes
    /// once, as `word` followed by the letters that complete it, in no particular order.
    pub fn extend_word(&self, word: &str) -> (results: Vec<String>)
        ensures
            words_of(results@).no_duplicates(),
            words_of(results@).to_set() == self.completions(word@),
    {
        let ghost probe = lower_seq(word@);
        let mut results: Vec<String> = Vec::new();
        match self.find_node(word) {
            Some(node) => {
                let prefix = word.to_owned();
                collect_words(node, &prefix, &mut results);
                proof {
                    let listed = words_of(results@);
                    assert forall|w: Seq<char>|
                        listed.to_set().contains(w) <==> self.completions(word@).contains(w) by {
                        let tail = w.skip(word@.len() as int);
                        self.root.lemma_descend_concat(probe, tail);
                        if listed.to_set().contains(w) {
                            let j = choose|j: int| 0 <= j < listed.len() && listed[j] == w;
                            assert(results@[j]@ == w);
                        }
                        if self.completions(word@).contains(w) {
                            assert(node.accepts(tail));
                            let j = choose|j: int|
                                0 <= j < results@.len() && results@[j]@ == word@ + tail;
                            lemma_prefix_split(word@, w);
                            assert(listed[j] == w);
                        }
                    }
                }
            },
            None => {
                proof {
                    assert forall|w: Seq<char>| !self.completions(word@).contains(w) by {
                        self.root.lemma_descend_concat(probe, w.skip(word@.len() as int));
                    }
                }
            },
        }
        results
    }

    /// Whatever the order in which two words are put in, the dictionary is the same.
    pub proof fn lemma_insertion_order(words: Set<Seq<char>>, a: Seq<char>, b: Seq<char>)
        ensures
            words.insert(lower_seq(a)).insert(lower_seq(b)) == words.insert(lower_seq(b)).insert(
                lower_seq(a),
            ),
    {
        assert(words.insert(lower_seq(a)).insert(lower_seq(b)) =~= words.insert(
            lower_seq(b),
        ).insert(lower_seq(a)));
    }

    /// A word that was put in is found, and so is an extension of each of its prefixes, by
    /// the dictionary that it was put in and by every one that has these words and more.
    pub proof fn lemma_inserted_word_is_found(
        before: DictTrie,
        after: DictTrie,
        word: Seq<char>,
        prefix: Seq<char>,
    )
        requires
            word.len() > 0,
            before@.insert(lower_seq(word)).subset_of(after@),
            prefix.is_prefix_of(word),
        ensures
            after@.contains(lower_seq(word)),
            some_word_extends(after@, lower_seq(prefix)),
    {
        assert(before@.insert(lower_seq(word)).contains(lower_seq(word)));
    }

    /// Putting a word in takes no word out.
    pub proof fn lemma_insertion_keeps_words(before: DictTrie, after: DictTrie, word: Seq<char>)
        requires
            after@ == if word.len() == 0 {
                before@
            } else {
                before@.insert(lower_seq(word))
            },
        ensures
            before@.subset_of(after@),
    {
    }

    /// For a prefix without capitals, the completions are the words of the dictionary that
    /// begin with it.
    pub proof fn lemma_completions_of_lower_prefix(self, prefix: Seq<char>)
        requires
            is_lower(prefix),
        ensures
            self.completions(prefix) == self@.filter(|w: Seq<char>| prefix.is_prefix_of(w)),
    {
        assert(lower_seq(prefix) =~= prefix);
        assert forall|w: Seq<char>|
            self.completions(prefix).contains(w) <==> self@.filter(
                |w: Seq<char>| prefix.is_prefix_of(w),
            ).contains(w) by {
            lemma_prefix_split(prefix, w);
        }
    }

    /// Two dictionaries with the same words answer every query alike.
    pub proof fn lemma_same_words_same_answers(self, other: DictTrie, probe: Seq<char>)
        requires
            self@ == other@,
        ensures
            self@.contains(lower_seq(probe)) == other@.contains(lower_seq(probe)),
            some_word_extends(self@, lower_seq(probe)) == some_word_extends(
                other@,
                lower_seq(probe),
            ),
            self.completions(probe) == other.completions(probe),
    {
        assert(self.completions(probe) =~= other.completions(probe));
    }

    /// The node for the empty prefix, from which a search steps down edge by edge.
    pub fn get_start_node(&self) -> (r: &DictTrieNode)
        ensures
            *r == self.root_node(),
    {
        &self.root
    }
}

} // verus!
