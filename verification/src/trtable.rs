use vstd::prelude::*;

verus! {

/// One key's accumulated list of replacement strings.
struct Entry {
    key: char,
    alts: Vec<String>,
}

/// A translation table: a read-only association from a single character to
/// the ordered list of replacement strings collected for it. Repeated
/// insertions under one key concatenate their lists in arrival order.
pub struct TrTable {
    entries: Vec<Entry>,
}

/// No key occurs twice in the entry list.
spec fn distinct_keys(entries: Seq<Entry>) -> bool {
    forall|p: int, q: int|
        0 <= p < q < entries.len() ==> (#[trigger] entries[p]).key != (#[trigger] entries[q]).key
}

/// The mapping an entry list denotes.
spec fn table_view(entries: Seq<Entry>) -> Map<char, Seq<Seq<char>>>
    decreases entries.len(),
{
    if entries.len() == 0 {
        Map::empty()
    } else {
        table_view(entries.drop_last()).insert(
            entries.last().key,
            entries.last().alts.deep_view(),
        )
    }
}

proof fn lemma_view_dom(entries: Seq<Entry>, k: char)
    ensures
        table_view(entries).contains_key(k) <==> (exists|p: int|
            0 <= p < entries.len() && (#[trigger] entries[p]).key == k),
    decreases entries.len(),
{
    if entries.len() > 0 {
        lemma_view_dom(entries.drop_last(), k);
        if entries.last().key == k {
            assert(entries[entries.len() - 1].key == k);
        } else {
            if table_view(entries).contains_key(k) {
                let p = choose|p: int|
                    0 <= p < entries.drop_last().len() && (#[trigger] entries.drop_last()[p]).key
                        == k;
                assert(entries[p].key == k);
            }
            if exists|p: int| 0 <= p < entries.len() && (#[trigger] entries[p]).key == k {
                let p = choose|p: int| 0 <= p < entries.len() && (#[trigger] entries[p]).key == k;
                assert(p < entries.len() - 1);
                assert(entries.drop_last()[p].key == k);
            }
        }
    }
}

proof fn lemma_view_at(entries: Seq<Entry>, p: int)
    requires
        distinct_keys(entries),
        0 <= p < entries.len(),
    ensures
        table_view(entries).contains_key(entries[p].key),
        table_view(entries)[entries[p].key] == entries[p].alts.deep_view(),
    decreases entries.len(),
{
    if p < entries.len() - 1 {
        assert(distinct_keys(entries.drop_last()));
        lemma_view_at(entries.drop_last(), p);
        assert(entries.drop_last()[p] == entries[p]);
        assert(entries.last().key != entries[p].key);
    }
}

proof fn lemma_view_update(es1: Seq<Entry>, es2: Seq<Entry>, p: int)
    requires
        distinct_keys(es1),
        0 <= p < es1.len(),
        es2.len() == es1.len(),
        es2[p].key == es1[p].key,
        forall|q: int| 0 <= q < es1.len() && q != p ==> es2[q] == es1[q],
    ensures
        table_view(es2) == table_view(es1).insert(es1[p].key, es2[p].alts.deep_view()),
    decreases es1.len(),
{
    let k = es1[p].key;
    let replaced = es2[p].alts.deep_view();
    if p == es1.len() - 1 {
        assert(es2.drop_last() =~= es1.drop_last());
        assert(table_view(es1).insert(k, replaced) =~= table_view(es1.drop_last()).insert(
            k,
            replaced,
        ));
    } else {
        assert(distinct_keys(es1.drop_last()));
        assert(forall|q: int|
            0 <= q < es1.drop_last().len() && q != p ==> es2.drop_last()[q]
                == es1.drop_last()[q]);
        assert(es2.drop_last()[p] == es2[p]);
        lemma_view_update(es1.drop_last(), es2.drop_last(), p);
        assert(es2.last() == es1.last());
        let lk = es1.last().key;
        let la = es1.last().alts.deep_view();
        assert(lk != k);
        assert(table_view(es1.drop_last()).insert(k, replaced).insert(lk, la) =~= table_view(
            es1.drop_last(),
        ).insert(lk, la).insert(k, replaced));
    }
}

/// The non-empty pieces of `s` between its spaces, in order: runs of spaces
/// and spaces at either end yield nothing, so a string of spaces alone has
/// no pieces at all.
pub open spec fn split_at_spaces(s: Seq<char>) -> Seq<Seq<char>>
    decreases s.len(),
{
    if s.len() == 0 {
        Seq::empty()
    } else {
        let r = split_at_spaces(s.drop_last());
        if s.last() == ' ' {
            r
        } else if s.len() >= 2 && s[s.len() - 2] != ' ' {
            r.update(r.len() - 1, r.last().push(s.last()))
        } else {
            r.push(seq![s.last()])
        }
    }
}

proof fn lemma_split_pieces(s: Seq<char>)
    ensures
        forall|k: int|
            0 <= k < split_at_spaces(s).len() ==> (#[trigger] split_at_spaces(s)[k]).len() >= 1,
        s.len() >= 1 && s.last() != ' ' ==> split_at_spaces(s).len() >= 1,
    decreases s.len(),
{
    if s.len() > 0 {
        lemma_split_pieces(s.drop_last());
        let r = split_at_spaces(s.drop_last());
        if s.last() != ' ' && s.len() >= 2 && s[s.len() - 2] != ' ' {
            assert(s.drop_last()[s.len() - 2] == s[s.len() - 2]);
            assert(r.len() >= 1);
            let updated = r.update(r.len() - 1, r.last().push(s.last()));
            assert forall|k: int| 0 <= k < updated.len() implies (#[trigger] updated[k]).len()
                >= 1 by {
                if k < r.len() - 1 {
                    assert(updated[k] == r[k]);
                }
            }
        }
    }
}

/// Splits a table definition's value field at its spaces: `"9 G"` lists the
/// two alternatives `9` and `G`. Runs of spaces and spaces at either end
/// contribute nothing, so every returned piece is non-empty.
pub fn split_words(s: &str) -> (words: Vec<String>)
    ensures
        words.deep_view() == split_at_spaces(s@),
{
    let len = s.unicode_len();
    let mut words: Vec<String> = Vec::new();
    let mut cur = String::new();
    proof {
        assert(s@.take(0) =~= Seq::<char>::empty());
        assert(words.deep_view() =~= split_at_spaces(s@.take(0)));
    }
    let mut i: usize = 0;
    while i < len
        invariant
            i <= len,
            len == s@.len(),
            cur@.len() == 0 ==> (i == 0 || s@[i - 1] == ' ') && words.deep_view()
                == split_at_spaces(s@.take(i as int)),
            cur@.len() > 0 ==> i >= 1 && s@[i - 1] != ' ' && split_at_spaces(s@.take(i as int))
                == words.deep_view().push(cur@),
        decreases len - i,
    {
        let c = s.get_char(i);
        let ghost words_before = words.deep_view();
        let ghost cur_before = cur@;
        proof {
            assert(s@.take(i + 1).drop_last() =~= s@.take(i as int));
            assert(s@.take(i + 1).last() == s@[i as int]);
            if i >= 1 {
                assert(s@.take(i + 1)[i - 1] == s@[i - 1]);
            }
        }
        if c == ' ' {
            if !cur.as_str().is_empty() {
                words.push(cur);
                cur = String::new();
                proof {
                    assert(words.deep_view() =~= words_before.push(cur_before));
                }
            }
        } else {
            crate::strutil::push_char(&mut cur, c);
            proof {
                let r = split_at_spaces(s@.take(i as int));
                if cur_before.len() == 0 {
                    assert(cur@ =~= seq![c]);
                    assert(split_at_spaces(s@.take(i + 1)) == r.push(seq![c]));
                } else {
                    assert(r.last() == cur_before);
                    assert(r.update(r.len() - 1, r.last().push(c)) =~= words_before.push(
                        cur_before.push(c),
                    ));
                }
            }
        }
        i += 1;
    }
    proof {
        assert(s@.take(len as int) =~= s@);
    }
    let ghost words_before = words.deep_view();
    let ghost cur_view = cur@;
    if !cur.as_str().is_empty() {
        words.push(cur);
        proof {
            assert(words.deep_view() =~= words_before.push(cur_view));
        }
    }
    words
}

/// The failure a table definition can show once its raw pairs are in hand.
#[derive(Debug)]
pub enum TrError {
    /// Some key is not exactly one character long.
    KeyNotOneChar,
    /// Some value holds no replacement at all, only spaces or nothing.
    EmptyValue,
}

/// Every key among the raw pairs is exactly one character.
pub open spec fn keys_single_chars(pairs: Seq<(Seq<char>, Seq<char>)>) -> bool {
    forall|p: int| 0 <= p < pairs.len() ==> (#[trigger] pairs[p]).0.len() == 1
}

/// Every value among the raw pairs lists at least one replacement once split
/// at its spaces.
pub open spec fn values_have_words(pairs: Seq<(Seq<char>, Seq<char>)>) -> bool {
    forall|p: int| 0 <= p < pairs.len() ==> split_at_spaces((#[trigger] pairs[p]).1).len() >= 1
}

/// The table a list of raw key/value pairs accumulates to: each value split
/// at its spaces, and lists under a repeated key concatenated in arrival
/// order.
pub open spec fn table_of_pairs(pairs: Seq<(Seq<char>, Seq<char>)>) -> Map<char, Seq<Seq<char>>>
    decreases pairs.len(),
{
    if pairs.len() == 0 {
        Map::empty()
    } else {
        let m = table_of_pairs(pairs.drop_last());
        let key = pairs.last().0[0];
        let words = split_at_spaces(pairs.last().1);
        if m.contains_key(key) {
            m.insert(key, m[key] + words)
        } else {
            m.insert(key, words)
        }
    }
}

impl View for TrTable {
    type V = Map<char, Seq<Seq<char>>>;

    closed spec fn view(&self) -> Map<char, Seq<Seq<char>>> {
        table_view(self.entries@)
    }
}

impl TrTable {
    /// The table's internal invariant: each key is held by one entry only.
    pub closed spec fn wf(&self) -> bool {
        distinct_keys(self.entries@)
    }

    /// Creates an empty table.
    pub fn new() -> (table: TrTable)
        ensures
            table.wf(),
            table@ == Map::<char, Seq<Seq<char>>>::empty(),
    {
        TrTable { entries: Vec::new() }
    }

    /// Whether some replacement list was recorded for `letter`.
    pub fn contains_key(&self, letter: char) -> (present: bool)
        ensures
            present == self@.contains_key(letter),
    {
        let n = self.entries.len();
        let mut p: usize = 0;
        while p < n
            invariant
                p <= n,
                n == self.entries@.len(),
                forall|q: int| 0 <= q < p ==> (#[trigger] self.entries@[q]).key != letter,
            decreases n - p,
        {
            if self.entries[p].key == letter {
                proof {
                    lemma_view_dom(self.entries@, letter);
                }
                return true;
            }
            p += 1;
        }
        proof {
            lemma_view_dom(self.entries@, letter);
        }
        false
    }

    /// The replacement list recorded for `letter`, or nothing when the table
    /// holds no entry for it.
    pub fn get(&self, letter: char) -> (alternatives: Option<&Vec<String>>)
        requires
            self.wf(),
        ensures
            match alternatives {
                Some(alts) => self@.contains_key(letter) && alts.deep_view() == self@[letter],
                None => !self@.contains_key(letter),
            },
    {
        let n = self.entries.len();
        let mut p: usize = 0;
        while p < n
            invariant
                p <= n,
                n == self.entries@.len(),
                self.wf(),
                forall|q: int| 0 <= q < p ==> (#[trigger] self.entries@[q]).key != letter,
            decreases n - p,
        {
            if self.entries[p].key == letter {
                proof {
                    lemma_view_at(self.entries@, p as int);
                }
                return Some(&self.entries[p].alts);
            }
            p += 1;
        }
        proof {
            lemma_view_dom(self.entries@, letter);
        }
        None
    }

    /// Records `words` as further alternatives for `letter`: a fresh letter
    /// gains the list as it stands, a known letter's existing list is
    /// extended by it.
    pub fn insert(&mut self, letter: char, words: Vec<String>)
        requires
            old(self).wf(),
        ensures
            final(self).wf(),
            final(self)@ == if old(self)@.contains_key(letter) {
                old(self)@.insert(letter, old(self)@[letter] + words.deep_view())
            } else {
                old(self)@.insert(letter, words.deep_view())
            },
    {
        let n = self.entries.len();
        let mut p: usize = 0;
        while p < n
            invariant
                p <= n,
                n == self.entries@.len(),
                *self == *old(self),
                distinct_keys(self.entries@),
                forall|q: int| 0 <= q < p ==> (#[trigger] self.entries@[q]).key != letter,
            decreases n - p,
        {
            if self.entries[p].key == letter {
                let ghost es1 = self.entries@;
                let ghost words_view = words.deep_view();
                let mut entry = self.entries.remove(p);
                let mut w = words;
                entry.alts.append(&mut w);
                proof {
                    assert(entry.alts.deep_view() =~= es1[p as int].alts.deep_view()
                        + words_view);
                }
                self.entries.insert(p, entry);
                proof {
                    let es2 = self.entries@;
                    assert(forall|q: int| 0 <= q < es1.len() && q != p ==> es2[q] == es1[q]);
                    assert(es2[p as int].key == letter);
                    lemma_view_at(es1, p as int);
                    lemma_view_update(es1, es2, p as int);
                    assert(distinct_keys(es2));
                }
                return;
            }
            p += 1;
        }
        proof {
            lemma_view_dom(self.entries@, letter);
        }
        self.entries.push(Entry { key: letter, alts: words });
        proof {
            assert(self.entries@.drop_last() =~= old(self).entries@);
            assert(self.entries@.last().key == letter);
            assert(distinct_keys(self.entries@));
        }
    }

    /// Builds the table from the raw key/value pairs of a definition source,
    /// in their listed order; fails, handing out no partial table, when some
    /// key is not a single character or some value lists no replacement. A
    /// table it does hand out maps every key to a non-empty list of
    /// non-empty replacement strings.
    pub fn from_entries(pairs: &Vec<(String, String)>) -> (built: Result<TrTable, TrError>)
        ensures
            match built {
                Ok(table) => table.wf() && keys_single_chars(pairs.deep_view())
                    && values_have_words(pairs.deep_view()) && table@ == table_of_pairs(
                    pairs.deep_view(),
                ) && (forall|c: char|
                    table@.contains_key(c) ==> (#[trigger] table@[c]).len() >= 1) && (forall|
                    c: char,
                    k: int,
                |
                    table@.contains_key(c) && 0 <= k < table@[c].len() ==> (#[trigger] table@[c][k]).len()
                        >= 1),
                Err(TrError::KeyNotOneChar) => !keys_single_chars(pairs.deep_view()),
                Err(TrError::EmptyValue) => !values_have_words(pairs.deep_view()),
            },
    {
        let mut table = TrTable::new();
        let n = pairs.len();
        proof {
            assert(pairs.deep_view().take(0) =~= Seq::<(Seq<char>, Seq<char>)>::empty());
        }
        let mut p: usize = 0;
        while p < n
            invariant
                p <= n,
                n == pairs@.len(),
                pairs.deep_view().len() == n,
                table.wf(),
                table@ == table_of_pairs(pairs.deep_view().take(p as int)),
                forall|q: int| 0 <= q < p ==> (#[trigger] pairs.deep_view()[q]).0.len() == 1,
                forall|q: int|
                    0 <= q < p ==> split_at_spaces((#[trigger] pairs.deep_view()[q]).1).len() >= 1,
                forall|c: char| table@.contains_key(c) ==> (#[trigger] table@[c]).len() >= 1,
                forall|c: char, k: int|
                    table@.contains_key(c) && 0 <= k < table@[c].len() ==> (#[trigger] table@[c][k]).len()
                        >= 1,
            decreases n - p,
        {
            let key = &pairs[p].0;
            if key.unicode_len() != 1 {
                proof {
                    assert(pairs.deep_view()[p as int].0.len() != 1);
                }
                return Err(TrError::KeyNotOneChar);
            }
            let letter = key.as_str().get_char(0);
            let words = split_words(pairs[p].1.as_str());
            if words.is_empty() {
                proof {
                    assert(split_at_spaces(pairs.deep_view()[p as int].1).len() == 0);
                }
                return Err(TrError::EmptyValue);
            }
            let ghost table_before = table@;
            let ghost words_view = words.deep_view();
            table.insert(letter, words);
            proof {
                let dv = pairs.deep_view();
                assert(dv.take(p + 1).drop_last() =~= dv.take(p as int));
                assert(dv.take(p + 1).last() == dv[p as int]);
                assert(letter == dv[p as int].0[0]);
                assert(words_view == split_at_spaces(dv[p as int].1));
                lemma_split_pieces(dv[p as int].1);
                assert forall|c: char, k: int|
                    table@.contains_key(c) && 0 <= k < table@[c].len() implies (#[trigger] table@[c][k]).len()
                    >= 1 by {
                    if c == letter {
                        if table_before.contains_key(letter) {
                            if k < table_before[letter].len() {
                                assert(table@[c][k] == table_before[letter][k]);
                            } else {
                                assert(table@[c][k] == words_view[k
                                    - table_before[letter].len()]);
                            }
                        } else {
                            assert(table@[c][k] == words_view[k]);
                        }
                    } else {
                        assert(table@[c] == table_before[c]);
                    }
                }
            }
            p += 1;
        }
        proof {
            assert(pairs.deep_view().take(n as int) =~= pairs.deep_view());
        }
        Ok(table)
    }
}

} // verus!
