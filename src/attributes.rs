use vstd::prelude::*;

use crate::lex::{is_whitespace, is_ws, push_char};
use crate::tag::attributes_view;

verus! {

/// Where the attribute scanner stands: in a key, right after `=`, in an
/// unquoted value, or in a value quoted with `"` or `'`.
pub enum AttrMode {
    Key,
    ValueStart,
    Bare,
    Quoted(char),
}

/// The attribute scanner's state: the entries so far, the pending key, the
/// pending word of a value and the finished words of a quoted value.
pub struct AttrState {
    pub entries: Seq<(Seq<char>, Seq<Seq<char>>)>,
    pub key: Seq<char>,
    pub word: Seq<char>,
    pub words: Seq<Seq<char>>,
    pub mode: AttrMode,
}

/// The words of a quoted value once `word` is added, if it holds anything.
pub open spec fn with_word(words: Seq<Seq<char>>, word: Seq<char>) -> Seq<Seq<char>> {
    if word.len() > 0 {
        words.push(word)
    } else {
        words
    }
}

/// No key occurs in two entries.
pub open spec fn keys_unique(entries: Seq<(Seq<char>, Seq<Seq<char>>)>) -> bool {
    forall|i: int, j: int| 0 <= i < j < entries.len() ==> entries[i].0 != entries[j].0
}

/// `entries` with `values` given to `key`: added to the values of the entry
/// that has the key, or in a new entry at the end.
pub open spec fn add_entry(
    entries: Seq<(Seq<char>, Seq<Seq<char>>)>,
    key: Seq<char>,
    values: Seq<Seq<char>>,
) -> Seq<(Seq<char>, Seq<Seq<char>>)> {
    if exists|i: int| 0 <= i < entries.len() && entries[i].0 == key {
        let i = choose|i: int| 0 <= i < entries.len() && entries[i].0 == key;
        entries.update(i, (key, entries[i].1 + values))
    } else {
        entries.push((key, values))
    }
}

/// The state after the entry for the pending key is written with `values`.
pub open spec fn emit(st: AttrState, values: Seq<Seq<char>>) -> AttrState {
    AttrState {
        entries: add_entry(st.entries, st.key, values),
        key: Seq::empty(),
        word: Seq::empty(),
        words: Seq::empty(),
        mode: AttrMode::Key,
    }
}

/// The attribute scanner's state after one more character.
pub open spec fn attr_step(st: AttrState, c: char) -> AttrState {
    match st.mode {
        AttrMode::Key => if is_ws(c) {
            if st.key.len() > 0 {
                emit(st, Seq::empty())
            } else {
                st
            }
        } else if c == '=' {
            AttrState { mode: AttrMode::ValueStart, ..st }
        } else {
            AttrState { key: st.key.push(c), ..st }
        },
        AttrMode::ValueStart => if c == '"' || c == '\'' {
            AttrState { mode: AttrMode::Quoted(c), ..st }
        } else if is_ws(c) {
            emit(st, Seq::empty())
        } else {
            AttrState { word: seq![c], mode: AttrMode::Bare, ..st }
        },
        AttrMode::Bare => if is_ws(c) {
            emit(st, seq![st.word])
        } else {
            AttrState { word: st.word.push(c), ..st }
        },
        AttrMode::Quoted(q) => if c == q {
            emit(st, with_word(st.words, st.word))
        } else if is_ws(c) {
            AttrState { words: with_word(st.words, st.word), word: Seq::empty(), ..st }
        } else {
            AttrState { word: st.word.push(c), ..st }
        },
    }
}

/// The attribute scanner's state after all of `cs`.
pub open spec fn attr_run(cs: Seq<char>) -> AttrState
    decreases cs.len(),
{
    if cs.len() == 0 {
        AttrState {
            entries: Seq::empty(),
            key: Seq::empty(),
            word: Seq::empty(),
            words: Seq::empty(),
            mode: AttrMode::Key,
        }
    } else {
        attr_step(attr_run(cs.drop_last()), cs.last())
    }
}

/// The entries once the text has ended: a pending key or value is written out,
/// and an unclosed quote ends with the text.
pub open spec fn attr_finish(st: AttrState) -> Seq<(Seq<char>, Seq<Seq<char>>)> {
    match st.mode {
        AttrMode::Key => if st.key.len() > 0 {
            add_entry(st.entries, st.key, Seq::empty())
        } else {
            st.entries
        },
        AttrMode::ValueStart => add_entry(st.entries, st.key, Seq::empty()),
        AttrMode::Bare => add_entry(st.entries, st.key, seq![st.word]),
        AttrMode::Quoted(_) => add_entry(st.entries, st.key, with_word(st.words, st.word)),
    }
}

/// The attributes written in the raw text of a tag: none for empty text, else
/// one entry per key of the `key`, `key=value`, `key="v w"` or `key='v w'`
/// groups, in the order the keys first appear, a quoted value giving one value
/// per space-separated word, and a key written again adding its values to
/// those it has.
pub open spec fn attributes_of(raw: Seq<char>) -> Option<Seq<(Seq<char>, Seq<Seq<char>>)>> {
    if raw.len() == 0 {
        None
    } else {
        Some(attr_finish(attr_run(raw)))
    }
}

/// The views of a list of strings.
pub open spec fn strings_view(v: Seq<String>) -> Seq<Seq<char>> {
    v.map_values(|s: String| s@)
}

/// `words` with `word` moved onto its end if it holds anything.
fn push_word(words: &mut Vec<String>, word: String)
    ensures
        strings_view(final(words)@) == with_word(strings_view(old(words)@), word@),
{
    if !word.as_str().is_empty() {
        let ghost before = strings_view(words@);
        words.push(word);
        assert(strings_view(words@) =~= before.push(word@));
    }
}

/// `entries` with `values` given to `key`.
fn push_entry(entries: &mut Vec<(String, Vec<String>)>, key: String, values: Vec<String>)
    requires
        keys_unique(attributes_view(old(entries)@)),
    ensures
        keys_unique(attributes_view(final(entries)@)),
        attributes_view(final(entries)@) == add_entry(
            attributes_view(old(entries)@),
            key@,
            strings_view(values@),
        ),
{
    let ghost before = attributes_view(entries@);
    let ghost vs = strings_view(values@);
    let mut i: usize = 0;
    while i < entries.len()
        invariant
            i <= entries@.len(),
            before == attributes_view(entries@),
            before == attributes_view(old(entries)@),
            keys_unique(before),
            vs == strings_view(values@),
            forall|j: int| 0 <= j < i ==> before[j].0 != key@,
        decreases entries@.len() - i,
    {
        if entries[i].0.eq(&key) {
            assert(before[i as int].0 == key@);
            let (k, mut old_values) = entries.remove(i);
            let ghost raw = old_values@;
            let ghost ov = strings_view(old_values@);
            let mut more = values;
            old_values.append(&mut more);
            assert(old_values@ == raw + values@);
            assert forall|j: int| 0 <= j < old_values@.len() implies strings_view(old_values@)[j] == (ov
                + vs)[j] by {
                if j < raw.len() {
                    assert(old_values@[j] == raw[j]);
                } else {
                    assert(old_values@[j] == values@[j - raw.len()]);
                }
            }
            assert(strings_view(old_values@) =~= ov + vs);
            entries.insert(i, (k, old_values));
            assert(exists|j: int| 0 <= j < before.len() && before[j].0 == key@);
            let ghost c = choose|c: int| 0 <= c < before.len() && before[c].0 == key@;
            assert(c == i as int) by {
                if c < i {
                } else if c > i {
                    assert(before[i as int].0 != before[c].0);
                }
            }
            assert(attributes_view(entries@) =~= before.update(i as int, (key@, before[i as int].1 + vs)));
            assert(attributes_view(entries@) == add_entry(before, key@, vs));
            return;
        }
        i = i + 1;
    }
    entries.push((key, values));
    assert(attributes_view(entries@) =~= before.push((key@, vs)));
}

/// No values.
fn no_values() -> (r: Vec<String>)
    ensures
        strings_view(r@) == Seq::<Seq<char>>::empty(),
{
    let r: Vec<String> = Vec::new();
    assert(strings_view(r@) =~= Seq::<Seq<char>>::empty());
    r
}

/// The one value `word`.
fn one_value(word: String) -> (r: Vec<String>)
    ensures
        strings_view(r@) == seq![word@],
{
    let mut r: Vec<String> = Vec::new();
    r.push(word);
    assert(strings_view(r@) =~= seq![word@]);
    r
}

/// Parses the raw attribute text of a tag.
pub fn extract_attributes(line: &String) -> (r: Option<Vec<(String, Vec<String>)>>)
    ensures
        match r {
            Some(a) => attributes_of(line@) == Some(attributes_view(a@)) && keys_unique(
                attributes_view(a@),
            ),
            None => attributes_of(line@) is None,
        },
{
    if line.as_str().is_empty() {
        return None;
    }
    let mut entries: Vec<(String, Vec<String>)> = Vec::new();
    let mut key = String::new();
    let mut word = String::new();
    let mut words: Vec<String> = Vec::new();
    let mut mode = AttrMode::Key;
    let ghost cs = line@;
    assert(attributes_view(entries@) =~= Seq::empty());
    assert(strings_view(words@) =~= Seq::empty());
    let ghost mut seen: Seq<char> = Seq::empty();
    for c in it: line.as_str().chars()
        invariant
            cs == line@,
            seen == it.seq().take(it.index() as int),
            keys_unique(attributes_view(entries@)),
            attr_run(seen) == (AttrState {
                entries: attributes_view(entries@),
                key: key@,
                word: word@,
                words: strings_view(words@),
                mode,
            }),
    {
        assert(seen.push(c).drop_last() =~= seen);
        match mode {
            AttrMode::Key => {
                if is_whitespace(c) {
                    if !key.as_str().is_empty() {
                        push_entry(&mut entries, key, no_values());
                        key = String::new();
                        word = String::new();
                        words = no_values();
                    }
                } else if c == '=' {
                    mode = AttrMode::ValueStart;
                } else {
                    push_char(&mut key, c);
                }
            },
            AttrMode::ValueStart => {
                if c == '"' || c == '\'' {
                    mode = AttrMode::Quoted(c);
                } else if is_whitespace(c) {
                    push_entry(&mut entries, key, no_values());
                    key = String::new();
                    word = String::new();
                    words = no_values();
                    mode = AttrMode::Key;
                } else {
                    word = String::new();
                    push_char(&mut word, c);
                    assert(word@ =~= seq![c]);
                    mode = AttrMode::Bare;
                }
            },
            AttrMode::Bare => {
                if is_whitespace(c) {
                    push_entry(&mut entries, key, one_value(word));
                    key = String::new();
                    word = String::new();
                    words = no_values();
                    mode = AttrMode::Key;
                } else {
                    push_char(&mut word, c);
                }
            },
            AttrMode::Quoted(q) => {
                if c == q {
                    push_word(&mut words, word);
                    push_entry(&mut entries, key, words);
                    key = String::new();
                    word = String::new();
                    words = no_values();
                    mode = AttrMode::Key;
                } else if is_whitespace(c) {
                    push_word(&mut words, word);
                    word = String::new();
                } else {
                    push_char(&mut word, c);
                }
            },
        }
        proof {
            seen = seen.push(c);
        }
    }
    assert(seen =~= cs);
    match mode {
        AttrMode::Key => {
            if !key.as_str().is_empty() {
                push_entry(&mut entries, key, no_values());
            }
        },
        AttrMode::ValueStart => {
            push_entry(&mut entries, key, no_values());
        },
        AttrMode::Bare => {
            push_entry(&mut entries, key, one_value(word));
        },
        AttrMode::Quoted(_) => {
            push_word(&mut words, word);
            push_entry(&mut entries, key, words);
        },
    }
    Some(entries)
}

} // verus!
