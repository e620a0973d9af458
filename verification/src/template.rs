//! Filling the `${key}` placeholders of a text from a mapping.
//!
//! The text is read once, from left to right. Where the placeholder of a key
//! of the mapping stands, the key's value goes to the output in its place and
//! reading goes on behind the placeholder, so a value is never read again for
//! placeholders of its own. Where none stands, the character there goes to
//! the output as it is. The placeholders of several keys can stand at one
//! position only where a key holds a `}`; there the shortest key counts.

use vstd::prelude::*;
use vstd::string::StringExecFns;
use crate::arguments::ManifestArguments;
use crate::text::chars_of;

verus! {

/// The placeholder of `key`: `${`, the key, `}`.
pub open spec fn placeholder(key: Seq<char>) -> Seq<char> {
    seq!['$', '{'] + key + seq!['}']
}

/// Whether the placeholder of `key` stands in `text` at position `at`.
pub open spec fn stands_at(text: Seq<char>, at: int, key: Seq<char>) -> bool {
    &&& 0 <= at
    &&& at + key.len() + 3 <= text.len()
    &&& text.subrange(at, at + key.len() + 3) == placeholder(key)
}

/// Whether `key` is the shortest key of `mapping` whose placeholder stands in
/// `text` at position `at`.
pub open spec fn leads(
    text: Seq<char>,
    mapping: Map<Seq<char>, Seq<char>>,
    at: int,
    key: Seq<char>,
) -> bool {
    &&& mapping.dom().contains(key)
    &&& stands_at(text, at, key)
    &&& forall|other: Seq<char>|
        mapping.dom().contains(other) && #[trigger] stands_at(text, at, other) ==> key.len()
            <= other.len()
}

/// The key whose placeholder is filled at position `at`, if there is one.
pub open spec fn leading_key(
    text: Seq<char>,
    mapping: Map<Seq<char>, Seq<char>>,
    at: int,
) -> Option<Seq<char>> {
    if exists|key: Seq<char>| leads(text, mapping, at, key) {
        Some(choose|key: Seq<char>| leads(text, mapping, at, key))
    } else {
        None
    }
}

/// What reading `text` from position `at` to its end gives.
pub open spec fn substitute_from(
    text: Seq<char>,
    mapping: Map<Seq<char>, Seq<char>>,
    at: int,
) -> Seq<char>
    decreases text.len() - at,
{
    if at < 0 || at >= text.len() {
        Seq::empty()
    } else {
        match leading_key(text, mapping, at) {
            Some(key) => mapping[key] + substitute_from(text, mapping, at + key.len() + 3),
            None => seq![text[at]] + substitute_from(text, mapping, at + 1),
        }
    }
}

/// `text` with its placeholders filled from `mapping`.
pub open spec fn substitute(text: Seq<char>, mapping: Map<Seq<char>, Seq<char>>) -> Seq<char> {
    substitute_from(text, mapping, 0)
}

/// Where a placeholder stands, the text spells it out.
pub proof fn lemma_stands_at(text: Seq<char>, at: int, key: Seq<char>)
    requires
        stands_at(text, at, key),
    ensures
        text[at] == '$',
        text[at + 1] == '{',
        text[at + 2 + key.len()] == '}',
        key == text.subrange(at + 2, at + 2 + key.len()),
        forall|i: int| 0 <= i < key.len() ==> text[at + 2 + i] == #[trigger] key[i],
{
    let token = placeholder(key);
    let part = text.subrange(at, at + key.len() + 3);
    assert(part[0] == token[0]);
    assert(part[1] == token[1]);
    let last = key.len() as int + 2;
    assert(part[last] == token[last]);
    assert forall|i: int| 0 <= i < key.len() implies text[at + 2 + i] == #[trigger] key[i] by {
        assert(part[2 + i] == token[2 + i]);
    }
    assert(key =~= text.subrange(at + 2, at + 2 + key.len()));
}

/// The text spelling out a placeholder means that it stands there.
pub proof fn lemma_spelled_out(text: Seq<char>, at: int, key: Seq<char>)
    requires
        0 <= at,
        at + key.len() + 3 <= text.len(),
        text[at] == '$',
        text[at + 1] == '{',
        text[at + 2 + key.len()] == '}',
        forall|i: int| 0 <= i < key.len() ==> text[at + 2 + i] == #[trigger] key[i],
    ensures
        stands_at(text, at, key),
{
    assert(text.subrange(at, at + key.len() + 3) =~= placeholder(key));
}

/// At one position at most one key leads.
pub proof fn lemma_leading_key(
    text: Seq<char>,
    mapping: Map<Seq<char>, Seq<char>>,
    at: int,
    key: Seq<char>,
)
    requires
        leads(text, mapping, at, key),
    ensures
        leading_key(text, mapping, at) == Some(key),
{
    let chosen = choose|k: Seq<char>| leads(text, mapping, at, k);
    assert(leads(text, mapping, at, chosen));
    lemma_stands_at(text, at, key);
    lemma_stands_at(text, at, chosen);
    assert(chosen.len() == key.len());
}

/// A key that holds no `}` leads wherever its placeholder stands: no shorter
/// key's placeholder can end inside it.
pub proof fn lemma_plain_key_leads(
    text: Seq<char>,
    mapping: Map<Seq<char>, Seq<char>>,
    at: int,
    key: Seq<char>,
)
    requires
        mapping.dom().contains(key),
        stands_at(text, at, key),
        !key.contains('}'),
    ensures
        leading_key(text, mapping, at) == Some(key),
{
    lemma_stands_at(text, at, key);
    assert forall|other: Seq<char>|
        mapping.dom().contains(other) && #[trigger] stands_at(text, at, other) implies key.len()
        <= other.len() by {
        if other.len() < key.len() {
            lemma_stands_at(text, at, other);
            assert(key[other.len() as int] == '}');
        }
    }
    lemma_leading_key(text, mapping, at, key);
}

/// A text in which the placeholder of no key of the mapping stands comes out
/// as it went in.
pub proof fn lemma_substitute_nothing(text: Seq<char>, mapping: Map<Seq<char>, Seq<char>>)
    requires
        forall|key: Seq<char>, at: int|
            mapping.dom().contains(key) ==> !#[trigger] stands_at(text, at, key),
    ensures
        substitute(text, mapping) == text,
{
    lemma_nothing_from(text, mapping, 0);
    assert(text.skip(0) =~= text);
}

proof fn lemma_nothing_from(text: Seq<char>, mapping: Map<Seq<char>, Seq<char>>, at: int)
    requires
        0 <= at <= text.len(),
        forall|key: Seq<char>, at: int|
            mapping.dom().contains(key) ==> !#[trigger] stands_at(text, at, key),
    ensures
        substitute_from(text, mapping, at) == text.skip(at),
    decreases text.len() - at,
{
    if at < text.len() {
        lemma_nothing_from(text, mapping, at + 1);
        assert(leading_key(text, mapping, at) is None);
        assert(text.skip(at) =~= seq![text[at]] + text.skip(at + 1));
    } else {
        assert(text.skip(at) =~= Seq::<char>::empty());
    }
}

/// With nothing in the mapping every text comes out as it went in.
pub proof fn lemma_substitute_empty(text: Seq<char>)
    ensures
        substitute(text, Map::<Seq<char>, Seq<char>>::empty()) == text,
{
    lemma_substitute_nothing(text, Map::<Seq<char>, Seq<char>>::empty());
}

/// Whether the placeholder of `key` stands in `text` at position `at`.
fn placeholder_stands(text: &Vec<char>, at: usize, key: &Vec<char>) -> (stands: bool)
    requires
        at < text.len(),
    ensures
        stands == stands_at(text@, at as int, key@),
{
    let room = text.len() - at;
    if room < 3 || key.len() > room - 3 {
        return false;
    }
    let end = at + 2 + key.len();
    if text[at] != '$' || text[at + 1] != '{' || text[end] != '}' {
        proof {
            if stands_at(text@, at as int, key@) {
                lemma_stands_at(text@, at as int, key@);
            }
        }
        return false;
    }
    let mut i: usize = 0;
    while i < key.len()
        invariant
            i <= key.len(),
            at + key.len() + 3 <= text.len(),
            forall|j: int| 0 <= j < i ==> text@[at + 2 + j] == #[trigger] key@[j],
        decreases key.len() - i,
    {
        if text[at + 2 + i] != key[i] {
            proof {
                if stands_at(text@, at as int, key@) {
                    lemma_stands_at(text@, at as int, key@);
                }
            }
            return false;
        }
        i += 1;
    }
    proof {
        lemma_spelled_out(text@, at as int, key@);
    }
    true
}

/// The place in `keys` of the shortest key whose placeholder stands in `text`
/// at position `at`, if there is one.
fn leading_entry(text: &Vec<char>, at: usize, keys: &Vec<Vec<char>>) -> (found: Option<usize>)
    requires
        at < text.len(),
    ensures
        match found {
            Some(index) => {
                &&& index < keys.len()
                &&& stands_at(text@, at as int, keys@[index as int]@)
                &&& forall|j: int|
                    0 <= j < keys.len() && stands_at(text@, at as int, #[trigger] keys@[j]@)
                        ==> keys@[index as int]@.len() <= keys@[j]@.len()
            },
            None => forall|j: int|
                0 <= j < keys.len() ==> !stands_at(text@, at as int, #[trigger] keys@[j]@),
        },
{
    let mut found: Option<usize> = None;
    let mut i: usize = 0;
    while i < keys.len()
        invariant
            i <= keys.len(),
            at < text.len(),
            match found {
                Some(index) => {
                    &&& index < i
                    &&& stands_at(text@, at as int, keys@[index as int]@)
                    &&& forall|j: int|
                        0 <= j < i && stands_at(text@, at as int, #[trigger] keys@[j]@)
                            ==> keys@[index as int]@.len() <= keys@[j]@.len()
                },
                None => forall|j: int|
                    0 <= j < i ==> !stands_at(text@, at as int, #[trigger] keys@[j]@),
            },
        decreases keys.len() - i,
    {
        if placeholder_stands(text, at, &keys[i]) {
            let shorter = match found {
                Some(index) => keys[i].len() < keys[index].len(),
                None => true,
            };
            if shorter {
                found = Some(i);
            }
        }
        i += 1;
    }
    found
}

/// The keys of `arguments` in their order, each as its characters.
fn key_chars(arguments: &ManifestArguments) -> (keys: Vec<Vec<char>>)
    ensures
        keys@.len() == arguments.keys().len(),
        forall|j: int| 0 <= j < keys@.len() ==> (#[trigger] keys@[j])@ == arguments.keys()[j],
{
    let mut keys: Vec<Vec<char>> = Vec::new();
    let count = arguments.len();
    let mut i: usize = 0;
    while i < count
        invariant
            i <= count,
            count == arguments.keys().len(),
            keys@.len() == i,
            forall|j: int| 0 <= j < i ==> (#[trigger] keys@[j])@ == arguments.keys()[j],
        decreases count - i,
    {
        keys.push(chars_of(arguments.key_at(i).as_str()));
        i += 1;
    }
    keys
}

/// Fills the placeholders of `data` from `arguments`.
///
/// Every `${key}` with a key of the mapping gives way to the key's value;
/// everything else, placeholders of other keys among it, stays as it is.
pub fn replace_variables(data: String, arguments: ManifestArguments) -> (replaced: String)
    ensures
        replaced@ == substitute(data@, arguments@),
{
    let text = chars_of(data.as_str());
    let keys = key_chars(&arguments);
    let ghost mapping = arguments@;
    proof {
        use_type_invariant(&arguments);
        arguments.lemma_entries();
    }
    let mut replaced = String::new();
    let mut at: usize = 0;
    assert(replaced@ + substitute_from(text@, mapping, 0) =~= substitute(text@, mapping));
    while at < text.len()
        invariant
            at <= text.len(),
            text@ == data@,
            mapping == arguments@,
            keys@.len() == arguments.keys().len(),
            forall|j: int| 0 <= j < keys@.len() ==> (#[trigger] keys@[j])@ == arguments.keys()[j],
            mapping.dom() == arguments.keys().to_set(),
            arguments.keys().len() == arguments.values().len(),
            forall|j: int|
                0 <= j < arguments.keys().len() ==> mapping[#[trigger] arguments.keys()[j]]
                    == arguments.values()[j],
            replaced@ + substitute_from(text@, mapping, at as int) == substitute(text@, mapping),
        decreases text.len() - at,
    {
        let found = if text[at] == '$' {
            leading_entry(&text, at, &keys)
        } else {
            proof {
                assert forall|j: int| 0 <= j < keys.len() implies !stands_at(
                    text@,
                    at as int,
                    #[trigger] keys@[j]@,
                ) by {
                    if stands_at(text@, at as int, keys@[j]@) {
                        lemma_stands_at(text@, at as int, keys@[j]@);
                    }
                }
            }
            None
        };
        match found {
            Some(index) => {
                let ghost key = arguments.keys()[index as int];
                proof {
                    assert(keys@[index as int]@ == key);
                    assert(arguments.keys().contains(key));
                    assert forall|other: Seq<char>|
                        mapping.dom().contains(other) && #[trigger] stands_at(
                            text@,
                            at as int,
                            other,
                        ) implies key.len() <= other.len() by {
                        assert(arguments.keys().contains(other));
                        let j = arguments.keys().index_of(other);
                        assert(keys@[j]@ == other);
                    }
                    lemma_leading_key(text@, mapping, at as int, key);
                    assert((replaced@ + mapping[key]) + substitute_from(
                        text@,
                        mapping,
                        at + key.len() + 3,
                    ) =~= replaced@ + substitute_from(text@, mapping, at as int));
                }
                replaced.append(arguments.value_at(index).as_str());
                at = at + keys[index].len() + 3;
            },
            None => {
                proof {
                    assert forall|key: Seq<char>| !leads(text@, mapping, at as int, key) by {
                        if leads(text@, mapping, at as int, key) {
                            assert(arguments.keys().contains(key));
                            let j = arguments.keys().index_of(key);
                            assert(keys@[j]@ == key);
                        }
                    }
                    assert(leading_key(text@, mapping, at as int) is None);
                    assert(replaced@.push(text@[at as int]) + substitute_from(
                        text@,
                        mapping,
                        at + 1,
                    ) =~= replaced@ + substitute_from(text@, mapping, at as int));
                }
                replaced.push(text[at]);
                at += 1;
            },
        }
    }
    assert(substitute_from(text@, mapping, at as int) =~= Seq::<char>::empty());
    assert(replaced@ + Seq::<char>::empty() =~= replaced@);
    replaced
}

} // verus!
