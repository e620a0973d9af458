//! `key=value` arguments and the mapping they decode to.

use vstd::prelude::*;
use crate::error::RunError;
use crate::text::{chars_of, string_of};

verus! {

/// Whether `argument` has its one and only `=` at position `at`.
pub open spec fn separates(argument: Seq<char>, at: int) -> bool {
    &&& 0 <= at < argument.len()
    &&& argument[at] == '='
    &&& forall|j: int| 0 <= j < argument.len() && j != at ==> argument[j] != '='
}

/// Whether `argument` is a key and a value with exactly one `=` between them.
/// Either side may be empty.
pub open spec fn well_formed(argument: Seq<char>) -> bool {
    exists|at: int| separates(argument, at)
}

/// Where the `=` of a well-formed argument stands.
pub open spec fn separator(argument: Seq<char>) -> int {
    choose|at: int| separates(argument, at)
}

/// What stands before the `=` of a well-formed argument.
pub open spec fn key_of(argument: Seq<char>) -> Seq<char> {
    argument.take(separator(argument))
}

/// What stands after the `=` of a well-formed argument.
pub open spec fn value_of(argument: Seq<char>) -> Seq<char> {
    argument.skip(separator(argument) + 1)
}

/// The value that the last argument with key `key` carries, if there is one.
pub open spec fn lookup(arguments: Seq<Seq<char>>, key: Seq<char>) -> Option<Seq<char>>
    decreases arguments.len(),
{
    if arguments.len() == 0 {
        None
    } else if key_of(arguments.last()) == key {
        Some(value_of(arguments.last()))
    } else {
        lookup(arguments.drop_last(), key)
    }
}

/// The mapping that a list of well-formed arguments stands for: each key that
/// occurs, with the value of its last occurrence.
pub open spec fn decoded(arguments: Seq<Seq<char>>) -> Map<Seq<char>, Seq<char>> {
    Map::new(
        |key: Seq<char>| lookup(arguments, key) is Some,
        |key: Seq<char>| lookup(arguments, key).unwrap(),
    )
}

/// A well-formed argument has its `=` in one place only.
pub proof fn lemma_separator_unique(argument: Seq<char>, at: int)
    requires
        separates(argument, at),
    ensures
        well_formed(argument),
        separator(argument) == at,
{
    let chosen = separator(argument);
    assert(separates(argument, chosen));
    if chosen != at {
        assert(argument[chosen] != '=');
    }
}

/// Key and value are taken as they stand: put together again around an `=`
/// they give the argument, and neither holds an `=`.
pub proof fn lemma_key_value_verbatim(argument: Seq<char>)
    requires
        well_formed(argument),
    ensures
        key_of(argument) + seq!['='] + value_of(argument) == argument,
        !key_of(argument).contains('='),
        !value_of(argument).contains('='),
{
    let at = separator(argument);
    assert(separates(argument, at));
    assert(key_of(argument) + seq!['='] + value_of(argument) =~= argument);
    assert forall|i: int| 0 <= i < key_of(argument).len() implies key_of(argument)[i] != '=' by {
        assert(key_of(argument)[i] == argument[i]);
    }
    assert forall|i: int| 0 <= i < value_of(argument).len() implies value_of(argument)[i]
        != '=' by {
        assert(value_of(argument)[i] == argument[at + 1 + i]);
    }
}

/// Splits one argument at its `=`.
///
/// Gives the key and the value when the argument holds exactly one `=`, and
/// nothing otherwise.
pub fn split_argument(argument: &str) -> (parts: Option<(String, String)>)
    ensures
        parts is Some <==> well_formed(argument@),
        parts matches Some((key, value)) ==> key@ == key_of(argument@) && value@ == value_of(
            argument@,
        ),
{
    let chars = chars_of(argument);
    let mut at: usize = 0;
    while at < chars.len() && chars[at] != '='
        invariant
            at <= chars.len(),
            forall|j: int| 0 <= j < at ==> chars@[j] != '=',
        decreases chars.len() - at,
    {
        at += 1;
    }
    if at == chars.len() {
        assert forall|p: int| !separates(argument@, p) by {}
        return None;
    }
    let mut rest: usize = at + 1;
    while rest < chars.len() && chars[rest] != '='
        invariant
            at < rest <= chars.len(),
            forall|j: int| at < j < rest ==> chars@[j] != '=',
        decreases chars.len() - rest,
    {
        rest += 1;
    }
    if rest < chars.len() {
        assert forall|p: int| !separates(argument@, p) by {
            if separates(argument@, p) {
                if p == at {
                    assert(argument@[rest as int] != '=');
                } else {
                    assert(argument@[at as int] != '=');
                }
            }
        }
        return None;
    }
    proof {
        lemma_separator_unique(argument@, at as int);
    }
    let key = string_of(&chars, 0, at);
    let value = string_of(&chars, at + 1, chars.len());
    Some((key, value))
}

/// A mapping from key to value, each key held once.
///
/// Its view is the mapping itself. The entries also have an order, that in
/// which their keys first came in, by which they can be walked.
#[derive(Debug)]
pub struct ManifestArguments {
    entries: Vec<(String, String)>,
}

impl View for ManifestArguments {
    type V = Map<Seq<char>, Seq<char>>;

    closed spec fn view(&self) -> Map<Seq<char>, Seq<char>> {
        Map::new(
            |key: Seq<char>| self.keys().contains(key),
            |key: Seq<char>| self.values()[self.keys().index_of(key)],
        )
    }
}

impl ManifestArguments {
    /// The keys, in the order in which they first came in.
    pub closed spec fn keys(&self) -> Seq<Seq<char>> {
        Seq::new(self.entries@.len(), |i: int| self.entries@[i].0@)
    }

    /// The values, each at the place of its key in [`Self::keys`].
    pub closed spec fn values(&self) -> Seq<Seq<char>> {
        Seq::new(self.entries@.len(), |i: int| self.entries@[i].1@)
    }

    /// No key is held twice. Every value of this type is so.
    #[verifier::type_invariant]
    pub closed spec fn distinct_keys(&self) -> bool {
        self.keys().no_duplicates()
    }

    /// How the entries in their order relate to the mapping.
    pub proof fn lemma_entries(&self)
        requires
            self.distinct_keys(),
        ensures
            self.keys().len() == self.values().len(),
            self.keys().no_duplicates(),
            self@.dom() == self.keys().to_set(),
            self@.dom().finite(),
            self@.dom().len() == self.keys().len(),
            forall|i: int|
                0 <= i < self.keys().len() ==> self@.dom().contains(#[trigger] self.keys()[i])
                    && self@[self.keys()[i]] == self.values()[i],
    {
        let keys = self.keys();
        assert(self@.dom() =~= keys.to_set());
        keys.unique_seq_to_set();
        assert forall|i: int| 0 <= i < keys.len() implies self@.dom().contains(#[trigger] keys[i])
            && self@[keys[i]] == self.values()[i] by {
            assert(keys.contains(keys[i]));
            assert(keys.index_of(keys[i]) == i);
        }
    }

    /// The mapping that holds nothing.
    pub fn new() -> (arguments: Self)
        ensures
            arguments@ == Map::<Seq<char>, Seq<char>>::empty(),
            arguments.keys().len() == 0,
    {
        let arguments = ManifestArguments { entries: Vec::new() };
        assert(arguments@ =~= Map::<Seq<char>, Seq<char>>::empty());
        arguments
    }

    /// How many keys are held.
    pub fn len(&self) -> (n: usize)
        ensures
            n == self@.dom().len(),
            n == self.keys().len(),
    {
        proof {
            use_type_invariant(self);
            self.lemma_entries();
        }
        self.entries.len()
    }

    /// Whether no key is held.
    pub fn is_empty(&self) -> (empty: bool)
        ensures
            empty <==> self@ == Map::<Seq<char>, Seq<char>>::empty(),
    {
        proof {
            use_type_invariant(self);
            self.lemma_entries();
            if self.entries@.len() == 0 {
                assert(self@ =~= Map::<Seq<char>, Seq<char>>::empty());
            } else {
                assert(self@.dom().contains(self.keys()[0]));
            }
        }
        self.entries.len() == 0
    }

    /// The key of the entry at `index`.
    pub fn key_at(&self, index: usize) -> (key: &String)
        requires
            index < self.keys().len(),
        ensures
            key@ == self.keys()[index as int],
    {
        &self.entries[index].0
    }

    /// The value of the entry at `index`.
    pub fn value_at(&self, index: usize) -> (value: &String)
        requires
            index < self.keys().len(),
        ensures
            value@ == self.values()[index as int],
            value@ == self@[self.keys()[index as int]],
    {
        proof {
            use_type_invariant(self);
            self.lemma_entries();
        }
        &self.entries[index].1
    }

    /// Where `key` is held, if it is.
    fn position(&self, key: &String) -> (found: Option<usize>)
        ensures
            match found {
                Some(index) => index < self.keys().len() && self.keys()[index as int] == key@,
                None => !self.keys().contains(key@),
            },
    {
        let mut index: usize = 0;
        while index < self.entries.len()
            invariant
                index <= self.entries@.len(),
                forall|j: int| 0 <= j < index ==> self.keys()[j] != key@,
            decreases self.entries@.len() - index,
        {
            if self.entries[index].0 == *key {
                return Some(index);
            }
            index += 1;
        }
        None
    }

    /// The value held for `key`, if there is one.
    pub fn get(&self, key: &String) -> (value: Option<&String>)
        ensures
            match value {
                Some(held) => self@.dom().contains(key@) && held@ == self@[key@],
                None => !self@.dom().contains(key@),
            },
    {
        proof {
            use_type_invariant(self);
            self.lemma_entries();
        }
        match self.position(key) {
            Some(index) => Some(&self.entries[index].1),
            None => None,
        }
    }

    /// Whether a value is held for `key`.
    pub fn contains_key(&self, key: &String) -> (held: bool)
        ensures
            held <==> self@.dom().contains(key@),
    {
        proof {
            use_type_invariant(self);
            self.lemma_entries();
        }
        self.position(key).is_some()
    }

    /// Sets the value for `key`, in place of the one held for it before, if
    /// there was one. A key that is new goes to the end of the order; one that
    /// was held keeps its place.
    pub fn insert(&mut self, key: String, value: String)
        ensures
            final(self)@ == old(self)@.insert(key@, value@),
            old(self)@.dom().contains(key@) ==> final(self).keys() == old(self).keys(),
            !old(self)@.dom().contains(key@) ==> final(self).keys() == old(self).keys().push(key@),
    {
        proof {
            use_type_invariant(&*self);
            self.lemma_entries();
        }
        let ghost before = *self;
        let found = self.position(&key);
        let mut entries: Vec<(String, String)> = Vec::new();
        core::mem::swap(&mut self.entries, &mut entries);
        match found {
            Some(index) => {
                entries[index] = (key, value);
                assert(Seq::new(entries@.len(), |i: int| entries@[i].0@) =~= before.keys());
                core::mem::swap(&mut self.entries, &mut entries);
                proof {
                    assert(self.keys() =~= before.keys());
                    assert(self.values() =~= before.values().update(index as int, value@));
                    self.lemma_entries();
                    let after = before@.insert(key@, value@);
                    assert(self@ =~= after) by {
                        assert forall|k: Seq<char>| self@.dom().contains(k) implies #[trigger] self@[k]
                            == after[k] by {
                            let i = self.keys().index_of(k);
                            assert(self.keys()[i] == k);
                        }
                    }
                }
            },
            None => {
                entries.push((key, value));
                assert(Seq::new(entries@.len(), |i: int| entries@[i].0@) =~= before.keys().push(
                    key@,
                ));
                core::mem::swap(&mut self.entries, &mut entries);
                proof {
                    assert(self.keys() =~= before.keys().push(key@));
                    assert(self.values() =~= before.values().push(value@));
                    self.lemma_entries();
                    let after = before@.insert(key@, value@);
                    assert(self@ =~= after) by {
                        assert forall|k: Seq<char>| self@.dom().contains(k) implies #[trigger] self@[k]
                            == after[k] by {
                            let i = self.keys().index_of(k);
                            assert(self.keys()[i] == k);
                        }
                        assert forall|k: Seq<char>|
                            self@.dom().contains(k) <==> after.dom().contains(k) by {
                            if before.keys().contains(k) {
                                let i = before.keys().index_of(k);
                                assert(self.keys()[i] == k);
                            }
                            assert(self.keys()[before.keys().len() as int] == key@);
                        }
                    }
                }
            },
        }
    }
}

/// The keys of `arguments`, one for each argument and in their order.
pub open spec fn keys_of(arguments: Seq<Seq<char>>) -> Seq<Seq<char>> {
    Seq::new(arguments.len(), |i: int| key_of(arguments[i]))
}

/// The keys of `arguments` in the order in which each first occurs.
pub open spec fn first_keys(arguments: Seq<Seq<char>>) -> Seq<Seq<char>>
    decreases arguments.len(),
{
    if arguments.len() == 0 {
        Seq::empty()
    } else {
        let earlier = first_keys(arguments.drop_last());
        let key = key_of(arguments.last());
        if earlier.contains(key) {
            earlier
        } else {
            earlier.push(key)
        }
    }
}

/// Decoding one argument more sets its key to its value.
pub proof fn lemma_decoded_push(arguments: Seq<Seq<char>>, argument: Seq<char>)
    ensures
        decoded(arguments.push(argument)) == decoded(arguments).insert(
            key_of(argument),
            value_of(argument),
        ),
{
    let longer = arguments.push(argument);
    assert(longer.drop_last() =~= arguments);
    assert(longer.last() == argument);
    assert(decoded(longer) =~= decoded(arguments).insert(key_of(argument), value_of(argument)));
}

/// The keys of the decoded mapping are the keys that occur among the
/// arguments, so it has as many entries as there are distinct keys.
pub proof fn lemma_decoded_keys(arguments: Seq<Seq<char>>)
    requires
        forall|i: int| 0 <= i < arguments.len() ==> well_formed(#[trigger] arguments[i]),
    ensures
        decoded(arguments).dom() == keys_of(arguments).to_set(),
        decoded(arguments).dom().finite(),
        decoded(arguments).dom().len() == keys_of(arguments).to_set().len(),
    decreases arguments.len(),
{
    let keys = keys_of(arguments);
    if arguments.len() == 0 {
        assert(decoded(arguments).dom() =~= keys.to_set());
    } else {
        let shorter = arguments.drop_last();
        let last = arguments.last();
        lemma_decoded_keys(shorter);
        assert(arguments =~= shorter.push(last));
        lemma_decoded_push(shorter, last);
        assert(keys =~= keys_of(shorter).push(key_of(last)));
        assert forall|key: Seq<char>| keys.to_set().contains(key) <==> keys_of(
            shorter,
        ).to_set().insert(key_of(last)).contains(key) by {
            if keys.contains(key) {
                let i = choose|i: int| 0 <= i < keys.len() && keys[i] == key;
                if i < shorter.len() {
                    assert(keys_of(shorter)[i] == key);
                }
            }
            if keys_of(shorter).contains(key) {
                let i = choose|i: int| 0 <= i < shorter.len() && keys_of(shorter)[i] == key;
                assert(keys[i] == key);
            }
            assert(keys[keys.len() - 1] == key_of(last));
        }
        assert(decoded(arguments).dom() =~= keys.to_set());
    }
    vstd::seq_lib::seq_to_set_is_finite(keys);
}

/// Looking up the key of an argument that no later argument shares a key with
/// gives that argument's value: the last occurrence of a key wins.
pub proof fn lemma_decoded_last_wins(arguments: Seq<Seq<char>>, at: int)
    requires
        forall|i: int| 0 <= i < arguments.len() ==> well_formed(#[trigger] arguments[i]),
        0 <= at < arguments.len(),
        forall|later: int|
            at < later < arguments.len() ==> key_of(#[trigger] arguments[later]) != key_of(
                arguments[at],
            ),
    ensures
        decoded(arguments).dom().contains(key_of(arguments[at])),
        decoded(arguments)[key_of(arguments[at])] == value_of(arguments[at]),
    decreases arguments.len(),
{
    if at < arguments.len() - 1 {
        let shorter = arguments.drop_last();
        assert(shorter[at] == arguments[at]);
        assert forall|later: int| at < later < shorter.len() implies key_of(
            #[trigger] shorter[later],
        ) != key_of(shorter[at]) by {
            assert(shorter[later] == arguments[later]);
        }
        lemma_decoded_last_wins(shorter, at);
        assert(key_of(arguments[arguments.len() - 1]) != key_of(arguments[at]));
    }
}

/// Decodes a list of `key=value` arguments into a mapping.
///
/// Fails at the first argument that does not hold exactly one `=`, and names
/// its place. Otherwise every key that occurs is mapped to the value of its
/// last occurrence.
pub fn parse_arguments(arguments: Vec<String>) -> (result: Result<ManifestArguments, RunError>)
    ensures
        match result {
            Ok(mapping) => {
                &&& forall|i: int|
                    0 <= i < arguments.len() ==> well_formed(#[trigger] arguments.deep_view()[i])
                &&& mapping@ == decoded(arguments.deep_view())
                &&& mapping.keys() == first_keys(arguments.deep_view())
            },
            Err(error) => exists|index: usize|
                {
                    &&& error == (RunError::MalformedArgument { index })
                    &&& index < arguments.len()
                    &&& !well_formed(#[trigger] arguments.deep_view()[index as int])
                    &&& forall|i: int|
                        0 <= i < index ==> well_formed(#[trigger] arguments.deep_view()[i])
                },
        },
{
    let ghost texts = arguments.deep_view();
    let mut mapping = ManifestArguments::new();
    assert(mapping@ =~= decoded(texts.take(0)));
    assert(mapping.keys() =~= first_keys(texts.take(0)));
    let mut index: usize = 0;
    while index < arguments.len()
        invariant
            index <= arguments.len(),
            texts == arguments.deep_view(),
            forall|i: int| 0 <= i < index ==> well_formed(#[trigger] texts[i]),
            mapping@ == decoded(texts.take(index as int)),
            mapping.keys() == first_keys(texts.take(index as int)),
        decreases arguments.len() - index,
    {
        assert(texts[index as int] == arguments[index as int]@);
        match split_argument(arguments[index].as_str()) {
            Some((key, value)) => {
                proof {
                    use_type_invariant(&mapping);
                    mapping.lemma_entries();
                    lemma_decoded_push(texts.take(index as int), texts[index as int]);
                    assert(texts.take(index + 1) =~= texts.take(index as int).push(
                        texts[index as int],
                    ));
                    assert(texts.take(index + 1).drop_last() =~= texts.take(index as int));
                }
                mapping.insert(key, value);
            },
            None => {
                return Err(RunError::MalformedArgument { index });
            },
        }
        index += 1;
    }
    assert(texts.take(index as int) =~= texts);
    Ok(mapping)
}

} // verus!
