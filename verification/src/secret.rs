//! The resolution of secrets.
use crate::dict::{
    Dict, Entries, entry, entry_views, lemma_view_of_entry, lemma_view_of_set, with_entry,
};
use crate::text::{chars_of, digit, is_ascii_letter, is_digit, opt_view, upper, upper_char};
use vstd::prelude::*;

verus! {

/// Resolves the names of declared secrets to their values. A secret that is
/// declared and not available resolves to nothing.
pub trait SecretResolver {
    /// Resolves a secret by name.
    fn resolve(&self, name: &str) -> Option<String>;
}

/// A resolver that resolves nothing.
#[derive(Debug, Clone, Copy)]
pub struct EmptySecretResolver;

impl SecretResolver for EmptySecretResolver {
    fn resolve(&self, _name: &str) -> (r: Option<String>)
        ensures
            r is None,
    {
        None
    }
}

/// A resolver over a map from names to values.
#[derive(Debug)]
pub struct MapSecretResolver {
    values: Dict<String>,
}

/// The entries with those of a list of pairs set one after the other.
pub open spec fn entries_of(pairs: Seq<(&str, &str)>) -> Seq<(Seq<char>, Seq<char>)>
    decreases pairs.len(),
{
    if pairs.len() == 0 {
        Seq::empty()
    } else {
        with_entry(entries_of(pairs.drop_last()), pairs.last().0@, pairs.last().1@)
    }
}

/// The entries of a map of texts, by their characters.
pub open spec fn text_entries(m: Entries<String>) -> Seq<(Seq<char>, Seq<char>)> {
    entry_views(m)
}

impl MapSecretResolver {
    /// The secrets by name.
    pub closed spec fn secrets(self) -> Seq<(Seq<char>, Seq<char>)> {
        text_entries(self.values@)
    }

    /// A resolver over a map.
    pub fn new(values: Dict<String>) -> (r: Self)
        ensures
            r.secrets() == text_entries(values@),
    {
        Self { values }
    }

    /// A resolver over pairs of names and values; a later pair replaces an
    /// earlier one of the same name.
    pub fn from_pairs(pairs: Vec<(&str, &str)>) -> (r: Self)
        ensures
            r.secrets() == entries_of(pairs@),
    {
        let mut values: Dict<String> = Dict::new();
        let mut i: usize = 0;
        assert(text_entries(values@) =~= entries_of(pairs@.take(0)));
        while i < pairs.len()
            invariant
                i <= pairs.len(),
                text_entries(values@) == entries_of(pairs@.take(i as int)),
            decreases pairs.len() - i,
        {
            let (name, text) = pairs[i];
            let owned = text.to_owned();
            proof {
                lemma_view_of_set(values@, name@, owned);
                let next = pairs@.take(i + 1);
                assert(next.drop_last() =~= pairs@.take(i as int));
                assert(next.last() == pairs@[i as int]);
            }
            values.insert(name.to_owned(), owned);
            i += 1;
        }
        assert(pairs@.take(pairs.len() as int) =~= pairs@);
        Self { values }
    }
}

impl SecretResolver for MapSecretResolver {
    fn resolve(&self, name: &str) -> (r: Option<String>)
        ensures
            opt_view(r) == entry(self.secrets(), name@),
    {
        proof {
            lemma_view_of_entry(self.values@, name@);
        }
        match self.values.get(name) {
            Some(s) => Some(s.clone()),
            None => None,
        }
    }
}

/// The names of the environment variables that hold secrets.
#[derive(Debug)]
pub struct EnvSecretResolver {
    prefix: String,
}

/// The character that stands for one of a secret's name: letters are
/// upper-cased, digits stay, and anything else becomes an underscore.
pub open spec fn variable_char(c: char) -> char {
    if is_ascii_letter(c) || is_digit(c) {
        upper(c)
    } else {
        '_'
    }
}

impl EnvSecretResolver {
    /// The prefix of the variables.
    pub closed spec fn prefix_text(self) -> Seq<char> {
        self.prefix@
    }

    /// A resolver with the prefix `OWS_SECRET_`.
    pub fn new() -> (r: Self)
        ensures
            r.prefix_text() == "OWS_SECRET_"@,
    {
        Self { prefix: "OWS_SECRET_".to_owned() }
    }

    /// A resolver with another prefix.
    pub fn with_prefix(prefix: &str) -> (r: Self)
        ensures
            r.prefix_text() == prefix@,
    {
        Self { prefix: prefix.to_owned() }
    }

    /// The environment variable for a secret.
    pub fn variable_for(&self, name: &str) -> (r: String)
        ensures
            r@ == self.prefix_text() + name@.map_values(|c: char| variable_char(c)),
    {
        let chars = chars_of(name);
        let ghost f = |c: char| variable_char(c);
        let mut out = self.prefix.clone();
        let mut i: usize = 0;
        assert(out@ =~= self.prefix@ + name@.take(0).map_values(f));
        while i < chars.len()
            invariant
                i <= chars.len(),
                chars@ == name@,
                f == (|c: char| variable_char(c)),
                out@ == self.prefix@ + name@.take(i as int).map_values(f),
            decreases chars.len() - i,
        {
            let c = chars[i];
            if ('a' <= c && c <= 'z') || ('A' <= c && c <= 'Z') || digit(c) {
                out.push(upper_char(c));
            } else {
                out.push('_');
            }
            assert(self.prefix@ + name@.take(i + 1).map_values(f) =~= (self.prefix@ + name@.take(
                i as int,
            ).map_values(f)).push(variable_char(c)));
            i += 1;
        }
        assert(name@.take(chars.len() as int) =~= name@);
        assert(name@.map_values(f) =~= name@.map_values(|c: char| variable_char(c)));
        out
    }
}

} // verus!
