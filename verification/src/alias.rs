//! Alias resolution: the mapping from an author identity as recorded to the
//! canonical identity that its statistics are reported under.

use vstd::prelude::*;
use crate::text::{str_same, to_chars, string_of};

verus! {

/// `i` is the position of the first `=` of `entry`.
pub open spec fn is_separator_at(entry: Seq<char>, i: int) -> bool {
    &&& 0 <= i < entry.len()
    &&& entry[i] == '='
    &&& forall|j: int| 0 <= j < i ==> entry[j] != '='
}

/// The pair that an `alias=canonical` entry stands for: the text before its
/// first `=` and the text after it. An entry without `=` stands for nothing.
pub open spec fn split_alias(entry: Seq<char>) -> Option<(Seq<char>, Seq<char>)> {
    if exists|i: int| is_separator_at(entry, i) {
        let i = choose|i: int| is_separator_at(entry, i);
        Some((entry.subrange(0, i), entry.subrange(i + 1, entry.len() as int)))
    } else {
        None
    }
}

/// The mapping that a list of entries builds. Entries without a separator are
/// passed over; where an alias occurs again, the later entry replaces the
/// earlier one.
pub open spec fn alias_map_of(entries: Seq<Seq<char>>) -> Map<Seq<char>, Seq<char>>
    decreases entries.len(),
{
    if entries.len() == 0 {
        Map::empty()
    } else {
        let before = alias_map_of(entries.drop_last());
        match split_alias(entries.last()) {
            Some((alias, canonical)) => before.insert(alias, canonical),
            None => before,
        }
    }
}

/// The canonical identity of `raw` under the mapping `m`: what `m` maps it
/// to, or `raw` itself where `m` does not hold it.
pub open spec fn resolved(m: Map<Seq<char>, Seq<char>>, raw: Seq<char>) -> Seq<char> {
    if m.dom().contains(raw) {
        m[raw]
    } else {
        raw
    }
}

/// The aliases among `pairs` that stand for the canonical identity `c`, in
/// the order of the pairs.
pub open spec fn aliases_for(pairs: Seq<(Seq<char>, Seq<char>)>, c: Seq<char>) -> Seq<Seq<char>>
    decreases pairs.len(),
{
    if pairs.len() == 0 {
        Seq::empty()
    } else if pairs.last().1 == c {
        aliases_for(pairs.drop_last(), c).push(pairs.last().0)
    } else {
        aliases_for(pairs.drop_last(), c)
    }
}

/// An alias is listed for `c` exactly where some pair maps it to `c`.
pub proof fn lemma_aliases_for(pairs: Seq<(Seq<char>, Seq<char>)>, c: Seq<char>, a: Seq<char>)
    ensures
        aliases_for(pairs, c).contains(a) == exists|i: int|
            0 <= i < pairs.len() && #[trigger] pairs[i] == (a, c),
    decreases pairs.len(),
{
    if pairs.len() > 0 {
        let rest = pairs.drop_last();
        lemma_aliases_for(rest, c, a);
        let listed = aliases_for(pairs, c);
        if listed.contains(a) {
            let j = choose|j: int| 0 <= j < listed.len() && listed[j] == a;
            if pairs.last().1 == c && j == listed.len() - 1 {
                assert(pairs[pairs.len() - 1] == (a, c));
            } else {
                assert(aliases_for(rest, c)[j] == a);
                assert(aliases_for(rest, c).contains(a));
                let i = choose|i: int| 0 <= i < rest.len() && #[trigger] rest[i] == (a, c);
                assert(pairs[i] == (a, c));
            }
        }
        if exists|i: int| 0 <= i < pairs.len() && #[trigger] pairs[i] == (a, c) {
            let i = choose|i: int| 0 <= i < pairs.len() && #[trigger] pairs[i] == (a, c);
            if i < rest.len() {
                assert(rest[i] == (a, c));
                assert(aliases_for(rest, c).contains(a));
                let j = choose|j: int|
                    0 <= j < aliases_for(rest, c).len() && aliases_for(rest, c)[j] == a;
                assert(listed[j] == a);
            } else {
                assert(listed[listed.len() - 1] == a);
            }
        }
    }
}

/// The character sequences of a list of strings.
pub open spec fn views(v: Seq<String>) -> Seq<Seq<char>> {
    Seq::new(v.len(), |i: int| v[i]@)
}

/// The first `=` of an entry is the only position that separates it.
proof fn lemma_separator_unique(entry: Seq<char>, i: int)
    requires
        is_separator_at(entry, i),
    ensures
        split_alias(entry) == Some(
            (entry.subrange(0, i), entry.subrange(i + 1, entry.len() as int)),
        ),
{
    let c = choose|c: int| is_separator_at(entry, c);
    assert(c == i) by {
        if c < i {
            assert(entry[c] != '=');
        }
        if i < c {
            assert(entry[i] != '=');
        }
    }
}

/// Splits an `alias=canonical` entry at its first `=`.
pub fn split_entry(entry: &str) -> (r: Option<(String, String)>)
    ensures
        match r {
            Some((alias, canonical)) => split_alias(entry@) == Some((alias@, canonical@)),
            None => split_alias(entry@) is None,
        },
{
    let chars = to_chars(entry);
    let mut i: usize = 0;
    while i < chars.len()
        invariant
            i <= chars@.len(),
            chars@ == entry@,
            forall|j: int| 0 <= j < i ==> chars@[j] != '=',
        decreases chars@.len() - i,
    {
        if chars[i] == '=' {
            proof {
                lemma_separator_unique(entry@, i as int);
            }
            let alias = string_of(chars.as_slice(), 0, i);
            let canonical = string_of(chars.as_slice(), i + 1, chars.len());
            return Some((alias, canonical));
        }
        i += 1;
    }
    assert(forall|c: int| !is_separator_at(entry@, c));
    None
}

/// One alias with the canonical identity that it stands for.
#[derive(Clone, Debug)]
struct AliasEntry {
    alias: String,
    canonical: String,
}

/// The alias mapping. An identity that it does not hold is its own canonical
/// form.
#[derive(Clone, Debug)]
pub struct AliasMap {
    entries: Vec<AliasEntry>,
}

impl AliasMap {
    /// The entries as pairs, in the order in which their aliases first came.
    pub closed spec fn pairs(&self) -> Seq<(Seq<char>, Seq<char>)> {
        Seq::new(self.entries@.len(), |i: int| (self.entries@[i].alias@, self.entries@[i].canonical@))
    }

    /// The invariant of the type: no alias occurs twice.
    pub closed spec fn wf(&self) -> bool {
        forall|i: int, j: int|
            #![trigger self.pairs()[i], self.pairs()[j]]
            0 <= i < j < self.pairs().len() ==> self.pairs()[i].0 != self.pairs()[j].0
    }

    proof fn lemma_lookup(&self, i: int)
        requires
            self.wf(),
            0 <= i < self.pairs().len(),
        ensures
            self@.dom().contains(self.pairs()[i].0),
            self@[self.pairs()[i].0] == self.pairs()[i].1,
    {
        let k = self.pairs()[i].0;
        let p = self.pairs();
        let c = choose|c: int| 0 <= c < p.len() && (#[trigger] p[c]).0 == k;
        assert(c == i);
    }

    proof fn lemma_missing(&self, k: Seq<char>)
        requires
            forall|i: int| 0 <= i < self.pairs().len() ==> (#[trigger] self.pairs()[i]).0 != k,
        ensures
            !self@.dom().contains(k),
    {
    }

    /// The mapping without entries: every identity is its own canonical form.
    pub fn new() -> (r: Self)
        ensures
            r.wf(),
            r@ == Map::<Seq<char>, Seq<char>>::empty(),
    {
        let r = AliasMap { entries: Vec::new() };
        assert(r.pairs().len() == 0);
        assert(r@ =~= Map::<Seq<char>, Seq<char>>::empty());
        r
    }

    /// The number of aliases.
    pub fn len(&self) -> (n: usize)
        requires
            self.wf(),
        ensures
            self@.dom().finite(),
            n == self@.dom().len(),
    {
        proof {
            let p = self.pairs();
            let keys = Seq::new(p.len(), |i: int| p[i].0);
            assert(keys.no_duplicates()) by {
                assert forall|i: int, j: int|
                    0 <= i < keys.len() && 0 <= j < keys.len() && i != j implies keys[i]
                    != keys[j] by {
                    if i < j {
                        assert(p[i].0 != p[j].0);
                    } else {
                        assert(p[j].0 != p[i].0);
                    }
                }
            }
            assert(keys.to_set() =~= self@.dom()) by {
                assert forall|k: Seq<char>| keys.to_set().contains(k) == self@.dom().contains(
                    k,
                ) by {
                    if keys.contains(k) {
                        let i = choose|i: int| 0 <= i < keys.len() && keys[i] == k;
                        assert(p[i].0 == k);
                    }
                    if self@.dom().contains(k) {
                        let i = choose|i: int| 0 <= i < p.len() && (#[trigger] p[i]).0 == k;
                        assert(keys[i] == k);
                    }
                }
            }
            keys.unique_seq_to_set();
            vstd::seq_lib::seq_to_set_is_finite(keys);
        }
        self.entries.len()
    }

    /// Where `alias` stands among the entries, if it does.
    fn find(&self, alias: &str) -> (r: Option<usize>)
        requires
            self.wf(),
        ensures
            match r {
                Some(i) => i < self.pairs().len() && self.pairs()[i as int].0 == alias@,
                None => !self@.dom().contains(alias@),
            },
            r is Some == self@.dom().contains(alias@),
    {
        let mut i: usize = 0;
        while i < self.entries.len()
            invariant
                self.wf(),
                i <= self.entries@.len(),
                self.entries@.len() == self.pairs().len(),
                forall|j: int| 0 <= j < i ==> (#[trigger] self.pairs()[j]).0 != alias@,
            decreases self.entries@.len() - i,
        {
            if str_same(self.entries[i].alias.as_str(), alias) {
                proof {
                    self.lemma_lookup(i as int);
                }
                return Some(i);
            }
            i += 1;
        }
        proof {
            self.lemma_missing(alias@);
        }
        None
    }

    /// Maps `alias` to `canonical`, replacing what `alias` stood for before.
    /// Only building a mapping does this: once built, a mapping stays as it is.
    fn insert(&mut self, alias: &str, canonical: &str)
        requires
            old(self).wf(),
        ensures
            final(self).wf(),
            final(self)@ == old(self)@.insert(alias@, canonical@),
    {
        let ghost before = *self;
        let entry = AliasEntry { alias: alias.to_owned(), canonical: canonical.to_owned() };
        match self.find(alias) {
            Some(i) => {
                self.entries.set(i, entry);
                assert(self.pairs() =~= before.pairs().update(i as int, (alias@, canonical@)));
            },
            None => {
                self.entries.push(entry);
                assert(self.pairs() =~= before.pairs().push((alias@, canonical@)));
            },
        }
        proof {
            let p = self.pairs();
            let b = before.pairs();
            assert forall|i: int, j: int| 0 <= i < j < p.len() implies (#[trigger] p[i]).0 != (
            #[trigger] p[j]).0 by {
                if j < b.len() {
                    assert(b[i].0 != b[j].0);
                } else {
                    assert(p[i] == b[i]);
                }
            }
            assert(self.wf());
            assert forall|k: Seq<char>| self@.dom().contains(k) == before@.insert(
                alias@,
                canonical@,
            ).dom().contains(k) by {
                if self@.dom().contains(k) {
                    let c = choose|c: int| 0 <= c < p.len() && (#[trigger] p[c]).0 == k;
                    if k != alias@ {
                        assert(b[c].0 == k);
                    }
                }
                if before@.dom().contains(k) {
                    let c = choose|c: int| 0 <= c < b.len() && (#[trigger] b[c]).0 == k;
                    assert(p[c].0 == k);
                }
                if k == alias@ {
                    let c = if b.len() < p.len() {
                        b.len() as int
                    } else {
                        choose|c: int| 0 <= c < b.len() && (#[trigger] b[c]).0 == alias@
                    };
                    assert(p[c].0 == k);
                }
            }
            assert forall|k: Seq<char>| self@.dom().contains(k) implies self@[k] == before@.insert(
                alias@,
                canonical@,
            )[k] by {
                let c = choose|c: int| 0 <= c < p.len() && (#[trigger] p[c]).0 == k;
                self.lemma_lookup(c);
                if k != alias@ {
                    assert(b[c] == p[c]);
                    before.lemma_lookup(c);
                }
            }
            assert(self@ =~= before@.insert(alias@, canonical@));
        }
    }

    /// The identities whose history makes up the contributor `canonical`:
    /// the name itself, then each alias that stands for it. An alias is
    /// listed exactly where the mapping takes it to `canonical`.
    pub fn identities_of(&self, canonical: &str) -> (r: Vec<String>)
        requires
            self.wf(),
        ensures
            views(r@) == seq![canonical@] + aliases_for(self.pairs(), canonical@),
            forall|a: Seq<char>| #[trigger]
                aliases_for(self.pairs(), canonical@).contains(a) == (self@.dom().contains(a)
                    && self@[a] == canonical@),
    {
        let mut r: Vec<String> = Vec::new();
        r.push(canonical.to_owned());
        let ghost p = self.pairs();
        let mut i: usize = 0;
        assert(views(r@) =~= seq![canonical@] + aliases_for(p.take(0), canonical@));
        while i < self.entries.len()
            invariant
                p == self.pairs(),
                i <= self.entries@.len(),
                self.entries@.len() == p.len(),
                views(r@) == seq![canonical@] + aliases_for(p.take(i as int), canonical@),
            decreases self.entries@.len() - i,
        {
            let ghost before = views(r@);
            proof {
                assert(p.take(i + 1).drop_last() =~= p.take(i as int));
                assert(p.take(i + 1).last() == p[i as int]);
            }
            if str_same(self.entries[i].canonical.as_str(), canonical) {
                r.push(self.entries[i].alias.clone());
                assert(views(r@) =~= before.push(p[i as int].0));
            }
            assert(views(r@) =~= seq![canonical@] + aliases_for(p.take(i + 1), canonical@));
            i += 1;
        }
        proof {
            assert(p.take(i as int) =~= p);
            assert forall|a: Seq<char>| #[trigger]
                aliases_for(self.pairs(), canonical@).contains(a) == (self@.dom().contains(a)
                    && self@[a] == canonical@) by {
                lemma_aliases_for(p, canonical@, a);
                if exists|k: int| 0 <= k < p.len() && #[trigger] p[k] == (a, canonical@) {
                    let k = choose|k: int| 0 <= k < p.len() && #[trigger] p[k] == (a, canonical@);
                    self.lemma_lookup(k);
                }
                if self@.dom().contains(a) && self@[a] == canonical@ {
                    let k = choose|k: int| 0 <= k < p.len() && (#[trigger] p[k]).0 == a;
                    self.lemma_lookup(k);
                    assert(p[k] == (a, canonical@));
                }
            }
        }
        r
    }

    /// The canonical identity of `raw`: what the mapping holds for it, or
    /// `raw` unchanged where it holds nothing.
    pub fn resolve<'a>(&'a self, raw: &'a str) -> (r: &'a str)
        requires
            self.wf(),
        ensures
            r@ == resolved(self@, raw@),
    {
        match self.find(raw) {
            Some(i) => {
                proof {
                    self.lemma_lookup(i as int);
                }
                self.entries[i].canonical.as_str()
            },
            None => raw,
        }
    }
}

impl View for AliasMap {
    type V = Map<Seq<char>, Seq<char>>;

    /// The mapping from alias to canonical identity.
    closed spec fn view(&self) -> Map<Seq<char>, Seq<char>> {
        let p = self.pairs();
        Map::new(
            |k: Seq<char>| exists|i: int| 0 <= i < p.len() && (#[trigger] p[i]).0 == k,
            |k: Seq<char>| p[choose|i: int| 0 <= i < p.len() && (#[trigger] p[i]).0 == k].1,
        )
    }
}

/// Builds the alias mapping from `alias=canonical` entries. An entry without
/// `=` is passed over without an error.
pub fn build_author_mapping(merge_args: &[String]) -> (mapping: AliasMap)
    ensures
        mapping.wf(),
        mapping@ == alias_map_of(views(merge_args@)),
{
    let mut mapping = AliasMap::new();
    let mut i: usize = 0;
    while i < merge_args.len()
        invariant
            i <= merge_args@.len(),
            mapping.wf(),
            mapping@ == alias_map_of(views(merge_args@).take(i as int)),
        decreases merge_args@.len() - i,
    {
        proof {
            let all = views(merge_args@);
            assert(all.take(i + 1).drop_last() =~= all.take(i as int));
            assert(all.take(i + 1).last() == merge_args@[i as int]@);
        }
        match split_entry(merge_args[i].as_str()) {
            Some((alias, canonical)) => {
                mapping.insert(alias.as_str(), canonical.as_str());
            },
            None => {},
        }
        i += 1;
    }
    assert(views(merge_args@).take(i as int) =~= views(merge_args@));
    mapping
}

} // verus!
