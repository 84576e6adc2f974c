//! Lexicographic order on text (the order of `str`'s `Ord`: by Unicode scalar
//! value, a proper prefix first) and sorted, duplicate-free text sets.
use vstd::prelude::*;

use crate::text::chars_of;

verus! {

/// Whether `a` comes strictly before `b`.
pub open spec fn text_less(a: Seq<char>, b: Seq<char>) -> bool
    decreases a.len(),
{
    if b.len() == 0 {
        false
    } else if a.len() == 0 {
        true
    } else if a[0] != b[0] {
        a[0] < b[0]
    } else {
        text_less(a.drop_first(), b.drop_first())
    }
}

pub proof fn lemma_text_less_irreflexive(a: Seq<char>)
    ensures
        !text_less(a, a),
    decreases a.len(),
{
    if a.len() > 0 {
        lemma_text_less_irreflexive(a.drop_first());
    }
}

pub proof fn lemma_text_less_transitive(a: Seq<char>, b: Seq<char>, c: Seq<char>)
    requires
        text_less(a, b),
        text_less(b, c),
    ensures
        text_less(a, c),
    decreases a.len(),
{
    if a.len() > 0 && b.len() > 0 && c.len() > 0 {
        if a[0] == b[0] && b[0] == c[0] {
            lemma_text_less_transitive(a.drop_first(), b.drop_first(), c.drop_first());
        }
    }
}

pub proof fn lemma_text_less_total(a: Seq<char>, b: Seq<char>)
    ensures
        text_less(a, b) || text_less(b, a) || a == b,
    decreases a.len(),
{
    if a.len() > 0 && b.len() > 0 {
        if a[0] == b[0] {
            lemma_text_less_total(a.drop_first(), b.drop_first());
            if a.drop_first() == b.drop_first() {
                assert(a =~= seq![a[0]] + a.drop_first());
                assert(b =~= seq![b[0]] + b.drop_first());
            }
        }
    } else if a.len() == 0 && b.len() == 0 {
        assert(a =~= b);
    }
}

pub proof fn lemma_text_less_asymmetric(a: Seq<char>, b: Seq<char>)
    requires
        text_less(a, b),
    ensures
        !text_less(b, a),
{
    if text_less(b, a) {
        lemma_text_less_transitive(a, b, a);
        lemma_text_less_irreflexive(a);
    }
}

/// A three-way comparison result.
#[derive(Clone, Copy, Debug, PartialEq, Eq)]
pub enum Comparison {
    Less,
    Equal,
    Greater,
}

pub open spec fn compares_as(result: Comparison, a: Seq<char>, b: Seq<char>) -> bool {
    match result {
        Comparison::Less => text_less(a, b),
        Comparison::Equal => a == b,
        Comparison::Greater => text_less(b, a),
    }
}

/// Compares two character sequences.
pub fn compare_chars(a: &Vec<char>, b: &Vec<char>) -> (result: Comparison)
    ensures
        compares_as(result, a@, b@),
{
    let mut i: usize = 0;
    while i < a.len() && i < b.len()
        invariant
            i <= a.len(),
            i <= b.len(),
            a@.take(i as int) == b@.take(i as int),
        decreases a.len() - i,
    {
        if a[i] != b[i] {
            proof {
                lemma_text_less_prefix(a@, b@, i as int);
            }
            if a[i] < b[i] {
                return Comparison::Less;
            } else {
                return Comparison::Greater;
            }
        }
        assert(a@.take(i + 1) =~= a@.take(i as int).push(a@[i as int]));
        assert(b@.take(i + 1) =~= b@.take(i as int).push(b@[i as int]));
        i += 1;
    }
    proof {
        lemma_text_less_prefix(a@, b@, i as int);
    }
    if a.len() < b.len() {
        Comparison::Less
    } else if b.len() < a.len() {
        Comparison::Greater
    } else {
        assert(a@ =~= a@.take(i as int));
        assert(b@ =~= b@.take(i as int));
        Comparison::Equal
    }
}

/// After a common prefix of length `k`, the order is decided by what follows.
proof fn lemma_text_less_prefix(a: Seq<char>, b: Seq<char>, k: int)
    requires
        0 <= k <= a.len(),
        k <= b.len(),
        a.take(k) == b.take(k),
    ensures
        text_less(a, b) == text_less(a.skip(k), b.skip(k)),
        text_less(b, a) == text_less(b.skip(k), a.skip(k)),
    decreases k,
{
    if k > 0 {
        assert(a[0] == a.take(k)[0]);
        assert(b[0] == b.take(k)[0]);
        assert(a.drop_first().take(k - 1) =~= a.take(k).drop_first());
        assert(b.drop_first().take(k - 1) =~= b.take(k).drop_first());
        lemma_text_less_prefix(a.drop_first(), b.drop_first(), k - 1);
        assert(a.drop_first().skip(k - 1) =~= a.skip(k));
        assert(b.drop_first().skip(k - 1) =~= b.skip(k));
    } else {
        assert(a.skip(0) =~= a);
        assert(b.skip(0) =~= b);
    }
}

/// Compares two texts.
pub fn compare_text(a: &str, b: &str) -> (result: Comparison)
    ensures
        compares_as(result, a@, b@),
{
    let left = chars_of(a);
    let right = chars_of(b);
    compare_chars(&left, &right)
}

pub proof fn lemma_insert_to_set<A>(s: Seq<A>, i: int, v: A)
    requires
        0 <= i <= s.len(),
    ensures
        s.insert(i, v).to_set() == s.to_set().insert(v),
{
    let t = s.insert(i, v);
    assert forall|x: A| t.contains(x) <==> s.contains(x) || x == v by {
        if t.contains(x) {
            let k = t.index_of(x);
            if k < i {
                assert(s[k] == x);
            } else if k > i {
                assert(s[k - 1] == x);
            }
        }
        if s.contains(x) {
            let k = s.index_of(x);
            if k < i {
                assert(t[k] == x);
            } else {
                assert(t[k + 1] == x);
            }
        }
        if x == v {
            assert(t[i] == v);
        }
    }
    assert(t.to_set() =~= s.to_set().insert(v));
}

/// Whether `items` is in strictly increasing order.
pub open spec fn strictly_sorted(items: Seq<Seq<char>>) -> bool {
    forall|i: int, j: int| 0 <= i < j < items.len() ==> text_less(#[trigger] items[i], #[trigger] items[j])
}

pub open spec fn texts_view(items: Seq<String>) -> Seq<Seq<char>> {
    items.map_values(|s: String| s@)
}

/// A set of texts kept in increasing order without duplicates.
#[derive(Clone, Debug, PartialEq, Eq, Default)]
pub struct TextSet {
    items: Vec<String>,
}

impl View for TextSet {
    type V = Set<Seq<char>>;

    closed spec fn view(&self) -> Set<Seq<char>> {
        texts_view(self.items@).to_set()
    }
}

impl TextSet {
    /// The members in increasing order.
    pub closed spec fn sequence(&self) -> Seq<Seq<char>> {
        texts_view(self.items@)
    }

    pub closed spec fn wf(&self) -> bool {
        strictly_sorted(texts_view(self.items@))
    }

    pub proof fn lemma_view(&self)
        requires
            self.wf(),
        ensures
            self@ == self.sequence().to_set(),
            strictly_sorted(self.sequence()),
            self@.finite(),
            self@.len() == self.sequence().len(),
            self.sequence().no_duplicates(),
    {
        let s = self.sequence();
        assert forall|i: int, j: int| 0 <= i < s.len() && 0 <= j < s.len() && i != j implies s[i]
            != s[j] by {
            if i < j {
                lemma_text_less_irreflexive(s[i]);
            } else {
                lemma_text_less_irreflexive(s[j]);
            }
        }
        s.unique_seq_to_set();
    }

    pub fn new() -> (result: Self)
        ensures
            result.wf(),
            result@ == Set::<Seq<char>>::empty(),
            result.sequence() == Seq::<Seq<char>>::empty(),
    {
        let result = TextSet { items: Vec::new() };
        assert(result.sequence() =~= Seq::<Seq<char>>::empty());
        result
    }

    pub fn len(&self) -> (result: usize)
        ensures
            result == self.sequence().len(),
    {
        self.items.len()
    }

    pub fn is_empty(&self) -> (result: bool)
        ensures
            result == (self.sequence().len() == 0),
    {
        self.items.len() == 0
    }

    /// The members in increasing order.
    pub fn items(&self) -> (result: &Vec<String>)
        ensures
            texts_view(result@) == self.sequence(),
    {
        &self.items
    }

    /// Adds `value`; returns whether it was absent.
    pub fn insert(&mut self, value: String) -> (result: bool)
        requires
            old(self).wf(),
        ensures
            final(self).wf(),
            final(self)@ == old(self)@.insert(value@),
            result == !old(self)@.contains(value@),
    {
        proof {
            self.lemma_view();
        }
        let ghost before = self.sequence();
        let key = chars_of(value.as_str());
        let mut i: usize = 0;
        while i < self.items.len()
            invariant
                i <= self.items.len(),
                self.sequence() == before,
                self.items@ == old(self).items@,
                before == old(self).sequence(),
                key@ == value@,
                strictly_sorted(before),
                forall|j: int| 0 <= j < i ==> text_less(#[trigger] before[j], value@),
            decreases self.items.len() - i,
        {
            let current = chars_of(self.items[i].as_str());
            match compare_chars(&current, &key) {
                Comparison::Less => {
                    assert(before[i as int] == self.items@[i as int]@);
                },
                Comparison::Equal => {
                    assert(before[i as int] == self.items@[i as int]@);
                    assert(before.contains(value@));
                    assert(before.to_set().insert(value@) =~= before.to_set());
                    return false;
                },
                Comparison::Greater => {
                    proof {
                        assert(before[i as int] == self.items@[i as int]@);
                        assert forall|j: int| i <= j < before.len() implies text_less(value@, #[trigger] before[j]) by {
                            if j > i {
                                lemma_text_less_transitive(value@, before[i as int], before[j]);
                            }
                        }
                        assert(!before.contains(value@)) by {
                            if before.contains(value@) {
                                let k = before.index_of(value@);
                                if k < i {
                                    lemma_text_less_irreflexive(value@);
                                } else {
                                    lemma_text_less_irreflexive(value@);
                                }
                            }
                        }
                    }
                    self.items.insert(i, value);
                    proof {
                        let after = self.sequence();
                        assert(after =~= before.insert(i as int, value@));
                        lemma_insert_to_set(before, i as int, value@);
                    }
                    return true;
                },
            }
            i += 1;
        }
        proof {
            assert(!before.contains(value@)) by {
                if before.contains(value@) {
                    let k = before.index_of(value@);
                    lemma_text_less_irreflexive(value@);
                }
            }
        }
        self.items.push(value);
        proof {
            let after = self.sequence();
            assert(after =~= before.push(value@));
            assert(before.push(value@) =~= before.insert(before.len() as int, value@));
            lemma_insert_to_set(before, before.len() as int, value@);
        }
        true
    }

    /// Every member of `other` is added.
    pub fn merge(&mut self, other: &TextSet)
        requires
            old(self).wf(),
        ensures
            final(self).wf(),
            final(self)@ == old(self)@.union(other@),
    {
        let mut i: usize = 0;
        while i < other.items.len()
            invariant
                self.wf(),
                i <= other.items.len(),
                self@ == old(self)@.union(texts_view(other.items@).take(i as int).to_set()),
            decreases other.items.len() - i,
        {
            let ghost added = other.items@[i as int]@;
            self.insert(other.items[i].clone());
            proof {
                let prefix = texts_view(other.items@).take(i as int);
                assert(texts_view(other.items@).take(i + 1) =~= prefix.push(added));
                assert(prefix.push(added) =~= prefix.insert(i as int, added));
                lemma_insert_to_set(prefix, i as int, added);
            }
            i += 1;
            assert(self@ =~= old(self)@.union(texts_view(other.items@).take(i as int).to_set()));
        }
        assert(texts_view(other.items@).take(i as int) =~= texts_view(other.items@));
    }

    /// An equal set.
    pub fn duplicate(&self) -> (result: Self)
        requires
            self.wf(),
        ensures
            result.wf(),
            result@ == self@,
            result.sequence() == self.sequence(),
    {
        let mut items: Vec<String> = Vec::new();
        let mut i: usize = 0;
        while i < self.items.len()
            invariant
                i <= self.items.len(),
                texts_view(items@) == texts_view(self.items@).take(i as int),
            decreases self.items.len() - i,
        {
            let ghost before = items@;
            items.push(self.items[i].clone());
            assert(texts_view(items@) =~= texts_view(before).push(self.items@[i as int]@));
            assert(texts_view(self.items@).take(i + 1) =~= texts_view(self.items@).take(i as int).push(self.items@[i as int]@));
            i += 1;
        }
        assert(texts_view(self.items@).take(i as int) =~= texts_view(self.items@));
        TextSet { items }
    }

    /// Whether `value` is a member.
    pub fn contains(&self, value: &str) -> (result: bool)
        ensures
            result == self@.contains(value@),
    {
        let mut i: usize = 0;
        while i < self.items.len()
            invariant
                i <= self.items.len(),
                forall|j: int| 0 <= j < i ==> self.sequence()[j] != value@,
            decreases self.items.len() - i,
        {
            match compare_text(self.items[i].as_str(), value) {
                Comparison::Equal => {
                    assert(self.sequence()[i as int] == value@);
                    assert(self.sequence().contains(value@));
                    return true;
                },
                _ => {
                    proof {
                        assert(self.sequence()[i as int] == self.items@[i as int]@);
                        lemma_text_less_irreflexive(value@);
                    }
                },
            }
            i += 1;
        }
        assert(!self.sequence().contains(value@));
        false
    }
}

pub open spec fn entry_names<V>(entries: Seq<(String, V)>) -> Seq<Seq<char>> {
    entries.map_values(|e: (String, V)| e.0@)
}

/// The map that `entries` hold.
pub open spec fn entries_map<V>(entries: Seq<(String, V)>) -> Map<Seq<char>, V> {
    Map::new(
        |k: Seq<char>| exists|i: int| 0 <= i < entries.len() && entries[i].0@ == k,
        |k: Seq<char>| entries[choose|i: int| 0 <= i < entries.len() && entries[i].0@ == k].1,
    )
}

/// The map that inserting `pairs` in order gives: a later pair replaces an
/// earlier one with the same name.
pub open spec fn pairs_map<V>(pairs: Seq<(String, V)>) -> Map<Seq<char>, V>
    decreases pairs.len(),
{
    if pairs.len() == 0 {
        Map::empty()
    } else {
        pairs_map(pairs.drop_last()).insert(pairs.last().0@, pairs.last().1)
    }
}

proof fn lemma_entries_map_at<V>(entries: Seq<(String, V)>, i: int)
    requires
        strictly_sorted(entry_names(entries)),
        0 <= i < entries.len(),
    ensures
        entries_map(entries).contains_key(entries[i].0@),
        entries_map(entries)[entries[i].0@] == entries[i].1,
{
    let names = entry_names(entries);
    assert(names[i] == entries[i].0@);
    let j = choose|j: int| 0 <= j < entries.len() && entries[j].0@ == entries[i].0@;
    assert(names[j] == entries[j].0@);
    if j < i {
        lemma_text_less_irreflexive(names[i]);
    } else if j > i {
        lemma_text_less_irreflexive(names[i]);
    }
}

/// Values keyed by name, kept in increasing order of name.
#[derive(Clone, Debug, PartialEq, Eq)]
pub struct NameMap<V> {
    entries: Vec<(String, V)>,
}

impl<V> View for NameMap<V> {
    type V = Map<Seq<char>, V>;

    closed spec fn view(&self) -> Map<Seq<char>, V> {
        entries_map(self.entries@)
    }
}

impl<V> NameMap<V> {
    /// The entries in increasing order of name.
    pub closed spec fn sequence(&self) -> Seq<(Seq<char>, V)> {
        self.entries@.map_values(|e: (String, V)| (e.0@, e.1))
    }

    pub closed spec fn wf(&self) -> bool {
        strictly_sorted(entry_names(self.entries@))
    }

    pub proof fn lemma_view(&self)
        requires
            self.wf(),
        ensures
            strictly_sorted(self.sequence().map_values(|e: (Seq<char>, V)| e.0)),
            forall|i: int|
                0 <= i < self.sequence().len() ==> #[trigger] self@.contains_key(self.sequence()[i].0)
                    && self@[self.sequence()[i].0] == self.sequence()[i].1,
            forall|k: Seq<char>|
                #[trigger] self@.contains_key(k) ==> exists|i: int|
                    0 <= i < self.sequence().len() && self.sequence()[i].0 == k,
    {
        let names = entry_names(self.entries@);
        assert(self.sequence().map_values(|e: (Seq<char>, V)| e.0) =~= names);
        assert forall|i: int| 0 <= i < self.sequence().len() implies #[trigger] self@.contains_key(
            self.sequence()[i].0,
        ) && self@[self.sequence()[i].0] == self.sequence()[i].1 by {
            lemma_entries_map_at(self.entries@, i);
        }
        assert forall|k: Seq<char>| #[trigger] self@.contains_key(k) implies exists|i: int|
            0 <= i < self.sequence().len() && self.sequence()[i].0 == k by {
            let i = choose|i: int| 0 <= i < self.entries@.len() && self.entries@[i].0@ == k;
            assert(self.sequence()[i].0 == k);
        }
    }

    pub fn empty() -> (result: Self)
        ensures
            result.wf(),
            result@ == Map::<Seq<char>, V>::empty(),
            result.sequence().len() == 0,
    {
        let result = NameMap { entries: Vec::new() };
        assert(result@ =~= Map::<Seq<char>, V>::empty());
        result
    }

    /// The first position whose name is not less than `name`, and whether
    /// the name there is `name`.
    fn position(&self, name: &str) -> (result: (usize, bool))
        requires
            self.wf(),
        ensures
            result.0 <= self.entries@.len(),
            forall|j: int| 0 <= j < result.0 ==> text_less(#[trigger] self.entries@[j].0@, name@),
            result.1 ==> result.0 < self.entries@.len() && self.entries@[result.0 as int].0@ == name@,
            !result.1 ==> forall|j: int|
                result.0 <= j < self.entries@.len() ==> text_less(name@, #[trigger] self.entries@[j].0@),
    {
        let ghost names = entry_names(self.entries@);
        let mut i: usize = 0;
        while i < self.entries.len()
            invariant
                self.wf(),
                names == entry_names(self.entries@),
                i <= self.entries@.len(),
                forall|j: int| 0 <= j < i ==> text_less(#[trigger] self.entries@[j].0@, name@),
            decreases self.entries.len() - i,
        {
            match compare_text(self.entries[i].0.as_str(), name) {
                Comparison::Less => {
                    i += 1;
                },
                Comparison::Equal => {
                    return (i, true);
                },
                Comparison::Greater => {
                    proof {
                        assert forall|j: int| i <= j < self.entries@.len() implies text_less(
                            name@,
                            #[trigger] self.entries@[j].0@,
                        ) by {
                            assert(names[i as int] == self.entries@[i as int].0@);
                            assert(names[j] == self.entries@[j].0@);
                            if j > i {
                                lemma_text_less_transitive(name@, names[i as int], names[j]);
                            }
                        }
                    }
                    return (i, false);
                },
            }
        }
        (i, false)
    }

    /// Sets `name` to `value`, replacing any value it had.
    pub fn insert(&mut self, name: String, value: V)
        requires
            old(self).wf(),
        ensures
            final(self).wf(),
            final(self)@ == old(self)@.insert(name@, value),
    {
        let ghost before = self.entries@;
        let (p, found) = self.position(name.as_str());
        let ghost key = name@;
        if found {
            self.entries.set(p, (name, value));
            proof {
                let after = self.entries@;
                assert(entry_names(after) =~= entry_names(before).update(p as int, key));
                assert(entry_names(before)[p as int] == key);
                assert(entry_names(after) =~= entry_names(before));
                assert forall|k: Seq<char>| #[trigger] entries_map(after).contains_key(k) <==> entries_map(
                    before,
                ).insert(key, value).contains_key(k) by {
                    if entries_map(before).contains_key(k) {
                        let i = choose|i: int| 0 <= i < before.len() && before[i].0@ == k;
                        assert(after[i].0@ == k);
                    }
                    if entries_map(after).contains_key(k) {
                        let i = choose|i: int| 0 <= i < after.len() && after[i].0@ == k;
                        assert(before[i].0@ == k);
                    }
                    if k == key {
                        assert(after[p as int].0@ == k);
                    }
                }
                assert forall|k: Seq<char>| #[trigger] entries_map(after).contains_key(k) implies entries_map(
                    after,
                )[k] == entries_map(before).insert(key, value)[k] by {
                    let i = choose|i: int| 0 <= i < after.len() && after[i].0@ == k;
                    assert(entry_names(after)[i] == k);
                    lemma_entries_map_at(after, i);
                    if i != p {
                        assert(before[i] == after[i]);
                        lemma_entries_map_at(before, i);
                        assert(entry_names(after)[p as int] == key);
                        lemma_text_less_irreflexive(key);
                        assert(k != key);
                    } else {
                        assert(after[p as int].1 == value);
                    }
                }
                assert(entries_map(after) =~= entries_map(before).insert(key, value));
            }
        } else {
            self.entries.insert(p, (name, value));
            proof {
                let after = self.entries@;
                assert(after =~= before.insert(p as int, (after[p as int].0, value)));
                let names = entry_names(after);
                assert(names =~= entry_names(before).insert(p as int, key));
                assert forall|a: int, b: int| 0 <= a < b < names.len() implies text_less(
                    #[trigger] names[a],
                    #[trigger] names[b],
                ) by {
                    if a < p && b == p {
                        assert(names[a] == before[a].0@);
                    } else if a == p && b > p {
                        assert(names[b] == before[b - 1].0@);
                    } else if a < p && b > p {
                        assert(names[a] == before[a].0@);
                        assert(names[b] == before[b - 1].0@);
                        lemma_text_less_transitive(names[a], key, names[b]);
                    } else if b < p {
                        assert(names[a] == entry_names(before)[a]);
                        assert(names[b] == entry_names(before)[b]);
                    } else {
                        assert(names[a] == entry_names(before)[a - 1]);
                        assert(names[b] == entry_names(before)[b - 1]);
                    }
                }
                assert forall|k: Seq<char>| #[trigger] entries_map(after).contains_key(k) <==> entries_map(
                    before,
                ).insert(key, value).contains_key(k) by {
                    if entries_map(before).contains_key(k) {
                        let i = choose|i: int| 0 <= i < before.len() && before[i].0@ == k;
                        if i < p {
                            assert(after[i].0@ == k);
                        } else {
                            assert(after[i + 1].0@ == k);
                        }
                    }
                    if entries_map(after).contains_key(k) {
                        let i = choose|i: int| 0 <= i < after.len() && after[i].0@ == k;
                        if i < p {
                            assert(before[i].0@ == k);
                        } else if i > p {
                            assert(before[i - 1].0@ == k);
                        }
                    }
                    if k == key {
                        assert(after[p as int].0@ == k);
                    }
                }
                assert forall|k: Seq<char>| #[trigger] entries_map(after).contains_key(k) implies entries_map(
                    after,
                )[k] == entries_map(before).insert(key, value)[k] by {
                    let i = choose|i: int| 0 <= i < after.len() && after[i].0@ == k;
                    assert(names[i] == k);
                    lemma_entries_map_at(after, i);
                    if i < p {
                        assert(before[i] == after[i]);
                        lemma_entries_map_at(before, i);
                        assert(text_less(before[i].0@, key));
                        lemma_text_less_irreflexive(key);
                        assert(k != key);
                        assert(entries_map(before)[k] == after[i].1);
                        assert(entries_map(after)[k] == after[i].1);
                        assert(entries_map(before).insert(key, value)[k] == after[i].1);
                    } else if i > p {
                        assert(before[i - 1] == after[i]);
                        lemma_entries_map_at(before, i - 1);
                        assert(text_less(key, before[i - 1].0@));
                        lemma_text_less_irreflexive(key);
                        assert(k != key);
                        assert(entries_map(before)[k] == after[i].1);
                    } else {
                        assert(after[p as int].0@ == key);
                        assert(after[p as int].1 == value);
                        assert(k == key);
                    }
                }
                assert(entries_map(after) =~= entries_map(before).insert(key, value));
            }
        }
    }

    /// Builds a map by inserting `pairs` in order.
    pub fn new(pairs: Vec<(String, V)>) -> (result: Self)
        ensures
            result.wf(),
            result@ == pairs_map(pairs@),
    {
        let ghost original = pairs@;
        let mut pairs = pairs;
        let mut result = NameMap::empty();
        let ghost mut taken: int = 0;
        assert(pairs_map(original.take(0)) =~= Map::<Seq<char>, V>::empty());
        while pairs.len() > 0
            invariant
                0 <= taken <= original.len(),
                pairs@ == original.skip(taken),
                result.wf(),
                result@ == pairs_map(original.take(taken)),
            decreases pairs.len(),
        {
            let (name, value) = pairs.remove(0);
            proof {
                assert(original.skip(taken + 1) =~= original.skip(taken).drop_first());
                assert(original.take(taken + 1).drop_last() =~= original.take(taken));
                assert(original.take(taken + 1).last() == original[taken]);
            }
            result.insert(name, value);
            proof {
                taken = taken + 1;
            }
        }
        assert(original.take(taken) =~= original);
        result
    }

    /// The value for `name`.
    pub fn get(&self, name: &str) -> (result: Option<&V>)
        requires
            self.wf(),
        ensures
            self@.contains_key(name@) ==> (result matches Some(v) && *v == self@[name@]),
            !self@.contains_key(name@) ==> result is None,
    {
        let (p, found) = self.position(name);
        if found {
            proof {
                assert(entry_names(self.entries@)[p as int] == name@);
                lemma_entries_map_at(self.entries@, p as int);
            }
            Some(&self.entries[p].1)
        } else {
            proof {
                if self@.contains_key(name@) {
                    let i = choose|i: int| 0 <= i < self.entries@.len() && self.entries@[i].0@ == name@;
                    lemma_text_less_irreflexive(name@);
                }
            }
            None
        }
    }

    /// The entries in increasing order of name.
    pub fn iter(&self) -> (result: Vec<(&str, &V)>)
        ensures
            result@.len() == self.sequence().len(),
            forall|i: int|
                0 <= i < result@.len() ==> (#[trigger] result@[i]).0@ == self.sequence()[i].0
                    && *result@[i].1 == self.sequence()[i].1,
    {
        let mut result: Vec<(&str, &V)> = Vec::new();
        let mut i: usize = 0;
        while i < self.entries.len()
            invariant
                i <= self.entries@.len(),
                result@.len() == i,
                forall|j: int|
                    0 <= j < i ==> (#[trigger] result@[j]).0@ == self.sequence()[j].0 && *result@[j].1
                        == self.sequence()[j].1,
            decreases self.entries.len() - i,
        {
            result.push((self.entries[i].0.as_str(), &self.entries[i].1));
            i += 1;
        }
        result
    }

    pub fn len(&self) -> (result: usize)
        ensures
            result == self.sequence().len(),
    {
        self.entries.len()
    }
}

/// `x` placed into `s` after every element that `x` is not less than.
pub open spec fn insert_sorted<A>(s: Seq<A>, x: A, less: spec_fn(A, A) -> bool) -> Seq<A>
    decreases s.len(),
{
    if s.len() == 0 {
        seq![x]
    } else if less(x, s[0]) {
        seq![x] + s
    } else {
        seq![s[0]] + insert_sorted(s.drop_first(), x, less)
    }
}

/// `s` sorted by inserting its elements in order: elements that neither is
/// less than the other keep their order.
pub open spec fn insertion_sort<A>(s: Seq<A>, less: spec_fn(A, A) -> bool) -> Seq<A>
    decreases s.len(),
{
    if s.len() == 0 {
        Seq::empty()
    } else {
        insert_sorted(insertion_sort(s.drop_last(), less), s.last(), less)
    }
}

pub proof fn lemma_insert_sorted_at<A>(s: Seq<A>, x: A, less: spec_fn(A, A) -> bool, p: int)
    requires
        0 <= p <= s.len(),
        forall|j: int| 0 <= j < p ==> !less(x, #[trigger] s[j]),
        p < s.len() ==> less(x, s[p]),
    ensures
        insert_sorted(s, x, less) == s.insert(p, x),
    decreases s.len(),
{
    if s.len() == 0 {
        assert(s.insert(p, x) =~= seq![x]);
    } else if p == 0 {
        assert(s.insert(0, x) =~= seq![x] + s);
    } else {
        let rest = s.drop_first();
        assert forall|j: int| 0 <= j < p - 1 implies !less(x, #[trigger] rest[j]) by {
            assert(rest[j] == s[j + 1]);
        }
        if p < s.len() {
            assert(rest[p - 1] == s[p]);
        }
        lemma_insert_sorted_at(rest, x, less, p - 1);
        assert(seq![s[0]] + rest.insert(p - 1, x) =~= s.insert(p, x));
    }
}

/// Lexicographic order of lists of texts; a proper prefix comes first.
pub open spec fn list_less(a: Seq<Seq<char>>, b: Seq<Seq<char>>) -> bool
    decreases a.len(),
{
    if a.len() == 0 {
        b.len() > 0
    } else if b.len() == 0 {
        false
    } else if text_less(a[0], b[0]) {
        true
    } else if a[0] == b[0] {
        list_less(a.drop_first(), b.drop_first())
    } else {
        false
    }
}

/// Whether the list `a` comes before the list `b`.
pub fn texts_less(a: &Vec<String>, b: &Vec<String>) -> (result: bool)
    ensures
        result == list_less(texts_view(a@), texts_view(b@)),
{
    let ghost av = texts_view(a@);
    let ghost bv = texts_view(b@);
    let mut k: usize = 0;
    assert(av.skip(0) =~= av);
    assert(bv.skip(0) =~= bv);
    while k < a.len() && k < b.len()
        invariant
            k <= a@.len(),
            k <= b@.len(),
            av == texts_view(a@),
            bv == texts_view(b@),
            list_less(av, bv) == list_less(av.skip(k as int), bv.skip(k as int)),
        decreases a.len() - k,
    {
        let ghost ra = av.skip(k as int);
        let ghost rb = bv.skip(k as int);
        proof {
            assert(ra[0] == a@[k as int]@);
            assert(rb[0] == b@[k as int]@);
            assert(ra.drop_first() =~= av.skip(k + 1));
            assert(rb.drop_first() =~= bv.skip(k + 1));
        }
        match compare_text(a[k].as_str(), b[k].as_str()) {
            Comparison::Less => {
                return true;
            },
            Comparison::Greater => {
                proof {
                    lemma_text_less_asymmetric(rb[0], ra[0]);
                    if ra[0] == rb[0] {
                        lemma_text_less_irreflexive(ra[0]);
                    }
                }
                return false;
            },
            Comparison::Equal => {
                proof {
                    if text_less(ra[0], rb[0]) {
                        lemma_text_less_irreflexive(ra[0]);
                    }
                }
            },
        }
        k += 1;
    }
    let ghost ra = av.skip(k as int);
    let ghost rb = bv.skip(k as int);
    k < b.len() && k >= a.len()
}

proof fn lemma_insert_sorted_multiset<A>(s: Seq<A>, x: A, less: spec_fn(A, A) -> bool)
    ensures
        insert_sorted(s, x, less).to_multiset() == s.to_multiset().insert(x),
        insert_sorted(s, x, less).len() == s.len() + 1,
    decreases s.len(),
{
    broadcast use vstd::multiset::group_multiset_axioms;
    broadcast use vstd::seq_lib::group_to_multiset_ensures;

    if s.len() == 0 {
        assert(seq![x] =~= Seq::<A>::empty().push(x));
        assert(s =~= Seq::<A>::empty());
    } else if less(x, s[0]) {
        vstd::seq_lib::lemma_multiset_commutative(seq![x], s);
        assert(seq![x] =~= Seq::<A>::empty().push(x));
        assert(s.to_multiset().insert(x) =~= seq![x].to_multiset().add(s.to_multiset()));
    } else {
        let rest = s.drop_first();
        lemma_insert_sorted_multiset(rest, x, less);
        vstd::seq_lib::lemma_multiset_commutative(seq![s[0]], insert_sorted(rest, x, less));
        vstd::seq_lib::lemma_multiset_commutative(seq![s[0]], rest);
        assert(seq![s[0]] + rest =~= s);
        assert(seq![s[0]] =~= Seq::<A>::empty().push(s[0]));
        assert(seq![s[0]].to_multiset().add(rest.to_multiset().insert(x)) =~= seq![s[0]].to_multiset().add(
            rest.to_multiset(),
        ).insert(x));
    }
}

/// Insertion sort rearranges its input: the same elements, as often each.
pub proof fn law_insertion_sort_permutes<A>(s: Seq<A>, less: spec_fn(A, A) -> bool)
    ensures
        insertion_sort(s, less).to_multiset() == s.to_multiset(),
        insertion_sort(s, less).len() == s.len(),
    decreases s.len(),
{
    broadcast use vstd::seq_lib::group_to_multiset_ensures;

    if s.len() == 0 {
        assert(insertion_sort(s, less) =~= s);
    } else {
        law_insertion_sort_permutes(s.drop_last(), less);
        lemma_insert_sorted_multiset(insertion_sort(s.drop_last(), less), s.last(), less);
        assert(s.drop_last().push(s.last()) =~= s);
    }
}

} // verus!
