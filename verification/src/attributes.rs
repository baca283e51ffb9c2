//! The attributes of an element: a map from names to values whose entries
//! are kept sorted by name, so that they are visited in name order.
use vstd::prelude::*;
use crate::text::{chars_of, chars_eq};

verus! {

/// Lexicographic order on character sequences, comparing characters by
/// code point (the order of `str`'s `Ord`, since UTF-8 keeps code point order).
pub open spec fn key_lt(a: Seq<char>, b: Seq<char>) -> bool
    decreases a.len(),
{
    if a.len() == 0 {
        b.len() > 0
    } else if b.len() == 0 {
        false
    } else if (a[0] as int) < (b[0] as int) {
        true
    } else if a[0] == b[0] {
        key_lt(a.drop_first(), b.drop_first())
    } else {
        false
    }
}

/// Whether the keys of `e` strictly increase.
pub open spec fn sorted_keys(e: Seq<(Seq<char>, Seq<char>)>) -> bool {
    forall|i: int, j: int| 0 <= i < j < e.len() ==> key_lt(#[trigger] e[i].0, #[trigger] e[j].0)
}

/// The map that the entries of `e` describe (a later entry wins).
pub open spec fn entries_map(e: Seq<(Seq<char>, Seq<char>)>) -> Map<Seq<char>, Seq<char>>
    decreases e.len(),
{
    if e.len() == 0 {
        Map::empty()
    } else {
        entries_map(e.drop_last()).insert(e.last().0, e.last().1)
    }
}

/// No sequence is below itself.
pub proof fn lemma_key_lt_irreflexive(a: Seq<char>)
    ensures
        !key_lt(a, a),
    decreases a.len(),
{
    if a.len() > 0 {
        lemma_key_lt_irreflexive(a.drop_first());
    }
}

/// The order is transitive.
pub proof fn lemma_key_lt_transitive(a: Seq<char>, b: Seq<char>, c: Seq<char>)
    requires
        key_lt(a, b),
        key_lt(b, c),
    ensures
        key_lt(a, c),
    decreases a.len(),
{
    if a.len() > 0 && b.len() > 0 && c.len() > 0 && a[0] == b[0] && b[0] == c[0] {
        lemma_key_lt_transitive(a.drop_first(), b.drop_first(), c.drop_first());
    }
}

/// Any two distinct sequences are ordered one way or the other.
pub proof fn lemma_key_lt_total(a: Seq<char>, b: Seq<char>)
    ensures
        a == b || key_lt(a, b) || key_lt(b, a),
    decreases a.len(),
{
    if a.len() > 0 && b.len() > 0 {
        if a[0] == b[0] {
            lemma_key_lt_total(a.drop_first(), b.drop_first());
            if a.drop_first() == b.drop_first() {
                assert(a =~= seq![a[0]] + a.drop_first());
                assert(b =~= seq![b[0]] + b.drop_first());
            }
        } else {
            assert((a[0] as int) != (b[0] as int));
        }
    } else if a.len() == 0 && b.len() == 0 {
        assert(a =~= b);
    }
}

proof fn lemma_key_lt_distinct(a: Seq<char>, b: Seq<char>)
    requires
        key_lt(a, b),
    ensures
        a != b,
{
    lemma_key_lt_irreflexive(a);
}

/// Over entries with strictly increasing keys, the map holds exactly the
/// entries' keys, each with its entry's value.
pub proof fn lemma_entries_map(e: Seq<(Seq<char>, Seq<char>)>)
    requires
        sorted_keys(e),
    ensures
        forall|i: int|
            0 <= i < e.len() ==> entries_map(e).contains_key(#[trigger] e[i].0) && entries_map(
                e,
            )[e[i].0] == e[i].1,
        forall|k: Seq<char>|
            #[trigger] entries_map(e).contains_key(k) ==> exists|i: int|
                0 <= i < e.len() && e[i].0 == k,
    decreases e.len(),
{
    if e.len() > 0 {
        let p = e.drop_last();
        assert(sorted_keys(p));
        lemma_entries_map(p);
        let n = e.len() - 1;
        assert forall|i: int| 0 <= i < e.len() implies entries_map(e).contains_key(
            #[trigger] e[i].0,
        ) && entries_map(e)[e[i].0] == e[i].1 by {
            if i < n {
                assert(key_lt(e[i].0, e[n].0));
                lemma_key_lt_distinct(e[i].0, e[n].0);
                assert(p[i] == e[i]);
            }
        }
        assert forall|k: Seq<char>| #[trigger] entries_map(e).contains_key(k) implies exists|
            i: int,
        | 0 <= i < e.len() && e[i].0 == k by {
            if k != e[n].0 {
                assert(entries_map(p).contains_key(k));
                let i = choose|i: int| 0 <= i < p.len() && p[i].0 == k;
                assert(e[i].0 == k);
            }
        }
    }
}

/// Two entry sequences with increasing keys that describe the same map are
/// the same sequence: the order of the entries follows from the map alone.
pub proof fn lemma_sorted_entries_unique(
    e1: Seq<(Seq<char>, Seq<char>)>,
    e2: Seq<(Seq<char>, Seq<char>)>,
)
    requires
        sorted_keys(e1),
        sorted_keys(e2),
        entries_map(e1) == entries_map(e2),
    ensures
        e1 == e2,
    decreases e1.len() + e2.len(),
{
    lemma_entries_map(e1);
    lemma_entries_map(e2);
    if e1.len() == 0 || e2.len() == 0 {
        if e1.len() > 0 {
            assert(entries_map(e1).contains_key(e1[0].0));
        }
        if e2.len() > 0 {
            assert(entries_map(e2).contains_key(e2[0].0));
        }
        assert(e1 =~= e2);
    } else {
        let n1 = e1.len() - 1;
        let n2 = e2.len() - 1;
        let k1 = e1[n1].0;
        let k2 = e2[n2].0;
        // the last key of each is the greatest key of the map
        assert(entries_map(e2).contains_key(k1));
        let j = choose|j: int| 0 <= j < e2.len() && e2[j].0 == k1;
        assert(entries_map(e1).contains_key(k2));
        let i = choose|i: int| 0 <= i < e1.len() && e1[i].0 == k2;
        if k1 != k2 {
            assert(j < n2);
            assert(i < n1);
            assert(key_lt(e2[j].0, e2[n2].0));
            assert(key_lt(e1[i].0, e1[n1].0));
            lemma_key_lt_transitive(k1, k2, k1);
            lemma_key_lt_irreflexive(k1);
        }
        assert(e1[n1].1 == e2[n2].1);
        let p1 = e1.drop_last();
        let p2 = e2.drop_last();
        assert(sorted_keys(p1));
        assert(sorted_keys(p2));
        lemma_entries_map(p1);
        lemma_entries_map(p2);
        assert forall|k: Seq<char>| #[trigger] entries_map(p1).contains_key(k) implies k != k1 by {
            let a = choose|a: int| 0 <= a < p1.len() && p1[a].0 == k;
            assert(key_lt(e1[a].0, e1[n1].0));
            lemma_key_lt_irreflexive(k1);
        }
        assert forall|k: Seq<char>| #[trigger] entries_map(p2).contains_key(k) implies k != k1 by {
            let a = choose|a: int| 0 <= a < p2.len() && p2[a].0 == k;
            assert(key_lt(e2[a].0, e2[n2].0));
            lemma_key_lt_irreflexive(k1);
        }
        assert(entries_map(p1) =~= entries_map(e1).remove(k1));
        assert(entries_map(p2) =~= entries_map(e2).remove(k1));
        lemma_sorted_entries_unique(p1, p2);
        assert(e1 =~= p1.push(e1[n1]));
        assert(e2 =~= p2.push(e2[n2]));
    }
}

/// Putting `(k, v)` at position `i`, where every key before `i` is below `k`
/// and the key at `i` (if any) is above it, keeps the keys increasing and
/// inserts `k` into the map.
proof fn lemma_insert_at(e: Seq<(Seq<char>, Seq<char>)>, i: int, k: Seq<char>, v: Seq<char>)
    requires
        sorted_keys(e),
        0 <= i <= e.len(),
        forall|j: int| 0 <= j < i ==> key_lt(#[trigger] e[j].0, k),
        i < e.len() ==> key_lt(k, e[i].0),
    ensures
        sorted_keys(e.insert(i, (k, v))),
        entries_map(e.insert(i, (k, v))) == entries_map(e).insert(k, v),
{
    let f = e.insert(i, (k, v));
    assert forall|a: int, b: int| 0 <= a < b < f.len() implies key_lt(
        #[trigger] f[a].0,
        #[trigger] f[b].0,
    ) by {
        if b == i {
            assert(f[a] == e[a]);
        } else if a == i {
            assert(f[b] == e[b - 1]);
            if b - 1 > i {
                lemma_key_lt_transitive(k, e[i].0, e[b - 1].0);
            }
        } else if b < i {
            assert(f[a] == e[a] && f[b] == e[b]);
        } else if a < i {
            assert(f[a] == e[a] && f[b] == e[b - 1]);
        } else {
            assert(f[a] == e[a - 1] && f[b] == e[b - 1]);
        }
    }
    lemma_entries_map(e);
    lemma_entries_map(f);
    let m = entries_map(e).insert(k, v);
    assert forall|key: Seq<char>| #[trigger] entries_map(f).contains_key(key) <==> m.contains_key(
        key,
    ) by {
        if entries_map(f).contains_key(key) {
            let a = choose|a: int| 0 <= a < f.len() && f[a].0 == key;
            if a < i {
                assert(f[a] == e[a]);
            } else if a > i {
                assert(f[a] == e[a - 1]);
            }
        }
        if m.contains_key(key) && key != k {
            let a = choose|a: int| 0 <= a < e.len() && e[a].0 == key;
            if a < i {
                assert(f[a] == e[a]);
            } else {
                assert(f[a + 1] == e[a]);
            }
        }
        if key == k {
            assert(f[i].0 == k);
        }
    }
    assert forall|key: Seq<char>| #[trigger] entries_map(f).contains_key(key) implies entries_map(
        f,
    )[key] == m[key] by {
        let a = choose|a: int| 0 <= a < f.len() && f[a].0 == key;
        if a < i {
            assert(f[a] == e[a]);
            lemma_key_lt_distinct(e[a].0, k);
        } else if a > i {
            assert(f[a] == e[a - 1]);
            if a - 1 > i {
                lemma_key_lt_transitive(k, e[i].0, e[a - 1].0);
            }
            lemma_key_lt_distinct(k, e[a - 1].0);
        }
    }
    assert(entries_map(f) =~= m);
}

/// Replacing the entry whose key is `k` keeps the keys increasing and
/// inserts `k` into the map.
proof fn lemma_update_at(e: Seq<(Seq<char>, Seq<char>)>, i: int, k: Seq<char>, v: Seq<char>)
    requires
        sorted_keys(e),
        0 <= i < e.len(),
        e[i].0 == k,
    ensures
        sorted_keys(e.update(i, (k, v))),
        entries_map(e.update(i, (k, v))) == entries_map(e).insert(k, v),
{
    let f = e.update(i, (k, v));
    assert forall|a: int, b: int| 0 <= a < b < f.len() implies key_lt(
        #[trigger] f[a].0,
        #[trigger] f[b].0,
    ) by {
        assert(f[a].0 == e[a].0 && f[b].0 == e[b].0);
    }
    lemma_entries_map(e);
    lemma_entries_map(f);
    let m = entries_map(e).insert(k, v);
    assert forall|key: Seq<char>| #[trigger] entries_map(f).contains_key(key) <==> m.contains_key(
        key,
    ) by {
        if entries_map(f).contains_key(key) {
            let a = choose|a: int| 0 <= a < f.len() && f[a].0 == key;
            assert(e[a].0 == key);
            assert(entries_map(e).contains_key(e[a].0));
        }
        if m.contains_key(key) && key != k {
            let a = choose|a: int| 0 <= a < e.len() && e[a].0 == key;
            assert(f[a].0 == key);
            assert(entries_map(f).contains_key(f[a].0));
        }
        if key == k {
            assert(f[i].0 == k);
            assert(entries_map(f).contains_key(f[i].0));
        }
    }
    assert forall|key: Seq<char>| #[trigger] entries_map(f).contains_key(key) implies entries_map(
        f,
    )[key] == m[key] by {
        let a = choose|a: int| 0 <= a < f.len() && f[a].0 == key;
        assert(entries_map(f)[f[a].0] == f[a].1);
        if a != i {
            assert(f[a] == e[a]);
            if a < i {
                assert(key_lt(e[a].0, e[i].0));
                lemma_key_lt_distinct(e[a].0, e[i].0);
            } else {
                assert(key_lt(e[i].0, e[a].0));
                lemma_key_lt_distinct(e[i].0, e[a].0);
            }
            assert(entries_map(e)[e[a].0] == e[a].1);
        }
    }
    assert(entries_map(f) =~= m);
}

proof fn lemma_key_lt_skip(a: Seq<char>, b: Seq<char>, i: int)
    requires
        0 <= i < a.len(),
        i < b.len(),
        a[i] == b[i],
    ensures
        key_lt(a.skip(i), b.skip(i)) == key_lt(a.skip(i + 1), b.skip(i + 1)),
{
    assert(a.skip(i).drop_first() =~= a.skip(i + 1));
    assert(b.skip(i).drop_first() =~= b.skip(i + 1));
}

/// Whether `a` comes before `b` in key order.
fn key_less(a: &Vec<char>, b: &Vec<char>) -> (r: bool)
    ensures
        r == key_lt(a@, b@),
{
    let mut i: usize = 0;
    assert(a@.skip(0) =~= a@);
    assert(b@.skip(0) =~= b@);
    while i < a.len() && i < b.len()
        invariant
            i <= a.len(),
            i <= b.len(),
            key_lt(a@, b@) == key_lt(a@.skip(i as int), b@.skip(i as int)),
        decreases a.len() - i,
    {
        let ca = a[i];
        let cb = b[i];
        if ca != cb {
            assert(a@.skip(i as int)[0] == ca);
            assert(b@.skip(i as int)[0] == cb);
            return ca < cb;
        }
        proof {
            lemma_key_lt_skip(a@, b@, i as int);
        }
        i += 1;
    }
    i == a.len() && i < b.len()
}

/// The attributes of an element, keyed by name. Names are kept in
/// increasing order, and each occurs once.
#[derive(Debug, PartialEq)]
pub struct Attributes {
    entries: Vec<(String, String)>,
}

impl Attributes {
    /// The stored entries as character sequences.
    closed spec fn stored(&self) -> Seq<(Seq<char>, Seq<char>)> {
        self.entries@.map_values(|p: (String, String)| (p.0@, p.1@))
    }

    /// The entries as character sequences, in increasing order of their names.
    /// (Every value that a program holds keeps its entries so; the empty
    /// sequence stands for a value of another shape, which only proof code
    /// can name.)
    pub closed spec fn entries_view(&self) -> Seq<(Seq<char>, Seq<char>)> {
        if sorted_keys(self.stored()) {
            self.stored()
        } else {
            Seq::empty()
        }
    }

    #[verifier::type_invariant]
    closed spec fn keys_increase(&self) -> bool {
        sorted_keys(self.stored())
    }

    /// No attributes.
    pub fn new() -> (r: Self)
        ensures
            r@ == Map::<Seq<char>, Seq<char>>::empty(),
            r.entries_view() == Seq::<(Seq<char>, Seq<char>)>::empty(),
    {
        let r = Attributes { entries: Vec::new() };
        assert(r.stored() =~= Seq::<(Seq<char>, Seq<char>)>::empty());
        r
    }

    /// Sets `key` to `value`, replacing the value it had.
    pub fn insert(&mut self, key: String, value: String)
        ensures
            final(self)@ == old(self)@.insert(key@, value@),
    {
        proof {
            use_type_invariant(&*self);
        }
        let ghost k = key@;
        let ghost v = value@;
        let kv = chars_of(key.as_str());
        let mut entries: Vec<(String, String)> = Vec::new();
        std::mem::swap(&mut entries, &mut self.entries);
        let ghost e = entries@.map_values(|p: (String, String)| (p.0@, p.1@));
        let mut i: usize = 0;
        let mut found = false;
        while i < entries.len()
            invariant_except_break
                !found,
                kv@ == k,
                e == entries@.map_values(|p: (String, String)| (p.0@, p.1@)),
                e.len() == entries.len(),
                i <= entries.len(),
                forall|j: int| 0 <= j < i ==> key_lt(#[trigger] e[j].0, k),
            ensures
                e == entries@.map_values(|p: (String, String)| (p.0@, p.1@)),
                e.len() == entries.len(),
                i <= entries.len(),
                forall|j: int| 0 <= j < i ==> key_lt(#[trigger] e[j].0, k),
                found ==> i < entries.len() && e[i as int].0 == k,
                !found ==> (i < entries.len() ==> key_lt(k, e[i as int].0)),
            decreases entries.len() - i,
        {
            let ev = chars_of(entries[i].0.as_str());
            assert(ev@ == e[i as int].0);
            if key_less(&ev, &kv) {
                i += 1;
            } else {
                found = chars_eq(&ev, &kv);
                proof {
                    lemma_key_lt_total(e[i as int].0, k);
                }
                break;
            }
        }
        if found {
            entries.set(i, (key, value));
            proof {
                lemma_update_at(e, i as int, k, v);
                assert(entries@.map_values(|p: (String, String)| (p.0@, p.1@)) =~= e.update(
                    i as int,
                    (k, v),
                ));
            }
        } else {
            entries.insert(i, (key, value));
            proof {
                lemma_insert_at(e, i as int, k, v);
                assert(entries@.map_values(|p: (String, String)| (p.0@, p.1@)) =~= e.insert(
                    i as int,
                    (k, v),
                ));
            }
        }
        self.entries = entries;
    }

    /// The value set for `k`, if any.
    pub open spec fn value_of(&self, k: Seq<char>) -> Option<Seq<char>> {
        if self@.contains_key(k) {
            Some(self@[k])
        } else {
            None
        }
    }

    /// The value of `key`, if it is set.
    pub fn get(&self, key: &str) -> (r: Option<&String>)
        ensures
            self.value_of(key@) == (match r {
                Some(v) => Some(v@),
                None => None::<Seq<char>>,
            }),
            match r {
                Some(v) => self@.contains_key(key@) && self@[key@] == v@,
                None => !self@.contains_key(key@),
            },
    {
        proof {
            use_type_invariant(self);
            lemma_entries_map(self.entries_view());
        }
        let kv = chars_of(key);
        let mut i: usize = 0;
        while i < self.entries.len()
            invariant
                i <= self.entries.len(),
                sorted_keys(self.stored()),
                self.entries_view() == self.stored(),
                kv@ == key@,
                forall|j: int| 0 <= j < i ==> (#[trigger] self.entries_view()[j]).0 != key@,
            decreases self.entries.len() - i,
        {
            let ev = chars_of(self.entries[i].0.as_str());
            assert(self.entries_view()[i as int].0 == ev@);
            if chars_eq(&ev, &kv) {
                proof {
                    lemma_entries_map(self.entries_view());
                }
                return Some(&self.entries[i].1);
            }
            i += 1;
        }
        proof {
            lemma_entries_map(self.entries_view());
            if self@.contains_key(key@) {
                let a = choose|a: int|
                    0 <= a < self.entries_view().len() && self.entries_view()[a].0 == key@;
                assert(self.entries_view()[a].0 != key@);
            }
        }
        None
    }

    /// The number of attributes; the stored entries have increasing keys.
    pub fn len(&self) -> (n: usize)
        ensures
            n == self.entries_view().len(),
            sorted_keys(self.entries_view()),
    {
        proof {
            use_type_invariant(self);
        }
        self.entries.len()
    }

    /// The `i`-th entry in key order.
    pub fn entry(&self, i: usize) -> (r: (&String, &String))
        requires
            i < self.entries_view().len(),
        ensures
            (r.0@, r.1@) == self.entries_view()[i as int],
    {
        proof {
            use_type_invariant(self);
        }
        let p = &self.entries[i];
        (&p.0, &p.1)
    }
}

impl Clone for Attributes {
    fn clone(&self) -> (r: Self)
        ensures
            r.entries_view() == self.entries_view(),
    {
        proof {
            use_type_invariant(self);
        }
        let mut entries: Vec<(String, String)> = Vec::new();
        let mut i: usize = 0;
        while i < self.entries.len()
            invariant
                i <= self.entries.len(),
                entries.len() == i,
                sorted_keys(self.stored()),
                self.entries_view() == self.stored(),
                entries@.map_values(|p: (String, String)| (p.0@, p.1@)) == self.entries_view().take(
                    i as int,
                ),
            decreases self.entries.len() - i,
        {
            let pair = &self.entries[i];
            let name = pair.0.clone();
            let value = pair.1.clone();
            assert(self.entries_view()[i as int] == (name@, value@));
            let ghost prev = entries@;
            entries.push((name, value));
            proof {
                let ghost m = entries@.map_values(|p: (String, String)| (p.0@, p.1@));
                let ghost t = self.entries_view().take(i + 1);
                assert forall|j: int| 0 <= j < i + 1 implies m[j] == t[j] by {
                    if j < i {
                        assert(entries@[j] == prev[j]);
                        assert(prev.map_values(|p: (String, String)| (p.0@, p.1@))[j] == m[j]);
                    }
                }
                assert(m =~= t);
            }
            i += 1;
        }
        assert(self.entries_view().take(i as int) =~= self.entries_view());
        Attributes { entries }
    }
}

impl View for Attributes {
    type V = Map<Seq<char>, Seq<char>>;

    open spec fn view(&self) -> Map<Seq<char>, Seq<char>> {
        entries_map(self.entries_view())
    }
}

/// Reading after a write: when `after` is what `insert(k, v)` left of
/// `before` (as `Attributes::insert` ensures), `get(k)` on `after` finds `v`,
/// and `get` of any other name finds on `after` what it found on `before`.
pub proof fn law_get_after_insert(
    before: Attributes,
    after: Attributes,
    k: Seq<char>,
    v: Seq<char>,
    other: Seq<char>,
)
    requires
        after@ == before@.insert(k, v),
    ensures
        after.value_of(k) == Some(v),
        other != k ==> after.value_of(other) == before.value_of(other),
{
}

/// Every value of `Attributes` lists its entries in strictly increasing order
/// of their names, and its map holds exactly those names, each with the value
/// of its entry.
pub proof fn law_keys_increase(a: Attributes)
    ensures
        sorted_keys(a.entries_view()),
        forall|i: int|
            0 <= i < a.entries_view().len() ==> a@.contains_key(#[trigger] a.entries_view()[i].0)
                && a@[a.entries_view()[i].0] == a.entries_view()[i].1,
        forall|k: Seq<char>|
            #[trigger] a@.contains_key(k) ==> exists|i: int|
                0 <= i < a.entries_view().len() && a.entries_view()[i].0 == k,
{
    assert(sorted_keys(a.entries_view()));
    lemma_entries_map(a.entries_view());
}

} // verus!
