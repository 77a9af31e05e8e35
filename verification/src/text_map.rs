//! A map from text to values that lists its keys in order.

use crate::order;
use crate::order::{code_points_of, word_before};
use crate::text;
use crate::text::{chars_of, copy_texts, same_text};
use vstd::prelude::*;

verus! {

/// One text comes before another: by their characters, one by one.
pub open spec fn text_before(a: Seq<char>, b: Seq<char>) -> bool {
    order::word_less(order::code_points(a), order::code_points(b))
}

/// Texts in order, none twice.
pub open spec fn ascending(keys: Seq<Seq<char>>) -> bool {
    forall|i: int, j: int|
        0 <= i < j < keys.len() ==> text_before(#[trigger] keys[i], #[trigger] keys[j])
}

/// `keys` and `values` list the map in the order of the keys.
pub open spec fn lists<V>(m: Map<Seq<char>, V>, keys: Seq<Seq<char>>, values: Seq<V>) -> bool {
    &&& keys.len() == values.len()
    &&& ascending(keys)
    &&& forall|k: Seq<char>| #[trigger] m.contains_key(k) <==> keys.contains(k)
    &&& forall|i: int| 0 <= i < keys.len() ==> m[#[trigger] keys[i]] == values[i]
}

pub fn comes_before(a: &str, b: &str) -> (r: bool)
    ensures
        r == text_before(a@, b@),
{
    word_before(&code_points_of(&chars_of(a)), &code_points_of(&chars_of(b)))
}

/// A map from text to values, kept in the order of the keys.
#[derive(Debug)]
pub struct TextMap<V> {
    keys: Vec<String>,
    values: Vec<V>,
}

impl<V> View for TextMap<V> {
    type V = Map<Seq<char>, V>;

    closed spec fn view(&self) -> Map<Seq<char>, V> {
        Map::new(
            |k: Seq<char>| text::texts(self.keys@).contains(k),
            |k: Seq<char>| self.values@[text::texts(self.keys@).index_of(k)],
        )
    }
}

impl<V> TextMap<V> {
    pub closed spec fn well_formed(self) -> bool {
        &&& self.keys@.len() == self.values@.len()
        &&& ascending(text::texts(self.keys@))
    }

    proof fn holds_values(&self)
        requires
            self.well_formed(),
        ensures
            lists(self@, text::texts(self.keys@), self.values@),
    {
        let keys = text::texts(self.keys@);
        assert forall|i: int| 0 <= i < keys.len() implies self@[#[trigger] keys[i]]
            == self.values@[i] by {
            assert(keys.contains(keys[i]));
            let j = keys.index_of(keys[i]);
            assert(0 <= j < keys.len() && keys[j] == keys[i]);
            order::word_less_is_strict(
                order::code_points(keys[i]),
                order::code_points(keys[i]),
                order::code_points(keys[i]),
            );
            assert(i == j);
        }
    }

    pub fn new() -> (r: Self)
        ensures
            r.well_formed(),
            r@ == Map::<Seq<char>, V>::empty(),
    {
        let r: Self = TextMap { keys: Vec::new(), values: Vec::new() };
        assert(text::texts(r.keys@) =~= Seq::empty());
        assert(r@ =~= Map::empty());
        r
    }

    /// The place of the first key that does not come before `key`.
    fn place(&self, key: &str) -> (r: usize)
        requires
            self.well_formed(),
        ensures
            r <= self.keys@.len(),
            forall|i: int| 0 <= i < r ==> text_before(#[trigger] text::texts(self.keys@)[i], key@),
            r < self.keys@.len() ==> !text_before(text::texts(self.keys@)[r as int], key@),
    {
        let mut at: usize = 0;
        while at < self.keys.len() && comes_before(self.keys[at].as_str(), key)
            invariant
                at <= self.keys@.len(),
                forall|i: int|
                    0 <= i < at ==> text_before(#[trigger] text::texts(self.keys@)[i], key@),
            decreases self.keys@.len() - at,
        {
            assert(text::texts(self.keys@)[at as int] == self.keys@[at as int]@);
            at += 1;
        }
        if at < self.keys.len() {
            assert(text::texts(self.keys@)[at as int] == self.keys@[at as int]@);
        }
        at
    }

    /// Whether the key at `at` is `key`.
    fn is_at(&self, at: usize, key: &str) -> (r: bool)
        ensures
            r == (at < self.keys@.len() && text::texts(self.keys@)[at as int] == key@),
    {
        at < self.keys.len() && same_text(self.keys[at].as_str(), key)
    }

    /// A key is known only where its place is.
    proof fn key_is_at_place(&self, key: Seq<char>, at: int)
        requires
            self.well_formed(),
            0 <= at <= self.keys@.len(),
            forall|i: int| 0 <= i < at ==> text_before(#[trigger] text::texts(self.keys@)[i], key),
            at < self.keys@.len() ==> !text_before(text::texts(self.keys@)[at], key),
        ensures
            self@.contains_key(key) <==> (at < self.keys@.len() && text::texts(self.keys@)[at]
                == key),
            forall|j: int|
                at <= j < self.keys@.len() && text::texts(self.keys@)[at] != key ==> text_before(
                    key,
                    #[trigger] text::texts(self.keys@)[j],
                ),
    {
        let keys = text::texts(self.keys@);
        if at < keys.len() {
            order::word_less_is_strict(
                order::code_points(keys[at]),
                order::code_points(key),
                order::code_points(key),
            );
            order::code_points_are_unique(keys[at], key);
        }
        assert forall|j: int| at <= j < keys.len() && keys[at] != key implies text_before(
            key,
            #[trigger] keys[j],
        ) by {
            if j > at {
                assert(text_before(keys[at], keys[j]));
                order::word_less_is_strict(
                    order::code_points(key),
                    order::code_points(keys[at]),
                    order::code_points(keys[j]),
                );
            }
        }
        if keys.contains(key) {
            let i = keys.index_of(key);
            assert(keys[i] == key);
            order::word_less_is_strict(
                order::code_points(key),
                order::code_points(key),
                order::code_points(key),
            );
            if i < at {
                assert(text_before(keys[i], key));
            }
            if i > at {
                assert(text_before(keys[at], keys[i]));
            }
        }
    }

    pub fn contains(&self, key: &str) -> (r: bool)
        requires
            self.well_formed(),
        ensures
            r == self@.contains_key(key@),
    {
        let at: usize = self.place(key);
        proof {
            self.key_is_at_place(key@, at as int);
        }
        self.is_at(at, key)
    }

    pub fn get(&self, key: &str) -> (r: Option<&V>)
        requires
            self.well_formed(),
        ensures
            match r {
                Some(v) => self@.contains_key(key@) && *v == self@[key@],
                None => !self@.contains_key(key@),
            },
    {
        let at: usize = self.place(key);
        proof {
            self.key_is_at_place(key@, at as int);
            self.holds_values();
        }
        if self.is_at(at, key) {
            Some(&self.values[at])
        } else {
            None
        }
    }

    /// Sets the value of a key.
    pub fn insert(&mut self, key: String, value: V)
        requires
            old(self).well_formed(),
        ensures
            final(self).well_formed(),
            final(self)@ == old(self)@.insert(key@, value),
    {
        let at: usize = self.place(key.as_str());
        let ghost before = *self;
        let ghost keys = text::texts(before.keys@);
        proof {
            self.key_is_at_place(key@, at as int);
            self.holds_values();
        }
        if self.is_at(at, key.as_str()) {
            self.values.set(at, value);
            proof {
                self.holds_values();
                assert(keys[at as int] == key@);
                assert forall|k: Seq<char>| self@.contains_key(k) implies #[trigger] self@[k]
                    == before@.insert(key@, value)[k] by {
                    let i = keys.index_of(k);
                    assert(keys[i] == k);
                    if k != key@ {
                        assert(i != at);
                        assert(before@[keys[i]] == before.values@[i]);
                    }
                    assert(self@[keys[i]] == self.values@[i]);
                }
                assert(self@ =~= before@.insert(key@, value));
            }
        } else {
            self.keys.insert(at, key);
            self.values.insert(at, value);
            proof {
                let now = text::texts(self.keys@);
                assert(now =~= keys.insert(at as int, key@));
                assert forall|i: int, j: int| 0 <= i < j < now.len() implies text_before(
                    #[trigger] now[i],
                    #[trigger] now[j],
                ) by {
                    let a = if i < at {
                        i
                    } else {
                        i - 1
                    };
                    let b = if j < at {
                        j
                    } else {
                        j - 1
                    };
                    if i != at {
                        assert(now[i] == keys[a]);
                    }
                    if j != at {
                        assert(now[j] == keys[b]);
                    }
                }
                self.holds_values();
                assert forall|k: Seq<char>| #[trigger] self@.contains_key(k) <==> before@.insert(
                    key@,
                    value,
                ).contains_key(k) by {
                    if keys.contains(k) {
                        let i = keys.index_of(k);
                        assert(now[if i < at {
                            i
                        } else {
                            i + 1
                        }] == k);
                    }
                    if now.contains(k) && k != key@ {
                        let i = now.index_of(k);
                        assert(now[i] == k);
                        assert(i != at);
                        assert(keys[if i < at {
                            i
                        } else {
                            i - 1
                        }] == k);
                    }
                    assert(now[at as int] == key@);
                }
                assert forall|k: Seq<char>| self@.contains_key(k) implies #[trigger] self@[k]
                    == before@.insert(key@, value)[k] by {
                    let i = now.index_of(k);
                    assert(now[i] == k);
                    assert(self@[now[i]] == self.values@[i]);
                    if i < at {
                        assert(now[i] == keys[i]);
                        assert(text_before(keys[i], key@));
                        order::word_less_is_strict(
                            order::code_points(key@),
                            order::code_points(key@),
                            order::code_points(key@),
                        );
                    } else if i > at {
                        assert(now[i] == keys[i - 1]);
                        assert(text_before(key@, keys[i - 1]));
                        order::word_less_is_strict(
                            order::code_points(key@),
                            order::code_points(key@),
                            order::code_points(key@),
                        );
                    }
                }
                assert(self@ =~= before@.insert(key@, value));
            }
        }
    }

    /// Forgets a key.
    pub fn remove(&mut self, key: &str) -> (r: Option<V>)
        requires
            old(self).well_formed(),
        ensures
            final(self).well_formed(),
            final(self)@ == old(self)@.remove(key@),
            match r {
                Some(v) => old(self)@.contains_key(key@) && v == old(self)@[key@],
                None => !old(self)@.contains_key(key@),
            },
    {
        let at: usize = self.place(key);
        let ghost before = *self;
        let ghost keys = text::texts(before.keys@);
        proof {
            self.key_is_at_place(key@, at as int);
            self.holds_values();
        }
        if self.is_at(at, key) {
            self.keys.remove(at);
            let value = self.values.remove(at);
            proof {
                let now = text::texts(self.keys@);
                assert(now =~= keys.remove(at as int));
                assert forall|i: int, j: int| 0 <= i < j < now.len() implies text_before(
                    #[trigger] now[i],
                    #[trigger] now[j],
                ) by {
                    let a = if i < at {
                        i
                    } else {
                        i + 1
                    };
                    let b = if j < at {
                        j
                    } else {
                        j + 1
                    };
                    assert(now[i] == keys[a]);
                    assert(now[j] == keys[b]);
                }
                self.holds_values();
                order::word_less_is_strict(
                    order::code_points(key@),
                    order::code_points(key@),
                    order::code_points(key@),
                );
                assert forall|k: Seq<char>| #[trigger] self@.contains_key(k) <==> before@.remove(
                    key@,
                ).contains_key(k) by {
                    if keys.contains(k) && k != key@ {
                        let i = keys.index_of(k);
                        assert(keys[i] == k);
                        assert(now[if i < at {
                            i
                        } else {
                            i - 1
                        }] == k);
                    }
                    if now.contains(k) {
                        let i = now.index_of(k);
                        assert(now[i] == k);
                        let a = if i < at {
                            i
                        } else {
                            i + 1
                        };
                        assert(keys[a] == k);
                        if i < at {
                            assert(text_before(keys[a], key@));
                        } else {
                            assert(text_before(keys[at as int], keys[a]));
                        }
                    }
                }
                assert forall|k: Seq<char>| self@.contains_key(k) implies #[trigger] self@[k]
                    == before@.remove(key@)[k] by {
                    let i = now.index_of(k);
                    assert(now[i] == k);
                    assert(self@[now[i]] == self.values@[i]);
                    let a = if i < at {
                        i
                    } else {
                        i + 1
                    };
                    assert(keys[a] == k);
                    assert(before@[keys[a]] == before.values@[a]);
                }
                assert(self@ =~= before@.remove(key@));
            }
            Some(value)
        } else {
            assert(self@.remove(key@) =~= self@);
            None
        }
    }

    pub fn len(&self) -> (r: usize)
        requires
            self.well_formed(),
        ensures
            forall|keys: Seq<Seq<char>>, values: Seq<V>|
                #[trigger] lists(self@, keys, values) ==> keys.len() == r,
    {
        proof {
            self.holds_values();
            assert forall|keys: Seq<Seq<char>>, values: Seq<V>| #[trigger]
                lists(self@, keys, values) implies keys.len() == self.keys@.len() by {
                listed_once(self@, keys, values, text::texts(self.keys@), self.values@);
            }
        }
        self.keys.len()
    }

    /// The keys in order.
    pub fn keys(&self) -> (r: Vec<String>)
        requires
            self.well_formed(),
        ensures
            ascending(text::texts(r@)),
            forall|k: Seq<char>| #[trigger]
                self@.contains_key(k) <==> text::texts(r@).contains(k),
    {
        proof {
            self.holds_values();
        }
        copy_texts(&self.keys)
    }

    /// The values in the order of their keys.
    pub fn into_values(self) -> (r: Vec<V>)
        requires
            self.well_formed(),
        ensures
            exists|keys: Seq<Seq<char>>| #[trigger] lists(self@, keys, r@),
    {
        proof {
            self.holds_values();
        }
        self.values
    }
}

/// A map is listed in one way only.
pub proof fn listed_once<V>(
    m: Map<Seq<char>, V>,
    keys: Seq<Seq<char>>,
    values: Seq<V>,
    other_keys: Seq<Seq<char>>,
    other_values: Seq<V>,
)
    requires
        lists(m, keys, values),
        lists(m, other_keys, other_values),
    ensures
        keys == other_keys,
        values == other_values,
{
    assert forall|k: Seq<char>| keys.contains(k) <==> other_keys.contains(k) by {
        assert(m.contains_key(k) <==> keys.contains(k));
    }
    same_members_same_order(keys, other_keys);
    assert forall|i: int| 0 <= i < keys.len() implies values[i] == other_values[i] by {
        assert(m[keys[i]] == values[i]);
        assert(m[other_keys[i]] == other_values[i]);
    }
    assert(values =~= other_values);
}

/// Ascending texts are known by their members.
pub proof fn same_members_same_order(a: Seq<Seq<char>>, b: Seq<Seq<char>>)
    requires
        ascending(a),
        ascending(b),
        forall|k: Seq<char>| a.contains(k) <==> b.contains(k),
    ensures
        a == b,
    decreases a.len(),
{
    if a.len() == 0 {
        if b.len() > 0 {
            assert(b.contains(b[0]));
        }
        assert(a =~= b);
    } else {
        assert(a.contains(a[0]));
        assert(b.contains(a[0]));
        last_is_shared(a, b);
        let x = a.drop_last();
        let y = b.drop_last();
        assert forall|k: Seq<char>| x.contains(k) <==> y.contains(k) by {
            last_is_new(a, k);
            last_is_new(b, k);
        }
        assert forall|i: int, j: int| 0 <= i < j < x.len() implies text_before(
            #[trigger] x[i],
            #[trigger] x[j],
        ) by {
            assert(text_before(a[i], a[j]));
        }
        assert forall|i: int, j: int| 0 <= i < j < y.len() implies text_before(
            #[trigger] y[i],
            #[trigger] y[j],
        ) by {
            assert(text_before(b[i], b[j]));
        }
        same_members_same_order(x, y);
        assert(a =~= x.push(a.last()));
        assert(b =~= y.push(b.last()));
    }
}

proof fn last_is_shared(a: Seq<Seq<char>>, b: Seq<Seq<char>>)
    requires
        ascending(a),
        ascending(b),
        a.len() > 0,
        b.len() > 0,
        forall|k: Seq<char>| a.contains(k) <==> b.contains(k),
    ensures
        a.last() == b.last(),
{
    assert(a.contains(a.last()));
    assert(b.contains(b.last()));
    let i = b.index_of(a.last());
    let j = a.index_of(b.last());
    assert(b[i] == a.last() && a[j] == b.last());
    if i < b.len() - 1 && j < a.len() - 1 {
        assert(text_before(b[i], b[b.len() - 1]));
        assert(text_before(a[j], a[a.len() - 1]));
        order::word_less_is_strict(
            order::code_points(a.last()),
            order::code_points(b.last()),
            order::code_points(a.last()),
        );
    }
}

proof fn last_is_new(a: Seq<Seq<char>>, k: Seq<char>)
    requires
        ascending(a),
        a.len() > 0,
    ensures
        a.drop_last().contains(k) <==> a.contains(k) && k != a.last(),
{
    let x = a.drop_last();
    if x.contains(k) {
        let i = x.index_of(k);
        assert(x[i] == k && a[i] == k);
        assert(text_before(a[i], a[a.len() - 1]));
        order::word_less_is_strict(
            order::code_points(k),
            order::code_points(k),
            order::code_points(k),
        );
    }
    if a.contains(k) && k != a.last() {
        let i = a.index_of(k);
        assert(a[i] == k);
        assert(x[i] == k);
    }
}

/// Texts are in order by the first character in which they differ; a text
/// comes before those that begin with it.
pub proof fn first_differing_character_decides(a: Seq<char>, b: Seq<char>, k: int)
    requires
        0 <= k <= a.len(),
        k < b.len(),
        a.take(k) == b.take(k),
        k == a.len() || a[k] < b[k],
    ensures
        text_before(a, b),
        !text_before(b, a),
{
    let x = order::code_points(a);
    let y = order::code_points(b);
    assert(x.take(k) =~= order::code_points(a.take(k)));
    assert(y.take(k) =~= order::code_points(b.take(k)));
    if k < a.len() {
        text::character_has_a_number(a[k]);
        text::character_has_a_number(b[k]);
        assert(x[k] == a[k] as u64 && y[k] == b[k] as u64);
    }
    order::first_difference_decides(x, y, k);
}

} // verus!
