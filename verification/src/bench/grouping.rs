//! Rows grouped by a key, the groups in the order of their keys.
use crate::bench::canonical::{
    lemma_text_le_total, lemma_text_le_transitive, text_at_most, text_le,
};
use crate::bench::fields::texts;
use crate::text::same_text;
use vstd::prelude::*;

verus! {

/// Whether the key `a` comes before `b` or equals it: by the first text, then by
/// the next, and so on.
pub open spec fn key_le(a: Seq<Seq<char>>, b: Seq<Seq<char>>) -> bool
    decreases a.len(),
{
    a.len() == 0 || (b.len() > 0 && if a[0] == b[0] {
        key_le(a.drop_first(), b.drop_first())
    } else {
        text_le(a[0], b[0])
    })
}

proof fn lemma_text_le_antisymmetric(a: Seq<char>, b: Seq<char>)
    requires
        text_le(a, b),
        text_le(b, a),
    ensures
        a == b,
    decreases a.len(),
{
    if a.len() > 0 && b.len() > 0 {
        assert(a[0] == b[0]);
        lemma_text_le_antisymmetric(a.drop_first(), b.drop_first());
        assert(a =~= seq![a[0]] + a.drop_first());
        assert(b =~= seq![b[0]] + b.drop_first());
    } else {
        assert(a =~= b);
    }
}

proof fn lemma_key_le_reflexive(a: Seq<Seq<char>>)
    ensures
        key_le(a, a),
    decreases a.len(),
{
    if a.len() > 0 {
        lemma_key_le_reflexive(a.drop_first());
    }
}

proof fn lemma_key_le_total(a: Seq<Seq<char>>, b: Seq<Seq<char>>)
    ensures
        key_le(a, b) || key_le(b, a),
    decreases a.len(),
{
    if a.len() > 0 && b.len() > 0 {
        if a[0] == b[0] {
            lemma_key_le_total(a.drop_first(), b.drop_first());
        } else {
            lemma_text_le_total(a[0], b[0]);
        }
    }
}

proof fn lemma_key_le_transitive(a: Seq<Seq<char>>, b: Seq<Seq<char>>, c: Seq<Seq<char>>)
    requires
        key_le(a, b),
        key_le(b, c),
    ensures
        key_le(a, c),
    decreases a.len(),
{
    if a.len() > 0 {
        if a[0] == b[0] && b[0] == c[0] {
            lemma_key_le_transitive(a.drop_first(), b.drop_first(), c.drop_first());
        } else if a[0] != b[0] && b[0] != c[0] {
            lemma_text_le_transitive(a[0], b[0], c[0]);
            if a[0] == c[0] {
                lemma_text_le_antisymmetric(a[0], b[0]);
            }
        }
    }
}

proof fn lemma_key_le_antisymmetric(a: Seq<Seq<char>>, b: Seq<Seq<char>>)
    requires
        key_le(a, b),
        key_le(b, a),
    ensures
        a == b,
    decreases a.len(),
{
    if a.len() > 0 && b.len() > 0 {
        if a[0] == b[0] {
            lemma_key_le_antisymmetric(a.drop_first(), b.drop_first());
            assert(a =~= seq![a[0]] + a.drop_first());
            assert(b =~= seq![b[0]] + b.drop_first());
        } else {
            lemma_text_le_antisymmetric(a[0], b[0]);
        }
    } else {
        assert(a =~= b);
    }
}

/// Whether the key `a` comes before `b` or equals it.
fn key_at_most(a: &Vec<String>, b: &Vec<String>) -> (r: bool)
    ensures
        r <==> key_le(texts(a@), texts(b@)),
{
    let ghost x = texts(a@);
    let ghost y = texts(b@);
    assert(x.skip(0) =~= x && y.skip(0) =~= y);
    let mut i: usize = 0;
    while i < a.len()
        invariant
            i <= a@.len(),
            i <= b@.len(),
            x == texts(a@),
            y == texts(b@),
            key_le(x, y) <==> key_le(x.skip(i as int), y.skip(i as int)),
        decreases a@.len() - i,
    {
        if i >= b.len() {
            return false;
        }
        assert(x.skip(i as int)[0] == a@[i as int]@);
        assert(y.skip(i as int)[0] == b@[i as int]@);
        if !same_text(a[i].as_str(), b[i].as_str()) {
            return text_at_most(a[i].as_str(), b[i].as_str());
        }
        assert(x.skip(i as int).drop_first() =~= x.skip(i + 1));
        assert(y.skip(i as int).drop_first() =~= y.skip(i + 1));
        i = i + 1;
    }
    true
}

/// Whether two keys are the same.
pub(crate) fn same_key(a: &Vec<String>, b: &Vec<String>) -> (r: bool)
    ensures
        r <==> texts(a@) == texts(b@),
{
    if a.len() != b.len() {
        assert(texts(a@).len() != texts(b@).len());
        return false;
    }
    let mut i: usize = 0;
    while i < a.len()
        invariant
            i <= a@.len(),
            a@.len() == b@.len(),
            forall|k: int| 0 <= k < i ==> (#[trigger] a@[k])@ == b@[k]@,
        decreases a@.len() - i,
    {
        if !same_text(a[i].as_str(), b[i].as_str()) {
            assert(texts(a@)[i as int] != texts(b@)[i as int]);
            return false;
        }
        i = i + 1;
    }
    assert(texts(a@) =~= texts(b@));
    true
}

/// The places below `n` of the rows with the key `key`, in order.
pub open spec fn places_of(keys: Seq<Seq<Seq<char>>>, n: int, key: Seq<Seq<char>>) -> Seq<int>
    decreases n,
{
    if n <= 0 {
        Seq::empty()
    } else if keys[n - 1] == key {
        places_of(keys, n - 1, key).push(n - 1)
    } else {
        places_of(keys, n - 1, key)
    }
}

/// The rows with one key.
#[derive(Debug)]
pub struct Group {
    pub key: Vec<String>,
    pub places: Vec<usize>,
}

/// What the keys of some rows say.
pub open spec fn keys_view(keys: Seq<Vec<String>>) -> Seq<Seq<Seq<char>>> {
    keys.map_values(|k: Vec<String>| texts(k@))
}

/// What the places of a group say.
pub open spec fn places_view(places: Seq<usize>) -> Seq<int> {
    places.map_values(|p: usize| p as int)
}

/// Whether `groups` are the groups of the first `n` rows: one for each key that
/// occurs, in the order of the keys, with the places of its rows.
pub open spec fn groups_of(groups: Seq<Group>, keys: Seq<Seq<Seq<char>>>, n: int) -> bool {
    &&& forall|g: int|
        0 <= g < groups.len() ==> places_view((#[trigger] groups[g]).places@) == places_of(
            keys,
            n,
            texts(groups[g].key@),
        )
    &&& forall|g: int| 0 <= g < groups.len() ==> (#[trigger] groups[g]).places@.len() > 0
    &&& forall|i: int|
        0 <= i < n ==> exists|g: int|
            0 <= g < groups.len() && texts((#[trigger] groups[g]).key@) == #[trigger] keys[i]
    &&& forall|g: int, h: int|
        0 <= g < h < groups.len() ==> key_le(
            texts((#[trigger] groups[g]).key@),
            texts((#[trigger] groups[h]).key@),
        ) && texts(groups[g].key@) != texts(groups[h].key@)
}

pub(crate) fn copy_key(key: &Vec<String>) -> (r: Vec<String>)
    ensures
        texts(r@) == texts(key@),
{
    let mut r: Vec<String> = Vec::new();
    let mut i: usize = 0;
    while i < key.len()
        invariant
            i <= key@.len(),
            r@.len() == i,
            forall|k: int| 0 <= k < i ==> (#[trigger] r@[k])@ == key@[k]@,
        decreases key@.len() - i,
    {
        r.push(key[i].clone());
        i = i + 1;
    }
    assert(texts(r@) =~= texts(key@));
    r
}

/// Without a group for its key, no earlier row has the key of the row at `n`.
proof fn lemma_no_places(keys: Seq<Seq<Seq<char>>>, n: int, key: Seq<Seq<char>>)
    requires
        forall|i: int| 0 <= i < n ==> #[trigger] keys[i] != key,
    ensures
        places_of(keys, n, key) == Seq::<int>::empty(),
    decreases n,
{
    if n > 0 {
        lemma_no_places(keys, n - 1, key);
        assert(keys[n - 1] != key);
    }
}

/// Add the row at `n` to the groups of the rows before it.
fn add_row(groups: &mut Vec<Group>, keys: &Vec<Vec<String>>, n: usize)
    requires
        n < keys@.len(),
        groups_of(old(groups)@, keys_view(keys@), n as int),
    ensures
        groups_of(final(groups)@, keys_view(keys@), n + 1),
{
    let ghost views = keys_view(keys@);
    let key = &keys[n];
    let ghost name = texts(key@);
    assert(views[n as int] == name);
    let ghost before = groups@;
    let mut k: usize = 0;
    while k < groups.len() && key_at_most(&groups[k].key, key)
        invariant
            k <= groups@.len(),
            groups@ == before,
            n < keys@.len(),
            views == keys_view(keys@),
            *key == keys@[n as int],
            name == texts(key@),
            views[n as int] == name,
            groups_of(before, views, n as int),
            forall|g: int| 0 <= g < k ==> key_le(texts((#[trigger] before[g]).key@), name),
            forall|g: int| 0 <= g < k ==> texts((#[trigger] before[g]).key@) != name,
        decreases groups@.len() - k,
    {
        if same_key(&groups[k].key, key) {
            groups[k].places.push(n);
            proof {
                let after = groups@;
                let old_places = places_view(before[k as int].places@);
                assert(places_view(after[k as int].places@) =~= old_places.push(n as int));
                assert forall|g: int| 0 <= g < after.len() implies places_view(
                    (#[trigger] after[g]).places@,
                ) == places_of(views, n + 1, texts(after[g].key@)) by {
                    if g != k {
                        assert(after[g] == before[g]);
                        assert(texts(before[g].key@) != texts(before[k as int].key@)) by {
                            if g < k {
                            } else {
                                assert(texts(before[k as int].key@) != texts(before[g].key@));
                            }
                        }
                    } else {
                        assert(after[g].key == before[g].key);
                    }
                }
                assert forall|i: int| 0 <= i < n + 1 implies exists|g: int|
                    0 <= g < after.len() && texts((#[trigger] after[g]).key@)
                        == #[trigger] views[i] by {
                    if i < n {
                        let g = choose|g: int|
                            0 <= g < before.len() && texts((#[trigger] before[g]).key@)
                                == views[i];
                        assert(after[g].key == before[g].key);
                    } else {
                        assert(texts(after[k as int].key@) == views[i]);
                    }
                }
                assert forall|g: int, h: int| 0 <= g < h < after.len() implies key_le(
                    texts((#[trigger] after[g]).key@),
                    texts((#[trigger] after[h]).key@),
                ) && texts(after[g].key@) != texts(after[h].key@) by {
                    assert(after[g].key == before[g].key && after[h].key == before[h].key);
                }
            }
            return;
        }
        k = k + 1;
    }
    let mut places: Vec<usize> = Vec::new();
    places.push(n);
    let group = Group { key: copy_key(key), places };
    let ghost added = group;
    proof {
        if k < before.len() {
            lemma_key_le_total(name, texts(before[k as int].key@));
        }
        assert forall|g: int| k <= g < before.len() implies key_le(
            name,
            texts((#[trigger] before[g]).key@),
        ) && texts(before[g].key@) != name by {
            if g > k {
                lemma_key_le_transitive(
                    name,
                    texts(before[k as int].key@),
                    texts(before[g].key@),
                );
                if texts(before[g].key@) == name {
                    assert(key_le(texts(before[k as int].key@), name));
                }
            } else {
                if texts(before[g].key@) == name {
                    lemma_key_le_reflexive(name);
                }
            }
        }
        assert forall|i: int| 0 <= i < n implies #[trigger] views[i] != name by {
            let g = choose|g: int|
                0 <= g < before.len() && texts((#[trigger] before[g]).key@) == views[i];
            if g < k {
                assert(texts(before[g].key@) != name);
            } else {
                assert(texts(before[g].key@) != name);
            }
        }
        lemma_no_places(views, n as int, name);
    }
    groups.insert(k, group);
    proof {
        let after = groups@;
        assert(after =~= before.insert(k as int, added));
        assert(places_view(added.places@) =~= seq![n as int]);
        assert(places_of(views, n + 1, name) =~= seq![n as int]);
        assert forall|g: int| 0 <= g < after.len() implies places_view((#[trigger] after[g]).places@)
            == places_of(views, n + 1, texts(after[g].key@)) && after[g].places@.len() > 0 by {
            if g < k {
                assert(after[g] == before[g]);
                assert(texts(before[g].key@) != name);
            } else if g > k {
                assert(after[g] == before[g - 1]);
                assert(texts(before[g - 1].key@) != name);
            }
        }
        assert forall|i: int| 0 <= i < n + 1 implies exists|g: int|
            0 <= g < after.len() && texts((#[trigger] after[g]).key@) == #[trigger] views[i] by {
            if i < n {
                let g = choose|g: int|
                    0 <= g < before.len() && texts((#[trigger] before[g]).key@) == views[i];
                if g < k {
                    assert(after[g] == before[g]);
                } else {
                    assert(after[g + 1] == before[g]);
                }
            } else {
                assert(texts(after[k as int].key@) == views[i]);
            }
        }
        assert forall|g: int, h: int| 0 <= g < h < after.len() implies key_le(
            texts((#[trigger] after[g]).key@),
            texts((#[trigger] after[h]).key@),
        ) && texts(after[g].key@) != texts(after[h].key@) by {
            let x = if g < k {
                g
            } else {
                g - 1
            };
            let y = if h < k {
                h
            } else {
                h - 1
            };
            if g != k {
                assert(after[g] == before[x]);
            }
            if h != k {
                assert(after[h] == before[y]);
            }
        }
    }
}

/// The rows grouped by their keys.
pub fn group_rows(keys: &Vec<Vec<String>>) -> (groups: Vec<Group>)
    ensures
        groups_of(groups@, keys_view(keys@), keys@.len() as int),
{
    let mut groups: Vec<Group> = Vec::new();
    let mut n: usize = 0;
    while n < keys.len()
        invariant
            n <= keys@.len(),
            groups_of(groups@, keys_view(keys@), n as int),
        decreases keys@.len() - n,
    {
        add_row(&mut groups, keys, n);
        n = n + 1;
    }
    groups
}

/// Each place of a group is that of a row with its key.
pub proof fn lemma_places(keys: Seq<Seq<Seq<char>>>, n: int, key: Seq<Seq<char>>)
    requires
        0 <= n <= keys.len(),
    ensures
        places_of(keys, n, key).len() <= n,
        forall|i: int|
            0 <= i < places_of(keys, n, key).len() ==> 0 <= #[trigger] places_of(keys, n, key)[i]
                < n && keys[places_of(keys, n, key)[i]] == key,
    decreases n,
{
    if n > 0 {
        lemma_places(keys, n - 1, key);
    }
}

} // verus!
