//! Sequences read as maps: a sequence of items, each filed under a key that
//! no other item has, is the map from each key to what its item holds.
//! The hub and the registry of dispatched work both keep their entries
//! this way.

use vstd::prelude::*;

verus! {

/// Whether some item of `items` is filed under `key`.
pub open spec fn holds<T, I>(items: Seq<T>, key_of: spec_fn(T) -> I, key: I) -> bool {
    exists|i: int| 0 <= i < items.len() && key_of(#[trigger] items[i]) == key
}

/// A place in `items` of an item filed under `key`, where there is one.
pub open spec fn place<T, I>(items: Seq<T>, key_of: spec_fn(T) -> I, key: I) -> int {
    choose|i: int| 0 <= i < items.len() && key_of(#[trigger] items[i]) == key
}

/// Whether no two items of `items` are filed under one key.
pub open spec fn distinct<T, I>(items: Seq<T>, key_of: spec_fn(T) -> I) -> bool {
    forall|i: int, j: int|
        0 <= i < j < items.len() ==> key_of(#[trigger] items[i]) != key_of(#[trigger] items[j])
}

/// The map from each key that an item is filed under to what that item
/// holds.
pub open spec fn table<T, I, U>(
    items: Seq<T>,
    key_of: spec_fn(T) -> I,
    value_of: spec_fn(T) -> U,
) -> Map<I, U> {
    Map::new(
        |key: I| holds(items, key_of, key),
        |key: I| value_of(items[place(items, key_of, key)]),
    )
}

/// Under the key of an item stands what that item holds, and the item is
/// found at its own place.
pub proof fn lemma_at<T, I, U>(
    items: Seq<T>,
    key_of: spec_fn(T) -> I,
    value_of: spec_fn(T) -> U,
    i: int,
)
    requires
        distinct(items, key_of),
        0 <= i < items.len(),
    ensures
        holds(items, key_of, key_of(items[i])),
        place(items, key_of, key_of(items[i])) == i,
        table(items, key_of, value_of)[key_of(items[i])] == value_of(items[i]),
{
    let key = key_of(items[i]);
    assert(holds(items, key_of, key));
    let j = place(items, key_of, key);
    assert(0 <= j < items.len() && key_of(items[j]) == key);
    if j < i {
        assert(key_of(items[j]) != key_of(items[i]));
    } else if i < j {
        assert(key_of(items[i]) != key_of(items[j]));
    }
}

/// Replacing an item by one filed under the same key replaces what stands
/// under that key and nothing else.
pub proof fn lemma_update<T, I, U>(
    items: Seq<T>,
    key_of: spec_fn(T) -> I,
    value_of: spec_fn(T) -> U,
    i: int,
    item: T,
)
    requires
        distinct(items, key_of),
        0 <= i < items.len(),
        key_of(item) == key_of(items[i]),
    ensures
        distinct(items.update(i, item), key_of),
        table(items.update(i, item), key_of, value_of) == table(items, key_of, value_of).insert(
            key_of(item),
            value_of(item),
        ),
{
    let after = items.update(i, item);
    assert(distinct(after, key_of)) by {
        assert forall|a: int, b: int| 0 <= a < b < after.len() implies key_of(
            #[trigger] after[a],
        ) != key_of(#[trigger] after[b]) by {
            assert(key_of(items[a]) != key_of(items[b]));
        }
    }
    assert forall|key: I|
        holds(after, key_of, key) == (holds(items, key_of, key) || key == key_of(item)) by {
        if holds(after, key_of, key) {
            let j = place(after, key_of, key);
            assert(key_of(items[j]) == key);
        }
        if holds(items, key_of, key) {
            let j = place(items, key_of, key);
            assert(key_of(after[j]) == key);
        }
        if key == key_of(item) {
            assert(key_of(after[i]) == key);
        }
    }
    assert forall|key: I| holds(after, key_of, key) implies #[trigger] table(
        after,
        key_of,
        value_of,
    )[key] == table(items, key_of, value_of).insert(key_of(item), value_of(item))[key] by {
        let j = place(after, key_of, key);
        lemma_at(after, key_of, value_of, j);
        if j != i {
            assert(key_of(items[j]) == key);
            lemma_at(items, key_of, value_of, j);
            assert(key_of(items[j]) != key_of(items[i])) by {
                if j < i {
                    assert(key_of(items[j]) != key_of(items[i]));
                } else {
                    assert(key_of(items[i]) != key_of(items[j]));
                }
            }
        }
    }
    assert(table(after, key_of, value_of) =~= table(items, key_of, value_of).insert(
        key_of(item),
        value_of(item),
    ));
}

/// Adding an item under a key that no item has adds what it holds under
/// that key and changes nothing else.
pub proof fn lemma_push<T, I, U>(
    items: Seq<T>,
    key_of: spec_fn(T) -> I,
    value_of: spec_fn(T) -> U,
    item: T,
)
    requires
        distinct(items, key_of),
        !holds(items, key_of, key_of(item)),
    ensures
        distinct(items.push(item), key_of),
        table(items.push(item), key_of, value_of) == table(items, key_of, value_of).insert(
            key_of(item),
            value_of(item),
        ),
{
    let after = items.push(item);
    let n = items.len() as int;
    assert(distinct(after, key_of)) by {
        assert forall|a: int, b: int| 0 <= a < b < after.len() implies key_of(
            #[trigger] after[a],
        ) != key_of(#[trigger] after[b]) by {
            if b < n {
                assert(key_of(items[a]) != key_of(items[b]));
            } else {
                assert(key_of(items[a]) != key_of(item));
            }
        }
    }
    assert forall|key: I|
        holds(after, key_of, key) == (holds(items, key_of, key) || key == key_of(item)) by {
        if holds(after, key_of, key) {
            let j = place(after, key_of, key);
            if j < n {
                assert(key_of(items[j]) == key);
            }
        }
        if holds(items, key_of, key) {
            let j = place(items, key_of, key);
            assert(key_of(after[j]) == key);
        }
        if key == key_of(item) {
            assert(key_of(after[n]) == key);
        }
    }
    assert forall|key: I| holds(after, key_of, key) implies #[trigger] table(
        after,
        key_of,
        value_of,
    )[key] == table(items, key_of, value_of).insert(key_of(item), value_of(item))[key] by {
        let j = place(after, key_of, key);
        lemma_at(after, key_of, value_of, j);
        if j < n {
            assert(key_of(items[j]) == key);
            lemma_at(items, key_of, value_of, j);
        }
    }
    assert(table(after, key_of, value_of) =~= table(items, key_of, value_of).insert(
        key_of(item),
        value_of(item),
    ));
}

/// Taking an item out takes out what stood under its key and changes
/// nothing else.
pub proof fn lemma_remove<T, I, U>(
    items: Seq<T>,
    key_of: spec_fn(T) -> I,
    value_of: spec_fn(T) -> U,
    i: int,
)
    requires
        distinct(items, key_of),
        0 <= i < items.len(),
    ensures
        distinct(items.remove(i), key_of),
        table(items.remove(i), key_of, value_of) == table(items, key_of, value_of).remove(
            key_of(items[i]),
        ),
{
    let after = items.remove(i);
    let gone = key_of(items[i]);
    assert(distinct(after, key_of)) by {
        assert forall|a: int, b: int| 0 <= a < b < after.len() implies key_of(
            #[trigger] after[a],
        ) != key_of(#[trigger] after[b]) by {
            let a0 = if a < i { a } else { a + 1 };
            let b0 = if b < i { b } else { b + 1 };
            assert(key_of(items[a0]) != key_of(items[b0]));
        }
    }
    assert forall|key: I|
        holds(after, key_of, key) == (holds(items, key_of, key) && key != gone) by {
        if holds(after, key_of, key) {
            let j = place(after, key_of, key);
            let j0 = if j < i { j } else { j + 1 };
            assert(key_of(items[j0]) == key);
            if j0 < i {
                assert(key_of(items[j0]) != key_of(items[i]));
            } else {
                assert(key_of(items[i]) != key_of(items[j0]));
            }
        }
        if holds(items, key_of, key) && key != gone {
            let j = place(items, key_of, key);
            let j1 = if j < i { j } else { j - 1 };
            assert(key_of(after[j1]) == key);
        }
    }
    assert forall|key: I| holds(after, key_of, key) implies #[trigger] table(
        after,
        key_of,
        value_of,
    )[key] == table(items, key_of, value_of).remove(gone)[key] by {
        let j = place(after, key_of, key);
        lemma_at(after, key_of, value_of, j);
        let j0 = if j < i { j } else { j + 1 };
        assert(key_of(items[j0]) == key);
        lemma_at(items, key_of, value_of, j0);
    }
    assert(table(after, key_of, value_of) =~= table(items, key_of, value_of).remove(gone));
}

} // verus!
