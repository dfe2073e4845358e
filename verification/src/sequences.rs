//! Sequences: mapping with a first failure, joining, and views of vectors of text.
use vstd::prelude::*;

verus! {

/// The images of all items, or the failure of the first item that has one.
pub open spec fn try_map<A, B, E>(
    items: Seq<A>,
    f: spec_fn(A) -> Result<B, E>,
) -> Result<Seq<B>, E>
    decreases items.len(),
{
    if items.len() == 0 {
        Ok(Seq::empty())
    } else {
        match try_map(items.drop_last(), f) {
            Err(e) => Err(e),
            Ok(before) => match f(items.last()) {
                Err(e) => Err(e),
                Ok(b) => Ok(before.push(b)),
            },
        }
    }
}

/// One more item.
pub proof fn lemma_try_map_step<A, B, E>(items: Seq<A>, f: spec_fn(A) -> Result<B, E>, i: int)
    requires
        0 <= i < items.len(),
    ensures
        try_map(items.take(i + 1), f) == match try_map(items.take(i), f) {
            Err(e) => Err(e),
            Ok(before) => match f(items[i]) {
                Err(e) => Err(e),
                Ok(b) => Ok(before.push(b)),
            },
        },
{
    assert(items.take(i + 1).drop_last() =~= items.take(i));
    assert(items.take(i + 1).last() == items[i]);
}

/// A failure among the first items is the failure of all of them.
pub proof fn lemma_try_map_fails<A, B, E>(items: Seq<A>, f: spec_fn(A) -> Result<B, E>, i: int)
    requires
        0 <= i <= items.len(),
        try_map(items.take(i), f) is Err,
    ensures
        try_map(items, f) is Err,
        try_map(items, f)->Err_0 == try_map(items.take(i), f)->Err_0,
    decreases items.len() - i,
{
    if i < items.len() {
        lemma_try_map_step(items, f, i);
        lemma_try_map_fails(items, f, i + 1);
    } else {
        assert(items.take(i) =~= items);
    }
}

/// Mapping succeeds exactly when every item does, and then each image stands in its place.
pub proof fn lemma_try_map_items<A, B, E>(items: Seq<A>, f: spec_fn(A) -> Result<B, E>)
    ensures
        try_map(items, f) is Ok <==> forall|k: int| 0 <= k < items.len() ==> f(#[trigger] items[k]) is Ok,
        try_map(items, f) matches Ok(out) ==> out.len() == items.len() && forall|k: int|
            0 <= k < items.len() ==> f(items[k]) == Ok::<B, E>(#[trigger] out[k]),
    decreases items.len(),
{
    if items.len() > 0 {
        let before = items.drop_last();
        lemma_try_map_items(before, f);
        assert forall|k: int| 0 <= k < before.len() implies before[k] == items[k] by {}
        if try_map(items, f) is Ok {
            assert forall|k: int| 0 <= k < items.len() implies f(#[trigger] items[k]) is Ok by {
                if k < before.len() {
                    assert(f(before[k]) is Ok);
                }
            }
            let out = try_map(items, f)->Ok_0;
            assert forall|k: int| 0 <= k < items.len() implies f(items[k]) == Ok::<B, E>(
                #[trigger] out[k],
            ) by {
                if k < before.len() {
                    assert(f(before[k]) == Ok::<B, E>(try_map(before, f)->Ok_0[k]));
                }
            }
        } else if forall|k: int| 0 <= k < items.len() ==> f(#[trigger] items[k]) is Ok {
            assert forall|k: int| 0 <= k < before.len() implies f(#[trigger] before[k]) is Ok by {
                assert(f(items[k]) is Ok);
            }
            assert(f(items[items.len() - 1]) is Ok);
        }
    }
}

/// The parts one after another.
pub open spec fn joined<A>(parts: Seq<Seq<A>>) -> Seq<A>
    decreases parts.len(),
{
    if parts.len() == 0 {
        Seq::empty()
    } else {
        joined(parts.drop_last()) + parts.last()
    }
}

/// Appending a part appends its items.
pub proof fn lemma_joined_push<A>(parts: Seq<Seq<A>>, part: Seq<A>)
    ensures
        joined(parts.push(part)) == joined(parts) + part,
{
    assert(parts.push(part).drop_last() =~= parts);
}

/// The characters of each string.
pub open spec fn texts(strings: Seq<String>) -> Seq<Seq<char>> {
    Seq::new(strings.len(), |i: int| strings[i]@)
}

/// The value of the first entry under `key`.
pub open spec fn lookup<T>(entries: Seq<(Seq<char>, T)>, key: Seq<char>) -> Option<T>
    decreases entries.len(),
{
    if entries.len() == 0 {
        None
    } else if entries[0].0 == key {
        Some(entries[0].1)
    } else {
        lookup(entries.drop_first(), key)
    }
}

/// One entry of a lookup from the front.
pub proof fn lemma_lookup_step<T>(entries: Seq<(Seq<char>, T)>, i: int, key: Seq<char>)
    requires
        0 <= i < entries.len(),
    ensures
        entries[i].0 == key ==> lookup(entries.skip(i), key) == Some(entries[i].1),
        entries[i].0 != key ==> lookup(entries.skip(i), key) == lookup(entries.skip(i + 1), key),
{
    assert(entries.skip(i)[0] == entries[i]);
    assert(entries.skip(i).drop_first() =~= entries.skip(i + 1));
}

/// A lookup finds an entry exactly where there is one under the key.
pub proof fn lemma_lookup_found<T>(entries: Seq<(Seq<char>, T)>, key: Seq<char>)
    ensures
        lookup(entries, key) is Some <==> exists|i: int|
            0 <= i < entries.len() && (#[trigger] entries[i]).0 == key,
        lookup(entries, key) matches Some(v) ==> exists|i: int|
            0 <= i < entries.len() && #[trigger] entries[i] == (key, v),
    decreases entries.len(),
{
    if entries.len() > 0 {
        let rest = entries.drop_first();
        lemma_lookup_found(rest, key);
        if entries[0].0 == key {
            assert(entries[0] == (key, entries[0].1));
        } else {
            if lookup(rest, key) is Some {
                let v = lookup(rest, key)->Some_0;
                let i = choose|i: int| 0 <= i < rest.len() && #[trigger] rest[i] == (key, v);
                assert(entries[i + 1] == rest[i]);
            }
            if exists|i: int| 0 <= i < entries.len() && (#[trigger] entries[i]).0 == key {
                let i = choose|i: int| 0 <= i < entries.len() && (#[trigger] entries[i]).0 == key;
                assert(rest[i - 1] == entries[i]);
            }
        }
    }
}

} // verus!
