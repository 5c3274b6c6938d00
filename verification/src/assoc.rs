use vstd::prelude::*;

verus! {

/// No key occurs twice.
pub open spec fn distinct_keys<V>(v: Seq<(String, V)>) -> bool {
    forall|i: int, j: int| 0 <= i < j < v.len() ==> (#[trigger] v[i]).0@ != (#[trigger] v[j]).0@
}

/// The map an association list stands for, with each value seen through `f`.
pub open spec fn assoc_map<V, W>(v: Seq<(String, V)>, f: spec_fn(V) -> W) -> Map<Seq<char>, W>
    decreases v.len(),
{
    if v.len() == 0 {
        Map::empty()
    } else {
        assoc_map(v.drop_last(), f).insert(v.last().0@, f(v.last().1))
    }
}

pub proof fn lemma_assoc_map_dom<V, W>(v: Seq<(String, V)>, f: spec_fn(V) -> W)
    ensures
        forall|k: Seq<char>| #[trigger] assoc_map(v, f).dom().contains(k) <==> exists|i: int| 0 <= i < v.len() && v[i].0@ == k,
    decreases v.len(),
{
    if v.len() > 0 {
        lemma_assoc_map_dom(v.drop_last(), f);
        assert forall|k: Seq<char>| #[trigger] assoc_map(v, f).dom().contains(k) implies exists|i: int| 0 <= i < v.len() && v[i].0@ == k by {
            if k == v.last().0@ {
                assert(v[v.len() - 1].0@ == k);
            } else {
                assert(assoc_map(v.drop_last(), f).dom().contains(k));
                let i = choose|i: int| 0 <= i < v.drop_last().len() && v.drop_last()[i].0@ == k;
                assert(v[i] == v.drop_last()[i]);
            }
        }
        assert forall|k: Seq<char>| (exists|i: int| 0 <= i < v.len() && v[i].0@ == k) implies #[trigger] assoc_map(v, f).dom().contains(k) by {
            let i = choose|i: int| 0 <= i < v.len() && v[i].0@ == k;
            if i < v.len() - 1 {
                assert(v.drop_last()[i] == v[i]);
                assert(assoc_map(v.drop_last(), f).dom().contains(k));
            }
        }
    }
}

pub proof fn lemma_assoc_map_at<V, W>(v: Seq<(String, V)>, f: spec_fn(V) -> W, i: int)
    requires
        distinct_keys(v),
        0 <= i < v.len(),
    ensures
        assoc_map(v, f).dom().contains(v[i].0@),
        assoc_map(v, f)[v[i].0@] == f(v[i].1),
    decreases v.len(),
{
    if i < v.len() - 1 {
        assert(v.drop_last()[i] == v[i]);
        assert(distinct_keys(v.drop_last())) by {
            assert forall|a: int, b: int| 0 <= a < b < v.drop_last().len() implies (#[trigger] v.drop_last()[a]).0@ != (#[trigger] v.drop_last()[b]).0@ by {
                assert(v.drop_last()[a] == v[a] && v.drop_last()[b] == v[b]);
            }
        }
        lemma_assoc_map_at(v.drop_last(), f, i);
        assert(v[i].0@ != v[v.len() - 1].0@);
    }
}

proof fn lemma_distinct_drop_last<V>(v: Seq<(String, V)>)
    requires
        distinct_keys(v),
        v.len() > 0,
    ensures
        distinct_keys(v.drop_last()),
{
    assert forall|a: int, b: int| 0 <= a < b < v.drop_last().len() implies (#[trigger] v.drop_last()[a]).0@ != (#[trigger] v.drop_last()[b]).0@ by {
        assert(v.drop_last()[a] == v[a] && v.drop_last()[b] == v[b]);
    }
}

/// Replacing the value at position `i` updates the key's value in the map.
pub proof fn lemma_assoc_map_update<V, W>(v: Seq<(String, V)>, f: spec_fn(V) -> W, i: int, e: (String, V))
    requires
        distinct_keys(v),
        0 <= i < v.len(),
        e.0@ == v[i].0@,
    ensures
        distinct_keys(v.update(i, e)),
        assoc_map(v.update(i, e), f) == assoc_map(v, f).insert(e.0@, f(e.1)),
    decreases v.len(),
{
    let w = v.update(i, e);
    assert forall|a: int, b: int| 0 <= a < b < w.len() implies (#[trigger] w[a]).0@ != (#[trigger] w[b]).0@ by {
        assert(w[a].0@ == v[a].0@ && w[b].0@ == v[b].0@);
    }
    if i == v.len() - 1 {
        assert(w.drop_last() =~= v.drop_last());
        lemma_distinct_drop_last(v);
        lemma_assoc_map_dom(v.drop_last(), f);
        assert(!assoc_map(v.drop_last(), f).dom().contains(e.0@)) by {
            if assoc_map(v.drop_last(), f).dom().contains(e.0@) {
                let j = choose|j: int| 0 <= j < v.drop_last().len() && v.drop_last()[j].0@ == e.0@;
                assert(v[j] == v.drop_last()[j]);
            }
        }
        assert(assoc_map(w, f) =~= assoc_map(v, f).insert(e.0@, f(e.1)));
    } else {
        lemma_distinct_drop_last(v);
        assert(w.drop_last() =~= v.drop_last().update(i, e));
        assert(v.drop_last()[i] == v[i]);
        lemma_assoc_map_update(v.drop_last(), f, i, e);
        assert(v.last().0@ != e.0@) by {
            assert(v[v.len() - 1] == v.last());
        }
        assert(assoc_map(w, f) =~= assoc_map(v, f).insert(e.0@, f(e.1)));
    }
}

/// Appending a new key adds it to the map.
pub proof fn lemma_assoc_map_push<V, W>(v: Seq<(String, V)>, f: spec_fn(V) -> W, e: (String, V))
    requires
        distinct_keys(v),
        !assoc_map(v, f).dom().contains(e.0@),
    ensures
        distinct_keys(v.push(e)),
        assoc_map(v.push(e), f) == assoc_map(v, f).insert(e.0@, f(e.1)),
{
    let w = v.push(e);
    lemma_assoc_map_dom(v, f);
    assert forall|a: int, b: int| 0 <= a < b < w.len() implies (#[trigger] w[a]).0@ != (#[trigger] w[b]).0@ by {
        if b == v.len() {
            assert(w[a] == v[a]);
        } else {
            assert(w[a] == v[a] && w[b] == v[b]);
        }
    }
    assert(w.drop_last() =~= v);
}

/// Removing the entry at position `i` removes its key from the map.
pub proof fn lemma_assoc_map_remove<V, W>(v: Seq<(String, V)>, f: spec_fn(V) -> W, i: int)
    requires
        distinct_keys(v),
        0 <= i < v.len(),
    ensures
        distinct_keys(v.remove(i)),
        assoc_map(v.remove(i), f) == assoc_map(v, f).remove(v[i].0@),
    decreases v.len(),
{
    let w = v.remove(i);
    assert forall|a: int, b: int| 0 <= a < b < w.len() implies (#[trigger] w[a]).0@ != (#[trigger] w[b]).0@ by {
        let a2 = if a < i { a } else { a + 1 };
        let b2 = if b < i { b } else { b + 1 };
        assert(w[a] == v[a2] && w[b] == v[b2]);
    }
    lemma_distinct_drop_last(v);
    if i == v.len() - 1 {
        assert(w =~= v.drop_last());
        lemma_assoc_map_dom(v.drop_last(), f);
        assert(!assoc_map(v.drop_last(), f).dom().contains(v[i].0@)) by {
            if assoc_map(v.drop_last(), f).dom().contains(v[i].0@) {
                let j = choose|j: int| 0 <= j < v.drop_last().len() && v.drop_last()[j].0@ == v[i].0@;
                assert(v[j] == v.drop_last()[j]);
            }
        }
        assert(assoc_map(w, f) =~= assoc_map(v, f).remove(v[i].0@));
    } else {
        assert(w.drop_last() =~= v.drop_last().remove(i));
        assert(w.last() == v.last());
        assert(v.drop_last()[i] == v[i]);
        lemma_assoc_map_remove(v.drop_last(), f, i);
        assert(v.last().0@ != v[i].0@) by {
            assert(v[v.len() - 1] == v.last());
        }
        assert(assoc_map(w, f) =~= assoc_map(v, f).remove(v[i].0@));
    }
}

/// The position of `key` in the association list, or its length when it is absent.
pub fn assoc_find<V>(v: &Vec<(String, V)>, key: &str) -> (r: usize)
    ensures
        r <= v.len(),
        r < v.len() ==> v@[r as int].0@ == key@,
        r == v.len() ==> forall|i: int| 0 <= i < v.len() ==> (#[trigger] v@[i]).0@ != key@,
{
    let k = String::from_str(key);
    let mut i: usize = 0;
    while i < v.len()
        invariant
            i <= v.len(),
            k@ == key@,
            forall|j: int| 0 <= j < i ==> (#[trigger] v@[j]).0@ != key@,
        decreases v.len() - i,
    {
        if v[i].0 == k {
            return i;
        }
        i += 1;
    }
    i
}

} // verus!
