//! Grouping of records by key: the distinct keys in ascending order, each with the positions
//! of the records that carry it.

use vstd::prelude::*;
use vstd::utf8::encode_utf8;
use crate::text::{
    lemma_bytes_lt_irreflexive, lemma_bytes_lt_total, lemma_bytes_lt_transitive,
    lemma_encode_utf8_injective, str_equal, str_less, str_lt,
};

verus! {

/// A grouping key: its components, compared in turn as a tuple of strings is compared.
pub open spec fn key_view(key: Vec<String>) -> Seq<Seq<char>> {
    key@.map_values(|s: String| s@)
}

/// The views of `keys`, in order.
pub open spec fn key_views(keys: Seq<Vec<String>>) -> Seq<Seq<Seq<char>>> {
    keys.map_values(|k: Vec<String>| key_view(k))
}

/// Rust's order on tuples (and on sequences) of strings: the first differing component
/// decides; a proper prefix comes first.
pub open spec fn key_lt(a: Seq<Seq<char>>, b: Seq<Seq<char>>) -> bool
    decreases a.len(),
{
    if a.len() == 0 {
        b.len() > 0
    } else if b.len() == 0 {
        false
    } else if a[0] != b[0] {
        str_lt(a[0], b[0])
    } else {
        key_lt(a.drop_first(), b.drop_first())
    }
}

/// The positions in `keys` that hold `key`, in increasing order.
pub open spec fn positions(keys: Seq<Seq<Seq<char>>>, key: Seq<Seq<char>>) -> Seq<usize>
    decreases keys.len(),
{
    if keys.len() == 0 {
        seq![]
    } else if keys.last() == key {
        positions(keys.drop_last(), key).push((keys.len() - 1) as usize)
    } else {
        positions(keys.drop_last(), key)
    }
}

/// Different strings are ordered one way or the other, and never both ways; none comes
/// before itself.
pub proof fn lemma_str_lt_total(a: Seq<char>, b: Seq<char>)
    ensures
        a != b ==> str_lt(a, b) || str_lt(b, a),
        !(str_lt(a, b) && str_lt(b, a)),
        !str_lt(a, a),
{
    lemma_bytes_lt_total(encode_utf8(a), encode_utf8(b));
    lemma_bytes_lt_irreflexive(encode_utf8(a));
    if a != b && encode_utf8(a) == encode_utf8(b) {
        lemma_encode_utf8_injective(a, b);
    }
}

/// No key comes before itself.
pub proof fn lemma_key_lt_irreflexive(a: Seq<Seq<char>>)
    ensures
        !key_lt(a, a),
    decreases a.len(),
{
    if a.len() > 0 {
        lemma_key_lt_irreflexive(a.drop_first());
    }
}

/// The key order is transitive.
pub proof fn lemma_key_lt_transitive(a: Seq<Seq<char>>, b: Seq<Seq<char>>, c: Seq<Seq<char>>)
    requires
        key_lt(a, b),
        key_lt(b, c),
    ensures
        key_lt(a, c),
    decreases a.len(),
{
    if a.len() > 0 && b.len() > 0 && c.len() > 0 {
        if a[0] == b[0] && b[0] == c[0] {
            lemma_key_lt_transitive(a.drop_first(), b.drop_first(), c.drop_first());
        } else if a[0] != b[0] && b[0] != c[0] {
            lemma_bytes_lt_transitive(encode_utf8(a[0]), encode_utf8(b[0]), encode_utf8(c[0]));
            if a[0] == c[0] {
                lemma_str_lt_total(a[0], b[0]);
            }
        }
    }
}

/// Two different keys are ordered one way or the other, and never both ways.
pub proof fn lemma_key_lt_total(a: Seq<Seq<char>>, b: Seq<Seq<char>>)
    ensures
        a != b ==> key_lt(a, b) || key_lt(b, a),
        !(key_lt(a, b) && key_lt(b, a)),
    decreases a.len(),
{
    if a.len() > 0 && b.len() > 0 {
        lemma_str_lt_total(a[0], b[0]);
        if a[0] == b[0] {
            lemma_key_lt_total(a.drop_first(), b.drop_first());
            if a != b {
                assert(a.drop_first() != b.drop_first()) by {
                    if a.drop_first() == b.drop_first() {
                        assert(a =~= seq![a[0]] + a.drop_first());
                        assert(b =~= seq![b[0]] + b.drop_first());
                    }
                }
            }
        }
    } else if a.len() == 0 && b.len() == 0 {
        assert(a =~= b);
    }
}

/// Whether the key `a` comes before the key `b`.
pub fn key_less(a: &Vec<String>, b: &Vec<String>) -> (lt: bool)
    ensures
        lt == key_lt(key_view(*a), key_view(*b)),
{
    let ghost x = key_view(*a);
    let ghost y = key_view(*b);
    let mut i: usize = 0;
    assert(x.skip(0) =~= x);
    assert(y.skip(0) =~= y);
    while i < a.len() && i < b.len()
        invariant
            0 <= i <= a@.len(),
            i <= b@.len(),
            x == key_view(*a),
            y == key_view(*b),
            key_lt(x, y) == key_lt(x.skip(i as int), y.skip(i as int)),
        decreases a@.len() - i,
    {
        let ghost xs = x.skip(i as int);
        let ghost ys = y.skip(i as int);
        assert(xs[0] == a@[i as int]@ && ys[0] == b@[i as int]@);
        assert(xs.drop_first() =~= x.skip(i + 1));
        assert(ys.drop_first() =~= y.skip(i + 1));
        if !str_equal(a[i].as_str(), b[i].as_str()) {
            return str_less(a[i].as_str(), b[i].as_str());
        }
        i = i + 1;
    }
    i < b.len()
}

/// Whether a group (a nonempty list of positions) is the group of its first position's key
/// among the first `upto` keys.
pub open spec fn is_group_of(group: Seq<usize>, keys: Seq<Seq<Seq<char>>>, upto: int) -> bool {
    &&& group.len() > 0
    &&& group[0] < upto
    &&& group == positions(keys.take(upto), keys[group[0] as int])
}

/// `groups` groups the first `upto` of `keys`: each group holds every position of one key,
/// the groups' keys ascend strictly, and every one of those positions has its group.
pub open spec fn groups_keys(groups: Seq<Vec<usize>>, keys: Seq<Seq<Seq<char>>>, upto: int) -> bool {
    &&& forall|g: int| 0 <= g < groups.len() ==> is_group_of(#[trigger] groups[g]@, keys, upto)
    &&& forall|g: int, h: int|
        0 <= g < h < groups.len() ==> key_lt(
            keys[groups[g]@[0] as int],
            keys[groups[h]@[0] as int],
        )
    &&& forall|j: int| 0 <= j < upto ==> #[trigger] has_group(groups, keys, j)
}

/// Some group of `groups` has the key at position `j`.
pub open spec fn has_group(groups: Seq<Vec<usize>>, keys: Seq<Seq<Seq<char>>>, j: int) -> bool {
    exists|g: int| 0 <= g < groups.len() && keys[(#[trigger] groups[g]@[0]) as int] == keys[j]
}

proof fn lemma_positions_absent(keys: Seq<Seq<Seq<char>>>, key: Seq<Seq<char>>)
    requires
        forall|j: int| 0 <= j < keys.len() ==> keys[j] != key,
    ensures
        positions(keys, key) == Seq::<usize>::empty(),
    decreases keys.len(),
{
    if keys.len() > 0 {
        lemma_positions_absent(keys.drop_last(), key);
    }
}

/// The distinct keys of `keys`, in ascending key order, each as the positions (ascending)
/// at which it occurs; a group's key is the key at its first position.
pub fn group_positions(keys: &Vec<Vec<String>>) -> (groups: Vec<Vec<usize>>)
    ensures
        groups_keys(groups@, key_views(keys@), keys@.len() as int),
{
    let ghost kv = key_views(keys@);
    let mut groups: Vec<Vec<usize>> = Vec::new();
    let mut i: usize = 0;
    while i < keys.len()
        invariant
            0 <= i <= keys@.len(),
            kv == key_views(keys@),
            kv.len() == keys@.len(),
            groups_keys(groups@, kv, i as int),
        decreases keys@.len() - i,
    {
        let ghost old_groups = groups@;
        let ghost k = kv[i as int];
        assert(k == key_view(keys@[i as int]));
        // the first group whose key does not come before this one
        let mut p: usize = 0;
        while p < groups.len() && key_less(&keys[groups[p][0]], &keys[i])
            invariant
                0 <= p <= groups@.len(),
                groups@ == old_groups,
                kv == key_views(keys@),
                kv.len() == keys@.len(),
                i < keys@.len(),
                k == kv[i as int],
                groups_keys(groups@, kv, i as int),
                forall|g: int| 0 <= g < p ==> key_lt(kv[groups@[g]@[0] as int], k),
            decreases groups@.len() - p,
        {
            assert(is_group_of(groups@[p as int]@, kv, i as int));
            p = p + 1;
        }
        let same = p < groups.len() && !key_less(&keys[i], &keys[groups[p][0]]);
        proof {
            assert(kv.take(i + 1).drop_last() =~= kv.take(i as int));
            assert(kv.take(i + 1).last() == k);
        }
        if same {
            let ghost q = groups@[p as int]@[0] as int;
            proof {
                lemma_key_lt_total(kv[q], k);
                assert(kv[q] == k);
            }
            let mut group = groups.remove(p);
            group.push(i);
            groups.insert(p, group);
            proof {
                assert forall|g: int| 0 <= g < groups@.len() implies is_group_of(
                    #[trigger] groups@[g]@,
                    kv,
                    i + 1,
                ) by {
                    assert(is_group_of(old_groups[g]@, kv, i as int));
                    if g != p {
                        assert(groups@[g] == old_groups[g]);
                        let r = old_groups[g]@[0] as int;
                        if kv[r] == k {
                            if g < p {
                                lemma_key_lt_irreflexive(k);
                            } else {
                                assert(key_lt(kv[q], kv[r]));
                                lemma_key_lt_irreflexive(k);
                            }
                        }
                    } else {
                        assert(groups@[g]@ =~= old_groups[g]@.push(i));
                    }
                }
                assert forall|g: int, h: int| 0 <= g < h < groups@.len() implies key_lt(
                    kv[groups@[g]@[0] as int],
                    kv[groups@[h]@[0] as int],
                ) by {
                    assert(groups@[g]@[0] == old_groups[g]@[0]);
                    assert(groups@[h]@[0] == old_groups[h]@[0]);
                }
                assert forall|j: int| 0 <= j < i + 1 implies #[trigger] has_group(groups@, kv, j) by {
                    if j < i {
                        assert(has_group(old_groups, kv, j));
                        let g = choose|g: int|
                            0 <= g < old_groups.len() && kv[(#[trigger] old_groups[g]@[0]) as int]
                                == kv[j];
                        assert(groups@[g]@[0] == old_groups[g]@[0]);
                    } else {
                        assert(groups@[p as int]@[0] == old_groups[p as int]@[0]);
                    }
                }
            }
        } else {
            let mut group: Vec<usize> = Vec::new();
            group.push(i);
            groups.insert(p, group);
            proof {
                assert forall|j: int| 0 <= j < i implies kv.take(i as int)[j] != k by {
                    assert(has_group(old_groups, kv, j));
                    let g = choose|g: int|
                        0 <= g < old_groups.len() && kv[(#[trigger] old_groups[g]@[0]) as int]
                            == kv[j];
                    assert(is_group_of(old_groups[g]@, kv, i as int));
                    let r = old_groups[g]@[0] as int;
                    if kv[j] == k {
                        if g < p {
                            lemma_key_lt_irreflexive(k);
                        } else if g == p {
                        } else {
                            let r0 = old_groups[p as int]@[0] as int;
                            assert(key_lt(kv[r0], kv[r]));
                            lemma_key_lt_total(k, kv[r0]);
                        }
                    }
                }
                lemma_positions_absent(kv.take(i as int), k);
                assert forall|g: int| 0 <= g < groups@.len() implies is_group_of(
                    #[trigger] groups@[g]@,
                    kv,
                    i + 1,
                ) by {
                    if g < p {
                        assert(groups@[g] == old_groups[g]);
                        assert(is_group_of(old_groups[g]@, kv, i as int));
                        lemma_key_lt_irreflexive(k);
                    } else if g == p {
                        assert(groups@[g]@ =~= Seq::<usize>::empty().push(i));
                    } else {
                        assert(groups@[g] == old_groups[g - 1]);
                        assert(is_group_of(old_groups[g - 1]@, kv, i as int));
                        let r = old_groups[g - 1]@[0] as int;
                        if kv[r] == k {
                            let r0 = old_groups[p as int]@[0] as int;
                            if g - 1 > p {
                                assert(key_lt(kv[r0], kv[r]));
                                lemma_key_lt_total(k, kv[r0]);
                            }
                        }
                    }
                }
                assert forall|g: int, h: int| 0 <= g < h < groups@.len() implies key_lt(
                    kv[groups@[g]@[0] as int],
                    kv[groups@[h]@[0] as int],
                ) by {
                    if p < old_groups.len() {
                        let r0 = old_groups[p as int]@[0] as int;
                        lemma_key_lt_total(k, kv[r0]);
                    }
                    if g < p && h == p {
                    } else if g < p && h > p {
                        assert(groups@[h] == old_groups[h - 1]);
                        assert(groups@[g] == old_groups[g]);
                    } else if g == p {
                        assert(groups@[h] == old_groups[h - 1]);
                        let r0 = old_groups[p as int]@[0] as int;
                        let rh = old_groups[h - 1]@[0] as int;
                        if h - 1 > p {
                            lemma_key_lt_transitive(k, kv[r0], kv[rh]);
                        }
                    } else if h < p {
                        assert(groups@[h] == old_groups[h]);
                        assert(groups@[g] == old_groups[g]);
                    } else {
                        assert(groups@[h] == old_groups[h - 1]);
                        assert(groups@[g] == old_groups[g - 1]);
                    }
                }
                assert forall|j: int| 0 <= j < i + 1 implies #[trigger] has_group(groups@, kv, j) by {
                    if j < i {
                        assert(has_group(old_groups, kv, j));
                        let g = choose|g: int|
                            0 <= g < old_groups.len() && kv[(#[trigger] old_groups[g]@[0]) as int]
                                == kv[j];
                        if g < p {
                            assert(groups@[g] == old_groups[g]);
                        } else {
                            assert(groups@[g + 1] == old_groups[g]);
                        }
                    } else {
                        assert(groups@[p as int]@[0] == i);
                    }
                }
            }
        }
        i = i + 1;
    }
    assert(kv.take(keys@.len() as int) =~= kv);
    groups
}


/// A position is among the positions of a key exactly when it holds that key.
pub proof fn lemma_positions_contains(keys: Seq<Seq<Seq<char>>>, key: Seq<Seq<char>>, j: int)
    requires
        0 <= j < keys.len() <= usize::MAX + 1,
    ensures
        positions(keys, key).contains(j as usize) <==> keys[j] == key,
    decreases keys.len(),
{
    let p = positions(keys, key);
    let last = keys.len() - 1;
    if j < last {
        lemma_positions_contains(keys.drop_last(), key, j);
        let q = positions(keys.drop_last(), key);
        if keys.last() == key {
            assert(p == q.push(last as usize));
            if p.contains(j as usize) {
                let k = choose|k: int| 0 <= k < p.len() && p[k] == j as usize;
                if k < q.len() {
                    assert(q[k] == j as usize);
                }
            }
            if q.contains(j as usize) {
                let k = choose|k: int| 0 <= k < q.len() && q[k] == j as usize;
                assert(p[k] == j as usize);
            }
        }
    } else {
        if keys.last() == key {
            assert(p[p.len() - 1] == j as usize);
        } else {
            lemma_positions_below(keys.drop_last(), key, j);
        }
    }
}

/// The positions of a key all lie below the number of keys.
proof fn lemma_positions_below(keys: Seq<Seq<Seq<char>>>, key: Seq<Seq<char>>, j: int)
    requires
        j >= keys.len(),
        j <= usize::MAX,
    ensures
        !positions(keys, key).contains(j as usize),
    decreases keys.len(),
{
    if keys.len() > 0 {
        lemma_positions_below(keys.drop_last(), key, j);
        let q = positions(keys.drop_last(), key);
        let p = positions(keys, key);
        if p.contains(j as usize) {
            let k = choose|k: int| 0 <= k < p.len() && p[k] == j as usize;
            if k < q.len() {
                assert(q[k] == j as usize);
            }
        }
    }
}

/// Grouping partitions the positions: each position lies in exactly one group, the group of
/// its key, so what is summed over a group is summed over exactly the records with that key.
pub proof fn lemma_groups_partition(groups: Seq<Vec<usize>>, keys: Seq<Seq<Seq<char>>>, j: int)
    requires
        groups_keys(groups, keys, keys.len() as int),
        0 <= j < keys.len() <= usize::MAX + 1,
    ensures
        exists|g: int| 0 <= g < groups.len() && (#[trigger] groups[g])@.contains(j as usize),
        forall|g: int, h: int|
            0 <= g < groups.len() && 0 <= h < groups.len() && (#[trigger] groups[g])@.contains(
                j as usize,
            ) && (#[trigger] groups[h])@.contains(j as usize) ==> g == h,
{
    assert(keys.take(keys.len() as int) =~= keys);
    assert(has_group(groups, keys, j));
    let g = choose|g: int| 0 <= g < groups.len() && keys[(#[trigger] groups[g]@[0]) as int] == keys[j];
    assert(is_group_of(groups[g]@, keys, keys.len() as int));
    lemma_positions_contains(keys, keys[groups[g]@[0] as int], j);
    assert forall|g1: int, h: int|
        0 <= g1 < groups.len() && 0 <= h < groups.len() && (#[trigger] groups[g1])@.contains(
            j as usize,
        ) && (#[trigger] groups[h])@.contains(j as usize) implies g1 == h by {
        assert(is_group_of(groups[g1]@, keys, keys.len() as int));
        assert(is_group_of(groups[h]@, keys, keys.len() as int));
        lemma_positions_contains(keys, keys[groups[g1]@[0] as int], j);
        lemma_positions_contains(keys, keys[groups[h]@[0] as int], j);
        if g1 < h {
            lemma_key_lt_irreflexive(keys[j]);
        } else if h < g1 {
            lemma_key_lt_irreflexive(keys[j]);
        }
    }
}

}
