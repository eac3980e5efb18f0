//! A stable sort by a descending `u32` key, as `slice::sort_by` with
//! `b.cmp(&a)` on the keys performs it.
use vstd::prelude::*;

verus! {

/// Keys never increase along `s`.
pub open spec fn sorted_desc<A>(s: Seq<A>, key: spec_fn(A) -> u32) -> bool {
    forall|i: int, j: int| 0 <= i < j < s.len() ==> key(s[i]) >= key(s[j])
}

/// The elements of key `k`.
pub open spec fn has_key<A>(key: spec_fn(A) -> u32, k: u32) -> spec_fn(A) -> bool {
    |a: A| key(a) == k
}

/// For every key, `a` and `b` hold the same elements of that key in the same
/// order. With `sorted_desc`, this says that `a` is the stable sort of `b`.
pub open spec fn same_per_key<A>(a: Seq<A>, b: Seq<A>, key: spec_fn(A) -> u32) -> bool {
    forall|k: u32| #[trigger] a.filter(has_key(key, k)) == b.filter(has_key(key, k))
}

/// The views of the items of `s`.
pub open spec fn views<T: View>(s: Seq<T>) -> Seq<T::V> {
    s.map_values(|t: T| t@)
}

proof fn lemma_filter_none<A>(s: Seq<A>, pred: spec_fn(A) -> bool)
    requires
        forall|i: int| 0 <= i < s.len() ==> !pred(#[trigger] s[i]),
    ensures
        s.filter(pred) == Seq::<A>::empty(),
    decreases s.len(),
{
    reveal(Seq::filter);
    if s.len() > 0 {
        assert forall|i: int| 0 <= i < s.len() - 1 implies !pred(#[trigger] s.drop_last()[i]) by {
            assert(s.drop_last()[i] == s[i]);
        }
        lemma_filter_none(s.drop_last(), pred);
    }
}

proof fn lemma_filter_single<A>(x: A, pred: spec_fn(A) -> bool)
    ensures
        seq![x].filter(pred) == (if pred(x) {
            seq![x]
        } else {
            Seq::<A>::empty()
        }),
{
    reveal(Seq::filter);
    assert(seq![x].drop_last() =~= Seq::<A>::empty());
    assert(Seq::<A>::empty().filter(pred) =~= Seq::<A>::empty());
    if pred(x) {
        assert(Seq::<A>::empty().push(x) =~= seq![x]);
    }
}

/// Inserting `x` at `p` into a key-descending sequence where everything
/// before `p` has a key at least that of `x`, and everything from `p` on a
/// smaller key, keeps the sequence descending and adds `x` at the end of the
/// elements of its key.
proof fn lemma_insert_step<A>(out: Seq<A>, p: int, x: A, key: spec_fn(A) -> u32)
    requires
        0 <= p <= out.len(),
        sorted_desc(out, key),
        forall|i: int| 0 <= i < p ==> key(#[trigger] out[i]) >= key(x),
        forall|i: int| p <= i < out.len() ==> key(#[trigger] out[i]) < key(x),
    ensures
        sorted_desc(out.insert(p, x), key),
        forall|k: u32| #[trigger] out.insert(p, x).filter(has_key(key, k)) == (if k == key(x) {
            out.filter(has_key(key, k)).push(x)
        } else {
            out.filter(has_key(key, k))
        }),
{
    let r = out.insert(p, x);
    assert(r =~= out.take(p) + seq![x] + out.skip(p));
    assert(out =~= out.take(p) + out.skip(p));
    assert forall|k: u32| #[trigger] r.filter(has_key(key, k)) == (if k == key(x) {
        out.filter(has_key(key, k)).push(x)
    } else {
        out.filter(has_key(key, k))
    }) by {
        let pred = has_key(key, k);
        Seq::filter_distributes_over_add(out.take(p) + seq![x], out.skip(p), pred);
        Seq::filter_distributes_over_add(out.take(p), seq![x], pred);
        Seq::filter_distributes_over_add(out.take(p), out.skip(p), pred);
        lemma_filter_single(x, pred);
        if k == key(x) {
            assert forall|i: int| 0 <= i < out.skip(p).len() implies !pred(#[trigger] out.skip(p)[i]) by {
                assert(out.skip(p)[i] == out[p + i]);
            }
            lemma_filter_none(out.skip(p), pred);
            assert(r.filter(pred) =~= out.filter(pred).push(x));
        } else {
            assert(r.filter(pred) =~= out.filter(pred));
        }
    }
}

proof fn lemma_filter_front<A>(s: Seq<A>, pred: spec_fn(A) -> bool)
    requires
        s.len() > 0,
    ensures
        s.filter(pred) == (if pred(s[0]) {
            seq![s[0]]
        } else {
            Seq::<A>::empty()
        }) + s.drop_first().filter(pred),
{
    assert(s =~= seq![s[0]] + s.drop_first());
    Seq::filter_distributes_over_add(seq![s[0]], s.drop_first(), pred);
    lemma_filter_single(s[0], pred);
}

proof fn lemma_filter_has<A>(s: Seq<A>, pred: spec_fn(A) -> bool, i: int)
    requires
        0 <= i < s.len(),
        pred(s[i]),
    ensures
        s.filter(pred).len() > 0,
    decreases s.len(),
{
    reveal(Seq::filter);
    if i < s.len() - 1 {
        assert(s.drop_last()[i] == s[i]);
        lemma_filter_has(s.drop_last(), pred, i);
    }
}

/// A key-descending sequence with given elements per key is unique: two
/// sequences sorted by descending key that hold, for every key, the same
/// elements of that key in the same order are equal. So `sorted_desc` and
/// `same_per_key` together pin down the result of a stable sort.
pub proof fn lemma_stable_sort_unique<A>(a: Seq<A>, b: Seq<A>, key: spec_fn(A) -> u32)
    requires
        sorted_desc(a, key),
        sorted_desc(b, key),
        same_per_key(a, b, key),
    ensures
        a == b,
    decreases a.len() + b.len(),
{
    if a.len() == 0 && b.len() == 0 {
        assert(a =~= b);
    } else if a.len() == 0 {
        lemma_filter_has(b, has_key(key, key(b[0])), 0);
        assert(a.filter(has_key(key, key(b[0]))) == b.filter(has_key(key, key(b[0]))));
        reveal(Seq::filter);
        assert(a.filter(has_key(key, key(b[0]))).len() == 0);
    } else if b.len() == 0 {
        lemma_filter_has(a, has_key(key, key(a[0])), 0);
        assert(a.filter(has_key(key, key(a[0]))) == b.filter(has_key(key, key(a[0]))));
        reveal(Seq::filter);
        assert(b.filter(has_key(key, key(a[0]))).len() == 0);
    } else {
        let ka = key(a[0]);
        let kb = key(b[0]);
        if ka != kb {
            if ka > kb {
                lemma_filter_has(a, has_key(key, ka), 0);
                assert forall|i: int| 0 <= i < b.len() implies !has_key(key, ka)(#[trigger] b[i]) by {
                    if i > 0 {
                        assert(key(b[0]) >= key(b[i]));
                    }
                }
                lemma_filter_none(b, has_key(key, ka));
                assert(a.filter(has_key(key, ka)) == b.filter(has_key(key, ka)));
            } else {
                lemma_filter_has(b, has_key(key, kb), 0);
                assert forall|i: int| 0 <= i < a.len() implies !has_key(key, kb)(#[trigger] a[i]) by {
                    if i > 0 {
                        assert(key(a[0]) >= key(a[i]));
                    }
                }
                lemma_filter_none(a, has_key(key, kb));
                assert(a.filter(has_key(key, kb)) == b.filter(has_key(key, kb)));
            }
        }
        assert(ka == kb);
        lemma_filter_front(a, has_key(key, ka));
        lemma_filter_front(b, has_key(key, ka));
        assert(a.filter(has_key(key, ka)) == b.filter(has_key(key, ka)));
        assert(a.filter(has_key(key, ka))[0] == a[0]);
        assert(b.filter(has_key(key, ka))[0] == b[0]);
        let ta = a.drop_first();
        let tb = b.drop_first();
        assert forall|k: u32| #[trigger] ta.filter(has_key(key, k)) == tb.filter(has_key(key, k)) by {
            lemma_filter_front(a, has_key(key, k));
            lemma_filter_front(b, has_key(key, k));
            assert(a.filter(has_key(key, k)) == b.filter(has_key(key, k)));
            if k == ka {
                assert(ta.filter(has_key(key, k)) =~= a.filter(has_key(key, k)).drop_first());
                assert(tb.filter(has_key(key, k)) =~= b.filter(has_key(key, k)).drop_first());
            } else {
                assert(ta.filter(has_key(key, k)) =~= a.filter(has_key(key, k)));
                assert(tb.filter(has_key(key, k)) =~= b.filter(has_key(key, k)));
            }
        }
        assert forall|i: int, j: int| 0 <= i < j < ta.len() implies key(ta[i]) >= key(ta[j]) by {
            assert(ta[i] == a[i + 1] && ta[j] == a[j + 1]);
        }
        assert forall|i: int, j: int| 0 <= i < j < tb.len() implies key(tb[i]) >= key(tb[j]) by {
            assert(tb[i] == b[i + 1] && tb[j] == b[j + 1]);
        }
        lemma_stable_sort_unique(ta, tb, key);
        assert(a =~= seq![a[0]] + ta);
        assert(b =~= seq![b[0]] + tb);
    }
}

proof fn lemma_filter_subset<A>(s: Seq<A>, pred: spec_fn(A) -> bool, x: A)
    requires
        s.filter(pred).contains(x),
    ensures
        s.contains(x),
    decreases s.len(),
{
    reveal(Seq::filter);
    if s.len() > 0 {
        let sub = s.drop_last().filter(pred);
        if pred(s.last()) && x == s.last() {
            assert(s[s.len() - 1] == x);
        } else {
            let k = choose|k: int| 0 <= k < s.filter(pred).len() && s.filter(pred)[k] == x;
            if pred(s.last()) {
                assert(k < sub.len());
                assert(sub[k] == x);
            }
            assert(sub.contains(x));
            lemma_filter_subset(s.drop_last(), pred, x);
            let m = choose|m: int| 0 <= m < s.drop_last().len() && s.drop_last()[m] == x;
            assert(s[m] == x);
        }
    }
}

/// Sequences with the same elements per key hold the same elements: each
/// element of `b` occurs in `a`.
pub proof fn lemma_same_per_key_contains<A>(a: Seq<A>, b: Seq<A>, key: spec_fn(A) -> u32, k: int)
    requires
        same_per_key(a, b, key),
        0 <= k < b.len(),
    ensures
        a.contains(b[k]),
{
    let pred = has_key(key, key(b[k]));
    b.lemma_filter_contains(pred, k);
    assert(a.filter(pred) == b.filter(pred));
    lemma_filter_subset(a, pred, b[k]);
}

/// Sorts `items` by descending key, keeping the order of items of equal key;
/// `keys[i]` is the key of `items[i]`.
pub fn sort_desc_stable<T: View>(
    items: Vec<T>,
    keys: Vec<u32>,
    Ghost(key): Ghost<spec_fn(T::V) -> u32>,
) -> (r: Vec<T>)
    requires
        keys@.len() == items@.len(),
        forall|i: int| 0 <= i < items@.len() ==> keys@[i] == key(#[trigger] items@[i]@),
    ensures
        r@.len() == items@.len(),
        sorted_desc(views(r@), key),
        same_per_key(views(r@), views(items@), key),
{
    let ghost input = views(items@);
    let mut src = items;
    let mut src_keys = keys;
    let mut out: Vec<T> = Vec::new();
    let mut out_keys: Vec<u32> = Vec::new();
    let ghost mut done: int = 0;
    proof {
        assert(input.skip(0) =~= input);
        assert forall|k: u32| #[trigger] views(out@).filter(has_key(key, k)) == input.take(0).filter(has_key(key, k)) by {
            reveal(Seq::filter);
            assert(views(out@) =~= Seq::<T::V>::empty());
            assert(input.take(0) =~= Seq::<T::V>::empty());
        }
    }
    while src.len() > 0
        invariant
            0 <= done <= input.len(),
            views(src@) == input.skip(done),
            src@.len() == input.len() - done,
            src_keys@.len() == src@.len(),
            forall|i: int| 0 <= i < src@.len() ==> src_keys@[i] == key(#[trigger] src@[i]@),
            out@.len() == done,
            out_keys@.len() == out@.len(),
            forall|i: int| 0 <= i < out@.len() ==> out_keys@[i] == key(#[trigger] out@[i]@),
            sorted_desc(views(out@), key),
            forall|k: u32| #[trigger] views(out@).filter(has_key(key, k)) == input.take(done).filter(
                has_key(key, k),
            ),
        decreases src@.len(),
    {
        let ghost src_old = src@;
        let x = src.remove(0);
        let kx = src_keys.remove(0);
        proof {
            assert(views(src_old)[0] == src_old[0]@);
            assert(src_old[0]@ == input[done]);
            assert(views(src@) =~= input.skip(done + 1)) by {
                assert forall|i: int| 0 <= i < src@.len() implies #[trigger] views(src@)[i] == input.skip(done + 1)[i] by {
                    assert(src@[i] == src_old[i + 1]);
                    assert(views(src_old)[i + 1] == input.skip(done)[i + 1]);
                }
            }
            assert forall|i: int| 0 <= i < src@.len() implies src_keys@[i] == key(#[trigger] src@[i]@) by {
                assert(src@[i] == src_old[i + 1]);
            }
        }
        let mut p: usize = 0;
        while p < out.len() && out_keys[p] >= kx
            invariant
                p <= out@.len(),
                out_keys@.len() == out@.len(),
                forall|i: int| 0 <= i < out@.len() ==> out_keys@[i] == key(#[trigger] out@[i]@),
                forall|i: int| 0 <= i < p ==> out_keys@[i] >= kx,
            decreases out.len() - p,
        {
            p += 1;
        }
        let ghost ov = views(out@);
        proof {
            assert forall|i: int| 0 <= i < p implies key(#[trigger] ov[i]) >= key(x@) by {
                assert(out_keys@[i] == key(out@[i]@));
            }
            assert forall|i: int| p <= i < ov.len() implies key(#[trigger] ov[i]) < key(x@) by {
                assert(out_keys@[p as int] == key(ov[p as int]));
                assert(key(ov[p as int]) >= key(ov[i]));
            }
            lemma_insert_step(ov, p as int, x@, key);
        }
        let ghost out_old = out@;
        let ghost keys_old = out_keys@;
        out.insert(p, x);
        out_keys.insert(p, kx);
        proof {
            assert(views(out@) =~= ov.insert(p as int, x@));
            assert(input.take(done + 1) =~= input.take(done).push(x@));
            assert forall|k: u32| #[trigger] views(out@).filter(has_key(key, k)) == input.take(done + 1).filter(
                has_key(key, k),
            ) by {
                reveal(Seq::filter);
                assert(input.take(done + 1).drop_last() =~= input.take(done));
                assert(ov.filter(has_key(key, k)) == input.take(done).filter(has_key(key, k)));
            }
            assert forall|i: int| 0 <= i < out@.len() implies out_keys@[i] == key(#[trigger] out@[i]@) by {
                if i < p {
                    assert(out@[i] == out_old[i] && out_keys@[i] == keys_old[i]);
                } else if i > p {
                    assert(out@[i] == out_old[i - 1] && out_keys@[i] == keys_old[i - 1]);
                }
            }
            done = done + 1;
        }
    }
    proof {
        assert(input.take(done) =~= input);
    }
    out
}

} // verus!
