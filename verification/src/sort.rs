//! Ordered listing: a stable insertion sort over a chosen record key, with
//! its laws — the result is sorted, is a permutation of the input, and
//! keeps records of equal rank in their original relative order.

use vstd::prelude::*;
use vstd::seq_lib::lemma_multiset_commutative;

use crate::text::{lex_le, str_le};
use crate::todo::{views, SortBy, Todo, TodoView};

verus! {

/// The order a sort key induces on two records.
pub open spec fn key_le(k: SortBy, a: TodoView, b: TodoView) -> bool {
    match k {
        SortBy::Id => a.id <= b.id,
        SortBy::Name => lex_le(a.name, b.name),
        SortBy::Priority => a.priority <= b.priority,
        SortBy::Completed => !a.completed || b.completed,
    }
}

/// Every record ranks at or below every later one.
pub open spec fn sorted_by_key(k: SortBy, s: Seq<TodoView>) -> bool {
    forall|i: int, j: int| 0 <= i < j < s.len() ==> key_le(k, #[trigger] s[i], #[trigger] s[j])
}

/// Two records of equal rank under the key: ties of the sort.
pub open spec fn same_rank(k: SortBy, a: TodoView, b: TodoView) -> bool {
    key_le(k, a, b) && key_le(k, b, a)
}

/// The records ranking equal to `v`, in their order in `s`.
pub open spec fn rank_filter(k: SortBy, s: Seq<TodoView>, v: TodoView) -> Seq<TodoView> {
    s.filter(|y: TodoView| same_rank(k, y, v))
}

/// `x` placed behind every leading record that ranks at or below it.
pub open spec fn insert_sorted(k: SortBy, x: TodoView, s: Seq<TodoView>) -> Seq<TodoView>
    decreases s.len(),
{
    if s.len() == 0 {
        seq![x]
    } else if key_le(k, s[0], x) {
        seq![s[0]] + insert_sorted(k, x, s.drop_first())
    } else {
        seq![x] + s
    }
}

/// Insertion sort of the whole sequence under the key.
pub open spec fn sort_spec(k: SortBy, s: Seq<TodoView>) -> Seq<TodoView>
    decreases s.len(),
{
    if s.len() == 0 {
        Seq::<TodoView>::empty()
    } else {
        insert_sorted(k, s.last(), sort_spec(k, s.drop_last()))
    }
}

/// The key order is reflexive.
proof fn lemma_lex_le_refl(a: Seq<char>)
    ensures
        lex_le(a, a),
    decreases a.len(),
{
    if a.len() > 0 {
        lemma_lex_le_refl(a.drop_first());
    }
}

/// Any two character sequences compare one way or the other.
proof fn lemma_lex_le_total(a: Seq<char>, b: Seq<char>)
    ensures
        lex_le(a, b) || lex_le(b, a),
    decreases a.len(),
{
    if a.len() > 0 && b.len() > 0 {
        if a[0] == b[0] {
            lemma_lex_le_total(a.drop_first(), b.drop_first());
        } else {
            vstd::utf8::char_u32_cast(a[0], a[0] as u32);
            vstd::utf8::char_u32_cast(b[0], b[0] as u32);
        }
    }
}

/// The lexicographic order is transitive.
proof fn lemma_lex_le_trans(a: Seq<char>, b: Seq<char>, c: Seq<char>)
    requires
        lex_le(a, b),
        lex_le(b, c),
    ensures
        lex_le(a, c),
    decreases a.len(),
{
    if a.len() > 0 && b.len() > 0 && c.len() > 0 {
        vstd::utf8::char_u32_cast(a[0], a[0] as u32);
        vstd::utf8::char_u32_cast(b[0], b[0] as u32);
        vstd::utf8::char_u32_cast(c[0], c[0] as u32);
        if a[0] == b[0] && b[0] == c[0] {
            lemma_lex_le_trans(a.drop_first(), b.drop_first(), c.drop_first());
        }
    }
}

/// The key order is reflexive.
proof fn lemma_key_le_refl(k: SortBy, a: TodoView)
    ensures
        key_le(k, a, a),
{
    if k is Name {
        lemma_lex_le_refl(a.name);
    }
}

/// Any two records compare one way or the other under every key.
proof fn lemma_key_le_total(k: SortBy, a: TodoView, b: TodoView)
    ensures
        key_le(k, a, b) || key_le(k, b, a),
{
    if k is Name {
        lemma_lex_le_total(a.name, b.name);
    }
}

/// The key order is transitive.
proof fn lemma_key_le_trans(k: SortBy, a: TodoView, b: TodoView, c: TodoView)
    requires
        key_le(k, a, b),
        key_le(k, b, c),
    ensures
        key_le(k, a, c),
{
    if k is Name {
        lemma_lex_le_trans(a.name, b.name, c.name);
    }
}

/// Inserting adds one record; every record of the result is the inserted
/// one or one of the sequence.
proof fn lemma_insert_sorted_membership(k: SortBy, x: TodoView, s: Seq<TodoView>)
    ensures
        insert_sorted(k, x, s).len() == s.len() + 1,
        forall|i: int|
            0 <= i < insert_sorted(k, x, s).len() ==> (#[trigger] insert_sorted(k, x, s)[i] == x
                || s.contains(insert_sorted(k, x, s)[i])),
    decreases s.len(),
{
    let r = insert_sorted(k, x, s);
    if s.len() == 0 {
    } else if key_le(k, s[0], x) {
        lemma_insert_sorted_membership(k, x, s.drop_first());
        let tail = insert_sorted(k, x, s.drop_first());
        assert forall|i: int| 0 <= i < r.len() implies (r[i] == x || s.contains(r[i])) by {
            if i == 0 {
                assert(r[0] == s[0]);
            } else {
                assert(r[i] == tail[i - 1]);
                if tail[i - 1] != x {
                    let m = choose|m: int|
                        0 <= m < s.drop_first().len() && s.drop_first()[m] == tail[i - 1];
                    assert(s[m + 1] == tail[i - 1]);
                }
            }
        }
    } else {
        assert forall|i: int| 0 <= i < r.len() implies (r[i] == x || s.contains(r[i])) by {
            if i > 0 {
                assert(r[i] == s[i - 1]);
            }
        }
    }
}

/// Inserting into a sorted sequence keeps it sorted.
proof fn lemma_insert_sorted_sorted(k: SortBy, x: TodoView, s: Seq<TodoView>)
    requires
        sorted_by_key(k, s),
    ensures
        sorted_by_key(k, insert_sorted(k, x, s)),
    decreases s.len(),
{
    let r = insert_sorted(k, x, s);
    if s.len() == 0 {
    } else if key_le(k, s[0], x) {
        let s1 = s.drop_first();
        assert(forall|i: int, j: int|
            0 <= i < j < s1.len() ==> key_le(k, #[trigger] s1[i], #[trigger] s1[j]));
        lemma_insert_sorted_sorted(k, x, s1);
        lemma_insert_sorted_membership(k, x, s1);
        let tail = insert_sorted(k, x, s1);
        assert forall|i: int, j: int| 0 <= i < j < r.len() implies key_le(
            k,
            r[i],
            r[j],
        ) by {
            if i == 0 {
                assert(r[0] == s[0]);
                assert(r[j] == tail[j - 1]);
                if tail[j - 1] == x {
                } else {
                    let m = choose|m: int| 0 <= m < s1.len() && s1[m] == tail[j - 1];
                    assert(s[m + 1] == tail[j - 1]);
                    assert(key_le(k, s[0], s[m + 1]));
                }
            } else {
                assert(r[i] == tail[i - 1]);
                assert(r[j] == tail[j - 1]);
            }
        }
    } else {
        lemma_key_le_total(k, x, s[0]);
        assert forall|i: int, j: int| 0 <= i < j < r.len() implies key_le(
            k,
            r[i],
            r[j],
        ) by {
            if i == 0 {
                assert(r[0] == x);
                assert(r[j] == s[j - 1]);
                if j - 1 > 0 {
                    assert(key_le(k, s[0], s[j - 1]));
                    lemma_key_le_trans(k, x, s[0], s[j - 1]);
                }
            } else {
                assert(r[i] == s[i - 1]);
                assert(r[j] == s[j - 1]);
            }
        }
    }
}

/// Inserting a record adds exactly it to the contents.
proof fn lemma_insert_sorted_multiset(k: SortBy, x: TodoView, s: Seq<TodoView>)
    ensures
        insert_sorted(k, x, s).to_multiset() == s.to_multiset().insert(x),
    decreases s.len(),
{
    broadcast use vstd::seq_lib::group_to_multiset_ensures;

    let r = insert_sorted(k, x, s);
    if s.len() == 0 {
        assert(seq![x] =~= Seq::<TodoView>::empty().push(x));
        assert(r.to_multiset() =~= s.to_multiset().insert(x));
    } else if key_le(k, s[0], x) {
        let s1 = s.drop_first();
        lemma_insert_sorted_multiset(k, x, s1);
        let tail = insert_sorted(k, x, s1);
        lemma_multiset_commutative(seq![s[0]], tail);
        assert(r == seq![s[0]] + tail);
        lemma_multiset_commutative(seq![s[0]], s1);
        assert(s =~= seq![s[0]] + s1);
        assert(r.to_multiset() =~= s.to_multiset().insert(x));
    } else {
        lemma_multiset_commutative(seq![x], s);
        assert(r == seq![x] + s);
        assert(seq![x].to_multiset() =~= Seq::<TodoView>::empty().push(x).to_multiset());
        assert(r.to_multiset() =~= s.to_multiset().insert(x));
    }
}

/// Every record of a filtered sequence comes from the sequence.
proof fn lemma_filter_subset(s: Seq<TodoView>, pred: spec_fn(TodoView) -> bool)
    ensures
        forall|i: int| 0 <= i < s.filter(pred).len() ==> s.contains(#[trigger] s.filter(pred)[i]),
    decreases s.len(),
{
    reveal(Seq::filter);
    if s.len() == 0 {
    } else {
        let s1 = s.drop_last();
        lemma_filter_subset(s1, pred);
        assert forall|i: int| 0 <= i < s.filter(pred).len() implies s.contains(
            #[trigger] s.filter(pred)[i],
        ) by {
            if i < s1.filter(pred).len() {
                assert(s.filter(pred)[i] == s1.filter(pred)[i]);
                let m = choose|m: int| 0 <= m < s1.len() && s1[m] == s1.filter(pred)[i];
                assert(s[m] == s1.filter(pred)[i]);
            } else {
                assert(s.filter(pred)[i] == s.last());
            }
        }
    }
}

/// Inserting into a sorted sequence appends the new record behind its
/// rank class and moves no other record across its class.
proof fn lemma_insert_sorted_rank_filter(k: SortBy, x: TodoView, s: Seq<TodoView>, v: TodoView)
    requires
        sorted_by_key(k, s),
    ensures
        rank_filter(k, insert_sorted(k, x, s), v) == if same_rank(k, x, v) {
            rank_filter(k, s, v).push(x)
        } else {
            rank_filter(k, s, v)
        },
    decreases s.len(),
{
    reveal(Seq::filter);
    let pred = |y: TodoView| same_rank(k, y, v);
    let r = insert_sorted(k, x, s);
    if s.len() == 0 {
        assert(seq![x].drop_last() =~= Seq::<TodoView>::empty());
        assert(seq![x].last() == x);
        assert(rank_filter(k, s, v) == Seq::<TodoView>::empty().filter(pred));
        if pred(x) {
            assert(r.filter(pred) =~= rank_filter(k, s, v).push(x));
        } else {
            assert(r.filter(pred) =~= rank_filter(k, s, v));
        }
    } else if key_le(k, s[0], x) {
        let s1 = s.drop_first();
        assert(forall|i: int, j: int|
            0 <= i < j < s1.len() ==> key_le(k, #[trigger] s1[i], #[trigger] s1[j]));
        lemma_insert_sorted_rank_filter(k, x, s1, v);
        let tail = insert_sorted(k, x, s1);
        Seq::filter_distributes_over_add(seq![s[0]], tail, pred);
        Seq::filter_distributes_over_add(seq![s[0]], s1, pred);
        assert(r == seq![s[0]] + tail);
        assert(s =~= seq![s[0]] + s1);
        if pred(x) {
            Seq::push_distributes_over_add(seq![s[0]].filter(pred), s1.filter(pred), x);
            assert(r.filter(pred) == seq![s[0]].filter(pred) + s1.filter(pred).push(x));
            assert(r.filter(pred) =~= s.filter(pred).push(x));
        } else {
            assert(r.filter(pred) =~= s.filter(pred));
        }
    } else {
        assert(r == seq![x] + s);
        Seq::filter_distributes_over_add(seq![x], s, pred);
        if pred(x) {
            // No record of `s` shares x's rank: the head already outranks x,
            // and a same-rank record behind it would pull the head down to x.
            assert(s.filter(pred) =~= Seq::<TodoView>::empty()) by {
                lemma_filter_subset(s, pred);
                if s.filter(pred).len() > 0 {
                    let y = s.filter(pred)[0];
                    assert(s.contains(y));
                    assert(pred(y));
                    let m = choose|m: int| 0 <= m < s.len() && s[m] == y;
                    if m > 0 {
                        assert(key_le(k, s[0], s[m]));
                    } else {
                        lemma_key_le_refl(k, s[0]);
                    }
                    lemma_key_le_trans(k, y, v, x);
                    lemma_key_le_trans(k, s[0], y, x);
                    assert(false);
                }
            }
            assert(seq![x].drop_last() =~= Seq::<TodoView>::empty());
            assert(seq![x].last() == x);
            assert(seq![x].filter(pred) =~= Seq::<TodoView>::empty().push(x));
            assert(r.filter(pred) =~= s.filter(pred).push(x));
        } else {
            assert(seq![x].drop_last() =~= Seq::<TodoView>::empty());
            assert(seq![x].last() == x);
            assert(!pred(seq![x].last()));
            assert(seq![x].filter(pred) == seq![x].drop_last().filter(pred));
            assert(Seq::<TodoView>::empty().filter(pred) == Seq::<TodoView>::empty());
            assert(r.filter(pred) =~= s.filter(pred));
        }
    }
}

/// The sorted listing is ordered: under every key, each record ranks at
/// or below every later one.
pub proof fn lemma_sort_spec_sorted(k: SortBy, s: Seq<TodoView>)
    ensures
        sorted_by_key(k, sort_spec(k, s)),
    decreases s.len(),
{
    if s.len() > 0 {
        lemma_sort_spec_sorted(k, s.drop_last());
        lemma_insert_sorted_sorted(k, s.last(), sort_spec(k, s.drop_last()));
    }
}

/// The sorted listing is a permutation: it holds exactly the records of
/// the input.
pub proof fn lemma_sort_spec_multiset(k: SortBy, s: Seq<TodoView>)
    ensures
        sort_spec(k, s).to_multiset() == s.to_multiset(),
    decreases s.len(),
{
    broadcast use vstd::seq_lib::group_to_multiset_ensures;

    if s.len() == 0 {
    } else {
        lemma_sort_spec_multiset(k, s.drop_last());
        lemma_insert_sorted_multiset(k, s.last(), sort_spec(k, s.drop_last()));
        assert(s =~= s.drop_last().push(s.last()));
        assert(s.drop_last().push(s.last()).to_multiset() == s.drop_last().to_multiset().insert(
            s.last(),
        ));
        assert(sort_spec(k, s).to_multiset() =~= s.to_multiset());
    }
}

/// The sort is stable: for every rank, the records of that rank stand in
/// the sorted listing exactly as they stood in the input.
pub proof fn lemma_sort_spec_stable(k: SortBy, s: Seq<TodoView>, v: TodoView)
    ensures
        rank_filter(k, sort_spec(k, s), v) == rank_filter(k, s, v),
    decreases s.len(),
{
    reveal(Seq::filter);
    let pred = |y: TodoView| same_rank(k, y, v);
    if s.len() == 0 {
    } else {
        let s1 = s.drop_last();
        lemma_sort_spec_stable(k, s1, v);
        lemma_sort_spec_sorted(k, s1);
        lemma_insert_sorted_rank_filter(k, s.last(), sort_spec(k, s1), v);
        assert(s1.push(s.last()) =~= s);
        assert(s1.push(s.last()).drop_last() =~= s1);
        assert(s.filter(pred) == if pred(s.last()) {
            s1.filter(pred).push(s.last())
        } else {
            s1.filter(pred)
        });
    }
}

/// The exec comparison of two records under a key.
fn key_le_exec(k: SortBy, a: &Todo, b: &Todo) -> (r: bool)
    ensures
        r == key_le(k, a@, b@),
{
    match k {
        SortBy::Id => a.id <= b.id,
        SortBy::Name => str_le(a.name.as_str(), b.name.as_str()),
        SortBy::Priority => a.priority <= b.priority,
        SortBy::Completed => !a.completed || b.completed,
    }
}

/// Inserting exactly where the spec insertion puts the record.
proof fn lemma_insert_sorted_position(k: SortBy, x: TodoView, s: Seq<TodoView>, p: int)
    requires
        0 <= p <= s.len(),
        forall|m: int| 0 <= m < p ==> key_le(k, #[trigger] s[m], x),
        p < s.len() ==> !key_le(k, s[p], x),
    ensures
        insert_sorted(k, x, s) == s.take(p) + seq![x] + s.skip(p),
    decreases s.len(),
{
    if s.len() == 0 {
        assert(insert_sorted(k, x, s) =~= s.take(p) + seq![x] + s.skip(p));
    } else if p == 0 {
        assert(s.take(0) =~= Seq::<TodoView>::empty());
        assert(s.skip(0) =~= s);
        assert(insert_sorted(k, x, s) =~= s.take(p) + seq![x] + s.skip(p));
    } else {
        assert(key_le(k, s[0], x));
        let s1 = s.drop_first();
        lemma_insert_sorted_position(k, x, s1, p - 1);
        assert(insert_sorted(k, x, s) == seq![s[0]] + (s1.take(p - 1) + seq![x] + s1.skip(p - 1)));
        assert(insert_sorted(k, x, s) =~= s.take(p) + seq![x] + s.skip(p));
    }
}

/// Inserts a record into an already built prefix at its sorted place.
fn insert_by_key(out: &mut Vec<Todo>, k: SortBy, x: Todo)
    ensures
        views(final(out)@) == insert_sorted(k, x@, views(old(out)@)),
{
    let n = out.len();
    let mut p: usize = 0;
    loop
        invariant
            n == out@.len(),
            out@ == old(out)@,
            p <= n,
            forall|m: int| 0 <= m < p ==> key_le(k, #[trigger] views(out@)[m], x@),
        ensures
            n == out@.len(),
            out@ == old(out)@,
            p <= n,
            forall|m: int| 0 <= m < p ==> key_le(k, #[trigger] views(out@)[m], x@),
            p < n ==> !key_le(k, views(out@)[p as int], x@),
        decreases n - p,
    {
        if p == n {
            break ;
        }
        if !key_le_exec(k, &out[p], &x) {
            break ;
        }
        p += 1;
    }
    proof {
        lemma_insert_sorted_position(k, x@, views(out@), p as int);
    }
    out.insert(p, x);
    proof {
        assert(views(out@) =~= views(old(out)@).take(p as int) + seq![x@] + views(
            old(out)@,
        ).skip(p as int));
    }
}

impl Todo {
    /// Orders a loaded list by the chosen key — ascending, stable — and
    /// reverses that order exactly when asked to.
    pub fn list_activities(records: &Vec<Todo>, sort: SortBy, reverse: bool) -> (r: Vec<Todo>)
        ensures
            !reverse ==> views(r@) == sort_spec(sort, views(records@)),
            reverse ==> views(r@) == sort_spec(sort, views(records@)).reverse(),
    {
        let n = records.len();
        let mut out: Vec<Todo> = Vec::new();
        proof {
            assert(views(records@.take(0)) =~= Seq::<TodoView>::empty());
            assert(views(out@) =~= sort_spec(sort, views(records@.take(0))));
        }
        let mut i: usize = 0;
        while i < n
            invariant
                n == records@.len(),
                i <= n,
                views(out@) == sort_spec(sort, views(records@.take(i as int))),
            decreases n - i,
        {
            let x = records[i].clone();
            proof {
                let prev = views(records@.take(i as int));
                let next = views(records@.take((i + 1) as int));
                assert(next =~= prev.push(records@[i as int]@));
                assert(next.drop_last() =~= prev);
                assert(next.last() == records@[i as int]@);
            }
            insert_by_key(&mut out, sort, x);
            i += 1;
        }
        proof {
            assert(records@.take(n as int) =~= records@);
        }
        if !reverse {
            return out;
        }
        let mut rev: Vec<Todo> = Vec::new();
        let mut j: usize = n;
        proof {
            assert(views(out@).len() == n) by {
                lemma_sort_len(sort, views(records@));
            }
        }
        while j > 0
            invariant
                out@.len() == n,
                j <= n,
                rev@.len() == n - j,
                forall|m: int| 0 <= m < n - j ==> #[trigger] rev@[m]@ == out@[n - 1 - m]@,
            decreases j,
        {
            j -= 1;
            let c = out[j].clone();
            rev.push(c);
        }
        proof {
            assert(views(rev@) =~= views(out@).reverse());
        }
        rev
    }
}

/// Sorting keeps the length.
pub proof fn lemma_sort_len(k: SortBy, s: Seq<TodoView>)
    ensures
        sort_spec(k, s).len() == s.len(),
    decreases s.len(),
{
    if s.len() > 0 {
        lemma_sort_len(k, s.drop_last());
        lemma_insert_sorted_membership(k, s.last(), sort_spec(k, s.drop_last()));
    }
}

} // verus!
