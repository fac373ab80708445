//! Lexicographic order on character sequences (the order of `str`'s `Ord`,
//! which compares code points).

use vstd::prelude::*;

verus! {

/// `a` sorts strictly before `b`.
pub open spec fn chars_lt(a: Seq<char>, b: Seq<char>) -> bool
    decreases a.len(),
{
    if b.len() == 0 {
        false
    } else if a.len() == 0 {
        true
    } else if a[0] != b[0] {
        (a[0] as u32) < (b[0] as u32)
    } else {
        chars_lt(a.drop_first(), b.drop_first())
    }
}

pub open spec fn chars_le(a: Seq<char>, b: Seq<char>) -> bool {
    a == b || chars_lt(a, b)
}

/// Distinct characters have distinct code points.
pub proof fn lemma_char_code_injective(a: char, b: char)
    requires
        a != b,
    ensures
        (a as u32) != (b as u32),
{
}

pub proof fn lemma_chars_lt_irreflexive(a: Seq<char>)
    ensures
        !chars_lt(a, a),
    decreases a.len(),
{
    if a.len() > 0 {
        lemma_chars_lt_irreflexive(a.drop_first());
    }
}

pub proof fn lemma_chars_lt_transitive(a: Seq<char>, b: Seq<char>, c: Seq<char>)
    requires
        chars_lt(a, b),
        chars_lt(b, c),
    ensures
        chars_lt(a, c),
    decreases a.len(),
{
    if a.len() > 0 && b.len() > 0 && c.len() > 0 {
        if a[0] == b[0] && b[0] == c[0] {
            lemma_chars_lt_transitive(a.drop_first(), b.drop_first(), c.drop_first());
        }
    }
}

/// Any two sequences are ordered one way or the other, or equal.
pub proof fn lemma_chars_lt_total(a: Seq<char>, b: Seq<char>)
    ensures
        chars_lt(a, b) || chars_lt(b, a) || a == b,
    decreases a.len(),
{
    if a.len() > 0 && b.len() > 0 {
        if a[0] == b[0] {
            lemma_chars_lt_total(a.drop_first(), b.drop_first());
            if a.drop_first() == b.drop_first() {
                assert(a =~= seq![a[0]] + a.drop_first());
                assert(b =~= seq![b[0]] + b.drop_first());
            }
        } else {
            lemma_char_code_injective(a[0], b[0]);
        }
    } else if a.len() == 0 && b.len() == 0 {
        assert(a =~= b);
    }
}

pub proof fn lemma_chars_lt_asymmetric(a: Seq<char>, b: Seq<char>)
    requires
        chars_lt(a, b),
    ensures
        !chars_lt(b, a),
{
    if chars_lt(b, a) {
        lemma_chars_lt_transitive(a, b, a);
        lemma_chars_lt_irreflexive(a);
    }
}

/// Whether `a` sorts strictly before `b`.
pub fn str_lt(a: &str, b: &str) -> (res: bool)
    ensures
        res == chars_lt(a@, b@),
{
    let x = crate::text::chars_of(a);
    let y = crate::text::chars_of(b);
    let mut i: usize = 0;
    assert(x@.subrange(0, x@.len() as int) =~= x@);
    assert(y@.subrange(0, y@.len() as int) =~= y@);
    while i < x.len() && i < y.len()
        invariant
            x@ == a@,
            y@ == b@,
            i <= x@.len(),
            i <= y@.len(),
            x@.subrange(0, i as int) == y@.subrange(0, i as int),
            chars_lt(x@, y@) == chars_lt(x@.subrange(i as int, x@.len() as int), y@.subrange(i as int, y@.len() as int)),
        decreases x@.len() - i,
    {
        let ghost xs = x@.subrange(i as int, x@.len() as int);
        let ghost ys = y@.subrange(i as int, y@.len() as int);
        if x[i] != y[i] {
            assert(xs[0] == x[i as int] && ys[0] == y[i as int]);
            assert(xs.len() > 0 && ys.len() > 0);
            let p = x[i];
            let q = y[i];
            let r = (p as u32) < (q as u32);
            assert(r == ((xs[0] as u32) < (ys[0] as u32)));
            assert(chars_lt(xs, ys) == r);
            return r;
        }
        proof {
            assert(xs.drop_first() =~= x@.subrange(i + 1, x@.len() as int));
            assert(ys.drop_first() =~= y@.subrange(i + 1, y@.len() as int));
            assert(x@.subrange(0, i + 1) =~= x@.subrange(0, i as int).push(x@[i as int]));
            assert(y@.subrange(0, i + 1) =~= y@.subrange(0, i as int).push(y@[i as int]));
        }
        i = i + 1;
    }
    proof {
        assert(x@.subrange(i as int, x@.len() as int).len() == 0 || y@.subrange(i as int, y@.len() as int).len() == 0);
    }
    i < y.len()
}


/// A record ordered by a text key (a device node, a path).
pub trait TextKeyed {
    spec fn key_view(&self) -> Seq<char>;

    fn key(&self) -> (res: &str)
        ensures
            res@ == self.key_view();
}

/// No later key sorts before an earlier one.
pub open spec fn sorted_by_key<T: TextKeyed>(v: Seq<T>) -> bool {
    forall|i: int, j: int| 0 <= i < j < v.len() ==> !chars_lt(v[j].key_view(), v[i].key_view())
}

proof fn lemma_not_lt_transitive(a: Seq<char>, b: Seq<char>, c: Seq<char>)
    requires
        !chars_lt(b, a),
        !chars_lt(c, b),
    ensures
        !chars_lt(c, a),
{
    lemma_chars_lt_total(a, b);
    if chars_lt(c, a) {
        if a == b {
        } else {
            lemma_chars_lt_transitive(c, a, b);
        }
    }
}

/// Orders records by key (a stable insertion sort): the result is sorted
/// and holds exactly the given records.
pub fn sort_by_key<T: TextKeyed>(items: Vec<T>) -> (res: Vec<T>)
    ensures
        sorted_by_key(res@),
        res@.to_multiset() == items@.to_multiset(),
{
    broadcast use vstd::multiset::group_multiset_axioms;
    broadcast use vstd::multiset::group_multiset_properties;

    let mut rest = items;
    let mut out: Vec<T> = Vec::new();
    let ghost all = rest@;
    proof {
        vstd::seq_lib::to_multiset_len(out@);
        assert(out@.to_multiset() =~= vstd::multiset::Multiset::empty());
        assert(vstd::multiset::Multiset::<T>::empty().add(all.to_multiset()) =~= all.to_multiset());
    }
    while rest.len() > 0
        invariant
            sorted_by_key(out@),
            out@.to_multiset().add(rest@.to_multiset()) == all.to_multiset(),
        decreases rest@.len(),
    {
        let ghost before_rest = rest@;
        let ghost before_out = out@;
        let x = rest.pop().unwrap();
        proof {
            assert(before_rest =~= rest@.push(x));
            vstd::seq_lib::to_multiset_build(rest@, x);
        }
        let mut k: usize = 0;
        while k < out.len() && str_lt(out[k].key(), x.key())
            invariant
                k <= out@.len(),
                before_out == out@,
                forall|j: int| 0 <= j < k ==> chars_lt(out@[j].key_view(), x.key_view()),
            decreases out@.len() - k,
        {
            k = k + 1;
        }
        let ghost xv = x;
        out.insert(k, x);
        proof {
            vstd::seq_lib::to_multiset_insert(before_out, k as int, xv);
            assert(out@.to_multiset().add(rest@.to_multiset()) =~= before_out.to_multiset().add(
                before_rest.to_multiset(),
            ));
            let v = out@;
            assert forall|i: int, j: int| 0 <= i < j < v.len() implies !chars_lt(
                v[j].key_view(),
                v[i].key_view(),
            ) by {
                if j < k {
                    assert(v[i] == before_out[i] && v[j] == before_out[j]);
                } else if j == k {
                    assert(v[i] == before_out[i]);
                    lemma_chars_lt_asymmetric(before_out[i].key_view(), xv.key_view());
                } else if i == k {
                    assert(v[j] == before_out[j - 1]);
                    if k < before_out.len() {
                        assert(!chars_lt(before_out[k as int].key_view(), xv.key_view()));
                        if j - 1 > k {
                            lemma_not_lt_transitive(
                                xv.key_view(),
                                before_out[k as int].key_view(),
                                before_out[j - 1].key_view(),
                            );
                        }
                    }
                } else if i < k {
                    assert(v[i] == before_out[i] && v[j] == before_out[j - 1]);
                } else {
                    assert(v[i] == before_out[i - 1] && v[j] == before_out[j - 1]);
                }
            }
        }
    }
    proof {
        vstd::seq_lib::to_multiset_len(rest@);
        assert(rest@.to_multiset() =~= vstd::multiset::Multiset::empty());
        assert(out@.to_multiset().add(vstd::multiset::Multiset::empty()) =~= out@.to_multiset());
    }
    out
}

} // verus!
