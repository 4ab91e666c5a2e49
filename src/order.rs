//! A total order on texts (character codes compared left to right, a prefix
//! first) and sorting by it, so that a list of texts has one arrangement
//! whatever order it was gathered in.
use vstd::prelude::*;
use vstd::relations::{sorted_by, total_ordering};
use crate::request::strings_view;

verus! {

/// `a` comes no later than `b`: at the first position where they differ, `a`
/// has the smaller character code, or `a` is a prefix of `b`.
pub open spec fn text_le(a: Seq<char>, b: Seq<char>) -> bool
    decreases a.len(),
{
    if a.len() == 0 {
        true
    } else if b.len() == 0 {
        false
    } else if a[0] < b[0] {
        true
    } else if a[0] > b[0] {
        false
    } else {
        text_le(a.drop_first(), b.drop_first())
    }
}

pub open spec fn text_order() -> spec_fn(Seq<char>, Seq<char>) -> bool {
    |a: Seq<char>, b: Seq<char>| text_le(a, b)
}

proof fn lemma_le_total(a: Seq<char>, b: Seq<char>)
    ensures
        text_le(a, b) || text_le(b, a),
    decreases a.len(),
{
    if a.len() > 0 && b.len() > 0 && a[0] == b[0] {
        lemma_le_total(a.drop_first(), b.drop_first());
    }
}

proof fn lemma_le_antisymmetric(a: Seq<char>, b: Seq<char>)
    requires
        text_le(a, b),
        text_le(b, a),
    ensures
        a == b,
    decreases a.len(),
{
    if a.len() > 0 {
        assert(a[0] == b[0]);
        lemma_le_antisymmetric(a.drop_first(), b.drop_first());
        assert(a =~= seq![a[0]] + a.drop_first());
        assert(b =~= seq![b[0]] + b.drop_first());
    }
}

proof fn lemma_le_transitive(a: Seq<char>, b: Seq<char>, c: Seq<char>)
    requires
        text_le(a, b),
        text_le(b, c),
    ensures
        text_le(a, c),
    decreases a.len(),
{
    if a.len() > 0 && b.len() > 0 && c.len() > 0 && a[0] == b[0] && b[0] == c[0] {
        lemma_le_transitive(a.drop_first(), b.drop_first(), c.drop_first());
    }
}

proof fn lemma_le_reflexive(a: Seq<char>)
    ensures
        text_le(a, a),
    decreases a.len(),
{
    if a.len() > 0 {
        lemma_le_reflexive(a.drop_first());
    }
}

/// The text order is a total order.
pub proof fn lemma_text_order_total()
    ensures
        total_ordering(text_order()),
{
    assert forall|a: Seq<char>| #[trigger] text_order()(a, a) by {
        lemma_le_reflexive(a);
    }
    assert forall|a: Seq<char>, b: Seq<char>|
        #[trigger] text_order()(a, b) && #[trigger] text_order()(b, a) implies a == b by {
        lemma_le_antisymmetric(a, b);
    }
    assert forall|a: Seq<char>, b: Seq<char>, c: Seq<char>|
        #[trigger] text_order()(a, b) && #[trigger] text_order()(b, c) implies text_order()(a, c) by {
        lemma_le_transitive(a, b, c);
    }
    assert forall|a: Seq<char>, b: Seq<char>|
        #[trigger] text_order()(a, b) || #[trigger] text_order()(b, a) by {
        lemma_le_total(a, b);
    }
}

/// Two lists sorted by the text order that hold the same texts, with
/// multiplicity, are the same list.
pub proof fn lemma_sorted_unique(a: Seq<Seq<char>>, b: Seq<Seq<char>>)
    requires
        sorted_by(a, text_order()),
        sorted_by(b, text_order()),
        a.to_multiset() == b.to_multiset(),
    ensures
        a == b,
    decreases a.len(),
{
    broadcast use vstd::seq_lib::group_to_multiset_ensures;
    lemma_text_order_total();
    if a.len() == 0 {
        assert(b.len() == 0);
        assert(a =~= b);
    } else {
        assert(a.to_multiset().count(a[0]) > 0);
        assert(b.contains(a[0]));
        let j = choose|j: int| 0 <= j < b.len() && b[j] == a[0];
        assert(text_le(b[0], a[0])) by {
            if j > 0 {
                assert(text_order()(b[0], b[j]));
            } else {
                lemma_le_reflexive(b[0]);
            }
        }
        assert(a.to_multiset().count(b[0]) > 0);
        assert(a.contains(b[0]));
        let i = choose|i: int| 0 <= i < a.len() && a[i] == b[0];
        assert(text_le(a[0], b[0])) by {
            if i > 0 {
                assert(text_order()(a[0], a[i]));
            } else {
                lemma_le_reflexive(a[0]);
            }
        }
        lemma_le_antisymmetric(a[0], b[0]);
        let a1 = a.remove(0);
        let b1 = b.remove(0);
        assert(sorted_by(a1, text_order())) by {
            assert forall|x: int, y: int| 0 <= x < y < a1.len() implies #[trigger] text_order()(a1[x], a1[y]) by {
                assert(a1[x] == a[x + 1] && a1[y] == a[y + 1]);
            }
        }
        assert(sorted_by(b1, text_order())) by {
            assert forall|x: int, y: int| 0 <= x < y < b1.len() implies #[trigger] text_order()(b1[x], b1[y]) by {
                assert(b1[x] == b[x + 1] && b1[y] == b[y + 1]);
            }
        }
        lemma_sorted_unique(a1, b1);
        assert(a =~= b) by {
            assert forall|x: int| 0 <= x < a.len() implies a[x] == b[x] by {
                if x > 0 {
                    assert(a[x] == a1[x - 1] && b[x] == b1[x - 1]);
                }
            }
        }
    }
}

/// Whether `a` comes no later than `b` in the text order.
pub fn text_le_of(a: &String, b: &String) -> (r: bool)
    ensures
        r == text_le(a@, b@),
{
    let na = a.as_str().unicode_len();
    let nb = b.as_str().unicode_len();
    let mut i: usize = 0;
    assert(a@.subrange(0, na as int) =~= a@);
    assert(b@.subrange(0, nb as int) =~= b@);
    while i < na && i < nb
        invariant
            na == a@.len(),
            nb == b@.len(),
            i <= na,
            i <= nb,
            text_le(a@, b@) == text_le(a@.subrange(i as int, na as int), b@.subrange(i as int, nb as int)),
        decreases na - i,
    {
        let ca = a.as_str().get_char(i);
        let cb = b.as_str().get_char(i);
        let ghost sa = a@.subrange(i as int, na as int);
        let ghost sb = b@.subrange(i as int, nb as int);
        assert(sa[0] == ca && sb[0] == cb);
        if ca < cb {
            return true;
        }
        if ca > cb {
            return false;
        }
        assert(sa.drop_first() =~= a@.subrange(i + 1, na as int));
        assert(sb.drop_first() =~= b@.subrange(i + 1, nb as int));
        i = i + 1;
    }
    i == na
}

/// The texts of `v`, sorted by the text order.
pub fn sort_texts(v: &Vec<String>) -> (r: Vec<String>)
    ensures
        strings_view(r@) == strings_view(v@).sort_by(text_order()),
{
    broadcast use vstd::seq_lib::group_to_multiset_ensures;
    let mut r: Vec<String> = Vec::new();
    let mut k: usize = 0;
    proof {
        lemma_text_order_total();
        assert(strings_view(v@).subrange(0, 0) =~= Seq::<Seq<char>>::empty());
        assert(strings_view(r@) =~= Seq::<Seq<char>>::empty());
    }
    while k < v.len()
        invariant
            k <= v.len(),
            total_ordering(text_order()),
            sorted_by(strings_view(r@), text_order()),
            strings_view(r@).to_multiset() == strings_view(v@).subrange(0, k as int).to_multiset(),
        decreases v.len() - k,
    {
        let x = v[k].clone();
        let mut p: usize = 0;
        while p < r.len() && text_le_of(&r[p], &x)
            invariant
                p <= r.len(),
                k < v.len(),
                x == v@[k as int],
                total_ordering(text_order()),
                sorted_by(strings_view(r@), text_order()),
                strings_view(r@).to_multiset() == strings_view(v@).subrange(0, k as int).to_multiset(),
                forall|q: int| 0 <= q < p ==> text_le(#[trigger] strings_view(r@)[q], x@),
            decreases r.len() - p,
        {
            p = p + 1;
        }
        let ghost s = strings_view(r@);
        r.insert(p, x);
        proof {
            let t = s.insert(p as int, x@);
            assert(strings_view(r@) =~= t);
            if p < s.len() {
                lemma_le_total(s[p as int], x@);
            }
            assert forall|i: int, j: int| 0 <= i < j < t.len() implies #[trigger] text_order()(t[i], t[j]) by {
                if j < p {
                    assert(text_order()(s[i], s[j]));
                } else if j == p {
                    assert(text_le(s[i], x@));
                } else if i < p {
                    assert(text_order()(s[i], s[j - 1]));
                } else if i == p {
                    if j - 1 > p {
                        assert(text_order()(s[p as int], s[j - 1]));
                        lemma_le_transitive(x@, s[p as int], s[j - 1]);
                    }
                } else {
                    assert(text_order()(s[i - 1], s[j - 1]));
                }
            }
            let pre = strings_view(v@).subrange(0, k as int);
            assert(strings_view(v@).subrange(0, k + 1) =~= pre.push(x@));
            vstd::seq_lib::to_multiset_insert(s, p as int, x@);
            vstd::seq_lib::to_multiset_build(pre, x@);
        }
        k = k + 1;
    }
    proof {
        assert(strings_view(v@).subrange(0, k as int) =~= strings_view(v@));
        strings_view(v@).lemma_sort_by_ensures(text_order());
        lemma_sorted_unique(strings_view(r@), strings_view(v@).sort_by(text_order()));
    }
    r
}

} // verus!
