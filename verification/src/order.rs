//! Lexicographic order on strings and stable insertion sorting.
//!
//! Strings are compared character by character on code points, which is the
//! order `String`'s `Ord` gives (UTF-8 preserves code-point order bytewise).

use vstd::prelude::*;

use crate::text::chars_of;

verus! {

broadcast use vstd::seq_lib::group_to_multiset_ensures;

/// `a` sorts strictly before `b`.
pub open spec fn chars_lt(a: Seq<char>, b: Seq<char>) -> bool
    decreases a.len(),
{
    if a.len() == 0 {
        b.len() > 0
    } else if b.len() == 0 {
        false
    } else if a[0] != b[0] {
        (a[0] as u32) < (b[0] as u32)
    } else {
        chars_lt(a.drop_first(), b.drop_first())
    }
}

/// `a` sorts before `b` or equals it.
pub open spec fn chars_le(a: Seq<char>, b: Seq<char>) -> bool {
    a == b || chars_lt(a, b)
}

/// Totality: of two distinct strings one sorts before the other.
pub proof fn lemma_lt_total(a: Seq<char>, b: Seq<char>)
    ensures
        a == b || chars_lt(a, b) || chars_lt(b, a),
        !(chars_lt(a, b) && chars_lt(b, a)),
    decreases a.len(),
{
    if a.len() > 0 && b.len() > 0 {
        lemma_lt_total(a.drop_first(), b.drop_first());
        if a[0] != b[0] {
            vstd::utf8::char_u32_cast(a[0], a[0] as u32);
            vstd::utf8::char_u32_cast(b[0], b[0] as u32);
            assert((a[0] as u32) != (b[0] as u32));
        }
        if a[0] == b[0] && a.drop_first() == b.drop_first() {
            assert(a =~= seq![a[0]] + a.drop_first());
            assert(b =~= seq![b[0]] + b.drop_first());
        }
    } else if a.len() == 0 && b.len() == 0 {
        assert(a =~= b);
    }
}

/// Transitivity of the strict order.
pub proof fn lemma_lt_transitive(a: Seq<char>, b: Seq<char>, c: Seq<char>)
    requires
        chars_lt(a, b),
        chars_lt(b, c),
    ensures
        chars_lt(a, c),
    decreases a.len(),
{
    if a.len() > 0 && b.len() > 0 && c.len() > 0 && a[0] == b[0] && b[0] == c[0] {
        lemma_lt_transitive(a.drop_first(), b.drop_first(), c.drop_first());
    }
}

/// Whether `a` sorts strictly before `b`, computed.
pub fn chars_less(a: &Vec<char>, b: &Vec<char>) -> (r: bool)
    ensures
        r == chars_lt(a@, b@),
{
    let mut i: usize = 0;
    assert(a@.subrange(0, a@.len() as int) =~= a@);
    assert(b@.subrange(0, b@.len() as int) =~= b@);
    while i < a.len() && i < b.len() && a[i] == b[i]
        invariant
            i <= a@.len(),
            i <= b@.len(),
            chars_lt(a@, b@) == chars_lt(a@.subrange(i as int, a@.len() as int), b@.subrange(
                i as int,
                b@.len() as int,
            )),
        decreases a@.len() - i,
    {
        proof {
            let sa = a@.subrange(i as int, a@.len() as int);
            let sb = b@.subrange(i as int, b@.len() as int);
            assert(sa.drop_first() =~= a@.subrange(i + 1, a@.len() as int));
            assert(sb.drop_first() =~= b@.subrange(i + 1, b@.len() as int));
        }
        i = i + 1;
    }
    proof {
        let sa = a@.subrange(i as int, a@.len() as int);
        let sb = b@.subrange(i as int, b@.len() as int);
        if i < a@.len() && i < b@.len() {
            assert(sa[0] == a@[i as int] && sb[0] == b@[i as int]);
        }
    }
    if i == a.len() {
        i < b.len()
    } else if i == b.len() {
        false
    } else {
        (a[i] as u32) < (b[i] as u32)
    }
}

/// The names (first components) of a list of named entries.
pub open spec fn names_of(v: Seq<(Seq<char>, Seq<char>)>) -> Seq<Seq<char>> {
    v.map_values(|e: (Seq<char>, Seq<char>)| e.0)
}

/// A list whose strings never decrease.
pub open spec fn sorted(s: Seq<Seq<char>>) -> bool {
    forall|i: int, j: int| 0 <= i < j < s.len() ==> chars_le(#[trigger] s[i], #[trigger] s[j])
}

/// Inserts `x` into a sorted list after every element that does not sort
/// after it.
fn insert_sorted_pair(out: &mut Vec<(String, String)>, x: (String, String))
    requires
        sorted(names_of(old(out).deep_view())),
    ensures
        sorted(names_of(final(out).deep_view())),
        final(out).deep_view().to_multiset() =~= old(out).deep_view().to_multiset().insert(x.deep_view()),
{
    let ghost o = out.deep_view();
    let xk = chars_of(x.0.as_str());
    let mut p: usize = out.len();
    while p > 0
        invariant
            p <= out@.len(),
            out.deep_view() == o,
            xk@ == x.0@,
            forall|j: int| p <= j < o.len() ==> chars_lt(xk@, #[trigger] o[j].0),
        ensures
            p <= o.len(),
            out.deep_view() == o,
            forall|j: int| p <= j < o.len() ==> chars_lt(xk@, #[trigger] o[j].0),
            p == 0 || !chars_lt(xk@, o[p - 1].0),
        decreases p,
    {
        let yk = chars_of(out[p - 1].0.as_str());
        if !chars_less(&xk, &yk) {
            break;
        }
        assert(yk@ == o[p - 1].0);
        p = p - 1;
    }
    proof {
        if p > 0 {
            lemma_lt_total(xk@, o[p - 1].0);
        }
    }
    let ghost xv = x.deep_view();
    out.insert(p, x);
    proof {
        let n = out.deep_view();
        assert(n =~= o.insert(p as int, xv));
        assert(n.remove(p as int) =~= o);
        assert(n[p as int] == xv);
        assert forall|i: int, j: int|
            0 <= i < j < n.len() implies chars_le(
            #[trigger] names_of(n)[i],
            #[trigger] names_of(n)[j],
        ) by {
            let a = n[i].0;
            let b = n[j].0;
            assert(names_of(n)[i] == a);
            assert(names_of(n)[j] == b);
            if i < p && j < p {
                assert(names_of(o)[i] == a && names_of(o)[j] == b);
            } else if i < p && j == p {
                let m = o[p - 1].0;
                assert(b == xk@);
                assert(chars_le(m, b));
                if i < p - 1 {
                    assert(names_of(o)[i] == a && names_of(o)[p - 1] == m);
                    assert(chars_le(a, m));
                    if chars_lt(a, m) && chars_lt(m, b) {
                        lemma_lt_transitive(a, m, b);
                    }
                }
            } else if i < p && j > p {
                assert(names_of(o)[i] == a && names_of(o)[j - 1] == b);
            } else if i == p {
                assert(chars_lt(xk@, o[j - 1].0));
            } else {
                assert(names_of(o)[i - 1] == a && names_of(o)[j - 1] == b);
            }
        }
    }
}

/// The entries sorted by name (`sort_by` on the names): the same entries,
/// their names in order.
pub fn sort_by_name(v: Vec<(String, String)>) -> (r: Vec<(String, String)>)
    ensures
        sorted(names_of(r.deep_view())),
        r.deep_view().to_multiset() =~= v.deep_view().to_multiset(),
{
    let mut out: Vec<(String, String)> = Vec::new();
    let mut i: usize = 0;
    while i < v.len()
        invariant
            i <= v@.len(),
            sorted(names_of(out.deep_view())),
            out.deep_view().to_multiset() =~= v.deep_view().take(i as int).to_multiset(),
        decreases v@.len() - i,
    {
        let x = (v[i].0.clone(), v[i].1.clone());
        insert_sorted_pair(&mut out, x);
        proof {
            assert(v.deep_view().take(i + 1) =~= v.deep_view().take(i as int).push(
                v.deep_view()[i as int],
            ));
        }
        i = i + 1;
    }
    assert(v.deep_view().take(i as int) =~= v.deep_view());
    out
}

/// Inserts `x` into a sorted list after every element that does not sort
/// after it.
fn insert_sorted_string(out: &mut Vec<String>, x: String)
    requires
        sorted(old(out).deep_view()),
    ensures
        sorted(final(out).deep_view()),
        final(out).deep_view().to_multiset() =~= old(out).deep_view().to_multiset().insert(x@),
{
    let ghost o = out.deep_view();
    let xk = chars_of(x.as_str());
    let mut p: usize = out.len();
    while p > 0
        invariant
            p <= out@.len(),
            out.deep_view() == o,
            xk@ == x@,
            forall|j: int| p <= j < o.len() ==> chars_lt(xk@, #[trigger] o[j]),
        ensures
            p <= o.len(),
            out.deep_view() == o,
            forall|j: int| p <= j < o.len() ==> chars_lt(xk@, #[trigger] o[j]),
            p == 0 || !chars_lt(xk@, o[p - 1]),
        decreases p,
    {
        let yk = chars_of(out[p - 1].as_str());
        if !chars_less(&xk, &yk) {
            break;
        }
        p = p - 1;
    }
    proof {
        if p > 0 {
            lemma_lt_total(xk@, o[p - 1]);
        }
    }
    let ghost xv = x@;
    out.insert(p, x);
    proof {
        let n = out.deep_view();
        assert(n =~= o.insert(p as int, xv));
        assert(n.remove(p as int) =~= o);
        assert(n[p as int] == xv);
        assert forall|i: int, j: int| 0 <= i < j < n.len() implies chars_le(
            #[trigger] n[i],
            #[trigger] n[j],
        ) by {
            let a = n[i];
            let b = n[j];
            if i < p && j < p {
                assert(o[i] == a && o[j] == b);
            } else if i < p && j == p {
                let m = o[p - 1];
                assert(chars_le(m, b));
                if i < p - 1 {
                    assert(o[i] == a);
                    assert(chars_le(a, m));
                    if chars_lt(a, m) && chars_lt(m, b) {
                        lemma_lt_transitive(a, m, b);
                    }
                }
            } else if i < p && j > p {
                assert(o[i] == a && o[j - 1] == b);
            } else if i == p {
                assert(chars_lt(xk@, o[j - 1]));
            } else {
                assert(o[i - 1] == a && o[j - 1] == b);
            }
        }
    }
}

/// The strings sorted (`sort`).
pub fn sort_strings(v: Vec<String>) -> (r: Vec<String>)
    ensures
        sorted(r.deep_view()),
        r.deep_view().to_multiset() =~= v.deep_view().to_multiset(),
{
    let mut out: Vec<String> = Vec::new();
    let mut i: usize = 0;
    while i < v.len()
        invariant
            i <= v@.len(),
            sorted(out.deep_view()),
            out.deep_view().to_multiset() =~= v.deep_view().take(i as int).to_multiset(),
        decreases v@.len() - i,
    {
        let x = v[i].clone();
        insert_sorted_string(&mut out, x);
        proof {
            assert(v.deep_view().take(i + 1) =~= v.deep_view().take(i as int).push(
                v.deep_view()[i as int],
            ));
        }
        i = i + 1;
    }
    assert(v.deep_view().take(i as int) =~= v.deep_view());
    out
}

} // verus!
