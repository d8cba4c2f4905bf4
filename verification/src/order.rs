//! Ordering strings as `String`'s `Ord` does (by code point, first difference decides,
//! a proper prefix first), and sorting lists of strings.
use vstd::prelude::*;
use crate::text::chars_of;

verus! {

broadcast use vstd::seq_lib::group_seq_properties;

/// `a` comes no later than `b` in lexicographic code-point order.
pub open spec fn lex_le(a: Seq<char>, b: Seq<char>) -> bool
    decreases a.len(),
{
    if a.len() == 0 {
        true
    } else if b.len() == 0 {
        false
    } else if a[0] != b[0] {
        (a[0] as u32) < (b[0] as u32)
    } else {
        lex_le(a.drop_first(), b.drop_first())
    }
}

/// The views of `v` are in order.
pub open spec fn sorted_strings(v: Seq<String>) -> bool {
    forall|i: int, j: int| 0 <= i < j < v.len() ==> lex_le(#[trigger] v[i]@, #[trigger] v[j]@)
}

/// The views of `v` are in strictly increasing order.
pub open spec fn strictly_sorted_strings(v: Seq<String>) -> bool {
    forall|i: int, j: int|
        0 <= i < j < v.len() ==> lex_le(#[trigger] v[i]@, #[trigger] v[j]@) && v[i]@ != v[j]@
}

/// The texts of the strings of `v`.
pub open spec fn string_set(v: Seq<String>) -> Set<Seq<char>> {
    Set::new(|s: Seq<char>| exists|i: int| 0 <= i < v.len() && #[trigger] v[i]@ == s)
}

/// Any two strings are ordered one way or the other.
pub proof fn lemma_lex_total(a: Seq<char>, b: Seq<char>)
    ensures
        lex_le(a, b) || lex_le(b, a),
    decreases a.len(),
{
    if a.len() > 0 && b.len() > 0 {
        if a[0] == b[0] {
            lemma_lex_total(a.drop_first(), b.drop_first());
        } else {
            lemma_char_u32_injective(a[0], b[0]);
        }
    }
}

/// Distinct characters have distinct code points.
pub proof fn lemma_char_u32_injective(c: char, d: char)
    requires
        c != d,
    ensures
        (c as u32) != (d as u32),
{
    vstd::utf8::char_u32_cast(c, c as u32);
    vstd::utf8::char_u32_cast(d, d as u32);
}

/// The order is transitive.
pub proof fn lemma_lex_trans(a: Seq<char>, b: Seq<char>, c: Seq<char>)
    requires
        lex_le(a, b),
        lex_le(b, c),
    ensures
        lex_le(a, c),
    decreases a.len(),
{
    if a.len() > 0 && b.len() > 0 && c.len() > 0 && a[0] == b[0] && b[0] == c[0] {
        lemma_lex_trans(a.drop_first(), b.drop_first(), c.drop_first());
    }
}

/// Two strings ordered both ways are equal.
pub proof fn lemma_lex_antisym(a: Seq<char>, b: Seq<char>)
    requires
        lex_le(a, b),
        lex_le(b, a),
    ensures
        a == b,
    decreases a.len(),
{
    if a.len() > 0 && b.len() > 0 {
        lemma_lex_antisym(a.drop_first(), b.drop_first());
        assert(a =~= seq![a[0]] + a.drop_first());
        assert(b =~= seq![b[0]] + b.drop_first());
    } else {
        assert(a =~= b);
    }
}

/// Every string comes no later than itself.
pub proof fn lemma_lex_refl(a: Seq<char>)
    ensures
        lex_le(a, a),
    decreases a.len(),
{
    if a.len() > 0 {
        lemma_lex_refl(a.drop_first());
    }
}

/// `a <= b` in lexicographic code-point order.
pub fn lex_le_exec(a: &Vec<char>, b: &Vec<char>) -> (r: bool)
    ensures
        r == lex_le(a@, b@),
{
    let mut i: usize = 0;
    while i < a.len() && i < b.len()
        invariant
            i <= a@.len(),
            i <= b@.len(),
            lex_le(a@, b@) == lex_le(a@.skip(i as int), b@.skip(i as int)),
        decreases a.len() - i,
    {
        let ghost sa = a@.skip(i as int);
        let ghost sb = b@.skip(i as int);
        assert(sa[0] == a@[i as int]);
        assert(sb[0] == b@[i as int]);
        if a[i] != b[i] {
            return (a[i] as u32) < (b[i] as u32);
        }
        assert(sa.drop_first() =~= a@.skip(i + 1));
        assert(sb.drop_first() =~= b@.skip(i + 1));
        i = i + 1;
    }
    if i == a.len() {
        assert(a@.skip(i as int).len() == 0);
        true
    } else {
        assert(b@.skip(i as int).len() == 0);
        false
    }
}

/// `a <= b` for strings.
pub fn string_le(a: &String, b: &String) -> (r: bool)
    ensures
        r == lex_le(a@, b@),
{
    let ca = chars_of(a.as_str());
    let cb = chars_of(b.as_str());
    lex_le_exec(&ca, &cb)
}

/// Multisets of `s` with `x` inserted.
proof fn lemma_insert_multiset(s: Seq<String>, p: int, x: String)
    requires
        0 <= p <= s.len(),
    ensures
        s.insert(p, x).to_multiset() =~= s.to_multiset().insert(x),
{
    let ins = s.insert(p, x);
    s.insert_ensures(p, x);
    assert(ins.remove(p) =~= s);
    ins.to_multiset_ensures();
    assert(ins[p] == x);
    assert(ins.contains(x));
}

/// The strings of `v`, sorted (as `slice::sort` orders them).
pub fn sort_strings(v: Vec<String>) -> (r: Vec<String>)
    ensures
        sorted_strings(r@),
        r@.to_multiset() == v@.to_multiset(),
{
    let mut out: Vec<String> = Vec::new();
    let mut i: usize = 0;
    while i < v.len()
        invariant
            i <= v@.len(),
            sorted_strings(out@),
            out@.to_multiset() == v@.take(i as int).to_multiset(),
        decreases v.len() - i,
    {
        let x = v[i].clone();
        let mut p: usize = 0;
        while p < out.len() && string_le(&out[p], &x)
            invariant
                p <= out@.len(),
                forall|j: int| 0 <= j < p ==> lex_le(#[trigger] out@[j]@, x@),
            decreases out.len() - p,
        {
            p = p + 1;
        }
        let ghost before = out@;
        proof {
            if p < out@.len() {
                assert(!lex_le(out@[p as int]@, x@));
                lemma_lex_total(out@[p as int]@, x@);
            }
        }
        out.insert(p, x);
        proof {
            before.insert_ensures(p as int, x);
            assert(out@ =~= before.insert(p as int, x));
            lemma_insert_multiset(before, p as int, x);
            assert(v@.take(i + 1) =~= v@.take(i as int).push(v@[i as int]));
            v@.take(i as int).to_multiset_ensures();
            assert forall|a: int, b: int| 0 <= a < b < out@.len() implies lex_le(
                #[trigger] out@[a]@,
                #[trigger] out@[b]@,
            ) by {
                if b < p {
                } else if a < p && b == p {
                } else if a < p && b > p {
                    assert(out@[b] == before[b - 1]);
                    if p < before.len() {
                        assert(lex_le(x@, before[p as int]@));
                        if b - 1 > p {
                            assert(lex_le(before[p as int]@, before[b - 1]@));
                            lemma_lex_trans(x@, before[p as int]@, before[b - 1]@);
                        }
                        lemma_lex_trans(out@[a]@, x@, before[b - 1]@);
                    }
                } else if a == p {
                    assert(out@[b] == before[b - 1]);
                    assert(lex_le(x@, before[p as int]@));
                    if b - 1 > p {
                        lemma_lex_trans(x@, before[p as int]@, before[b - 1]@);
                    }
                } else {
                    assert(out@[a] == before[a - 1]);
                    assert(out@[b] == before[b - 1]);
                }
            }
        }
        i = i + 1;
    }
    assert(v@.take(v@.len() as int) =~= v@);
    out
}

/// The texts of `v` with one more string.
proof fn lemma_string_set_push(v: Seq<String>, x: String)
    ensures
        string_set(v.push(x)) == string_set(v).insert(x@),
{
    let w = v.push(x);
    assert forall|t: Seq<char>| string_set(w).contains(t) implies string_set(v).insert(x@).contains(
        t,
    ) by {
        let a = choose|a: int| 0 <= a < w.len() && #[trigger] w[a]@ == t;
        if a < v.len() {
            assert(v[a]@ == t);
        }
    }
    assert forall|t: Seq<char>| string_set(v).insert(x@).contains(t) implies string_set(w).contains(
        t,
    ) by {
        if t == x@ {
            assert(w[v.len() as int]@ == t);
        } else {
            let a = choose|a: int| 0 <= a < v.len() && #[trigger] v[a]@ == t;
            assert(w[a]@ == t);
        }
    }
    assert(string_set(w) =~= string_set(v).insert(x@));
}

/// Appending a string after a strictly smaller last one keeps the order strict.
proof fn lemma_push_strict(v: Seq<String>, x: String)
    requires
        strictly_sorted_strings(v),
        v.len() > 0 ==> lex_le(v.last()@, x@) && v.last()@ != x@,
    ensures
        strictly_sorted_strings(v.push(x)),
{
    let w = v.push(x);
    assert forall|a: int, b: int| 0 <= a < b < w.len() implies lex_le(#[trigger] w[a]@, #[trigger] w[b]@)
        && w[a]@ != w[b]@ by {
        if b == v.len() {
            assert(w[a] == v[a]);
            if a < v.len() - 1 {
                assert(lex_le(v[a]@, v[v.len() - 1]@) && v[a]@ != v[v.len() - 1]@);
                lemma_lex_trans(v[a]@, v.last()@, x@);
                if v[a]@ == x@ {
                    lemma_lex_antisym(v[a]@, v.last()@);
                }
            }
        } else {
            assert(w[a] == v[a]);
            assert(w[b] == v[b]);
        }
    }
}

/// The distinct strings of `v`, in increasing order (as `sort_unstable` then `dedup`).
pub fn sort_dedup_strings(v: Vec<String>) -> (r: Vec<String>)
    ensures
        strictly_sorted_strings(r@),
        string_set(r@) == string_set(v@),
{
    let ghost given = v@;
    let sorted = sort_strings(v);
    proof {
        given.to_multiset_ensures();
        sorted@.to_multiset_ensures();
        assert forall|t: Seq<char>| string_set(sorted@).contains(t) implies string_set(
            given,
        ).contains(t) by {
            let a = choose|a: int| 0 <= a < sorted@.len() && #[trigger] sorted@[a]@ == t;
            assert(sorted@.to_multiset().count(sorted@[a]) > 0);
            assert(given.contains(sorted@[a]));
            let w = choose|w: int| 0 <= w < given.len() && given[w] == sorted@[a];
            assert(given[w]@ == t);
        }
        assert forall|t: Seq<char>| string_set(given).contains(t) implies string_set(
            sorted@,
        ).contains(t) by {
            let a = choose|a: int| 0 <= a < given.len() && #[trigger] given[a]@ == t;
            assert(given.to_multiset().count(given[a]) > 0);
            assert(sorted@.contains(given[a]));
            let w = choose|w: int| 0 <= w < sorted@.len() && sorted@[w] == given[a];
            assert(sorted@[w]@ == t);
        }
        assert(string_set(sorted@) =~= string_set(given));
        assert(string_set(Seq::<String>::empty()) =~= Set::<Seq<char>>::empty());
        assert(sorted@.take(0) =~= Seq::<String>::empty());
    }
    let mut out: Vec<String> = Vec::new();
    let mut i: usize = 0;
    while i < sorted.len()
        invariant
            i <= sorted@.len(),
            sorted_strings(sorted@),
            strictly_sorted_strings(out@),
            i > 0 ==> out@.len() > 0 && out@.last()@ == sorted@[i - 1]@,
            i == 0 ==> out@.len() == 0,
            string_set(out@) == string_set(sorted@.take(i as int)),
        decreases sorted.len() - i,
    {
        let x = sorted[i].clone();
        proof {
            assert(sorted@.take(i + 1) =~= sorted@.take(i as int).push(sorted@[i as int]));
            lemma_string_set_push(sorted@.take(i as int), sorted@[i as int]);
        }
        if i == 0 || !(out[out.len() - 1] == x) {
            proof {
                if i > 0 {
                    assert(lex_le(sorted@[i - 1]@, sorted@[i as int]@));
                    assert(out@.last() == out@[out@.len() - 1]);
                }
                lemma_push_strict(out@, x);
                lemma_string_set_push(out@, x);
            }
            out.push(x);
        } else {
            proof {
                assert(string_set(out@).contains(x@)) by {
                    assert(out@[out@.len() - 1]@ == x@);
                }
                assert(string_set(out@).insert(x@) =~= string_set(out@));
            }
        }
        i = i + 1;
    }
    assert(sorted@.take(sorted@.len() as int) =~= sorted@);
    out
}

} // verus!
