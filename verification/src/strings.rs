//! Lexicographic order on character sequences, the order of `String`s.
//!
//! UTF-8 keeps the order of code points, so comparing the bytes of two
//! strings, as `String`'s `Ord` does, orders them as comparing their
//! characters one by one does.

use vstd::prelude::*;

verus! {

/// `a` is no greater than `b` when compared from position `i` on.
pub open spec fn lex_le_from(a: Seq<char>, b: Seq<char>, i: nat) -> bool
    decreases a.len() - i,
{
    if i >= a.len() {
        true
    } else if i >= b.len() {
        false
    } else if (a[i as int] as int) < (b[i as int] as int) {
        true
    } else if (a[i as int] as int) > (b[i as int] as int) {
        false
    } else {
        lex_le_from(a, b, i + 1)
    }
}

/// Lexicographic order: `a` is a prefix of `b`, or `a` has the smaller
/// character at the first position where the two differ.
pub open spec fn lex_le(a: Seq<char>, b: Seq<char>) -> bool {
    lex_le_from(a, b, 0)
}

/// Strict lexicographic order.
pub open spec fn lex_lt(a: Seq<char>, b: Seq<char>) -> bool {
    lex_le(a, b) && a != b
}

proof fn lemma_total_from(a: Seq<char>, b: Seq<char>, i: nat)
    ensures
        lex_le_from(a, b, i) || lex_le_from(b, a, i),
    decreases a.len() - i,
{
    if i < a.len() && i < b.len() && a[i as int] == b[i as int] {
        lemma_total_from(a, b, i + 1);
    }
}

proof fn lemma_antisymmetric_from(a: Seq<char>, b: Seq<char>, i: nat)
    requires
        i <= a.len(),
        i <= b.len(),
        a.subrange(0, i as int) == b.subrange(0, i as int),
        lex_le_from(a, b, i),
        lex_le_from(b, a, i),
    ensures
        a == b,
    decreases a.len() - i,
{
    if i >= a.len() {
        assert(i >= b.len());
        assert(a =~= a.subrange(0, i as int));
        assert(b =~= b.subrange(0, i as int));
    } else {
        assert((a[i as int] as int) == (b[i as int] as int));
        assert(a[i as int] == b[i as int]);
        assert(a.subrange(0, (i + 1) as int) =~= a.subrange(0, i as int).push(a[i as int]));
        assert(b.subrange(0, (i + 1) as int) =~= b.subrange(0, i as int).push(b[i as int]));
        lemma_antisymmetric_from(a, b, i + 1);
    }
}

proof fn lemma_transitive_from(a: Seq<char>, b: Seq<char>, c: Seq<char>, i: nat)
    requires
        lex_le_from(a, b, i),
        lex_le_from(b, c, i),
    ensures
        lex_le_from(a, c, i),
    decreases a.len() - i,
{
    if i < a.len() && i < b.len() && i < c.len() && a[i as int] == b[i as int] && b[i as int]
        == c[i as int] {
        lemma_transitive_from(a, b, c, i + 1);
    }
}

/// Any two sequences are ordered one way or the other.
pub proof fn lemma_lex_total(a: Seq<char>, b: Seq<char>)
    ensures
        lex_le(a, b) || lex_le(b, a),
{
    lemma_total_from(a, b, 0);
}

/// Two sequences ordered both ways are equal.
pub proof fn lemma_lex_antisymmetric(a: Seq<char>, b: Seq<char>)
    requires
        lex_le(a, b),
        lex_le(b, a),
    ensures
        a == b,
{
    assert(a.subrange(0, 0) =~= b.subrange(0, 0));
    lemma_antisymmetric_from(a, b, 0);
}

/// The order is transitive.
pub proof fn lemma_lex_transitive(a: Seq<char>, b: Seq<char>, c: Seq<char>)
    requires
        lex_le(a, b),
        lex_le(b, c),
    ensures
        lex_le(a, c),
{
    lemma_transitive_from(a, b, c, 0);
}

/// Every sequence is ordered before itself.
pub proof fn lemma_lex_reflexive(a: Seq<char>)
    ensures
        lex_le(a, a),
{
    lemma_total_from(a, a, 0);
}

/// Compares two strings in lexicographic order, as `a <= b` does.
pub fn str_le(a: &str, b: &str) -> (r: bool)
    ensures
        r == lex_le(a@, b@),
{
    let alen = a.unicode_len();
    let blen = b.unicode_len();
    let mut i: usize = 0;
    while i < alen
        invariant
            alen == a@.len(),
            blen == b@.len(),
            i <= alen,
            lex_le(a@, b@) == lex_le_from(a@, b@, i as nat),
        decreases alen - i,
    {
        if i >= blen {
            return false;
        }
        let ca = a.get_char(i);
        let cb = b.get_char(i);
        if (ca as u32) < (cb as u32) {
            return true;
        }
        if (ca as u32) > (cb as u32) {
            return false;
        }
        i = i + 1;
    }
    true
}

/// Strict lexicographic order is asymmetric.
pub proof fn lemma_lex_lt_asymmetric(a: Seq<char>, b: Seq<char>)
    ensures
        !(lex_lt(a, b) && lex_lt(b, a)),
{
    if lex_lt(a, b) && lex_lt(b, a) {
        lemma_lex_antisymmetric(a, b);
    }
}

/// The character sequences of a list of strings.
pub open spec fn views(v: Seq<String>) -> Seq<Seq<char>> {
    v.map_values(|x: String| x@)
}

/// `s` lists each member of `set` once, in strictly increasing
/// lexicographic order.
pub open spec fn is_listing(s: Seq<Seq<char>>, set: Set<Seq<char>>) -> bool {
    &&& forall|i: int, j: int| 0 <= i < j < s.len() ==> lex_lt(#[trigger] s[i], #[trigger] s[j])
    &&& forall|x: Seq<char>| #[trigger] set.contains(x) <==> s.contains(x)
}

/// The members of `set` in increasing lexicographic order.
pub open spec fn listing(set: Set<Seq<char>>) -> Seq<Seq<char>> {
    choose|s: Seq<Seq<char>>| is_listing(s, set)
}

/// A set has one listing.
pub proof fn lemma_listing_unique(s: Seq<Seq<char>>, t: Seq<Seq<char>>, set: Set<Seq<char>>)
    requires
        is_listing(s, set),
        is_listing(t, set),
    ensures
        s == t,
    decreases s.len(),
{
    if s.len() == 0 {
        if t.len() > 0 {
            assert(set.contains(t[0]));
        }
        assert(s =~= t);
    } else {
        if t.len() == 0 {
            assert(set.contains(s[0]));
            assert(t.contains(s[0]));
        }
        assert(set.contains(s[0]));
        assert(set.contains(t[0]));
        let k = choose|k: int| 0 <= k < t.len() && t[k] == s[0];
        let m = choose|m: int| 0 <= m < s.len() && s[m] == t[0];
        if k > 0 && m > 0 {
            assert(lex_lt(t[0], t[k]));
            assert(lex_lt(s[0], s[m]));
            lemma_lex_lt_asymmetric(s[0], t[0]);
        }
        assert(s[0] == t[0]);
        let s1 = s.drop_first();
        let t1 = t.drop_first();
        let set1 = set.remove(s[0]);
        assert forall|x: Seq<char>| #[trigger] set1.contains(x) <==> s1.contains(x) by {
            if s1.contains(x) {
                let j = choose|j: int| 0 <= j < s1.len() && s1[j] == x;
                assert(s[j + 1] == x);
                assert(lex_lt(s[0], s[j + 1]));
            }
            if set1.contains(x) {
                let j = choose|j: int| 0 <= j < s.len() && s[j] == x;
                assert(j != 0);
                assert(s1[j - 1] == x);
            }
        }
        assert forall|x: Seq<char>| #[trigger] set1.contains(x) <==> t1.contains(x) by {
            if t1.contains(x) {
                let j = choose|j: int| 0 <= j < t1.len() && t1[j] == x;
                assert(t[j + 1] == x);
                assert(lex_lt(t[0], t[j + 1]));
            }
            if set1.contains(x) {
                let j = choose|j: int| 0 <= j < t.len() && t[j] == x;
                assert(j != 0);
                assert(t1[j - 1] == x);
            }
        }
        assert forall|i: int, j: int| 0 <= i < j < s1.len() implies lex_lt(
            #[trigger] s1[i],
            #[trigger] s1[j],
        ) by {
            assert(lex_lt(s[i + 1], s[j + 1]));
        }
        assert forall|i: int, j: int| 0 <= i < j < t1.len() implies lex_lt(
            #[trigger] t1[i],
            #[trigger] t1[j],
        ) by {
            assert(lex_lt(t[i + 1], t[j + 1]));
        }
        lemma_listing_unique(s1, t1, set1);
        assert(s =~= t) by {
            assert forall|i: int| 0 <= i < s.len() implies s[i] == t[i] by {
                if i > 0 {
                    assert(s[i] == s1[i - 1]);
                    assert(t[i] == t1[i - 1]);
                }
            }
        }
    }
}

/// A listing of a set is the one that `listing` names.
pub proof fn lemma_is_the_listing(s: Seq<Seq<char>>, set: Set<Seq<char>>)
    requires
        is_listing(s, set),
    ensures
        listing(set) == s,
{
    let t = listing(set);
    assert(is_listing(t, set));
    lemma_listing_unique(s, t, set);
}

/// The strings of `items`, which are all different, in increasing
/// lexicographic order.
pub fn sort_strings(items: &Vec<String>) -> (r: Vec<String>)
    requires
        forall|i: int, j: int|
            0 <= i < j < items@.len() ==> #[trigger] items@[i]@ != #[trigger] items@[j]@,
    ensures
        is_listing(views(r@), Set::new(|x: Seq<char>| views(items@).contains(x))),
{
    let n = items.len();
    let mut r: Vec<String> = Vec::new();
    let mut j: usize = 0;
    while j < n
        invariant
            n == items@.len(),
            j <= n,
            forall|i: int, k: int|
                0 <= i < k < items@.len() ==> #[trigger] items@[i]@ != #[trigger] items@[k]@,
            forall|a: int, b: int|
                0 <= a < b < r@.len() ==> lex_lt(#[trigger] r@[a]@, #[trigger] r@[b]@),
            forall|x: Seq<char>|
                views(r@).contains(x) <==> #[trigger] views(items@.take(j as int)).contains(x),
        decreases n - j,
    {
        let x = items[j].clone();
        let mut p: usize = 0;
        while p < r.len() && str_le(r[p].as_str(), x.as_str())
            invariant
                p <= r@.len(),
                j < n,
                n == items@.len(),
                x@ == items@[j as int]@,
                forall|a: int| 0 <= a < p ==> lex_le(#[trigger] r@[a]@, x@),
            decreases r@.len() - p,
        {
            p = p + 1;
        }
        let ghost before = r@;
        proof {
            assert forall|y: Seq<char>|
                views(before).contains(y) <==> #[trigger] views(items@.take(j as int)).contains(
                    y,
                ) by {}
            assert forall|a: int| 0 <= a < before.len() implies #[trigger] before[a]@ != x@ by {
                assert(views(before)[a] == before[a]@);
                assert(views(items@.take(j as int)).contains(before[a]@));
                let i = choose|i: int|
                    0 <= i < views(items@.take(j as int)).len() && views(items@.take(j as int))[i]
                        == before[a]@;
                assert(items@[i]@ == before[a]@);
            }
        }
        r.insert(p, x);
        proof {
            before.insert_ensures(p as int, x);
            assert forall|a: int, b: int| 0 <= a < b < r@.len() implies lex_lt(
                #[trigger] r@[a]@,
                #[trigger] r@[b]@,
            ) by {
                if b < p {
                    assert(r@[a] == before[a] && r@[b] == before[b]);
                } else if b == p {
                    assert(r@[a] == before[a]);
                    assert(lex_le(before[a]@, x@));
                } else if a < p {
                    assert(r@[a] == before[a] && r@[b] == before[b - 1]);
                } else if a == p {
                    assert(r@[b] == before[b - 1]);
                    assert(!lex_le(before[p as int]@, x@));
                    lemma_lex_total(before[p as int]@, x@);
                    if b - 1 > p {
                        assert(lex_lt(before[p as int]@, before[b - 1]@));
                        lemma_lex_transitive(x@, before[p as int]@, before[b - 1]@);
                        lemma_lex_lt_asymmetric(x@, before[b - 1]@);
                        if x@ == before[b - 1]@ {
                            lemma_lex_antisymmetric(x@, before[p as int]@);
                        }
                    }
                } else {
                    assert(r@[a] == before[a - 1] && r@[b] == before[b - 1]);
                }
            }
            let vbefore = views(before);
            let vtaken = views(items@.take(j as int));
            assert(forall|y: Seq<char>| vbefore.contains(y) <==> vtaken.contains(y));
            assert forall|y: Seq<char>|
                views(r@).contains(y) <==> #[trigger] views(items@.take(j + 1)).contains(y) by {
                let vr = views(r@);
                let vb = views(before);
                let vj = views(items@.take(j as int));
                let vj1 = views(items@.take(j + 1));
                assert(vj1 =~= vj.push(x@));
                assert(vr =~= vb.insert(p as int, x@));
                vb.insert_ensures(p as int, x@);
                if vr.contains(y) {
                    let a = choose|a: int| 0 <= a < vr.len() && vr[a] == y;
                    if a < p {
                        assert(vb[a] == y);
                        assert(vj.contains(y));
                        let i = choose|i: int| 0 <= i < vj.len() && vj[i] == y;
                        assert(vj1[i] == y);
                    } else if a == p {
                        assert(vj1[j as int] == y);
                    } else {
                        assert(vb[a - 1] == y);
                        assert(vj.contains(y));
                        let i = choose|i: int| 0 <= i < vj.len() && vj[i] == y;
                        assert(vj1[i] == y);
                    }
                }
                if vj1.contains(y) {
                    let i = choose|i: int| 0 <= i < vj1.len() && vj1[i] == y;
                    if i < j {
                        assert(vj[i] == y);
                        assert(vb.contains(y));
                        let a = choose|a: int| 0 <= a < vb.len() && vb[a] == y;
                        if a < p {
                            assert(vr[a] == y);
                        } else {
                            assert(vr[a + 1] == y);
                        }
                    } else {
                        assert(vr[p as int] == y);
                    }
                }
            }
        }
        j = j + 1;
    }
    proof {
        assert(items@.take(n as int) =~= items@);
        let set = Set::new(|x: Seq<char>| views(items@).contains(x));
        assert forall|x: Seq<char>| #[trigger] set.contains(x) <==> views(r@).contains(x) by {}
        assert forall|a: int, b: int| 0 <= a < b < views(r@).len() implies lex_lt(
            #[trigger] views(r@)[a],
            #[trigger] views(r@)[b],
        ) by {
            assert(lex_lt(r@[a]@, r@[b]@));
        }
    }
    r
}

/// `s` ends with `t`.
pub open spec fn ends_with(s: Seq<char>, t: Seq<char>) -> bool {
    t.len() <= s.len() && s.subrange(s.len() - t.len(), s.len() as int) == t
}

/// Whatever comes before it, a text ends with its last part.
pub proof fn lemma_ends_with_last_part(s: Seq<char>, t: Seq<char>)
    ensures
        ends_with(s + t, t),
{
    assert((s + t).subrange(s.len() as int, (s + t).len() as int) =~= t);
}

/// The parts joined with `sep` between each two.
pub open spec fn join(parts: Seq<Seq<char>>, sep: Seq<char>) -> Seq<char>
    decreases parts.len(),
{
    if parts.len() == 0 {
        Seq::empty()
    } else if parts.len() == 1 {
        parts[0]
    } else {
        join(parts.drop_last(), sep) + sep + parts.last()
    }
}

/// The parts one after the other.
pub open spec fn concat(parts: Seq<Seq<char>>) -> Seq<char>
    decreases parts.len(),
{
    if parts.len() == 0 {
        Seq::empty()
    } else {
        concat(parts.drop_last()) + parts.last()
    }
}

/// Joins the strings of `parts` with `sep` between each two.
pub fn join_strings(parts: &Vec<String>, sep: &str) -> (r: String)
    ensures
        r@ == join(views(parts@), sep@),
{
    let mut r = String::new();
    let mut k: usize = 0;
    while k < parts.len()
        invariant
            k <= parts@.len(),
            r@ == join(views(parts@.take(k as int)), sep@),
        decreases parts@.len() - k,
    {
        proof {
            assert(views(parts@.take(k + 1)).drop_last() =~= views(parts@.take(k as int)));
            assert(views(parts@.take(k + 1)).last() == parts@[k as int]@);
        }
        if k > 0 {
            r.append(sep);
        } else {
            assert(r@ =~= Seq::<char>::empty());
        }
        r.append(parts[k].as_str());
        proof {
            if k == 0 {
                assert(r@ =~= views(parts@.take(1))[0]);
            }
        }
        k = k + 1;
    }
    proof {
        assert(parts@.take(k as int) =~= parts@);
    }
    r
}

} // verus!
