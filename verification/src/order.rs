//! Text order and sorting: the lexicographic order of strings, insertion
//! sorts of strings and of key/value lists, and the UTF-8 encoding of text.
use vstd::prelude::*;
use crate::text::chars_of;
use crate::chipdb::pairs_view;
use vstd::string::StringSliceAdditionalSpecFns;

verus! {

broadcast use vstd::seq_lib::to_multiset_insert;

/// `a < b` in the lexicographic order of characters. For UTF-8 text this is
/// the byte-wise order in which `str` and `String` compare.
pub open spec fn chars_lt(a: Seq<char>, b: Seq<char>) -> bool
    decreases a.len(),
{
    if a.len() == 0 {
        b.len() > 0
    } else if b.len() == 0 {
        false
    } else if a[0] != b[0] {
        (a[0] as u32) < (b[0] as u32)
    } else {
        chars_lt(a.drop_first(), b.drop_first())
    }
}

/// The order is transitive.
pub proof fn lemma_chars_lt_trans(a: Seq<char>, b: Seq<char>, c: Seq<char>)
    requires
        chars_lt(a, b),
        chars_lt(b, c),
    ensures
        chars_lt(a, c),
    decreases a.len(),
{
    if a.len() > 0 && b.len() > 0 && c.len() > 0 && a[0] == b[0] && b[0] == c[0] {
        lemma_chars_lt_trans(a.drop_first(), b.drop_first(), c.drop_first());
    }
}

/// The order is irreflexive.
pub proof fn lemma_chars_lt_irrefl(a: Seq<char>)
    ensures
        !chars_lt(a, a),
    decreases a.len(),
{
    if a.len() > 0 {
        lemma_chars_lt_irrefl(a.drop_first());
    }
}

/// The order is total: two different texts are ordered one way or the other.
pub proof fn lemma_chars_lt_total(a: Seq<char>, b: Seq<char>)
    ensures
        a == b || chars_lt(a, b) || chars_lt(b, a),
    decreases a.len(),
{
    if a.len() > 0 && b.len() > 0 && a[0] != b[0] {
        vstd::utf8::char_u32_cast(a[0], a[0] as u32);
        vstd::utf8::char_u32_cast(b[0], b[0] as u32);
    }
    if a.len() > 0 && b.len() > 0 && a[0] == b[0] {
        lemma_chars_lt_total(a.drop_first(), b.drop_first());
        if a.drop_first() == b.drop_first() {
            assert(a =~= seq![a[0]] + a.drop_first());
            assert(b =~= seq![b[0]] + b.drop_first());
        }
    } else if a.len() == 0 && b.len() == 0 {
        assert(a =~= b);
    }
}

/// `a < b` in the order of [`chars_lt`].
pub fn str_lt(a: &str, b: &str) -> (r: bool)
    ensures
        r == chars_lt(a@, b@),
{
    let x = chars_of(a);
    let y = chars_of(b);
    let mut i: usize = 0;
    assert(a@.skip(0) =~= a@);
    assert(b@.skip(0) =~= b@);
    while i < x.len() && i < y.len() && x[i] == y[i]
        invariant
            i <= x@.len(),
            i <= y@.len(),
            x@ == a@,
            y@ == b@,
            chars_lt(a@, b@) == chars_lt(a@.skip(i as int), b@.skip(i as int)),
        decreases x@.len() - i,
    {
        assert(a@.skip(i as int).drop_first() =~= a@.skip(i + 1));
        assert(b@.skip(i as int).drop_first() =~= b@.skip(i + 1));
        i = i + 1;
    }
    if i == x.len() {
        assert(a@.skip(i as int).len() == 0);
        i < y.len()
    } else if i == y.len() {
        assert(b@.skip(i as int).len() == 0);
        false
    } else {
        let c = x[i];
        let d = y[i];
        assert(a@.skip(i as int)[0] == c && b@.skip(i as int)[0] == d);
        (c as u32) < (d as u32)
    }
}

/// The views of a list of strings.
pub open spec fn texts(v: Seq<String>) -> Seq<Seq<char>> {
    Seq::new(v.len(), |i: int| v[i]@)
}

/// Non-decreasing in the order of [`chars_lt`].
pub open spec fn sorted_texts(s: Seq<Seq<char>>) -> bool {
    forall|i: int, j: int| 0 <= i < j < s.len() ==> !chars_lt(s[j], s[i])
}

/// Sort strings (as `sort` on a `Vec<String>` does): the result is sorted
/// and holds the same strings, as often as the input.
pub fn sort_strings(v: Vec<String>) -> (r: Vec<String>)
    ensures
        sorted_texts(texts(r@)),
        texts(r@).to_multiset() == texts(v@).to_multiset(),
{
    let mut out: Vec<String> = Vec::new();
    let mut k: usize = 0;
    assert(texts(out@) =~= texts(v@).take(0));
    while k < v.len()
        invariant
            k <= v@.len(),
            sorted_texts(texts(out@)),
            texts(out@).to_multiset() == texts(v@).take(k as int).to_multiset(),
        decreases v@.len() - k,
    {
        let x = v[k].clone();
        assert(x@ == v@[k as int]@);
        let mut p: usize = 0;
        while p < out.len() && !str_lt(x.as_str(), out[p].as_str())
            invariant
                p <= out@.len(),
                x@ == v@[k as int]@,
                forall|j: int| 0 <= j < p ==> !chars_lt(v@[k as int]@, out@[j]@),
            decreases out@.len() - p,
        {
            p = p + 1;
        }
        let ghost before = texts(out@);
        proof {
            assert forall|j: int| p <= j < before.len() implies !chars_lt(before[j], v@[k as int]@) by {
                if chars_lt(before[j], v@[k as int]@) {
                    assert(chars_lt(v@[k as int]@, before[p as int]));
                    lemma_chars_lt_trans(before[j], v@[k as int]@, before[p as int]);
                    lemma_chars_lt_irrefl(before[p as int]);
                    if p < j {
                        assert(!chars_lt(before[j], before[p as int]));
                    }
                }
            }
        }
        out.insert(p, x);
        assert(texts(out@) =~= before.insert(p as int, v@[k as int]@));
        assert(texts(v@).take(k + 1) =~= texts(v@).take(k as int).push(v@[k as int]@));
        assert(texts(v@).take(k as int).push(v@[k as int]@) =~= texts(v@).take(k as int).insert(k as int, v@[k as int]@));
        k = k + 1;
    }
    assert(texts(v@).take(v@.len() as int) =~= texts(v@));
    out
}

/// Keys non-decreasing in the order of [`chars_lt`].
pub open spec fn sorted_by_key(s: Seq<(Seq<char>, Seq<char>)>) -> bool {
    forall|i: int, j: int| 0 <= i < j < s.len() ==> !chars_lt(s[j].0, s[i].0)
}

/// Sort a key/value list by key (stable): the result is sorted and holds
/// the same pairs, as often as the input.
pub fn sort_pairs_by_key(v: Vec<(String, String)>) -> (r: Vec<(String, String)>)
    ensures
        sorted_by_key(pairs_view(r@)),
        pairs_view(r@).to_multiset() == pairs_view(v@).to_multiset(),
{
    let mut out: Vec<(String, String)> = Vec::new();
    let mut k: usize = 0;
    assert(pairs_view(out@) =~= pairs_view(v@).take(0));
    while k < v.len()
        invariant
            k <= v@.len(),
            sorted_by_key(pairs_view(out@)),
            pairs_view(out@).to_multiset() == pairs_view(v@).take(k as int).to_multiset(),
        decreases v@.len() - k,
    {
        let x = (v[k].0.clone(), v[k].1.clone());
        let ghost xv = pairs_view(v@)[k as int];
        assert(x.0@ == xv.0 && x.1@ == xv.1);
        let mut p: usize = 0;
        while p < out.len() && !str_lt(x.0.as_str(), out[p].0.as_str())
            invariant
                p <= out@.len(),
                x.0@ == xv.0,
                forall|j: int| 0 <= j < p ==> !chars_lt(xv.0, out@[j].0@),
            decreases out@.len() - p,
        {
            p = p + 1;
        }
        let ghost before = pairs_view(out@);
        proof {
            assert forall|j: int| p <= j < before.len() implies !chars_lt(before[j].0, xv.0) by {
                if chars_lt(before[j].0, xv.0) {
                    assert(chars_lt(xv.0, before[p as int].0));
                    lemma_chars_lt_trans(before[j].0, xv.0, before[p as int].0);
                    lemma_chars_lt_irrefl(before[p as int].0);
                    if p < j {
                        assert(!chars_lt(before[j].0, before[p as int].0));
                    }
                }
            }
        }
        out.insert(p, x);
        assert(pairs_view(out@) =~= before.insert(p as int, xv));
        assert(pairs_view(v@).take(k + 1) =~= pairs_view(v@).take(k as int).insert(k as int, xv));
        k = k + 1;
    }
    assert(pairs_view(v@).take(v@.len() as int) =~= pairs_view(v@));
    out
}

/// Append the UTF-8 bytes of `s` to `out`.
pub fn push_utf8(out: &mut Vec<u8>, s: &str)
    ensures
        final(out)@ == old(out)@ + vstd::utf8::encode_utf8(s@),
{
    let b = s.as_bytes();
    let ghost o = out@;
    let mut i: usize = 0;
    while i < b.len()
        invariant
            i <= b@.len(),
            b@ == s.spec_bytes(),
            out@ == o + b@.take(i as int),
        decreases b@.len() - i,
    {
        out.push(b[i]);
        assert(b@.take(i + 1) =~= b@.take(i as int).push(b@[i as int]));
        i = i + 1;
    }
    assert(b@.take(b@.len() as int) =~= b@);
}

} // verus!
