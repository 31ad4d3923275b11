//! Vertex identifiers and the deterministic sibling tie-break order.
//!
//! Identifiers are strings, ordered lexicographically by code point. The
//! search engine sorts the surviving children of an expansion with this
//! order so that exploration is deterministic.

use vstd::prelude::*;

verus! {

/// The sequence of identifier views held by a vector of identifiers.
pub open spec fn vids(s: Seq<String>) -> Seq<Seq<char>> {
    s.map_values(|x: String| x@)
}

/// Lexicographic strict order on identifiers, code point by code point.
/// A proper prefix precedes its extensions.
pub open spec fn lex_lt(a: Seq<char>, b: Seq<char>) -> bool
    decreases a.len(),
{
    if b.len() == 0 {
        false
    } else if a.len() == 0 {
        true
    } else if (a[0] as u32) < (b[0] as u32) {
        true
    } else if (b[0] as u32) < (a[0] as u32) {
        false
    } else {
        lex_lt(a.drop_first(), b.drop_first())
    }
}

/// Skipping one more element is dropping the first of the remainder.
pub proof fn lemma_skip_succ<A>(s: Seq<A>, i: int)
    requires
        0 <= i < s.len(),
    ensures
        s.skip(i + 1) == s.skip(i).drop_first(),
{
    assert(s.skip(i + 1) =~= s.skip(i).drop_first());
}

/// Compares two identifiers in the lexicographic order.
pub fn str_lt(a: &str, b: &str) -> (r: bool)
    ensures
        r == lex_lt(a@, b@),
{
    let alen = a.unicode_len();
    let blen = b.unicode_len();
    let mut i: usize = 0;
    proof {
        assert(a@.skip(0) =~= a@);
        assert(b@.skip(0) =~= b@);
    }
    loop
        invariant
            i <= alen,
            i <= blen,
            alen == a@.len(),
            blen == b@.len(),
            lex_lt(a@, b@) == lex_lt(a@.skip(i as int), b@.skip(i as int)),
        decreases alen - i,
    {
        if i == blen {
            return false;
        }
        if i == alen {
            return true;
        }
        let ca = a.get_char(i);
        let cb = b.get_char(i);
        if (ca as u32) < (cb as u32) {
            return true;
        }
        if (cb as u32) < (ca as u32) {
            return false;
        }
        proof {
            lemma_skip_succ(a@, i as int);
            lemma_skip_succ(b@, i as int);
        }
        i = i + 1;
    }
}

/// Where the tie-break order places a new identifier in an already sorted
/// run of identifiers: after every element that strictly precedes it.
pub open spec fn sorted_insert_spec(s: Seq<Seq<char>>, x: Seq<char>) -> Seq<Seq<char>>
    decreases s.len(),
{
    if s.len() == 0 {
        seq![x]
    } else if lex_lt(s[0], x) {
        seq![s[0]] + sorted_insert_spec(s.drop_first(), x)
    } else {
        seq![x] + s
    }
}

/// The deterministic tie-break order of a batch of identifiers: insertion
/// sort, ascending.
pub open spec fn sort_spec(s: Seq<Seq<char>>) -> Seq<Seq<char>>
    decreases s.len(),
{
    if s.len() == 0 {
        Seq::empty()
    } else {
        sorted_insert_spec(sort_spec(s.drop_last()), s.last())
    }
}

proof fn lemma_sorted_insert_at(s: Seq<Seq<char>>, x: Seq<char>, i: int)
    requires
        0 <= i <= s.len(),
        forall|j: int| 0 <= j < i ==> lex_lt(#[trigger] s[j], x),
        i == s.len() || !lex_lt(s[i], x),
    ensures
        sorted_insert_spec(s, x) == s.insert(i, x),
    decreases i,
{
    if i == 0 {
        if s.len() == 0 {
            assert(sorted_insert_spec(s, x) =~= s.insert(0, x));
        } else {
            assert(sorted_insert_spec(s, x) =~= s.insert(0, x));
        }
    } else {
        assert(lex_lt(s[0], x));
        lemma_sorted_insert_at(s.drop_first(), x, i - 1);
        assert(seq![s[0]] + s.drop_first().insert(i - 1, x) =~= s.insert(i, x));
    }
}

fn sorted_insert(v: &mut Vec<String>, x: String)
    ensures
        vids(final(v)@) == sorted_insert_spec(vids(old(v)@), x@),
{
    let mut i: usize = 0;
    loop
        invariant
            i <= v.len(),
            v@ == old(v)@,
            forall|j: int| 0 <= j < i ==> lex_lt(#[trigger] vids(v@)[j], x@),
        ensures
            i <= v.len(),
            v@ == old(v)@,
            forall|j: int| 0 <= j < i ==> lex_lt(#[trigger] vids(v@)[j], x@),
            i == v.len() || !lex_lt(vids(v@)[i as int], x@),
        decreases v.len() - i,
    {
        if i == v.len() {
            break;
        }
        assert(vids(v@)[i as int] == v@[i as int]@);
        if !str_lt(v[i].as_str(), x.as_str()) {
            break;
        }
        i = i + 1;
    }
    proof {
        lemma_sorted_insert_at(vids(v@), x@, i as int);
    }
    let ghost before = v@;
    v.insert(i, x);
    proof {
        assert(vids(v@) =~= vids(before).insert(i as int, x@));
    }
}

/// Sorts a batch of identifiers into the deterministic tie-break order.
pub fn sort_ids(v: &Vec<String>) -> (r: Vec<String>)
    ensures
        vids(r@) == sort_spec(vids(v@)),
{
    let mut out: Vec<String> = Vec::new();
    let mut k: usize = 0;
    proof {
        assert(vids(v@).take(0) =~= Seq::<Seq<char>>::empty());
        assert(vids(out@) =~= Seq::<Seq<char>>::empty());
    }
    while k < v.len()
        invariant
            k <= v.len(),
            vids(out@) == sort_spec(vids(v@).take(k as int)),
        decreases v.len() - k,
    {
        let ghost pre = vids(v@).take(k as int);
        sorted_insert(&mut out, v[k].clone());
        proof {
            let post = vids(v@).take(k as int + 1);
            assert(post.drop_last() =~= pre);
            assert(post.last() == vids(v@)[k as int]);
        }
        k = k + 1;
    }
    proof {
        assert(vids(v@).take(v@.len() as int) =~= vids(v@));
    }
    out
}

/// Concatenation holds exactly the elements of both parts.
pub proof fn lemma_add_contains<A>(a: Seq<A>, b: Seq<A>, y: A)
    ensures
        (a + b).contains(y) <==> (a.contains(y) || b.contains(y)),
{
    if (a + b).contains(y) {
        let i = choose|i: int| 0 <= i < (a + b).len() && (a + b)[i] == y;
        if i < a.len() {
            assert(a[i] == y);
        } else {
            assert(b[i - a.len()] == y);
        }
    }
    if a.contains(y) {
        let i = choose|i: int| 0 <= i < a.len() && a[i] == y;
        assert((a + b)[i] == y);
    }
    if b.contains(y) {
        let i = choose|i: int| 0 <= i < b.len() && b[i] == y;
        assert((a + b)[a.len() + i] == y);
    }
}

/// Inserting into a run adds exactly one identifier to its elements.
pub proof fn lemma_sorted_insert_contains(s: Seq<Seq<char>>, x: Seq<char>, y: Seq<char>)
    ensures
        sorted_insert_spec(s, x).contains(y) <==> (s.contains(y) || y == x),
    decreases s.len(),
{
    if s.len() == 0 {
        if y == x {
            assert(sorted_insert_spec(s, x)[0] == y);
        }
        if sorted_insert_spec(s, x).contains(y) {
            let i = choose|i: int|
                0 <= i < sorted_insert_spec(s, x).len() && sorted_insert_spec(s, x)[i] == y;
            assert(i == 0);
        }
    } else if lex_lt(s[0], x) {
        lemma_sorted_insert_contains(s.drop_first(), x, y);
        lemma_add_contains(seq![s[0]], sorted_insert_spec(s.drop_first(), x), y);
        lemma_add_contains(seq![s[0]], s.drop_first(), y);
        assert(seq![s[0]] + s.drop_first() =~= s);
        assert(seq![s[0]].contains(y) <==> y == s[0]) by {
            if seq![s[0]].contains(y) {
                let i = choose|i: int| 0 <= i < 1 && seq![s[0]][i] == y;
                assert(i == 0);
            }
            if y == s[0] {
                assert(seq![s[0]][0] == y);
            }
        }
    } else {
        lemma_add_contains(seq![x], s, y);
        assert(seq![x].contains(y) <==> y == x) by {
            if seq![x].contains(y) {
                let i = choose|i: int| 0 <= i < 1 && seq![x][i] == y;
                assert(i == 0);
            }
            if y == x {
                assert(seq![x][0] == y);
            }
        }
    }
}

/// Sorting keeps exactly the same elements.
pub proof fn lemma_sort_contains(s: Seq<Seq<char>>, y: Seq<char>)
    ensures
        sort_spec(s).contains(y) <==> s.contains(y),
    decreases s.len(),
{
    if s.len() > 0 {
        lemma_sort_contains(s.drop_last(), y);
        lemma_sorted_insert_contains(sort_spec(s.drop_last()), s.last(), y);
        lemma_add_contains(s.drop_last(), seq![s.last()], y);
        assert(s.drop_last() + seq![s.last()] =~= s);
        assert(seq![s.last()].contains(y) <==> y == s.last()) by {
            if seq![s.last()].contains(y) {
                let i = choose|i: int| 0 <= i < 1 && seq![s.last()][i] == y;
                assert(i == 0);
            }
            if y == s.last() {
                assert(seq![s.last()][0] == y);
            }
        }
    }
}

/// An element of a filtered sequence comes from the sequence.
pub proof fn lemma_filter_sub<A>(s: Seq<A>, pred: spec_fn(A) -> bool, i: int)
    requires
        0 <= i < s.filter(pred).len(),
    ensures
        s.contains(s.filter(pred)[i]),
    decreases s.len(),
{
    reveal(Seq::filter);
    if s.len() > 0 {
        let sub = s.drop_last().filter(pred);
        if pred(s.last()) && i == s.filter(pred).len() - 1 {
            assert(s[s.len() - 1] == s.filter(pred)[i]);
        } else {
            assert(s.filter(pred)[i] == sub[i]);
            lemma_filter_sub(s.drop_last(), pred, i);
            let j = choose|j: int| 0 <= j < s.drop_last().len() && s.drop_last()[j] == sub[i];
            assert(s[j] == sub[i]);
        }
    }
}

/// Membership of an identifier in a list of identifiers.
pub fn contains_id(v: &Vec<String>, x: &String) -> (r: bool)
    ensures
        r == vids(v@).contains(x@),
{
    let mut i: usize = 0;
    while i < v.len()
        invariant
            i <= v.len(),
            forall|j: int| 0 <= j < i ==> vids(v@)[j] != x@,
        decreases v.len() - i,
    {
        if v[i] == *x {
            assert(vids(v@)[i as int] == x@);
            return true;
        }
        assert(vids(v@)[i as int] == v@[i as int]@);
        i = i + 1;
    }
    assert(forall|j: int| 0 <= j < vids(v@).len() ==> vids(v@)[j] != x@);
    false
}

} // verus!
