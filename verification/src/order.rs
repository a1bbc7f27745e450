//! Lexicographic order on decoded strings.
//!
//! Keys and values are sorted by their text, so the whole engine rests on
//! one strict order over character sequences: lexicographic by Unicode
//! scalar value, which is exactly the order `Ord for str` implements.
//! This module defines that order as a spec function, proves the order
//! laws the search routines need, and provides the verified sorted-vector
//! operations (ordered insert and binary search) that the segments use.

use vstd::prelude::*;

verus! {

/// Strict lexicographic order on character sequences, comparing Unicode
/// scalar values position by position; a proper prefix sorts first.
pub open spec fn lex_lt(a: Seq<char>, b: Seq<char>) -> bool
    decreases a.len(),
{
    if b.len() == 0 {
        false
    } else if a.len() == 0 {
        true
    } else if (a[0] as u32) < (b[0] as u32) {
        true
    } else if a[0] == b[0] {
        lex_lt(a.drop_first(), b.drop_first())
    } else {
        false
    }
}

pub proof fn lemma_lex_irrefl(a: Seq<char>)
    ensures
        !lex_lt(a, a),
    decreases a.len(),
{
    if a.len() > 0 {
        lemma_lex_irrefl(a.drop_first());
    }
}

pub proof fn lemma_lex_trans(a: Seq<char>, b: Seq<char>, c: Seq<char>)
    requires
        lex_lt(a, b),
        lex_lt(b, c),
    ensures
        lex_lt(a, c),
    decreases a.len(),
{
    if a.len() > 0 && b.len() > 0 && c.len() > 0 {
        if a[0] == b[0] && b[0] == c[0] {
            lemma_lex_trans(a.drop_first(), b.drop_first(), c.drop_first());
        }
    }
}

/// A sequence of strings in strictly ascending lexicographic order; such
/// a sequence has no duplicates.
pub open spec fn strictly_sorted(s: Seq<Seq<char>>) -> bool {
    forall|i: int, j: int| 0 <= i < j < s.len() ==> lex_lt(s[i], s[j])
}

/// The decoded views of a vector of strings.
pub open spec fn views_of(s: Seq<String>) -> Seq<Seq<char>> {
    Seq::new(s.len(), |i: int| s[i]@)
}

/// Relies on `Ord for str`: strings compare equal exactly when their
/// characters are equal, and otherwise are ordered lexicographically by
/// Unicode code point.
#[verifier::external_body]
pub(crate) fn str_compare(a: &str, b: &str) -> (r: i8)
    ensures
        -1 <= r <= 1,
        (r == 0) <==> (a@ == b@),
        (r == -1) <==> lex_lt(a@, b@),
        (r == 1) <==> lex_lt(b@, a@),
{
    match str::cmp(a, b) {
        core::cmp::Ordering::Less => -1,
        core::cmp::Ordering::Equal => 0,
        core::cmp::Ordering::Greater => 1,
    }
}

/// Insert a string into a sorted vector, keeping it sorted and ignoring
/// the string if it is already present.
pub(crate) fn insert_sorted(list: &mut Vec<String>, item: &str)
    requires
        strictly_sorted(views_of(old(list)@)),
    ensures
        strictly_sorted(views_of(final(list)@)),
        forall|x: Seq<char>|
            #[trigger] views_of(final(list)@).contains(x) <==> (views_of(old(list)@).contains(x)
                || x == item@),
        final(list)@.len() <= old(list)@.len() + 1,
{
    let ghost orig = list@;
    let mut i: usize = 0;
    loop
        invariant
            strictly_sorted(views_of(list@)),
            list@ == orig,
            i <= list.len(),
            forall|j: int| 0 <= j < i ==> lex_lt(views_of(list@)[j], item@),
        ensures
            list@ == orig,
            i <= list.len(),
            forall|j: int| 0 <= j < i ==> lex_lt(views_of(list@)[j], item@),
            i < list.len() ==> lex_lt(item@, views_of(list@)[i as int]),
        decreases list.len() - i,
    {
        if i == list.len() {
            break;
        }
        let c = str_compare(list[i].as_str(), item);
        if c == 0 {
            assert(views_of(list@)[i as int] == item@);
            assert(views_of(list@).contains(item@));
            return;
        }
        if c == 1 {
            break;
        }
        assert(lex_lt(views_of(list@)[i as int], item@));
        i = i + 1;
    }
    // Every element before `i` sorts below `item` and, if `i` is in
    // range, `item` sorts below the element at `i`.
    let ghost pos = i as int;
    let owned = item.to_owned();
    list.insert(i, owned);
    proof {
        let nv = views_of(list@);
        let ov = views_of(orig);
        assert(list@ == orig.insert(pos, owned));
        orig.insert_ensures(pos, owned);
        assert(nv.len() == ov.len() + 1);
        assert forall|j: int| 0 <= j < nv.len() implies nv[j] == (if j < pos {
            ov[j]
        } else if j == pos {
            item@
        } else {
            ov[j - 1]
        }) by {
            assert(nv[j] == list@[j]@);
        }
        assert forall|x: int, y: int| 0 <= x < y < nv.len() implies lex_lt(nv[x], nv[y]) by {
            if y < pos {
            } else if x < pos && y == pos {
                assert(lex_lt(ov[x], item@));
            } else if y > pos {
                // The element at `y` came from `ov[y - 1]`, at or after `pos`.
                if pos < y - 1 {
                    assert(lex_lt(ov[pos], ov[y - 1]));
                }
                if x == pos {
                    if pos == y - 1 {
                        assert(lex_lt(item@, ov[y - 1]));
                    } else {
                        lemma_lex_trans(item@, ov[pos], ov[y - 1]);
                    }
                } else if x < pos {
                    if pos == y - 1 {
                        lemma_lex_trans(ov[x], item@, ov[y - 1]);
                    } else {
                        lemma_lex_trans(ov[x], ov[pos], ov[y - 1]);
                    }
                }
            }
        }
        assert forall|x: Seq<char>|
            #[trigger] nv.contains(x) <==> (ov.contains(x) || x == item@) by {
            if nv.contains(x) {
                let j = choose|j: int| 0 <= j < nv.len() && nv[j] == x;
                if j < pos {
                    assert(ov[j] == x);
                    assert(ov.contains(x));
                } else if j > pos {
                    assert(ov[j - 1] == x);
                    assert(ov.contains(x));
                }
            }
            if ov.contains(x) {
                let j = choose|j: int| 0 <= j < ov.len() && ov[j] == x;
                if j < pos {
                    assert(nv[j] == x);
                } else {
                    assert(nv[j + 1] == x);
                }
                assert(nv.contains(x));
            }
            if x == item@ {
                assert(nv[pos] == x);
                assert(nv.contains(x));
            }
        }
    }
}

/// Binary search over a sorted vector of strings.
pub(crate) fn find_string(list: &Vec<String>, key: &str) -> (r: Option<usize>)
    requires
        strictly_sorted(views_of(list@)),
    ensures
        match r {
            Some(i) => i < list.len() && views_of(list@)[i as int] == key@,
            None => !views_of(list@).contains(key@),
        },
{
    let ghost vs = views_of(list@);
    let mut lo: usize = 0;
    let mut hi: usize = list.len();
    while lo < hi
        invariant
            lo <= hi <= list.len(),
            vs == views_of(list@),
            strictly_sorted(vs),
            forall|j: int| 0 <= j < vs.len() && vs[j] == key@ ==> lo <= j < hi,
        decreases hi - lo,
    {
        let mid = lo + (hi - lo) / 2;
        let c = str_compare(key, list[mid].as_str());
        if c == 0 {
            return Some(mid);
        }
        if c == -1 {
            assert forall|j: int| 0 <= j < vs.len() && vs[j] == key@ implies lo <= j < mid by {
                if j >= mid {
                    if j == mid {
                        assert(false);
                    } else {
                        assert(lex_lt(vs[mid as int], vs[j]));
                        lemma_lex_trans(key@, vs[mid as int], key@);
                        lemma_lex_irrefl(key@);
                    }
                }
            }
            hi = mid;
        } else {
            assert forall|j: int| 0 <= j < vs.len() && vs[j] == key@ implies mid < j < hi by {
                if j <= mid {
                    if j == mid {
                        assert(false);
                    } else {
                        assert(lex_lt(vs[j], vs[mid as int]));
                        lemma_lex_trans(vs[mid as int], key@, vs[mid as int]);
                        lemma_lex_irrefl(vs[mid as int]);
                    }
                }
            }
            lo = mid + 1;
        }
    }
    proof {
        if vs.contains(key@) {
            let j = choose|j: int| 0 <= j < vs.len() && vs[j] == key@;
            assert(lo <= j < hi);
        }
    }
    None
}

} // verus!
