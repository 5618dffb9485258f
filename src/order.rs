//! The order the grid lists sounds in: configured categories first, in
//! their configured order, then the others by name; by id within a category.

use vstd::prelude::*;
use crate::catalog::Sound;
use vstd::multiset::Multiset;

verus! {

broadcast use vstd::seq_lib::group_to_multiset_ensures, vstd::multiset::group_multiset_axioms;

/// Lexicographic order of texts by code point, as `str`'s `Ord` orders them.
pub open spec fn text_less(a: Seq<char>, b: Seq<char>) -> bool
    decreases a.len(),
{
    if a.len() == 0 {
        b.len() > 0
    } else if b.len() == 0 {
        false
    } else if a[0] != b[0] {
        (a[0] as u32) < (b[0] as u32)
    } else {
        text_less(a.drop_first(), b.drop_first())
    }
}

/// The position of a category in the configured order.
pub open spec fn rank(order: Seq<String>, category: Seq<char>) -> Option<int>
    decreases order.len(),
{
    if order.len() == 0 {
        None
    } else {
        match rank(order.drop_last(), category) {
            Some(i) => Some(i),
            None => if order.last()@ == category {
                Some(order.len() - 1)
            } else {
                None
            },
        }
    }
}

/// Whether `a` comes strictly before `b`.
pub open spec fn sound_less(a: Sound, b: Sound, order: Seq<String>) -> bool {
    match (rank(order, a.category@), rank(order, b.category@)) {
        (Some(x), Some(y)) => x < y || (x == y && text_less(a.id@, b.id@)),
        (Some(_), None) => true,
        (None, Some(_)) => false,
        (None, None) => text_less(a.category@, b.category@) || (a.category@ == b.category@
            && text_less(a.id@, b.id@)),
    }
}

/// No sound comes before one listed earlier.
pub open spec fn is_ordered(s: Seq<Sound>, order: Seq<String>) -> bool {
    forall|i: int, j: int| 0 <= i < j < s.len() ==> !sound_less(s[j], s[i], order)
}

pub proof fn lemma_text_less_irreflexive(a: Seq<char>)
    ensures
        !text_less(a, a),
    decreases a.len(),
{
    if a.len() > 0 {
        lemma_text_less_irreflexive(a.drop_first());
    }
}

pub proof fn lemma_text_less_transitive(a: Seq<char>, b: Seq<char>, c: Seq<char>)
    requires
        text_less(a, b),
        text_less(b, c),
    ensures
        text_less(a, c),
    decreases a.len(),
{
    if a.len() > 0 && a[0] == b[0] && b[0] == c[0] {
        lemma_text_less_transitive(a.drop_first(), b.drop_first(), c.drop_first());
    }
}

pub proof fn lemma_sound_less_irreflexive(a: Sound, order: Seq<String>)
    ensures
        !sound_less(a, a, order),
{
    lemma_text_less_irreflexive(a.id@);
    lemma_text_less_irreflexive(a.category@);
}

pub proof fn lemma_sound_less_transitive(a: Sound, b: Sound, c: Sound, order: Seq<String>)
    requires
        sound_less(a, b, order),
        sound_less(b, c, order),
    ensures
        sound_less(a, c, order),
{
    if text_less(a.id@, b.id@) && text_less(b.id@, c.id@) {
        lemma_text_less_transitive(a.id@, b.id@, c.id@);
    }
    if text_less(a.category@, b.category@) && text_less(b.category@, c.category@) {
        lemma_text_less_transitive(a.category@, b.category@, c.category@);
    }
}

fn text_lt(a: &str, b: &str) -> (r: bool)
    ensures
        r == text_less(a@, b@),
{
    let n = a.unicode_len();
    let m = b.unicode_len();
    let mut i: usize = 0;
    assert(a@.subrange(0, n as int) =~= a@);
    assert(b@.subrange(0, m as int) =~= b@);
    while i < n && i < m && a.get_char(i) == b.get_char(i)
        invariant
            n == a@.len(),
            m == b@.len(),
            i <= n,
            i <= m,
            text_less(a@, b@) == text_less(a@.subrange(i as int, n as int), b@.subrange(i as int, m as int)),
        decreases n - i,
    {
        assert(a@.subrange(i as int, n as int).drop_first() =~= a@.subrange(i + 1, n as int));
        assert(b@.subrange(i as int, m as int).drop_first() =~= b@.subrange(i + 1, m as int));
        i = i + 1;
    }
    if i == n {
        i < m
    } else if i == m {
        false
    } else {
        (a.get_char(i) as u32) < (b.get_char(i) as u32)
    }
}

fn rank_of(order: &Vec<String>, category: &String) -> (r: Option<usize>)
    ensures
        match r {
            Some(i) => rank(order@, category@) == Some(i as int),
            None => rank(order@, category@) is None,
        },
{
    proof {
        lemma_rank(order@, category@);
    }
    let mut i: usize = 0;
    while i < order.len()
        invariant
            i <= order.len(),
            forall|j: int| 0 <= j < i ==> order@[j]@ != category@,
            match rank(order@, category@) {
                Some(f) => 0 <= f < order@.len() && order@[f]@ == category@ && forall|j: int|
                    0 <= j < f ==> order@[j]@ != category@,
                None => forall|j: int| 0 <= j < order@.len() ==> order@[j]@ != category@,
            },
        decreases order.len() - i,
    {
        if order[i] == *category {
            return Some(i);
        }
        i = i + 1;
    }
    None
}

proof fn lemma_rank(order: Seq<String>, category: Seq<char>)
    ensures
        match rank(order, category) {
            Some(i) => 0 <= i < order.len() && order[i]@ == category && forall|j: int|
                0 <= j < i ==> order[j]@ != category,
            None => forall|j: int| 0 <= j < order.len() ==> order[j]@ != category,
        },
    decreases order.len(),
{
    if order.len() > 0 {
        lemma_rank(order.drop_last(), category);
        assert forall|j: int| 0 <= j < order.len() - 1 implies order.drop_last()[j] == order[j] by {}
    }
}

/// Whether `a` comes strictly before `b` in the grid's order.
pub fn comes_before(a: &Sound, b: &Sound, order: &Vec<String>) -> (r: bool)
    ensures
        r == sound_less(*a, *b, order@),
{
    let ra = rank_of(order, &a.category);
    let rb = rank_of(order, &b.category);
    match (ra, rb) {
        (Some(x), Some(y)) => x < y || (x == y && text_lt(a.id.as_str(), b.id.as_str())),
        (Some(_), None) => true,
        (None, Some(_)) => false,
        (None, None) => text_lt(a.category.as_str(), b.category.as_str()) || (a.category
            == b.category && text_lt(a.id.as_str(), b.id.as_str())),
    }
}

/// Sorts the sounds into the grid's order; sounds that tie keep their order.
pub fn sort_sounds(sounds: &mut Vec<Sound>, order: &Vec<String>)
    ensures
        final(sounds)@.to_multiset() == old(sounds)@.to_multiset(),
        is_ordered(final(sounds)@, order@),
{
    let mut input: Vec<Sound> = Vec::new();
    std::mem::swap(sounds, &mut input);
    let ghost all = input@.to_multiset();
    let mut out: Vec<Sound> = Vec::new();
    assert(out@.to_multiset().add(input@.to_multiset()) =~= all);
    while input.len() > 0
        invariant
            all == old(sounds)@.to_multiset(),
            out@.to_multiset().add(input@.to_multiset()) == all,
            is_ordered(out@, order@),
        decreases input.len(),
    {
        let ghost pending = input@;
        let x = input.remove(0);
        assert(pending.to_multiset().contains(x));
        let mut p: usize = 0;
        while p < out.len() && !comes_before(&x, &out[p], order)
            invariant
                p <= out.len(),
                forall|k: int| 0 <= k < p ==> !sound_less(x, out@[k], order@),
            decreases out.len() - p,
        {
            p = p + 1;
        }
        let ghost before = out@;
        out.insert(p, x);
        assert(out@.to_multiset().add(input@.to_multiset()) =~= all);
        proof {
            assert forall|i: int, j: int| 0 <= i < j < out@.len() implies !sound_less(
                out@[j],
                out@[i],
                order@,
            ) by {
                if i < p && j == p {
                } else if i == p && j > p {
                    // x is before before[p]; before[j - 1] is not before before[p]
                    if sound_less(before[j - 1], x, order@) {
                        if j - 1 == p {
                            lemma_sound_less_transitive(x, before[p as int], x, order@);
                            lemma_sound_less_irreflexive(x, order@);
                        } else {
                            lemma_sound_less_transitive(before[j - 1], x, before[p as int], order@);
                        }
                    }
                } else if i < p && j > p {
                    assert(out@[i] == before[i] && out@[j] == before[j - 1]);
                } else if j < p {
                    assert(out@[i] == before[i] && out@[j] == before[j]);
                } else {
                    assert(out@[i] == before[i - 1] && out@[j] == before[j - 1]);
                }
            }
        }
    }
    assert(input@.to_multiset() =~= Multiset::empty());
    *sounds = out;
}

} // verus!
