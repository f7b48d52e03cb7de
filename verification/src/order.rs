//! Sorting by a strict order on the views of the elements.
use vstd::prelude::*;
use vstd::multiset::Multiset;

verus! {

broadcast use vstd::seq_lib::group_to_multiset_ensures;

/// The views of the elements of `s`, in order.
pub open spec fn views<T: View>(s: Seq<T>) -> Seq<T::V> {
    Seq::new(s.len(), |i: int| s[i]@)
}

pub proof fn lemma_views_push<T: View>(s: Seq<T>, x: T)
    ensures
        views(s.push(x)) == views(s).push(x@),
{
    assert(views(s.push(x)) =~= views(s).push(x@));
}

pub proof fn lemma_views_insert<T: View>(s: Seq<T>, i: int, x: T)
    requires
        0 <= i <= s.len(),
    ensures
        views(s.insert(i, x)) == views(s).insert(i, x@),
{
    assert(views(s.insert(i, x)) =~= views(s).insert(i, x@));
}

pub proof fn lemma_views_remove<T: View>(s: Seq<T>, i: int)
    requires
        0 <= i < s.len(),
    ensures
        views(s.remove(i)) == views(s).remove(i),
{
    assert(views(s.remove(i)) =~= views(s).remove(i));
}

pub proof fn lemma_views_update<T: View>(s: Seq<T>, i: int, x: T)
    requires
        0 <= i < s.len(),
    ensures
        views(s.update(i, x)) == views(s).update(i, x@),
{
    assert(views(s.update(i, x)) =~= views(s).update(i, x@));
}

/// Inserting anywhere adds the element to the multiset of a sequence.
pub proof fn lemma_insert_to_multiset<A>(s: Seq<A>, i: int, x: A)
    requires
        0 <= i <= s.len(),
    ensures
        s.insert(i, x).to_multiset() =~= s.to_multiset().insert(x),
{
    let t = s.insert(i, x);
    assert(t.remove(i) =~= s);
    assert(t[i] == x);
    assert(t.contains(x));
    assert(t.to_multiset().count(x) > 0);
    assert(t.remove(i).to_multiset() =~= t.to_multiset().remove(x));
}

/// An order that elements of a type can be sorted by; only its views decide.
pub trait Ranked: View + Sized {
    /// `a` goes strictly before `b`.
    spec fn ranks_before(a: Self::V, b: Self::V) -> bool;

    fn before(&self, other: &Self) -> (r: bool)
        ensures
            r == Self::ranks_before(self@, other@),
    ;

    /// The order is asymmetric and transitive.
    proof fn lemma_strict_order(a: Self::V, b: Self::V, c: Self::V)
        ensures
            !(Self::ranks_before(a, b) && Self::ranks_before(b, a)),
            Self::ranks_before(a, b) && Self::ranks_before(b, c) ==> Self::ranks_before(a, c),
    ;
}

/// No element goes strictly before an element that precedes it.
pub open spec fn sorted_by_rank<T: Ranked>(s: Seq<T::V>) -> bool {
    forall|i: int, j: int| 0 <= i < j < s.len() ==> !T::ranks_before(#[trigger] s[j], #[trigger] s[i])
}

/// The elements of `items`, reordered so that none goes before one that
/// precedes it.
pub fn sort_ranked<T: Ranked>(items: Vec<T>) -> (r: Vec<T>)
    ensures
        sorted_by_rank::<T>(views(r@)),
        views(r@).to_multiset() == views(items@).to_multiset(),
{
    let mut src = items;
    let mut out: Vec<T> = Vec::new();
    assert(views(out@).to_multiset() =~= Multiset::empty());
    while src.len() > 0
        invariant
            sorted_by_rank::<T>(views(out@)),
            views(out@).to_multiset().add(views(src@).to_multiset()) == views(
                items@,
            ).to_multiset(),
        decreases src.len(),
    {
        let ghost before_src = src@;
        let x = src.pop().unwrap();
        proof {
            assert(before_src == src@.push(x));
            lemma_views_push(src@, x);
        }
        let mut p: usize = 0;
        while p < out.len() && !x.before(&out[p])
            invariant
                0 <= p <= out@.len(),
                forall|k: int| 0 <= k < p ==> !T::ranks_before(x@, #[trigger] out@[k]@),
            decreases out.len() - p,
        {
            p = p + 1;
        }
        let ghost old_out = out@;
        out.insert(p, x);
        proof {
            lemma_views_insert(old_out, p as int, x);
            lemma_insert_to_multiset(views(old_out), p as int, x@);
            let v = views(out@);
            let w = views(old_out);
            assert forall|i: int, j: int| 0 <= i < j < v.len() implies !T::ranks_before(
                #[trigger] v[j],
                #[trigger] v[i],
            ) by {
                if j < p {
                    assert(v[i] == w[i] && v[j] == w[j]);
                } else if i > p {
                    assert(v[i] == w[i - 1] && v[j] == w[j - 1]);
                } else if i == p {
                    // x against a later element that was at index p or after
                    assert(v[i] == x@ && v[j] == w[j - 1]);
                    T::lemma_strict_order(w[j - 1], x@, w[p as int]);
                    if j - 1 > p {
                        assert(!T::ranks_before(w[j - 1], w[p as int]));
                    }
                } else if j == p {
                    assert(v[j] == x@ && v[i] == w[i]);
                } else {
                    assert(i < p && p < j);
                    assert(v[i] == w[i] && v[j] == w[j - 1]);
                }
            }
            assert(views(src@).to_multiset().insert(x@) =~= views(before_src).to_multiset());
            assert(views(out@).to_multiset().add(views(src@).to_multiset()) =~= views(
                old_out,
            ).to_multiset().add(views(before_src).to_multiset()));
        }
    }
    assert(views(src@).to_multiset() =~= Multiset::empty());
    assert(views(out@).to_multiset().add(Multiset::empty()) =~= views(out@).to_multiset());
    out
}

} // verus!
