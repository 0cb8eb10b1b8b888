//! Splitting an ordered list into consecutive pages of bounded size.
use vstd::prelude::*;
use vstd::arithmetic::div_mod::{lemma_basic_div_specific_divisor, lemma_div_plus_one};

verus! {

/// Number of pages needed for `len` items, `page_size` per page.
pub open spec fn page_count(len: nat, page_size: nat) -> nat
    recommends
        page_size > 0,
{
    ((len + page_size - 1) / page_size as int) as nat
}

/// The pages of `s`: consecutive windows of `page_size` items, the last
/// one possibly shorter; none for an empty `s`.
pub open spec fn pages_of(s: Seq<usize>, page_size: nat) -> Seq<Seq<usize>>
    decreases s.len(),
{
    if s.len() == 0 || page_size == 0 {
        Seq::empty()
    } else if s.len() <= page_size {
        seq![s]
    } else {
        seq![s.take(page_size as int)] + pages_of(s.skip(page_size as int), page_size)
    }
}

/// Positions as integers.
pub open spec fn positions_of(v: Seq<usize>) -> Seq<int> {
    v.map_values(|i: usize| i as int)
}

/// The item sequences held by a sequence of vectors.
pub open spec fn seqs(v: Seq<Vec<usize>>) -> Seq<Seq<usize>> {
    v.map_values(|x: Vec<usize>| x@)
}

/// Splits `items` into pages of `page_size` items, numbered from zero; the
/// last page holds what is left.
pub fn paginate(items: &Vec<usize>, page_size: usize) -> (r: Vec<Vec<usize>>)
    requires
        page_size > 0,
    ensures
        seqs(r@) == pages_of(items@, page_size as nat),
{
    let mut r: Vec<Vec<usize>> = Vec::new();
    let mut i: usize = 0;
    assert(items@.skip(0) =~= items@);
    assert(seqs(r@) + pages_of(items@.skip(0), page_size as nat) =~= pages_of(items@, page_size as nat));
    while i < items.len()
        invariant
            i <= items.len(),
            page_size > 0,
            seqs(r@) + pages_of(items@.skip(i as int), page_size as nat) == pages_of(items@, page_size as nat),
        decreases items.len() - i,
    {
        let ghost rest = items@.skip(i as int);
        let end: usize = if items.len() - i <= page_size { items.len() } else { i + page_size };
        let mut page: Vec<usize> = Vec::new();
        let mut j: usize = i;
        while j < end
            invariant
                i <= j <= end <= items.len(),
                page@ == items@.subrange(i as int, j as int),
            decreases end - j,
        {
            page.push(items[j]);
            j = j + 1;
            assert(page@ =~= items@.subrange(i as int, j as int));
        }
        let ghost before = seqs(r@);
        r.push(page);
        assert(seqs(r@) =~= before.push(items@.subrange(i as int, end as int)));
        if items.len() - i <= page_size {
            assert(rest =~= items@.subrange(i as int, end as int));
            assert(items@.skip(end as int) =~= Seq::<usize>::empty());
        } else {
            assert(rest.take(page_size as int) =~= items@.subrange(i as int, end as int));
            assert(rest.skip(page_size as int) =~= items@.skip(end as int));
        }
        assert(seqs(r@) + pages_of(items@.skip(end as int), page_size as nat) =~= before + pages_of(rest, page_size as nat));
        i = end;
    }
    assert(pages_of(items@.skip(i as int), page_size as nat) =~= Seq::<Seq<usize>>::empty());
    assert(seqs(r@) =~= pages_of(items@, page_size as nat));
    r
}

/// Pagination loses and reorders nothing: the pages joined in order give
/// back the list; every page but the last holds exactly `page_size` items,
/// the last between one and `page_size`; and there are
/// `ceil(len / page_size)` pages.
pub proof fn pagination_is_exact(s: Seq<usize>, page_size: nat)
    requires
        page_size > 0,
    ensures
        pages_of(s, page_size).flatten() == s,
        forall|k: int| 0 <= k < pages_of(s, page_size).len() - 1 ==> #[trigger] pages_of(s, page_size)[k].len() == page_size,
        s.len() > 0 ==> 1 <= pages_of(s, page_size).last().len() <= page_size,
        pages_of(s, page_size).len() == page_count(s.len(), page_size),
    decreases s.len(),
{
    let p = pages_of(s, page_size);
    let n = page_size as int;
    if s.len() == 0 {
        lemma_basic_div_specific_divisor(n);
        assert(p.flatten() =~= s);
    } else if s.len() <= page_size {
        lemma_basic_div_specific_divisor(n);
        lemma_div_plus_one(s.len() - 1, n);
        assert(p.drop_first() =~= Seq::<Seq<usize>>::empty());
        assert(p.drop_first().flatten() == Seq::<usize>::empty());
        assert(p.first() == s);
        assert(p.flatten() =~= s);
    } else {
        let t = s.skip(n);
        pagination_is_exact(t, page_size);
        let q = pages_of(t, page_size);
        assert(p.drop_first() =~= q);
        assert(s.take(n) + t =~= s);
        lemma_div_plus_one(s.len() - 1, n);
        assert(((t.len() + n - 1) / n) == (s.len() - 1) / n);
        assert forall|k: int| 0 <= k < p.len() - 1 implies #[trigger] p[k].len() == page_size by {
            if k > 0 {
                assert(p[k] == q[k - 1]);
            }
        }
        assert(p.last() == q.last());
    }
}

} // verus!
