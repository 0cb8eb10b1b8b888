//! The tag index: each distinct tag with the ranked positions of the
//! entries that declare it, tags in lexicographic order.
use vstd::prelude::*;
use crate::entry::Website;
use crate::paginate::positions_of;
use crate::text::{chars_of, push_chars, split_tags, string_of, texts};

verus! {

/// Lexicographic order of character sequences by code point; a proper
/// prefix comes first.
pub open spec fn text_lt(a: Seq<char>, b: Seq<char>) -> bool
    decreases a.len(),
{
    if a.len() == 0 {
        b.len() > 0
    } else if b.len() == 0 {
        false
    } else if a[0] == b[0] {
        text_lt(a.drop_first(), b.drop_first())
    } else {
        (a[0] as int) < (b[0] as int)
    }
}

pub proof fn lemma_text_lt_irreflexive(a: Seq<char>)
    ensures
        !text_lt(a, a),
    decreases a.len(),
{
    if a.len() > 0 {
        lemma_text_lt_irreflexive(a.drop_first());
    }
}

pub proof fn lemma_text_lt_total(a: Seq<char>, b: Seq<char>)
    ensures
        a != b ==> (text_lt(a, b) || text_lt(b, a)),
        !(text_lt(a, b) && text_lt(b, a)),
    decreases a.len(),
{
    if a.len() > 0 && b.len() > 0 {
        lemma_text_lt_total(a.drop_first(), b.drop_first());
        if a[0] == b[0] && a != b {
            assert(a =~= seq![a[0]] + a.drop_first());
            assert(b =~= seq![b[0]] + b.drop_first());
        }
        if a[0] != b[0] {
            assert((a[0] as int) != (b[0] as int));
        }
    } else if a.len() == 0 && b.len() == 0 {
        assert(a =~= b);
    }
}

pub proof fn lemma_text_lt_trans(a: Seq<char>, b: Seq<char>, c: Seq<char>)
    requires
        text_lt(a, b),
        text_lt(b, c),
    ensures
        text_lt(a, c),
    decreases a.len(),
{
    if a.len() > 0 && b.len() > 0 && c.len() > 0 && a[0] == b[0] && b[0] == c[0] {
        lemma_text_lt_trans(a.drop_first(), b.drop_first(), c.drop_first());
    }
}

/// Whether `a` comes strictly before `b` in lexicographic order.
pub fn text_less(a: &Vec<char>, b: &Vec<char>) -> (r: bool)
    ensures
        r == text_lt(a@, b@),
{
    let mut i: usize = 0;
    assert(a@.skip(0) =~= a@);
    assert(b@.skip(0) =~= b@);
    while i < a.len() && i < b.len() && a[i] == b[i]
        invariant
            i <= a.len(),
            i <= b.len(),
            text_lt(a@.skip(i as int), b@.skip(i as int)) == text_lt(a@, b@),
        decreases a.len() - i,
    {
        assert(a@.skip(i as int).drop_first() =~= a@.skip(i + 1));
        assert(b@.skip(i as int).drop_first() =~= b@.skip(i + 1));
        i = i + 1;
    }
    if i == a.len() {
        i < b.len()
    } else if i == b.len() {
        false
    } else {
        assert(a@.skip(i as int)[0] == a@[i as int] && b@.skip(i as int)[0] == b@[i as int]);
        a[i] < b[i]
    }
}

/// The positions, ascending, of the tag lists in `tagsets` that hold `t`.
pub open spec fn carriers(tagsets: Seq<Seq<Seq<char>>>, t: Seq<char>) -> Seq<int>
    decreases tagsets.len(),
{
    if tagsets.len() == 0 {
        Seq::empty()
    } else {
        let r = carriers(tagsets.drop_last(), t);
        if tagsets.last().contains(t) {
            r.push(tagsets.len() - 1)
        } else {
            r
        }
    }
}

/// Every tag that some tag list of `tagsets` holds.
pub open spec fn all_tags(tagsets: Seq<Seq<Seq<char>>>) -> Set<Seq<char>> {
    Set::new(|t: Seq<char>| exists|i: int| 0 <= i < tagsets.len() && #[trigger] tagsets[i].contains(t))
}

/// The tag lists of a sequence of entries, in order.
pub open spec fn tagsets_of(entries: Seq<Website>) -> Seq<Seq<Seq<char>>> {
    entries.map_values(|e: Website| e.tag_seq())
}

/// One tag and the ranked positions of the entries that declare it.
pub struct TagBucket {
    pub name: Vec<char>,
    pub members: Vec<usize>,
}

impl TagBucket {
    /// The tag's name as a string.
    pub fn name_string(&self) -> (r: String)
        ensures
            r@ == self.name@,
    {
        string_of(&self.name)
    }
}

/// Every distinct tag of the ranked entries, in lexicographic order, each
/// with the ranked positions of the entries that declare it.
pub struct TagIndex {
    pub buckets: Vec<TagBucket>,
}

/// `buckets` is the index of `tagsets`: names strictly ascending, exactly
/// the tags that occur, each with its carriers in order.
pub open spec fn indexes(buckets: Seq<TagBucket>, tagsets: Seq<Seq<Seq<char>>>) -> bool {
    &&& forall|i: int, j: int|
        0 <= i < j < buckets.len() ==> text_lt(buckets[i].name@, buckets[j].name@)
    &&& forall|t: Seq<char>|
        all_tags(tagsets).contains(t) <==> exists|i: int|
            0 <= i < buckets.len() && #[trigger] buckets[i].name@ == t
    &&& forall|i: int|
        0 <= i < buckets.len() ==> positions_of(#[trigger] buckets[i].members@) == carriers(
            tagsets,
            buckets[i].name@,
        )
}

pub proof fn lemma_carriers_bound(tagsets: Seq<Seq<Seq<char>>>, t: Seq<char>)
    ensures
        forall|k: int|
            0 <= k < carriers(tagsets, t).len() ==> 0 <= #[trigger] carriers(tagsets, t)[k]
                < tagsets.len(),
    decreases tagsets.len(),
{
    if tagsets.len() > 0 {
        let p = tagsets.drop_last();
        lemma_carriers_bound(p, t);
        let c = carriers(tagsets, t);
        assert forall|k: int| 0 <= k < c.len() implies 0 <= #[trigger] c[k] < tagsets.len() by {
            if k < carriers(p, t).len() {
                assert(c[k] == carriers(p, t)[k]);
            }
        }
    }
}

pub proof fn lemma_carriers_absent(tagsets: Seq<Seq<Seq<char>>>, t: Seq<char>)
    requires
        !all_tags(tagsets).contains(t),
    ensures
        carriers(tagsets, t) == Seq::<int>::empty(),
    decreases tagsets.len(),
{
    if tagsets.len() > 0 {
        let p = tagsets.drop_last();
        assert(!all_tags(p).contains(t)) by {
            if all_tags(p).contains(t) {
                let i = choose|i: int| 0 <= i < p.len() && #[trigger] p[i].contains(t);
                assert(tagsets[i] == p[i]);
            }
        }
        lemma_carriers_absent(p, t);
        assert(!tagsets[tagsets.len() - 1].contains(t));
    }
}

proof fn lemma_extend(prefix: Seq<Seq<Seq<char>>>, cur: Seq<Seq<char>>, t: Seq<char>, x: Seq<char>)
    ensures
        carriers(prefix.push(cur), x) == carriers(prefix, x) + (if cur.contains(x) {
            seq![prefix.len() as int]
        } else {
            Seq::<int>::empty()
        }),
        cur.push(t).contains(x) <==> (cur.contains(x) || x == t),
        all_tags(prefix.push(cur.push(t))).contains(x) <==> (all_tags(prefix.push(cur)).contains(x)
            || x == t),
{
    let s0 = prefix.push(cur);
    let s1 = prefix.push(cur.push(t));
    assert(s0.drop_last() =~= prefix);
    if cur.contains(x) {
        let j = choose|j: int| 0 <= j < cur.len() && cur[j] == x;
        assert(cur.push(t)[j] == x);
    }
    if x == t {
        assert(cur.push(t)[cur.len() as int] == x);
    }
    if cur.push(t).contains(x) && x != t {
        let j = choose|j: int| 0 <= j < cur.len() + 1 && cur.push(t)[j] == x;
        assert(cur[j] == x);
    }
    if all_tags(s1).contains(x) {
        let i = choose|i: int| 0 <= i < s1.len() && #[trigger] s1[i].contains(x);
        if i < prefix.len() {
            assert(s0[i] == s1[i]);
        } else if x != t {
            assert(s0[i].contains(x));
        }
    }
    if all_tags(s0).contains(x) {
        let i = choose|i: int| 0 <= i < s0.len() && #[trigger] s0[i].contains(x);
        if i < prefix.len() {
            assert(s0[i] == s1[i]);
        } else {
            assert(s1[i].contains(x));
        }
    }
    if x == t {
        assert(s1[prefix.len() as int].contains(x));
    }
}

/// Records that position `k` declares tag `t`, given that `buckets` indexes
/// the entries before `k` and the tags `cur` of entry `k` seen so far.
fn add_tag(
    buckets: &mut Vec<TagBucket>,
    t: Vec<char>,
    k: usize,
    Ghost(prefix): Ghost<Seq<Seq<Seq<char>>>>,
    Ghost(cur): Ghost<Seq<Seq<char>>>,
)
    requires
        prefix.len() == k,
        indexes(old(buckets)@, prefix.push(cur)),
    ensures
        indexes(final(buckets)@, prefix.push(cur.push(t@))),
{
    let ghost s0 = prefix.push(cur);
    let ghost s1 = prefix.push(cur.push(t@));
    let ghost b0 = buckets@;
    let mut p: usize = 0;
    while p < buckets.len() && text_less(&buckets[p].name, &t)
        invariant
            p <= buckets.len(),
            buckets@ == b0,
            forall|i: int| 0 <= i < p ==> text_lt(buckets@[i].name@, t@),
        decreases buckets.len() - p,
    {
        p = p + 1;
    }
    proof {
        assert forall|i: int, j: int| 0 <= i < b0.len() && 0 <= j < b0.len() && i != j implies b0[i].name@ != b0[j].name@ by {
            if i < j {
                lemma_text_lt_irreflexive(b0[i].name@);
            } else {
                lemma_text_lt_irreflexive(b0[j].name@);
            }
        }
    }
    if p < buckets.len() && !text_less(&t, &buckets[p].name) {
        proof {
            lemma_text_lt_total(b0[p as int].name@, t@);
        }
        let mut b = buckets.remove(p);
        let n = b.members.len();
        let ghost m0 = positions_of(b.members@);
        proof {
            lemma_extend(prefix, cur, t@, t@);
            lemma_carriers_bound(prefix, t@);
            lemma_extend(prefix, cur.push(t@), t@, t@);
        }
        if n == 0 || b.members[n - 1] != k {
            proof {
                if cur.contains(t@) {
                    assert(m0.last() == k as int);
                }
            }
            b.members.push(k);
            assert(positions_of(b.members@) =~= m0.push(k as int));
        } else {
            proof {
                if !cur.contains(t@) {
                    let c = carriers(prefix, t@);
                    assert(m0[n - 1] == c[n - 1]);
                }
            }
        }
        buckets.insert(p, b);
        assert(buckets@ =~= b0.update(p as int, b));
        proof {
            let b1 = buckets@;
            assert forall|x: Seq<char>| all_tags(s1).contains(x) <==> exists|i: int|
                0 <= i < b1.len() && #[trigger] b1[i].name@ == x by {
                lemma_extend(prefix, cur, t@, x);
                if exists|i: int| 0 <= i < b0.len() && #[trigger] b0[i].name@ == x {
                    let i = choose|i: int| 0 <= i < b0.len() && #[trigger] b0[i].name@ == x;
                    assert(b1[i].name@ == x);
                }
                if exists|i: int| 0 <= i < b1.len() && #[trigger] b1[i].name@ == x {
                    let i = choose|i: int| 0 <= i < b1.len() && #[trigger] b1[i].name@ == x;
                    assert(b0[i].name@ == x);
                }
            }
            assert forall|i: int| 0 <= i < b1.len() implies positions_of(#[trigger] b1[i].members@)
                == carriers(s1, b1[i].name@) by {
                lemma_extend(prefix, cur, t@, b1[i].name@);
                lemma_extend(prefix, cur.push(t@), t@, b1[i].name@);
                if i != p {
                    assert(b1[i] == b0[i]);
                }
            }
        }
    } else {
        proof {
            if p < b0.len() {
                lemma_text_lt_total(b0[p as int].name@, t@);
            }
            assert(!all_tags(s0).contains(t@)) by {
                if all_tags(s0).contains(t@) {
                    let i = choose|i: int| 0 <= i < b0.len() && #[trigger] b0[i].name@ == t@;
                    if i < p {
                        lemma_text_lt_irreflexive(t@);
                    } else if i > p {
                        lemma_text_lt_trans(t@, b0[p as int].name@, b0[i].name@);
                        lemma_text_lt_irreflexive(t@);
                    }
                }
            }
            lemma_extend(prefix, cur, t@, t@);
            assert(!cur.contains(t@)) by {
                if cur.contains(t@) {
                    assert(s0[prefix.len() as int].contains(t@));
                }
            }
            assert(!all_tags(prefix).contains(t@)) by {
                if all_tags(prefix).contains(t@) {
                    let i = choose|i: int| 0 <= i < prefix.len() && #[trigger] prefix[i].contains(t@);
                    assert(s0[i] == prefix[i]);
                }
            }
            lemma_carriers_absent(prefix, t@);
        }
        let mut m: Vec<usize> = Vec::new();
        m.push(k);
        let ghost mv = m@;
        assert(positions_of(m@) =~= seq![k as int]);
        let ghost tv = t@;
        buckets.insert(p, TagBucket { name: t, members: m });
        proof {
            let b1 = buckets@;
            assert(b1 == b0.insert(p as int, b1[p as int]));
            assert(b1[p as int].name@ == tv);
            assert(b1[p as int].members@ == mv);
            assert forall|i: int, j: int| 0 <= i < j < b1.len() implies text_lt(b1[i].name@, b1[j].name@) by {
                if j < p {
                    assert(b1[i] == b0[i] && b1[j] == b0[j]);
                } else if j == p {
                    assert(b1[i] == b0[i]);
                } else if i > p {
                    assert(b1[i] == b0[i - 1] && b1[j] == b0[j - 1]);
                } else if i == p {
                    assert(b1[j] == b0[j - 1]);
                    lemma_text_lt_total(b0[p as int].name@, tv);
                    if j - 1 > p {
                        lemma_text_lt_trans(tv, b0[p as int].name@, b0[j - 1].name@);
                    }
                } else {
                    assert(b1[i] == b0[i] && b1[j] == b0[j - 1]);
                    lemma_text_lt_total(b0[p as int].name@, tv);
                    if j - 1 > p {
                        lemma_text_lt_trans(tv, b0[p as int].name@, b0[j - 1].name@);
                    }
                    lemma_text_lt_trans(b0[i].name@, tv, b0[j - 1].name@);
                }
            }
            assert forall|x: Seq<char>| all_tags(s1).contains(x) <==> exists|i: int|
                0 <= i < b1.len() && #[trigger] b1[i].name@ == x by {
                lemma_extend(prefix, cur, tv, x);
                if exists|i: int| 0 <= i < b0.len() && #[trigger] b0[i].name@ == x {
                    let i = choose|i: int| 0 <= i < b0.len() && #[trigger] b0[i].name@ == x;
                    if i < p {
                        assert(b1[i] == b0[i]);
                    } else {
                        assert(b1[i + 1] == b0[i]);
                    }
                }
                if exists|i: int| 0 <= i < b1.len() && #[trigger] b1[i].name@ == x {
                    let i = choose|i: int| 0 <= i < b1.len() && #[trigger] b1[i].name@ == x;
                    if i < p {
                        assert(b1[i] == b0[i]);
                    } else if i > p {
                        assert(b1[i] == b0[i - 1]);
                    }
                }
            }
            assert forall|i: int| 0 <= i < b1.len() implies positions_of(#[trigger] b1[i].members@)
                == carriers(s1, b1[i].name@) by {
                lemma_extend(prefix, cur, tv, b1[i].name@);
                lemma_extend(prefix, cur.push(tv), tv, b1[i].name@);
                if i < p {
                    assert(b1[i] == b0[i]);
                } else if i > p {
                    assert(b1[i] == b0[i - 1]);
                }
            }
        }
    }
}

proof fn lemma_open_entry(prefix: Seq<Seq<Seq<char>>>, buckets: Seq<TagBucket>)
    requires
        indexes(buckets, prefix),
    ensures
        indexes(buckets, prefix.push(Seq::empty())),
{
    let e = Seq::<Seq<char>>::empty();
    let s = prefix.push(e);
    assert forall|x: Seq<char>| all_tags(s).contains(x) == all_tags(prefix).contains(x) by {
        lemma_extend(prefix, e, x, x);
        if all_tags(prefix).contains(x) {
            let i = choose|i: int| 0 <= i < prefix.len() && #[trigger] prefix[i].contains(x);
            assert(s[i] == prefix[i]);
        }
        if all_tags(s).contains(x) {
            let i = choose|i: int| 0 <= i < s.len() && #[trigger] s[i].contains(x);
            if i == prefix.len() {
                assert(!e.contains(x));
            } else {
                assert(s[i] == prefix[i]);
            }
        }
    }
    assert forall|i: int| 0 <= i < buckets.len() implies positions_of(#[trigger] buckets[i].members@)
        == carriers(s, buckets[i].name@) by {
        lemma_extend(prefix, e, buckets[i].name@, buckets[i].name@);
        assert(!e.contains(buckets[i].name@));
        assert(carriers(prefix, buckets[i].name@) + Seq::<int>::empty() =~= carriers(prefix, buckets[i].name@));
    }
}

impl TagIndex {
    /// The index of ranked entries: every distinct tag they declare, in
    /// lexicographic order, each with the ranked positions of the entries
    /// that declare it, ascending and without repeats.
    pub fn build(ranked: &Vec<Website>) -> (r: TagIndex)
        ensures
            indexes(r.buckets@, tagsets_of(ranked@)),
    {
        let ghost ts = tagsets_of(ranked@);
        let mut buckets: Vec<TagBucket> = Vec::new();
        let mut k: usize = 0;
        proof {
            assert(ts.take(0) =~= Seq::<Seq<Seq<char>>>::empty());
            assert forall|x: Seq<char>| !all_tags(ts.take(0)).contains(x) by {}
        }
        while k < ranked.len()
            invariant
                k <= ranked.len(),
                ts == tagsets_of(ranked@),
                indexes(buckets@, ts.take(k as int)),
            decreases ranked.len() - k,
        {
            let tags = split_tags(&chars_of(ranked[k].tags.as_str()));
            assert(texts(tags@) == ts[k as int]);
            let ghost prefix = ts.take(k as int);
            proof {
                lemma_open_entry(prefix, buckets@);
                assert(texts(tags@).take(0) =~= Seq::<Seq<char>>::empty());
            }
            let mut j: usize = 0;
            while j < tags.len()
                invariant
                    j <= tags.len(),
                    prefix == ts.take(k as int),
                    prefix.len() == k,
                    texts(tags@) == ts[k as int],
                    k < ts.len(),
                    indexes(buckets@, prefix.push(texts(tags@).take(j as int))),
                decreases tags.len() - j,
            {
                let mut t: Vec<char> = Vec::new();
                push_chars(&mut t, &tags[j]);
                assert(t@ =~= tags@[j as int]@);
                add_tag(&mut buckets, t, k, Ghost(prefix), Ghost(texts(tags@).take(j as int)));
                assert(texts(tags@).take(j as int).push(tags@[j as int]@) =~= texts(tags@).take(j + 1));
                j = j + 1;
            }
            assert(texts(tags@).take(j as int) =~= texts(tags@));
            assert(prefix.push(texts(tags@).take(j as int)) =~= ts.take(k + 1));
            k = k + 1;
        }
        assert(ts.take(k as int) =~= ts);
        TagIndex { buckets }
    }
}

proof fn lemma_carriers_exact(tagsets: Seq<Seq<Seq<char>>>, t: Seq<char>)
    ensures
        forall|k: int, l: int|
            0 <= k < l < carriers(tagsets, t).len() ==> carriers(tagsets, t)[k] < carriers(
                tagsets,
                t,
            )[l],
        forall|k: int|
            0 <= k < carriers(tagsets, t).len() ==> 0 <= #[trigger] carriers(tagsets, t)[k]
                < tagsets.len() && tagsets[carriers(tagsets, t)[k]].contains(t),
        forall|i: int|
            0 <= i < tagsets.len() && #[trigger] tagsets[i].contains(t) ==> carriers(
                tagsets,
                t,
            ).contains(i),
    decreases tagsets.len(),
{
    if tagsets.len() > 0 {
        let p = tagsets.drop_last();
        lemma_carriers_exact(p, t);
        let cp = carriers(p, t);
        let c = carriers(tagsets, t);
        assert forall|k: int| 0 <= k < cp.len() implies c[k] == cp[k] && tagsets[cp[k]] == p[cp[k]] by {}
        assert forall|i: int| 0 <= i < tagsets.len() && #[trigger] tagsets[i].contains(t) implies c.contains(i) by {
            if i < tagsets.len() - 1 {
                assert(p[i] == tagsets[i]);
                let k = choose|k: int| 0 <= k < cp.len() && cp[k] == i;
                assert(c[k] == i);
            } else {
                assert(c[c.len() - 1] == i);
            }
        }
    }
}

/// Every tag an entry declares has exactly one bucket, and that bucket
/// lists the entry exactly once; the bucket's positions ascend, so they
/// follow the ranked order, and each names an entry declaring the tag.
pub proof fn index_lists_each_carrier_once(
    buckets: Seq<TagBucket>,
    tagsets: Seq<Seq<Seq<char>>>,
    i: int,
    t: Seq<char>,
)
    requires
        indexes(buckets, tagsets),
        0 <= i < tagsets.len(),
        tagsets[i].contains(t),
    ensures
        exists|b: int| 0 <= b < buckets.len() && #[trigger] buckets[b].name@ == t,
        forall|b: int, c: int|
            0 <= b < buckets.len() && 0 <= c < buckets.len() && buckets[b].name@ == t
                && buckets[c].name@ == t ==> b == c,
        forall|b: int|
            0 <= b < buckets.len() && #[trigger] buckets[b].name@ == t ==> {
                let m = positions_of(buckets[b].members@);
                &&& exists|k: int| 0 <= k < m.len() && m[k] == i
                &&& forall|k: int, l: int|
                    0 <= k < m.len() && 0 <= l < m.len() && m[k] == i && m[l] == i ==> k == l
                &&& forall|k: int, l: int| 0 <= k < l < m.len() ==> m[k] < m[l]
                &&& forall|k: int|
                    0 <= k < m.len() ==> 0 <= m[k] < tagsets.len() && tagsets[m[k]].contains(t)
            },
{
    assert(all_tags(tagsets).contains(t));
    lemma_carriers_exact(tagsets, t);
    assert forall|b: int, c: int|
        0 <= b < buckets.len() && 0 <= c < buckets.len() && buckets[b].name@ == t
            && buckets[c].name@ == t implies b == c by {
        if b < c || c < b {
            lemma_text_lt_irreflexive(t);
        }
    }
    assert forall|b: int| 0 <= b < buckets.len() && #[trigger] buckets[b].name@ == t implies {
        let m = positions_of(buckets[b].members@);
        &&& exists|k: int| 0 <= k < m.len() && m[k] == i
        &&& forall|k: int, l: int|
            0 <= k < m.len() && 0 <= l < m.len() && m[k] == i && m[l] == i ==> k == l
        &&& forall|k: int, l: int| 0 <= k < l < m.len() ==> m[k] < m[l]
        &&& forall|k: int|
            0 <= k < m.len() ==> 0 <= m[k] < tagsets.len() && tagsets[m[k]].contains(t)
    } by {
        let m = positions_of(buckets[b].members@);
        assert(m == carriers(tagsets, t));
        assert(m.contains(i));
        assert forall|k: int, l: int|
            0 <= k < m.len() && 0 <= l < m.len() && m[k] == i && m[l] == i implies k == l by {
            if k < l || l < k {
                assert(m[k] != m[l]);
            }
        }
        assert forall|k: int| 0 <= k < m.len() implies 0 <= m[k] < tagsets.len() && tagsets[m[k]].contains(t) by {
            assert(m[k] == carriers(tagsets, t)[k]);
        }
    }
}

/// Two strictly ascending sequences of names that hold the same names are
/// equal.
pub proof fn lemma_sorted_names_unique(a: Seq<Seq<char>>, b: Seq<Seq<char>>)
    requires
        forall|i: int, j: int| 0 <= i < j < a.len() ==> text_lt(a[i], a[j]),
        forall|i: int, j: int| 0 <= i < j < b.len() ==> text_lt(b[i], b[j]),
        forall|t: Seq<char>| a.contains(t) <==> b.contains(t),
    ensures
        a == b,
    decreases a.len(),
{
    if a.len() == 0 {
        if b.len() > 0 {
            assert(b.contains(b[0]));
        }
        assert(b =~= a);
    } else if b.len() == 0 {
        assert(a.contains(a[0]));
    } else {
        assert(a.contains(a[0]));
        assert(b.contains(b[0]));
        let j = choose|j: int| 0 <= j < b.len() && b[j] == a[0];
        let i = choose|i: int| 0 <= i < a.len() && a[i] == b[0];
        if j > 0 {
            if i > 0 {
                lemma_text_lt_total(a[0], a[i]);
            } else {
                lemma_text_lt_irreflexive(b[0]);
            }
        }
        assert(a[0] == b[0]);
        let ta = a.drop_first();
        let tb = b.drop_first();
        assert forall|t: Seq<char>| ta.contains(t) <==> tb.contains(t) by {
            if ta.contains(t) {
                let k = choose|k: int| 0 <= k < ta.len() && ta[k] == t;
                assert(a[k + 1] == t);
                assert(a.contains(t));
                let l = choose|l: int| 0 <= l < b.len() && b[l] == t;
                if l == 0 {
                    lemma_text_lt_irreflexive(t);
                }
                assert(tb[l - 1] == t);
            }
            if tb.contains(t) {
                let k = choose|k: int| 0 <= k < tb.len() && tb[k] == t;
                assert(b[k + 1] == t);
                assert(b.contains(t));
                let l = choose|l: int| 0 <= l < a.len() && a[l] == t;
                if l == 0 {
                    lemma_text_lt_irreflexive(t);
                }
                assert(ta[l - 1] == t);
            }
        }
        lemma_sorted_names_unique(ta, tb);
        assert(a =~= seq![a[0]] + ta);
        assert(b =~= seq![b[0]] + tb);
    }
}

} // verus!
