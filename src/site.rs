//! The generated site as a list of files: the catalog document at
//! `index.html`, and for each tag a document `tags/<tag>/index.html` with
//! its pages `tags/<tag>/<k>.html`, numbered from zero.
use vstd::prelude::*;
use crate::entry::Website;
use crate::paginate::{paginate, pages_of, seqs};
use crate::rank::{rank, ranked_entries};
use crate::render::{generate_subpage, index_html, nav_target, render_index, render_tag_page, subpage_html, tag_page_html};
use crate::tag_index::{all_tags, indexes, lemma_carriers_bound, lemma_sorted_names_unique, tagsets_of, TagBucket, TagIndex};
use crate::paginate::positions_of;
use crate::text::{push_chars, push_decimal, push_str, string_of, texts};

verus! {

/// One file of the generated site: its path below the output directory,
/// and its content.
pub struct OutputFile {
    pub path: String,
    pub html: String,
}

/// Paths and contents of a list of files.
pub open spec fn file_views(files: Seq<OutputFile>) -> Seq<(Seq<char>, Seq<char>)> {
    files.map_values(|f: OutputFile| (f.path@, f.html@))
}

/// The directory of a tag's files.
pub open spec fn tag_dir(tag: Seq<char>) -> Seq<char> {
    "tags/"@ + tag + "/"@
}

/// The entries of `ranked` at the positions of `page`, in order.
pub open spec fn pick(ranked: Seq<Website>, page: Seq<usize>) -> Seq<Website> {
    page.map_values(|i: usize| ranked[i as int])
}

/// The page files of a tag, page `k` at `tags/<tag>/<k>.html`.
pub open spec fn page_files(ranked: Seq<Website>, tag: Seq<char>, pages: Seq<Seq<usize>>) -> Seq<(Seq<char>, Seq<char>)>
    decreases pages.len(),
{
    if pages.len() == 0 {
        Seq::empty()
    } else {
        page_files(ranked, tag, pages.drop_last()).push(
            (
                tag_dir(tag) + nav_target((pages.len() - 1) as nat),
                subpage_html(pick(ranked, pages.last())),
            ),
        )
    }
}

/// The files of one tag: its document, then its pages in order.
pub open spec fn tag_files(ranked: Seq<Website>, tag: Seq<char>, members: Seq<usize>, page_size: nat) -> Seq<(Seq<char>, Seq<char>)> {
    seq![(tag_dir(tag) + "index.html"@, tag_page_html(tag, pages_of(members, page_size).len()))]
        + page_files(ranked, tag, pages_of(members, page_size))
}

/// The files of every tag, tag by tag in the given order.
pub open spec fn all_tag_files(
    ranked: Seq<Website>,
    names: Seq<Seq<char>>,
    lists: Seq<Seq<usize>>,
    page_size: nat,
) -> Seq<(Seq<char>, Seq<char>)>
    decreases names.len(),
{
    if names.len() == 0 || lists.len() != names.len() {
        Seq::empty()
    } else {
        all_tag_files(ranked, names.drop_last(), lists.drop_last(), page_size) + tag_files(
            ranked,
            names.last(),
            lists.last(),
            page_size,
        )
    }
}

/// The tag names of an index, in order.
pub open spec fn bucket_names(buckets: Seq<TagBucket>) -> Seq<Seq<char>> {
    buckets.map_values(|b: TagBucket| b.name@)
}

/// The position lists of an index, in order.
pub open spec fn bucket_lists(buckets: Seq<TagBucket>) -> Seq<Seq<usize>> {
    buckets.map_values(|b: TagBucket| b.members@)
}

/// Every file of the site: the catalog document first, then the files of
/// each tag in the order of `names`.
pub open spec fn site_files(
    title: Seq<char>,
    description: Seq<char>,
    ranked: Seq<Website>,
    names: Seq<Seq<char>>,
    lists: Seq<Seq<usize>>,
    page_size: nat,
) -> Seq<(Seq<char>, Seq<char>)> {
    seq![("index.html"@, index_html(title, description, names, ranked))] + all_tag_files(
        ranked,
        names,
        lists,
        page_size,
    )
}

fn make_file(path: &Vec<char>, html: String) -> (r: OutputFile)
    ensures
        r.path@ == path@,
        r.html@ == html@,
{
    OutputFile { path: string_of(path), html }
}

/// The files of one tag: `tags/<tag>/index.html`, with the links to its
/// pages, then each page of `page_size` entries at `tags/<tag>/<k>.html`.
pub fn generate_tag_html(ranked: &Vec<Website>, bucket: &TagBucket, page_size: usize) -> (r: Vec<OutputFile>)
    requires
        page_size > 0,
        forall|k: int| 0 <= k < bucket.members@.len() ==> bucket.members@[k] < ranked@.len(),
    ensures
        file_views(r@) == tag_files(ranked@, bucket.name@, bucket.members@, page_size as nat),
{
    let pages = paginate(&bucket.members, page_size);
    let ghost ps = pages_of(bucket.members@, page_size as nat);
    proof {
        crate::paginate::pagination_is_exact(bucket.members@, page_size as nat);
        assert forall|p: int, q: int| 0 <= p < ps.len() && 0 <= q < ps[p].len() implies ps[p][q] < ranked@.len() by {
            lemma_pages_within(bucket.members@, page_size as nat, ranked@.len(), p, q);
        }
    }
    let mut dir: Vec<char> = Vec::new();
    push_str(&mut dir, "tags/");
    push_chars(&mut dir, &bucket.name);
    push_str(&mut dir, "/");
    let mut index_path: Vec<char> = Vec::new();
    push_chars(&mut index_path, &dir);
    push_str(&mut index_path, "index.html");
    let mut r: Vec<OutputFile> = Vec::new();
    let f = make_file(&index_path, render_tag_page(&bucket.name, pages.len()));
    r.push(f);
    assert(seqs(pages@).len() == pages@.len());
    assert(file_views(r@) =~= seq![(tag_dir(bucket.name@) + "index.html"@, tag_page_html(bucket.name@, ps.len()))] + page_files(ranked@, bucket.name@, ps.take(0)));
    let mut k: usize = 0;
    while k < pages.len()
        invariant
            k <= pages.len(),
            seqs(pages@) == ps,
            dir@ == tag_dir(bucket.name@),
            forall|p: int, q: int| 0 <= p < ps.len() && 0 <= q < ps[p].len() ==> ps[p][q] < ranked@.len(),
            file_views(r@) == seq![(tag_dir(bucket.name@) + "index.html"@, tag_page_html(bucket.name@, ps.len()))]
                + page_files(ranked@, bucket.name@, ps.take(k as int)),
        decreases pages.len() - k,
    {
        let ghost page = ps[k as int];
        assert(pages@[k as int]@ == page);
        let mut chunk: Vec<Website> = Vec::new();
        let mut q: usize = 0;
        while q < pages[k].len()
            invariant
                q <= pages@[k as int]@.len(),
                pages@[k as int]@ == page,
                k < pages@.len(),
                forall|j: int| 0 <= j < page.len() ==> page[j] < ranked@.len(),
                chunk@ == pick(ranked@, page.take(q as int)),
            decreases pages@[k as int]@.len() - q,
        {
            chunk.push(ranked[pages[k][q]].duplicate());
            q = q + 1;
            assert(chunk@ =~= pick(ranked@, page.take(q as int)));
        }
        assert(page.take(q as int) =~= page);
        let mut path: Vec<char> = Vec::new();
        push_chars(&mut path, &dir);
        push_decimal(&mut path, k);
        push_str(&mut path, ".html");
        let f = make_file(&path, generate_subpage(chunk));
        let ghost before = file_views(r@);
        r.push(f);
        assert(ps.take(k + 1).drop_last() =~= ps.take(k as int));
        assert(path@ =~= tag_dir(bucket.name@) + nav_target(k as nat));
        assert(file_views(r@) =~= before.push((path@, f.html@)));
        k = k + 1;
        assert(file_views(r@) =~= seq![(tag_dir(bucket.name@) + "index.html"@, tag_page_html(bucket.name@, ps.len()))]
            + page_files(ranked@, bucket.name@, ps.take(k as int)));
    }
    assert(ps.take(k as int) =~= ps);
    r
}

proof fn lemma_pages_within(s: Seq<usize>, page_size: nat, bound: nat, p: int, q: int)
    requires
        page_size > 0,
        forall|k: int| 0 <= k < s.len() ==> s[k] < bound,
        0 <= p < pages_of(s, page_size).len(),
        0 <= q < pages_of(s, page_size)[p].len(),
    ensures
        pages_of(s, page_size)[p][q] < bound,
    decreases s.len(),
{
    if s.len() > page_size && p > 0 {
        let t = s.skip(page_size as int);
        assert(pages_of(s, page_size)[p] == pages_of(t, page_size)[p - 1]);
        lemma_pages_within(t, page_size, bound, p - 1, q);
    } else if s.len() > page_size {
        assert(pages_of(s, page_size)[0] == s.take(page_size as int));
    }
}

/// Every file of the site for a feed: the entries are ranked, indexed by
/// tag, and each tag's entries split into pages of `page_size`. The
/// catalog document comes first, then each tag's files, tags in
/// lexicographic order.
pub fn build_site(title: &str, description: &str, entries: &Vec<Website>, page_size: usize) -> (r: Vec<OutputFile>)
    requires
        page_size > 0,
    ensures
        is_site_of(file_views(r@), title@, description@, entries@, page_size as nat),
{
    let ranked = rank(entries);
    let index = TagIndex::build(&ranked);
    let ghost b = index.buckets@;
    let ghost ts = tagsets_of(ranked@);
    let mut names: Vec<Vec<char>> = Vec::new();
    let mut i: usize = 0;
    while i < index.buckets.len()
        invariant
            i <= index.buckets.len(),
            b == index.buckets@,
            texts(names@) == bucket_names(b).take(i as int),
        decreases index.buckets.len() - i,
    {
        let mut n: Vec<char> = Vec::new();
        push_chars(&mut n, &index.buckets[i].name);
        assert(n@ =~= b[i as int].name@);
        let ghost before = texts(names@);
        let ghost nv = n@;
        names.push(n);
        assert(texts(names@) =~= before.push(nv));
        i = i + 1;
        assert(texts(names@) =~= bucket_names(b).take(i as int));
    }
    assert(bucket_names(b).take(i as int) =~= bucket_names(b));
    let mut r: Vec<OutputFile> = Vec::new();
    let mut path: Vec<char> = Vec::new();
    push_str(&mut path, "index.html");
    r.push(make_file(&path, render_index(title, description, &names, &ranked)));
    let ghost head = file_views(r@);
    assert(bucket_names(b).take(0) =~= Seq::<Seq<char>>::empty());
    assert(file_views(r@) =~= head + all_tag_files(ranked@, bucket_names(b).take(0), bucket_lists(b).take(0), page_size as nat));
    let mut j: usize = 0;
    while j < index.buckets.len()
        invariant
            j <= index.buckets.len(),
            b == index.buckets@,
            page_size > 0,
            indexes(b, ts),
            ts == tagsets_of(ranked@),
            ts.len() == ranked@.len(),
            file_views(r@) == head + all_tag_files(
                ranked@,
                bucket_names(b).take(j as int),
                bucket_lists(b).take(j as int),
                page_size as nat,
            ),
        decreases index.buckets.len() - j,
    {
        proof {
            let m = b[j as int].members@;
            lemma_carriers_bound(ts, b[j as int].name@);
            assert forall|k: int| 0 <= k < m.len() implies m[k] < ranked@.len() by {
                assert(positions_of(m)[k] == m[k] as int);
            }
        }
        let mut files = generate_tag_html(&ranked, &index.buckets[j], page_size);
        let ghost before = file_views(r@);
        let ghost added = file_views(files@);
        r.append(&mut files);
        assert(file_views(r@) =~= before + added);
        assert(bucket_names(b).take(j + 1).drop_last() =~= bucket_names(b).take(j as int));
        assert(bucket_lists(b).take(j + 1).drop_last() =~= bucket_lists(b).take(j as int));
        j = j + 1;
        assert(file_views(r@) =~= head + all_tag_files(
            ranked@,
            bucket_names(b).take(j as int),
            bucket_lists(b).take(j as int),
            page_size as nat,
        ));
    }
    assert(bucket_names(b).take(j as int) =~= bucket_names(b));
    assert(bucket_lists(b).take(j as int) =~= bucket_lists(b));
    assert(file_views(r@) =~= site_files(title@, description@, ranked@, bucket_names(b), bucket_lists(b), page_size as nat));
    assert(indexes(b, tagsets_of(ranked_entries(entries@))));
    r
}

/// Whether `files` are the site of a feed: the site files over the index
/// of the ranked entries.
pub open spec fn is_site_of(
    files: Seq<(Seq<char>, Seq<char>)>,
    title: Seq<char>,
    description: Seq<char>,
    entries: Seq<Website>,
    page_size: nat,
) -> bool {
    exists|b: Seq<TagBucket>|
        indexes(b, tagsets_of(ranked_entries(entries))) && files == site_files(
            title,
            description,
            ranked_entries(entries),
            bucket_names(b),
            bucket_lists(b),
            page_size,
        )
}

/// Building the site is repeatable: for one feed every run yields the same
/// paths with byte-identical contents, in the same order.
pub proof fn site_is_deterministic(
    files1: Seq<(Seq<char>, Seq<char>)>,
    files2: Seq<(Seq<char>, Seq<char>)>,
    title: Seq<char>,
    description: Seq<char>,
    entries: Seq<Website>,
    page_size: nat,
)
    requires
        is_site_of(files1, title, description, entries, page_size),
        is_site_of(files2, title, description, entries, page_size),
    ensures
        files1 == files2,
{
    let ts = tagsets_of(ranked_entries(entries));
    let b1 = choose|b: Seq<TagBucket>|
        indexes(b, ts) && files1 == site_files(
            title,
            description,
            ranked_entries(entries),
            bucket_names(b),
            bucket_lists(b),
            page_size,
        );
    let b2 = choose|b: Seq<TagBucket>|
        indexes(b, ts) && files2 == site_files(
            title,
            description,
            ranked_entries(entries),
            bucket_names(b),
            bucket_lists(b),
            page_size,
        );
    let n1 = bucket_names(b1);
    let n2 = bucket_names(b2);
    assert forall|t: Seq<char>| n1.contains(t) <==> n2.contains(t) by {
        if n1.contains(t) {
            let i = choose|i: int| 0 <= i < n1.len() && n1[i] == t;
            assert(b1[i].name@ == t);
            assert(all_tags(ts).contains(t));
            let j = choose|j: int| 0 <= j < b2.len() && #[trigger] b2[j].name@ == t;
            assert(n2[j] == t);
        }
        if n2.contains(t) {
            let i = choose|i: int| 0 <= i < n2.len() && n2[i] == t;
            assert(b2[i].name@ == t);
            assert(all_tags(ts).contains(t));
            let j = choose|j: int| 0 <= j < b1.len() && #[trigger] b1[j].name@ == t;
            assert(n1[j] == t);
        }
    }
    lemma_sorted_names_unique(n1, n2);
    let l1 = bucket_lists(b1);
    let l2 = bucket_lists(b2);
    assert forall|i: int| 0 <= i < l1.len() implies l1[i] == l2[i] by {
        assert(n1[i] == n2[i]);
        let p1 = positions_of(b1[i].members@);
        let p2 = positions_of(b2[i].members@);
        assert(p1 == p2);
        assert forall|k: int| 0 <= k < l1[i].len() implies l1[i][k] == l2[i][k] by {
            assert(p1[k] == p2[k]);
        }
        assert(p1.len() == p2.len());
        assert(l1[i] =~= l2[i]);
    }
    assert(l1 =~= l2);
}

} // verus!
