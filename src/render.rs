//! HTML rendering: entry lists, page documents, navigation bars and the
//! tag cloud. Templates are filled by named placeholders; a placeholder
//! missing from a template leaves the template as it is.
use vstd::prelude::*;
use crate::entry::Website;
use crate::text::{chars_of, decimal, digit_char, lemma_decimal_injective, push_chars, push_decimal, push_str, replace_all, replace_chars, string_of, texts};

verus! {

/// Document holding one page of entries, at `$ENTRIES`.
pub const SUBPAGE_TEMPLATE: &'static str = "<!DOCTYPE html>\n<html>\n<head>\n<meta charset=\"utf-8\">\n</head>\n<body>\n$ENTRIES\n</body>\n</html>\n";

/// Document of one tag: its name at `$TAG`, the links to its pages at
/// `$NAVBAR`, and a frame named `view` that shows the chosen page.
pub const TAG_TEMPLATE: &'static str = "<!DOCTYPE html>\n<html>\n<head>\n<meta charset=\"utf-8\">\n<title>$TAG</title>\n</head>\n<body>\n<h1>$TAG</h1>\n<nav>$NAVBAR</nav>\n<iframe name=\"view\" src=\"0.html\"></iframe>\n</body>\n</html>\n";

/// Document of the whole catalog: `$TITLE`, `$DESCRIPTION`, the tag cloud
/// at `$TAGS` and every ranked entry at `$ENTRIES`.
pub const INDEX_TEMPLATE: &'static str = "<!DOCTYPE html>\n<html>\n<head>\n<meta charset=\"utf-8\">\n<title>$TITLE</title>\n</head>\n<body>\n<h1>$TITLE</h1>\n<p>$DESCRIPTION</p>\n<nav>$TAGS</nav>\n<main>$ENTRIES</main>\n</body>\n</html>\n";

/// The HTML blocks of `entries`, concatenated in order.
pub open spec fn entries_html(entries: Seq<Website>) -> Seq<char>
    decreases entries.len(),
{
    if entries.len() == 0 {
        Seq::empty()
    } else {
        entries_html(entries.drop_last()) + entries.last().html()
    }
}

/// The document of one page holding `entries`.
pub open spec fn subpage_html(entries: Seq<Website>) -> Seq<char> {
    replace_all(SUBPAGE_TEMPLATE@, "$ENTRIES"@, entries_html(entries))
}

/// The link to page `i` of a tag, shown in the frame `view`.
pub open spec fn nav_link(i: nat) -> Seq<char> {
    "<a href=\""@ + nav_target(i) + "\" target=\"view\">"@ + decimal(i) + "</a>"@
}

/// The links to pages `0` up to `count - 1`, in order.
pub open spec fn navbar(count: nat) -> Seq<char>
    decreases count,
{
    if count == 0 {
        Seq::empty()
    } else {
        navbar((count - 1) as nat) + nav_link((count - 1) as nat)
    }
}

/// The document of a tag with `count` pages.
pub open spec fn tag_page_html(tag: Seq<char>, count: nat) -> Seq<char> {
    replace_all(replace_all(TAG_TEMPLATE@, "$NAVBAR"@, navbar(count)), "$TAG"@, tag)
}

/// The link from the catalog document to the document of a tag.
pub open spec fn tag_link(tag: Seq<char>) -> Seq<char> {
    "<a href=\"tags/"@ + tag + "/index.html\">"@ + tag + "</a> "@
}

/// The links to every tag of `names`, in order.
pub open spec fn tag_cloud(names: Seq<Seq<char>>) -> Seq<char>
    decreases names.len(),
{
    if names.len() == 0 {
        Seq::empty()
    } else {
        tag_cloud(names.drop_last()) + tag_link(names.last())
    }
}

/// The catalog document.
pub open spec fn index_html(
    title: Seq<char>,
    description: Seq<char>,
    names: Seq<Seq<char>>,
    ranked: Seq<Website>,
) -> Seq<char> {
    replace_all(
        replace_all(
            replace_all(replace_all(INDEX_TEMPLATE@, "$TITLE"@, title), "$DESCRIPTION"@, description),
            "$TAGS"@,
            tag_cloud(names),
        ),
        "$ENTRIES"@,
        entries_html(ranked),
    )
}

/// Appends the HTML blocks of `entries` to `out`.
pub fn push_entries(out: &mut Vec<char>, entries: &Vec<Website>)
    ensures
        final(out)@ == old(out)@ + entries_html(entries@),
{
    let ghost start = out@;
    let mut i: usize = 0;
    assert(entries@.take(0) =~= Seq::<Website>::empty());
    assert(out@ =~= start + entries_html(entries@.take(0)));
    while i < entries.len()
        invariant
            i <= entries.len(),
            out@ == start + entries_html(entries@.take(i as int)),
        decreases entries.len() - i,
    {
        entries[i].push_html(out);
        assert(entries@.take(i + 1).drop_last() =~= entries@.take(i as int));
        i = i + 1;
        assert(out@ =~= start + entries_html(entries@.take(i as int)));
    }
    assert(entries@.take(i as int) =~= entries@);
}

/// Replaces every `pat` in `s` by `rep`.
fn fill(s: &Vec<char>, pat: &str, rep: &Vec<char>) -> (r: Vec<char>)
    ensures
        r@ == replace_all(s@, pat@, rep@),
{
    let p = chars_of(pat);
    replace_chars(s, &p, rep)
}

/// The document of one page holding the entries of `chunk`, in order.
pub fn generate_subpage(chunk: Vec<Website>) -> (r: String)
    ensures
        r@ == subpage_html(chunk@),
{
    let mut entries: Vec<char> = Vec::new();
    push_entries(&mut entries, &chunk);
    assert(entries@ =~= entries_html(chunk@));
    let html = fill(&chars_of(SUBPAGE_TEMPLATE), "$ENTRIES", &entries);
    string_of(&html)
}

/// The links to the pages `0` up to `count - 1` of a tag, in order.
pub fn render_navigation(count: usize) -> (r: Vec<char>)
    ensures
        r@ == navbar(count as nat),
{
    let mut out: Vec<char> = Vec::new();
    let mut i: usize = 0;
    assert(out@ =~= navbar(0));
    while i < count
        invariant
            i <= count,
            out@ == navbar(i as nat),
        decreases count - i,
    {
        push_str(&mut out, "<a href=\"");
        push_decimal(&mut out, i);
        push_str(&mut out, ".html");
        push_str(&mut out, "\" target=\"view\">");
        push_decimal(&mut out, i);
        push_str(&mut out, "</a>");
        i = i + 1;
        assert(out@ =~= navbar(i as nat));
    }
    out
}

/// The document of a tag with `count` pages.
pub fn render_tag_page(tag: &Vec<char>, count: usize) -> (r: String)
    ensures
        r@ == tag_page_html(tag@, count as nat),
{
    let nav = render_navigation(count);
    let with_nav = fill(&chars_of(TAG_TEMPLATE), "$NAVBAR", &nav);
    let html = fill(&with_nav, "$TAG", tag);
    string_of(&html)
}

/// The links to every tag of `names`, in order.
pub fn render_tag_cloud(names: &Vec<Vec<char>>) -> (r: Vec<char>)
    ensures
        r@ == tag_cloud(texts(names@)),
{
    let mut out: Vec<char> = Vec::new();
    let mut i: usize = 0;
    assert(texts(names@).take(0) =~= Seq::<Seq<char>>::empty());
    while i < names.len()
        invariant
            i <= names.len(),
            out@ == tag_cloud(texts(names@).take(i as int)),
        decreases names.len() - i,
    {
        push_str(&mut out, "<a href=\"tags/");
        push_chars(&mut out, &names[i]);
        push_str(&mut out, "/index.html\">");
        push_chars(&mut out, &names[i]);
        push_str(&mut out, "</a> ");
        assert(texts(names@).take(i + 1).drop_last() =~= texts(names@).take(i as int));
        i = i + 1;
        assert(out@ =~= tag_cloud(texts(names@).take(i as int)));
    }
    assert(texts(names@).take(i as int) =~= texts(names@));
    out
}

/// The catalog document: title, description, the links to every tag of
/// `names` in order, and every entry of `ranked` in order.
pub fn render_index(title: &str, description: &str, names: &Vec<Vec<char>>, ranked: &Vec<Website>) -> (r: String)
    ensures
        r@ == index_html(title@, description@, texts(names@), ranked@),
{
    let cloud = render_tag_cloud(names);
    let mut entries: Vec<char> = Vec::new();
    push_entries(&mut entries, ranked);
    assert(entries@ =~= entries_html(ranked@));
    let a = fill(&chars_of(INDEX_TEMPLATE), "$TITLE", &chars_of(title));
    let b = fill(&a, "$DESCRIPTION", &chars_of(description));
    let c = fill(&b, "$TAGS", &cloud);
    let d = fill(&c, "$ENTRIES", &entries);
    string_of(&d)
}

/// The file that the link to page `i` opens.
pub open spec fn nav_target(i: nat) -> Seq<char> {
    decimal(i) + ".html"@
}

/// The navigation bar of a tag with `count` pages addresses each page once:
/// it is the links to pages `0` up to `count - 1`, in that order, and no
/// two of them open the same file.
pub proof fn navigation_links_each_page_once(count: nat)
    ensures
        navbar(count) == Seq::new(count, |i: int| nav_link(i as nat)).flatten_alt(),
        forall|i: nat, j: nat| i < count && j < count && i != j ==> nav_target(i) != nav_target(j),
    decreases count,
{
    if count > 0 {
        navigation_links_each_page_once((count - 1) as nat);
        let s = Seq::new(count, |i: int| nav_link(i as nat));
        assert(s.drop_last() =~= Seq::new((count - 1) as nat, |i: int| nav_link(i as nat)));
    } else {
        assert(Seq::new(count, |i: int| nav_link(i as nat)) =~= Seq::<Seq<char>>::empty());
    }
    assert forall|i: nat, j: nat| i < count && j < count && i != j implies nav_target(i) != nav_target(j) by {
        if nav_target(i) == nav_target(j) {
            let a = decimal(i);
            let b = decimal(j);
            assert(a.len() == b.len()) by {
                assert((a + ".html"@).len() == (b + ".html"@).len());
            }
            assert(a =~= (a + ".html"@).take(a.len() as int));
            assert(b =~= (b + ".html"@).take(b.len() as int));
            lemma_decimal_injective(i, j);
        }
    }
}

/// Whether `c` is an ASCII decimal digit.
pub open spec fn is_digit(c: char) -> bool {
    48 <= c as int <= 57
}

/// Length of the run of digits that `s` starts with.
pub open spec fn digit_run(s: Seq<char>) -> nat
    decreases s.len(),
{
    if s.len() > 0 && is_digit(s[0]) {
        1 + digit_run(s.drop_first())
    } else {
        0
    }
}

/// The number that a sequence of decimal digits spells.
pub open spec fn digits_value(s: Seq<char>) -> nat
    decreases s.len(),
{
    if s.len() == 0 {
        0
    } else {
        digits_value(s.drop_last()) * 10 + (s.last() as int - 48) as nat
    }
}

/// Whether `s` begins with `p`.
pub open spec fn starts_with(s: Seq<char>, p: Seq<char>) -> bool {
    p.len() <= s.len() && s.take(p.len() as int) == p
}

/// The page that the link at the start of `s` opens, with the length of
/// that link; `None` where `s` does not start with a page link.
pub open spec fn first_link(s: Seq<char>) -> Option<(nat, nat)> {
    let open = "<a href=\""@;
    let mid = ".html"@ + "\" target=\"view\">"@;
    let close = "</a>"@;
    let s1 = s.skip(open.len() as int);
    let d1 = digit_run(s1);
    let s2 = s1.skip(d1 as int);
    let s3 = s2.skip(mid.len() as int);
    let d2 = digit_run(s3);
    let s4 = s3.skip(d2 as int);
    if starts_with(s, open) && d1 > 0 && starts_with(s2, mid) && starts_with(s4, close) {
        Some((digits_value(s1.take(d1 as int)), open.len() + d1 + mid.len() + d2 + close.len()))
    } else {
        None
    }
}

/// The pages that a run of page links opens, in order; `None` where the
/// text is not such a run.
pub open spec fn parse_links(s: Seq<char>) -> Option<Seq<nat>>
    decreases s.len(),
{
    if s.len() == 0 {
        Some(Seq::empty())
    } else {
        match first_link(s) {
            Some((page, n)) => if 0 < n <= s.len() {
                match parse_links(s.skip(n as int)) {
                    Some(rest) => Some(seq![page] + rest),
                    None => None,
                }
            } else {
                None
            },
            None => None,
        }
    }
}

/// The links to pages `a` up to `b - 1`, in order.
pub open spec fn links_between(a: nat, b: nat) -> Seq<char>
    decreases b - a,
{
    if a >= b {
        Seq::empty()
    } else {
        nav_link(a) + links_between(a + 1, b)
    }
}

proof fn lemma_links_between_extend(a: nat, b: nat)
    requires
        a <= b,
    ensures
        links_between(a, b + 1) == links_between(a, b) + nav_link(b),
    decreases b - a,
{
    if a < b {
        lemma_links_between_extend(a + 1, b);
        assert(links_between(a, b + 1) =~= links_between(a, b) + nav_link(b));
    } else {
        assert(links_between(b + 1, b + 1) =~= Seq::<char>::empty());
        assert(links_between(a, b + 1) =~= links_between(a, b) + nav_link(b));
    }
}

proof fn lemma_navbar_front(count: nat)
    ensures
        navbar(count) == links_between(0, count),
    decreases count,
{
    if count > 0 {
        lemma_navbar_front((count - 1) as nat);
        lemma_links_between_extend(0, (count - 1) as nat);
    }
}

proof fn lemma_decimal_digits(n: nat)
    ensures
        forall|k: int| 0 <= k < decimal(n).len() ==> is_digit(#[trigger] decimal(n)[k]),
        digits_value(decimal(n)) == n,
        decimal(n).len() > 0,
    decreases n,
{
    let r = n % 10;
    assert(digit_char(r) as int == 48 + r);
    if n < 10 {
        assert(decimal(n).drop_last() =~= Seq::<char>::empty());
        assert(decimal(n).last() == digit_char(n));
        assert(digits_value(decimal(n)) == digits_value(Seq::<char>::empty()) * 10 + (digit_char(n) as int - 48) as nat);
    } else {
        lemma_decimal_digits(n / 10);
        let d = decimal(n);
        assert(d.drop_last() =~= decimal(n / 10));
        assert(d.last() == digit_char(r));
        assert(digits_value(d) == digits_value(decimal(n / 10)) * 10 + (digit_char(r) as int - 48) as nat);
        assert((n / 10) * 10 + r == n);
        assert forall|k: int| 0 <= k < d.len() implies is_digit(#[trigger] d[k]) by {
            if k < d.len() - 1 {
                assert(d[k] == decimal(n / 10)[k]);
            }
        }
    }
}

proof fn lemma_digit_run(d: Seq<char>, t: Seq<char>)
    requires
        forall|k: int| 0 <= k < d.len() ==> is_digit(#[trigger] d[k]),
        t.len() == 0 || !is_digit(t[0]),
    ensures
        digit_run(d + t) == d.len(),
    decreases d.len(),
{
    if d.len() > 0 {
        assert((d + t).drop_first() =~= d.drop_first() + t);
        lemma_digit_run(d.drop_first(), t);
    } else {
        assert(d + t =~= t);
    }
}

proof fn lemma_first_link(i: nat, rest: Seq<char>)
    ensures
        first_link(nav_link(i) + rest) == Some((i, nav_link(i).len())),
{
    reveal_strlit(".html");
    reveal_strlit("</a>");
    let open = "<a href=\""@;
    let mid = ".html"@ + "\" target=\"view\">"@;
    let close = "</a>"@;
    let d = decimal(i);
    lemma_decimal_digits(i);
    let s = nav_link(i) + rest;
    assert(s =~= open + (d + (mid + (d + (close + rest)))));
    assert(s.take(open.len() as int) =~= open);
    let s1 = s.skip(open.len() as int);
    assert(s1 =~= d + (mid + (d + (close + rest))));
    assert((mid + (d + (close + rest)))[0] == '.');
    lemma_digit_run(d, mid + (d + (close + rest)));
    let s2 = s1.skip(d.len() as int);
    assert(s2 =~= mid + (d + (close + rest)));
    assert(s2.take(mid.len() as int) =~= mid);
    assert(s1.take(d.len() as int) =~= d);
    let s3 = s2.skip(mid.len() as int);
    assert(s3 =~= d + (close + rest));
    assert((close + rest)[0] == '<');
    lemma_digit_run(d, close + rest);
    let s4 = s3.skip(d.len() as int);
    assert(s4 =~= close + rest);
    assert(s4.take(close.len() as int) =~= close);
}

proof fn lemma_parse_links_between(a: nat, b: nat)
    requires
        a <= b,
    ensures
        parse_links(links_between(a, b)) == Some(Seq::new((b - a) as nat, |k: int| (a + k) as nat)),
    decreases b - a,
{
    if a == b {
        assert(Seq::new((b - a) as nat, |k: int| (a + k) as nat) =~= Seq::<nat>::empty());
    } else {
        lemma_parse_links_between(a + 1, b);
        let rest = links_between(a + 1, b);
        let s = links_between(a, b);
        lemma_first_link(a, rest);
        assert(s.skip(nav_link(a).len() as int) =~= rest);
        assert(Seq::new((b - a) as nat, |k: int| (a + k) as nat) =~= seq![a] + Seq::new(
            (b - (a + 1)) as nat,
            |k: int| (a + 1 + k) as nat,
        ));
    }
}

/// Reading back the navigation bar of a tag with `count` pages gives
/// pages `0` up to `count - 1`, each once, in order: no page is missing
/// and none is repeated.
pub proof fn navigation_round_trip(count: nat)
    ensures
        parse_links(navbar(count)) == Some(Seq::new(count, |k: int| k as nat)),
{
    lemma_navbar_front(count);
    lemma_parse_links_between(0, count);
    assert(Seq::new((count - 0) as nat, |k: int| (0 + k) as nat) =~= Seq::new(count, |k: int| k as nat));
}

} // verus!
