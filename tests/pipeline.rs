use tagsite::entry::Website;
use tagsite::paginate::paginate;
use tagsite::rank::{rank, rank_indices};
use tagsite::render::{generate_subpage, render_navigation, render_tag_page};
use tagsite::site::{build_site, generate_tag_html, OutputFile};
use tagsite::tag_index::{text_less, TagIndex};
use tagsite::text::{chars_of, replace_chars, split_tags, string_of, trim_chars};
use tagsite::ENTRIES_PER_PAGE;

fn site(url: &str, tags: &str, score: u8) -> Website {
    Website::new(
        url.to_string(),
        format!("title of {}", url),
        format!("about {}", url),
        tags.to_string(),
        score,
    )
}

fn text(v: &Vec<char>) -> String {
    v.iter().collect()
}

fn find<'a>(files: &'a [OutputFile], path: &str) -> Option<&'a OutputFile> {
    files.iter().find(|f| f.path == path)
}

#[test]
fn to_html_block() {
    let w = Website::new(
        "https://a.example".to_string(),
        "A".to_string(),
        "first".to_string(),
        "x".to_string(),
        3,
    );
    assert_eq!(
        w.to_html(),
        "\n<div class=\"website\">\n    <a href=\"https://a.example\" target=\"_blank\">A</a>\n    <p>first</p>\n</div>\n"
    );
}

#[test]
fn to_html_does_not_escape() {
    let w = Website::new("u".to_string(), "<b>&".to_string(), "\"q\"".to_string(), String::new(), 0);
    let h = w.to_html();
    assert!(h.contains("<b>&</a>"));
    assert!(h.contains("<p>\"q\"</p>"));
}

#[test]
fn ranking_is_stable_on_ties() {
    let entries = vec![site("e1", "a,b", 5), site("e2", "a", 5), site("e3", "b", 1)];
    let ranked = rank(&entries);
    let urls: Vec<&str> = ranked.iter().map(|w| w.url.as_str()).collect();
    assert_eq!(urls, vec!["e1", "e2", "e3"]);
}

#[test]
fn ranking_orders_by_descending_score() {
    let entries = vec![
        site("low", "t", 0),
        site("top", "t", 255),
        site("mid1", "t", 7),
        site("mid2", "t", 7),
    ];
    let ranked = rank(&entries);
    let urls: Vec<&str> = ranked.iter().map(|w| w.url.as_str()).collect();
    assert_eq!(urls, vec!["top", "mid1", "mid2", "low"]);
    assert_eq!(rank_indices(&vec![0u8, 255, 7, 7]), vec![1usize, 2, 3, 0]);
}

#[test]
fn scenario_three_entries_two_tags() {
    let entries = vec![site("e1", "a,b", 5), site("e2", "a", 5), site("e3", "b", 1)];
    let ranked = rank(&entries);
    let index = TagIndex::build(&ranked);
    assert_eq!(index.buckets.len(), 2);
    assert_eq!(index.buckets[0].name_string(), "a");
    assert_eq!(index.buckets[0].members, vec![0usize, 1]);
    assert_eq!(index.buckets[1].name_string(), "b");
    assert_eq!(index.buckets[1].members, vec![0usize, 2]);
    for b in &index.buckets {
        assert_eq!(paginate(&b.members, 10).len(), 1);
    }
    let files = build_site("T", "D", &entries, 10);
    let paths: Vec<&str> = files.iter().map(|f| f.path.as_str()).collect();
    assert_eq!(
        paths,
        vec!["index.html", "tags/a/index.html", "tags/a/0.html", "tags/b/index.html", "tags/b/0.html"]
    );
}

#[test]
fn scenario_twenty_five_entries_one_tag() {
    let entries: Vec<Website> = (0..25).map(|i| site(&format!("u{}", i), "x", 1)).collect();
    let ranked = rank(&entries);
    let index = TagIndex::build(&ranked);
    assert_eq!(index.buckets.len(), 1);
    let pages = paginate(&index.buckets[0].members, 10);
    let sizes: Vec<usize> = pages.iter().map(|p| p.len()).collect();
    assert_eq!(sizes, vec![10, 10, 5]);
    let files = build_site("T", "D", &entries, 10);
    assert_eq!(files.len(), 1 + 1 + 3);
    assert!(find(&files, "tags/x/2.html").unwrap().html.contains("u24"));
    assert!(!find(&files, "tags/x/2.html").unwrap().html.contains("u19\""));
    let tag_doc = &find(&files, "tags/x/index.html").unwrap().html;
    assert!(tag_doc.contains("<a href=\"0.html\" target=\"view\">0</a><a href=\"1.html\" target=\"view\">1</a><a href=\"2.html\" target=\"view\">2</a>"));
    assert!(!tag_doc.contains("3.html"));
}

#[test]
fn scenario_empty_feed() {
    let entries: Vec<Website> = Vec::new();
    let files = build_site("Empty", "Nothing here", &entries, 10);
    assert_eq!(files.len(), 1);
    assert_eq!(files[0].path, "index.html");
    assert!(files[0].html.contains("<nav></nav>"));
    assert!(files[0].html.contains("<main></main>"));
    assert!(files[0].html.contains("<h1>Empty</h1>"));
    assert!(files[0].html.contains("<p>Nothing here</p>"));
}

#[test]
fn paginate_edges() {
    let empty: Vec<usize> = Vec::new();
    assert_eq!(paginate(&empty, 3).len(), 0);
    let items: Vec<usize> = (0..7).collect();
    assert_eq!(paginate(&items, 3), vec![vec![0, 1, 2], vec![3, 4, 5], vec![6]]);
    assert_eq!(paginate(&items, 7), vec![items.clone()]);
    assert_eq!(paginate(&items, 1).len(), 7);
    let joined: Vec<usize> = paginate(&items, 4).concat();
    assert_eq!(joined, items);
}

#[test]
fn tags_are_trimmed_and_empty_pieces_kept() {
    let parts = split_tags(&chars_of(" rust , web,,\tcli "));
    let names: Vec<String> = parts.iter().map(text).collect();
    assert_eq!(names, vec!["rust", "web", "", "cli"]);
    let none = split_tags(&chars_of(""));
    assert_eq!(none.len(), 1);
    assert!(none[0].is_empty());
    assert_eq!(text(&trim_chars(&chars_of("\u{2003} a b \n"))), "a b");
}

#[test]
fn repeated_tag_lists_entry_once() {
    let entries = vec![site("e1", "a, a,b", 2), site("e2", "b,a", 1)];
    let ranked = rank(&entries);
    let index = TagIndex::build(&ranked);
    assert_eq!(index.buckets[0].name_string(), "a");
    assert_eq!(index.buckets[0].members, vec![0usize, 1]);
    assert_eq!(index.buckets[1].members, vec![0usize, 1]);
}

#[test]
fn tag_names_are_sorted_case_sensitively() {
    let entries = vec![site("e1", "beta,Alpha,alpha,", 1)];
    let index = TagIndex::build(&rank(&entries));
    let names: Vec<String> = index.buckets.iter().map(|b| b.name_string()).collect();
    assert_eq!(names, vec!["", "Alpha", "alpha", "beta"]);
    assert!(text_less(&chars_of("ab"), &chars_of("b")));
    assert!(text_less(&chars_of("a"), &chars_of("ab")));
    assert!(!text_less(&chars_of("ab"), &chars_of("ab")));
}

#[test]
fn navigation_links_every_page() {
    assert_eq!(text(&render_navigation(0)), "");
    assert_eq!(
        text(&render_navigation(12)).matches("target=\"view\"").count(),
        12
    );
    assert!(text(&render_navigation(12)).ends_with("<a href=\"11.html\" target=\"view\">11</a>"));
    let doc = render_tag_page(&chars_of("rust"), 2);
    assert!(doc.contains("<h1>rust</h1>"));
    assert!(doc.contains("<a href=\"1.html\" target=\"view\">1</a>"));
}

#[test]
fn placeholders_are_replaced_everywhere() {
    let r = replace_chars(&chars_of("$A-$A-$"), &chars_of("$A"), &chars_of("x"));
    assert_eq!(text(&r), "x-x-$");
    let same = replace_chars(&chars_of("no marker"), &chars_of("$A"), &chars_of("x"));
    assert_eq!(text(&same), "no marker");
    assert_eq!(string_of(&chars_of("héllo")), "héllo");
}

#[test]
fn subpage_holds_entries_in_order() {
    let chunk = vec![site("first", "t", 1), site("second", "t", 1)];
    let doc = generate_subpage(chunk);
    let a = doc.find("first").unwrap();
    let b = doc.find("second").unwrap();
    assert!(a < b);
    assert!(!doc.contains("$ENTRIES"));
}

#[test]
fn tag_files_use_page_paths() {
    let ranked = rank(&vec![site("p", "z", 1), site("q", "z", 1), site("r", "z", 1)]);
    let index = TagIndex::build(&ranked);
    let files = generate_tag_html(&ranked, &index.buckets[0], 2);
    let paths: Vec<&str> = files.iter().map(|f| f.path.as_str()).collect();
    assert_eq!(paths, vec!["tags/z/index.html", "tags/z/0.html", "tags/z/1.html"]);
    assert!(files[2].html.contains("\"r\""));
}

#[test]
fn pipeline_is_repeatable() {
    let entries = vec![site("e1", "a,b", 5), site("e2", "a", 5), site("e3", "b", 1)];
    let one = build_site("T", "D", &entries, ENTRIES_PER_PAGE);
    let two = build_site("T", "D", &entries, ENTRIES_PER_PAGE);
    assert_eq!(one.len(), two.len());
    for (x, y) in one.iter().zip(two.iter()) {
        assert_eq!(x.path, y.path);
        assert_eq!(x.html, y.html);
    }
}

#[test]
fn trim_follows_unicode_white_space() {
    assert_eq!(text(&trim_chars(&chars_of("\u{3000}\u{85}tag\u{a0}"))), "tag");
    assert_eq!(text(&trim_chars(&chars_of("\u{200b}tag"))), "\u{200b}tag");
    assert_eq!(text(&trim_chars(&chars_of(" \t "))), "");
}
