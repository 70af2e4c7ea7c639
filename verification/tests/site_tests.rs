use blog_gen::date::Date;
use blog_gen::entry::{build_entry, has_source_name, page_path_of, BlogEntry, BuildError, SourceFile};
use blog_gen::site::{
    archive_view, assemble, build_site, feed_view, home_view, latest_page, path_for_slug,
    post_pages, ListItem, SiteError,
};
use std::path::Path;

fn entry(slug: &str, year: usize, month: u8, day: u8) -> BlogEntry {
    BlogEntry {
        title: format!("Title of {}", slug),
        path: format!("out/{}.html", slug),
        slug: slug.to_string(),
        date: Date { day, month, year },
        content: format!("<p>{}</p>\n", slug),
    }
}

fn source(name: &str, text: &str) -> SourceFile {
    SourceFile { name: name.to_string(), text: text.to_string() }
}

fn slugs(entries: &Vec<BlogEntry>) -> Vec<String> {
    entries.iter().map(|e| e.slug.clone()).collect()
}

fn item(title: &str, slug: &str, date: &str) -> ListItem {
    ListItem { title: title.to_string(), slug: slug.to_string(), date: date.to_string() }
}

#[test]
fn most_recent_comes_first() {
    let sorted = assemble(vec![
        entry("jan", 2024, 1, 1),
        entry("mar", 2024, 3, 1),
        entry("feb", 2024, 2, 1),
    ]);
    let dates: Vec<Date> = sorted.iter().map(|e| e.date).collect();
    assert_eq!(
        dates,
        vec![
            Date { day: 1, month: 3, year: 2024 },
            Date { day: 1, month: 2, year: 2024 },
            Date { day: 1, month: 1, year: 2024 },
        ]
    );
    assert_eq!(slugs(&sorted), vec!["mar", "feb", "jan"]);
}

#[test]
fn posts_of_one_date_keep_their_order() {
    let sorted = assemble(vec![
        entry("a", 2024, 1, 1),
        entry("b", 2024, 3, 1),
        entry("c", 2024, 1, 1),
        entry("d", 2024, 3, 1),
        entry("e", 2024, 2, 1),
        entry("f", 2024, 1, 1),
    ]);
    assert_eq!(slugs(&sorted), vec!["b", "d", "e", "a", "c", "f"]);
}

#[test]
fn year_decides_before_month_and_day() {
    let sorted = assemble(vec![
        entry("old-late", 2023, 12, 31),
        entry("new-early", 2024, 1, 1),
        entry("mid", 2023, 12, 30),
        entry("odd", 2023, 13, 1),
    ]);
    assert_eq!(slugs(&sorted), vec!["new-early", "odd", "old-late", "mid"]);
}

#[test]
fn arranging_keeps_every_post() {
    let posts = vec![
        entry("a", 2020, 5, 5),
        entry("b", 2021, 5, 5),
        entry("c", 2019, 5, 5),
        entry("d", 2021, 5, 5),
    ];
    let sorted = assemble(posts.clone());
    assert_eq!(sorted.len(), posts.len());
    for p in posts.iter() {
        assert_eq!(sorted.iter().filter(|e| *e == p).count(), 1);
    }
    assert_eq!(assemble(vec![]), vec![]);
    assert_eq!(assemble(vec![entry("a", 1, 1, 1)]), vec![entry("a", 1, 1, 1)]);
}

#[test]
fn arranging_what_is_arranged_changes_nothing() {
    let sorted = assemble(vec![
        entry("a", 2024, 1, 1),
        entry("b", 2024, 3, 1),
        entry("c", 2024, 1, 1),
        entry("d", 2022, 3, 1),
    ]);
    assert_eq!(assemble(sorted.clone()), sorted);
}

fn five_sorted() -> Vec<BlogEntry> {
    assemble(vec![
        entry("one", 2024, 1, 1),
        entry("two", 2024, 2, 2),
        entry("three", 2024, 3, 3),
        entry("four", 2024, 4, 4),
        entry("five", 2024, 5, 5),
    ])
}

#[test]
fn home_lists_the_first_three_of_five() {
    let sorted = five_sorted();
    assert_eq!(
        home_view(&sorted, 3),
        vec![
            item("Title of five", "five", "May 5, 2024"),
            item("Title of four", "four", "April 4, 2024"),
            item("Title of three", "three", "March 3, 2024"),
        ]
    );
}

#[test]
fn home_lists_all_where_there_are_fewer() {
    let sorted = five_sorted();
    assert_eq!(home_view(&sorted, 7).len(), 5);
    assert_eq!(home_view(&sorted, 7), archive_view(&sorted));
    assert_eq!(home_view(&sorted, 5), archive_view(&sorted));
    assert_eq!(home_view(&sorted, 0), vec![]);
    assert_eq!(home_view(&vec![], 3), vec![]);
    assert_eq!(home_view(&sorted, usize::MAX), archive_view(&sorted));
}

#[test]
fn archive_lists_all_in_order() {
    let sorted = five_sorted();
    let listed: Vec<String> = archive_view(&sorted).iter().map(|i| i.slug.clone()).collect();
    assert_eq!(listed, vec!["five", "four", "three", "two", "one"]);
    assert_eq!(archive_view(&sorted)[4], item("Title of one", "one", "January 1, 2024"));
}

#[test]
fn feed_lists_all_with_feed_dates() {
    let sorted = five_sorted();
    let feed = feed_view(&sorted, 3600, "Wed, 6 Mar 2024 10:00:00 +0100".to_string()).unwrap();
    assert_eq!(feed.today, "Wed, 6 Mar 2024 10:00:00 +0100");
    assert_eq!(feed.entries.len(), 5);
    assert_eq!(feed.entries[0], item("Title of five", "five", "Sun, 5 May 2024 00:00:00 +0100"));
    assert_eq!(feed.entries[4], item("Title of one", "one", "Mon, 1 Jan 2024 00:00:00 +0100"));
}

#[test]
fn feed_needs_dates_of_the_calendar() {
    let sorted = assemble(vec![entry("a", 2024, 1, 1), entry("b", 2024, 2, 31)]);
    assert_eq!(feed_view(&sorted, 0, String::new()), None);
    let feed = feed_view(&vec![], 0, "now".to_string()).unwrap();
    assert_eq!(feed.entries, vec![]);
}

#[test]
fn only_the_first_page_is_the_latest() {
    let sorted = five_sorted();
    let pages = post_pages(&sorted);
    assert_eq!(pages.len(), 5);
    for (i, page) in pages.iter().enumerate() {
        assert_eq!(page.latest, i == 0);
        assert_eq!(page.title, sorted[i].title);
        assert_eq!(page.content, sorted[i].content);
        assert_eq!(page.path, sorted[i].path);
    }
    assert_eq!(pages.iter().filter(|p| p.latest).count(), 1);
    assert_eq!(post_pages(&vec![]), vec![]);
    let single = post_pages(&vec![entry("only", 2024, 1, 1)]);
    assert_eq!(single.len(), 1);
    assert!(single[0].latest);
}

#[test]
fn latest_is_the_first_post() {
    let sorted = five_sorted();
    assert_eq!(latest_page(&sorted), &entry("five", 2024, 5, 5));
}

#[test]
fn slug_leads_to_the_page() {
    let mut posts = five_sorted();
    posts.push(BlogEntry { path: "out/second-three.html".to_string(), ..entry("three", 2020, 1, 1) });
    assert_eq!(path_for_slug(&posts, "three"), Some("out/three.html".to_string()));
    assert_eq!(path_for_slug(&posts, "one"), Some("out/one.html".to_string()));
    assert_eq!(path_for_slug(&posts, "six"), None);
    assert_eq!(path_for_slug(&posts, ""), None);
    assert_eq!(path_for_slug(&vec![], "one"), None);
}

#[test]
fn source_names_end_in_md() {
    let names = [
        "post.md", "a.md", ".md", "..md", "md", "post.MD", "post.md.bak", "post.tar.md", "post.",
        "post", "", ".", "..", "post.mdx", "post.m", "a.b.c", ".hidden.md", "é.md", "post.md ",
    ];
    for name in names.iter() {
        let expected = Path::new(name).extension().map_or(false, |e| e == "md");
        assert_eq!(has_source_name(name), expected, "{:?}", name);
    }
    assert!(has_source_name("post.md"));
    assert!(!has_source_name(".md"));
}

#[test]
fn page_keeps_the_name_and_changes_the_extension() {
    assert_eq!(page_path_of("public/html/articles", "post.md"), "public/html/articles/post.html");
    assert_eq!(page_path_of("./public/html/articles", "my.first.post.md"), "./public/html/articles/my.first.post.html");
    assert_eq!(page_path_of("out/", "post.md"), "out/post.html");
    assert_eq!(page_path_of("", "post.md"), "post.html");
    assert_eq!(page_path_of("out", "post"), "out/post.html");
    assert_eq!(page_path_of("out", ".md"), "out/.md.html");
}

#[test]
fn page_path_agrees_with_the_standard_library() {
    let dirs = ["out", "out/", "./public/html/articles", "", "/"];
    let names = ["post.md", "a.b.md", ".md", "post", "post.", "é.md", "..md", ".a.b"];
    for dir in dirs.iter() {
        for name in names.iter() {
            let mut file = Path::new(name).to_path_buf();
            file.set_extension("html");
            let expected = Path::new(dir).join(file.file_name().unwrap());
            assert_eq!(page_path_of(dir, name), expected.to_str().unwrap(), "{:?} {:?}", dir, name);
        }
    }
}

#[test]
fn a_post_is_made_ready() {
    let made = build_entry("out", &source("first.md", "My Post|my-post|2024-03-05\n# Hello\n\nSome *text*.\n"));
    assert_eq!(
        made,
        Ok(BlogEntry {
            title: "My Post".to_string(),
            path: "out/first.html".to_string(),
            slug: "my-post".to_string(),
            date: Date { day: 5, month: 3, year: 2024 },
            content: "<h1>Hello</h1>\n<p>Some <em>text</em>.</p>\n".to_string(),
        })
    );
}

#[test]
fn math_is_rendered_before_the_markup() {
    let made = build_entry("out", &source("m.md", "M|m|2024-03-05\nSo $x^2$ it is.\n")).unwrap();
    let markup = katex::render("x^2").unwrap();
    assert_eq!(made.content, format!("<p>So {} it is.</p>\n", markup));
}

#[test]
fn a_post_without_body_is_empty() {
    let made = build_entry("out", &source("e.md", "E|e|2024-03-05")).unwrap();
    assert_eq!(made.content, "");
    assert_eq!(made.title, "E");
}

#[test]
fn a_post_fails_by_its_first_fault() {
    assert_eq!(build_entry("out", &source("a.md", "Title|slug\nbody")), Err(BuildError::MetadataFormat));
    assert_eq!(build_entry("out", &source("a.md", "")), Err(BuildError::MetadataFormat));
    assert_eq!(build_entry("out", &source("a.md", "Title|slug|someday\nbody")), Err(BuildError::DateParse));
    assert_eq!(build_entry("out", &source("a.md", "Title|slug|2024-03\nbody")), Err(BuildError::DateParse));
    assert_eq!(
        build_entry("out", &source("a.md", "Title|slug|2024-03-05\nbad $\\frac{$ math")),
        Err(BuildError::MathRender)
    );
    assert_eq!(
        build_entry("out", &source("a.md", "Title|slug\nbad $\\frac{$ math")),
        Err(BuildError::MetadataFormat)
    );
    assert_eq!(
        build_entry("out", &source("a.md", "Title|slug|never\nbad $\\frac{$ math")),
        Err(BuildError::DateParse)
    );
}

fn three_sources() -> Vec<SourceFile> {
    vec![
        source("jan.md", "January|jan|2024-01-01\nfirst\n"),
        source("mar.md", "March|mar|2024-03-01\nthird\n"),
        source("feb.md", "February|feb|2024-02-01\nsecond\n"),
    ]
}

#[test]
fn a_site_is_made_of_its_sources() {
    let site = build_site("articles", &three_sources(), 2, 0, "now".to_string()).unwrap();
    assert_eq!(slugs(&site.entries), vec!["mar", "feb", "jan"]);
    assert_eq!(site.entries[0].content, "<p>third</p>\n");
    assert_eq!(site.entries[0].path, "articles/mar.html");
    assert_eq!(site.pages.len(), 3);
    assert!(site.pages[0].latest);
    assert!(!site.pages[1].latest);
    assert!(!site.pages[2].latest);
    assert_eq!(site.pages[0].path, "articles/mar.html");
    assert_eq!(site.pages[0].title, "March");
    assert_eq!(
        site.home,
        vec![item("March", "mar", "March 1, 2024"), item("February", "feb", "February 1, 2024")]
    );
    assert_eq!(site.archive.len(), 3);
    assert_eq!(site.archive[2], item("January", "jan", "January 1, 2024"));
    assert_eq!(site.feed.today, "now");
    assert_eq!(site.feed.entries[0], item("March", "mar", "Fri, 1 Mar 2024 00:00:00 +0000"));
    assert_eq!(site.feed.entries.len(), 3);
    assert_eq!(latest_page(&site.entries).slug, "mar");
}

#[test]
fn a_faulty_first_line_stops_the_whole_run() {
    let mut sources = three_sources();
    sources.push(source("bad.md", "Only|two\nbody\n"));
    sources.push(source("later.md", "Later|later|never\nbody\n"));
    assert_eq!(
        build_site("articles", &sources, 7, 0, "now".to_string()),
        Err(SiteError::Post { index: 3, error: BuildError::MetadataFormat })
    );
}

#[test]
fn the_first_faulty_source_is_named() {
    let sources = vec![
        source("a.md", "A|a|2024-01-01\nfine\n"),
        source("b.md", "B|b|2024-01\nno day\n"),
        source("c.md", "C|c\nno date\n"),
    ];
    assert_eq!(
        build_site("articles", &sources, 7, 0, "now".to_string()),
        Err(SiteError::Post { index: 1, error: BuildError::DateParse })
    );
    let sources = vec![source("a.md", "A|a|2024-01-01\n$\\frac{$\n")];
    assert_eq!(
        build_site("articles", &sources, 7, 0, "now".to_string()),
        Err(SiteError::Post { index: 0, error: BuildError::MathRender })
    );
}

#[test]
fn no_posts_make_no_site() {
    assert_eq!(build_site("articles", &vec![], 7, 0, "now".to_string()), Err(SiteError::NoPosts));
}

#[test]
fn a_date_off_the_calendar_makes_no_feed() {
    let sources = vec![
        source("a.md", "A|a|2024-01-01\nfine\n"),
        source("b.md", "B|b|2024-02-31\nfine too\n"),
    ];
    assert_eq!(build_site("articles", &sources, 7, 0, "now".to_string()), Err(SiteError::FeedDate));
    assert_eq!(build_site("articles", &sources, 7, 90_000, "now".to_string()), Err(SiteError::FeedDate));
}
