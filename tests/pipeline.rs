use static_website::{
    build_site, group, markdown_to_html, summarize, validate_pages, Category, Page, PageError,
    Summary, DEFAULT_CATEGORY,
};

fn page(title: &str, folder: &str, category: &str) -> Page {
    Page {
        title: title.to_string(),
        description: format!("About {}", title),
        markdown: format!("# {}\n\nBody of {}.", title, folder),
        date: "2024-01-01".to_string(),
        author: Some("Ada".to_string()),
        author_image: "/authors/ada.png".to_string(),
        image: Some(format!("/covers/{}.png", folder)),
        folder: folder.to_string(),
        category: category.to_string(),
    }
}

fn folders(c: &Category) -> Vec<String> {
    c.pages.iter().map(|p| p.folder.clone()).collect()
}

#[test]
fn three_pages_group_into_guides_then_releases() {
    let pages = vec![
        page("Intro", "intro", "Guides"),
        page("Release 1.0", "release-1-0", "Releases"),
        page("Release 1.1", "release-1-1", "Releases"),
    ];
    let cats = group(&pages);
    assert_eq!(cats.len(), 2);
    assert_eq!(cats[0].name, "Guides");
    assert_eq!(folders(&cats[0]), vec!["intro"]);
    assert_eq!(cats[1].name, "Releases");
    assert_eq!(folders(&cats[1]), vec!["release-1-0", "release-1-1"]);
    assert!(pages[1].permalink().ends_with("/release-1-0"));
}

#[test]
fn heading_and_bold_convert_to_h1_and_strong() {
    let mut p = page("Hi", "hi", "Guides");
    p.markdown = "# Hi\n\nSome **bold** text.".to_string();
    let html = markdown_to_html(&p.markdown);
    assert!(html.contains("<h1>Hi</h1>"), "{}", html);
    assert!(html.contains("<strong>bold</strong>"), "{}", html);
}

#[test]
fn page_without_image_or_author_still_resolves() {
    let mut p = page("Bare", "bare", "Guides");
    p.image = None;
    p.author = None;
    assert!(p.image.is_none());
    assert!(p.author.is_none());
    assert_eq!(p.cover_image(), "");
    assert_eq!(p.permalink(), "/bare");
    assert_eq!(p.title, "Bare");
    assert!(validate_pages(&vec![p]).is_ok());
}

#[test]
fn cover_image_is_the_image_when_present() {
    let p = page("Cover", "cover", "Guides");
    assert_eq!(p.cover_image(), "/covers/cover.png");
}

#[test]
fn conversion_is_deterministic() {
    let md = "A [link](https://example.com) and `code`\n\n> quote\n\n- one\n- two\n";
    assert_eq!(markdown_to_html(md), markdown_to_html(md));
}

#[test]
fn conversion_covers_common_constructs() {
    let md = "## Sub\n\n*em* [l](/x) ![alt](/i.png) `c`\n\n```\nfn main() {}\n```\n\n- a\n- b\n\n> q\n";
    let html = markdown_to_html(md);
    assert!(html.contains("<h2>Sub</h2>"), "{}", html);
    assert!(html.contains("<em>em</em>"), "{}", html);
    assert!(html.contains("<a href=\"/x\">l</a>"), "{}", html);
    assert!(html.contains("<img src=\"/i.png\" alt=\"alt\""), "{}", html);
    assert!(html.contains("<code>c</code>"), "{}", html);
    assert!(html.contains("<pre><code>fn main() {}\n</code></pre>"), "{}", html);
    assert!(html.contains("<li>a</li>"), "{}", html);
    assert!(html.contains("<blockquote>"), "{}", html);
}

#[test]
fn unterminated_code_fence_converts_to_closed_html() {
    let html = markdown_to_html("Intro\n\n```rust\nlet x = 1;\n");
    assert!(!html.is_empty());
    assert!(html.contains("<pre>"), "{}", html);
    assert!(html.contains("</code></pre>"), "{}", html);
    assert_eq!(html.matches("<pre").count(), html.matches("</pre>").count());
}

#[test]
fn raw_html_in_markdown_is_omitted() {
    let html = markdown_to_html("<script>alert(1)</script>\n\ntext");
    assert!(!html.contains("<script>"), "{}", html);
    assert!(html.contains("<p>text</p>"), "{}", html);
}

#[test]
fn conversion_changes_plain_text() {
    assert_eq!(markdown_to_html("plain"), "<p>plain</p>\n");
    assert_eq!(markdown_to_html(""), "");
}

#[test]
fn permalink_depends_on_folder_only() {
    let a = page("A", "same", "Guides");
    let b = page("B", "same", "Releases");
    assert_eq!(a.permalink(), b.permalink());
    assert_eq!(a.permalink(), "/same");
    let c = page("C", "other", "Guides");
    assert_ne!(a.permalink(), c.permalink());
}

#[test]
fn empty_folder_gives_root_path() {
    let p = page("Root", "", "Guides");
    assert_eq!(p.permalink(), "/");
}

#[test]
fn grouping_keeps_every_page_once() {
    let pages = vec![
        page("A", "a", "X"),
        page("B", "b", "Y"),
        page("C", "c", "X"),
        page("D", "d", "Z"),
        page("E", "e", "Y"),
        page("F", "f", "X"),
    ];
    let cats = group(&pages);
    let names: Vec<&str> = cats.iter().map(|c| c.name.as_str()).collect();
    assert_eq!(names, vec!["X", "Y", "Z"]);
    assert_eq!(folders(&cats[0]), vec!["a", "c", "f"]);
    assert_eq!(folders(&cats[1]), vec!["b", "e"]);
    assert_eq!(folders(&cats[2]), vec!["d"]);
    let mut all: Vec<String> = cats.iter().flat_map(folders).collect();
    all.sort();
    assert_eq!(all, vec!["a", "b", "c", "d", "e", "f"]);
}

#[test]
fn empty_collection_groups_to_nothing() {
    assert!(group(&Vec::new()).is_empty());
    assert!(summarize(&Vec::new()).categories.is_empty());
}

#[test]
fn empty_hint_falls_into_default_category() {
    let pages = vec![page("A", "a", ""), page("B", "b", "News"), page("C", "c", "")];
    let cats = group(&pages);
    assert_eq!(cats.len(), 2);
    assert_eq!(cats[0].name, DEFAULT_CATEGORY);
    assert_eq!(cats[0].name, "Uncategorized");
    assert_eq!(folders(&cats[0]), vec!["a", "c"]);
    assert_eq!(cats[1].name, "News");
}

#[test]
fn summary_keeps_category_and_page_order() {
    let pages = vec![page("A", "a", "Y"), page("B", "b", "X"), page("C", "c", "Y")];
    let cats = group(&pages);
    let expected: Vec<(String, Vec<String>)> =
        cats.iter().map(|c| (c.name.clone(), folders(c))).collect();
    let summary = Summary::build(cats);
    let got: Vec<(String, Vec<String>)> =
        summary.categories.iter().map(|c| (c.name.clone(), folders(c))).collect();
    assert_eq!(got, expected);
    assert_eq!(got[0].0, "Y");
    assert_eq!(got[0].1, vec!["a", "c"]);
}

#[test]
fn duplicate_folder_is_reported() {
    let pages = vec![page("A", "a", "X"), page("B", "b", "X"), page("C", "a", "Y")];
    match validate_pages(&pages) {
        Err(PageError::DuplicateFolder { folder }) => assert_eq!(folder, "a"),
        _ => panic!("expected a duplicate folder"),
    }
}

#[test]
fn empty_title_is_reported() {
    let pages = vec![page("A", "a", "X"), page("", "untitled", "X")];
    match validate_pages(&pages) {
        Err(e) => {
            assert!(matches!(e, PageError::EmptyTitle { .. }));
            assert_eq!(e.folder(), "untitled");
        }
        Ok(()) => panic!("expected an empty title"),
    }
}

#[test]
fn first_fault_is_reported() {
    let pages = vec![page("A", "a", "X"), page("B", "a", "X"), page("", "c", "X")];
    assert!(matches!(validate_pages(&pages), Err(PageError::DuplicateFolder { .. })));
    let pages = vec![page("A", "a", "X"), page("", "a", "X")];
    assert!(matches!(validate_pages(&pages), Err(PageError::EmptyTitle { .. })));
}

#[test]
fn build_site_groups_valid_pages() {
    let pages = vec![page("A", "a", "X"), page("B", "b", "Y")];
    let summary = build_site(&pages).ok().expect("valid pages");
    assert_eq!(summary.categories.len(), 2);
    assert_eq!(summary.categories[1].name, "Y");
}

#[test]
fn build_site_fails_on_duplicate_folder() {
    let pages = vec![page("A", "a", "X"), page("B", "a", "Y")];
    assert!(matches!(build_site(&pages), Err(PageError::DuplicateFolder { .. })));
}

#[test]
fn cloned_page_is_equal_field_by_field() {
    let p = page("A", "a", "X");
    let q = p.clone();
    assert_eq!(q.title, p.title);
    assert_eq!(q.folder, p.folder);
    assert_eq!(q.image, p.image);
    assert_eq!(q.author, p.author);
    assert_eq!(q.category, p.category);
}
