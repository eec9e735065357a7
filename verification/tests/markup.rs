use epub_toc::{Toc, TocElement};

fn nav_ids(markup: &str) -> Vec<String> {
    markup
        .split("<navPoint id=\"navPoint-")
        .skip(1)
        .map(|rest| rest[..rest.find('"').unwrap()].to_string())
        .collect()
}

#[test]
fn render_empty_toc() {
    let mut toc = Toc::new();
    assert_eq!(toc.render(false), "<ul>\n\n</ul>\n");
    assert_eq!(toc.render(true), "<ol>\n\n</ol>\n");
    assert_eq!(toc.render_epub(), "");
}

#[test]
fn render_numbered_uses_ordered_lists_throughout() {
    let mut toc = Toc::new();
    toc.add(TocElement::new("#1", "1"));
    toc.add(TocElement::new("#1.1", "1.1").level(2));
    assert_eq!(
        toc.render(true),
        "<ol>\n<li><a href=\"#1\">1</a>\n<ol><li><a href=\"#1.1\">1.1</a></li>\n\n</ol>\n</li>\n\n</ol>\n"
    );
    assert_eq!(
        toc.render(false),
        "<ul>\n<li><a href=\"#1\">1</a>\n<ul><li><a href=\"#1.1\">1.1</a></li>\n\n</ul>\n</li>\n\n</ul>\n"
    );
}

#[test]
fn element_render_is_one_list_item() {
    let leaf = TocElement::new("a.xhtml", "A");
    assert_eq!(leaf.render(false), "<li><a href=\"a.xhtml\">A</a></li>\n");
    let tree = TocElement::new("a.xhtml", "A")
        .child(TocElement::new("b.xhtml", "B"))
        .child(TocElement::new("c.xhtml", "C"));
    assert_eq!(
        tree.render(true),
        "<li><a href=\"a.xhtml\">A</a>\n<ol><li><a href=\"b.xhtml\">B</a></li>\n<li><a href=\"c.xhtml\">C</a></li>\n\n</ol>\n</li>\n"
    );
}

#[test]
fn render_leaves_out_entries_without_title() {
    let hidden = TocElement::new("h", "").child(TocElement::new("h1", "below"));
    assert_eq!(hidden.render(false), "");
    assert_eq!(hidden.render(true), "");
    let mut toc = Toc::new();
    toc.add(TocElement::new("a", "A"));
    toc.add(hidden);
    toc.add(TocElement::new("b", "B"));
    assert_eq!(
        toc.render(false),
        "<ul>\n<li><a href=\"a\">A</a></li>\n<li><a href=\"b\">B</a></li>\n\n</ul>\n"
    );
}

#[test]
fn render_keeps_a_child_list_whose_items_are_left_out() {
    let e = TocElement::new("a", "A").child(TocElement::new("b", ""));
    assert_eq!(e.render(false), "<li><a href=\"a\">A</a>\n<ul>\n</ul>\n</li>\n");
}

#[test]
fn render_epub_keeps_entries_without_title() {
    let mut toc = Toc::new();
    toc.add(TocElement::new("h", "").child(TocElement::new("h1", "below")));
    let expected = "
<navPoint id=\"navPoint-1\">
  <navLabel>
   <text></text>
  </navLabel>
  <content src=\"h\" />

<navPoint id=\"navPoint-2\">
  <navLabel>
   <text>below</text>
  </navLabel>
  <content src=\"h1\" />

</navPoint>
</navPoint>";
    assert_eq!(toc.render_epub(), expected);
}

#[test]
fn render_escapes_the_title_and_not_the_link() {
    let mut toc = Toc::new();
    toc.add(TocElement::new("x?a=1&b=<2>", "a < b && c > d"));
    assert_eq!(
        toc.render(false),
        "<ul>\n<li><a href=\"x?a=1&b=<2>\">a &lt; b &amp;&amp; c &gt; d</a></li>\n\n</ul>\n"
    );
    let expected = "
<navPoint id=\"navPoint-1\">
  <navLabel>
   <text>a &lt; b &amp;&amp; c &gt; d</text>
  </navLabel>
  <content src=\"x?a=1&b=<2>\" />

</navPoint>";
    assert_eq!(toc.render_epub(), expected);
}

#[test]
fn render_title_escaped_in_both_forms() {
    let mut toc = Toc::new();
    toc.add(TocElement::new("#1", "D&D"));
    assert_eq!(toc.render(false), "<ul>\n<li><a href=\"#1\">D&amp;D</a></li>\n\n</ul>\n");
    assert!(toc.render_epub().contains("<text>D&amp;D</text>"));
}

#[test]
fn render_keeps_quotes_and_other_characters() {
    let e = TocElement::new("q", "\"it's\" \u{e9}\u{4e2d}/");
    assert_eq!(e.render(false), "<li><a href=\"q\">\"it's\" \u{e9}\u{4e2d}/</a></li>\n");
}

#[test]
fn render_epub_keeps_white_space_around_the_title() {
    let e = TocElement::new("u", " A ");
    let (next, markup) = e.render_epub(0);
    assert_eq!(next, 1);
    assert_eq!(
        markup,
        "\n<navPoint id=\"navPoint-1\">\n  <navLabel>\n   <text> A </text>\n  </navLabel>\n  <content src=\"u\" />\n\n</navPoint>"
    );
    assert_eq!(e.render(false), "<li><a href=\"u\"> A </a></li>\n");
    let padded = TocElement::new("t", " \t\n padded  title \r\n\u{a0}");
    let (_, markup) = padded.render_epub(0);
    assert!(markup.contains("<text> \t\n padded  title \r\n\u{a0}</text>"));
}

#[test]
fn render_epub_label_of_white_space_only_is_kept() {
    let (_, markup) = TocElement::new("t", " \u{3000}\n").render_epub(0);
    assert!(markup.contains("<text> \u{3000}\n</text>"));
}

#[test]
fn element_render_epub_counts_on_from_the_offset() {
    let leaf = TocElement::new("u", "T");
    let (next, markup) = leaf.render_epub(41);
    assert_eq!(next, 42);
    assert_eq!(
        markup,
        "\n<navPoint id=\"navPoint-42\">\n  <navLabel>\n   <text>T</text>\n  </navLabel>\n  <content src=\"u\" />\n\n</navPoint>"
    );
    let tree = TocElement::new("a", "A")
        .child(TocElement::new("b", "B").child(TocElement::new("c", "C")))
        .child(TocElement::new("d", "D"));
    let (next, markup) = tree.render_epub(7);
    assert_eq!(next, 11);
    assert_eq!(nav_ids(&markup), ["8", "9", "10", "11"]);
}

#[test]
fn element_render_epub_reaches_the_largest_number() {
    let (next, markup) = TocElement::new("u", "T").render_epub(u32::MAX - 1);
    assert_eq!(next, u32::MAX);
    assert_eq!(nav_ids(&markup), ["4294967295"]);
    let (next, markup) = TocElement::new("u", "T").render_epub(1_000_000_006);
    assert_eq!(next, 1_000_000_007);
    assert_eq!(nav_ids(&markup), ["1000000007"]);
}

#[test]
fn render_epub_numbers_in_document_order() {
    let mut toc = Toc::new();
    toc.add(TocElement::new("#1", "1"));
    toc.add(TocElement::new("#1.1", "1.1").level(2));
    toc.add(TocElement::new("#1.1.1", "1.1.1").level(3));
    toc.add(TocElement::new("#1.2", "1.2").level(2));
    toc.add(TocElement::new("#2", "2"));
    toc.add(TocElement::new("#2.1", "2.1").level(2));
    let markup = toc.render_epub();
    assert_eq!(nav_ids(&markup), ["1", "2", "3", "4", "5", "6"]);
    let order: Vec<usize> = ["#1\"", "#1.1\"", "#1.1.1\"", "#1.2\"", "#2\"", "#2.1\""]
        .iter()
        .map(|link| markup.find(format!("<content src=\"{link}").as_str()).unwrap())
        .collect();
    assert!(order.windows(2).all(|w| w[0] < w[1]));
    for (k, link) in ["#1", "#1.1", "#1.1.1", "#1.2", "#2", "#2.1"].iter().enumerate() {
        let point = format!(
            "\n<navPoint id=\"navPoint-{}\">\n  <navLabel>\n   <text>{}</text>\n  </navLabel>\n  <content src=\"{}\" />\n",
            k + 1,
            &link[1..],
            link
        );
        assert!(markup.contains(point.as_str()));
    }
}

#[test]
fn render_epub_numbers_past_nine_and_ninety_nine() {
    let mut toc = Toc::new();
    for k in 0..120 {
        let link = format!("#{k}");
        toc.add(TocElement::new(link.as_str(), "t"));
    }
    let expected: Vec<String> = (1..=120).map(|k: u32| k.to_string()).collect();
    assert_eq!(nav_ids(&toc.render_epub()), expected);
}

#[test]
fn render_epub_two_siblings_are_not_nested() {
    let mut toc = Toc::new();
    toc.add(TocElement::new("#1", "1"));
    toc.add(TocElement::new("#2", "2"));
    let markup = toc.render_epub();
    let first_end = markup.find("</navPoint>").unwrap();
    let second_start = markup.find("navPoint-2").unwrap();
    assert!(first_end < second_start);
    assert_eq!(nav_ids(&markup), ["1", "2"]);
}

#[test]
fn rendering_leaves_the_toc_as_it_was() {
    let mut toc = Toc::new();
    toc.add(TocElement::new("#1", "1"));
    toc.add(TocElement::new("#1.1", "1.1").level(2));
    let first = (toc.render(false), toc.render_epub());
    let second = (toc.render(false), toc.render_epub());
    assert_eq!(first, second);
    assert_eq!(toc.elements.len(), 1);
    assert_eq!(toc.elements[0].children.len(), 1);
}
