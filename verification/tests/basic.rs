use parsex::parse_attr;
use parsex::parse_html;

#[test]
fn round_trip_simple() {
    let mut stack = parse_html("<div><span>x</span></div>");
    assert_eq!(stack.render(), "<div><span>x</span></div>");
}

#[test]
fn round_trip_with_attributes() {
    let src = "<div id=\"main\"><p class=\"a b c\">hello</p></div>";
    let mut stack = parse_html(src);
    assert_eq!(stack.render(), src);
}

#[test]
fn lifo_close_matching() {
    let mut stack = parse_html("<div><span>x</span></div>");
    let tokens = stack.query().to_vec(&mut stack);
    assert_eq!(tokens.len(), 2);
    assert_eq!(tokens[0].tag(), "div");
    assert_eq!(tokens[1].tag(), "span");
    assert_eq!(tokens[1].parent_id(), tokens[0].id());
    assert_eq!(tokens[1].contents(), "x");
    assert!(tokens[0].is_closed());
    assert!(tokens[1].is_closed());
    assert_eq!(stack.render(), "<div><span>x</span></div>");
}

#[test]
fn comment_isolation() {
    let mut stack = parse_html("<!-- <div> --><p>y</p>");
    let tokens = stack.query().to_vec(&mut stack);
    assert_eq!(tokens.len(), 2);
    assert_eq!(tokens[0].tag(), "!");
    assert_eq!(tokens[0].contents(), "<!-- <div> -->");
    assert_eq!(tokens[1].tag(), "p");
    assert_eq!(tokens[1].contents(), "y");
}

#[test]
fn unmatched_close_tolerance() {
    let mut stack = parse_html("</div><p>z</p>");
    let tokens = stack.query().to_vec(&mut stack);
    assert_eq!(tokens.len(), 1);
    assert_eq!(tokens[0].tag(), "p");
    assert_eq!(stack.render(), "</div><p>z</p>");
}

#[test]
fn class_membership_vs_equality() {
    let mut stack = parse_html("<div class=\"a b c\">x</div>");
    let by_class = stack.query().class("b").to_vec(&mut stack);
    assert_eq!(by_class.len(), 1);
    let by_attr = stack.query().attr("class", "b").to_vec(&mut stack);
    assert_eq!(by_attr.len(), 0);
    let by_attr_full = stack.query().attr("class", "a b c").to_vec(&mut stack);
    assert_eq!(by_attr_full.len(), 1);
}

#[test]
fn traversal_completeness_and_order() {
    let mut stack = parse_html("<a><b><c></c></b><d></d></a><e></e>");
    let tokens = stack.query().to_vec(&mut stack);
    let tags: Vec<String> = tokens.iter().map(|t| t.tag()).collect();
    assert_eq!(tags, vec!["a", "b", "c", "d", "e"]);
    let ids: Vec<usize> = tokens.iter().map(|t| t.id()).collect();
    assert_eq!(ids, vec![1, 2, 3, 4, 5]);
}

#[test]
fn scoped_traversal() {
    let mut stack = parse_html("<a><b><c></c></b><d></d></a><e></e>");
    let a_id = {
        let found = stack.query().tag("a").to_vec(&mut stack);
        found[0].id()
    };
    let under_a = stack.get_children(&a_id).to_vec(&mut stack);
    let tags: Vec<String> = under_a.iter().map(|t| t.tag()).collect();
    assert_eq!(tags, vec!["b", "c", "d"]);
}

#[test]
fn exclusion_removes_subtree_only() {
    let mut stack = parse_html("<a><b><c></c></b><d></d></a><e></e>");
    let b_id = {
        let found = stack.query().tag("b").to_vec(&mut stack);
        found[0].id()
    };
    let tokens = stack.query().exclude(b_id).to_vec(&mut stack);
    let tags: Vec<String> = tokens.iter().map(|t| t.tag()).collect();
    assert_eq!(tags, vec!["a", "d", "e"]);
}

#[test]
fn idempotent_attribute_edit() {
    let src = "<div id=\"main\">x</div>";
    let mut stack = parse_html(src);
    let before = stack.render();
    let id = {
        let found = stack.query().tag("div").to_vec(&mut stack);
        found[0].id()
    };
    let mut token = stack.get(&id).unwrap();
    token.set_attr("id", "main");
    stack.save(&token);
    assert_eq!(stack.render(), before);
    assert_eq!(stack.render(), src);
}

#[test]
fn attribute_parsing() {
    let (attrs, extra) = parse_attr("id=\"main\" class=\"a b\" hidden");
    assert_eq!(attrs.len(), 2);
    assert_eq!(attrs[0].0, "id");
    assert_eq!(attrs[0].1, "main");
    assert_eq!(attrs[1].0, "class");
    assert_eq!(attrs[1].1, "a b");
    assert_eq!(extra, "hidden");
}

#[test]
fn attribute_parsing_duplicate_keys() {
    let (attrs, _extra) = parse_attr("id=\"a\" id=\"b\"");
    assert_eq!(attrs.len(), 1);
    assert_eq!(attrs[0].0, "id");
    assert_eq!(attrs[0].1, "b");
}

#[test]
fn self_closing_tags() {
    let src = "<div><br/>text</div>";
    let mut stack = parse_html(src);
    let tokens = stack.query().to_vec(&mut stack);
    assert_eq!(tokens.len(), 2);
    assert_eq!(tokens[1].tag(), "br");
    assert!(tokens[1].is_self_closing());
    assert!(!tokens[1].is_closed());
    // A self-closed tag does not become the parent of what follows.
    assert_eq!(tokens[1].parent_id(), tokens[0].id());
    assert_eq!(stack.render(), src);
}

#[test]
fn token_mutation_changes_render() {
    let mut stack = parse_html("<div id=\"x\">y</div>");
    let id = {
        let found = stack.query().tag("div").to_vec(&mut stack);
        found[0].id()
    };
    let mut token = stack.get(&id).unwrap();
    token.set_attr("id", "z");
    stack.save(&token);
    assert_eq!(stack.render(), "<div id=\"z\">y</div>");
}

#[test]
fn set_contents_changes_render() {
    let mut stack = parse_html("<div><span>old</span></div>");
    let span_id = {
        let found = stack.query().tag("span").to_vec(&mut stack);
        found[0].id()
    };
    stack.set_contents(&span_id, "new");
    assert_eq!(stack.render(), "<div><span>new</span></div>");
}

#[test]
fn get_contents_resolves_markup() {
    let mut stack = parse_html("<div><span>x</span></div>");
    let div_id = {
        let found = stack.query().tag("div").to_vec(&mut stack);
        found[0].id()
    };
    assert_eq!(stack.get_contents(&div_id).unwrap(), "<span>x</span>");
    assert_eq!(stack.render_tag(&div_id), "<span>x</span>");
}

#[test]
fn query_by_id_attribute() {
    let mut stack = parse_html("<div id=\"one\">a</div><div id=\"two\">b</div>");
    let found = stack.query().id("two").to_vec(&mut stack);
    assert_eq!(found.len(), 1);
    assert_eq!(found[0].contents(), "b");
}

#[test]
fn query_contents_contains() {
    let mut stack = parse_html("<p>alpha</p><p>beta</p>");
    let found = stack.query().contents_contains("et").to_vec(&mut stack);
    assert_eq!(found.len(), 1);
    assert_eq!(found[0].contents(), "beta");
}

#[test]
fn iterate_with_token_iter() {
    let mut stack = parse_html("<a></a><b></b>");
    let mut iter = stack.iter();
    let first = iter.next().unwrap();
    assert_eq!(first.tag(), "a");
    let second = iter.next().unwrap();
    assert_eq!(second.tag(), "b");
    assert!(iter.next().is_none());
}

#[test]
fn declaration_spans_produce_no_node() {
    let mut stack = parse_html("<!doctype html><p>x</p>");
    let tokens = stack.query().to_vec(&mut stack);
    assert_eq!(tokens.len(), 1);
    assert_eq!(tokens[0].tag(), "p");
}

#[test]
fn token_attribute_accessors() {
    let mut stack = parse_html("<div id=\"m\" class=\"a b\">x</div>");
    let t = &stack.query().to_vec(&mut stack)[0];
    assert_eq!(t.attr("id").unwrap(), "m");
    assert!(t.attr("missing").is_none());
    assert!(t.has_attr("class"));
    assert!(t.attr_equals("id", "m"));
    assert!(!t.attr_equals("id", "x"));
    assert!(t.attr_contains("class", "a"));
    assert_eq!(t.attributes().len(), 2);
}

#[test]
fn rebuild_indents_blocks() {
    let mut stack = parse_html("<!-- note --><div><p>x</p></div>");
    let pretty = stack.rebuild();
    assert!(!pretty.contains("note"));
    assert!(pretty.contains("<div>\n"));
    assert!(pretty.contains("    <p>"));
}

#[test]
fn rebuild_keeps_inline_tags_compact() {
    let mut stack = parse_html("<div><b>x</b></div>");
    let pretty = stack.rebuild();
    assert!(pretty.contains("<b>"));
    assert!(!pretty.contains("<b>\n"));
}

#[test]
fn clone_from_extracts_subtree() {
    let mut stack = parse_html("<a><b><c>x</c></b><d>y</d></a><e></e>");
    let a_id = {
        let found = stack.query().tag("a").to_vec(&mut stack);
        found[0].id()
    };
    let mut sub = stack.clone_from(&a_id, &Vec::new()).unwrap();
    let tokens = sub.query().to_vec(&mut sub);
    let tags: Vec<String> = tokens.iter().map(|t| t.tag()).collect();
    assert_eq!(tags, vec!["b", "c", "d"]);
    assert_eq!(sub.render(), "<b><c>x</c></b><d>y</d>");
}

#[test]
fn clone_from_respects_excludes() {
    let mut stack = parse_html("<a><b><c>x</c></b><d>y</d></a>");
    let (a_id, b_id) = {
        let found_a = stack.query().tag("a").to_vec(&mut stack);
        let found_b = stack.query().tag("b").to_vec(&mut stack);
        (found_a[0].id(), found_b[0].id())
    };
    let mut sub = stack.clone_from(&a_id, &vec![b_id]).unwrap();
    let tokens = sub.query().to_vec(&mut sub);
    let tags: Vec<String> = tokens.iter().map(|t| t.tag()).collect();
    assert_eq!(tags, vec!["d"]);
}

#[test]
fn clone_from_unclosed_root_yields_nothing() {
    let mut stack = parse_html("<a><b></b>");
    let a_id = {
        let found = stack.query().tag("a").to_vec(&mut stack);
        found[0].id()
    };
    assert!(stack.clone_from(&a_id, &Vec::new()).is_none());
}

#[test]
fn pull_walks_in_preorder() {
    let mut stack = parse_html("<a><b></b></a><c></c>");
    stack.set_parent_position(&0);
    let t1 = stack.pull().unwrap();
    assert_eq!(t1.tag(), "a");
    let t2 = stack.pull().unwrap();
    assert_eq!(t2.tag(), "b");
    let t3 = stack.pull().unwrap();
    assert_eq!(t3.tag(), "c");
    assert!(stack.pull().is_none());
}

#[test]
fn mutable_access_via_get_mut() {
    let mut stack = parse_html("<div>x</div>");
    let id = {
        let found = stack.query().tag("div").to_vec(&mut stack);
        found[0].id()
    };
    {
        let t = stack.get_mut(&id).unwrap();
        t.set_tag("section");
    }
    assert_eq!(stack.render(), "<section>x</section>");
    assert!(stack.get_mut(&99).is_none());
}

#[test]
fn mutable_access_via_as_mut() {
    let mut stack = parse_html("<div>x</div>");
    let token = {
        let found = stack.query().tag("div").to_vec(&mut stack);
        found.into_iter().next().unwrap()
    };
    token.as_mut(&mut stack).set_attr("id", "here");
    assert_eq!(stack.render(), "<div id=\"here\">x</div>");
}

#[test]
fn token_children_query() {
    let mut stack = parse_html("<a><b></b><c></c></a>");
    let a = {
        let found = stack.query().tag("a").to_vec(&mut stack);
        found.into_iter().next().unwrap()
    };
    let kids = a.children().to_vec(&mut stack);
    let tags: Vec<String> = kids.iter().map(|t| t.tag()).collect();
    assert_eq!(tags, vec!["b", "c"]);
}

#[test]
fn attribute_edits_round_trip() {
    let mut stack = parse_html("<div id=\"a\" class=\"x\">t</div>");
    let id = {
        let found = stack.query().tag("div").to_vec(&mut stack);
        found[0].id()
    };
    let mut token = stack.get(&id).unwrap();
    token.del_attr("class");
    token.set_attr_extra("hidden");
    stack.save(&token);
    assert_eq!(stack.render(), "<div id=\"a\" hidden>t</div>");
    let mut token2 = stack.get(&id).unwrap();
    token2.purge_attr();
    token2.set_attr_extra("");
    stack.save(&token2);
    assert_eq!(stack.render(), "<div>t</div>");
}

#[test]
fn nested_comment_depth_and_attrs() {
    let mut stack = parse_html("<ul><li a=\"1\">x</li><li a=\"2\">y</li></ul>");
    let items = stack.query().tag("li").to_vec(&mut stack);
    assert_eq!(items.len(), 2);
    assert_eq!(items[0].attr("a").unwrap(), "1");
    assert_eq!(items[1].attr("a").unwrap(), "2");
    assert_eq!(items[0].depth(), 1);
}

#[test]
fn same_tag_nesting_depth() {
    let mut stack = parse_html("<div><div>inner</div></div>");
    let tokens = stack.query().tag("div").to_vec(&mut stack);
    assert_eq!(tokens.len(), 2);
    assert_eq!(tokens[0].depth(), 1);
    assert_eq!(tokens[1].depth(), 2);
    assert_eq!(stack.render(), "<div><div>inner</div></div>");
}

#[test]
fn attr_contains_query() {
    let mut stack = parse_html("<a href=\"https://example.com/x\">l</a><a href=\"other\">m</a>");
    let found = stack.query().attr_contains("href", "example").to_vec(&mut stack);
    assert_eq!(found.len(), 1);
    assert_eq!(found[0].contents(), "l");
}

#[test]
fn contents_exact_query() {
    let mut stack = parse_html("<p>one</p><p>two</p>");
    let found = stack.query().contents("two").to_vec(&mut stack);
    assert_eq!(found.len(), 1);
}

#[test]
fn query_refresh_is_written_back() {
    let mut stack = parse_html("<div><span>x</span></div>");
    let div_id = {
        let found = stack.query().tag("div").to_vec(&mut stack);
        found[0].id()
    };
    // The search refreshed the stored node's contents to its rendered
    // slice, so a plain lookup now sees the resolved markup.
    let stored = stack.get(&div_id).unwrap();
    assert_eq!(stored.contents(), "<span>x</span>");
    // A mutation below is picked up by the next query's refresh.
    let span_id = {
        let found = stack.query().tag("span").to_vec(&mut stack);
        found[0].id()
    };
    stack.set_contents(&span_id, "y");
    let found = stack.query().tag("div").to_vec(&mut stack);
    assert_eq!(found[0].contents(), "<span>y</span>");
    assert_eq!(stack.get(&div_id).unwrap().contents(), "<span>y</span>");
}

#[test]
fn idempotent_edit_via_get_mut() {
    let mut stack = parse_html("<div id=\"main\">x</div>");
    let before = stack.render();
    let id = {
        let found = stack.query().tag("div").to_vec(&mut stack);
        found[0].id()
    };
    stack.get_mut(&id).unwrap().set_attr("id", "main");
    assert_eq!(stack.render(), before);
}

#[test]
fn pull_mut_edits_are_visible() {
    let mut stack = parse_html("<a>x</a><b>y</b>");
    stack.set_parent_position(&0);
    {
        let t = stack.pull_mut().unwrap();
        assert_eq!(t.tag(), "a");
        t.set_tag("c");
    }
    {
        let t = stack.pull_mut().unwrap();
        assert_eq!(t.tag(), "b");
    }
    assert!(stack.pull_mut().is_none());
    assert_eq!(stack.render(), "<c>x</c><b>y</b>");
}
