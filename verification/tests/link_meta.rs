use magpie_app::link_meta::{decode_entities, parse_link_meta, preview_cache_path};

#[test]
fn parses_title_and_og_image() {
    let html = r#"<html><head><TITLE>Hello &amp; Bye</TITLE>
        <meta property="og:image" content="https://x.com/a.png"></head></html>"#;
    let m = parse_link_meta(html);
    assert_eq!(m.title.as_deref(), Some("Hello & Bye"));
    assert_eq!(m.image.as_deref(), Some("https://x.com/a.png"));
}

#[test]
fn missing_is_none() {
    let m = parse_link_meta("<html><body>no head</body></html>");
    assert!(m.title.is_none() && m.image.is_none());
}

#[test]
fn og_image_skips_other_meta_and_keeps_case() {
    let html = "<meta name='x' content='no'><META NAME=\"og:image\" CONTENT='HTTP://A/B.PNG'>";
    let m = parse_link_meta(html);
    assert_eq!(m.image.as_deref(), Some("HTTP://A/B.PNG"));
    assert!(m.title.is_none());
}

#[test]
fn blank_title_is_none() {
    assert!(parse_link_meta("<title>   </title>").title.is_none());
}

#[test]
fn entities_decode_in_order() {
    // `&amp;` is decoded first, so `&amp;lt;` becomes `&lt;` and then `<`.
    assert_eq!(decode_entities("a &lt;b&gt; &quot;c&quot; &#39;d&#39; &amp;lt;"), "a <b> \"c\" 'd' <");
    assert_eq!(decode_entities("&quot;&amp;&quot;"), "\"&\"");
}

#[test]
fn preview_cache_path_is_deterministic_and_differs_per_url() {
    let dir = "/tmp/magpie-previews";
    let a1 = preview_cache_path(dir, "https://a.example/x");
    let a2 = preview_cache_path(dir, "https://a.example/x");
    let b = preview_cache_path(dir, "https://b.example/y");
    assert_eq!(a1, a2);
    assert_ne!(a1, b);
    assert!(a1.starts_with(dir));
    assert!(a1.ends_with(".png"));
}

#[test]
fn preview_cache_name_is_fnv1a_hex() {
    assert_eq!(preview_cache_path("/d", ""), "/d/cbf29ce484222325.png");
    assert_eq!(preview_cache_path("/d", "a"), "/d/af63dc4c8601ec8c.png");
}
