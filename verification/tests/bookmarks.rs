use magpie_app::bookmark_import::{
    chrome_bookmarks, import_source, parse_chrome_bookmarks, safari_bookmarks, ImportSource, Json,
    Plist,
};

#[test]
fn parses_chrome_tree() {
    let json = r#"{"roots":{"bookmark_bar":{"children":[
        {"type":"url","name":"Rust","url":"https://rust-lang.org"},
        {"type":"folder","name":"Dev","children":[
            {"type":"url","name":"GH","url":"https://github.com"},
            {"type":"url","name":"ftp","url":"ftp://skip"}
        ]}
    ]},"other":{"children":[]}}}"#;
    let got = parse_chrome_bookmarks(json);
    assert_eq!(
        got,
        vec![
            ("Rust".to_string(), "https://rust-lang.org".to_string()),
            ("GH".to_string(), "https://github.com".to_string()),
        ]
    );
    assert!(parse_chrome_bookmarks("not json").is_empty());
}

#[test]
fn chrome_roots_are_read_in_key_order_and_nameless_urls_kept() {
    let json = r#"{"roots":{"zeta":{"children":[{"type":"url","url":"http://z"}]},
                            "alpha":{"children":[{"type":"url","name":"A","url":"https://a"}]}}}"#;
    assert_eq!(
        parse_chrome_bookmarks(json),
        vec![
            ("A".to_string(), "https://a".to_string()),
            ("".to_string(), "http://z".to_string()),
        ]
    );
    assert!(parse_chrome_bookmarks(r#"{"roots": []}"#).is_empty());
}

#[test]
fn chrome_tree_from_values() {
    let leaf = Json::Object(vec![
        ("name".to_string(), Json::Str("X".to_string())),
        ("type".to_string(), Json::Str("url".to_string())),
        ("url".to_string(), Json::Str("https://x".to_string())),
    ]);
    let root = Json::Object(vec![(
        "roots".to_string(),
        Json::Object(vec![(
            "bar".to_string(),
            Json::Object(vec![("children".to_string(), Json::Array(vec![leaf, Json::Null]))]),
        )]),
    )]);
    assert_eq!(chrome_bookmarks(&root), vec![("X".to_string(), "https://x".to_string())]);
}

fn s(x: &str) -> Plist {
    Plist::Str(x.to_string())
}

fn safari_leaf(title: &str, url: &str) -> Plist {
    Plist::Dict(vec![
        ("WebBookmarkType".to_string(), s("WebBookmarkTypeLeaf")),
        ("URLString".to_string(), s(url)),
        ("URIDictionary".to_string(), Plist::Dict(vec![("title".to_string(), s(title))])),
    ])
}

fn safari_folder(children: Vec<Plist>) -> Plist {
    Plist::Dict(vec![
        ("WebBookmarkType".to_string(), s("WebBookmarkTypeList")),
        ("Children".to_string(), Plist::Array(children)),
    ])
}

#[test]
fn parses_safari_tree() {
    let root = safari_folder(vec![
        safari_leaf("Rust", "https://rust-lang.org"),
        safari_folder(vec![
            safari_leaf("GH", "https://github.com"),
            safari_leaf("skip-me", "ftp://skip"),
        ]),
    ]);
    assert_eq!(
        safari_bookmarks(&root),
        vec![
            ("Rust".to_string(), "https://rust-lang.org".to_string()),
            ("GH".to_string(), "https://github.com".to_string()),
        ]
    );
}

#[test]
fn safari_leaf_without_title_uses_url() {
    let leaf = Plist::Dict(vec![
        ("WebBookmarkType".to_string(), s("WebBookmarkTypeLeaf")),
        ("URLString".to_string(), s("https://u")),
    ]);
    assert_eq!(safari_bookmarks(&leaf), vec![("https://u".to_string(), "https://u".to_string())]);
    assert!(safari_bookmarks(&Plist::Other).is_empty());
}

#[test]
fn import_source_names() {
    assert_eq!(import_source("chromium"), ImportSource::Chrome);
    assert_eq!(import_source("firefox"), ImportSource::Firefox);
    assert_eq!(import_source("safari"), ImportSource::Safari);
    assert_eq!(import_source("/x/b.json"), ImportSource::File("/x/b.json".to_string()));
}

#[test]
fn safari_plist_bytes_give_http_leaves() {
    let xml = r#"<?xml version="1.0" encoding="UTF-8"?>
<!DOCTYPE plist PUBLIC "-//Apple//DTD PLIST 1.0//EN" "http://www.apple.com/DTDs/PropertyList-1.0.dtd">
<plist version="1.0">
<dict>
  <key>Children</key>
  <array>
    <dict>
      <key>WebBookmarkType</key><string>WebBookmarkTypeLeaf</string>
      <key>URLString</key><string>https://rust-lang.org</string>
      <key>URIDictionary</key><dict><key>title</key><string>Rust</string></dict>
    </dict>
    <dict>
      <key>WebBookmarkType</key><string>WebBookmarkTypeList</string>
      <key>Children</key>
      <array>
        <dict>
          <key>WebBookmarkType</key><string>WebBookmarkTypeLeaf</string>
          <key>URLString</key><string>https://example.com/a</string>
        </dict>
        <dict>
          <key>WebBookmarkType</key><string>WebBookmarkTypeLeaf</string>
          <key>URLString</key><string>ftp://skip</string>
        </dict>
      </array>
    </dict>
  </array>
</dict>
</plist>"#;
    let pairs = magpie_app::bookmark_import::parse_safari_plist(xml.as_bytes()).unwrap();
    assert_eq!(
        pairs,
        vec![
            ("Rust".to_string(), "https://rust-lang.org".to_string()),
            ("https://example.com/a".to_string(), "https://example.com/a".to_string()),
        ]
    );
    assert!(magpie_app::bookmark_import::parse_safari_plist(b"not a plist").is_none());
}
