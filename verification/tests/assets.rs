use visual_git::ui_assets::{get, has_assets, missing_assets_html, AssetTable};

#[test]
fn an_empty_table_has_no_frontend() {
    let assets = AssetTable::new();
    assert!(get(&assets, "/index.html").is_none());
    assert!(get(&assets, "/").is_none());
    assert!(!has_assets(&assets));
    assert_eq!(assets.len(), 0);
}

#[test]
fn files_are_found_by_web_path() {
    let mut assets = AssetTable::new();
    assets.add("/index.html".to_string(), b"<html>".to_vec());
    assets.add("/assets/app.js".to_string(), b"js".to_vec());
    assert!(has_assets(&assets));
    assert_eq!(assets.len(), 2);
    assert_eq!(get(&assets, "/index.html"), Some(&b"<html>"[..]));
    assert_eq!(get(&assets, "/assets/app.js"), Some(&b"js"[..]));
    assert!(get(&assets, "/assets/app.css").is_none());
    assert!(get(&assets, "index.html").is_none());
}

#[test]
fn the_count_is_the_number_of_paths() {
    let mut assets = AssetTable::new();
    for p in ["/a", "/b", "/c/d.js"] {
        assert!(get(&assets, p).is_none());
        assets.add(p.to_string(), p.as_bytes().to_vec());
    }
    assert_eq!(assets.len(), 3);
    assert_eq!(get(&assets, "/c/d.js"), Some(&b"/c/d.js"[..]));
}

#[test]
fn the_missing_page_explains_itself() {
    let page = std::str::from_utf8(missing_assets_html()).unwrap();
    assert!(page.starts_with("<!doctype html>"));
    assert!(page.contains("<h1>Frontend assets are missing</h1>"));
    assert!(page.ends_with("</html>\n"));
}
