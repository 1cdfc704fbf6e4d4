use mdroll::cache::{dir, hex16};
use mdroll::fetch::cache_path as image_path;
use mdroll::mmdc::{cache_dir, cache_name, cache_path};

#[test]
fn the_cache_key_depends_on_the_code_and_the_theme() {
    let a = cache_path("flowchart TD\n A-->B", true);
    let b = cache_path("flowchart TD\n A-->C", true);
    let c = cache_path("flowchart TD\n A-->B", false);
    assert_ne!(a, b, "different diagrams must not share a file");
    assert_ne!(a, c, "different themes must not share a file");
    assert_eq!(a, cache_path("flowchart TD\n A-->B", true));
}

#[test]
fn cache_paths_are_png_files_under_the_cache_directory() {
    let Some(path) = cache_path("x", true) else {
        return;
    };
    assert_eq!(path.extension().unwrap(), "png");
    assert!(path.starts_with(cache_dir().unwrap()));
}

#[test]
fn each_url_gets_its_own_cache_file() {
    let Some(a) = image_path("https://example.com/a.png") else {
        return;
    };
    assert_ne!(Some(&a), image_path("https://example.com/b.png").as_ref());
    assert_eq!(Some(&a), image_path("https://example.com/a.png").as_ref());
    assert!(a.starts_with(dir("images").unwrap()));
}

#[test]
fn a_diagram_file_is_named_by_its_hash_and_palette() {
    let name = cache_name("x", false);
    assert!(name.ends_with("-default.png"));
    assert_eq!(name.len(), 16 + "-default.png".len());
    assert!(cache_name("x", true).ends_with("-dark.png"));
    assert_eq!(hex16(0xab), "00000000000000ab");
    assert_eq!(hex16(u64::MAX), "ffffffffffffffff");
}
