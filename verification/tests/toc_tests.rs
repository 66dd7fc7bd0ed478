use wellington::time::Timestamp;
use wellington::toc::{ScannedDir, ScannedPost, post_url_from_path};
use wellington::{Blog, IndexedBlogPost};

fn ts(secs: u64) -> Timestamp {
    Timestamp { secs, nanos: 0 }
}

fn scanned(path: &str, secs: u64) -> ScannedPost {
    ScannedPost { path: path.to_string(), last_updated: ts(secs) }
}

#[test]
fn can_compute_input_output_filename() {
    let blogpost = IndexedBlogPost::from_scanned(scanned("/example", 0));
    let i = blogpost.get_filename_path("index.md").expect("Should get input!");
    let o = blogpost.get_filename_path("index.html").expect("Should get output!");
    assert_eq!(i, "/example/index.md");
    assert_eq!(o, "/example/index.html");
}

#[test]
fn post_urls_are_relative_to_the_blog() {
    assert_eq!(post_url_from_path("/home/someone/blog/a-post"), "/blog/a-post/");
    assert_eq!(post_url_from_path("/home/someone/blog/a-post/"), "/blog/a-post/");
    assert_eq!(post_url_from_path("/moved/elsewhere/blog/a-post"), "/blog/a-post/");
}

#[test]
fn blog_index_url_comes_from_the_root_name() {
    let blog = Blog::new("/home/someone/blog".to_string());
    assert_eq!(blog.index_url, "/blog/");
    assert!(blog.index.is_empty());
}

#[test]
fn can_list_dirs() {
    let blog = Blog::new("/blog".to_string());
    let dirs = vec![
        ScannedDir {
            entry: scanned("/blog/irkutsk", 1),
            files: vec!["index.md".to_string()],
        },
        ScannedDir {
            entry: scanned("/blog/krasnoyarsk", 2),
            files: vec!["notes.txt".to_string(), "index.md".to_string()],
        },
        ScannedDir {
            entry: scanned("/blog/yekaterinburg", 3),
            files: vec!["index.md".to_string()],
        },
        ScannedDir { entry: scanned("/blog/ghosttown", 4), files: vec![] },
    ];
    let posts = blog.list_posts(dirs);
    let post_paths: Vec<String> = posts.iter().map(|p| p.path.clone()).collect();
    assert_eq!(post_paths, vec!["/blog/irkutsk", "/blog/krasnoyarsk", "/blog/yekaterinburg"]);
}

#[test]
fn can_update() {
    let mut blog = Blog::new("/blog2".to_string());
    let posts = vec![
        scanned("/blog2/irkutsk", 100),
        scanned("/blog2/krasnoyarsk", 200),
        scanned("/blog2/yekaterinburg", 300),
    ];
    blog.push(IndexedBlogPost::from_scanned(scanned("/blog2/krasnoyarsk", 0)));
    blog.push(IndexedBlogPost::from_scanned(scanned("/blog2/irkutsk", 100)));
    let (_to_convert, num_updated) = blog.update(posts.clone(), ts(1000));
    assert_eq!(num_updated, posts.len() - 1);
    let expected_new_index_paths =
        vec!["/blog2/krasnoyarsk", "/blog2/irkutsk", "/blog2/yekaterinburg"];
    let new_index_paths: Vec<String> = blog.index.iter().map(|x| x.path.clone()).collect();
    assert_eq!(new_index_paths, expected_new_index_paths);
}

#[test]
fn update_classifies_all_four_scenarios() {
    // one untouched post, one modified post, one new post, one removed post
    let mut blog = Blog::new("/blog".to_string());
    blog.push(IndexedBlogPost::from_scanned(scanned("/blog/untouched", 100)));
    blog.push(IndexedBlogPost::from_scanned(scanned("/blog/modified", 100)));
    blog.push(IndexedBlogPost::from_scanned(scanned("/blog/removed", 100)));
    let listing = vec![
        scanned("/blog/untouched", 100),
        scanned("/blog/modified", 250),
        scanned("/blog/brand-new", 300),
    ];
    let now = ts(1000);
    let (to_convert, num_updated) = blog.update(listing, now);
    // modified + new + removed each count; untouched does not
    assert_eq!(num_updated, 3);
    assert_eq!(to_convert, vec!["/blog/modified/", "/blog/brand-new/"]);
    let urls: Vec<String> = blog.index.iter().map(|e| e.post_url.clone()).collect();
    assert_eq!(urls, vec!["/blog/untouched/", "/blog/modified/", "/blog/brand-new/"]);
    assert_eq!(blog.index[0].last_updated, ts(100));
    assert_eq!(blog.index[1].last_updated, ts(250));
    assert_eq!(blog.index[2].last_updated, now);
    assert_eq!(blog.index[2].first_published, now);
}

#[test]
fn sync_twice_reports_zero_updates() {
    // run one pass, persist and reload the index, and run a second pass
    // against the unchanged listing: nothing to do, index text identical
    let listing = vec![scanned("/blog/a", 100), scanned("/blog/b", 200)];
    let mut blog = Blog::new("/blog".to_string());
    let (_, first_count) = blog.update(listing.clone(), ts(500));
    assert_eq!(first_count, 2);
    let persisted = blog.render_index_text();

    let mut reloaded = Blog::new("/blog".to_string());
    reloaded.load_index_text(&persisted).expect("can't load");
    let (second_converts, second_count) = reloaded.update(listing, ts(900));
    assert_eq!(second_count, 0);
    assert!(second_converts.is_empty());
    assert_eq!(reloaded.render_index_text(), persisted);
}

#[test]
fn write_read_index() {
    let mut blog = Blog::new("/blog9".to_string());
    blog.push(IndexedBlogPost::from_scanned(scanned("/blog9/one", 77)));
    blog.push(IndexedBlogPost::from_scanned(scanned("/blog9/two", 0)));
    blog.index[1].title = Some("Some title with \"quotes".to_string());
    blog.index[0].path = String::new();
    blog.index[1].path = String::new();
    // reset, since absolute paths are not persisted

    let persisted = blog.render_index_text();
    let mut blog2 = Blog::new("/blog9".to_string());
    blog2.load_index_text(&persisted).expect("can't load");
    assert_eq!(blog.index, blog2.index);
}

#[test]
fn index_rows_render_exactly() {
    let mut blog = Blog::new("/b".to_string());
    let mut entry = IndexedBlogPost::from_scanned(ScannedPost {
        path: "/b/p".to_string(),
        last_updated: Timestamp { secs: 5, nanos: 1 },
    });
    entry.first_published = Timestamp { secs: 2, nanos: 0 };
    entry.title = Some("T".to_string());
    entry.path = String::new();
    blog.push(entry);
    assert_eq!(blog.render_index_text(), "/b/p/,5,1,2,0,T\n");
}

#[test]
fn quoted_fields_round_trip() {
    let mut blog = Blog::new("/b".to_string());
    let mut entry = IndexedBlogPost::from_scanned(scanned("/b/p", 1));
    entry.title = Some("a,b\"c\nd".to_string());
    entry.path = String::new();
    blog.push(entry);
    let persisted = blog.render_index_text();
    assert_eq!(persisted, "/b/p/,1,0,1,0,\"a,b\"\"c\nd\"\n");
    let mut blog2 = Blog::new("/b".to_string());
    blog2.load_index_text(&persisted).expect("can't load");
    assert_eq!(blog.index, blog2.index);
}

#[test]
fn corrupt_index_text_is_rejected() {
    let mut blog = Blog::new("/b".to_string());
    assert!(blog.load_index_text("not,a,valid\n").is_err());
    assert!(blog.load_index_text("/u/,1,2").is_err());
    // a nanosecond column beyond one second is corruption
    assert!(blog.load_index_text("/u/,1,2000000000,0,0,\n").is_err());
    // an empty text is an empty index
    assert!(blog.load_index_text("").is_ok());
    assert!(blog.index.is_empty());
}

#[test]
fn set_title_records_the_conversion_result() {
    let mut post = IndexedBlogPost::from_scanned(scanned("/b/p", 1));
    post.set_title(Some("A title".to_string()));
    assert_eq!(post.title, Some("A title".to_string()));
}
