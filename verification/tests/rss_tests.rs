use url::Url;

use wellington::rss::{CoreData, ErrorKind, RSSError, RssData};
use wellington::time::Timestamp;
use wellington::toc::ScannedPost;
use wellington::{IndexedBlogPost, PostData};

#[test]
fn can_set() {
    assert!(CoreData::new("a", "b", "c", "d").is_err());
    assert!(CoreData::new("a", "https://example.com/some-path", "c", "d").is_err());
    assert_eq!(
        CoreData::new("a", "https://example.com/", "c", "d")
            .expect("Can't create new coredata")
            .home,
        Url::parse("https://example.com/").unwrap().as_str()
    );
}

#[test]
fn home_url_is_normalized() {
    let core = CoreData::new("t", "https://example.com", "d", "a").expect("should parse");
    assert_eq!(core.home, "https://example.com/");
    assert_eq!(core.title, "t");
    assert_eq!(core.description, "d");
    assert_eq!(core.author, "a");
}

#[test]
fn invalid_home_reports_bad_syntax() {
    match CoreData::new("a", "b", "c", "d") {
        Err(e) => {
            assert_eq!(e.kind(), ErrorKind::BadSyntax);
            assert_eq!(e.message(), "Bad template: Provided an invalid home address");
        },
        Ok(_) => panic!("expected an error"),
    }
}

#[test]
fn home_with_path_suggests_the_stripped_url() {
    match CoreData::new("a", "https://example.com/some-path", "c", "d") {
        Err(e) => {
            assert_eq!(e.kind(), ErrorKind::BadSyntax);
            assert_eq!(
                e.message(),
                "Bad template: Please provide a URL *without path*, for example https://example.com/"
            );
        },
        Ok(_) => panic!("expected an error"),
    }
}

#[test]
fn rss_error_carries_its_kind() {
    let e = RSSError::new("boom".to_string(), ErrorKind::WriteError);
    assert_eq!(e.kind(), ErrorKind::WriteError);
    assert_eq!(e.message(), "Bad template: boom");
}

#[test]
fn example_feed_has_one_post() {
    let feed = RssData::example();
    assert_eq!(feed.core_data.title, "bla");
    assert_eq!(feed.core_data.home, "https://bla.com/");
    assert_eq!(feed.posts.len(), 1);
    assert!(feed.posts[0].title.is_none());
}

#[test]
fn push_posts_takes_the_ten_newest_in_reverse() {
    let core = CoreData::new("t", "https://bla.com", "d", "me").expect("should parse");
    let mut feed = RssData::new(core);
    let mut posts: Vec<IndexedBlogPost> = Vec::new();
    for k in 0..12u64 {
        let path = format!("/blog/p{}", k);
        posts.push(IndexedBlogPost::from_scanned(ScannedPost {
            path,
            last_updated: Timestamp { secs: k, nanos: 0 },
        }));
    }
    feed.push_posts(&posts);
    assert_eq!(feed.posts.len(), 10);
    assert_eq!(feed.posts[0].link, "https://bla.com/blog/p11/");
    assert_eq!(feed.posts[9].link, "https://bla.com/blog/p2/");
    assert_eq!(feed.posts[0].author, "me");
    assert_eq!(feed.posts[0].first_published, Timestamp { secs: 11, nanos: 0 });
}

#[test]
fn post_data_escapes_the_title() {
    let mut post = IndexedBlogPost::from_scanned(ScannedPost {
        path: "/b/p".to_string(),
        last_updated: Timestamp { secs: 1, nanos: 0 },
    });
    post.title = Some("Tom & \"Jerry\" <markup>".to_string());
    let data = PostData::from_post("an article", &post, "/b/", "/b/p/".to_string());
    assert_eq!(data.article, "an article");
    assert_eq!(
        data.title.expect("a title"),
        "Tom &amp; &quot;Jerry&quot; &lt;markup&gt;"
    );
    assert_eq!(data.index_url, "/b/");
    assert_eq!(data.post_url, "/b/p/");
}

#[test]
fn fresh_post_data_has_no_title() {
    let data = PostData::new("some article");
    assert_eq!(data.article, "some article");
    assert!(data.title.is_none());
    assert_eq!(data.index_url, "/");
    assert_eq!(data.post_url, "/");
    assert_eq!(data.first_published, data.last_updated);
}
