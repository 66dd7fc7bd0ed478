use vstd::prelude::*;
use vstd::string::StrSliceExecFns;
use vstd::string::StringExecFns;

use crate::events::opt_view;
use crate::time::{Timestamp, now_timestamp, ts_wf};
use crate::toc::IndexedBlogPost;

verus! {

/// What parsing a URL reveals of it: the parsed URL's serialization and its
/// path part.
#[derive(Debug, Clone)]
pub struct UrlParts {
    pub serialized: String,
    pub path: String,
}

/// The mathematical value of a `UrlParts`.
#[verifier::ext_equal]
pub struct UrlPartsV {
    pub serialized: Seq<char>,
    pub path: Seq<char>,
}

impl View for UrlParts {
    type V = UrlPartsV;

    open spec fn view(&self) -> UrlPartsV {
        UrlPartsV { serialized: self.serialized@, path: self.path@ }
    }
}

/// The value of an optional `UrlParts`.
pub open spec fn opt_parts_view(r: Option<UrlParts>) -> Option<UrlPartsV> {
    match r {
        Some(p) => Some(p@),
        None => None,
    }
}

/// What parsing a given text as a URL yields: the URL's serialization and
/// path, or nothing when the text is not a valid URL. The result depends on
/// the text alone.
pub uninterp spec fn url_parts_of(s: Seq<char>) -> Option<UrlPartsV>;

/// What replacing the path of the URL serialized as `base` yields, or
/// nothing when `base` does not parse. The result depends on the arguments
/// alone.
pub uninterp spec fn url_with_path_of(base: Seq<char>, path: Seq<char>) -> Option<Seq<char>>;

/// Relies on url::Url::parse. The serialization is read back with as_str,
/// which the crate documents to be the URL's own serialization and to parse
/// again to the same URL; the path is read with path().
#[verifier::external_body]
fn parse_url(s: &str) -> (r: Option<UrlParts>)
    ensures
        opt_parts_view(r) == url_parts_of(s@),
        r matches Some(p) ==> url_parts_of(p.serialized@) == Some(p@),
{
    match url::Url::parse(s) {
        Ok(u) => {
            let path = u.path().to_string();
            Some(UrlParts { serialized: u.as_str().to_string(), path })
        },
        Err(_) => None,
    }
}

/// How much URL text, in characters of base and path together, the library
/// hands to the url crate at once. The crate keeps every serialization it
/// builds behind 32-bit positions and aborts on longer ones; under this
/// limit, a character grown to at most four UTF-8 bytes, each percent- or
/// host-encoded to a few more, stays two orders of magnitude below that
/// boundary.
pub const URL_LENGTH_LIMIT: usize = 100_000_000;

/// Relies on url::Url::set_path on a freshly parsed URL: set_path replaces
/// the path part and cannot fail, so the call yields the serialization with
/// the path replaced exactly when `base` parses at all. The crate rebuilds
/// the serialization with 32-bit positions and would abort beyond them, so
/// the combined length of the arguments must stay under the library's URL
/// length limit, which keeps every serialization the call builds far below
/// that boundary.
#[verifier::external_body]
fn url_set_path(base: &str, path: &str) -> (r: Option<String>)
    requires
        base@.len() + path@.len() <= URL_LENGTH_LIMIT as int,
    ensures
        opt_view(r) == url_with_path_of(base@, path@),
        r is Some <==> url_parts_of(base@) is Some,
{
    match url::Url::parse(base) {
        Ok(mut u) => {
            u.set_path(path);
            Some(u.as_str().to_string())
        },
        Err(_) => None,
    }
}

/// What went wrong with the feed's core data.
#[derive(Debug, Copy, Clone, PartialEq)]
pub enum ErrorKind {
    CantRead,
    BadSyntax,
    WriteError,
}

/// A feed failure: a message for the user and the kind of failure.
#[derive(Debug)]
pub struct RSSError {
    msg: String,
    kind: ErrorKind,
}

impl RSSError {
    /// The message this error carries.
    pub closed spec fn spec_msg(&self) -> Seq<char> {
        self.msg@
    }

    /// The kind of failure this error reports.
    pub closed spec fn spec_kind(&self) -> ErrorKind {
        self.kind
    }

    /// Package one feed failure.
    pub fn new(msg: String, kind: ErrorKind) -> (r: RSSError)
        ensures
            r.spec_msg() == msg@,
            r.spec_kind() == kind,
    {
        RSSError { msg, kind }
    }

    /// The kind of failure this error reports.
    pub fn kind(&self) -> (r: ErrorKind)
        ensures
            r == self.spec_kind(),
    {
        self.kind
    }

    /// A human-readable description of the failure.
    pub fn message(&self) -> (r: String)
        ensures
            r@ == "Bad template: "@ + self.spec_msg(),
    {
        let mut m = String::from_str("Bad template: ");
        m.append(self.msg.as_str());
        m
    }
}

/// The blog-wide data the feed carries: its title, home URL, description
/// and author.
#[derive(Debug, Clone)]
pub struct CoreData {
    pub title: String,
    pub home: String,
    pub description: String,
    pub author: String,
}

/// The mathematical value of a `CoreData`.
#[verifier::ext_equal]
pub struct CoreDataV {
    pub title: Seq<char>,
    pub home: Seq<char>,
    pub description: Seq<char>,
    pub author: Seq<char>,
}

impl View for CoreData {
    type V = CoreDataV;

    open spec fn view(&self) -> CoreDataV {
        CoreDataV {
            title: self.title@,
            home: self.home@,
            description: self.description@,
            author: self.author@,
        }
    }
}

/// The advice given when a home URL carries a path: the same URL with its
/// path stripped. A home URL too long to hand back to the url crate gets the
/// advice without the example.
pub open spec fn strip_path_message(p: UrlPartsV) -> Seq<char> {
    "Please provide a URL *without path*, for example "@ + (if p.serialized.len()
        <= URL_LENGTH_LIMIT as int {
        match url_with_path_of(p.serialized, Seq::empty()) {
            Some(u) => u,
            None => Seq::empty(),
        }
    } else {
        Seq::empty()
    })
}

impl CoreData {
    /// Assemble the feed's core data, validating the home URL: it must
    /// parse, and it must carry no path beyond the root, so that post URLs
    /// can be attached to it.
    pub fn new(title: &str, home_s: &str, description: &str, author: &str) -> (r: Result<
        CoreData,
        RSSError,
    >)
        ensures
            match url_parts_of(home_s@) {
                Some(p) => if p.path.len() <= 1 {
                    r matches Ok(c) && c@ == (CoreDataV {
                        title: title@,
                        home: p.serialized,
                        description: description@,
                        author: author@,
                    })
                } else {
                    r matches Err(e) && e.spec_kind() == ErrorKind::BadSyntax && e.spec_msg()
                        == strip_path_message(p)
                },
                None => r matches Err(e) && e.spec_kind() == ErrorKind::BadSyntax && e.spec_msg()
                    == "Provided an invalid home address"@,
            },
    {
        match parse_url(home_s) {
            Some(parts) => {
                if parts.path.as_str().unicode_len() <= 1 {
                    let c = CoreData {
                        title: String::from_str(title),
                        home: parts.serialized,
                        description: String::from_str(description),
                        author: String::from_str(author),
                    };
                    proof {
                        let ghost p = url_parts_of(home_s@)->Some_0;
                        assert(c@ =~= (CoreDataV {
                            title: title@,
                            home: p.serialized,
                            description: description@,
                            author: author@,
                        }));
                    }
                    Ok(c)
                } else {
                    proof {
                        reveal_strlit("");
                        assert(""@ =~= Seq::<char>::empty());
                    }
                    let stripped = if parts.serialized.as_str().unicode_len()
                        <= URL_LENGTH_LIMIT {
                        match url_set_path(parts.serialized.as_str(), "") {
                            Some(u) => u,
                            None => String::new(),
                        }
                    } else {
                        String::new()
                    };
                    let mut msg = String::from_str(
                        "Please provide a URL *without path*, for example ",
                    );
                    msg.append(stripped.as_str());
                    proof {
                        let ghost p = url_parts_of(home_s@)->Some_0;
                        assert(msg@ == strip_path_message(p));
                    }
                    Err(RSSError::new(msg, ErrorKind::BadSyntax))
                }
            },
            None => Err(
                RSSError::new(
                    String::from_str("Provided an invalid home address"),
                    ErrorKind::BadSyntax,
                ),
            ),
        }
    }
}

/// One entry of the RSS feed.
#[derive(Debug, Clone)]
pub struct RssPost {
    pub title: Option<String>,
    pub first_published: Timestamp,
    pub author: String,
    pub link: String,
}

/// The mathematical value of an `RssPost`.
#[verifier::ext_equal]
pub struct RssPostV {
    pub title: Option<Seq<char>>,
    pub first_published: Timestamp,
    pub author: Seq<char>,
    pub link: Seq<char>,
}

impl View for RssPost {
    type V = RssPostV;

    open spec fn view(&self) -> RssPostV {
        RssPostV {
            title: opt_view(self.title),
            first_published: self.first_published,
            author: self.author@,
            link: self.link@,
        }
    }
}

/// The home URL and a post URL are short enough, together, to hand to the
/// url crate for link building.
pub open spec fn link_within_limit(home: Seq<char>, url: Seq<char>) -> bool {
    home.len() + url.len() <= URL_LENGTH_LIMIT as int
}

/// The feed entry a post record yields, for a blog whose home URL is
/// `home`: the link is the home URL with its path replaced by the post's
/// URL, or empty if the home URL does not parse or the two together exceed
/// the URL length limit.
pub open spec fn rss_post_of(home: Seq<char>, author: Seq<char>, p: crate::toc::PostV) -> RssPostV {
    RssPostV {
        title: p.title,
        first_published: p.first_published,
        author: author,
        link: if link_within_limit(home, p.post_url) {
            match url_with_path_of(home, p.post_url) {
                Some(l) => l,
                None => Seq::empty(),
            }
        } else {
            Seq::empty()
        },
    }
}

/// Everything the RSS feed is rendered from: the blog's core data and its
/// newest posts.
#[derive(Debug)]
pub struct RssData {
    pub core_data: CoreData,
    pub posts: Vec<RssPost>,
}

impl RssData {
    /// An empty feed for the given core data.
    pub fn new(core_data: CoreData) -> (r: RssData)
        ensures
            r.core_data == core_data,
            r.posts@ == Seq::<RssPost>::empty(),
    {
        RssData { core_data, posts: Vec::new() }
    }

    /// A representative feed, used to exercise the feed template.
    pub fn example() -> (r: RssData)
        ensures
            r.core_data.title@ == "bla"@,
            r.core_data.description@ == "2"@,
            r.core_data.author@ == "3"@,
            r.posts@.len() == 1,
            opt_view(r.posts@[0].title) == Option::<Seq<char>>::None,
            ts_wf(r.posts@[0].first_published),
    {
        let core_data = match CoreData::new("bla", "https://bla.com", "2", "3") {
            Ok(c) => c,
            Err(_) => CoreData {
                title: String::from_str("bla"),
                home: String::new(),
                description: String::from_str("2"),
                author: String::from_str("3"),
            },
        };
        let post = RssPost {
            title: None,
            first_published: now_timestamp(),
            author: String::from_str("Me"),
            link: String::from_str("https://example.com/"),
        };
        let mut posts: Vec<RssPost> = Vec::new();
        posts.push(post);
        RssData { core_data, posts }
    }

    /// Append feed entries for the newest posts, last record first, at most
    /// ten of them.
    pub fn push_posts(&mut self, posts: &Vec<IndexedBlogPost>)
        ensures
            final(self).core_data == old(self).core_data,
            ({
                let taken = if posts@.len() < 10 {
                    posts@.len() as int
                } else {
                    10
                };
                &&& final(self).posts@.len() == old(self).posts@.len() + taken
                &&& forall|t: int| 0 <= t < old(self).posts@.len() ==> final(self).posts@[t]
                    == old(self).posts@[t]
                &&& forall|t: int|
                    0 <= t < taken ==> (#[trigger] final(self).posts@[old(self).posts@.len() + t])@
                        == rss_post_of(
                        old(self).core_data.home@,
                        old(self).core_data.author@,
                        posts@[posts@.len() - 1 - t]@,
                    )
            }),
    {
        let total = posts.len();
        let taken = if total < 10 {
            total
        } else {
            10
        };
        let mut t: usize = 0;
        while t < taken
            invariant
                t <= taken,
                taken <= total,
                total == posts@.len(),
                taken == (if posts@.len() < 10 {
                    posts@.len() as int
                } else {
                    10
                }),
                self.core_data == old(self).core_data,
                self.posts@.len() == old(self).posts@.len() + t,
                forall|q: int| 0 <= q < old(self).posts@.len() ==> self.posts@[q] == old(
                    self,
                ).posts@[q],
                forall|q: int|
                    0 <= q < t ==> (#[trigger] self.posts@[old(self).posts@.len() + q])@
                        == rss_post_of(
                        old(self).core_data.home@,
                        old(self).core_data.author@,
                        posts@[posts@.len() - 1 - q]@,
                    ),
            decreases taken - t,
        {
            let post = &posts[total - 1 - t];
            let home_len = self.core_data.home.as_str().unicode_len();
            let url_len = post.post_url.as_str().unicode_len();
            let link = if home_len <= URL_LENGTH_LIMIT && url_len <= URL_LENGTH_LIMIT - home_len {
                match url_set_path(self.core_data.home.as_str(), post.post_url.as_str()) {
                    Some(l) => l,
                    None => String::new(),
                }
            } else {
                String::new()
            };
            let title = match &post.title {
                Some(s) => Some(s.clone()),
                None => None,
            };
            let entry = RssPost {
                title,
                first_published: post.first_published,
                author: self.core_data.author.clone(),
                link,
            };
            proof {
                reveal_strlit("");
                assert(entry@ =~= rss_post_of(
                    old(self).core_data.home@,
                    old(self).core_data.author@,
                    posts@[posts@.len() - 1 - t]@,
                ));
            }
            self.posts.push(entry);
            t += 1;
        }
    }
}

} // verus!
