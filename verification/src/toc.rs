use vstd::prelude::*;
use vstd::string::StrSliceExecFns;
use vstd::string::StringExecFns;

use crate::templates::TemplateError;
use crate::time::{Timestamp, ts_lt};

verus! {

/// A post directory as the directory scanner reports it: its path and the
/// time it was last modified.
#[derive(Debug, Clone, PartialEq)]
pub struct ScannedPost {
    pub path: String,
    pub last_updated: Timestamp,
}

/// The mathematical value of a `ScannedPost`.
#[verifier::ext_equal]
pub struct SPostV {
    pub path: Seq<char>,
    pub last_updated: Timestamp,
}

impl View for ScannedPost {
    type V = SPostV;

    open spec fn view(&self) -> SPostV {
        SPostV { path: self.path@, last_updated: self.last_updated }
    }
}

/// One candidate subdirectory of the blog root: the directory itself and the
/// names of the files inside it.
#[derive(Debug, Clone)]
pub struct ScannedDir {
    pub entry: ScannedPost,
    pub files: Vec<String>,
}

/// The mathematical value of a `ScannedDir`.
#[verifier::ext_equal]
pub struct DirV {
    pub entry: SPostV,
    pub files: Seq<Seq<char>>,
}

impl View for ScannedDir {
    type V = DirV;

    open spec fn view(&self) -> DirV {
        DirV { entry: self.entry@, files: self.files@.map_values(|f: String| f@) }
    }
}

/// One record of the persisted index: a post the blog has seen before.
#[derive(Debug, Clone, PartialEq)]
pub struct IndexedBlogPost {
    pub path: String,
    pub post_url: String,
    pub last_updated: Timestamp,
    pub first_published: Timestamp,
    pub checked: bool,
    pub title: Option<String>,
}

/// The mathematical value of an `IndexedBlogPost`.
#[verifier::ext_equal]
pub struct PostV {
    pub path: Seq<char>,
    pub post_url: Seq<char>,
    pub last_updated: Timestamp,
    pub first_published: Timestamp,
    pub checked: bool,
    pub title: Option<Seq<char>>,
}

impl View for IndexedBlogPost {
    type V = PostV;

    open spec fn view(&self) -> PostV {
        PostV {
            path: self.path@,
            post_url: self.post_url@,
            last_updated: self.last_updated,
            first_published: self.first_published,
            checked: self.checked,
            title: crate::events::opt_view(self.title),
        }
    }
}

/// The values of a whole index.
pub open spec fn index_view(index: Seq<IndexedBlogPost>) -> Seq<PostV> {
    index.map_values(|e: IndexedBlogPost| e@)
}

/// A path with its trailing slashes removed.
pub open spec fn trim_slashes(s: Seq<char>) -> Seq<char>
    decreases s.len(),
{
    if s.len() > 0 && s.last() == '/' {
        trim_slashes(s.drop_last())
    } else {
        s
    }
}

/// The last path component: everything after the last slash.
pub open spec fn basename(s: Seq<char>) -> Seq<char>
    decreases s.len(),
{
    if s.len() == 0 {
        Seq::empty()
    } else if s.last() == '/' {
        Seq::empty()
    } else {
        basename(s.drop_last()) + seq![s.last()]
    }
}

/// The site-relative URL a post gets from the path of its directory:
/// `/<blog-name>/<post-name>/`, where the post name is the directory's own
/// name and the blog name is its parent's. The URL deliberately drops
/// everything above those two components, so that moving the blog on disk
/// does not change any post's identity.
pub open spec fn spec_post_url(path: Seq<char>) -> Seq<char> {
    let trimmed = trim_slashes(path);
    let post = basename(trimmed);
    let parent = trim_slashes(trimmed.take(trimmed.len() - post.len()));
    let blog = basename(parent);
    "/"@ + blog + "/"@ + post + "/"@
}

/// Trimming stops exactly at the last non-slash character.
proof fn lemma_trim_take(s: Seq<char>, k: int)
    requires
        0 <= k <= s.len(),
        forall|j: int| k <= j < s.len() ==> s[j] == '/',
        k == 0 || s[k - 1] != '/',
    ensures
        trim_slashes(s) == s.take(k),
    decreases s.len(),
{
    if s.len() == 0 {
        assert(s.take(0) =~= s);
    } else if s.last() == '/' {
        assert(k < s.len());
        lemma_trim_take(s.drop_last(), k);
        assert(s.drop_last().take(k) =~= s.take(k));
    } else {
        assert(k == s.len());
        assert(s.take(k) =~= s);
    }
}

/// The basename is the suffix that follows the last slash.
proof fn lemma_basename_split(s: Seq<char>, a: int)
    requires
        0 <= a <= s.len(),
        forall|j: int| a <= j < s.len() ==> s[j] != '/',
        a == 0 || s[a - 1] == '/',
    ensures
        basename(s) == s.skip(a),
    decreases s.len(),
{
    if s.len() == a {
        if a == 0 {
            assert(s.skip(0) =~= s);
        } else {
            assert(s.skip(a) =~= Seq::<char>::empty());
        }
    } else {
        lemma_basename_split(s.drop_last(), a);
        assert(s.drop_last().skip(a) =~= s.skip(a).drop_last());
        assert(s.skip(a).drop_last() + seq![s.last()] =~= s.skip(a));
    }
}

/// Locate the last path component of `path` once trailing slashes are
/// ignored: the component is `path[start..end)` and the trimmed path is
/// `path[..end)`.
fn basename_bounds(path: &str) -> (r: (usize, usize))
    ensures
        r.0 <= r.1 <= path@.len(),
        trim_slashes(path@) == path@.take(r.1 as int),
        basename(path@.take(r.1 as int)) == path@.subrange(r.0 as int, r.1 as int),
{
    let n = path.unicode_len();
    let mut end = n;
    while end > 0 && path.get_char(end - 1) == '/'
        invariant
            end <= n,
            n == path@.len(),
            forall|j: int| end <= j < n ==> path@[j] == '/',
        decreases end,
    {
        end -= 1;
    }
    proof {
        lemma_trim_take(path@, end as int);
    }
    let mut start = end;
    while start > 0 && path.get_char(start - 1) != '/'
        invariant
            start <= end <= n,
            n == path@.len(),
            forall|j: int| start <= j < end ==> path@[j] != '/',
        decreases start,
    {
        start -= 1;
    }
    proof {
        let t = path@.take(end as int);
        assert forall|j: int| start <= j < t.len() implies t[j] != '/' by {
            assert(t[j] == path@[j]);
        }
        if start > 0 {
            assert(t[start - 1] == path@[start - 1]);
        }
        lemma_basename_split(t, start as int);
        assert(t.skip(start as int) =~= path@.subrange(start as int, end as int));
    }
    (start, end)
}

/// The site-relative URL of the post that lives in the directory at `path`:
/// `/<blog-name>/<post-name>/`, independent of where the blog root itself
/// lies on disk.
pub fn post_url_from_path(path: &str) -> (r: String)
    ensures
        r@ == spec_post_url(path@),
{
    let (b0, b1) = basename_bounds(path);
    let parent = path.substring_char(0, b0);
    let (c0, c1) = basename_bounds(parent);
    let mut url = String::from_str("/");
    url.append(parent.substring_char(c0, c1));
    url.append("/");
    url.append(path.substring_char(b0, b1));
    url.append("/");
    proof {
        let trimmed = trim_slashes(path@);
        let post = basename(trimmed);
        assert(parent@ =~= path@.take(b0 as int));
        assert(trimmed.take(trimmed.len() - post.len()) =~= path@.take(b0 as int));
        assert(parent@.subrange(c0 as int, c1 as int) =~= parent@.take(c1 as int).subrange(
            c0 as int,
            c1 as int,
        ));
        assert(url@ =~= spec_post_url(path@));
    }
    url
}

impl IndexedBlogPost {
    /// The index record for a post directory seen for the first time in a
    /// plain listing: first published when last updated, never converted,
    /// not yet seen by any reconciliation.
    pub fn from_scanned(post: ScannedPost) -> (r: IndexedBlogPost)
        ensures
            r@ == (PostV {
                path: post.path@,
                post_url: spec_post_url(post.path@),
                last_updated: post.last_updated,
                first_published: post.last_updated,
                checked: false,
                title: None,
            }),
    {
        let post_url = post_url_from_path(post.path.as_str());
        IndexedBlogPost {
            path: post.path,
            post_url,
            last_updated: post.last_updated,
            first_published: post.last_updated,
            checked: false,
            title: None,
        }
    }

    /// A representative record, used to exercise templates.
    pub fn example() -> (r: IndexedBlogPost)
        ensures
            r@ == (PostV {
                path: Seq::<char>::empty(),
                post_url: "/blog/example/"@,
                last_updated: Timestamp { secs: 0, nanos: 0 },
                first_published: Timestamp { secs: 0, nanos: 0 },
                checked: false,
                title: None,
            }),
    {
        IndexedBlogPost {
            path: String::new(),
            post_url: String::from_str("/blog/example/"),
            last_updated: Timestamp { secs: 0, nanos: 0 },
            first_published: Timestamp { secs: 0, nanos: 0 },
            checked: false,
            title: None,
        }
    }

    /// Record the title a conversion extracted.
    pub fn set_title(&mut self, title: Option<String>)
        ensures
            final(self)@ == (PostV { title: crate::events::opt_view(title), ..old(self)@ }),
    {
        self.title = title;
    }

    /// The full path of a file inside this post's directory.
    pub fn get_filename_path(&self, file: &str) -> (r: Result<String, BlogError>)
        ensures
            r matches Ok(p) && p@ == join_path(self.path@, file@),
    {
        let mut joined = self.path.clone();
        let n = joined.as_str().unicode_len();
        if n == 0 {
            return Ok(String::from_str(file));
        }
        if joined.as_str().get_char(n - 1) != '/' {
            joined.append("/");
        }
        joined.append(file);
        Ok(joined)
    }
}

/// A path joined to a file name inside it, with exactly one slash between
/// them.
pub open spec fn join_path(path: Seq<char>, file: Seq<char>) -> Seq<char> {
    if path.len() == 0 {
        file
    } else if path.last() == '/' {
        path + file
    } else {
        path + "/"@ + file
    }
}

/// The failures a blog operation can report.
#[derive(Debug)]
pub enum BlogError {
    CantReadDir(String, String),
    ReadError(String),
    ConvertError(String),
    WriteError(String),
    ReadIndexError(String),
    WriteIndexError(String),
    WriteTocError(String),
    NoInit,
    InitWrite,
    InitTemplate(TemplateError),
    InitCopy(String),
}

/// A file listing holds the post marker file.
pub open spec fn has_marker(files: Seq<Seq<char>>) -> bool {
    exists|j: int| 0 <= j < files.len() && files[j] == "index.md"@
}

/// The subdirectories that count as posts: those holding the marker file.
pub open spec fn select_posts(dirs: Seq<DirV>) -> Seq<SPostV>
    decreases dirs.len(),
{
    if dirs.len() == 0 {
        seq![]
    } else if has_marker(dirs[0].files) {
        seq![dirs[0].entry] + select_posts(dirs.skip(1))
    } else {
        select_posts(dirs.skip(1))
    }
}

/// The position of the first index record with the given URL.
pub open spec fn find_url(index: Seq<PostV>, url: Seq<char>) -> Option<int>
    decreases index.len(),
{
    if index.len() == 0 {
        None
    } else if index[0].post_url == url {
        Some(0)
    } else {
        match find_url(index.skip(1), url) {
            Some(i) => Some(i + 1),
            None => None,
        }
    }
}

/// A position whose predecessors all miss and that itself hits is the first
/// hit; when every record misses there is none.
proof fn lemma_find_url_at(index: Seq<PostV>, url: Seq<char>, i: int)
    requires
        0 <= i <= index.len(),
        forall|j: int| 0 <= j < i ==> index[j].post_url != url,
        i < index.len() ==> index[i].post_url == url,
    ensures
        i < index.len() ==> find_url(index, url) == Some(i),
        i == index.len() ==> find_url(index, url) is None,
    decreases i,
{
    if index.len() == 0 {
    } else if i == 0 {
    } else {
        assert forall|j: int| 0 <= j < i - 1 implies index.skip(1)[j].post_url != url by {
            assert(index.skip(1)[j] == index[j + 1]);
        }
        if i - 1 < index.skip(1).len() {
            assert(index.skip(1)[i - 1] == index[i]);
        }
        lemma_find_url_at(index.skip(1), url, i - 1);
    }
}

/// The index record a newly discovered post starts from: first published
/// now, to be converted, already seen by this pass.
pub open spec fn post_of_scan(p: SPostV, now: Timestamp) -> PostV {
    PostV {
        path: p.path,
        post_url: spec_post_url(p.path),
        last_updated: now,
        first_published: now,
        checked: true,
        title: None,
    }
}

/// The result of one reconciliation pass: the new index, the URLs of the
/// posts that must be (re)converted, in discovery order, and how many
/// changes the pass counted.
#[verifier::ext_equal]
pub struct ReconV {
    pub index: Seq<PostV>,
    pub to_convert: Seq<Seq<char>>,
    pub updated: nat,
}

/// Walk the discovered posts: a known post whose directory is newer is
/// marked seen and refreshed and counted; a known, untouched post is only
/// marked seen; an unknown post is appended as new and counted. Every post
/// also has its on-disk path recorded.
pub open spec fn reconcile_scan(index: Seq<PostV>, posts: Seq<SPostV>, now: Timestamp) -> ReconV
    decreases posts.len(),
{
    if posts.len() == 0 {
        ReconV { index, to_convert: seq![], updated: 0 }
    } else {
        let p = posts[0];
        let url = spec_post_url(p.path);
        let step: (Seq<PostV>, Seq<Seq<char>>, nat) = match find_url(index, url) {
            Some(i) => {
                let e = index[i];
                if ts_lt(e.last_updated, p.last_updated) {
                    (
                        index.update(
                            i,
                            PostV { checked: true, path: p.path, last_updated: p.last_updated, ..e },
                        ),
                        seq![url],
                        1nat,
                    )
                } else {
                    (index.update(i, PostV { checked: true, path: p.path, ..e }), seq![], 0nat)
                }
            },
            None => (index.push(post_of_scan(p, now)), seq![url], 1nat),
        };
        let rest = reconcile_scan(step.0, posts.skip(1), now);
        ReconV {
            index: rest.index,
            to_convert: step.1 + rest.to_convert,
            updated: step.2 + rest.updated,
        }
    }
}

/// The records a pass keeps: those it saw on disk, in their existing order.
pub open spec fn prune_unseen(index: Seq<PostV>) -> Seq<PostV>
    decreases index.len(),
{
    if index.len() == 0 {
        seq![]
    } else if index[0].checked {
        seq![index[0]] + prune_unseen(index.skip(1))
    } else {
        prune_unseen(index.skip(1))
    }
}

/// How many records a pass drops: those no longer on disk.
pub open spec fn dropped_count(index: Seq<PostV>) -> nat
    decreases index.len(),
{
    if index.len() == 0 {
        0
    } else if index[0].checked {
        dropped_count(index.skip(1))
    } else {
        1 + dropped_count(index.skip(1))
    }
}

/// What one whole reconciliation pass yields: the walked index with the
/// unseen records dropped, each drop counted as a change too.
pub open spec fn spec_update(index: Seq<PostV>, posts: Seq<SPostV>, now: Timestamp) -> ReconV {
    let r = reconcile_scan(index, posts, now);
    ReconV {
        index: prune_unseen(r.index),
        to_convert: r.to_convert,
        updated: r.updated + dropped_count(r.index),
    }
}

/// No more records can be dropped than the index holds.
proof fn lemma_dropped_le_len(index: Seq<PostV>)
    ensures
        dropped_count(index) <= index.len(),
    decreases index.len(),
{
    if index.len() > 0 {
        lemma_dropped_le_len(index.skip(1));
    }
}

/// Replacing a record with one already marked seen cannot increase how many
/// will be dropped.
proof fn lemma_dropped_update(index: Seq<PostV>, i: int, e: PostV)
    requires
        0 <= i < index.len(),
        e.checked,
    ensures
        dropped_count(index.update(i, e)) <= dropped_count(index),
    decreases index.len(),
{
    if i == 0 {
        assert(index.update(0, e).skip(1) =~= index.skip(1));
    } else {
        assert(index.update(i, e).skip(1) =~= index.skip(1).update(i - 1, e));
        assert(index.update(i, e)[0] == index[0]);
        lemma_dropped_update(index.skip(1), i - 1, e);
    }
}

/// Appending a record already marked seen drops nothing more.
proof fn lemma_dropped_push(index: Seq<PostV>, e: PostV)
    requires
        e.checked,
    ensures
        dropped_count(index.push(e)) == dropped_count(index),
    decreases index.len(),
{
    if index.len() == 0 {
        reveal_with_fuel(dropped_count, 2);
        assert(index.push(e)[0] == e);
        assert(index.push(e).skip(1) =~= Seq::<PostV>::empty());
    } else {
        assert(index.push(e).skip(1) =~= index.skip(1).push(e));
        assert(index.push(e)[0] == index[0]);
        lemma_dropped_push(index.skip(1), e);
    }
}

/// A found position lies in the index and holds the URL searched for.
proof fn lemma_find_url_some(index: Seq<PostV>, url: Seq<char>)
    ensures
        match find_url(index, url) {
            Some(i) => 0 <= i < index.len() && index[i].post_url == url,
            None => true,
        },
    decreases index.len(),
{
    if index.len() > 0 && index[0].post_url != url {
        lemma_find_url_some(index.skip(1), url);
    }
}

/// Walking the discovered posts never increases how many records will be
/// dropped: every record it touches it marks seen.
proof fn lemma_reconcile_dropped(index: Seq<PostV>, posts: Seq<SPostV>, now: Timestamp)
    ensures
        dropped_count(reconcile_scan(index, posts, now).index) <= dropped_count(index),
    decreases posts.len(),
{
    if posts.len() > 0 {
        let p = posts[0];
        let url = spec_post_url(p.path);
        lemma_find_url_some(index, url);
        match find_url(index, url) {
            Some(i) => {
                let e = index[i];
                if ts_lt(e.last_updated, p.last_updated) {
                    let e1 = PostV {
                        checked: true,
                        path: p.path,
                        last_updated: p.last_updated,
                        ..e
                    };
                    lemma_dropped_update(index, i, e1);
                    lemma_reconcile_dropped(index.update(i, e1), posts.skip(1), now);
                } else {
                    let e1 = PostV { checked: true, path: p.path, ..e };
                    lemma_dropped_update(index, i, e1);
                    lemma_reconcile_dropped(index.update(i, e1), posts.skip(1), now);
                }
            },
            None => {
                lemma_dropped_push(index, post_of_scan(p, now));
                lemma_reconcile_dropped(index.push(post_of_scan(p, now)), posts.skip(1), now);
            },
        }
    }
}

/// The blog: the records of every known post, the root directory they live
/// under, and the site-relative URL of the table of contents.
#[derive(Debug)]
pub struct Blog {
    pub index: Vec<IndexedBlogPost>,
    pub path: String,
    pub index_url: String,
}

impl Blog {
    /// An empty blog rooted at the given directory; the index URL is derived
    /// from the directory's name.
    pub fn new(path: String) -> (r: Blog)
        ensures
            r.index@ == Seq::<IndexedBlogPost>::empty(),
            r.path@ == path@,
            r.index_url@ == "/"@ + basename(trim_slashes(path@)) + "/"@,
    {
        let (b0, b1) = basename_bounds(path.as_str());
        let mut index_url = String::from_str("/");
        index_url.append(path.as_str().substring_char(b0, b1));
        index_url.append("/");
        Blog { index: Vec::new(), path, index_url }
    }

    /// Append one record to the index.
    pub fn push(&mut self, post: IndexedBlogPost)
        ensures
            final(self).index@ == old(self).index@.push(post),
            final(self).path == old(self).path,
            final(self).index_url == old(self).index_url,
    {
        self.index.push(post);
    }

    /// The position of the record with the given URL, if the index holds
    /// one.
    pub fn find_by_url(&self, url: &str) -> (r: Option<usize>)
        ensures
            match r {
                Some(i) => i < self.index@.len() && find_url(index_view(self.index@), url@)
                    == Some(i as int),
                None => find_url(index_view(self.index@), url@) is None,
            },
    {
        let target = String::from_str(url);
        let n = self.index.len();
        let mut j: usize = 0;
        while j < n
            invariant
                j <= n,
                n == self.index@.len(),
                target@ == url@,
                forall|k: int| 0 <= k < j ==> index_view(self.index@)[k].post_url != url@,
            decreases n - j,
        {
            let hit = self.index[j].post_url == target;
            proof {
                assert(index_view(self.index@)[j as int] == self.index@[j as int]@);
            }
            if hit {
                proof {
                    lemma_find_url_at(index_view(self.index@), url@, j as int);
                }
                return Some(j);
            }
            j += 1;
        }
        proof {
            lemma_find_url_at(index_view(self.index@), url@, n as int);
        }
        None
    }

    /// The position of the record for a scanned post directory, found by the
    /// URL its path derives, never by the absolute path itself.
    pub fn find_in_index(&self, post: &ScannedPost) -> (r: Option<usize>)
        ensures
            match r {
                Some(i) => i < self.index@.len() && find_url(
                    index_view(self.index@),
                    spec_post_url(post.path@),
                ) == Some(i as int),
                None => find_url(index_view(self.index@), spec_post_url(post.path@)) is None,
            },
    {
        let url = post_url_from_path(post.path.as_str());
        self.find_by_url(url.as_str())
    }

    /// Keep the subdirectories that hold the post marker file; the others
    /// are not posts and are ignored.
    pub fn list_posts(&self, dirs: Vec<ScannedDir>) -> (r: Vec<ScannedPost>)
        ensures
            r@.map_values(|p: ScannedPost| p@) == select_posts(
                dirs@.map_values(|d: ScannedDir| d@),
            ),
    {
        let ghost all = dirs@.map_values(|d: ScannedDir| d@);
        let mut remaining = dirs;
        let mut posts: Vec<ScannedPost> = Vec::new();
        proof {
            assert(remaining@.map_values(|d: ScannedDir| d@) =~= all);
        }
        while remaining.len() > 0
            invariant
                select_posts(all) == posts@.map_values(|p: ScannedPost| p@) + select_posts(
                    remaining@.map_values(|d: ScannedDir| d@),
                ),
            decreases remaining.len(),
        {
            let ghost before = remaining@.map_values(|d: ScannedDir| d@);
            let dir = remaining.remove(0);
            proof {
                assert(remaining@.map_values(|d: ScannedDir| d@) =~= before.skip(1));
                assert(before[0] == dir@);
            }
            let marker = String::from_str("index.md");
            let mut found = false;
            let m = dir.files.len();
            let mut k: usize = 0;
            while k < m
                invariant
                    k <= m,
                    m == dir.files@.len(),
                    found <==> exists|j: int|
                        0 <= j < k && (#[trigger] dir.files@[j])@ == "index.md"@,
                    marker@ == "index.md"@,
                decreases m - k,
            {
                let hit = dir.files[k] == marker;
                if hit {
                    found = true;
                    proof {
                        assert(dir.files@[k as int]@ == "index.md"@);
                    }
                }
                k += 1;
            }
            let ghost posts0 = posts@;
            if found {
                proof {
                    let j = choose|j: int| 0 <= j < m && (#[trigger] dir.files@[j])@
                        == "index.md"@;
                    assert(dir@.files[j] == "index.md"@);
                    assert(has_marker(dir@.files));
                }
                posts.push(dir.entry);
                proof {
                    assert(posts@.map_values(|p: ScannedPost| p@) =~= posts0.map_values(
                        |p: ScannedPost| p@,
                    ) + seq![dir@.entry]);
                    assert(posts0.map_values(|p: ScannedPost| p@) + (seq![dir@.entry]
                        + select_posts(before.skip(1))) =~= posts@.map_values(|p: ScannedPost| p@)
                        + select_posts(before.skip(1)));
                }
            } else {
                proof {
                    assert(!has_marker(dir@.files)) by {
                        assert forall|j: int|
                            0 <= j < dir@.files.len() implies dir@.files[j] != "index.md"@ by {
                            assert(dir@.files[j] == dir.files@[j]@);
                        }
                    }
                }
            }
        }
        proof {
            assert(remaining@.map_values(|d: ScannedDir| d@) =~= Seq::<DirV>::empty());
            assert(posts@.map_values(|p: ScannedPost| p@) + seq![] =~= posts@.map_values(
                |p: ScannedPost| p@,
            ));
        }
        posts
    }

    /// One reconciliation pass: walk the discovered post directories against
    /// the index, mark what was seen, refresh what changed, append what is
    /// new, and drop what has disappeared. Returns the URLs of the posts
    /// that must be (re)converted, in discovery order, and how many changes
    /// the pass counted; a removal counts just as an addition does.
    pub fn update(&mut self, posts: Vec<ScannedPost>, now: Timestamp) -> (r: (Vec<String>, usize))
        requires
            old(self).index@.len() + posts@.len() <= usize::MAX,
        ensures
            final(self).path == old(self).path,
            final(self).index_url == old(self).index_url,
            ({
                let outcome = spec_update(
                    index_view(old(self).index@),
                    posts@.map_values(|p: ScannedPost| p@),
                    now,
                );
                &&& index_view(final(self).index@) == outcome.index
                &&& r.0@.map_values(|u: String| u@) == outcome.to_convert
                &&& r.1 == outcome.updated
            }),
    {
        let ghost all_posts = posts@.map_values(|p: ScannedPost| p@);
        let ghost orig_index = index_view(self.index@);
        let ghost total = reconcile_scan(orig_index, all_posts, now);
        let mut remaining = posts;
        let mut to_convert: Vec<String> = Vec::new();
        let mut num_updated: usize = 0;
        proof {
            assert(remaining@.map_values(|p: ScannedPost| p@) =~= all_posts);
            assert(seq![] + total.to_convert =~= total.to_convert);
            assert(to_convert@.map_values(|u: String| u@) =~= Seq::<Seq<char>>::empty());
        }
        while remaining.len() > 0
            invariant
                self.path == old(self).path,
                self.index_url == old(self).index_url,
                all_posts.len() + orig_index.len() <= usize::MAX,
                total == reconcile_scan(orig_index, all_posts, now),
                num_updated + remaining@.len() <= all_posts.len(),
                ({
                    let rest = reconcile_scan(
                        index_view(self.index@),
                        remaining@.map_values(|p: ScannedPost| p@),
                        now,
                    );
                    &&& total.index == rest.index
                    &&& total.to_convert == to_convert@.map_values(|u: String| u@)
                        + rest.to_convert
                    &&& total.updated == num_updated + rest.updated
                }),
            decreases remaining.len(),
        {
            let ghost pre_posts = remaining@.map_values(|p: ScannedPost| p@);
            let ghost pre_index = index_view(self.index@);
            let ghost tc0 = to_convert@;
            let p = remaining.remove(0);
            proof {
                assert(remaining@.map_values(|q: ScannedPost| q@) =~= pre_posts.skip(1));
                assert(pre_posts[0] == p@);
            }
            let url = post_url_from_path(p.path.as_str());
            match self.find_by_url(url.as_str()) {
                Some(i) => {
                    let ghost e_spec = pre_index[i as int];
                    let e = self.index.remove(i);
                    proof {
                        assert(e@ == e_spec);
                    }
                    let newer = e.last_updated.is_before(&p.last_updated);
                    let refreshed_time = if newer {
                        p.last_updated
                    } else {
                        e.last_updated
                    };
                    let refreshed = IndexedBlogPost {
                        checked: true,
                        path: p.path,
                        last_updated: refreshed_time,
                        ..e
                    };
                    let ghost refreshed_spec = refreshed@;
                    self.index.insert(i, refreshed);
                    proof {
                        assert(index_view(self.index@) =~= pre_index.update(
                            i as int,
                            refreshed_spec,
                        ));
                        if newer {
                            assert(refreshed_spec =~= (PostV {
                                checked: true,
                                path: p@.path,
                                last_updated: p@.last_updated,
                                ..e_spec
                            }));
                        } else {
                            assert(refreshed_spec =~= (PostV {
                                checked: true,
                                path: p@.path,
                                ..e_spec
                            }));
                        }
                    }
                    if newer {
                        to_convert.push(url);
                        num_updated += 1;
                        proof {
                            assert(to_convert@.map_values(|u: String| u@) =~= tc0.map_values(
                                |u: String| u@,
                            ) + seq![spec_post_url(p@.path)]);
                            let rest = reconcile_scan(
                                index_view(self.index@),
                                pre_posts.skip(1),
                                now,
                            );
                            assert(tc0.map_values(|u: String| u@) + (seq![spec_post_url(p@.path)]
                                + rest.to_convert) =~= to_convert@.map_values(|u: String| u@)
                                + rest.to_convert);
                        }
                    } else {
                        proof {
                            let rest = reconcile_scan(
                                index_view(self.index@),
                                pre_posts.skip(1),
                                now,
                            );
                            assert(tc0.map_values(|u: String| u@) + (seq![] + rest.to_convert)
                                =~= to_convert@.map_values(|u: String| u@) + rest.to_convert);
                        }
                    }
                },
                None => {
                    let fresh = IndexedBlogPost {
                        path: p.path,
                        post_url: url.clone(),
                        last_updated: now,
                        first_published: now,
                        checked: true,
                        title: None,
                    };
                    let ghost fresh_spec = fresh@;
                    self.index.push(fresh);
                    to_convert.push(url);
                    num_updated += 1;
                    proof {
                        assert(fresh_spec =~= post_of_scan(p@, now));
                        assert(index_view(self.index@) =~= pre_index.push(fresh_spec));
                        assert(to_convert@.map_values(|u: String| u@) =~= tc0.map_values(
                            |u: String| u@,
                        ) + seq![spec_post_url(p@.path)]);
                        let rest = reconcile_scan(index_view(self.index@), pre_posts.skip(1), now);
                        assert(tc0.map_values(|u: String| u@) + (seq![spec_post_url(p@.path)]
                            + rest.to_convert) =~= to_convert@.map_values(|u: String| u@)
                            + rest.to_convert);
                    }
                },
            }
        }
        let ghost scan_index = index_view(self.index@);
        proof {
            assert(remaining@.map_values(|p: ScannedPost| p@) =~= Seq::<SPostV>::empty());
            assert(total.index == scan_index);
            assert(total.to_convert =~= to_convert@.map_values(|u: String| u@));
            assert(total.updated == num_updated);
            lemma_reconcile_dropped(orig_index, all_posts, now);
            lemma_dropped_le_len(orig_index);
        }
        let ghost num_after_scan = num_updated as nat;
        let mut kept: Vec<IndexedBlogPost> = Vec::new();
        proof {
            assert(index_view(kept@) =~= Seq::<PostV>::empty());
        }
        while self.index.len() > 0
            invariant
                self.path == old(self).path,
                self.index_url == old(self).index_url,
                num_after_scan + dropped_count(scan_index) <= usize::MAX,
                num_after_scan <= num_updated,
                prune_unseen(scan_index) == index_view(kept@) + prune_unseen(
                    index_view(self.index@),
                ),
                num_updated + dropped_count(index_view(self.index@)) == num_after_scan
                    + dropped_count(scan_index),
            decreases self.index@.len(),
        {
            let ghost cur = index_view(self.index@);
            let ghost kept0 = index_view(kept@);
            let e = self.index.remove(0);
            proof {
                assert(e@ == cur[0]);
                assert(index_view(self.index@) =~= cur.skip(1));
            }
            if e.checked {
                kept.push(e);
                proof {
                    assert(index_view(kept@) =~= kept0.push(cur[0]));
                    assert(kept0 + (seq![cur[0]] + prune_unseen(cur.skip(1)))
                        =~= kept0.push(cur[0]) + prune_unseen(cur.skip(1)));
                }
            } else {
                num_updated += 1;
            }
        }
        proof {
            assert(index_view(self.index@) =~= Seq::<PostV>::empty());
            assert(index_view(kept@) + seq![] =~= index_view(kept@));
        }
        self.index = kept;
        (to_convert, num_updated)
    }
}

/// The index as a fresh load of the store sees it: the transient seen
/// markers are clear.
pub open spec fn clear_checked(index: Seq<PostV>) -> Seq<PostV> {
    index.map_values(|e: PostV| PostV { checked: false, ..e })
}

/// No record misses the URL a search failed on.
proof fn lemma_find_url_none(index: Seq<PostV>, url: Seq<char>)
    requires
        find_url(index, url) is None,
    ensures
        forall|i: int| 0 <= i < index.len() ==> (#[trigger] index[i]).post_url != url,
    decreases index.len(),
{
    if index.len() > 0 {
        lemma_find_url_none(index.skip(1), url);
        assert forall|i: int| 0 <= i < index.len() implies (#[trigger] index[i]).post_url
            != url by {
            if i > 0 {
                assert(index.skip(1)[i - 1] == index[i]);
            }
        }
    }
}

/// Searching by URL sees only the URL column: two indexes that agree on it
/// agree on every search.
proof fn lemma_find_url_same_urls(a: Seq<PostV>, b: Seq<PostV>, url: Seq<char>)
    requires
        a.len() == b.len(),
        forall|i: int| 0 <= i < a.len() ==> (#[trigger] a[i]).post_url == b[i].post_url,
    ensures
        find_url(a, url) == find_url(b, url),
    decreases a.len(),
{
    if a.len() > 0 {
        assert forall|i: int| 0 <= i < a.skip(1).len() implies (#[trigger] a.skip(
            1,
        )[i]).post_url == b.skip(1)[i].post_url by {
            assert(a.skip(1)[i] == a[i + 1]);
            assert(b.skip(1)[i] == b[i + 1]);
        }
        lemma_find_url_same_urls(a.skip(1), b.skip(1), url);
    }
}

/// Appending a record changes a search only when everything before missed.
proof fn lemma_find_url_push(index: Seq<PostV>, e: PostV, url: Seq<char>)
    ensures
        find_url(index.push(e), url) == (match find_url(index, url) {
            Some(i) => Some(i),
            None => if e.post_url == url {
                Some(index.len() as int)
            } else {
                None
            },
        }),
    decreases index.len(),
{
    if index.len() == 0 {
        reveal_with_fuel(find_url, 2);
        assert(index.push(e)[0] == e);
        assert(index.push(e).skip(1) =~= Seq::<PostV>::empty());
    } else {
        assert(index.push(e)[0] == index[0]);
        assert(index.push(e).skip(1) =~= index.skip(1).push(e));
        lemma_find_url_push(index.skip(1), e, url);
    }
}

/// What a pass keeps is exactly what it saw, in order: every kept record is
/// a seen record of the walked index.
proof fn lemma_prune_membership(index: Seq<PostV>)
    ensures
        forall|k: int|
            0 <= k < prune_unseen(index).len() ==> (#[trigger] prune_unseen(index)[k]).checked
                && exists|m: int| 0 <= m < index.len() && index[m] == prune_unseen(index)[k],
    decreases index.len(),
{
    if index.len() > 0 {
        lemma_prune_membership(index.skip(1));
        let p = prune_unseen(index);
        assert forall|k: int| 0 <= k < p.len() implies (#[trigger] p[k]).checked && exists|m: int|
            0 <= m < index.len() && index[m] == p[k] by {
            if index[0].checked {
                if k == 0 {
                    assert(p[0] == index[0]);
                    assert(index[0] == index[0]);
                } else {
                    assert(p[k] == prune_unseen(index.skip(1))[k - 1]);
                    let m0 = choose|m: int|
                        0 <= m < index.skip(1).len() && index.skip(1)[m] == prune_unseen(
                            index.skip(1),
                        )[k - 1];
                    assert(index[m0 + 1] == p[k]);
                }
            } else {
                let m0 = choose|m: int|
                    0 <= m < index.skip(1).len() && index.skip(1)[m] == prune_unseen(
                        index.skip(1),
                    )[k];
                assert(index[m0 + 1] == p[k]);
            }
        }
    }
}

/// An index whose records are all marked seen is kept whole, dropping
/// nothing.
proof fn lemma_prune_all_checked(index: Seq<PostV>)
    requires
        forall|i: int| 0 <= i < index.len() ==> (#[trigger] index[i]).checked,
    ensures
        prune_unseen(index) == index,
        dropped_count(index) == 0,
    decreases index.len(),
{
    if index.len() > 0 {
        assert forall|i: int| 0 <= i < index.skip(1).len() implies (#[trigger] index.skip(
            1,
        )[i]).checked by {
            assert(index.skip(1)[i] == index[i + 1]);
        }
        lemma_prune_all_checked(index.skip(1));
        assert(seq![index[0]] + index.skip(1) =~= index);
    }
}

/// A search hitting a seen record still hits that very record after the
/// unseen ones are dropped.
proof fn lemma_prune_find(index: Seq<PostV>, url: Seq<char>)
    requires
        find_url(index, url) is Some,
        index[find_url(index, url)->Some_0].checked,
    ensures
        find_url(prune_unseen(index), url) is Some,
        prune_unseen(index)[find_url(prune_unseen(index), url)->Some_0] == index[find_url(
            index,
            url,
        )->Some_0],
    decreases index.len(),
{
    lemma_find_url_some(index, url);
    let i = find_url(index, url)->Some_0;
    let p = prune_unseen(index);
    if index[0].post_url == url {
        assert(i == 0);
        assert(p =~= seq![index[0]] + prune_unseen(index.skip(1)));
        assert(p[0] == index[0]);
        assert(find_url(p, url) == Some(0int));
    } else {
        assert(i >= 1);
        assert(find_url(index.skip(1), url) == Some(i - 1));
        assert(index.skip(1)[i - 1] == index[i]);
        lemma_prune_find(index.skip(1), url);
        let p1 = prune_unseen(index.skip(1));
        let k1 = find_url(p1, url)->Some_0;
        lemma_find_url_some(p1, url);
        if index[0].checked {
            assert(p =~= seq![index[0]] + p1);
            assert(p.skip(1) =~= p1);
            assert(p[0] == index[0]);
            assert(find_url(p, url) == Some(k1 + 1));
            assert(p[k1 + 1] == p1[k1]);
        } else {
            assert(p =~= p1);
        }
    }
}

/// Among records with pairwise distinct URLs, each one is the record its
/// own URL finds.
proof fn lemma_find_self_distinct(index: Seq<PostV>, k: int)
    requires
        0 <= k < index.len(),
        forall|i: int, j: int|
            0 <= i < j < index.len() ==> (#[trigger] index[i]).post_url != (
            #[trigger] index[j]).post_url,
    ensures
        find_url(index, index[k].post_url) == Some(k),
{
    lemma_find_url_at(index, index[k].post_url, k);
}

/// Dropping the unseen records keeps URLs pairwise distinct when the seen
/// ones were.
proof fn lemma_prune_distinct(index: Seq<PostV>)
    requires
        forall|i: int, j: int|
            0 <= i < j < index.len() && (#[trigger] index[i]).checked && (
            #[trigger] index[j]).checked ==> index[i].post_url != index[j].post_url,
    ensures
        forall|i: int, j: int|
            0 <= i < j < prune_unseen(index).len() ==> (#[trigger] prune_unseen(
                index,
            )[i]).post_url != (#[trigger] prune_unseen(index)[j]).post_url,
    decreases index.len(),
{
    if index.len() > 0 {
        assert forall|i: int, j: int|
            0 <= i < j < index.skip(1).len() && (#[trigger] index.skip(1)[i]).checked && (
            #[trigger] index.skip(1)[j]).checked implies index.skip(1)[i].post_url != index.skip(
            1,
        )[j].post_url by {
            assert(index.skip(1)[i] == index[i + 1]);
            assert(index.skip(1)[j] == index[j + 1]);
        }
        lemma_prune_distinct(index.skip(1));
        let p = prune_unseen(index);
        let p1 = prune_unseen(index.skip(1));
        lemma_prune_membership(index.skip(1));
        if index[0].checked {
            assert forall|i: int, j: int| 0 <= i < j < p.len() implies (
            #[trigger] p[i]).post_url != (#[trigger] p[j]).post_url by {
                assert(p =~= seq![index[0]] + p1);
                if i == 0 {
                    let m0 = choose|m: int|
                        0 <= m < index.skip(1).len() && index.skip(1)[m] == p1[j - 1];
                    assert(index[m0 + 1] == p1[j - 1]);
                    assert(index[m0 + 1].checked);
                } else {
                    assert(p[i] == p1[i - 1]);
                    assert(p[j] == p1[j - 1]);
                }
            }
        }
    }
}

/// A record is hit when some listed post's URL finds it.
pub open spec fn hit_by(index: Seq<PostV>, posts: Seq<SPostV>, i: int) -> bool {
    exists|j: int|
        0 <= j < posts.len() && find_url(index, spec_post_url(#[trigger] posts[j].path)) == Some(i)
}

/// What one walk of the listed posts guarantees, provided no two listed
/// directories share a URL and a post not yet in the index was not modified
/// after the pass's clock reading: every post's URL afterwards finds a seen
/// record that is at least as new and carries the post's path; records no
/// post hits are untouched; what the walk appended or newly marked seen
/// belongs to some post and is the first record of its URL.
proof fn lemma_scan_sync(index: Seq<PostV>, posts: Seq<SPostV>, now: Timestamp)
    requires
        forall|j: int, k: int|
            0 <= j < k < posts.len() ==> spec_post_url((#[trigger] posts[j]).path)
                != spec_post_url((#[trigger] posts[k]).path),
        forall|j: int|
            0 <= j < posts.len() ==> (find_url(index, spec_post_url(#[trigger] posts[j].path))
                is None ==> !ts_lt(now, posts[j].last_updated)),
    ensures
        ({
            let scanned = reconcile_scan(index, posts, now).index;
            &&& scanned.len() >= index.len()
            &&& forall|i: int|
                0 <= i < index.len() ==> (#[trigger] scanned[i]).post_url == index[i].post_url
            &&& forall|i: int|
                0 <= i < index.len() && !hit_by(index, posts, i) ==> #[trigger] scanned[i]
                    == index[i]
            &&& forall|j: int|
                0 <= j < posts.len() ==> match find_url(
                    scanned,
                    spec_post_url(#[trigger] posts[j].path),
                ) {
                    Some(i) => 0 <= i < scanned.len() && scanned[i].checked && scanned[i].path
                        == posts[j].path && !ts_lt(
                        scanned[i].last_updated,
                        posts[j].last_updated,
                    ),
                    None => false,
                }
            &&& forall|i: int|
                0 <= i < scanned.len() && (#[trigger] scanned[i]).checked && (i >= index.len()
                    || !index[i].checked) ==> (exists|j: int|
                    0 <= j < posts.len() && scanned[i].post_url == spec_post_url(
                        posts[j].path,
                    )) && find_url(scanned, scanned[i].post_url) == Some(i)
        }),
    decreases posts.len(),
{
    if posts.len() == 0 {
    } else {
        let p = posts[0];
        let url = spec_post_url(p.path);
        lemma_find_url_some(index, url);
        let scanned = reconcile_scan(index, posts, now).index;
        assert forall|j: int, k: int|
            0 <= j < k < posts.skip(1).len() implies spec_post_url((#[trigger] posts.skip(
            1,
        )[j]).path) != spec_post_url((#[trigger] posts.skip(1)[k]).path) by {
            assert(posts.skip(1)[j] == posts[j + 1]);
            assert(posts.skip(1)[k] == posts[k + 1]);
        }
        match find_url(index, url) {
            Some(i0) => {
                let e = index[i0];
                let e1 = if ts_lt(e.last_updated, p.last_updated) {
                    PostV { checked: true, path: p.path, last_updated: p.last_updated, ..e }
                } else {
                    PostV { checked: true, path: p.path, ..e }
                };
                let index1 = index.update(i0, e1);
                assert(reconcile_scan(index, posts, now).index == reconcile_scan(
                    index1,
                    posts.skip(1),
                    now,
                ).index);
                assert forall|u: Seq<char>| find_url(index1, u) == find_url(index, u) by {
                    lemma_find_url_same_urls(index1, index, u);
                }
                assert forall|j: int|
                    0 <= j < posts.skip(1).len() implies (find_url(
                    index1,
                    spec_post_url(#[trigger] posts.skip(1)[j].path),
                ) is None ==> !ts_lt(now, posts.skip(1)[j].last_updated)) by {
                    assert(posts.skip(1)[j] == posts[j + 1]);
                }
                lemma_scan_sync(index1, posts.skip(1), now);
                // the record this post refreshed is hit by no later post,
                // so the rest of the walk leaves it alone
                assert(!hit_by(index1, posts.skip(1), i0)) by {
                    if hit_by(index1, posts.skip(1), i0) {
                        let j = choose|j: int|
                            0 <= j < posts.skip(1).len() && find_url(
                                index1,
                                spec_post_url(#[trigger] posts.skip(1)[j].path),
                            ) == Some(i0);
                        lemma_find_url_some(index1, spec_post_url(posts.skip(1)[j].path));
                        assert(posts.skip(1)[j] == posts[j + 1]);
                        assert(spec_post_url(posts[j + 1].path) == url);
                    }
                }
                assert(scanned[i0] == e1);
                assert(find_url(scanned, url) == Some(i0)) by {
                    assert forall|t: int| 0 <= t < i0 implies (#[trigger] scanned[t]).post_url
                        != url by {
                        lemma_find_url_at_miss(index, url, t);
                    }
                    lemma_find_url_at(scanned, url, i0);
                }
                assert forall|i: int|
                    0 <= i < index.len() && !hit_by(index, posts, i) implies #[trigger] scanned[i]
                        == index[i] by {
                    assert(i != i0);
                    assert(!hit_by(index1, posts.skip(1), i)) by {
                        if hit_by(index1, posts.skip(1), i) {
                            let j = choose|j: int|
                                0 <= j < posts.skip(1).len() && find_url(
                                    index1,
                                    spec_post_url(#[trigger] posts.skip(1)[j].path),
                                ) == Some(i);
                            assert(posts.skip(1)[j] == posts[j + 1]);
                            assert(find_url(index, spec_post_url(posts[j + 1].path)) == Some(i));
                        }
                    }
                }
                assert forall|j: int|
                    0 <= j < posts.len() implies match find_url(
                    scanned,
                    spec_post_url(#[trigger] posts[j].path),
                ) {
                    Some(i) => 0 <= i < scanned.len() && scanned[i].checked && scanned[i].path
                        == posts[j].path && !ts_lt(
                        scanned[i].last_updated,
                        posts[j].last_updated,
                    ),
                    None => false,
                } by {
                    if j > 0 {
                        assert(posts.skip(1)[j - 1] == posts[j]);
                    }
                }
                assert forall|i: int|
                    0 <= i < scanned.len() && (#[trigger] scanned[i]).checked && (i >= index.len()
                        || !index[i].checked) implies (exists|j: int|
                    0 <= j < posts.len() && scanned[i].post_url == spec_post_url(
                        posts[j].path,
                    )) && find_url(scanned, scanned[i].post_url) == Some(i) by {
                    if i == i0 {
                        assert(scanned[i0].post_url == spec_post_url(posts[0].path));
                    } else {
                        assert(i >= index1.len() || !index1[i].checked);
                        let j = choose|j: int|
                            0 <= j < posts.skip(1).len() && scanned[i].post_url == spec_post_url(
                                posts.skip(1)[j].path,
                            );
                        assert(posts.skip(1)[j] == posts[j + 1]);
                        assert(scanned[i].post_url == spec_post_url(posts[j + 1].path));
                    }
                }
            },
            None => {
                lemma_find_url_none(index, url);
                let fresh = post_of_scan(p, now);
                let index1 = index.push(fresh);
                assert(reconcile_scan(index, posts, now).index == reconcile_scan(
                    index1,
                    posts.skip(1),
                    now,
                ).index);
                assert forall|j: int|
                    0 <= j < posts.skip(1).len() implies (find_url(
                    index1,
                    spec_post_url(#[trigger] posts.skip(1)[j].path),
                ) is None ==> !ts_lt(now, posts.skip(1)[j].last_updated)) by {
                    assert(posts.skip(1)[j] == posts[j + 1]);
                    lemma_find_url_push(index, fresh, spec_post_url(posts[j + 1].path));
                }
                lemma_scan_sync(index1, posts.skip(1), now);
                let at = index.len() as int;
                assert(index1[at] == fresh);
                assert(index1[at].checked);
                assert(!hit_by(index1, posts.skip(1), at)) by {
                    if hit_by(index1, posts.skip(1), at) {
                        let j = choose|j: int|
                            0 <= j < posts.skip(1).len() && find_url(
                                index1,
                                spec_post_url(#[trigger] posts.skip(1)[j].path),
                            ) == Some(at);
                        lemma_find_url_some(index1, spec_post_url(posts.skip(1)[j].path));
                        assert(posts.skip(1)[j] == posts[j + 1]);
                        assert(spec_post_url(posts[j + 1].path) == url);
                    }
                }
                assert(scanned[at] == fresh);
                assert(find_url(scanned, url) == Some(at)) by {
                    assert forall|t: int| 0 <= t < at implies (#[trigger] scanned[t]).post_url
                        != url by {}
                    lemma_find_url_at(scanned, url, at);
                }
                assert(!ts_lt(scanned[at].last_updated, p.last_updated));
                assert forall|i: int|
                    0 <= i < index.len() && !hit_by(index, posts, i) implies #[trigger] scanned[i]
                        == index[i] by {
                    assert(!hit_by(index1, posts.skip(1), i)) by {
                        if hit_by(index1, posts.skip(1), i) {
                            let j = choose|j: int|
                                0 <= j < posts.skip(1).len() && find_url(
                                    index1,
                                    spec_post_url(#[trigger] posts.skip(1)[j].path),
                                ) == Some(i);
                            assert(posts.skip(1)[j] == posts[j + 1]);
                            lemma_find_url_push(index, fresh, spec_post_url(posts[j + 1].path));
                            assert(find_url(index, spec_post_url(posts[j + 1].path)) == Some(i));
                        }
                    }
                }
                assert forall|j: int|
                    0 <= j < posts.len() implies match find_url(
                    scanned,
                    spec_post_url(#[trigger] posts[j].path),
                ) {
                    Some(i) => 0 <= i < scanned.len() && scanned[i].checked && scanned[i].path
                        == posts[j].path && !ts_lt(
                        scanned[i].last_updated,
                        posts[j].last_updated,
                    ),
                    None => false,
                } by {
                    if j > 0 {
                        assert(posts.skip(1)[j - 1] == posts[j]);
                    }
                }
                assert forall|i: int|
                    0 <= i < scanned.len() && (#[trigger] scanned[i]).checked && (i >= index.len()
                        || !index[i].checked) implies (exists|j: int|
                    0 <= j < posts.len() && scanned[i].post_url == spec_post_url(
                        posts[j].path,
                    )) && find_url(scanned, scanned[i].post_url) == Some(i) by {
                    if i == at {
                        assert(scanned[at].post_url == spec_post_url(posts[0].path));
                    } else if i > at || (i < at && !index1[i].checked) {
                        let j = choose|j: int|
                            0 <= j < posts.skip(1).len() && scanned[i].post_url == spec_post_url(
                                posts.skip(1)[j].path,
                            );
                        assert(posts.skip(1)[j] == posts[j + 1]);
                        assert(scanned[i].post_url == spec_post_url(posts[j + 1].path));
                    }
                }
            },
        }
    }
}

/// A pass over an index that is already in step with the listing does
/// nothing: when every post's URL finds a record at least as new, already
/// carrying the post's path, the pass converts nothing, counts nothing, and
/// at most marks records seen.
proof fn lemma_noop_pass(index: Seq<PostV>, posts: Seq<SPostV>, now2: Timestamp)
    requires
        forall|j: int, k: int|
            0 <= j < k < posts.len() ==> spec_post_url((#[trigger] posts[j]).path)
                != spec_post_url((#[trigger] posts[k]).path),
        forall|i: int, k: int|
            0 <= i < k < index.len() ==> (#[trigger] index[i]).post_url != (
            #[trigger] index[k]).post_url,
        forall|j: int|
            0 <= j < posts.len() ==> match find_url(
                index,
                spec_post_url(#[trigger] posts[j].path),
            ) {
                Some(i) => index[i].path == posts[j].path && !ts_lt(
                    index[i].last_updated,
                    posts[j].last_updated,
                ),
                None => false,
            },
    ensures
        ({
            let r = reconcile_scan(index, posts, now2);
            &&& r.updated == 0
            &&& r.to_convert == Seq::<Seq<char>>::empty()
            &&& r.index.len() == index.len()
            &&& forall|i: int|
                0 <= i < index.len() ==> (#[trigger] r.index[i] == index[i]) || r.index[i] == (
                PostV { checked: true, ..index[i] })
            &&& forall|i: int|
                0 <= i < index.len() && (#[trigger] index[i]).checked ==> r.index[i] == index[i]
            &&& forall|i: int|
                0 <= i < index.len() && hit_by(index, posts, i) ==> #[trigger] r.index[i] == (
                PostV { checked: true, ..index[i] })
        }),
    decreases posts.len(),
{
    if posts.len() == 0 {
        assert(seq![] =~= Seq::<Seq<char>>::empty());
    } else {
        let p = posts[0];
        let url = spec_post_url(p.path);
        lemma_find_url_some(index, url);
        let i0 = find_url(index, url)->Some_0;
        let e = index[i0];
        assert(!ts_lt(e.last_updated, p.last_updated));
        let e1 = PostV { checked: true, path: p.path, ..e };
        assert(e1 =~= (PostV { checked: true, ..e }));
        let index1 = index.update(i0, e1);
        assert(reconcile_scan(index, posts, now2) == (ReconV {
            index: reconcile_scan(index1, posts.skip(1), now2).index,
            to_convert: seq![] + reconcile_scan(index1, posts.skip(1), now2).to_convert,
            updated: 0 + reconcile_scan(index1, posts.skip(1), now2).updated,
        }));
        assert forall|u: Seq<char>| find_url(index1, u) == find_url(index, u) by {
            lemma_find_url_same_urls(index1, index, u);
        }
        assert forall|j: int, k: int|
            0 <= j < k < posts.skip(1).len() implies spec_post_url((#[trigger] posts.skip(
            1,
        )[j]).path) != spec_post_url((#[trigger] posts.skip(1)[k]).path) by {
            assert(posts.skip(1)[j] == posts[j + 1]);
            assert(posts.skip(1)[k] == posts[k + 1]);
        }
        assert forall|j: int|
            0 <= j < posts.skip(1).len() implies match find_url(
            index1,
            spec_post_url(#[trigger] posts.skip(1)[j].path),
        ) {
            Some(i) => index1[i].path == posts.skip(1)[j].path && !ts_lt(
                index1[i].last_updated,
                posts.skip(1)[j].last_updated,
            ),
            None => false,
        } by {
            assert(posts.skip(1)[j] == posts[j + 1]);
            let uj = spec_post_url(posts[j + 1].path);
            lemma_find_url_some(index, uj);
            match find_url(index, uj) {
                Some(i) => {
                    if i == i0 {
                        assert(index[i0].post_url == uj);
                        assert(index[i0].post_url == url);
                    } else {
                        assert(index1[i] == index[i]);
                    }
                },
                None => {},
            }
        }
        lemma_noop_pass(index1, posts.skip(1), now2);
        let r = reconcile_scan(index, posts, now2);
        let r1 = reconcile_scan(index1, posts.skip(1), now2);
        assert(seq![] + r1.to_convert =~= r1.to_convert);
        assert forall|i: int|
            0 <= i < index.len() implies (#[trigger] r.index[i] == index[i]) || r.index[i] == (
        PostV { checked: true, ..index[i] }) by {
            if i == i0 {
                assert(index1[i0] == e1);
                assert(r1.index[i0] == index1[i0] || r1.index[i0] == (PostV {
                    checked: true,
                    ..index1[i0]
                }));
                assert((PostV { checked: true, ..index1[i0] }) =~= e1);
            } else {
                assert(index1[i] == index[i]);
            }
        }
        assert forall|i: int|
            0 <= i < index.len() && (#[trigger] index[i]).checked implies r.index[i]
                == index[i] by {
            if i == i0 {
                assert(e1 =~= index[i0]);
                assert(index1[i0].checked);
            } else {
                assert(index1[i] == index[i]);
            }
        }
        assert forall|i: int|
            0 <= i < index.len() && hit_by(index, posts, i) implies #[trigger] r.index[i] == (
        PostV { checked: true, ..index[i] }) by {
            if i == i0 {
                assert(index1[i0].checked);
                assert(r1.index[i0] == index1[i0]);
                assert(index1[i0] =~= (PostV { checked: true, ..index[i0] }));
            } else {
                let j = choose|j: int|
                    0 <= j < posts.len() && find_url(
                        index,
                        spec_post_url(#[trigger] posts[j].path),
                    ) == Some(i);
                lemma_find_url_some(index, spec_post_url(posts[j].path));
                if j == 0 {
                    assert(false);
                } else {
                    assert(posts.skip(1)[j - 1] == posts[j]);
                    assert(hit_by(index1, posts.skip(1), i));
                    assert(r1.index[i] == (PostV { checked: true, ..index1[i] }));
                    assert(index1[i] == index[i]);
                }
            }
        }
    }
}

/// Sync is idempotent: a second reconciliation against the same directory
/// listing, run from the index the first pass produced as a fresh load sees
/// it, converts nothing, counts zero changes, and leaves the index exactly
/// as the first pass left it — so the dirty check skips every write and the
/// persisted index stays byte-for-byte what it was. The two passes' clock
/// readings need not agree, but no post unknown to the index may carry a
/// modification time later than the first pass's clock reading, and no two
/// listed directories may derive the same URL.
pub proof fn lemma_update_idempotent(
    index: Seq<PostV>,
    posts: Seq<SPostV>,
    now: Timestamp,
    now2: Timestamp,
)
    requires
        forall|i: int| 0 <= i < index.len() ==> !(#[trigger] index[i]).checked,
        forall|j: int, k: int|
            0 <= j < k < posts.len() ==> spec_post_url((#[trigger] posts[j]).path)
                != spec_post_url((#[trigger] posts[k]).path),
        forall|j: int|
            0 <= j < posts.len() ==> (find_url(index, spec_post_url(#[trigger] posts[j].path))
                is None ==> !ts_lt(now, posts[j].last_updated)),
    ensures
        ({
            let first = spec_update(index, posts, now);
            let second = spec_update(clear_checked(first.index), posts, now2);
            &&& second.updated == 0
            &&& second.to_convert == Seq::<Seq<char>>::empty()
            &&& second.index == first.index
        }),
{
    lemma_scan_sync(index, posts, now);
    let scanned = reconcile_scan(index, posts, now).index;
    let kept = prune_unseen(scanned);
    let cleared = clear_checked(kept);
    lemma_prune_membership(scanned);
    assert(cleared.len() == kept.len());
    assert forall|i: int| 0 <= i < kept.len() implies #[trigger] cleared[i] == (PostV {
        checked: false,
        ..kept[i]
    }) by {}
    // every record the walk marked seen is the first of its URL, so the seen
    // records' URLs are pairwise distinct, and so are the kept ones'
    assert forall|i: int, k: int|
        0 <= i < k < scanned.len() && (#[trigger] scanned[i]).checked && (
        #[trigger] scanned[k]).checked implies scanned[i].post_url != scanned[k].post_url by {
        if scanned[i].post_url == scanned[k].post_url {
            assert(find_url(scanned, scanned[i].post_url) == Some(i));
            assert(find_url(scanned, scanned[k].post_url) == Some(k));
        }
    }
    lemma_prune_distinct(scanned);
    assert forall|i: int, k: int|
        0 <= i < k < cleared.len() implies (#[trigger] cleared[i]).post_url != (
    #[trigger] cleared[k]).post_url by {}
    // each post's URL finds, among the kept records, the very record the
    // walk left for it
    assert forall|j: int|
        0 <= j < posts.len() implies match find_url(
        cleared,
        spec_post_url(#[trigger] posts[j].path),
    ) {
        Some(i) => cleared[i].path == posts[j].path && !ts_lt(
            cleared[i].last_updated,
            posts[j].last_updated,
        ),
        None => false,
    } by {
        let uj = spec_post_url(posts[j].path);
        lemma_prune_find(scanned, uj);
        lemma_find_url_some(kept, uj);
        assert forall|t: int| 0 <= t < kept.len() implies (#[trigger] cleared[t]).post_url
            == kept[t].post_url by {}
        lemma_find_url_same_urls(cleared, kept, uj);
        let k = find_url(kept, uj)->Some_0;
        assert(cleared[k] == (PostV { checked: false, ..kept[k] }));
    }
    // and every kept record is hit by some post
    assert forall|i: int| 0 <= i < cleared.len() implies hit_by(cleared, posts, i) by {
        let m = choose|m: int| 0 <= m < scanned.len() && scanned[m] == kept[i];
        assert(scanned[m].checked);
        assert(m >= index.len() || !index[m].checked);
        let j = choose|j: int|
            0 <= j < posts.len() && scanned[m].post_url == spec_post_url(posts[j].path);
        assert forall|t: int| 0 <= t < kept.len() implies (#[trigger] cleared[t]).post_url
            == kept[t].post_url by {}
        lemma_find_url_same_urls(cleared, kept, spec_post_url(posts[j].path));
        lemma_find_self_distinct(kept, i);
        assert(find_url(cleared, spec_post_url(posts[j].path)) == Some(i));
    }
    lemma_noop_pass(cleared, posts, now2);
    let second_scan = reconcile_scan(cleared, posts, now2);
    assert forall|i: int| 0 <= i < cleared.len() implies #[trigger] second_scan.index[i]
        == kept[i] by {
        assert(second_scan.index[i] == (PostV { checked: true, ..cleared[i] }));
        assert(kept[i].checked);
        assert((PostV { checked: true, ..cleared[i] }) =~= kept[i]);
    }
    assert(second_scan.index =~= kept);
    assert forall|i: int| 0 <= i < kept.len() implies (#[trigger] kept[i]).checked by {}
    lemma_prune_all_checked(kept);
}

/// All the records a search walks past miss its URL.
proof fn lemma_find_url_at_miss(index: Seq<PostV>, url: Seq<char>, t: int)
    requires
        0 <= t,
        match find_url(index, url) {
            Some(i) => t < i,
            None => t < index.len(),
        },
    ensures
        index[t].post_url != url,
    decreases t,
{
    lemma_find_url_some(index, url);
    if t > 0 {
        match find_url(index.skip(1), url) {
            Some(_) => {},
            None => {},
        }
        lemma_find_url_at_miss(index.skip(1), url, t - 1);
        assert(index.skip(1)[t - 1] == index[t]);
    }
}

} // verus!
