//! The blog pages: which posts are listed and in what order, what a page shows
//! of a post, and the post that the new-post form makes.

use vstd::prelude::*;
use pulldown_cmark::{html, Parser};
use crate::models::{NewPost, Post, UtcTime, slugified, slugify};

verus! {

/// The form that submits a new post.
#[derive(Debug)]
pub struct NewPostForm {
    pub title: String,
    pub body: String,
}

/// What a page shows of a single post: its title, its body rendered to HTML, and
/// the URL of its own page.
#[derive(Debug)]
pub struct PostContext {
    pub title: String,
    pub body: String,
    pub url: String,
}

/// Names the HTML that pulldown-cmark renders from the CommonMark text `body`.
pub uninterp spec fn markdown_html(body: Seq<char>) -> Seq<char>;

/// Calls pulldown-cmark: `Parser::new` on `body` (default options), and
/// `html::push_html` of its events into an empty string. The HTML is named, not
/// stated.
#[verifier::external_body]
pub(crate) fn render_markdown(body: &str) -> (rendered: String)
    ensures
        rendered@ == markdown_html(body@),
{
    let mut rendered = String::new();
    html::push_html(&mut rendered, Parser::new(body));
    rendered
}

/// The URL of the page of the post whose slug is `slug`.
pub open spec fn post_url(slug: Seq<char>) -> Seq<char> {
    "/blog/"@ + slug
}

/// Creates the URL for linking to `post`.
pub fn get_post_url(post: &Post) -> (url: String)
    ensures
        url@ == post_url(post.slug@),
{
    let mut url = String::from_str("/blog/");
    url.append(post.slug.as_str());
    url
}

/// Whether `context` shows `post`: the same title, the body rendered to HTML,
/// and the post's URL.
pub open spec fn shows(context: PostContext, post: Post) -> bool {
    &&& context.title@ == post.title@
    &&& context.body@ == markdown_html(post.body@)
    &&& context.url@ == post_url(post.slug@)
}

impl PostContext {
    /// What a page shows of `post`.
    pub fn from_post(post: Post) -> (context: PostContext)
        ensures
            shows(context, post),
    {
        let url = get_post_url(&post);
        let body = render_markdown(post.body.as_str());
        PostContext { url, title: post.title, body }
    }
}

/// The predicate that picks published posts.
pub open spec fn is_published_pred() -> spec_fn(Post) -> bool {
    |p: Post| p.is_published
}

/// The published posts among `posts`, in their order.
pub open spec fn published(posts: Seq<Post>) -> Seq<Post> {
    posts.filter(is_published_pred())
}

/// All published posts of `rows`, in their order.
pub fn get_posts(rows: Vec<Post>) -> (posts: Vec<Post>)
    ensures
        posts@ == published(rows@),
{
    let ghost all = rows@;
    let mut rest = rows;
    let mut posts: Vec<Post> = Vec::new();
    let ghost mut n: int = 0;
    proof {
        reveal_with_fuel(Seq::filter, 1);
        assert(all.take(0) =~= Seq::<Post>::empty());
    }
    while rest.len() > 0
        invariant
            0 <= n <= all.len(),
            rest@ == all.skip(n),
            posts@ == published(all.take(n)),
            all == rows@,
        decreases rest@.len(),
    {
        let p = rest.remove(0);
        proof {
            assert(p == all[n]);
            assert(all.take(n + 1) =~= all.take(n).push(all[n]));
            all.take(n).lemma_filter_push(all[n], is_published_pred());
            assert(all.skip(n + 1) =~= all.skip(n).remove(0));
        }
        if p.is_published {
            posts.push(p);
        }
        proof {
            n = n + 1;
        }
    }
    proof {
        assert(all.take(n) =~= all);
    }
    posts
}

/// Whether `a` is no later than `b`.
pub open spec fn time_le(a: UtcTime, b: UtcTime) -> bool {
    a.seconds < b.seconds || (a.seconds == b.seconds && a.nanos <= b.nanos)
}

/// Whether a post with publish date `a` may be listed before one with publish date
/// `b`, newest first: a later date comes first, and a missing date comes before
/// every date (as the descending order of the database lists them).
pub open spec fn newer_or_same(a: Option<UtcTime>, b: Option<UtcTime>) -> bool {
    match (a, b) {
        (None, _) => true,
        (Some(_), None) => false,
        (Some(x), Some(y)) => time_le(y, x),
    }
}

/// Whether `posts` are listed newest first.
pub open spec fn newest_first(posts: Seq<Post>) -> bool {
    forall|i: int, j: int|
        0 <= i < j < posts.len() ==> newer_or_same(
            #[trigger] posts[i].publish_date,
            #[trigger] posts[j].publish_date,
        )
}

/// Listing newest first is a total order on publish dates: of any two dates one
/// may come first, and the order is transitive.
pub proof fn lemma_newer_or_same_total_order(a: Option<UtcTime>, b: Option<UtcTime>, c: Option<UtcTime>)
    ensures
        newer_or_same(a, a),
        newer_or_same(a, b) || newer_or_same(b, a),
        newer_or_same(a, b) && newer_or_same(b, c) ==> newer_or_same(a, c),
{
}

fn is_newer_or_same(a: &Option<UtcTime>, b: &Option<UtcTime>) -> (r: bool)
    ensures
        r == newer_or_same(*a, *b),
{
    match (a, b) {
        (None, _) => true,
        (Some(_), None) => false,
        (Some(x), Some(y)) => y.seconds < x.seconds || (y.seconds == x.seconds && y.nanos
            <= x.nanos),
    }
}

/// The published posts of `posts`, newest first: exactly the published posts,
/// each as often as it occurs, with later publish dates before earlier ones and
/// posts without a date first.
pub fn newest_published_first(posts: Vec<Post>) -> (sorted: Vec<Post>)
    ensures
        newest_first(sorted@),
        sorted@.to_multiset() == published(posts@).to_multiset(),
{
    let ghost all = posts@;
    let mut rest = posts;
    let mut sorted: Vec<Post> = Vec::new();
    let ghost mut n: int = 0;
    proof {
        reveal_with_fuel(Seq::filter, 1);
        assert(all.take(0) =~= Seq::<Post>::empty());
        broadcast use vstd::seq_lib::group_to_multiset_ensures;
    }
    while rest.len() > 0
        invariant
            0 <= n <= all.len(),
            rest@ == all.skip(n),
            all == posts@,
            newest_first(sorted@),
            sorted@.to_multiset() == published(all.take(n)).to_multiset(),
        decreases rest@.len(),
    {
        let p = rest.remove(0);
        proof {
            assert(p == all[n]);
            assert(all.take(n + 1) =~= all.take(n).push(all[n]));
            all.take(n).lemma_filter_push(all[n], is_published_pred());
            assert(all.skip(n + 1) =~= all.skip(n).remove(0));
        }
        if p.is_published {
            let mut pos: usize = 0;
            while pos < sorted.len() && is_newer_or_same(&sorted[pos].publish_date, &p.publish_date)
                invariant
                    pos <= sorted@.len(),
                    forall|k: int| 0 <= k < pos ==> newer_or_same(
                        #[trigger] sorted@[k].publish_date,
                        p.publish_date,
                    ),
                decreases sorted@.len() - pos,
            {
                pos = pos + 1;
            }
            let ghost old_sorted = sorted@;
            proof {
                if pos < old_sorted.len() {
                    lemma_newer_or_same_total_order(
                        old_sorted[pos as int].publish_date,
                        p.publish_date,
                        p.publish_date,
                    );
                }
            }
            sorted.insert(pos, p);
            proof {
                let s = sorted@;
                assert forall|i: int, j: int| 0 <= i < j < s.len() implies newer_or_same(
                    #[trigger] s[i].publish_date,
                    #[trigger] s[j].publish_date,
                ) by {
                    let i0 = if i < pos { i } else { i - 1 };
                    let j0 = if j < pos { j } else { j - 1 };
                    if i == pos {
                        // the new post against a later one
                        assert(s[j] == old_sorted[j0]);
                        lemma_newer_or_same_total_order(
                            p.publish_date,
                            old_sorted[pos as int].publish_date,
                            old_sorted[j0].publish_date,
                        );
                    } else if j == pos {
                        assert(s[i] == old_sorted[i0]);
                    } else {
                        assert(s[i] == old_sorted[i0]);
                        assert(s[j] == old_sorted[j0]);
                    }
                }
                vstd::seq_lib::to_multiset_insert(old_sorted, pos as int, p);
                vstd::seq_lib::to_multiset_build(published(all.take(n)), p);
            }
        }
        proof {
            n = n + 1;
        }
    }
    proof {
        assert(all.take(n) =~= all);
    }
    sorted
}

/// The blog index: what its page shows of each published post of `posts`, newest
/// first.
pub fn index(posts: Vec<Post>) -> (contexts: Vec<PostContext>)
    ensures
        exists|listed: Seq<Post>|
            {
                &&& newest_first(listed)
                &&& listed.to_multiset() == published(posts@).to_multiset()
                &&& contexts@.len() == listed.len()
                &&& forall|i: int| 0 <= i < listed.len() ==> shows(#[trigger] contexts@[i], listed[i])
            },
{
    let sorted = newest_published_first(posts);
    let ghost listed = sorted@;
    let mut rest = sorted;
    let mut contexts: Vec<PostContext> = Vec::new();
    while rest.len() > 0
        invariant
            contexts@.len() + rest@.len() == listed.len(),
            rest@ == listed.skip(contexts@.len() as int),
            forall|i: int| 0 <= i < contexts@.len() ==> shows(#[trigger] contexts@[i], listed[i]),
        decreases rest@.len(),
    {
        let ghost k = contexts@.len() as int;
        let p = rest.remove(0);
        proof {
            assert(p == listed[k]);
            assert(listed.skip(k + 1) =~= listed.skip(k).remove(0));
        }
        contexts.push(PostContext::from_post(p));
    }
    contexts
}

/// Whether post `i` is the first one whose slug is `slug`.
pub open spec fn is_first_with_slug(posts: Seq<Post>, slug: Seq<char>, i: int) -> bool {
    &&& 0 <= i < posts.len()
    &&& posts[i].slug@ == slug
    &&& forall|j: int| 0 <= j < i ==> posts[j].slug@ != slug
}

/// The first post whose slug is `slug`, if any.
pub open spec fn first_with_slug(posts: Seq<Post>, slug: Seq<char>) -> Option<Post> {
    if exists|i: int| is_first_with_slug(posts, slug, i) {
        Some(posts[choose|i: int| is_first_with_slug(posts, slug, i)])
    } else {
        None
    }
}

/// The post that a post page's URL parameter names: the first of `posts` whose
/// slug is `slug`, if any.
pub fn post_for_slug(posts: Vec<Post>, slug: &String) -> (r: Option<Post>)
    ensures
        r == first_with_slug(posts@, slug@),
        r is None <==> forall|i: int| 0 <= i < posts@.len() ==> posts@[i].slug@ != slug@,
{
    let ghost all = posts@;
    let mut remaining = posts;
    let mut i: usize = 0;
    while i < remaining.len()
        invariant
            remaining@ == all,
            all == posts@,
            i <= all.len(),
            forall|j: int| 0 <= j < i ==> all[j].slug@ != slug@,
        decreases all.len() - i,
    {
        if remaining[i].slug == *slug {
            assert(is_first_with_slug(all, slug@, i as int));
            assert forall|j: int| is_first_with_slug(all, slug@, j) implies j == i by {
                if j > i {
                    assert(all[i as int].slug@ == slug@);
                }
            }
            let p = remaining.remove(i);
            assert(p == all[i as int]);
            return Some(p);
        }
        i = i + 1;
    }
    assert forall|j: int| !is_first_with_slug(all, slug@, j) by {
        if 0 <= j < all.len() {
            assert(all[j].slug@ != slug@);
        }
    }
    None
}

/// The post that a submitted new-post form makes: published now, with the form's
/// title and body, and a slug made from the title.
pub fn new_post_submit(form: &NewPostForm) -> (post: NewPost)
    ensures
        post.title@ == form.title@,
        post.body@ == form.body@,
        post.slug@ == slugified(form.title@),
        post.is_published,
        post.publish_date is Some,
        post.publish_date.unwrap().nanos < 2_000_000_000,
        post.last_modification_date.nanos < 2_000_000_000,
{
    let post_slug = slugify(form.title.as_str());
    NewPost::new(form.title.as_str(), form.body.as_str(), post_slug.as_str())
}

/// Whether `c` is a line break: a carriage return or a line feed.
pub open spec fn is_line_break(c: char) -> bool {
    c == '\r' || c == '\n'
}

/// The predicate that keeps the characters that are no line break.
pub open spec fn not_line_break_pred() -> spec_fn(char) -> bool {
    |c: char| !is_line_break(c)
}

/// `s` with its carriage returns and line feeds taken out, as a title or body
/// typed on one line is cleaned before a draft is saved.
pub fn strip_line_breaks(s: &str) -> (r: String)
    ensures
        r@ == s@.filter(not_line_break_pred()),
{
    let len = s.unicode_len();
    let mut r = String::new();
    let mut i: usize = 0;
    proof {
        reveal_with_fuel(Seq::filter, 1);
        assert(s@.take(0) =~= Seq::<char>::empty());
    }
    while i < len
        invariant
            len == s@.len(),
            i <= len,
            r@ == s@.take(i as int).filter(not_line_break_pred()),
        decreases len - i,
    {
        let c = s.get_char(i);
        proof {
            assert(s@.take(i + 1) =~= s@.take(i as int).push(c));
            s@.take(i as int).lemma_filter_push(c, not_line_break_pred());
        }
        if c != '\r' && c != '\n' {
            let one = s.substring_char(i, i + 1);
            proof {
                assert(one@ =~= seq![c]);
            }
            r.append(one);
        }
        i = i + 1;
    }
    proof {
        assert(s@.take(len as int) =~= s@);
    }
    r
}

} // verus!
