//! The records of the blog: posts, posts about to be stored, and users.

use vstd::prelude::*;

verus! {

/// A point in time in UTC: whole seconds since the Unix epoch, and the
/// nanoseconds past that second (above 999 999 999 only within a leap second).
#[derive(Clone, Copy, Debug, PartialEq, Eq, Structural)]
pub struct UtcTime {
    pub seconds: i64,
    pub nanos: u32,
}

/// Reads the system clock through `chrono::Utc::now`, and takes the result's
/// `timestamp` and `timestamp_subsec_nanos`. chrono's documentation bounds the
/// nanoseconds below 2 000 000 000 (leap seconds included); nothing else is
/// promised of the value, which rests on the clock. `Utc::now` panics when the
/// system clock reads before the Unix epoch.
#[verifier::external_body]
fn utc_now() -> (t: UtcTime)
    ensures
        t.nanos < 2_000_000_000,
{
    let now = chrono::Utc::now();
    UtcTime { seconds: now.timestamp(), nanos: now.timestamp_subsec_nanos() }
}

/// Whether every character of `s` is a lower-case ASCII letter, an ASCII digit or
/// `-`, no two `-` stand side by side, and `s` neither starts nor ends with `-`.
pub open spec fn is_slug(s: Seq<char>) -> bool {
    &&& forall|i: int|
        0 <= i < s.len() ==> {
            let c = #[trigger] s[i];
            ('a' <= c <= 'z') || ('0' <= c <= '9') || c == '-'
        }
    &&& forall|i: int| 0 <= i < s.len() - 1 ==> !(#[trigger] s[i] == '-' && s[i + 1] == '-')
    &&& s.len() > 0 ==> s[0] != '-' && s.last() != '-'
}

/// Names what `slug::slugify` makes of `s`.
pub uninterp spec fn slugified(s: Seq<char>) -> Seq<char>;

/// Calls `slug::slugify`. Its documentation states that the slug consists of
/// `a`-`z`, `0`-`9` and `-`, never holds two `-` in a row, and never starts or ends
/// with `-`; the transliteration of other characters is not stated, only named.
#[verifier::external_body]
pub(crate) fn slugify(s: &str) -> (slug: String)
    ensures
        slug@ == slugified(s@),
        is_slug(slug@),
{
    slug::slugify(s)
}

/// A stored blog post. A published post has a publish date; `slug` names the
/// post in its URL.
#[derive(Clone, Debug)]
pub struct Post {
    pub id: i32,
    pub title: String,
    pub body: String,
    pub slug: String,
    pub is_published: bool,
    pub publish_date: Option<UtcTime>,
    pub last_modification_date: UtcTime,
}

/// A post about to be stored: a draft, or a post published now.
#[derive(Debug)]
pub struct NewPost {
    pub title: String,
    pub body: String,
    pub slug: String,
    pub is_published: bool,
    pub publish_date: Option<UtcTime>,
    pub last_modification_date: UtcTime,
}

impl NewPost {
    /// An unpublished draft with `title` and `body`, whose slug is made from the
    /// title, last modified at `now`.
    pub fn draft_at(title: &str, body: &str, now: UtcTime) -> (post: NewPost)
        ensures
            post.title@ == title@,
            post.body@ == body@,
            post.slug@ == slugified(title@),
            !post.is_published,
            post.publish_date is None,
            post.last_modification_date == now,
    {
        NewPost {
            title: title.to_owned(),
            body: body.to_owned(),
            slug: slugify(title),
            is_published: false,
            publish_date: None,
            last_modification_date: now,
        }
    }

    /// An unpublished draft with `title` and `body`, whose slug is made from the
    /// title; it was last modified now: `draft_at` the time that the clock read.
    pub fn draft(title: &str, body: &str) -> (post: NewPost)
        ensures
            post.title@ == title@,
            post.body@ == body@,
            post.slug@ == slugified(title@),
            !post.is_published,
            post.publish_date is None,
            post.last_modification_date.nanos < 2_000_000_000,
    {
        let now = utc_now();
        NewPost::draft_at(title, body, now)
    }

    /// A post with `title`, `body` and `slug`, published at `published` and last
    /// modified at `modified`.
    pub fn new_at(title: &str, body: &str, slug: &str, published: UtcTime, modified: UtcTime) -> (post: NewPost)
        ensures
            post.title@ == title@,
            post.body@ == body@,
            post.slug@ == slug@,
            post.is_published,
            post.publish_date == Some(published),
            post.last_modification_date == modified,
    {
        NewPost {
            title: title.to_owned(),
            body: body.to_owned(),
            slug: slug.to_owned(),
            is_published: true,
            publish_date: Some(published),
            last_modification_date: modified,
        }
    }

    /// A post with `title`, `body` and `slug`, published now and last modified now:
    /// `new_at` the two times that the clock read, the publish date first.
    pub fn new(title: &str, body: &str, slug: &str) -> (post: NewPost)
        ensures
            post.title@ == title@,
            post.body@ == body@,
            post.slug@ == slug@,
            post.is_published,
            post.publish_date is Some,
            post.publish_date.unwrap().nanos < 2_000_000_000,
            post.last_modification_date.nanos < 2_000_000_000,
    {
        let published = utc_now();
        let modified = utc_now();
        NewPost::new_at(title, body, slug, published, modified)
    }
}

/// An author who may log in. `code` is the base32 secret of the author's
/// time-based one-time passwords.
#[derive(Clone, Debug)]
pub struct User {
    pub id: i32,
    pub name: String,
    pub display_name: String,
    pub email: String,
    pub code: String,
}

/// The mathematical value of a [`User`]: its fields, the strings taken as
/// sequences of characters.
pub struct UserModel {
    pub id: i32,
    pub name: Seq<char>,
    pub display_name: Seq<char>,
    pub email: Seq<char>,
    pub code: Seq<char>,
}

impl View for User {
    type V = UserModel;

    open spec fn view(&self) -> UserModel {
        UserModel {
            id: self.id,
            name: self.name@,
            display_name: self.display_name@,
            email: self.email@,
            code: self.code@,
        }
    }
}

impl User {
    /// A copy of this user, field by field.
    pub fn duplicate(&self) -> (r: User)
        ensures
            r@ == self@,
    {
        User {
            id: self.id,
            name: self.name.clone(),
            display_name: self.display_name.clone(),
            email: self.email.clone(),
            code: self.code.clone(),
        }
    }
}

} // verus!
