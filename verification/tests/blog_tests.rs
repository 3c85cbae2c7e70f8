use buprestidae::blog::{
    get_post_url, index, new_post_submit, newest_published_first, post_for_slug,
    strip_line_breaks, NewPostForm, PostContext,
};
use buprestidae::get_posts;
use buprestidae::models::{NewPost, Post, UtcTime};

fn post(id: i32, slug: &str, published: bool, date: Option<(i64, u32)>) -> Post {
    Post {
        id,
        title: format!("Title {}", id),
        body: format!("Body *{}*", id),
        slug: slug.to_string(),
        is_published: published,
        publish_date: date.map(|(seconds, nanos)| UtcTime { seconds, nanos }),
        last_modification_date: UtcTime { seconds: 0, nanos: 0 },
    }
}

#[test]
fn post_url_uses_slug() {
    assert_eq!(get_post_url(&post(1, "hello-world", true, None)), "/blog/hello-world");
}

#[test]
fn from_post_renders_markdown() {
    let c = PostContext::from_post(post(3, "third", true, Some((10, 0))));
    assert_eq!(c.title, "Title 3");
    assert_eq!(c.body, "<p>Body <em>3</em></p>\n");
    assert_eq!(c.url, "/blog/third");
    let mut p = post(4, "h", true, None);
    p.body = "# Heading".to_string();
    assert_eq!(PostContext::from_post(p).body, "<h1>Heading</h1>\n");
}

#[test]
fn get_posts_keeps_published_in_order() {
    let rows = vec![
        post(1, "a", true, Some((5, 0))),
        post(2, "b", false, None),
        post(3, "c", true, Some((1, 0))),
    ];
    let ids: Vec<i32> = get_posts(rows).iter().map(|p| p.id).collect();
    assert_eq!(ids, vec![1, 3]);
}

#[test]
fn newest_first_orders_by_publish_date() {
    let rows = vec![
        post(1, "a", true, Some((5, 0))),
        post(2, "b", false, Some((100, 0))),
        post(3, "c", true, Some((7, 0))),
        post(4, "d", true, Some((5, 10))),
        post(5, "e", true, None),
    ];
    let ids: Vec<i32> = newest_published_first(rows).iter().map(|p| p.id).collect();
    assert_eq!(ids, vec![5, 3, 4, 1]);
}

#[test]
fn index_shows_published_newest_first() {
    let rows = vec![post(1, "old", true, Some((1, 0))), post(2, "new", true, Some((2, 0))), post(3, "draft", false, None)];
    let urls: Vec<String> = index(rows).into_iter().map(|c| c.url).collect();
    assert_eq!(urls, vec!["/blog/new".to_string(), "/blog/old".to_string()]);
    assert!(index(Vec::new()).is_empty());
}

#[test]
fn post_for_slug_finds_first() {
    let rows = vec![post(1, "a", true, None), post(2, "b", false, None), post(3, "b", true, None)];
    assert_eq!(post_for_slug(rows.clone(), &"b".to_string()).unwrap().id, 2);
    assert!(post_for_slug(rows, &"z".to_string()).is_none());
}

#[test]
fn new_post_submit_slugifies_title() {
    let form = NewPostForm { title: "Hello, World!".to_string(), body: "text".to_string() };
    let p = new_post_submit(&form);
    assert_eq!(p.title, "Hello, World!");
    assert_eq!(p.body, "text");
    assert_eq!(p.slug, "hello-world");
    assert!(p.is_published);
    assert!(p.publish_date.is_some());
}

#[test]
fn draft_is_unpublished() {
    let d = NewPost::draft("My Draft", "body");
    assert_eq!(d.title, "My Draft");
    assert_eq!(d.slug, "my-draft");
    assert!(!d.is_published);
    assert!(d.publish_date.is_none());
    let n = NewPost::new("T", "B", "t");
    assert!(n.is_published);
    assert!(n.publish_date.unwrap().nanos < 2_000_000_000);
}

#[test]
fn strip_line_breaks_removes_cr_lf() {
    assert_eq!(strip_line_breaks("Title\r\n"), "Title");
    assert_eq!(strip_line_breaks("a\nb\rc"), "abc");
    assert_eq!(strip_line_breaks("héllo"), "héllo");
}

#[test]
fn draft_at_stores_given_time() {
    let t = UtcTime { seconds: 1_488_369_600, nanos: 0 };
    let d = NewPost::draft_at("Hello", "World", t);
    assert_eq!(d.title, "Hello");
    assert_eq!(d.body, "World");
    assert_eq!(d.slug, "hello");
    assert!(!d.is_published);
    assert!(d.publish_date.is_none());
    assert_eq!(d.last_modification_date, t);
}

#[test]
fn new_at_stores_given_times() {
    let t1 = UtcTime { seconds: 1_488_369_600, nanos: 5 };
    let t2 = UtcTime { seconds: 1_488_369_601, nanos: 0 };
    let n = NewPost::new_at("Hello", "World", "hello", t1, t2);
    assert!(n.is_published);
    assert_eq!(n.publish_date, Some(t1));
    assert_eq!(n.last_modification_date, t2);
    assert_eq!(n.slug, "hello");
}
