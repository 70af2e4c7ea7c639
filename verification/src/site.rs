use crate::date::{lemma_not_after_transitive, lemma_order_trichotomy, Date};
use crate::entry::{build_entry, planned_entry, BlogEntry, BuildError, EntryView, SourceFile};
use crate::math::has_math;
use crate::metadata::body;
use crate::text::same_text;
use vstd::prelude::*;

verus! {

/// The views of some posts, one by one.
pub open spec fn entry_views(entries: Seq<BlogEntry>) -> Seq<EntryView> {
    Seq::new(entries.len(), |k: int| entries[k]@)
}

/// The posts stand with the most recent first: none is followed by one of a
/// later date.
pub open spec fn newest_first(s: Seq<EntryView>) -> bool {
    forall|i: int, j: int| 0 <= i < j < s.len() ==> s[j].date.not_after(s[i].date)
}

/// Those of the posts that are dated `d`, in the order in which they stand.
pub open spec fn on_day(s: Seq<EntryView>, d: Date) -> Seq<EntryView>
    decreases s.len(),
{
    if s.len() == 0 {
        Seq::empty()
    } else if s.last().date == d {
        on_day(s.drop_last(), d).push(s.last())
    } else {
        on_day(s.drop_last(), d)
    }
}

/// The first position from `from` on at which `s` holds a post dated before
/// `d`, or the length of `s` where it holds none.
pub open spec fn slot_from(s: Seq<EntryView>, d: Date, from: int) -> int
    recommends
        0 <= from,
    decreases s.len() - from,
{
    if from >= s.len() {
        s.len() as int
    } else if s[from].date.before(d) {
        from
    } else {
        slot_from(s, d, from + 1)
    }
}

/// `s` with `e` put behind every post that is not older than `e`.
pub open spec fn placed(s: Seq<EntryView>, e: EntryView) -> Seq<EntryView> {
    s.insert(slot_from(s, e.date, 0), e)
}

/// The posts of `s` with the most recent first, those of one date in the
/// order in which `s` holds them.
pub open spec fn arranged(s: Seq<EntryView>) -> Seq<EntryView>
    decreases s.len(),
{
    if s.len() == 0 {
        Seq::empty()
    } else {
        placed(arranged(s.drop_last()), s.last())
    }
}

/// What `slot_from` finds is the first post older than `d`.
pub proof fn lemma_slot(s: Seq<EntryView>, d: Date, from: int)
    requires
        0 <= from <= s.len(),
    ensures
        from <= slot_from(s, d, from) <= s.len(),
        slot_from(s, d, from) < s.len() ==> s[slot_from(s, d, from)].date.before(d),
        forall|i: int| from <= i < slot_from(s, d, from) ==> !s[i].date.before(d),
    decreases s.len() - from,
{
    if from < s.len() && !s[from].date.before(d) {
        lemma_slot(s, d, from + 1);
    }
}

/// The posts of a date among two runs of posts are those among the first run,
/// then those among the second.
pub proof fn lemma_on_day_joined(a: Seq<EntryView>, b: Seq<EntryView>, d: Date)
    ensures
        on_day(a + b, d) == on_day(a, d) + on_day(b, d),
    decreases b.len(),
{
    if b.len() == 0 {
        assert(a + b =~= a);
        assert(on_day(a, d) + on_day(b, d) =~= on_day(a, d));
    } else {
        lemma_on_day_joined(a, b.drop_last(), d);
        assert((a + b).drop_last() =~= a + b.drop_last());
        assert((a + b).last() == b.last());
        if b.last().date == d {
            assert(on_day(a, d) + on_day(b.drop_last(), d).push(b.last()) =~= (on_day(a, d)
                + on_day(b.drop_last(), d)).push(b.last()));
        }
    }
}

/// Where no post is dated `d`, none is found for that day.
pub proof fn lemma_on_day_none(s: Seq<EntryView>, d: Date)
    requires
        forall|i: int| 0 <= i < s.len() ==> s[i].date != d,
    ensures
        on_day(s, d) == Seq::<EntryView>::empty(),
    decreases s.len(),
{
    if s.len() > 0 {
        lemma_on_day_none(s.drop_last(), d);
    }
}

/// Putting a post into a run that has the most recent first leaves it so.
pub proof fn lemma_placed_newest_first(s: Seq<EntryView>, e: EntryView)
    requires
        newest_first(s),
    ensures
        newest_first(placed(s, e)),
{
    let p = slot_from(s, e.date, 0);
    lemma_slot(s, e.date, 0);
    let n = placed(s, e);
    assert forall|i: int, j: int| 0 <= i < j < n.len() implies n[j].date.not_after(n[i].date) by {
        if j < p {
            assert(n[i] == s[i] && n[j] == s[j]);
        } else if j == p {
            assert(n[i] == s[i]);
            lemma_order_trichotomy(s[i].date, e.date);
        } else if i < p {
            assert(n[i] == s[i] && n[j] == s[j - 1]);
        } else if i == p {
            assert(n[j] == s[j - 1]);
            if j - 1 > p {
                assert(s[j - 1].date.not_after(s[p].date));
            }
            lemma_not_after_transitive(s[j - 1].date, s[p].date, e.date);
        } else {
            assert(n[i] == s[i - 1] && n[j] == s[j - 1]);
        }
    }
}

/// Putting a post into a run that has the most recent first adds it behind
/// the posts of its own date and changes nothing among those of another.
pub proof fn lemma_placed_on_day(s: Seq<EntryView>, e: EntryView, d: Date)
    requires
        newest_first(s),
    ensures
        on_day(placed(s, e), d) == on_day(s.push(e), d),
{
    let p = slot_from(s, e.date, 0);
    lemma_slot(s, e.date, 0);
    let head = s.take(p);
    let tail = s.skip(p);
    assert(s =~= head + tail);
    assert(placed(s, e) =~= head + seq![e] + tail);
    assert(s.push(e) =~= head + tail + seq![e]);
    lemma_on_day_joined(head + seq![e], tail, d);
    lemma_on_day_joined(head, seq![e], d);
    lemma_on_day_joined(head + tail, seq![e], d);
    lemma_on_day_joined(head, tail, d);
    if e.date == d {
        assert forall|i: int| 0 <= i < tail.len() implies tail[i].date != d by {
            assert(tail[i] == s[p + i]);
            if i > 0 {
                assert(s[p + i].date.not_after(s[p].date));
            }
            lemma_not_after_transitive(s[p + i].date, s[p].date, s[p].date);
            lemma_order_trichotomy(s[p + i].date, d);
        }
        lemma_on_day_none(tail, d);
        assert(on_day(head, d) + on_day(seq![e], d) + Seq::<EntryView>::empty() =~= on_day(head, d)
            + Seq::<EntryView>::empty() + on_day(seq![e], d));
    } else {
        assert(seq![e].last() == e);
        assert(on_day(seq![e].drop_last(), d) =~= Seq::<EntryView>::empty());
        assert(on_day(seq![e], d) =~= Seq::<EntryView>::empty());
        assert(on_day(head, d) + Seq::<EntryView>::empty() + on_day(tail, d) =~= on_day(head, d)
            + on_day(tail, d) + Seq::<EntryView>::empty());
    }
}

/// Arranging keeps every post, puts the most recent first, and leaves the
/// posts of each date in the order in which they came.
pub proof fn lemma_arranged(s: Seq<EntryView>)
    ensures
        arranged(s).len() == s.len(),
        arranged(s).to_multiset() == s.to_multiset(),
        newest_first(arranged(s)),
        forall|d: Date| on_day(arranged(s), d) == on_day(s, d),
    decreases s.len(),
{
    broadcast use vstd::seq_lib::group_to_multiset_ensures;

    if s.len() == 0 {
        assert(arranged(s) =~= s);
    } else {
        let before = arranged(s.drop_last());
        lemma_arranged(s.drop_last());
        lemma_slot(before, s.last().date, 0);
        lemma_placed_newest_first(before, s.last());
        assert(s.drop_last().push(s.last()) =~= s);
        assert forall|d: Date| on_day(arranged(s), d) == on_day(s, d) by {
            lemma_placed_on_day(before, s.last(), d);
            assert(on_day(before, d) == on_day(s.drop_last(), d));
            assert(before.push(s.last()).drop_last() =~= before);
        }
    }
}

/// Two runs of posts that both have the most recent first and hold, for each
/// date, the same posts in the same order, are one and the same run.
pub proof fn lemma_arrangement_unique(a: Seq<EntryView>, b: Seq<EntryView>)
    requires
        newest_first(a),
        newest_first(b),
        forall|d: Date| on_day(a, d) == on_day(b, d),
    ensures
        a == b,
    decreases a.len() + b.len(),
{
    if a.len() == 0 || b.len() == 0 {
        if a.len() > 0 {
            lemma_last_on_day(a);
            assert(on_day(b, a.last().date) =~= Seq::<EntryView>::empty());
        }
        if b.len() > 0 {
            lemma_last_on_day(b);
            assert(on_day(a, b.last().date) =~= Seq::<EntryView>::empty());
        }
        assert(a =~= b);
    } else {
        // The oldest date of either run is the date of its last post; the
        // other run holds a post of that date, so it is not newer at its end.
        lemma_last_on_day(a);
        lemma_last_on_day(b);
        lemma_on_day_holds(b, a.last().date);
        lemma_on_day_holds(a, b.last().date);
        let ia = choose|i: int| 0 <= i < b.len() && b[i].date == a.last().date;
        let ib = choose|i: int| 0 <= i < a.len() && a[i].date == b.last().date;
        assert(b.last().date.not_after(a.last().date)) by {
            if ia < b.len() - 1 {
                assert(b[b.len() - 1].date.not_after(b[ia].date));
            }
        }
        assert(a.last().date.not_after(b.last().date)) by {
            if ib < a.len() - 1 {
                assert(a[a.len() - 1].date.not_after(a[ib].date));
            }
        }
        lemma_order_trichotomy(a.last().date, b.last().date);
        let d = a.last().date;
        assert(b.last().date == d);
        assert(a.last() == b.last()) by {
            assert(on_day(a, d).last() == a.last());
            assert(on_day(b, d).last() == b.last());
        }
        assert forall|x: Date| on_day(a.drop_last(), x) == on_day(b.drop_last(), x) by {
            assert(on_day(a, x) == on_day(b, x));
            if x == d {
                assert(on_day(a, x).drop_last() =~= on_day(a.drop_last(), x));
                assert(on_day(b, x).drop_last() =~= on_day(b.drop_last(), x));
            }
        }
        assert(newest_first(a.drop_last())) by {
            assert forall|i: int, j: int| 0 <= i < j < a.drop_last().len() implies a.drop_last()[j].date.not_after(
                a.drop_last()[i].date,
            ) by {
                assert(a[j].date.not_after(a[i].date));
            }
        }
        assert(newest_first(b.drop_last())) by {
            assert forall|i: int, j: int| 0 <= i < j < b.drop_last().len() implies b.drop_last()[j].date.not_after(
                b.drop_last()[i].date,
            ) by {
                assert(b[j].date.not_after(b[i].date));
            }
        }
        lemma_arrangement_unique(a.drop_last(), b.drop_last());
        assert(a =~= a.drop_last().push(a.last()));
        assert(b =~= b.drop_last().push(b.last()));
    }
}

/// A run that has the most recent first is arranged already, and arranging
/// twice is arranging once.
pub proof fn lemma_arranged_settled(s: Seq<EntryView>)
    ensures
        newest_first(s) ==> arranged(s) == s,
        arranged(arranged(s)) == arranged(s),
{
    lemma_arranged(s);
    lemma_arranged(arranged(s));
    lemma_arrangement_unique(arranged(arranged(s)), arranged(s));
    if newest_first(s) {
        lemma_arrangement_unique(arranged(s), s);
    }
}

/// The last post of a run is the last of the posts of its date.
proof fn lemma_last_on_day(s: Seq<EntryView>)
    requires
        s.len() > 0,
    ensures
        on_day(s, s.last().date).len() > 0,
        on_day(s, s.last().date).last() == s.last(),
{
}

/// Where a run has posts of a date, one of its posts has that date.
proof fn lemma_on_day_holds(s: Seq<EntryView>, d: Date)
    requires
        on_day(s, d).len() > 0,
    ensures
        exists|i: int| 0 <= i < s.len() && s[i].date == d,
    decreases s.len(),
{
    if s.len() > 0 {
        if s.last().date == d {
            assert(s[s.len() - 1].date == d);
        } else {
            lemma_on_day_holds(s.drop_last(), d);
            let i = choose|i: int| 0 <= i < s.drop_last().len() && s.drop_last()[i].date == d;
            assert(s[i].date == d);
        }
    }
}

/// Arranges the posts with the most recent first. Posts of one date keep the
/// order in which they came.
pub fn assemble(entries: Vec<BlogEntry>) -> (r: Vec<BlogEntry>)
    ensures
        entry_views(r@) == arranged(entry_views(entries@)),
        r.len() == entries.len(),
        r@.to_multiset() == entries@.to_multiset(),
        newest_first(entry_views(r@)),
        forall|d: Date| on_day(entry_views(r@), d) == on_day(entry_views(entries@), d),
{
    broadcast use vstd::seq_lib::group_to_multiset_ensures;

    let ghost all = entries@;
    let mut out: Vec<BlogEntry> = Vec::new();
    assert(entry_views(all.take(0)) =~= Seq::<EntryView>::empty());
    assert(all.take(0).to_multiset() =~= out@.to_multiset());
    for entry in it: entries
        invariant
            it.seq() == all,
            entry_views(out@) == arranged(entry_views(all.take(it.index() as int))),
            out@.to_multiset() == all.take(it.index() as int).to_multiset(),
    {
        let ghost k = it.index() as int;
        let ghost had = entry_views(out@);
        let ghost held = out@;
        let mut p: usize = 0;
        while p < out.len() && !out[p].date.is_before(&entry.date)
            invariant
                p <= out.len(),
                slot_from(entry_views(out@), entry.date, 0) == slot_from(
                    entry_views(out@),
                    entry.date,
                    p as int,
                ),
            decreases out.len() - p,
        {
            assert(entry_views(out@)[p as int] == out@[p as int]@);
            p += 1;
        }
        proof {
            if p < out.len() {
                assert(entry_views(out@)[p as int] == out@[p as int]@);
            }
            assert(all.take(k + 1) =~= all.take(k).push(entry));
            assert(entry_views(all.take(k + 1)).drop_last() =~= entry_views(all.take(k)));
            assert(entry_views(all.take(k + 1)).last() == entry@);
        }
        out.insert(p, entry);
        proof {
            assert(entry_views(out@) =~= had.insert(p as int, entry@));
            vstd::seq_lib::to_multiset_insert(held, p as int, entry);
            vstd::seq_lib::to_multiset_build(all.take(k), entry);
        }
    }
    proof {
        assert(all.take(all.len() as int) =~= all);
        lemma_arranged(entry_views(all));
    }
    out
}

/// One line of a list of posts: title, slug and date as text.
#[derive(Clone, Debug, PartialEq, Eq)]
pub struct ListItem {
    pub title: String,
    pub slug: String,
    pub date: String,
}

impl View for ListItem {
    type V = (Seq<char>, Seq<char>, Seq<char>);

    open spec fn view(&self) -> (Seq<char>, Seq<char>, Seq<char>) {
        (self.title@, self.slug@, self.date@)
    }
}

/// The views of some list items, one by one.
pub open spec fn item_views(items: Seq<ListItem>) -> Seq<(Seq<char>, Seq<char>, Seq<char>)> {
    Seq::new(items.len(), |k: int| items[k]@)
}

/// The first `count` posts of `s`, or all of them where there are fewer, each
/// as title, slug and date in its long form, in the order in which they stand.
pub open spec fn listed(s: Seq<EntryView>, count: int) -> Seq<(Seq<char>, Seq<char>, Seq<char>)> {
    Seq::new(
        if count < 0 {
            0nat
        } else if count < s.len() {
            count as nat
        } else {
            s.len()
        },
        |i: int| (s[i].title, s[i].slug, s[i].date.long_form()),
    )
}

/// Lists the first `count` of the posts for the home page.
pub fn home_view(sorted: &Vec<BlogEntry>, count: usize) -> (r: Vec<ListItem>)
    ensures
        item_views(r@) == listed(entry_views(sorted@), count as int),
{
    let n: usize = if count < sorted.len() {
        count
    } else {
        sorted.len()
    };
    let mut items: Vec<ListItem> = Vec::new();
    let mut i: usize = 0;
    while i < n
        invariant
            i <= n <= sorted.len(),
            items.len() == i,
            forall|j: int|
                #![trigger items@[j]]
                0 <= j < i ==> items@[j]@ == (
                    sorted@[j].title@,
                    sorted@[j].slug@,
                    sorted@[j].date.long_form(),
                ),
        decreases n - i,
    {
        let entry = &sorted[i];
        items.push(
            ListItem {
                title: entry.title.clone(),
                slug: entry.slug.clone(),
                date: entry.date.to_string(),
            },
        );
        i += 1;
    }
    assert(item_views(items@) =~= listed(entry_views(sorted@), count as int));
    items
}

/// Lists all the posts for the archive.
pub fn archive_view(sorted: &Vec<BlogEntry>) -> (r: Vec<ListItem>)
    ensures
        item_views(r@) == listed(entry_views(sorted@), sorted.len() as int),
{
    home_view(sorted, sorted.len())
}

/// What a feed holds: the moment it was made, as text, and its posts.
#[derive(Clone, Debug, PartialEq, Eq)]
pub struct Feed {
    pub today: String,
    pub entries: Vec<ListItem>,
}

/// Every post of `s` has a date that a feed can write at the given offset.
pub open spec fn feed_dates_ok(s: Seq<EntryView>, offset: i32) -> bool {
    forall|i: int| 0 <= i < s.len() ==> (#[trigger] s[i]).date.feed_form(offset) is Some
}

/// All the posts of `s`, each as title, slug and date as a feed writes it at
/// the given offset, in the order in which they stand.
pub open spec fn feed_listed(s: Seq<EntryView>, offset: i32) -> Seq<
    (Seq<char>, Seq<char>, Seq<char>),
> {
    Seq::new(s.len(), |i: int| (s[i].title, s[i].slug, s[i].date.feed_form(offset)->0))
}

/// Lists all the posts for the feed, with `today` as the moment it was made.
/// There is no feed where the date of a post cannot be written for one.
pub fn feed_view(sorted: &Vec<BlogEntry>, offset: i32, today: String) -> (r: Option<Feed>)
    ensures
        match r {
            Some(feed) => {
                &&& feed_dates_ok(entry_views(sorted@), offset)
                &&& feed.today@ == today@
                &&& item_views(feed.entries@) == feed_listed(entry_views(sorted@), offset)
            },
            None => !feed_dates_ok(entry_views(sorted@), offset),
        },
{
    let mut items: Vec<ListItem> = Vec::new();
    let mut i: usize = 0;
    while i < sorted.len()
        invariant
            i <= sorted.len(),
            items.len() == i,
            forall|j: int| 0 <= j < i ==> (#[trigger] sorted@[j]).date.feed_form(offset) is Some,
            forall|j: int|
                #![trigger items@[j]]
                0 <= j < i ==> items@[j]@ == (
                    sorted@[j].title@,
                    sorted@[j].slug@,
                    sorted@[j].date.feed_form(offset)->0,
                ),
        decreases sorted.len() - i,
    {
        let entry = &sorted[i];
        match entry.date.to_rfc2822(offset) {
            Some(date) => {
                items.push(ListItem { title: entry.title.clone(), slug: entry.slug.clone(), date });
            },
            None => {
                assert(entry_views(sorted@)[i as int].date.feed_form(offset) is None);
                return None;
            },
        }
        i += 1;
    }
    proof {
        assert forall|j: int| 0 <= j < sorted@.len() implies (#[trigger] entry_views(
            sorted@,
        )[j]).date.feed_form(offset) is Some by {
            assert(sorted@[j].date.feed_form(offset) is Some);
        }
        assert(item_views(items@) =~= feed_listed(entry_views(sorted@), offset));
    }
    Some(Feed { today, entries: items })
}

/// What the page of one post is made of. `latest` marks the most recent post.
#[derive(Clone, Debug, PartialEq, Eq)]
pub struct PostPage {
    pub title: String,
    pub content: String,
    pub latest: bool,
    pub path: String,
}

/// The page of a post as contracts speak of it.
pub struct PageView {
    pub title: Seq<char>,
    pub content: Seq<char>,
    pub latest: bool,
    pub path: Seq<char>,
}

impl View for PostPage {
    type V = PageView;

    open spec fn view(&self) -> PageView {
        PageView {
            title: self.title@,
            content: self.content@,
            latest: self.latest,
            path: self.path@,
        }
    }
}

/// The views of some pages, one by one.
pub open spec fn page_views(pages: Seq<PostPage>) -> Seq<PageView> {
    Seq::new(pages.len(), |k: int| pages[k]@)
}

/// The pages of the posts of `s`, one for each and in the same order. The
/// first, and no other, is marked as the latest.
pub open spec fn paged(s: Seq<EntryView>) -> Seq<PageView> {
    Seq::new(
        s.len(),
        |i: int|
            PageView { title: s[i].title, content: s[i].content, latest: i == 0, path: s[i].path },
    )
}

/// Among the pages of one post or more, exactly one is marked as the latest:
/// the first.
pub proof fn lemma_one_latest(s: Seq<EntryView>)
    requires
        s.len() >= 1,
    ensures
        paged(s)[0].latest,
        forall|i: int| 0 <= i < paged(s).len() && paged(s)[i].latest ==> i == 0,
{
}

/// Makes the page of each post.
pub fn post_pages(sorted: &Vec<BlogEntry>) -> (r: Vec<PostPage>)
    ensures
        page_views(r@) == paged(entry_views(sorted@)),
        r.len() == sorted.len(),
        forall|i: int| 0 <= i < r.len() ==> ((#[trigger] r@[i]).latest <==> i == 0),
{
    let mut pages: Vec<PostPage> = Vec::new();
    let mut i: usize = 0;
    while i < sorted.len()
        invariant
            i <= sorted.len(),
            pages.len() == i,
            forall|j: int|
                #![trigger pages@[j]]
                0 <= j < i ==> pages@[j]@ == (PageView {
                    title: sorted@[j].title@,
                    content: sorted@[j].content@,
                    latest: j == 0,
                    path: sorted@[j].path@,
                }),
        decreases sorted.len() - i,
    {
        let entry = &sorted[i];
        pages.push(
            PostPage {
                title: entry.title.clone(),
                content: entry.content.clone(),
                latest: i == 0,
                path: entry.path.clone(),
            },
        );
        i += 1;
    }
    proof {
        assert(page_views(pages@) =~= paged(entry_views(sorted@)));
        assert forall|i: int| 0 <= i < pages.len() implies ((#[trigger] pages@[i]).latest <==> i
            == 0) by {
            assert(pages@[i]@.latest == (i == 0));
        }
    }
    pages
}

/// The most recent post: the first of a run that has the most recent first.
pub fn latest_page(sorted: &Vec<BlogEntry>) -> (r: &BlogEntry)
    requires
        sorted.len() > 0,
    ensures
        *r == sorted@[0],
{
    &sorted[0]
}

/// The first position from `from` on at which `s` holds a post with the
/// given slug, or the length of `s` where it holds none.
pub open spec fn slug_position(s: Seq<EntryView>, slug: Seq<char>, from: int) -> int
    recommends
        0 <= from,
    decreases s.len() - from,
{
    if from >= s.len() {
        s.len() as int
    } else if s[from].slug == slug {
        from
    } else {
        slug_position(s, slug, from + 1)
    }
}

/// What `slug_position` finds is the first post with the slug.
pub proof fn lemma_slug_position(s: Seq<EntryView>, slug: Seq<char>, from: int)
    requires
        0 <= from <= s.len(),
    ensures
        from <= slug_position(s, slug, from) <= s.len(),
        slug_position(s, slug, from) < s.len() ==> s[slug_position(s, slug, from)].slug == slug,
        forall|i: int| from <= i < slug_position(s, slug, from) ==> s[i].slug != slug,
    decreases s.len() - from,
{
    if from < s.len() && s[from].slug != slug {
        lemma_slug_position(s, slug, from + 1);
    }
}

/// Where the page of the post with the given slug goes. Of several posts
/// with one slug the first counts.
pub fn path_for_slug(sorted: &Vec<BlogEntry>, slug: &str) -> (r: Option<String>)
    ensures
        match r {
            Some(path) => {
                let at = slug_position(entry_views(sorted@), slug@, 0);
                at < sorted.len() && path@ == sorted@[at].path@
            },
            None => slug_position(entry_views(sorted@), slug@, 0) == sorted.len(),
        },
{
    let mut i: usize = 0;
    while i < sorted.len()
        invariant
            i <= sorted.len(),
            slug_position(entry_views(sorted@), slug@, 0) == slug_position(
                entry_views(sorted@),
                slug@,
                i as int,
            ),
        decreases sorted.len() - i,
    {
        assert(entry_views(sorted@)[i as int] == sorted@[i as int]@);
        if same_text(sorted[i].slug.as_str(), slug) {
            return Some(sorted[i].path.clone());
        }
        i += 1;
    }
    None
}

/// All that one run of the generator makes: the posts with the most recent
/// first, a page for each, the lists for the home page and the archive, and
/// the feed.
#[derive(Clone, Debug, PartialEq, Eq)]
pub struct Site {
    pub entries: Vec<BlogEntry>,
    pub pages: Vec<PostPage>,
    pub home: Vec<ListItem>,
    pub archive: Vec<ListItem>,
    pub feed: Feed,
}

/// Why a run made nothing.
#[derive(Clone, Copy, Debug, PartialEq, Eq, Structural)]
pub enum SiteError {
    /// There is no post at all.
    NoPosts,
    /// The post at `index` could not be made ready.
    Post { index: usize, error: BuildError },
    /// The date of some post cannot be written for the feed.
    FeedDate,
}

/// The first `upto` of the sources have a first line that will do.
pub open spec fn all_planned(dir: Seq<char>, sources: Seq<SourceFile>, upto: int) -> bool {
    forall|i: int|
        0 <= i < upto ==> planned_entry(dir, (#[trigger] sources[i]).name@, sources[i].text@) is Ok
}

/// The posts that the sources make, in the order of the sources.
pub open spec fn planned_entries(dir: Seq<char>, sources: Seq<SourceFile>) -> Seq<EntryView> {
    Seq::new(
        sources.len(),
        |i: int| planned_entry(dir, sources[i].name@, sources[i].text@)->Ok_0,
    )
}

/// The posts of the site that the sources make: most recent first.
pub open spec fn site_entries(dir: Seq<char>, sources: Seq<SourceFile>) -> Seq<EntryView> {
    arranged(planned_entries(dir, sources))
}

/// Why the source at `index` stops the run with `error`.
pub open spec fn stopped_by(dir: Seq<char>, source: SourceFile, error: BuildError) -> bool {
    if error == BuildError::MathRender {
        planned_entry(dir, source.name@, source.text@) is Ok && has_math(body(source.text@))
    } else {
        planned_entry(dir, source.name@, source.text@) == Err::<EntryView, BuildError>(error)
    }
}

/// Makes the whole site from its sources, or nothing at all: the first source
/// that cannot be made ready stops the run, and so does a date that the feed
/// cannot write. The pages go under `dir`; the home page lists `home_count`
/// posts; the feed writes dates at `offset` seconds east of Greenwich and
/// gives `today` as the moment it was made.
pub fn build_site(
    dir: &str,
    sources: &Vec<SourceFile>,
    home_count: usize,
    offset: i32,
    today: String,
) -> (r: Result<Site, SiteError>)
    ensures
        match r {
            Ok(site) => {
                let posts = site_entries(dir@, sources@);
                &&& sources.len() > 0
                &&& all_planned(dir@, sources@, sources.len() as int)
                &&& feed_dates_ok(posts, offset)
                &&& entry_views(site.entries@) == posts
                &&& page_views(site.pages@) == paged(posts)
                &&& item_views(site.home@) == listed(posts, home_count as int)
                &&& item_views(site.archive@) == listed(posts, posts.len() as int)
                &&& site.feed.today@ == today@
                &&& item_views(site.feed.entries@) == feed_listed(posts, offset)
            },
            Err(SiteError::NoPosts) => sources.len() == 0,
            Err(SiteError::Post { index, error }) => {
                &&& index < sources.len()
                &&& all_planned(dir@, sources@, index as int)
                &&& stopped_by(dir@, sources@[index as int], error)
            },
            Err(SiteError::FeedDate) => {
                &&& sources.len() > 0
                &&& all_planned(dir@, sources@, sources.len() as int)
                &&& !feed_dates_ok(site_entries(dir@, sources@), offset)
            },
        },
{
    if sources.len() == 0 {
        return Err(SiteError::NoPosts);
    }
    let mut entries: Vec<BlogEntry> = Vec::new();
    let mut i: usize = 0;
    while i < sources.len()
        invariant
            i <= sources.len(),
            entries.len() == i,
            all_planned(dir@, sources@, i as int),
            forall|j: int|
                #![trigger entries@[j]]
                0 <= j < i ==> planned_entry(dir@, sources@[j].name@, sources@[j].text@) == Ok::<
                    EntryView,
                    BuildError,
                >(entries@[j]@),
        decreases sources.len() - i,
    {
        match build_entry(dir, &sources[i]) {
            Ok(entry) => {
                entries.push(entry);
            },
            Err(error) => {
                return Err(SiteError::Post { index: i, error });
            },
        }
        i += 1;
    }
    assert(entry_views(entries@) =~= planned_entries(dir@, sources@));
    let sorted = assemble(entries);
    let feed = match feed_view(&sorted, offset, today) {
        Some(feed) => feed,
        None => {
            return Err(SiteError::FeedDate);
        },
    };
    let pages = post_pages(&sorted);
    let home = home_view(&sorted, home_count);
    let archive = archive_view(&sorted);
    Ok(Site { entries: sorted, pages, home, archive, feed })
}

} // verus!
