use vstd::prelude::*;
use crate::text::str_eq;

verus! {

/// One configured feed origin: a display name and a URL or filesystem path.
#[derive(Debug, Clone)]
pub struct Feed {
    pub name: String,
    pub url: String,
}

pub ghost struct FeedView {
    pub name: Seq<char>,
    pub url: Seq<char>,
}

impl View for Feed {
    type V = FeedView;

    open spec fn view(&self) -> FeedView {
        FeedView { name: self.name@, url: self.url@ }
    }
}

pub open spec fn feed_views(feeds: Seq<Feed>) -> Seq<FeedView> {
    feeds.map_values(|f: Feed| f@)
}

/// The configuration as read from a config file.
#[derive(Debug, Clone)]
pub struct AppConfig {
    pub feeds: Vec<Feed>,
    pub open_command: Option<String>,
    pub header: Option<String>,
}

/// The configuration the session actually runs with.
#[derive(Debug, Clone)]
pub struct RuntimeConfig {
    pub feeds: Vec<Feed>,
    pub open_command: Option<String>,
    pub header: Option<String>,
}

/// One deduplicated, annotated feed entry ready for display.
#[derive(Debug, Clone, PartialEq, Eq)]
pub struct Story {
    pub title: String,
    pub link: String,
    pub source: String,
    pub is_new: bool,
}

pub ghost struct StoryView {
    pub title: Seq<char>,
    pub link: Seq<char>,
    pub source: Seq<char>,
    pub is_new: bool,
}

impl View for Story {
    type V = StoryView;

    open spec fn view(&self) -> StoryView {
        StoryView {
            title: self.title@,
            link: self.link@,
            source: self.source@,
            is_new: self.is_new,
        }
    }
}

pub open spec fn story_views(stories: Seq<Story>) -> Seq<StoryView> {
    stories.map_values(|s: Story| s@)
}

impl Story {
    /// A copy of this story whose fields read the same.
    pub fn duplicate(&self) -> (r: Story)
        ensures
            r@ == self@,
    {
        Story {
            title: self.title.clone(),
            link: self.link.clone(),
            source: self.source.clone(),
            is_new: self.is_new,
        }
    }
}

/// The set of links the user has already been shown, abstractly a set of
/// link strings.
pub struct SeenStories {
    seen_links: Vec<String>,
}

impl View for SeenStories {
    type V = Set<Seq<char>>;

    closed spec fn view(&self) -> Set<Seq<char>> {
        Set::new(
            |l: Seq<char>|
                exists|i: int| 0 <= i < self.seen_links@.len() && self.seen_links@[i]@ == l,
        )
    }
}

impl SeenStories {
    /// A store with nothing in it.
    pub fn new() -> (r: SeenStories)
        ensures
            r@ == Set::<Seq<char>>::empty(),
    {
        let r = SeenStories { seen_links: Vec::new() };
        proof {
            assert(r@ =~= Set::<Seq<char>>::empty());
        }
        r
    }

    /// Whether this link has been shown before.
    pub fn is_seen(&self, link: &str) -> (r: bool)
        ensures
            r == self@.contains(link@),
    {
        let mut i: usize = 0;
        while i < self.seen_links.len()
            invariant
                0 <= i <= self.seen_links@.len(),
                forall|j: int| 0 <= j < i ==> self.seen_links@[j]@ != link@,
            decreases self.seen_links@.len() - i,
        {
            if str_eq(self.seen_links[i].as_str(), link) {
                return true;
            }
            i += 1;
        }
        false
    }

    /// Records a link as shown.
    pub fn mark_as_seen(&mut self, link: &str)
        ensures
            final(self)@ == old(self)@.insert(link@),
    {
        if self.is_seen(link) {
            proof {
                assert(self@ =~= self@.insert(link@));
            }
            return ;
        }
        let ghost old_links = self.seen_links@;
        let mut owned = String::new();
        owned.append(link);
        self.seen_links.push(owned);
        proof {
            assert forall|l: Seq<char>| self@.contains(l) implies old(self)@.insert(link@).contains(
                l,
            ) by {
                let i = choose|i: int|
                    0 <= i < self.seen_links@.len() && self.seen_links@[i]@ == l;
                if i < old_links.len() {
                    assert(old_links[i]@ == l);
                }
            }
            assert forall|l: Seq<char>| old(self)@.insert(link@).contains(l) implies self@.contains(
                l,
            ) by {
                if old(self)@.contains(l) {
                    let i = choose|i: int| 0 <= i < old_links.len() && old_links[i]@ == l;
                    assert(self.seen_links@[i]@ == l);
                } else {
                    assert(self.seen_links@[old_links.len() as int]@ == l);
                }
            }
            assert(self@ =~= old(self)@.insert(link@));
        }
    }

    /// Every link in the store, for persisting it.
    pub fn links(&self) -> (r: &Vec<String>)
        ensures
            forall|i: int| 0 <= i < r@.len() ==> self@.contains(#[trigger] r@[i]@),
            forall|l: Seq<char>| self@.contains(l) ==> exists|i: int|
                0 <= i < r@.len() && r@[i]@ == l,
    {
        &self.seen_links
    }
}

} // verus!
