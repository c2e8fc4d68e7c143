use vstd::prelude::*;
use crate::model::{Story, StoryView, SeenStories};
use crate::normalize::{normalize_spec, normalize_link, opt_str_view};
use crate::text::str_eq;

verus! {

/// One link of a parsed feed entry: its target and its optional relation.
pub struct RawLink {
    pub href: String,
    pub rel: Option<String>,
}

pub ghost struct RawLinkView {
    pub href: Seq<char>,
    pub rel: Option<Seq<char>>,
}

impl View for RawLink {
    type V = RawLinkView;

    open spec fn view(&self) -> RawLinkView {
        RawLinkView {
            href: self.href@,
            rel: match self.rel {
                Some(r) => Some(r@),
                None => None,
            },
        }
    }
}

/// One parsed feed entry, reduced to what the pipeline reads: its optional
/// title and its links.  The parse itself runs outside the library — the
/// feed parser in use can crash on crafted input, which no contract here
/// could exclude — and the fetch layer hands its outcome in as these plain
/// values.
pub struct RawEntry {
    pub title: Option<String>,
    pub links: Vec<RawLink>,
}

pub ghost struct RawEntryView {
    pub title: Option<Seq<char>>,
    pub links: Seq<RawLinkView>,
}

impl View for RawEntry {
    type V = RawEntryView;

    open spec fn view(&self) -> RawEntryView {
        RawEntryView {
            title: match self.title {
                Some(t) => Some(t@),
                None => None,
            },
            links: self.links@.map_values(|l: RawLink| l@),
        }
    }
}

pub open spec fn entry_views(es: Seq<RawEntry>) -> Seq<RawEntryView> {
    es.map_values(|e: RawEntry| e@)
}

/// The display title of an entry: its own title, or `"(untitled)"` when it
/// has none.
pub open spec fn title_of(e: RawEntryView) -> Seq<char> {
    match e.title {
        Some(t) => t,
        None => "(untitled)"@,
    }
}

pub fn entry_title(e: &RawEntry) -> (t: String)
    ensures
        t@ == title_of(e@),
{
    match &e.title {
        Some(t) => t.clone(),
        None => {
            let mut s = String::new();
            s.append("(untitled)");
            proof {
                assert(s@ =~= "(untitled)"@);
            }
            s
        },
    }
}

/// Whether a link's relation is exactly `"alternate"`.
pub open spec fn is_alt_link(l: RawLinkView) -> bool {
    l.rel matches Some(r) && r == "alternate"@
}

/// The first link whose relation is exactly `"alternate"`, if any.
pub open spec fn first_alt_href(links: Seq<RawLinkView>) -> Option<Seq<char>>
    decreases links.len(),
{
    if links.len() == 0 {
        None
    } else if is_alt_link(links[0]) {
        Some(links[0].href)
    } else {
        first_alt_href(links.skip(1))
    }
}

/// The candidate link of an entry: the first link marked `alternate`, else
/// the entry's first link, else nothing.
pub open spec fn link_candidate_of(e: RawEntryView) -> Option<Seq<char>> {
    match first_alt_href(e.links) {
        Some(h) => Some(h),
        None => if e.links.len() > 0 {
            Some(e.links[0].href)
        } else {
            None
        },
    }
}

proof fn lemma_first_alt_prefix(links: Seq<RawLinkView>, i: int)
    requires
        0 <= i <= links.len(),
        forall|j: int| 0 <= j < i ==> !is_alt_link(#[trigger] links[j]),
    ensures
        first_alt_href(links) == first_alt_href(links.skip(i)),
    decreases i,
{
    if i == 0 {
        assert(links.skip(0) =~= links);
    } else {
        lemma_first_alt_prefix(links.skip(1), i - 1);
        assert(links.skip(1).skip(i - 1) =~= links.skip(i));
    }
}

pub fn entry_link_candidate(e: &RawEntry) -> (r: Option<String>)
    ensures
        match r {
            Some(h) => link_candidate_of(e@) == Some(h@),
            None => link_candidate_of(e@) is None,
        },
{
    let ghost links = e@.links;
    let n: usize = e.links.len();
    let mut i: usize = 0;
    while i < n
        invariant
            0 <= i <= n,
            n == e.links@.len(),
            links == e@.links,
            links.len() == n,
            forall|j: int| 0 <= j < i ==> !is_alt_link(#[trigger] links[j]),
        decreases n - i,
    {
        let is_alt: bool = match &e.links[i].rel {
            Some(r) => str_eq(r.as_str(), "alternate"),
            None => false,
        };
        proof {
            assert(links[i as int] == e.links@[i as int]@);
        }
        if is_alt {
            proof {
                lemma_first_alt_prefix(links, i as int);
                assert(links.skip(i as int)[0] == links[i as int]);
            }
            return Some(e.links[i].href.clone());
        }
        i += 1;
    }
    proof {
        lemma_first_alt_prefix(links, n as int);
    }
    if n > 0 {
        proof {
            assert(links[0] == e.links@[0]@);
        }
        Some(e.links[0].href.clone())
    } else {
        None
    }
}

/// What one parsed entry contributes: a story with the entry's title, its
/// normalized link, the configured source name, and a fresh `is_new` flag;
/// or nothing when no link survives normalization.
pub open spec fn story_of(
    e: RawEntryView,
    source: Seq<char>,
    base: Option<Seq<char>>,
    seen: Set<Seq<char>>,
) -> Option<StoryView> {
    let raw = match link_candidate_of(e) {
        Some(h) => h,
        None => Seq::<char>::empty(),
    };
    match normalize_spec(raw, base) {
        Some(l) => Some(
            StoryView { title: title_of(e), link: l, source, is_new: !seen.contains(l) },
        ),
        None => None,
    }
}

pub fn entry_to_story(e: &RawEntry, source: &str, base: Option<&str>, seen: &SeenStories) -> (r:
    Option<Story>)
    ensures
        match r {
            Some(st) => story_of(e@, source@, opt_str_view(base), seen@) == Some(st@),
            None => story_of(e@, source@, opt_str_view(base), seen@) is None,
        },
        r matches Some(st) ==> st@.link.len() > 0,
{
    let cand: Option<String> = entry_link_candidate(e);
    let raw: &str = match &cand {
        Some(h) => h.as_str(),
        None => "",
    };
    proof {
        reveal_strlit("");
        assert(""@ =~= Seq::<char>::empty());
    }
    match normalize_link(raw, base) {
        Some(l) => {
            let is_new: bool = !seen.is_seen(l.as_str());
            let title: String = entry_title(e);
            let mut source_owned = String::new();
            source_owned.append(source);
            proof {
                assert(source_owned@ =~= source@);
            }
            Some(Story { title, link: l, source: source_owned, is_new })
        },
        None => None,
    }
}

} // verus!
