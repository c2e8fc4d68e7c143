use vstd::prelude::*;
use crate::model::{Feed, FeedView, feed_views, Story, StoryView, story_views};
use crate::sanitize::{sanitize_spec, sanitize_for_terminal};
use crate::text::{upper_of, to_upper, dec_digits, usize_to_string, str_eq};

verus! {

/// One menu row: a source's header line, or one of its entries, named by
/// the source and the entry's index within that source's story list.
pub enum MenuRow {
    Header(String),
    Entry(String, usize),
}

pub ghost enum RowView {
    Header { source: Seq<char> },
    Entry { source: Seq<char>, index: int },
}

impl View for MenuRow {
    type V = RowView;

    open spec fn view(&self) -> RowView {
        match self {
            MenuRow::Header(s) => RowView::Header { source: s@ },
            MenuRow::Entry(s, i) => RowView::Entry { source: s@, index: *i as int },
        }
    }
}

pub ghost struct MenuView {
    pub rows: Seq<RowView>,
    pub labels: Seq<Seq<char>>,
    pub headers: Seq<int>,
}

/// The grouped top-level menu: rows and labels paired positionally, plus
/// the row index of every header.
pub struct Menu {
    pub rows: Vec<MenuRow>,
    pub labels: Vec<String>,
    pub header_indices: Vec<usize>,
}

impl View for Menu {
    type V = MenuView;

    open spec fn view(&self) -> MenuView {
        MenuView {
            rows: self.rows@.map_values(|r: MenuRow| r@),
            labels: self.labels@.map_values(|l: String| l@),
            headers: self.header_indices@.map_values(|h: usize| h as int),
        }
    }
}

/// One source's stories, in story-list order.
pub open spec fn stories_of_source(stories: Seq<StoryView>, name: Seq<char>) -> Seq<StoryView>
    decreases stories.len(),
{
    if stories.len() == 0 {
        Seq::empty()
    } else {
        let rest = stories_of_source(stories.drop_last(), name);
        if stories.last().source == name {
            rest.push(stories.last())
        } else {
            rest
        }
    }
}

/// A top-level entry's label: the sanitized title, marked `[NEW]` when the
/// story is new.
pub open spec fn entry_label(st: StoryView) -> Seq<char> {
    if st.is_new {
        "  - [NEW] "@ + sanitize_spec(st.title)
    } else {
        "  - "@ + sanitize_spec(st.title)
    }
}

/// A source's header label: its uppercased, sanitized name and its total
/// entry count.
pub open spec fn header_label(name: Seq<char>, count: nat) -> Seq<char> {
    "== "@ + sanitize_spec(upper_of(name)) + " == ("@ + dec_digits(count) + " entries)"@
}

/// At most ten entries of a source are shown in the top-level menu.
pub open spec fn capped(n: nat) -> nat {
    if n > 10 {
        10
    } else {
        n
    }
}

/// The menu extended by one source's section: nothing when the source has
/// no stories, else a header row (recorded in the header index list)
/// followed by up to ten entry rows.
pub open spec fn add_section(m: MenuView, name: Seq<char>, group: Seq<StoryView>) -> MenuView {
    if group.len() == 0 {
        m
    } else {
        let k = capped(group.len()) as int;
        MenuView {
            rows: m.rows + seq![RowView::Header { source: name }] + Seq::new(
                k as nat,
                |j: int| RowView::Entry { source: name, index: j },
            ),
            labels: m.labels + seq![header_label(name, group.len())] + Seq::new(
                k as nat,
                |j: int| entry_label(group[j]),
            ),
            headers: m.headers.push(m.rows.len() as int),
        }
    }
}

pub open spec fn empty_menu() -> MenuView {
    MenuView { rows: Seq::empty(), labels: Seq::empty(), headers: Seq::empty() }
}

/// The menu built by walking a name list in order and appending each name's
/// section.
pub open spec fn menu_fold(names: Seq<Seq<char>>, stories: Seq<StoryView>) -> MenuView
    decreases names.len(),
{
    if names.len() == 0 {
        empty_menu()
    } else {
        add_section(
            menu_fold(names.drop_last(), stories),
            names.last(),
            stories_of_source(stories, names.last()),
        )
    }
}

/// The sources that occur in the fetched stories but not in the
/// configuration, in order of first appearance.
pub open spec fn extra_names(stories: Seq<StoryView>, names: Seq<Seq<char>>) -> Seq<Seq<char>>
    decreases stories.len(),
{
    if stories.len() == 0 {
        Seq::empty()
    } else {
        let rest = extra_names(stories.drop_last(), names);
        let s = stories.last().source;
        if names.contains(s) || rest.contains(s) {
            rest
        } else {
            rest.push(s)
        }
    }
}

pub open spec fn feed_names(feeds: Seq<FeedView>) -> Seq<Seq<char>> {
    feeds.map_values(|f: FeedView| f.name)
}

/// The whole top-level menu: every configured source's section in
/// configured order, then a section for every source found only in the
/// data, so no fetched story is dropped from the menu.
pub open spec fn build_menu_spec(names: Seq<Seq<char>>, stories: Seq<StoryView>) -> MenuView {
    menu_fold(names + extra_names(stories, names), stories)
}

/// Filters the stories of one source, preserving their order.
pub fn stories_for_source(stories: &Vec<Story>, name: &str) -> (r: Vec<Story>)
    ensures
        story_views(r@) == stories_of_source(story_views(stories@), name@),
{
    let ghost sv = story_views(stories@);
    let mut r: Vec<Story> = Vec::new();
    let n: usize = stories.len();
    let mut i: usize = 0;
    proof {
        assert(sv.take(0) =~= Seq::<StoryView>::empty());
        assert(story_views(r@) =~= stories_of_source(sv.take(0), name@));
    }
    while i < n
        invariant
            0 <= i <= n,
            n == stories@.len(),
            sv == story_views(stories@),
            sv.len() == n,
            story_views(r@) == stories_of_source(sv.take(i as int), name@),
        decreases n - i,
    {
        proof {
            assert(sv.take(i + 1).drop_last() =~= sv.take(i as int));
            assert(sv.take(i + 1).last() == sv[i as int]);
            assert(sv[i as int] == stories@[i as int]@);
        }
        let ghost before = story_views(r@);
        if str_eq(stories[i].source.as_str(), name) {
            r.push(stories[i].duplicate());
            proof {
                assert(story_views(r@) =~= before.push(sv[i as int]));
            }
        }
        i += 1;
    }
    proof {
        assert(sv.take(n as int) =~= sv);
    }
    r
}

fn vec_contains_str(v: &Vec<String>, s: &str) -> (r: bool)
    ensures
        r == v@.map_values(|x: String| x@).contains(s@),
{
    let n: usize = v.len();
    let mut i: usize = 0;
    while i < n
        invariant
            0 <= i <= n,
            n == v@.len(),
            forall|j: int| 0 <= j < i ==> v@[j]@ != s@,
        decreases n - i,
    {
        if str_eq(v[i].as_str(), s) {
            proof {
                assert(v@.map_values(|x: String| x@)[i as int] == s@);
            }
            return true;
        }
        i += 1;
    }
    proof {
        if v@.map_values(|x: String| x@).contains(s@) {
            let m = v@.map_values(|x: String| x@);
            let j = choose|j: int| 0 <= j < m.len() && m[j] == s@;
            assert(v@[j]@ == s@);
        }
    }
    false
}

proof fn lemma_names_concat_contains(a: Seq<Seq<char>>, b: Seq<Seq<char>>, x: Seq<char>)
    ensures
        (a + b).contains(x) <==> (a.contains(x) || b.contains(x)),
{
    if (a + b).contains(x) {
        let i = choose|i: int| 0 <= i < (a + b).len() && (a + b)[i] == x;
        if i < a.len() {
            assert(a[i] == x);
        } else {
            assert(b[i - a.len()] == x);
        }
    }
    if a.contains(x) {
        let i = choose|i: int| 0 <= i < a.len() && a[i] == x;
        assert((a + b)[i] == x);
    }
    if b.contains(x) {
        let i = choose|i: int| 0 <= i < b.len() && b[i] == x;
        assert((a + b)[a.len() + i] == x);
    }
}

/// Collects the section names in display order: every configured name,
/// then the sources found only in the data.
fn all_section_names(feeds: &Vec<Feed>, stories: &Vec<Story>) -> (r: Vec<String>)
    ensures
        r@.map_values(|x: String| x@) == feed_names(feed_views(feeds@)) + extra_names(
            story_views(stories@),
            feed_names(feed_views(feeds@)),
        ),
{
    let ghost cfg = feed_names(feed_views(feeds@));
    let ghost sv = story_views(stories@);
    let mut r: Vec<String> = Vec::new();
    let nf: usize = feeds.len();
    let mut i: usize = 0;
    proof {
        assert(r@.map_values(|x: String| x@) =~= cfg.take(0));
    }
    while i < nf
        invariant
            0 <= i <= nf,
            nf == feeds@.len(),
            cfg == feed_names(feed_views(feeds@)),
            cfg.len() == nf,
            r@.map_values(|x: String| x@) == cfg.take(i as int),
        decreases nf - i,
    {
        let ghost before = r@.map_values(|x: String| x@);
        r.push(feeds[i].name.clone());
        proof {
            assert(r@.map_values(|x: String| x@) =~= before.push(feeds@[i as int].name@));
            assert(cfg[i as int] == feeds@[i as int]@.name);
            assert(cfg.take(i + 1) =~= cfg.take(i as int).push(cfg[i as int]));
        }
        i += 1;
    }
    proof {
        assert(cfg.take(nf as int) =~= cfg);
        assert(extra_names(sv.take(0), cfg) =~= Seq::<Seq<char>>::empty());
        assert(r@.map_values(|x: String| x@) =~= cfg + extra_names(sv.take(0), cfg));
    }
    let ns: usize = stories.len();
    let mut t: usize = 0;
    while t < ns
        invariant
            0 <= t <= ns,
            ns == stories@.len(),
            cfg == feed_names(feed_views(feeds@)),
            sv == story_views(stories@),
            sv.len() == ns,
            r@.map_values(|x: String| x@) == cfg + extra_names(sv.take(t as int), cfg),
        decreases ns - t,
    {
        proof {
            assert(sv.take(t + 1).drop_last() =~= sv.take(t as int));
            assert(sv.take(t + 1).last() == sv[t as int]);
            assert(sv[t as int] == stories@[t as int]@);
        }
        let ghost rest = extra_names(sv.take(t as int), cfg);
        let ghost before = r@.map_values(|x: String| x@);
        let present: bool = vec_contains_str(&r, stories[t].source.as_str());
        proof {
            lemma_names_concat_contains(cfg, rest, sv[t as int].source);
        }
        if !present {
            r.push(stories[t].source.clone());
            proof {
                assert(r@.map_values(|x: String| x@) =~= before.push(sv[t as int].source));
                assert(cfg + rest.push(sv[t as int].source) =~= (cfg + rest).push(
                    sv[t as int].source,
                ));
            }
        }
        t += 1;
    }
    proof {
        assert(sv.take(ns as int) =~= sv);
    }
    r
}

fn make_header_label(name: &str, count: usize) -> (r: String)
    ensures
        r@ == header_label(name@, count as nat),
{
    let mut s = String::new();
    s.append("== ");
    let upper: String = to_upper(name);
    let safe: String = sanitize_for_terminal(upper.as_str());
    s.append(safe.as_str());
    s.append(" == (");
    let c: String = usize_to_string(count);
    s.append(c.as_str());
    s.append(" entries)");
    proof {
        assert(s@ =~= header_label(name@, count as nat));
    }
    s
}

fn make_entry_label(st: &Story) -> (r: String)
    ensures
        r@ == entry_label(st@),
{
    let mut s = String::new();
    if st.is_new {
        s.append("  - [NEW] ");
    } else {
        s.append("  - ");
    }
    let safe: String = sanitize_for_terminal(st.title.as_str());
    s.append(safe.as_str());
    proof {
        assert(s@ =~= entry_label(st@));
    }
    s
}

/// Builds the grouped top-level menu from the configured feeds and the
/// collected stories.
pub fn build_menu(feeds: &Vec<Feed>, stories: &Vec<Story>) -> (m: Menu)
    ensures
        m@ == build_menu_spec(feed_names(feed_views(feeds@)), story_views(stories@)),
{
    let ghost cfg = feed_names(feed_views(feeds@));
    let ghost sv = story_views(stories@);
    let names: Vec<String> = all_section_names(feeds, stories);
    let ghost nv = names@.map_values(|x: String| x@);
    let mut m = Menu { rows: Vec::new(), labels: Vec::new(), header_indices: Vec::new() };
    let n: usize = names.len();
    let mut i: usize = 0;
    proof {
        assert(m@.rows =~= Seq::<RowView>::empty());
        assert(m@.labels =~= Seq::<Seq<char>>::empty());
        assert(m@.headers =~= Seq::<int>::empty());
        assert(m@ == menu_fold(nv.take(0), sv));
    }
    while i < n
        invariant
            0 <= i <= n,
            n == names@.len(),
            nv == names@.map_values(|x: String| x@),
            nv.len() == n,
            sv == story_views(stories@),
            m@ == menu_fold(nv.take(i as int), sv),
        decreases n - i,
    {
        proof {
            assert(nv.take(i + 1).drop_last() =~= nv.take(i as int));
            assert(nv.take(i + 1).last() == nv[i as int]);
            assert(nv[i as int] == names@[i as int]@);
        }
        let ghost base = m@;
        let group: Vec<Story> = stories_for_source(stories, names[i].as_str());
        let ghost gv = stories_of_source(sv, nv[i as int]);
        let glen: usize = group.len();
        if glen > 0 {
            m.header_indices.push(m.rows.len());
            m.rows.push(MenuRow::Header(names[i].clone()));
            m.labels.push(make_header_label(names[i].as_str(), glen));
            proof {
                assert(m@.headers =~= base.headers.push(base.rows.len() as int));
                assert(m@.rows =~= base.rows.push(RowView::Header { source: nv[i as int] }));
                assert(m@.labels =~= base.labels.push(header_label(nv[i as int], gv.len())));
            }
            let k: usize = if glen > 10 { 10 } else { glen };
            let mut j: usize = 0;
            proof {
                assert(Seq::new(0, |q: int| RowView::Entry { source: nv[i as int], index: q })
                    =~= Seq::<RowView>::empty());
                assert(Seq::new(0, |q: int| entry_label(gv[q])) =~= Seq::<Seq<char>>::empty());
                assert(m@.rows =~= base.rows + seq![RowView::Header { source: nv[i as int] }]
                    + Seq::new(0, |q: int| RowView::Entry { source: nv[i as int], index: q }));
                assert(m@.labels =~= base.labels + seq![header_label(nv[i as int], gv.len())]
                    + Seq::new(0, |q: int| entry_label(gv[q])));
            }
            while j < k
                invariant
                    0 <= j <= k,
                    k == capped(gv.len()),
                    k <= group@.len(),
                    gv == story_views(group@),
                    gv == stories_of_source(sv, nv[i as int]),
                    nv == names@.map_values(|x: String| x@),
                    0 <= i < nv.len(),
                    i < names@.len(),
                    nv[i as int] == names@[i as int]@,
                    m@.rows == base.rows + seq![RowView::Header { source: nv[i as int] }]
                        + Seq::new(j as nat, |q: int| RowView::Entry {
                            source: nv[i as int],
                            index: q,
                        }),
                    m@.labels == base.labels + seq![header_label(nv[i as int], gv.len())]
                        + Seq::new(j as nat, |q: int| entry_label(gv[q])),
                    m@.headers == base.headers.push(base.rows.len() as int),
                decreases k - j,
            {
                let ghost rows_before = m@.rows;
                let ghost labels_before = m@.labels;
                m.rows.push(MenuRow::Entry(names[i].clone(), j));
                m.labels.push(make_entry_label(&group[j]));
                proof {
                    assert(m@.rows =~= rows_before.push(
                        RowView::Entry { source: nv[i as int], index: j as int },
                    ));
                    assert(m@.labels =~= labels_before.push(entry_label(gv[j as int])));
                    assert(Seq::new((j + 1) as nat, |q: int| RowView::Entry {
                        source: nv[i as int],
                        index: q,
                    }) =~= Seq::new(j as nat, |q: int| RowView::Entry {
                        source: nv[i as int],
                        index: q,
                    }).push(RowView::Entry { source: nv[i as int], index: j as int }));
                    assert(Seq::new((j + 1) as nat, |q: int| entry_label(gv[q])) =~= Seq::new(
                        j as nat,
                        |q: int| entry_label(gv[q]),
                    ).push(entry_label(gv[j as int])));
                    assert(m@.rows =~= rows_before + seq![RowView::Entry {
                        source: nv[i as int],
                        index: j as int,
                    }]);
                    assert(m@.labels =~= labels_before + seq![entry_label(gv[j as int])]);
                    assert(m@.rows =~= base.rows + seq![RowView::Header { source: nv[i as int] }]
                        + Seq::new((j + 1) as nat, |q: int| RowView::Entry {
                            source: nv[i as int],
                            index: q,
                        }));
                    assert(m@.labels =~= base.labels + seq![header_label(nv[i as int], gv.len())]
                        + Seq::new((j + 1) as nat, |q: int| entry_label(gv[q])));
                }
                j += 1;
            }
            proof {
                assert(m@ == add_section(base, nv[i as int], gv));
            }
        } else {
            proof {
                assert(gv.len() == 0);
                assert(m@ == add_section(base, nv[i as int], gv));
            }
        }
        i += 1;
    }
    proof {
        assert(nv.take(n as int) =~= nv);
    }
    m
}

/// The sources of the header rows, in row order.
pub open spec fn header_sources(rows: Seq<RowView>) -> Seq<Seq<char>>
    decreases rows.len(),
{
    if rows.len() == 0 {
        Seq::empty()
    } else {
        let rest = header_sources(rows.drop_last());
        match rows.last() {
            RowView::Header { source } => rest.push(source),
            _ => rest,
        }
    }
}

/// The names of a name list that have at least one story, in list order.
pub open spec fn present_names(names: Seq<Seq<char>>, stories: Seq<StoryView>) -> Seq<Seq<char>>
    decreases names.len(),
{
    if names.len() == 0 {
        Seq::empty()
    } else {
        let rest = present_names(names.drop_last(), stories);
        if stories_of_source(stories, names.last()).len() > 0 {
            rest.push(names.last())
        } else {
            rest
        }
    }
}

proof fn lemma_header_sources_concat(a: Seq<RowView>, b: Seq<RowView>)
    ensures
        header_sources(a + b) == header_sources(a) + header_sources(b),
    decreases b.len(),
{
    if b.len() == 0 {
        assert(a + b =~= a);
        assert(header_sources(a) + header_sources(b) =~= header_sources(a));
    } else {
        lemma_header_sources_concat(a, b.drop_last());
        assert((a + b).drop_last() =~= a + b.drop_last());
        assert((a + b).last() == b.last());
        match b.last() {
            RowView::Header { source } => {
                assert(header_sources(a) + header_sources(b) =~= (header_sources(a)
                    + header_sources(b.drop_last())).push(source));
            },
            _ => {},
        }
    }
}

proof fn lemma_header_sources_entries(name: Seq<char>, k: nat)
    ensures
        header_sources(Seq::new(k, |j: int| RowView::Entry { source: name, index: j }))
            == Seq::<Seq<char>>::empty(),
    decreases k,
{
    if k > 0 {
        lemma_header_sources_entries(name, (k - 1) as nat);
        assert(Seq::new(k, |j: int| RowView::Entry { source: name, index: j }).drop_last()
            =~= Seq::new((k - 1) as nat, |j: int| RowView::Entry { source: name, index: j }));
    }
}

proof fn lemma_menu_fold_headers(names: Seq<Seq<char>>, stories: Seq<StoryView>)
    ensures
        header_sources(menu_fold(names, stories).rows) == present_names(names, stories),
    decreases names.len(),
{
    if names.len() == 0 {
        assert(header_sources(menu_fold(names, stories).rows) =~= present_names(names, stories));
    } else {
        lemma_menu_fold_headers(names.drop_last(), stories);
        let base = menu_fold(names.drop_last(), stories);
        let name = names.last();
        let group = stories_of_source(stories, name);
        if group.len() == 0 {
        } else {
            let k = capped(group.len());
            let hdr = seq![RowView::Header { source: name }];
            let entries = Seq::new(k, |j: int| RowView::Entry { source: name, index: j });
            lemma_header_sources_concat(base.rows + hdr, entries);
            lemma_header_sources_concat(base.rows, hdr);
            lemma_header_sources_entries(name, k);
            assert(hdr.drop_last() =~= Seq::<RowView>::empty());
            assert(hdr.last() == RowView::Header { source: name });
            assert(header_sources(Seq::<RowView>::empty()) == Seq::<Seq<char>>::empty());
            assert(header_sources(hdr.drop_last()) == Seq::<Seq<char>>::empty());
            assert(header_sources(hdr) =~= Seq::<Seq<char>>::empty().push(name));
            assert(header_sources((base.rows + hdr) + entries) =~= header_sources(base.rows).push(
                name,
            ));
            assert(present_names(names, stories) =~= present_names(
                names.drop_last(),
                stories,
            ).push(name));
        }
    }
}

proof fn lemma_menu_fold_wf(names: Seq<Seq<char>>, stories: Seq<StoryView>)
    ensures
        ({
            let m = menu_fold(names, stories);
            &&& m.rows.len() == m.labels.len()
            &&& forall|i: int|
                0 <= i < m.headers.len() ==> 0 <= #[trigger] m.headers[i] < m.rows.len()
                    && m.rows[m.headers[i]] is Header
        }),
    decreases names.len(),
{
    if names.len() > 0 {
        lemma_menu_fold_wf(names.drop_last(), stories);
        let base = menu_fold(names.drop_last(), stories);
        let m = menu_fold(names, stories);
        let group = stories_of_source(stories, names.last());
        if group.len() > 0 {
            assert forall|i: int| 0 <= i < m.headers.len() implies 0 <= #[trigger] m.headers[i]
                < m.rows.len() && m.rows[m.headers[i]] is Header by {
                if i < m.headers.len() - 1 {
                    assert(m.headers[i] == base.headers[i]);
                    assert(m.rows[base.headers[i]] == base.rows[base.headers[i]]);
                } else {
                    assert(m.headers[i] == base.rows.len());
                    assert(m.rows[base.rows.len() as int] == RowView::Header {
                        source: names.last(),
                    });
                }
            }
        }
    }
}

/// The menu's rows and labels pair up one to one, and every recorded header
/// index names a header row.
pub proof fn lemma_menu_well_formed(names: Seq<Seq<char>>, stories: Seq<StoryView>)
    ensures
        ({
            let m = build_menu_spec(names, stories);
            &&& m.rows.len() == m.labels.len()
            &&& forall|i: int|
                0 <= i < m.headers.len() ==> 0 <= #[trigger] m.headers[i] < m.rows.len()
                    && m.rows[m.headers[i]] is Header
        }),
{
    lemma_menu_fold_wf(names + extra_names(stories, names), stories);
}

/// The top-level menu's headers appear in configured source order: every
/// configured source with stories, in configuration order, then the sources
/// found only in the data.
pub proof fn lemma_grouping_order(names: Seq<Seq<char>>, stories: Seq<StoryView>)
    ensures
        header_sources(build_menu_spec(names, stories).rows) == present_names(
            names + extra_names(stories, names),
            stories,
        ),
{
    lemma_menu_fold_headers(names + extra_names(stories, names), stories);
}

proof fn lemma_menu_fold_header_labels(names: Seq<Seq<char>>, stories: Seq<StoryView>)
    ensures
        ({
            let m = menu_fold(names, stories);
            &&& m.headers.len() == header_sources(m.rows).len()
            &&& forall|k: int|
                0 <= k < m.headers.len() ==> 0 <= #[trigger] m.headers[k] < m.labels.len()
                    && m.labels[m.headers[k]] == header_label(
                    header_sources(m.rows)[k],
                    stories_of_source(stories, header_sources(m.rows)[k]).len(),
                )
        }),
    decreases names.len(),
{
    if names.len() > 0 {
        lemma_menu_fold_header_labels(names.drop_last(), stories);
        lemma_menu_fold_wf(names.drop_last(), stories);
        let base = menu_fold(names.drop_last(), stories);
        let m = menu_fold(names, stories);
        let name = names.last();
        let group = stories_of_source(stories, name);
        if group.len() > 0 {
            let k2 = capped(group.len());
            let hdr = seq![RowView::Header { source: name }];
            let entries = Seq::new(k2, |j: int| RowView::Entry { source: name, index: j });
            lemma_header_sources_concat(base.rows + hdr, entries);
            lemma_header_sources_concat(base.rows, hdr);
            lemma_header_sources_entries(name, k2);
            assert(hdr.drop_last() =~= Seq::<RowView>::empty());
            assert(hdr.last() == RowView::Header { source: name });
            assert(header_sources(Seq::<RowView>::empty()) == Seq::<Seq<char>>::empty());
            assert(header_sources(hdr.drop_last()) == Seq::<Seq<char>>::empty());
            assert(header_sources(hdr) =~= Seq::<Seq<char>>::empty().push(name));
            assert(header_sources(m.rows) =~= header_sources(base.rows).push(name));
            assert forall|k: int|
                0 <= k < m.headers.len() implies 0 <= #[trigger] m.headers[k] < m.labels.len()
                    && m.labels[m.headers[k]] == header_label(
                    header_sources(m.rows)[k],
                    stories_of_source(stories, header_sources(m.rows)[k]).len(),
                ) by {
                if k < m.headers.len() - 1 {
                    assert(m.headers[k] == base.headers[k]);
                    assert(base.headers[k] < base.labels.len());
                    assert(m.labels[base.headers[k]] == base.labels[base.headers[k]]);
                    assert(header_sources(m.rows)[k] == header_sources(base.rows)[k]);
                } else {
                    assert(m.headers[k] == base.rows.len());
                    assert(base.rows.len() == base.labels.len());
                    assert(m.labels[base.labels.len() as int] == header_label(name, group.len()));
                    assert(header_sources(m.rows)[k] == name);
                }
            }
        }
    }
}

/// Each recorded header row carries exactly its section's label: the
/// sanitized, uppercased source name with that source's full story count.
pub proof fn lemma_header_labels(names: Seq<Seq<char>>, stories: Seq<StoryView>)
    ensures
        ({
            let m = build_menu_spec(names, stories);
            &&& m.headers.len() == header_sources(m.rows).len()
            &&& forall|k: int|
                0 <= k < m.headers.len() ==> 0 <= #[trigger] m.headers[k] < m.labels.len()
                    && m.labels[m.headers[k]] == header_label(
                    header_sources(m.rows)[k],
                    stories_of_source(stories, header_sources(m.rows)[k]).len(),
                )
        }),
{
    lemma_menu_fold_header_labels(names + extra_names(stories, names), stories);
}

/// No two names in the list are equal.
pub open spec fn distinct_names(ns: Seq<Seq<char>>) -> bool {
    forall|i: int, j: int| 0 <= i < j < ns.len() ==> ns[i] != ns[j]
}

/// How many of the names equal this one.
pub open spec fn name_count(ns: Seq<Seq<char>>, x: Seq<char>) -> nat
    decreases ns.len(),
{
    if ns.len() == 0 {
        0
    } else {
        name_count(ns.drop_last(), x) + (if ns.last() == x {
            1nat
        } else {
            0nat
        })
    }
}

/// The total number of stories across these names' sections.
pub open spec fn total_group_len(ns: Seq<Seq<char>>, stories: Seq<StoryView>) -> nat
    decreases ns.len(),
{
    if ns.len() == 0 {
        0
    } else {
        total_group_len(ns.drop_last(), stories) + stories_of_source(stories, ns.last()).len()
    }
}

proof fn lemma_total_group_len_empty(ns: Seq<Seq<char>>)
    ensures
        total_group_len(ns, Seq::<StoryView>::empty()) == 0,
    decreases ns.len(),
{
    if ns.len() > 0 {
        lemma_total_group_len_empty(ns.drop_last());
    }
}

proof fn lemma_total_drop_story(ns: Seq<Seq<char>>, stories: Seq<StoryView>)
    requires
        stories.len() > 0,
    ensures
        total_group_len(ns, stories) == total_group_len(ns, stories.drop_last()) + name_count(
            ns,
            stories.last().source,
        ),
    decreases ns.len(),
{
    if ns.len() > 0 {
        lemma_total_drop_story(ns.drop_last(), stories);
    }
}

proof fn lemma_name_count_distinct(ns: Seq<Seq<char>>, x: Seq<char>)
    ensures
        !ns.contains(x) ==> name_count(ns, x) == 0,
        distinct_names(ns) && ns.contains(x) ==> name_count(ns, x) == 1,
    decreases ns.len(),
{
    if ns.len() > 0 {
        let d = ns.drop_last();
        lemma_name_count_distinct(d, x);
        if ns.contains(x) {
            let i = choose|i: int| 0 <= i < ns.len() && ns[i] == x;
            if i < ns.len() - 1 {
                assert(d[i] == x);
                assert(d.contains(x));
            }
        }
        if d.contains(x) {
            let i = choose|i: int| 0 <= i < d.len() && d[i] == x;
            assert(ns[i] == x);
            assert(ns.contains(x));
        }
        if distinct_names(ns) {
            assert forall|i: int, j: int| 0 <= i < j < d.len() implies d[i] != d[j] by {
                assert(d[i] == ns[i]);
                assert(d[j] == ns[j]);
            }
            if ns.last() == x && d.contains(x) {
                let i = choose|i: int| 0 <= i < d.len() && d[i] == x;
                assert(ns[i] == ns[ns.len() - 1]);
            }
        }
    }
}

proof fn lemma_partition_sum(ns: Seq<Seq<char>>, stories: Seq<StoryView>)
    requires
        distinct_names(ns),
        forall|i: int| 0 <= i < stories.len() ==> ns.contains((#[trigger] stories[i]).source),
    ensures
        total_group_len(ns, stories) == stories.len(),
    decreases stories.len(),
{
    if stories.len() == 0 {
        assert(stories =~= Seq::<StoryView>::empty());
        lemma_total_group_len_empty(ns);
    } else {
        let d = stories.drop_last();
        assert forall|i: int| 0 <= i < d.len() implies ns.contains((#[trigger] d[i]).source) by {
            assert(d[i] == stories[i]);
        }
        lemma_partition_sum(ns, d);
        lemma_total_drop_story(ns, stories);
        assert(ns.contains(stories[stories.len() - 1].source));
        lemma_name_count_distinct(ns, stories.last().source);
    }
}

proof fn lemma_extras_disjoint(stories: Seq<StoryView>, names: Seq<Seq<char>>)
    ensures
        forall|x: Seq<char>|
            #[trigger] extra_names(stories, names).contains(x) ==> !names.contains(x),
    decreases stories.len(),
{
    if stories.len() > 0 {
        lemma_extras_disjoint(stories.drop_last(), names);
        let rest = extra_names(stories.drop_last(), names);
        let s = stories.last().source;
        assert forall|x: Seq<char>|
            #[trigger] extra_names(stories, names).contains(x) implies !names.contains(x) by {
            let e = extra_names(stories, names);
            let i = choose|i: int| 0 <= i < e.len() && e[i] == x;
            if names.contains(s) || rest.contains(s) {
                assert(rest[i] == x);
                assert(rest.contains(x));
            } else {
                if i < rest.len() {
                    assert(rest[i] == x);
                    assert(rest.contains(x));
                }
            }
        }
    }
}

proof fn lemma_extras_distinct(stories: Seq<StoryView>, names: Seq<Seq<char>>)
    ensures
        distinct_names(extra_names(stories, names)),
    decreases stories.len(),
{
    if stories.len() > 0 {
        lemma_extras_distinct(stories.drop_last(), names);
        let rest = extra_names(stories.drop_last(), names);
        let s = stories.last().source;
        if !(names.contains(s) || rest.contains(s)) {
            let e = rest.push(s);
            assert forall|i: int, j: int| 0 <= i < j < e.len() implies e[i] != e[j] by {
                if j < e.len() - 1 {
                    assert(e[i] == rest[i]);
                    assert(e[j] == rest[j]);
                } else {
                    assert(e[i] == rest[i]);
                    assert(e[j] == s);
                    assert(rest.contains(rest[i]));
                }
            }
        }
    }
}

proof fn lemma_extras_cover(stories: Seq<StoryView>, names: Seq<Seq<char>>)
    ensures
        forall|i: int|
            0 <= i < stories.len() ==> names.contains((#[trigger] stories[i]).source)
                || extra_names(stories, names).contains(stories[i].source),
    decreases stories.len(),
{
    if stories.len() > 0 {
        let d = stories.drop_last();
        lemma_extras_cover(d, names);
        let rest = extra_names(d, names);
        let e = extra_names(stories, names);
        let s = stories.last().source;
        assert forall|i: int|
            0 <= i < stories.len() implies names.contains((#[trigger] stories[i]).source)
                || e.contains(stories[i].source) by {
            if i < stories.len() - 1 {
                assert(d[i] == stories[i]);
                if rest.contains(stories[i].source) {
                    let k = choose|k: int| 0 <= k < rest.len() && rest[k] == stories[i].source;
                    if names.contains(s) || rest.contains(s) {
                        assert(e[k] == stories[i].source);
                    } else {
                        assert(e[k] == rest[k]);
                    }
                    assert(e.contains(stories[i].source));
                }
            } else {
                if !names.contains(s) {
                    if rest.contains(s) {
                        let k = choose|k: int| 0 <= k < rest.len() && rest[k] == s;
                        assert(e[k] == s);
                    } else {
                        assert(e[e.len() - 1] == s);
                    }
                    assert(e.contains(s));
                }
            }
        }
    }
}

/// With pairwise-distinct configured source names, the menu's sections
/// partition the story list: the per-source entry counts shown in the
/// header labels sum to the total number of stories (a section with no
/// stories is skipped and contributes nothing).
pub proof fn lemma_section_counts_sum(names: Seq<Seq<char>>, stories: Seq<StoryView>)
    requires
        distinct_names(names),
    ensures
        total_group_len(names + extra_names(stories, names), stories) == stories.len(),
{
    let extras = extra_names(stories, names);
    let ns = names + extras;
    lemma_extras_disjoint(stories, names);
    lemma_extras_distinct(stories, names);
    lemma_extras_cover(stories, names);
    assert forall|i: int, j: int| 0 <= i < j < ns.len() implies ns[i] != ns[j] by {
        if j < names.len() {
            assert(ns[i] == names[i]);
            assert(ns[j] == names[j]);
        } else if i >= names.len() {
            assert(ns[i] == extras[i - names.len()]);
            assert(ns[j] == extras[j - names.len()]);
        } else {
            assert(ns[i] == names[i]);
            assert(ns[j] == extras[j - names.len()]);
            if names[i] == extras[j - names.len()] {
                assert(extras.contains(extras[j - names.len()]));
                assert(names.contains(names[i]));
            }
        }
    }
    assert forall|i: int|
        0 <= i < stories.len() implies ns.contains((#[trigger] stories[i]).source) by {
        lemma_names_concat_contains(names, extras, stories[i].source);
    }
    lemma_partition_sum(ns, stories);
}

/// A drill-down entry's label: the sanitized title, marked `[NEW]` when the
/// story is new.
pub open spec fn source_entry_label(st: StoryView) -> Seq<char> {
    if st.is_new {
        "[NEW] "@ + sanitize_spec(st.title)
    } else {
        sanitize_spec(st.title)
    }
}

/// Builds the uncapped label list for one source's drill-down view.
pub fn build_source_labels(entries: &Vec<Story>) -> (r: Vec<String>)
    ensures
        r@.map_values(|l: String| l@) == Seq::new(
            story_views(entries@).len(),
            |j: int| source_entry_label(story_views(entries@)[j]),
        ),
{
    let ghost ev = story_views(entries@);
    let mut r: Vec<String> = Vec::new();
    let n: usize = entries.len();
    let mut i: usize = 0;
    proof {
        assert(r@.map_values(|l: String| l@) =~= Seq::new(
            0,
            |j: int| source_entry_label(ev[j]),
        ));
    }
    while i < n
        invariant
            0 <= i <= n,
            n == entries@.len(),
            ev == story_views(entries@),
            ev.len() == n,
            r@.map_values(|l: String| l@) == Seq::new(
                i as nat,
                |j: int| source_entry_label(ev[j]),
            ),
        decreases n - i,
    {
        let ghost before = r@.map_values(|l: String| l@);
        let mut s = String::new();
        if entries[i].is_new {
            s.append("[NEW] ");
        }
        let safe: String = sanitize_for_terminal(entries[i].title.as_str());
        s.append(safe.as_str());
        proof {
            assert(s@ =~= source_entry_label(ev[i as int]));
        }
        r.push(s);
        proof {
            assert(r@.map_values(|l: String| l@) =~= before.push(source_entry_label(ev[i as int])));
            assert(Seq::new((i + 1) as nat, |j: int| source_entry_label(ev[j])) =~= Seq::new(
                i as nat,
                |j: int| source_entry_label(ev[j]),
            ).push(source_entry_label(ev[i as int])));
        }
        i += 1;
    }
    r
}

} // verus!
