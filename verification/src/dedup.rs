use vstd::prelude::*;
use crate::model::{Story, StoryView, story_views};
use crate::text::{lex_le, lemma_lex_le_total, lemma_lex_le_trans, lemma_lex_le_antisym,
    lemma_lex_le_refl, str_le,
    str_eq};

verus! {

/// The links of a story list, in order.
pub open spec fn links_of(s: Seq<StoryView>) -> Seq<Seq<char>> {
    s.map_values(|st: StoryView| st.link)
}

/// Every pair of stories is in link order.
pub open spec fn sorted_by_link(s: Seq<StoryView>) -> bool {
    forall|i: int, j: int| 0 <= i < j < s.len() ==> lex_le(s[i].link, s[j].link)
}

/// Every pair of stories is in strict link order; in particular all links
/// are distinct.
pub open spec fn strictly_sorted_by_link(s: Seq<StoryView>) -> bool {
    forall|i: int, j: int|
        0 <= i < j < s.len() ==> lex_le(s[i].link, s[j].link) && s[i].link != s[j].link
}

/// Where a stable insertion sort puts one story: before the first story
/// whose link is not smaller than its own.
pub open spec fn insert_by_link(x: StoryView, s: Seq<StoryView>) -> Seq<StoryView>
    decreases s.len(),
{
    if s.len() == 0 {
        seq![x]
    } else if lex_le(x.link, s[0].link) {
        seq![x] + s
    } else {
        seq![s[0]] + insert_by_link(x, s.skip(1))
    }
}

/// The story list stably sorted by link.
pub open spec fn sort_by_link(s: Seq<StoryView>) -> Seq<StoryView>
    decreases s.len(),
{
    if s.len() == 0 {
        s
    } else {
        insert_by_link(s[0], sort_by_link(s.skip(1)))
    }
}

/// Consecutive equal-link runs collapsed to their first story.
pub open spec fn dedup_by_link(s: Seq<StoryView>) -> Seq<StoryView>
    decreases s.len(),
{
    if s.len() <= 1 {
        s
    } else if s.last().link == s[s.len() - 2].link {
        dedup_by_link(s.drop_last())
    } else {
        dedup_by_link(s.drop_last()).push(s.last())
    }
}

/// The whole deduplication step: sort the merged list by link, then collapse
/// each equal-link run to one representative.
pub open spec fn sorted_dedup(s: Seq<StoryView>) -> Seq<StoryView> {
    dedup_by_link(sort_by_link(s))
}

proof fn lemma_insert_by_link_at(x: StoryView, s: Seq<StoryView>, k: int)
    requires
        0 <= k <= s.len(),
        forall|j: int| 0 <= j < k ==> !lex_le(x.link, s[j].link),
        k == s.len() || lex_le(x.link, s[k].link),
    ensures
        insert_by_link(x, s) == s.take(k) + seq![x] + s.skip(k),
    decreases k,
{
    if k == 0 {
        assert(s.take(0) =~= Seq::<StoryView>::empty());
        assert(s.skip(0) =~= s);
        assert(insert_by_link(x, s) =~= s.take(0) + seq![x] + s.skip(0));
    } else {
        lemma_insert_by_link_at(x, s.skip(1), k - 1);
        assert(s.skip(1).take(k - 1) =~= s.take(k).skip(1));
        assert(s.skip(1).skip(k - 1) =~= s.skip(k));
        assert(seq![s[0]] + (s.skip(1).take(k - 1) + seq![x] + s.skip(1).skip(k - 1)) =~= s.take(k)
            + seq![x] + s.skip(k));
    }
}

/// Sorts stories by link with a stable insertion sort.
pub fn sort_stories_by_link(v: Vec<Story>) -> (r: Vec<Story>)
    ensures
        story_views(r@) == sort_by_link(story_views(v@)),
{
    let n: usize = v.len();
    let mut r: Vec<Story> = Vec::new();
    let mut i: usize = n;
    proof {
        assert(story_views(v@).skip(n as int) =~= Seq::<StoryView>::empty());
        assert(story_views(r@) =~= Seq::<StoryView>::empty());
    }
    while i > 0
        invariant
            0 <= i <= n,
            n == v@.len(),
            story_views(r@) == sort_by_link(story_views(v@).skip(i as int)),
        decreases i,
    {
        i -= 1;
        let x: Story = v[i].duplicate();
        let mut k: usize = 0;
        while k < r.len() && !str_le(x.link.as_str(), r[k].link.as_str())
            invariant
                0 <= k <= r@.len(),
                forall|j: int| 0 <= j < k ==> !lex_le(x@.link, story_views(r@)[j].link),
            decreases r@.len() - k,
        {
            k += 1;
        }
        proof {
            lemma_insert_by_link_at(x@, story_views(r@), k as int);
        }
        let ghost old_r = story_views(r@);
        r.insert(k, x);
        proof {
            assert(story_views(r@) =~= old_r.take(k as int) + seq![x@] + old_r.skip(k as int));
            let tail = story_views(v@).skip(i as int);
            assert(tail[0] == story_views(v@)[i as int]);
            assert(tail.skip(1) =~= story_views(v@).skip(i + 1));
            assert(story_views(r@) == sort_by_link(tail));
        }
    }
    proof {
        assert(story_views(v@).skip(0) =~= story_views(v@));
    }
    r
}

/// Collapses consecutive equal-link runs, keeping the first story of each.
pub fn dedup_stories_by_link(v: Vec<Story>) -> (r: Vec<Story>)
    ensures
        story_views(r@) == dedup_by_link(story_views(v@)),
{
    let mut r: Vec<Story> = Vec::new();
    let n: usize = v.len();
    if n == 0 {
        proof {
            assert(story_views(r@) =~= dedup_by_link(story_views(v@)));
        }
        return r;
    }
    r.push(v[0].duplicate());
    let mut i: usize = 1;
    proof {
        assert(story_views(v@).take(1) =~= seq![v@[0]@]);
        assert(story_views(r@) =~= story_views(v@).take(1));
    }
    while i < n
        invariant
            1 <= i <= n,
            n == v@.len(),
            r@.len() >= 1,
            story_views(r@) == dedup_by_link(story_views(v@).take(i as int)),
            story_views(r@).last().link == story_views(v@)[i - 1].link,
        decreases n - i,
    {
        let ghost pre = story_views(v@).take(i as int);
        let ghost cur = story_views(v@).take(i + 1);
        proof {
            assert(cur.drop_last() =~= pre);
            assert(cur.last() == story_views(v@)[i as int]);
        }
        let keep: bool = !str_eq(v[i].link.as_str(), r[r.len() - 1].link.as_str());
        if keep {
            let ghost old_r = story_views(r@);
            r.push(v[i].duplicate());
            proof {
                assert(story_views(r@) =~= old_r.push(v@[i as int]@));
            }
        }
        i += 1;
    }
    proof {
        assert(story_views(v@).take(n as int) =~= story_views(v@));
    }
    r
}

proof fn lemma_links_contains(s: Seq<StoryView>, l: Seq<char>)
    ensures
        links_of(s).contains(l) <==> exists|i: int| 0 <= i < s.len() && s[i].link == l,
{
    if links_of(s).contains(l) {
        let i = choose|i: int| 0 <= i < links_of(s).len() && links_of(s)[i] == l;
        assert(s[i].link == l);
    }
    if exists|i: int| 0 <= i < s.len() && s[i].link == l {
        let i = choose|i: int| 0 <= i < s.len() && s[i].link == l;
        assert(links_of(s)[i] == l);
    }
}

proof fn lemma_links_concat(a: Seq<StoryView>, b: Seq<StoryView>, l: Seq<char>)
    ensures
        links_of(a + b).contains(l) <==> (links_of(a).contains(l) || links_of(b).contains(l)),
{
    lemma_links_contains(a, l);
    lemma_links_contains(b, l);
    lemma_links_contains(a + b, l);
    if links_of(a + b).contains(l) {
        let i = choose|i: int| 0 <= i < (a + b).len() && (a + b)[i].link == l;
        if i < a.len() {
            assert(a[i].link == l);
        } else {
            assert(b[i - a.len()].link == l);
        }
    }
    if links_of(a).contains(l) {
        let i = choose|i: int| 0 <= i < a.len() && a[i].link == l;
        assert((a + b)[i].link == l);
    }
    if links_of(b).contains(l) {
        let i = choose|i: int| 0 <= i < b.len() && b[i].link == l;
        assert((a + b)[a.len() + i].link == l);
    }
}

proof fn lemma_insert_links(x: StoryView, s: Seq<StoryView>, l: Seq<char>)
    ensures
        links_of(insert_by_link(x, s)).contains(l) <==> (l == x.link || links_of(s).contains(l)),
    decreases s.len(),
{
    lemma_links_contains(s, l);
    lemma_links_contains(seq![x], l);
    assert(seq![x][0].link == x.link);
    if s.len() == 0 {
        assert(insert_by_link(x, s) == seq![x]);
        lemma_links_contains(insert_by_link(x, s), l);
    } else if lex_le(x.link, s[0].link) {
        lemma_links_concat(seq![x], s, l);
    } else {
        lemma_insert_links(x, s.skip(1), l);
        lemma_links_concat(seq![s[0]], insert_by_link(x, s.skip(1)), l);
        lemma_links_contains(seq![s[0]], l);
        assert(seq![s[0]][0].link == s[0].link);
        lemma_links_concat(seq![s[0]], s.skip(1), l);
        assert(seq![s[0]] + s.skip(1) =~= s);
        lemma_links_contains(s.skip(1), l);
    }
}

proof fn lemma_sort_links(s: Seq<StoryView>, l: Seq<char>)
    ensures
        links_of(sort_by_link(s)).contains(l) <==> links_of(s).contains(l),
    decreases s.len(),
{
    lemma_links_contains(s, l);
    if s.len() > 0 {
        lemma_sort_links(s.skip(1), l);
        lemma_links_contains(s.skip(1), l);
        lemma_insert_links(s[0], sort_by_link(s.skip(1)), l);
        if links_of(s).contains(l) {
            let i = choose|i: int| 0 <= i < s.len() && s[i].link == l;
            if i >= 1 {
                assert(s.skip(1)[i - 1].link == l);
            }
        }
        if l != s[0].link && links_of(s.skip(1)).contains(l) {
            let i = choose|i: int| 0 <= i < s.skip(1).len() && s.skip(1)[i].link == l;
            assert(s[i + 1].link == l);
        }
    }
}

proof fn lemma_insert_sorted(x: StoryView, s: Seq<StoryView>)
    requires
        sorted_by_link(s),
    ensures
        sorted_by_link(insert_by_link(x, s)),
    decreases s.len(),
{
    if s.len() == 0 {
    } else if lex_le(x.link, s[0].link) {
        let r = seq![x] + s;
        assert forall|i: int, j: int| 0 <= i < j < r.len() implies lex_le(
            r[i].link,
            r[j].link,
        ) by {
            if i == 0 {
                if j >= 1 {
                    assert(r[j] == s[j - 1]);
                    if j - 1 > 0 {
                        lemma_lex_le_trans(x.link, s[0].link, s[j - 1].link);
                    }
                }
            } else {
                assert(r[i] == s[i - 1]);
                assert(r[j] == s[j - 1]);
            }
        }
    } else {
        lemma_lex_le_total(x.link, s[0].link);
        assert forall|i: int, j: int| 0 <= i < j < s.skip(1).len() implies lex_le(
            s.skip(1)[i].link,
            s.skip(1)[j].link,
        ) by {
            assert(s.skip(1)[i] == s[i + 1]);
            assert(s.skip(1)[j] == s[j + 1]);
        }
        lemma_insert_sorted(x, s.skip(1));
        let t = insert_by_link(x, s.skip(1));
        let r = seq![s[0]] + t;
        assert forall|i: int, j: int| 0 <= i < j < r.len() implies lex_le(
            r[i].link,
            r[j].link,
        ) by {
            if i == 0 {
                assert(r[j] == t[j - 1]);
                lemma_insert_links(x, s.skip(1), t[j - 1].link);
                lemma_links_contains(s.skip(1), t[j - 1].link);
                lemma_links_contains(t, t[j - 1].link);
                assert(links_of(t)[j - 1] == t[j - 1].link);
                if t[j - 1].link == x.link {
                    assert(lex_le(s[0].link, x.link));
                } else {
                    let k = choose|k: int|
                        0 <= k < s.skip(1).len() && s.skip(1)[k].link == t[j - 1].link;
                    assert(s[k + 1] == s.skip(1)[k]);
                    assert(lex_le(s[0].link, s[k + 1].link));
                }
            } else {
                assert(r[i] == t[i - 1]);
                assert(r[j] == t[j - 1]);
            }
        }
    }
}

proof fn lemma_sort_sorted(s: Seq<StoryView>)
    ensures
        sorted_by_link(sort_by_link(s)),
    decreases s.len(),
{
    if s.len() > 0 {
        lemma_sort_sorted(s.skip(1));
        lemma_insert_sorted(s[0], sort_by_link(s.skip(1)));
    }
}

proof fn lemma_dedup_of_sorted(s: Seq<StoryView>)
    requires
        sorted_by_link(s),
    ensures
        strictly_sorted_by_link(dedup_by_link(s)),
        forall|l: Seq<char>| links_of(dedup_by_link(s)).contains(l) <==> links_of(s).contains(l),
    decreases s.len(),
{
    if s.len() <= 1 {
    } else {
        let d = s.drop_last();
        assert forall|i: int, j: int| 0 <= i < j < d.len() implies lex_le(
            d[i].link,
            d[j].link,
        ) by {
            assert(d[i] == s[i]);
            assert(d[j] == s[j]);
        }
        lemma_dedup_of_sorted(d);
        assert forall|l: Seq<char>|
            links_of(s).contains(l) <==> (links_of(d).contains(l) || l == s.last().link) by {
            lemma_links_contains(s, l);
            lemma_links_contains(d, l);
            if links_of(s).contains(l) {
                let i = choose|i: int| 0 <= i < s.len() && s[i].link == l;
                if i < s.len() - 1 {
                    assert(d[i].link == l);
                }
            }
            if links_of(d).contains(l) {
                let i = choose|i: int| 0 <= i < d.len() && d[i].link == l;
                assert(s[i].link == l);
            }
        }
        if s.last().link == s[s.len() - 2].link {
            assert forall|l: Seq<char>|
                links_of(dedup_by_link(s)).contains(l) <==> links_of(s).contains(l) by {
                lemma_links_contains(d, s.last().link);
                assert(d[s.len() - 2].link == s.last().link);
            }
        } else {
            let r = dedup_by_link(d).push(s.last());
            assert(dedup_by_link(s) == r);
            // no earlier story shares the last link, else the two before the
            // end would already share it
            assert forall|i: int| 0 <= i < d.len() implies d[i].link != s.last().link by {
                if d[i].link == s.last().link {
                    assert(lex_le(s[i as int].link, s[s.len() - 2].link));
                    assert(lex_le(s[s.len() - 2].link, s.last().link));
                    lemma_lex_le_antisym(s[s.len() - 2].link, s.last().link);
                }
            }
            assert forall|i: int, j: int| 0 <= i < j < r.len() implies lex_le(r[i].link, r[j].link)
                && r[i].link != r[j].link by {
                if j == r.len() - 1 {
                    let e = r[i];
                    assert(dedup_by_link(d)[i] == e);
                    assert(r[j] == s.last());
                    lemma_links_contains(dedup_by_link(d), e.link);
                    assert(links_of(dedup_by_link(d))[i] == e.link);
                    lemma_links_contains(d, e.link);
                    let k = choose|k: int| 0 <= k < d.len() && d[k].link == e.link;
                    assert(d[k] == s[k]);
                    assert(lex_le(s[k].link, s.last().link));
                    assert(d[k].link != s.last().link);
                } else {
                    assert(r[i] == dedup_by_link(d)[i]);
                    assert(r[j] == dedup_by_link(d)[j]);
                }
            }
            assert forall|l: Seq<char>|
                links_of(r).contains(l) <==> links_of(s).contains(l) by {
                lemma_links_contains(r, l);
                lemma_links_contains(dedup_by_link(d), l);
                lemma_links_contains(d, l);
                if links_of(r).contains(l) {
                    let i = choose|i: int| 0 <= i < r.len() && r[i].link == l;
                    if i < r.len() - 1 {
                        assert(dedup_by_link(d)[i].link == l);
                    }
                }
                if links_of(d).contains(l) {
                    let i = choose|i: int|
                        0 <= i < dedup_by_link(d).len() && dedup_by_link(d)[i].link == l;
                    assert(r[i].link == l);
                }
                if l == s.last().link {
                    assert(r[r.len() - 1].link == l);
                }
            }
        }
    }
}

proof fn lemma_sort_of_sorted_id(s: Seq<StoryView>)
    requires
        sorted_by_link(s),
    ensures
        sort_by_link(s) == s,
    decreases s.len(),
{
    if s.len() > 0 {
        let t = s.skip(1);
        assert forall|i: int, j: int| 0 <= i < j < t.len() implies lex_le(
            t[i].link,
            t[j].link,
        ) by {
            assert(t[i] == s[i + 1]);
            assert(t[j] == s[j + 1]);
        }
        lemma_sort_of_sorted_id(t);
        if t.len() == 0 {
            assert(insert_by_link(s[0], t) =~= s);
        } else {
            assert(t[0] == s[1]);
            assert(lex_le(s[0].link, t[0].link));
            assert(seq![s[0]] + t =~= s);
        }
    }
}

proof fn lemma_dedup_of_strict_id(s: Seq<StoryView>)
    requires
        strictly_sorted_by_link(s),
    ensures
        dedup_by_link(s) == s,
    decreases s.len(),
{
    if s.len() > 1 {
        let d = s.drop_last();
        assert forall|i: int, j: int| 0 <= i < j < d.len() implies lex_le(d[i].link, d[j].link)
            && d[i].link != d[j].link by {
            assert(d[i] == s[i]);
            assert(d[j] == s[j]);
        }
        lemma_dedup_of_strict_id(d);
        assert(lex_le(s[s.len() - 2].link, s[s.len() - 1].link) && s[s.len() - 2].link != s[s.len()
            - 1].link);
        assert(s.last().link != s[s.len() - 2].link);
        assert(d.push(s.last()) =~= s);
    }
}

proof fn lemma_insert_all(x: StoryView, s: Seq<StoryView>, p: spec_fn(StoryView) -> bool)
    requires
        p(x),
        forall|i: int| 0 <= i < s.len() ==> p(#[trigger] s[i]),
    ensures
        forall|i: int|
            0 <= i < insert_by_link(x, s).len() ==> p(#[trigger] insert_by_link(x, s)[i]),
    decreases s.len(),
{
    if s.len() == 0 {
        assert(insert_by_link(x, s) == seq![x]);
        assert(insert_by_link(x, s)[0] == x);
    } else if lex_le(x.link, s[0].link) {
        let r = seq![x] + s;
        assert forall|i: int| 0 <= i < r.len() implies p(r[i]) by {
            if i >= 1 {
                assert(r[i] == s[i - 1]);
            }
        }
    } else {
        assert forall|i: int| 0 <= i < s.skip(1).len() implies p(#[trigger] s.skip(1)[i]) by {
            assert(s.skip(1)[i] == s[i + 1]);
        }
        lemma_insert_all(x, s.skip(1), p);
        let r = seq![s[0]] + insert_by_link(x, s.skip(1));
        assert forall|i: int| 0 <= i < r.len() implies p(r[i]) by {
            if i >= 1 {
                assert(r[i] == insert_by_link(x, s.skip(1))[i - 1]);
            }
        }
    }
}

proof fn lemma_sort_all(s: Seq<StoryView>, p: spec_fn(StoryView) -> bool)
    requires
        forall|i: int| 0 <= i < s.len() ==> p(#[trigger] s[i]),
    ensures
        forall|i: int| 0 <= i < sort_by_link(s).len() ==> p(#[trigger] sort_by_link(s)[i]),
    decreases s.len(),
{
    if s.len() > 0 {
        assert forall|i: int| 0 <= i < s.skip(1).len() implies p(#[trigger] s.skip(1)[i]) by {
            assert(s.skip(1)[i] == s[i + 1]);
        }
        lemma_sort_all(s.skip(1), p);
        lemma_insert_all(s[0], sort_by_link(s.skip(1)), p);
    }
}

proof fn lemma_dedup_all(s: Seq<StoryView>, p: spec_fn(StoryView) -> bool)
    requires
        forall|i: int| 0 <= i < s.len() ==> p(#[trigger] s[i]),
    ensures
        forall|i: int| 0 <= i < dedup_by_link(s).len() ==> p(#[trigger] dedup_by_link(s)[i]),
    decreases s.len(),
{
    if s.len() > 1 {
        let d = s.drop_last();
        assert forall|i: int| 0 <= i < d.len() implies p(#[trigger] d[i]) by {
            assert(d[i] == s[i]);
        }
        lemma_dedup_all(d, p);
        if s.last().link != s[s.len() - 2].link {
            let r = dedup_by_link(d).push(s.last());
            assert forall|i: int| 0 <= i < r.len() implies p(r[i]) by {
                if i < r.len() - 1 {
                    assert(r[i] == dedup_by_link(d)[i]);
                } else {
                    assert(r[i] == s.last());
                }
            }
        }
    }
}

/// Whatever holds of every merged story holds of every story that survives
/// sorting and deduplication.
pub proof fn lemma_sorted_dedup_all(s: Seq<StoryView>, p: spec_fn(StoryView) -> bool)
    requires
        forall|i: int| 0 <= i < s.len() ==> p(#[trigger] s[i]),
    ensures
        forall|i: int| 0 <= i < sorted_dedup(s).len() ==> p(#[trigger] sorted_dedup(s)[i]),
{
    lemma_sort_all(s, p);
    lemma_dedup_all(sort_by_link(s), p);
}

/// The stories of one link, in list order; its head is the first occurrence
/// of that link.
pub open spec fn with_link(s: Seq<StoryView>, l: Seq<char>) -> Seq<StoryView>
    decreases s.len(),
{
    if s.len() == 0 {
        Seq::empty()
    } else if s[0].link == l {
        seq![s[0]] + with_link(s.skip(1), l)
    } else {
        with_link(s.skip(1), l)
    }
}

proof fn lemma_with_link_concat(a: Seq<StoryView>, b: Seq<StoryView>, l: Seq<char>)
    ensures
        with_link(a + b, l) == with_link(a, l) + with_link(b, l),
    decreases a.len(),
{
    if a.len() == 0 {
        assert(a + b =~= b);
        assert(with_link(a, l) + with_link(b, l) =~= with_link(b, l));
    } else {
        lemma_with_link_concat(a.skip(1), b, l);
        assert((a + b).skip(1) =~= a.skip(1) + b);
        assert((a + b)[0] == a[0]);
        if a[0].link == l {
            assert(seq![a[0]] + (with_link(a.skip(1), l) + with_link(b, l)) =~= (seq![a[0]]
                + with_link(a.skip(1), l)) + with_link(b, l));
        }
    }
}

proof fn lemma_with_link_single(x: StoryView, l: Seq<char>)
    ensures
        with_link(seq![x], l) == if x.link == l {
            seq![x]
        } else {
            Seq::<StoryView>::empty()
        },
{
    assert(seq![x].skip(1) =~= Seq::<StoryView>::empty());
    assert(seq![x][0] == x);
    assert(with_link(Seq::<StoryView>::empty(), l) == Seq::<StoryView>::empty());
    if x.link == l {
        assert(with_link(seq![x], l) =~= seq![x]);
    }
}

proof fn lemma_with_link_nonempty(s: Seq<StoryView>, l: Seq<char>)
    ensures
        links_of(s).contains(l) <==> with_link(s, l).len() > 0,
    decreases s.len(),
{
    lemma_links_contains(s, l);
    if s.len() > 0 {
        lemma_with_link_nonempty(s.skip(1), l);
        lemma_links_contains(s.skip(1), l);
        if exists|i: int| 0 <= i < s.len() && s[i].link == l {
            let i = choose|i: int| 0 <= i < s.len() && s[i].link == l;
            if i > 0 {
                assert(s.skip(1)[i - 1].link == l);
            }
        }
        if exists|i: int| 0 <= i < s.skip(1).len() && s.skip(1)[i].link == l {
            let i = choose|i: int| 0 <= i < s.skip(1).len() && s.skip(1)[i].link == l;
            assert(s[i + 1].link == l);
        }
    }
}

proof fn lemma_with_link_insert(x: StoryView, t: Seq<StoryView>, l: Seq<char>)
    ensures
        with_link(insert_by_link(x, t), l) == if x.link == l {
            seq![x] + with_link(t, l)
        } else {
            with_link(t, l)
        },
    decreases t.len(),
{
    if t.len() == 0 {
        assert(insert_by_link(x, t) == seq![x]);
        lemma_with_link_single(x, l);
        if x.link == l {
            assert(seq![x] + with_link(t, l) =~= seq![x]);
        }
    } else if lex_le(x.link, t[0].link) {
        assert(insert_by_link(x, t) == seq![x] + t);
        lemma_with_link_concat(seq![x], t, l);
        lemma_with_link_single(x, l);
        if x.link == l {
        } else {
            assert(Seq::<StoryView>::empty() + with_link(t, l) =~= with_link(t, l));
        }
    } else {
        // equal links would make the comparison reflexive, so the head link
        // differs from the inserted story's
        lemma_lex_le_refl(x.link);
        assert(x.link != t[0].link);
        lemma_with_link_insert(x, t.skip(1), l);
        let rest = insert_by_link(x, t.skip(1));
        assert(insert_by_link(x, t) == seq![t[0]] + rest);
        lemma_with_link_concat(seq![t[0]], rest, l);
        lemma_with_link_single(t[0], l);
        if x.link == l {
            assert(t[0].link != l);
            assert(with_link(seq![t[0]], l) =~= Seq::<StoryView>::empty());
            assert(with_link(insert_by_link(x, t), l) =~= seq![x] + with_link(t.skip(1), l));
            assert(with_link(t, l) == with_link(t.skip(1), l));
        } else {
            if t[0].link == l {
                assert(with_link(insert_by_link(x, t), l) =~= seq![t[0]] + with_link(
                    t.skip(1),
                    l,
                ));
            } else {
                assert(with_link(insert_by_link(x, t), l) =~= with_link(t.skip(1), l));
            }
        }
    }
}

proof fn lemma_with_link_sort(s: Seq<StoryView>, l: Seq<char>)
    ensures
        with_link(sort_by_link(s), l) == with_link(s, l),
    decreases s.len(),
{
    if s.len() > 0 {
        lemma_with_link_sort(s.skip(1), l);
        lemma_with_link_insert(s[0], sort_by_link(s.skip(1)), l);
    }
}

proof fn lemma_dedup_first_of_sorted(t: Seq<StoryView>)
    requires
        sorted_by_link(t),
    ensures
        forall|i: int|
            0 <= i < dedup_by_link(t).len() ==> with_link(
                t,
                (#[trigger] dedup_by_link(t)[i]).link,
            ).len() > 0 && dedup_by_link(t)[i] == with_link(t, dedup_by_link(t)[i].link)[0],
    decreases t.len(),
{
    if t.len() == 0 {
    } else if t.len() == 1 {
        assert(t.skip(1) =~= Seq::<StoryView>::empty());
        assert(dedup_by_link(t) == t);
        assert(with_link(Seq::<StoryView>::empty(), t[0].link) == Seq::<StoryView>::empty());
        assert(with_link(t, t[0].link) =~= seq![t[0]] + Seq::<StoryView>::empty());
        assert(with_link(t, t[0].link)[0] == t[0]);
    } else {
        let d = t.drop_last();
        assert forall|i: int, j: int| 0 <= i < j < d.len() implies lex_le(
            d[i].link,
            d[j].link,
        ) by {
            assert(d[i] == t[i]);
            assert(d[j] == t[j]);
        }
        lemma_dedup_first_of_sorted(d);
        lemma_dedup_of_sorted(d);
        assert(t =~= d + seq![t.last()]);
        if t.last().link == t[t.len() - 2].link {
            assert(dedup_by_link(t) == dedup_by_link(d));
            assert forall|i: int| 0 <= i < dedup_by_link(t).len() implies with_link(
                t,
                (#[trigger] dedup_by_link(t)[i]).link,
            ).len() > 0 && dedup_by_link(t)[i] == with_link(t, dedup_by_link(t)[i].link)[0] by {
                let e = dedup_by_link(d)[i];
                lemma_with_link_concat(d, seq![t.last()], e.link);
                assert(with_link(t, e.link)[0] == with_link(d, e.link)[0]);
            }
        } else {
            let r = dedup_by_link(d).push(t.last());
            assert(dedup_by_link(t) == r);
            // no earlier story shares the final link, else the two before the
            // end would already share it
            assert forall|k: int| 0 <= k < d.len() implies d[k].link != t.last().link by {
                if d[k].link == t.last().link {
                    assert(lex_le(t[k as int].link, t[t.len() - 2].link));
                    assert(lex_le(t[t.len() - 2].link, t.last().link));
                    lemma_lex_le_antisym(t[t.len() - 2].link, t.last().link);
                }
            }
            lemma_links_contains(d, t.last().link);
            lemma_with_link_nonempty(d, t.last().link);
            assert forall|i: int| 0 <= i < r.len() implies with_link(
                t,
                (#[trigger] r[i]).link,
            ).len() > 0 && r[i] == with_link(t, r[i].link)[0] by {
                lemma_with_link_concat(d, seq![t.last()], r[i].link);
                lemma_with_link_single(t.last(), r[i].link);
                if i < r.len() - 1 {
                    let e = dedup_by_link(d)[i];
                    assert(r[i] == e);
                    assert(with_link(d, e.link).len() > 0);
                    assert(with_link(t, e.link)[0] == with_link(d, e.link)[0]);
                } else {
                    assert(r[i] == t.last());
                    assert(with_link(d, t.last().link).len() == 0);
                    assert(with_link(t, t.last().link) =~= seq![t.last()]);
                }
            }
        }
    }
}

/// Which story survives deduplication for each link: the first story, in
/// merged-list order, that carries that link; its title and source are that
/// first occurrence's.
pub proof fn lemma_dedup_keeps_first_occurrence(s: Seq<StoryView>)
    ensures
        forall|i: int|
            0 <= i < sorted_dedup(s).len() ==> with_link(
                s,
                (#[trigger] sorted_dedup(s)[i]).link,
            ).len() > 0 && sorted_dedup(s)[i] == with_link(s, sorted_dedup(s)[i].link)[0],
{
    lemma_sort_sorted(s);
    lemma_dedup_first_of_sorted(sort_by_link(s));
    assert forall|i: int| 0 <= i < sorted_dedup(s).len() implies with_link(
        s,
        (#[trigger] sorted_dedup(s)[i]).link,
    ).len() > 0 && sorted_dedup(s)[i] == with_link(s, sorted_dedup(s)[i].link)[0] by {
        lemma_with_link_sort(s, sorted_dedup(s)[i].link);
    }
}

/// Deduplication keeps exactly one story for each distinct link, and running
/// it again on its own output changes nothing.
pub proof fn lemma_dedup_idempotent(s: Seq<StoryView>)
    ensures
        strictly_sorted_by_link(sorted_dedup(s)),
        forall|l: Seq<char>| links_of(sorted_dedup(s)).contains(l) <==> links_of(s).contains(l),
        sorted_dedup(sorted_dedup(s)) == sorted_dedup(s),
{
    lemma_sort_sorted(s);
    lemma_dedup_of_sorted(sort_by_link(s));
    assert forall|l: Seq<char>|
        links_of(sorted_dedup(s)).contains(l) <==> links_of(s).contains(l) by {
        lemma_sort_links(s, l);
    }
    let r = sorted_dedup(s);
    assert(sorted_by_link(r));
    lemma_sort_of_sorted_id(r);
    lemma_dedup_of_strict_id(r);
}

} // verus!
