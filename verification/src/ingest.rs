use vstd::prelude::*;
use crate::model::{Feed, FeedView, feed_views, Story, StoryView, story_views, SeenStories};
use crate::feed::{RawEntry, RawEntryView, story_of, entry_views, entry_to_story};
use crate::normalize::{opt_str_view, opt_string_view, base_of, resolve_base};
use crate::dedup::{sorted_dedup, sort_stories_by_link, dedup_stories_by_link, links_of};

verus! {

/// Why one source contributed nothing: its payload was over the byte cap,
/// or its bytes did not parse as a feed.
#[derive(Clone, Copy, Debug, PartialEq, Eq, Structural)]
pub enum SourceError {
    TooLarge,
    ParseFailed,
}

/// One fetched payload reduced to what the pipeline checks and reads: the
/// raw byte length, for the size cap, and the parsed entry list, `None`
/// when the bytes did not parse as a feed.  The parse itself runs outside
/// the library: the feed parser in use can crash on crafted input, and no
/// `requires` could exclude such bytes (no caller could establish it
/// without making the call), so the fetch layer parses under unwind
/// protection and hands the outcome in as plain data, which the pipeline
/// is then verified to handle for every value.
pub struct PayloadData {
    pub len: usize,
    pub entries: Option<Vec<RawEntry>>,
}

pub ghost struct PayloadDataView {
    pub len: nat,
    pub entries: Option<Seq<RawEntryView>>,
}

impl View for PayloadData {
    type V = PayloadDataView;

    open spec fn view(&self) -> PayloadDataView {
        PayloadDataView {
            len: self.len as nat,
            entries: match self.entries {
                Some(v) => Some(entry_views(v@)),
                None => None,
            },
        }
    }
}

/// What the fetch step hands the pipeline for one source: the payload's
/// length and parsed entries, `None` when the fetch itself failed or was
/// abandoned, and whether the source was remote (only remote sources get a
/// base URL for resolving relative links).
pub struct FetchedPayload {
    pub payload: Option<PayloadData>,
    pub remote: bool,
}

pub ghost struct FetchedPayloadView {
    pub payload: Option<PayloadDataView>,
    pub remote: bool,
}

impl View for FetchedPayload {
    type V = FetchedPayloadView;

    open spec fn view(&self) -> FetchedPayloadView {
        FetchedPayloadView {
            payload: match self.payload {
                Some(d) => Some(d@),
                None => None,
            },
            remote: self.remote,
        }
    }
}

pub open spec fn payload_views(ps: Seq<FetchedPayload>) -> Seq<FetchedPayloadView> {
    ps.map_values(|p: FetchedPayload| p@)
}

/// One source reported as failed, by its configured name.
pub struct SourceIssue {
    pub source: String,
    pub error: SourceError,
}

impl View for SourceIssue {
    type V = (Seq<char>, SourceError);

    open spec fn view(&self) -> (Seq<char>, SourceError) {
        (self.source@, self.error)
    }
}

pub open spec fn issue_views(is: Seq<SourceIssue>) -> Seq<(Seq<char>, SourceError)> {
    is.map_values(|i: SourceIssue| i@)
}

/// Every story in the list carries a non-empty link, as the data model
/// demands: entries whose link fails normalization never become stories.
pub open spec fn all_links_nonempty(s: Seq<StoryView>) -> bool {
    forall|i: int| 0 <= i < s.len() ==> (#[trigger] s[i]).link.len() > 0
}

/// The stories of a parsed entry list, in entry order: each entry's story,
/// skipping entries whose link does not survive normalization.
pub open spec fn extract_stories(
    es: Seq<RawEntryView>,
    source: Seq<char>,
    base: Option<Seq<char>>,
    seen: Set<Seq<char>>,
) -> Seq<StoryView>
    decreases es.len(),
{
    if es.len() == 0 {
        Seq::empty()
    } else {
        let rest = extract_stories(es.drop_last(), source, base, seen);
        match story_of(es.last(), source, base, seen) {
            Some(s) => rest.push(s),
            None => rest,
        }
    }
}

/// What one payload yields: rejected outright when over the 5 MiB cap,
/// rejected when its bytes did not parse as a feed, otherwise the stories
/// extracted from its entries.
pub open spec fn source_result_spec(
    data: PayloadDataView,
    source: Seq<char>,
    base: Option<Seq<char>>,
    seen: Set<Seq<char>>,
) -> Result<Seq<StoryView>, SourceError> {
    if data.len > 5 * 1024 * 1024 {
        Err(SourceError::TooLarge)
    } else {
        match data.entries {
            Some(es) => Ok(extract_stories(es, source, base, seen)),
            None => Err(SourceError::ParseFailed),
        }
    }
}

/// Extracts one payload's stories; a payload over the byte cap is rejected
/// without its entries being looked at, and one whose bytes did not parse
/// is rejected as a parse failure.
pub fn collect_from_payload(
    data: &PayloadData,
    source: &str,
    base: Option<&str>,
    seen: &SeenStories,
) -> (r: Result<Vec<Story>, SourceError>)
    ensures
        match r {
            Ok(v) => source_result_spec(data@, source@, opt_str_view(base), seen@) == Ok::<
                _,
                SourceError,
            >(story_views(v@)),
            Err(e) => source_result_spec(data@, source@, opt_str_view(base), seen@) == Err::<
                Seq<StoryView>,
                _,
            >(e),
        },
        r matches Ok(v) ==> all_links_nonempty(story_views(v@)),
{
    if data.len > crate::max_feed_bytes() {
        return Err(SourceError::TooLarge);
    }
    match &data.entries {
        Some(entries) => {
            let ghost evs = entry_views(entries@);
            let mut out: Vec<Story> = Vec::new();
            let n: usize = entries.len();
            let mut i: usize = 0;
            proof {
                assert(evs.take(0) =~= Seq::<RawEntryView>::empty());
                assert(story_views(out@) =~= Seq::<StoryView>::empty());
            }
            while i < n
                invariant
                    0 <= i <= n,
                    n == entries@.len(),
                    evs == entry_views(entries@),
                    evs.len() == n,
                    story_views(out@) == extract_stories(
                        evs.take(i as int),
                        source@,
                        opt_str_view(base),
                        seen@,
                    ),
                    all_links_nonempty(story_views(out@)),
                decreases n - i,
            {
                let ghost old_out = story_views(out@);
                proof {
                    assert(evs.take(i + 1).drop_last() =~= evs.take(i as int));
                    assert(evs.take(i + 1).last() == evs[i as int]);
                    assert(evs[i as int] == entries@[i as int]@);
                }
                match entry_to_story(&entries[i], source, base, seen) {
                    Some(st) => {
                        let ghost stv = st@;
                        out.push(st);
                        proof {
                            assert(story_views(out@) =~= old_out.push(stv));
                            assert forall|q: int| 0 <= q < story_views(out@).len() implies (
                            #[trigger] story_views(out@)[q]).link.len() > 0 by {
                                if q < old_out.len() {
                                    assert(story_views(out@)[q] == old_out[q]);
                                } else {
                                    assert(story_views(out@)[q] == stv);
                                }
                            }
                        }
                    },
                    None => {},
                }
                i += 1;
            }
            proof {
                assert(evs.take(n as int) =~= evs);
            }
            Ok(out)
        },
        None => Err(SourceError::ParseFailed),
    }
}

/// What one configured source contributes to the merged list: nothing when
/// its fetch failed or its payload was rejected, its stories otherwise.
pub open spec fn source_contribution(
    f: FeedView,
    p: FetchedPayloadView,
    seen: Set<Seq<char>>,
) -> Seq<StoryView> {
    match p.payload {
        Some(d) => {
            let base = if p.remote {
                base_of(f.url)
            } else {
                None
            };
            match source_result_spec(d, f.name, base, seen) {
                Ok(s) => s,
                Err(_) => Seq::empty(),
            }
        },
        None => Seq::empty(),
    }
}

/// The report one source produces: its name and error when its payload was
/// rejected, nothing otherwise.
pub open spec fn source_issue(f: FeedView, p: FetchedPayloadView, seen: Set<Seq<char>>) -> Option<
    (Seq<char>, SourceError),
> {
    match p.payload {
        Some(d) => {
            let base = if p.remote {
                base_of(f.url)
            } else {
                None
            };
            match source_result_spec(d, f.name, base, seen) {
                Ok(_) => None,
                Err(e) => Some((f.name, e)),
            }
        },
        None => None,
    }
}

/// All sources' stories, merged in configured source order.
pub open spec fn merged_stories(
    feeds: Seq<FeedView>,
    ps: Seq<FetchedPayloadView>,
    seen: Set<Seq<char>>,
) -> Seq<StoryView>
    decreases feeds.len(),
{
    if feeds.len() == 0 {
        Seq::empty()
    } else {
        merged_stories(feeds.drop_last(), ps.drop_last(), seen) + source_contribution(
            feeds.last(),
            ps.last(),
            seen,
        )
    }
}

/// All sources' failure reports, in configured source order.
pub open spec fn merged_issues(
    feeds: Seq<FeedView>,
    ps: Seq<FetchedPayloadView>,
    seen: Set<Seq<char>>,
) -> Seq<(Seq<char>, SourceError)>
    decreases feeds.len(),
{
    if feeds.len() == 0 {
        Seq::empty()
    } else {
        merged_issues(feeds.drop_last(), ps.drop_last(), seen) + (match source_issue(
            feeds.last(),
            ps.last(),
            seen,
        ) {
            Some(x) => seq![x],
            None => Seq::empty(),
        })
    }
}

/// The whole ingestion result: every source's surviving stories merged,
/// sorted by link, and collapsed to one story per link.
pub open spec fn ingest_spec(
    feeds: Seq<FeedView>,
    ps: Seq<FetchedPayloadView>,
    seen: Set<Seq<char>>,
) -> Seq<StoryView> {
    sorted_dedup(merged_stories(feeds, ps, seen))
}

/// The stories and the failure reports of one ingestion run.
pub struct IngestOutcome {
    pub stories: Vec<Story>,
    pub issues: Vec<SourceIssue>,
}

fn append_stories(dst: &mut Vec<Story>, src: &Vec<Story>)
    ensures
        story_views(final(dst)@) == story_views(old(dst)@) + story_views(src@),
{
    let n: usize = src.len();
    let mut j: usize = 0;
    proof {
        assert(story_views(src@).take(0) =~= Seq::<StoryView>::empty());
        assert(story_views(dst@) =~= story_views(old(dst)@) + story_views(src@).take(0));
    }
    while j < n
        invariant
            0 <= j <= n,
            n == src@.len(),
            story_views(dst@) == story_views(old(dst)@) + story_views(src@).take(j as int),
        decreases n - j,
    {
        let ghost before = story_views(dst@);
        dst.push(src[j].duplicate());
        proof {
            assert(story_views(dst@) =~= before.push(src@[j as int]@));
            assert(story_views(src@).take(j + 1) =~= story_views(src@).take(j as int).push(
                src@[j as int]@,
            ));
            assert(story_views(dst@) =~= story_views(old(dst)@) + story_views(src@).take(j + 1));
        }
        j += 1;
    }
    proof {
        assert(story_views(src@).take(n as int) =~= story_views(src@));
    }
}

/// Fetches nothing itself: takes each configured source's already-fetched
/// payload, extracts and normalizes its entries, merges everything,
/// deduplicates by link, and reports each failed source by name.
pub fn collect_stories(feeds: &Vec<Feed>, payloads: &Vec<FetchedPayload>, seen: &SeenStories) -> (r:
    IngestOutcome)
    requires
        feeds@.len() == payloads@.len(),
    ensures
        story_views(r.stories@) == ingest_spec(feed_views(feeds@), payload_views(payloads@), seen@),
        issue_views(r.issues@) == merged_issues(
            feed_views(feeds@),
            payload_views(payloads@),
            seen@,
        ),
        all_links_nonempty(story_views(r.stories@)),
{
    let ghost fv = feed_views(feeds@);
    let ghost pv = payload_views(payloads@);
    let mut all: Vec<Story> = Vec::new();
    let mut issues: Vec<SourceIssue> = Vec::new();
    let n: usize = feeds.len();
    let mut i: usize = 0;
    proof {
        assert(fv.take(0) =~= Seq::<FeedView>::empty());
        assert(story_views(all@) =~= merged_stories(fv.take(0), pv.take(0), seen@));
        assert(issue_views(issues@) =~= merged_issues(fv.take(0), pv.take(0), seen@));
    }
    while i < n
        invariant
            0 <= i <= n,
            n == feeds@.len(),
            n == payloads@.len(),
            fv == feed_views(feeds@),
            pv == payload_views(payloads@),
            fv.len() == n,
            pv.len() == n,
            story_views(all@) == merged_stories(fv.take(i as int), pv.take(i as int), seen@),
            issue_views(issues@) == merged_issues(fv.take(i as int), pv.take(i as int), seen@),
            all_links_nonempty(story_views(all@)),
        decreases n - i,
    {
        proof {
            assert(fv.take(i + 1).drop_last() =~= fv.take(i as int));
            assert(pv.take(i + 1).drop_last() =~= pv.take(i as int));
            assert(fv.take(i + 1).last() == fv[i as int]);
            assert(pv.take(i + 1).last() == pv[i as int]);
            assert(fv[i as int] == feeds@[i as int]@);
            assert(pv[i as int] == payloads@[i as int]@);
        }
        let ghost stories_before = story_views(all@);
        let ghost issues_before = issue_views(issues@);
        match &payloads[i].payload {
            Some(data) => {
                let base: Option<String> = if payloads[i].remote {
                    resolve_base(feeds[i].url.as_str())
                } else {
                    None
                };
                let base_ref: Option<&str> = match &base {
                    Some(s) => Some(s.as_str()),
                    None => None,
                };
                proof {
                    assert(opt_str_view(base_ref) == opt_string_view(base));
                }
                match collect_from_payload(data, feeds[i].name.as_str(), base_ref, seen) {
                    Ok(v) => {
                        append_stories(&mut all, &v);
                        proof {
                            assert forall|q: int|
                                0 <= q < story_views(all@).len() implies (
                            #[trigger] story_views(all@)[q]).link.len() > 0 by {
                                if q < stories_before.len() {
                                    assert(story_views(all@)[q] == stories_before[q]);
                                } else {
                                    assert(story_views(all@)[q] == story_views(v@)[q
                                        - stories_before.len()]);
                                }
                            }
                            assert(story_views(all@) =~= merged_stories(
                                fv.take(i + 1),
                                pv.take(i + 1),
                                seen@,
                            ));
                            assert(issue_views(issues@) =~= merged_issues(
                                fv.take(i + 1),
                                pv.take(i + 1),
                                seen@,
                            ));
                        }
                    },
                    Err(e) => {
                        let issue = SourceIssue { source: feeds[i].name.clone(), error: e };
                        issues.push(issue);
                        proof {
                            assert(story_views(all@) =~= merged_stories(
                                fv.take(i + 1),
                                pv.take(i + 1),
                                seen@,
                            ));
                            assert(issue_views(issues@) =~= issues_before.push(
                                (feeds@[i as int].name@, e),
                            ));
                            assert(issue_views(issues@) =~= merged_issues(
                                fv.take(i + 1),
                                pv.take(i + 1),
                                seen@,
                            ));
                        }
                    },
                }
            },
            None => {
                proof {
                    assert(story_views(all@) =~= merged_stories(
                        fv.take(i + 1),
                        pv.take(i + 1),
                        seen@,
                    ));
                    assert(issue_views(issues@) =~= merged_issues(
                        fv.take(i + 1),
                        pv.take(i + 1),
                        seen@,
                    ));
                }
            },
        }
        i += 1;
    }
    proof {
        assert(fv.take(n as int) =~= fv);
        assert(pv.take(n as int) =~= pv);
    }
    let ghost merged = story_views(all@);
    let sorted: Vec<Story> = sort_stories_by_link(all);
    let deduped: Vec<Story> = dedup_stories_by_link(sorted);
    proof {
        let p = |st: StoryView| st.link.len() > 0;
        assert forall|q: int| 0 <= q < merged.len() implies p(#[trigger] merged[q]) by {
            assert(merged[q].link.len() > 0);
        }
        crate::dedup::lemma_sorted_dedup_all(merged, p);
        assert forall|q: int|
            0 <= q < story_views(deduped@).len() implies (
        #[trigger] story_views(deduped@)[q]).link.len() > 0 by {
            assert(p(sorted_dedup(merged)[q]));
        }
    }
    IngestOutcome { stories: deduped, issues }
}

proof fn lemma_extract_new_flag(
    es: Seq<RawEntryView>,
    source: Seq<char>,
    base: Option<Seq<char>>,
    seen: Set<Seq<char>>,
)
    ensures
        forall|i: int|
            0 <= i < extract_stories(es, source, base, seen).len() ==> (#[trigger] extract_stories(
                es,
                source,
                base,
                seen,
            )[i]).is_new == !seen.contains(extract_stories(es, source, base, seen)[i].link),
    decreases es.len(),
{
    if es.len() > 0 {
        lemma_extract_new_flag(es.drop_last(), source, base, seen);
        let rest = extract_stories(es.drop_last(), source, base, seen);
        let whole = extract_stories(es, source, base, seen);
        assert forall|i: int| 0 <= i < whole.len() implies (#[trigger] whole[i]).is_new
            == !seen.contains(whole[i].link) by {
            match story_of(es.last(), source, base, seen) {
                Some(s) => {
                    if i < rest.len() {
                        assert(whole[i] == rest[i]);
                    } else {
                        assert(whole[i] == s);
                    }
                },
                None => {
                    assert(whole[i] == rest[i]);
                },
            }
        }
    }
}

proof fn lemma_merged_new_flag(
    feeds: Seq<FeedView>,
    ps: Seq<FetchedPayloadView>,
    seen: Set<Seq<char>>,
)
    ensures
        forall|i: int|
            0 <= i < merged_stories(feeds, ps, seen).len() ==> (#[trigger] merged_stories(
                feeds,
                ps,
                seen,
            )[i]).is_new == !seen.contains(merged_stories(feeds, ps, seen)[i].link),
    decreases feeds.len(),
{
    if feeds.len() > 0 {
        lemma_merged_new_flag(feeds.drop_last(), ps.drop_last(), seen);
        let prev = merged_stories(feeds.drop_last(), ps.drop_last(), seen);
        let added = source_contribution(feeds.last(), ps.last(), seen);
        match ps.last().payload {
            Some(d) => {
                let base = if ps.last().remote {
                    base_of(feeds.last().url)
                } else {
                    None
                };
                match d.entries {
                    Some(es) => {
                        lemma_extract_new_flag(es, feeds.last().name, base, seen);
                    },
                    None => {},
                }
            },
            None => {},
        }
        assert forall|i: int| 0 <= i < merged_stories(feeds, ps, seen).len() implies (
        #[trigger] merged_stories(feeds, ps, seen)[i]).is_new == !seen.contains(
            merged_stories(feeds, ps, seen)[i].link,
        ) by {
            if i < prev.len() {
                assert(merged_stories(feeds, ps, seen)[i] == prev[i]);
            } else {
                assert(merged_stories(feeds, ps, seen)[i] == added[i - prev.len()]);
            }
        }
    }
}

/// Every story the pipeline hands out is flagged new exactly when its link
/// is not in the seen store.
pub proof fn lemma_new_flag_correct(
    feeds: Seq<FeedView>,
    ps: Seq<FetchedPayloadView>,
    seen: Set<Seq<char>>,
)
    ensures
        forall|i: int|
            0 <= i < ingest_spec(feeds, ps, seen).len() ==> (#[trigger] ingest_spec(
                feeds,
                ps,
                seen,
            )[i]).is_new == !seen.contains(ingest_spec(feeds, ps, seen)[i].link),
{
    let p = |st: StoryView| st.is_new == !seen.contains(st.link);
    lemma_merged_new_flag(feeds, ps, seen);
    crate::dedup::lemma_sorted_dedup_all(merged_stories(feeds, ps, seen), p);
    assert forall|i: int| 0 <= i < ingest_spec(feeds, ps, seen).len() implies (
    #[trigger] ingest_spec(feeds, ps, seen)[i]).is_new == !seen.contains(
        ingest_spec(feeds, ps, seen)[i].link,
    ) by {
        assert(p(ingest_spec(feeds, ps, seen)[i]));
    }
}

/// The links of the collected stories, in order, for marking as seen when
/// the session ends.
pub fn story_links(stories: &Vec<Story>) -> (r: Vec<String>)
    ensures
        r@.map_values(|s: String| s@) == links_of(story_views(stories@)),
{
    let mut r: Vec<String> = Vec::new();
    let n: usize = stories.len();
    let mut i: usize = 0;
    proof {
        assert(r@.map_values(|s: String| s@) =~= links_of(story_views(stories@)).take(0));
    }
    while i < n
        invariant
            0 <= i <= n,
            n == stories@.len(),
            r@.map_values(|s: String| s@) == links_of(story_views(stories@)).take(i as int),
        decreases n - i,
    {
        let ghost before = r@.map_values(|s: String| s@);
        r.push(stories[i].link.clone());
        proof {
            assert(r@.map_values(|s: String| s@) =~= before.push(stories@[i as int].link@));
            assert(links_of(story_views(stories@)).take(i + 1) =~= links_of(
                story_views(stories@),
            ).take(i as int).push(stories@[i as int]@.link));
        }
        i += 1;
    }
    proof {
        assert(links_of(story_views(stories@)).take(n as int) =~= links_of(story_views(stories@)));
    }
    r
}

} // verus!
