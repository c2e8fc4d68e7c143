use vstd::prelude::*;
use vstd::string::StrSliceExecFns;
use crate::model::Feed;

verus! {

/// How a `--feeds` override is interpreted: a TOML config file, a single
/// local feed file, a single remote feed URL, or none of these (fall back
/// to the default configuration).
#[derive(Clone, Copy, Debug, PartialEq, Eq, Structural)]
pub enum OverrideKind {
    TomlConfig,
    LocalFeed,
    RemoteFeed,
    Unusable,
}

/// Whether the path ends in `.toml`, ASCII case-insensitively.
pub open spec fn ends_with_toml(s: Seq<char>) -> bool {
    s.len() >= 5 && {
        let k = s.len() - 5;
        s[k] == '.' && (s[k + 1] == 't' || s[k + 1] == 'T') && (s[k + 2] == 'o' || s[k + 2] == 'O')
            && (s[k + 3] == 'm' || s[k + 3] == 'M') && (s[k + 4] == 'l' || s[k + 4] == 'L')
    }
}

pub open spec fn has_prefix(s: Seq<char>, p: Seq<char>) -> bool {
    p.len() <= s.len() && s.take(p.len() as int) == p
}

/// Whether one string starts with another.
pub fn str_has_prefix(s: &str, p: &str) -> (r: bool)
    ensures
        r == has_prefix(s@, p@),
{
    let np: usize = p.unicode_len();
    let ns: usize = s.unicode_len();
    if np > ns {
        return false;
    }
    let mut i: usize = 0;
    while i < np
        invariant
            0 <= i <= np,
            np == p@.len(),
            np <= ns,
            ns == s@.len(),
            forall|j: int| 0 <= j < i ==> s@[j] == p@[j],
        decreases np - i,
    {
        if s.get_char(i) != p.get_char(i) {
            proof {
                assert(s@.take(np as int)[i as int] != p@[i as int]);
            }
            return false;
        }
        i += 1;
    }
    proof {
        assert(s@.take(np as int) =~= p@);
    }
    true
}

/// Classifies a `--feeds` override: an existing `.toml` file is a config
/// file, any other existing file is a single local feed, a non-file that
/// looks like an HTTP(S) URL is a single remote feed, and anything else is
/// unusable.
pub open spec fn classify_override_spec(s: Seq<char>, is_file: bool) -> OverrideKind {
    if is_file {
        if ends_with_toml(s) {
            OverrideKind::TomlConfig
        } else {
            OverrideKind::LocalFeed
        }
    } else if has_prefix(s, "http://"@) || has_prefix(s, "https://"@) {
        OverrideKind::RemoteFeed
    } else {
        OverrideKind::Unusable
    }
}

pub fn classify_override(s: &str, is_file: bool) -> (r: OverrideKind)
    ensures
        r == classify_override_spec(s@, is_file),
{
    if is_file {
        let n: usize = s.unicode_len();
        if n < 5 {
            return OverrideKind::LocalFeed;
        }
        let k: usize = n - 5;
        let c0: char = s.get_char(k);
        let c1: char = s.get_char(k + 1);
        let c2: char = s.get_char(k + 2);
        let c3: char = s.get_char(k + 3);
        let c4: char = s.get_char(k + 4);
        if c0 == '.' && (c1 == 't' || c1 == 'T') && (c2 == 'o' || c2 == 'O') && (c3 == 'm' || c3
            == 'M') && (c4 == 'l' || c4 == 'L') {
            OverrideKind::TomlConfig
        } else {
            OverrideKind::LocalFeed
        }
    } else if str_has_prefix(s, "http://") || str_has_prefix(s, "https://") {
        OverrideKind::RemoteFeed
    } else {
        OverrideKind::Unusable
    }
}

/// The built-in minimal feed list used when no configuration is found.
pub fn default_feeds() -> (r: Vec<Feed>)
    ensures
        r@.len() == 2,
        r@[0]@.name == "HN Front"@,
        r@[0]@.url == "https://hnrss.org/frontpage"@,
        r@[1]@.name == "BBC World"@,
        r@[1]@.url == "https://feeds.bbci.co.uk/news/world/rss.xml"@,
{
    let mut name0 = String::new();
    name0.append("HN Front");
    let mut url0 = String::new();
    url0.append("https://hnrss.org/frontpage");
    let mut name1 = String::new();
    name1.append("BBC World");
    let mut url1 = String::new();
    url1.append("https://feeds.bbci.co.uk/news/world/rss.xml");
    let mut r: Vec<Feed> = Vec::new();
    r.push(Feed { name: name0, url: url0 });
    r.push(Feed { name: name1, url: url1 });
    proof {
        assert(r@[0]@.name =~= "HN Front"@);
        assert(r@[0]@.url =~= "https://hnrss.org/frontpage"@);
        assert(r@[1]@.name =~= "BBC World"@);
        assert(r@[1]@.url =~= "https://feeds.bbci.co.uk/news/world/rss.xml"@);
    }
    r
}

} // verus!
