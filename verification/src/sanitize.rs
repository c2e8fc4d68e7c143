use vstd::prelude::*;
use vstd::string::StrSliceExecFns;
use crate::text::{is_space, is_space_char, is_digit_char, trim_spec, push_char,
    lemma_trim_start_at, lemma_trim_end_at};

verus! {

/// A parameter character of an ANSI control sequence: digits, `;`, `?`.
pub open spec fn is_csi_param(c: char) -> bool {
    is_digit_char(c) || c == ';' || c == '?'
}

/// An intermediate character of an ANSI control sequence.
pub open spec fn is_csi_inter(c: char) -> bool {
    0x20 <= c as u32 && c as u32 <= 0x2F
}

/// The final character of an ANSI control sequence.
pub open spec fn is_csi_final(c: char) -> bool {
    0x40 <= c as u32 && c as u32 <= 0x7E
}

/// How many parameter characters the text starts with.
pub open spec fn leading_params(s: Seq<char>) -> nat
    decreases s.len(),
{
    if s.len() == 0 || !is_csi_param(s[0]) {
        0
    } else {
        1 + leading_params(s.skip(1))
    }
}

/// How many intermediate characters the text starts with.
pub open spec fn leading_inters(s: Seq<char>) -> nat
    decreases s.len(),
{
    if s.len() == 0 || !is_csi_inter(s[0]) {
        0
    } else {
        1 + leading_inters(s.skip(1))
    }
}

proof fn lemma_leading_params_at(s: Seq<char>, i: int)
    requires
        0 <= i <= s.len(),
        forall|j: int| 0 <= j < i ==> is_csi_param(s[j]),
        i == s.len() || !is_csi_param(s[i]),
    ensures
        leading_params(s) == i,
    decreases i,
{
    if i == 0 {
    } else {
        lemma_leading_params_at(s.skip(1), i - 1);
    }
}

proof fn lemma_leading_inters_at(s: Seq<char>, i: int)
    requires
        0 <= i <= s.len(),
        forall|j: int| 0 <= j < i ==> is_csi_inter(s[j]),
        i == s.len() || !is_csi_inter(s[i]),
    ensures
        leading_inters(s) == i,
    decreases i,
{
    if i == 0 {
    } else {
        lemma_leading_inters_at(s.skip(1), i - 1);
    }
}

/// The length of the ANSI control sequence at the head of the text, if one
/// starts there: `ESC` `[`, then parameter characters, then intermediate
/// characters, then one final character.
pub open spec fn csi_len(s: Seq<char>) -> Option<nat> {
    if s.len() >= 2 && s[0] == '\u{1b}' && s[1] == '[' {
        let t = s.skip(2);
        let p = leading_params(t);
        let q = leading_inters(t.skip(p as int));
        if p + q < t.len() && is_csi_final(t[(p + q) as int]) {
            Some((3 + p + q) as nat)
        } else {
            None
        }
    } else {
        None
    }
}

/// The text with every ANSI control sequence removed.
pub open spec fn strip_ansi(s: Seq<char>) -> Seq<char>
    decreases s.len(),
    via strip_ansi_decreases
{
    if s.len() == 0 {
        s
    } else {
        match csi_len(s) {
            Some(k) => strip_ansi(s.skip(k as int)),
            None => seq![s[0]] + strip_ansi(s.skip(1)),
        }
    }
}

#[via_fn]
proof fn strip_ansi_decreases(s: Seq<char>) {
    if s.len() > 0 {
        match csi_len(s) {
            Some(k) => {
                assert(k >= 3);
                assert(k <= s.len());
            },
            None => {},
        }
    }
}

/// Whether a character survives the control-character filter: everything at
/// or above space, except delete.
pub open spec fn is_printable_char(c: char) -> bool {
    c as u32 >= 0x20 && c as u32 != 0x7F
}

/// The text with control characters removed.
pub open spec fn printable_of(s: Seq<char>) -> Seq<char>
    decreases s.len(),
{
    if s.len() == 0 {
        Seq::empty()
    } else if is_printable_char(s.last()) {
        printable_of(s.drop_last()).push(s.last())
    } else {
        printable_of(s.drop_last())
    }
}

/// Untrusted text made safe for terminal rendering: ANSI control sequences
/// stripped, remaining control characters removed, surrounding whitespace
/// trimmed, and the result capped at 200 characters.
pub open spec fn sanitize_spec(s: Seq<char>) -> Seq<char> {
    let t = trim_spec(printable_of(strip_ansi(s)));
    if t.len() <= 200 {
        t
    } else {
        t.take(200)
    }
}

fn is_csi_param_c(c: char) -> (r: bool)
    ensures
        r == is_csi_param(c),
{
    let u: u32 = c as u32;
    (0x30 <= u && u <= 0x39) || c == ';' || c == '?'
}

fn is_csi_inter_c(c: char) -> (r: bool)
    ensures
        r == is_csi_inter(c),
{
    let u: u32 = c as u32;
    0x20 <= u && u <= 0x2F
}

fn is_csi_final_c(c: char) -> (r: bool)
    ensures
        r == is_csi_final(c),
{
    let u: u32 = c as u32;
    0x40 <= u && u <= 0x7E
}

fn is_printable_c(c: char) -> (r: bool)
    ensures
        r == is_printable_char(c),
{
    let u: u32 = c as u32;
    u >= 0x20 && u != 0x7F
}

/// Strips untrusted text for terminal display, exactly as `sanitize_spec`
/// describes.
pub fn sanitize_for_terminal(s: &str) -> (r: String)
    ensures
        r@ == sanitize_spec(s@),
{
    let n: usize = s.unicode_len();
    let mut stripped: Vec<char> = Vec::new();
    let mut i: usize = 0;
    proof {
        assert(s@.skip(0) =~= s@);
        assert(stripped@ + strip_ansi(s@) =~= strip_ansi(s@));
    }
    while i < n
        invariant
            0 <= i <= n,
            n == s@.len(),
            strip_ansi(s@) == stripped@ + strip_ansi(s@.skip(i as int)),
        decreases n - i,
    {
        let ghost tail = s@.skip(i as int);
        proof {
            assert(tail.len() == n - i);
            assert(tail[0] == s@[i as int]);
            if i + 1 < n {
                assert(tail[1] == s@[i + 1]);
            }
        }
        let c: char = s.get_char(i);
        let mut matched: bool = false;
        let mut next: usize = i + 1;
        if c == '\u{1b}' && i + 1 < n && s.get_char(i + 1) == '[' {
            let ghost t = tail.skip(2);
            proof {
                assert(t.len() == n - i - 2);
                assert(forall|m: int| 0 <= m < t.len() ==> t[m] == s@[i + 2 + m]);
            }
            let mut j: usize = i + 2;
            while j < n && is_csi_param_c(s.get_char(j))
                invariant
                    i + 2 <= j <= n,
                    n == s@.len(),
                    forall|m: int| i + 2 <= m < j ==> is_csi_param(s@[m]),
                decreases n - j,
            {
                j += 1;
            }
            proof {
                lemma_leading_params_at(t, j - (i + 2));
            }
            let mut k: usize = j;
            let ghost t2 = t.skip(j - (i + 2));
            proof {
                assert(t2.len() == n - j);
                assert(forall|m: int| 0 <= m < t2.len() ==> t2[m] == s@[j + m]);
            }
            while k < n && is_csi_inter_c(s.get_char(k))
                invariant
                    j <= k <= n,
                    n == s@.len(),
                    forall|m: int| j <= m < k ==> is_csi_inter(s@[m]),
                decreases n - k,
            {
                k += 1;
            }
            proof {
                lemma_leading_inters_at(t2, k - j);
            }
            if k < n && is_csi_final_c(s.get_char(k)) {
                matched = true;
                next = k + 1;
                proof {
                    assert(t[(k - i - 2) as int] == s@[k as int]);
                    assert(csi_len(tail) == Some((k + 1 - i) as nat));
                    assert(tail.skip((k + 1 - i) as int) =~= s@.skip(k + 1));
                }
            } else {
                proof {
                    assert(csi_len(tail) is None);
                }
            }
        } else {
            proof {
                assert(csi_len(tail) is None);
            }
        }
        if matched {
            i = next;
        } else {
            let ghost old_stripped = stripped@;
            stripped.push(c);
            proof {
                assert(strip_ansi(tail) == seq![tail[0]] + strip_ansi(tail.skip(1)));
                assert(tail.skip(1) =~= s@.skip(i + 1));
                assert(old_stripped + (seq![s@[i as int]] + strip_ansi(s@.skip(i + 1)))
                    =~= stripped@ + strip_ansi(s@.skip(i + 1)));
            }
            i += 1;
        }
    }
    proof {
        assert(s@.skip(n as int) =~= Seq::<char>::empty());
        assert(strip_ansi(Seq::<char>::empty()) =~= Seq::<char>::empty());
        assert(strip_ansi(s@) =~= stripped@);
    }
    let mut printable: Vec<char> = Vec::new();
    let mut j: usize = 0;
    proof {
        assert(stripped@.take(0) =~= Seq::<char>::empty());
    }
    while j < stripped.len()
        invariant
            0 <= j <= stripped@.len(),
            printable@ == printable_of(stripped@.take(j as int)),
        decreases stripped@.len() - j,
    {
        let c: char = stripped[j];
        proof {
            assert(stripped@.take(j + 1).drop_last() =~= stripped@.take(j as int));
            assert(stripped@.take(j + 1).last() == stripped@[j as int]);
        }
        if is_printable_c(c) {
            printable.push(c);
        }
        j += 1;
    }
    proof {
        assert(stripped@.take(stripped@.len() as int) =~= stripped@);
    }
    // trim the surrounding whitespace
    let pn: usize = printable.len();
    let mut lo: usize = 0;
    while lo < pn && is_space(printable[lo])
        invariant
            0 <= lo <= pn,
            pn == printable@.len(),
            forall|m: int| 0 <= m < lo ==> is_space_char(printable@[m]),
        decreases pn - lo,
    {
        lo += 1;
    }
    proof {
        lemma_trim_start_at(printable@, lo as int);
    }
    let mut hi: usize = pn;
    if lo == pn {
        hi = pn;
    } else {
        while hi > lo && is_space(printable[hi - 1])
            invariant
                lo <= hi <= pn,
                pn == printable@.len(),
                forall|m: int| hi <= m < pn ==> is_space_char(printable@[m]),
            decreases hi,
        {
            hi -= 1;
        }
    }
    let ghost trimmed = trim_spec(printable@);
    proof {
        if lo == pn {
            assert(printable@.skip(pn as int) =~= Seq::<char>::empty());
            assert(trimmed =~= printable@.subrange(lo as int, hi as int));
        } else {
            assert(hi > lo) by {
                if hi == lo {
                    assert(is_space_char(printable@[lo as int]));
                }
            }
            let tail2 = printable@.skip(lo as int);
            lemma_trim_end_at(tail2, hi - lo as int);
            assert(tail2.take(hi - lo as int) =~= printable@.subrange(lo as int, hi as int));
        }
        assert(trimmed == printable@.subrange(lo as int, hi as int));
        assert(trimmed.len() == hi - lo);
    }
    // cap the length
    let span: usize = hi - lo;
    let m: usize = if span <= 200 { span } else { 200 };
    let mut out: String = String::new();
    let mut q: usize = 0;
    proof {
        assert(out@ =~= trimmed.take(0));
    }
    while q < m
        invariant
            0 <= q <= m,
            m <= trimmed.len(),
            pn == printable@.len(),
            lo + m <= pn,
            lo + trimmed.len() <= pn,
            trimmed == printable@.subrange(lo as int, (lo + trimmed.len()) as int),
            out@ == trimmed.take(q as int),
        decreases m - q,
    {
        push_char(&mut out, printable[lo + q]);
        proof {
            assert(trimmed[q as int] == printable@[lo + q]);
            assert(out@ =~= trimmed.take(q + 1));
        }
        q += 1;
    }
    proof {
        if span <= 200 {
            assert(trimmed.take(m as int) =~= trimmed);
        }
        assert(out@ == sanitize_spec(s@));
    }
    out
}

} // verus!
