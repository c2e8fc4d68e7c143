use vstd::prelude::*;
use vstd::string::StrSliceExecFns;
use crate::text::{trim_spec, trim_bounds, all_digits, digits_val, is_digit_char};

verus! {

/// One key press, as the navigation engine sees it.  The terminal layer
/// translates whatever key type its backend reports into this enum before
/// handing it to the engine.
#[derive(Clone, Copy, Debug)]
pub enum KeyInput {
    Up,
    Down,
    PageUp,
    PageDown,
    Home,
    End,
    Tab,
    Enter,
    Escape,
    Character(char),
    Other,
}

/// The outcome of one menu interaction: leave this menu level, quit the
/// whole session, or pick the row at the given index.
#[derive(Clone, Copy, Debug, PartialEq, Eq, Structural)]
pub enum MenuChoice {
    Back,
    Quit,
    Index(usize),
}

/// What one key does while the menu is in arrow mode: either the selection
/// moves (or stays) and the menu keeps running, or the menu resolves.
#[derive(Clone, Copy, Debug, PartialEq, Eq, Structural)]
pub enum ArrowStep {
    Moved(usize),
    Done(MenuChoice),
}

/// Number of rows the viewport can show: the terminal height minus the
/// reserved header/prompt/help lines, never below 3, and never more than the
/// number of menu rows.
pub open spec fn page_len_spec(rows: nat, has_header: bool, n: nat) -> nat {
    let reserved: nat = if has_header { 3 } else { 2 };
    let avail: nat = if rows > reserved { (rows - reserved) as nat } else { 0 };
    let m: nat = if avail < 3 { 3 } else { avail };
    if m > n {
        n
    } else {
        m
    }
}

pub fn page_len(rows: usize, has_header: bool, n: usize) -> (m: usize)
    ensures
        m == page_len_spec(rows as nat, has_header, n as nat),
        n > 0 ==> m >= 1,
{
    let reserved: usize = if has_header { 3 } else { 2 };
    let avail: usize = if rows > reserved { rows - reserved } else { 0 };
    let m: usize = if avail < 3 { 3 } else { avail };
    if m > n {
        n
    } else {
        m
    }
}

/// New viewport top after a render: if the selection moved above the window
/// the window follows it up; if it moved past the bottom the window advances
/// so the selection becomes the last visible row.
pub open spec fn viewport_top_spec(sel: nat, top: nat, page: nat) -> nat {
    let t: nat = if sel < top {
        sel
    } else {
        top
    };
    if sel >= t + page {
        (sel + 1 - page) as nat
    } else {
        t
    }
}

pub fn adjust_viewport(sel: usize, top: usize, page: usize) -> (t: usize)
    requires
        page >= 1,
    ensures
        t == viewport_top_spec(sel as nat, top as nat, page as nat),
        t <= sel && sel < t + page,
{
    let t: usize = if sel < top { sel } else { top };
    if page <= sel && sel - page >= t {
        sel - page + 1
    } else {
        t
    }
}

/// First recorded header row index strictly greater than the selection; if
/// none exists, fall back to the first header overall.
pub open spec fn first_header_after(headers: Seq<usize>, sel: nat) -> Option<nat>
    decreases headers.len(),
{
    if headers.len() == 0 {
        None
    } else if headers[0] > sel {
        Some(headers[0] as nat)
    } else {
        first_header_after(headers.skip(1), sel)
    }
}

/// Where `Tab` sends the selection: the next header after it (wrapping to the
/// first header when past the last one), clamped to the row range.
pub open spec fn tab_spec(headers: Seq<usize>, sel: nat, n: nat) -> nat {
    if headers.len() == 0 {
        sel
    } else {
        let target: nat = match first_header_after(headers, sel) {
            Some(h) => h,
            None => headers[0] as nat,
        };
        let cap: nat = if n > 0 {
            (n - 1) as nat
        } else {
            0
        };
        if target > cap {
            cap
        } else {
            target
        }
    }
}

proof fn lemma_first_header_after_prefix(headers: Seq<usize>, sel: nat, i: int)
    requires
        0 <= i <= headers.len(),
        forall|j: int| 0 <= j < i ==> headers[j] <= sel,
    ensures
        first_header_after(headers, sel) == first_header_after(headers.skip(i), sel),
    decreases i,
{
    if i == 0 {
        assert(headers.skip(0) =~= headers);
    } else {
        lemma_first_header_after_prefix(headers.skip(1), sel, i - 1);
        assert(headers.skip(1).skip(i - 1) =~= headers.skip(i));
    }
}

pub fn tab_target(headers: &Vec<usize>, sel: usize, n: usize) -> (t: usize)
    ensures
        t == tab_spec(headers@, sel as nat, n as nat),
{
    if headers.len() == 0 {
        return sel;
    }
    let mut i: usize = 0;
    let mut target: usize = headers[0];
    let mut found: bool = false;
    while i < headers.len() && !found
        invariant
            0 <= i <= headers@.len(),
            headers@.len() > 0,
            !found ==> forall|j: int| 0 <= j < i ==> headers@[j] <= sel,
            !found ==> target == headers@[0],
            found ==> i <= headers@.len() && first_header_after(headers@, sel as nat) == Some(
                target as nat,
            ),
        decreases headers@.len() - i + (if found { 0int } else { 1int }),
    {
        if headers[i] > sel {
            target = headers[i];
            found = true;
            proof {
                lemma_first_header_after_prefix(headers@, sel as nat, i as int);
                assert(headers@.skip(i as int)[0] == headers@[i as int]);
            }
        } else {
            i += 1;
        }
    }
    proof {
        if !found {
            lemma_first_header_after_prefix(headers@, sel as nat, headers@.len() as int);
        }
    }
    let cap: usize = if n > 0 { n - 1 } else { 0 };
    if target > cap {
        cap
    } else {
        target
    }
}

/// Where the selection goes when a navigation key is pressed: arrows move by
/// one row, `Home`/`End` jump to the ends, `PageUp`/`PageDown` move by one
/// viewport page, `Tab` jumps to the next section header, all clamped to the
/// row range; every other key leaves the selection alone.
pub open spec fn sel_after_spec(
    sel: nat,
    key: KeyInput,
    n: nat,
    page: nat,
    headers: Seq<usize>,
) -> nat {
    let step: nat = if page >= 2 { (page - 1) as nat } else { 1 };
    match key {
        KeyInput::Up => if sel > 0 { (sel - 1) as nat } else { 0 },
        KeyInput::Down => if sel + 1 < n { sel + 1 } else { sel },
        KeyInput::Home => 0,
        KeyInput::End => if n > 0 { (n - 1) as nat } else { sel },
        KeyInput::PageUp => if sel > step { (sel - step) as nat } else { 0 },
        KeyInput::PageDown => {
            let cap: nat = if n > 0 { (n - 1) as nat } else { 0 };
            if sel + step > cap { cap } else { sel + step }
        },
        KeyInput::Tab => tab_spec(headers, sel, n),
        _ => sel,
    }
}

/// What one key does in arrow mode: `Enter` resolves to the current
/// selection, `q`/`Q` to `Quit`, `b`/`B`/`Escape` to `Back`; navigation keys
/// move the selection; anything else is ignored.
pub open spec fn arrow_step_spec(
    sel: nat,
    key: KeyInput,
    n: nat,
    page: nat,
    headers: Seq<usize>,
) -> ArrowStep {
    match key {
        KeyInput::Enter => ArrowStep::Done(MenuChoice::Index(sel as usize)),
        KeyInput::Escape => ArrowStep::Done(MenuChoice::Back),
        KeyInput::Character(c) => {
            if c == 'q' || c == 'Q' {
                ArrowStep::Done(MenuChoice::Quit)
            } else if c == 'b' || c == 'B' {
                ArrowStep::Done(MenuChoice::Back)
            } else {
                ArrowStep::Moved(sel as usize)
            }
        },
        _ => ArrowStep::Moved(sel_after_spec(sel, key, n, page, headers) as usize),
    }
}

pub fn arrow_dispatch(
    sel: usize,
    key: KeyInput,
    n: usize,
    page: usize,
    headers: &Vec<usize>,
) -> (r: ArrowStep)
    requires
        sel < n,
    ensures
        r == arrow_step_spec(sel as nat, key, n as nat, page as nat, headers@),
        r matches ArrowStep::Moved(s) ==> s < n,
{
    let step: usize = if page >= 2 { page - 1 } else { 1 };
    match key {
        KeyInput::Enter => ArrowStep::Done(MenuChoice::Index(sel)),
        KeyInput::Escape => ArrowStep::Done(MenuChoice::Back),
        KeyInput::Character(c) => {
            if c == 'q' || c == 'Q' {
                ArrowStep::Done(MenuChoice::Quit)
            } else if c == 'b' || c == 'B' {
                ArrowStep::Done(MenuChoice::Back)
            } else {
                ArrowStep::Moved(sel)
            }
        },
        KeyInput::Up => ArrowStep::Moved(if sel > 0 { sel - 1 } else { 0 }),
        KeyInput::Down => ArrowStep::Moved(if sel + 1 < n { sel + 1 } else { sel }),
        KeyInput::Home => ArrowStep::Moved(0),
        KeyInput::End => ArrowStep::Moved(if n > 0 { n - 1 } else { sel }),
        KeyInput::PageUp => ArrowStep::Moved(if sel > step { sel - step } else { 0 }),
        KeyInput::PageDown => {
            let cap: usize = if n > 0 { n - 1 } else { 0 };
            ArrowStep::Moved(if sel > cap || step > cap - sel { cap } else { sel + step })
        },
        KeyInput::Tab => ArrowStep::Moved(tab_target(headers, sel, n)),
        KeyInput::Other => ArrowStep::Moved(sel),
    }
}

/// The navigation state after a sequence of key presses, starting from row 0
/// with the viewport at the top: each key first moves the selection, then the
/// next render recomputes the viewport top around it.
pub open spec fn nav_state_spec(
    keys: Seq<KeyInput>,
    n: nat,
    page: nat,
    headers: Seq<usize>,
) -> (nat, nat)
    decreases keys.len(),
{
    if keys.len() == 0 {
        (0, 0)
    } else {
        let prev = nav_state_spec(keys.drop_last(), n, page, headers);
        let sel: nat = sel_after_spec(prev.0, keys.last(), n, page, headers);
        (sel, viewport_top_spec(sel, prev.1, page))
    }
}

/// However the user navigates, the selection stays on a real row and the
/// viewport keeps it visible: after any sequence of navigation keys on a
/// non-empty row list, `top <= sel < top + page` and `sel < n`.
pub proof fn lemma_viewport_invariant(keys: Seq<KeyInput>, n: nat, page: nat, headers: Seq<usize>)
    requires
        n > 0,
        page >= 1,
    ensures
        ({
            let st = nav_state_spec(keys, n, page, headers);
            st.0 < n && st.1 <= st.0 && st.0 < st.1 + page
        }),
    decreases keys.len(),
{
    if keys.len() > 0 {
        lemma_viewport_invariant(keys.drop_last(), n, page, headers);
    }
}

/// Why a typed selection was rejected: nothing was typed and no default
/// exists, the input is not a number, or the number names no row.
#[derive(Clone, Copy, Debug, PartialEq, Eq, Structural)]
pub enum SelectionError {
    NoSelection,
    InvalidSelection,
    OutOfRange,
}

/// What a completed input line resolves to: the default on empty input,
/// `q`/`Q` quits, `b`/`B` goes back, and anything else must be a 1-based row
/// number in range.
pub open spec fn parse_selection_spec(
    input: Seq<char>,
    n_items: nat,
    default: Option<usize>,
) -> Result<MenuChoice, SelectionError> {
    let t = trim_spec(input);
    if t.len() == 0 {
        match default {
            Some(d) => Ok(MenuChoice::Index(d)),
            None => Err(SelectionError::NoSelection),
        }
    } else if t.len() == 1 && (t[0] == 'q' || t[0] == 'Q') {
        Ok(MenuChoice::Quit)
    } else if t.len() == 1 && (t[0] == 'b' || t[0] == 'B') {
        Ok(MenuChoice::Back)
    } else {
        let digits = if t.len() >= 2 && t[0] == '+' {
            t.skip(1)
        } else {
            t
        };
        if !all_digits(digits) {
            Err(SelectionError::InvalidSelection)
        } else if digits_val(digits) > usize::MAX {
            Err(SelectionError::InvalidSelection)
        } else if digits_val(digits) == 0 || digits_val(digits) > n_items {
            Err(SelectionError::OutOfRange)
        } else {
            Ok(MenuChoice::Index((digits_val(digits) - 1) as usize))
        }
    }
}

proof fn lemma_digits_val_prefix_le(s: Seq<char>, i: int)
    requires
        0 <= i <= s.len(),
    ensures
        digits_val(s.take(i)) <= digits_val(s),
    decreases s.len(),
{
    if i < s.len() {
        lemma_digits_val_prefix_le(s.drop_last(), i);
        assert(s.drop_last().take(i) =~= s.take(i));
    } else {
        assert(s.take(i) =~= s);
    }
}

/// Resolves one typed input line against the item list.
pub fn parse_selection(input: &str, items: &[&str], default: Option<usize>) -> (r: Result<
    MenuChoice,
    SelectionError,
>)
    ensures
        r == parse_selection_spec(input@, items@.len() as nat, default),
{
    let bounds: (usize, usize) = trim_bounds(input);
    let lo: usize = bounds.0;
    let hi: usize = bounds.1;
    let ghost t = trim_spec(input@);
    proof {
        assert(t.len() == hi - lo);
    }
    let len: usize = hi - lo;
    if len == 0 {
        return match default {
            Some(d) => Ok(MenuChoice::Index(d)),
            None => Err(SelectionError::NoSelection),
        };
    }
    let first: char = input.get_char(lo);
    proof {
        assert(t[0] == input@[lo as int]);
    }
    if len == 1 {
        if first == 'q' || first == 'Q' {
            return Ok(MenuChoice::Quit);
        }
        if first == 'b' || first == 'B' {
            return Ok(MenuChoice::Back);
        }
    }
    let start: usize = if first == '+' && len >= 2 {
        lo + 1
    } else {
        lo
    };
    let ghost digits = if t.len() >= 2 && t[0] == '+' {
        t.skip(1)
    } else {
        t
    };
    proof {
        assert(digits =~= input@.subrange(start as int, hi as int));
        assert(digits.len() == hi - start);
    }
    let mut val: usize = 0;
    let mut p: usize = start;
    proof {
        assert(digits.take(0) =~= Seq::<char>::empty());
    }
    while p < hi
        invariant
            start <= p <= hi,
            hi <= input@.len(),
            t == trim_spec(input@),
            t.len() > 0,
            !(t.len() == 1 && (t[0] == 'q' || t[0] == 'Q')),
            !(t.len() == 1 && (t[0] == 'b' || t[0] == 'B')),
            digits == (if t.len() >= 2 && t[0] == '+' {
                t.skip(1)
            } else {
                t
            }),
            digits =~= input@.subrange(start as int, hi as int),
            digits.len() == hi - start,
            forall|j: int| 0 <= j < p - start ==> is_digit_char(#[trigger] digits[j]),
            val == digits_val(digits.take(p - start)),
        decreases hi - p,
    {
        let c: char = input.get_char(p);
        proof {
            assert(digits[p - start] == input@[p as int]);
        }
        let u: u32 = c as u32;
        if !(0x30 <= u && u <= 0x39) {
            proof {
                assert(!is_digit_char(digits[p - start]));
            }
            return Err(SelectionError::InvalidSelection);
        }
        let d: usize = (u - 0x30) as usize;
        let limit: usize = (usize::MAX - d) / 10;
        proof {
            assert(digits.take(p - start + 1).drop_last() =~= digits.take(p - start));
            assert(digits.take(p - start + 1).last() == digits[p - start]);
        }
        if val > limit {
            proof {
                assert(val * 10 + d > usize::MAX);
                assert(digits_val(digits.take(p - start + 1)) > usize::MAX);
                lemma_digits_val_prefix_le(digits, p - start + 1);
                assert(digits_val(digits) > usize::MAX);
                assert(all_digits(digits) ==> parse_selection_spec(
                    input@,
                    items@.len() as nat,
                    default,
                ) == Err::<MenuChoice, SelectionError>(SelectionError::InvalidSelection));
            }
            return Err(SelectionError::InvalidSelection);
        }
        val = val * 10 + d;
        p += 1;
    }
    proof {
        assert(digits.take(hi - start as int) =~= digits);
        assert(all_digits(digits));
        assert(digits_val(digits) == val);
    }
    if val == 0 || val > items.len() {
        return Err(SelectionError::OutOfRange);
    }
    Ok(MenuChoice::Index(val - 1))
}

/// What the first key press after a fresh render decides: arrow keys commit
/// to arrow mode, `q`/`b` resolve at once, `Enter` takes the default, and
/// any other printable character starts typed input seeded with itself.
#[derive(Clone, Copy, Debug, PartialEq, Eq, Structural)]
pub enum FirstKey {
    Arrow,
    Quit,
    Back,
    Chosen(usize),
    NoDefault,
    TypeSeeded(char),
    TypePlain,
}

/// A control character, which must not seed the input line.
pub open spec fn is_ctrl_char(c: char) -> bool {
    (c as u32) < 0x20 || (0x7F <= c as u32 && c as u32 <= 0x9F)
}

pub open spec fn first_key_spec(key: KeyInput, default: Option<usize>) -> FirstKey {
    match key {
        KeyInput::Up | KeyInput::Down | KeyInput::Home | KeyInput::End | KeyInput::PageUp
            | KeyInput::PageDown => FirstKey::Arrow,
        KeyInput::Enter => match default {
            Some(d) => FirstKey::Chosen(d),
            None => FirstKey::NoDefault,
        },
        KeyInput::Character(c) => {
            if c == 'q' || c == 'Q' {
                FirstKey::Quit
            } else if c == 'b' || c == 'B' {
                FirstKey::Back
            } else if is_ctrl_char(c) {
                FirstKey::TypePlain
            } else {
                FirstKey::TypeSeeded(c)
            }
        },
        _ => FirstKey::TypePlain,
    }
}

pub fn dispatch_first_key(key: KeyInput, default: Option<usize>) -> (r: FirstKey)
    ensures
        r == first_key_spec(key, default),
{
    match key {
        KeyInput::Up | KeyInput::Down | KeyInput::Home | KeyInput::End | KeyInput::PageUp
            | KeyInput::PageDown => FirstKey::Arrow,
        KeyInput::Enter => match default {
            Some(d) => FirstKey::Chosen(d),
            None => FirstKey::NoDefault,
        },
        KeyInput::Character(c) => {
            if c == 'q' || c == 'Q' {
                FirstKey::Quit
            } else if c == 'b' || c == 'B' {
                FirstKey::Back
            } else {
                let u: u32 = c as u32;
                if u < 0x20 || (0x7F <= u && u <= 0x9F) {
                    FirstKey::TypePlain
                } else {
                    FirstKey::TypeSeeded(c)
                }
            }
        },
        KeyInput::Tab | KeyInput::Escape | KeyInput::Other => FirstKey::TypePlain,
    }
}

/// The selection the menu starts on: the default if one is given, clamped to
/// the row range.
pub open spec fn initial_sel_spec(default: Option<usize>, n: nat) -> nat {
    let d: nat = match default {
        Some(d) => d as nat,
        None => 0,
    };
    let cap: nat = if n > 0 { (n - 1) as nat } else { 0 };
    if d > cap { cap } else { d }
}

pub fn initial_selection(default: Option<usize>, n: usize) -> (s: usize)
    ensures
        s == initial_sel_spec(default, n as nat),
        n > 0 ==> s < n,
{
    let d: usize = match default {
        Some(d) => d,
        None => 0,
    };
    let cap: usize = if n > 0 { n - 1 } else { 0 };
    if d > cap { cap } else { d }
}

} // verus!
