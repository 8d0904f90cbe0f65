//! Chrome profiles: their names, their order, and how the user picks one.
use std::path::PathBuf;

use vstd::prelude::*;

use crate::json::{field_str, get, get_str, obj_get, JsonValue};
use crate::order::{is_stable_order, keys_model, sorted_positions, stable_order, SortKey};
use crate::text::{chars_of, owned, seq_less, str_eq, string_from_chars};
use crate::tui::{Key, KeyInput};

verus! {

/// A Chrome profile that has a bookmarks file.
pub struct ProfileInfo {
    pub dir_name: String,
    pub display_name: String,
    pub bookmarks_path: PathBuf,
}

/// Mathematical model of a [`ProfileInfo`]: its directory and display names.
impl View for ProfileInfo {
    type V = (Seq<char>, Seq<char>);

    open spec fn view(&self) -> (Seq<char>, Seq<char>) {
        (self.dir_name@, self.display_name@)
    }
}

/// The models of a sequence of profiles.
pub open spec fn profiles_model(v: Seq<ProfileInfo>) -> Seq<(Seq<char>, Seq<char>)> {
    Seq::new(v.len(), |i: int| v[i]@)
}

/// The name a profile shows: `profile.name` of its preferences when that is a
/// string, otherwise its directory name.
pub open spec fn display_name_of(prefs: Option<crate::json::Json>, dir_name: Seq<char>) -> Seq<char> {
    match prefs {
        Some(p) => match obj_get(p, "profile"@) {
            Some(q) => match field_str(q, "name"@) {
                Some(n) => n,
                None => dir_name,
            },
            None => dir_name,
        },
        None => dir_name,
    }
}

/// The name a profile shows (see [`display_name_of`]); `prefs` is the parsed
/// `Preferences` file, when it could be read.
pub fn profile_display_name(prefs: Option<&JsonValue>, dir_name: &str) -> (r: String)
    ensures
        r@ == display_name_of(
            match prefs {
                Some(p) => Some(p@),
                None => None,
            },
            dir_name@,
        ),
{
    match prefs {
        Some(p) => match get(p, "profile") {
            Some(q) => match get_str(q, "name") {
                Some(n) => owned(n),
                None => owned(dir_name),
            },
            None => owned(dir_name),
        },
        None => owned(dir_name),
    }
}

/// The sort keys of profiles: their directory names.
pub open spec fn dir_keys(ps: Seq<(Seq<char>, Seq<char>)>) -> Seq<(u8, Seq<char>)> {
    Seq::new(ps.len(), |i: int| (0u8, ps[i].0))
}

/// Sorts profiles by directory name, keeping the order of equal names.
pub fn sort_profiles(profiles: Vec<ProfileInfo>) -> (r: Vec<ProfileInfo>)
    ensures
        r@.len() == profiles@.len(),
        is_stable_order(sorted_positions(dir_keys(profiles_model(profiles@)), true), dir_keys(profiles_model(profiles@)), true),
        forall|k: int|
            0 <= k < r@.len() ==> #[trigger] r@[k] == profiles@[sorted_positions(
                dir_keys(profiles_model(profiles@)),
                true,
            )[k] as int],
        forall|a: int, b: int|
            0 <= a < b < r@.len() ==> !seq_less(#[trigger] r@[b].dir_name@, #[trigger] r@[a].dir_name@),
{
    let ghost orig = profiles@;
    let ghost ks = dir_keys(profiles_model(profiles@));
    let mut keys: Vec<SortKey> = Vec::new();
    let mut i: usize = 0;
    while i < profiles.len()
        invariant
            orig == profiles@,
            ks == dir_keys(profiles_model(orig)),
            i <= profiles@.len(),
            keys@.len() == i,
            forall|j: int| 0 <= j < i ==> #[trigger] keys@[j]@ == ks[j],
        decreases profiles.len() - i,
    {
        keys.push(SortKey { rank: 0, text: owned(profiles[i].dir_name.as_str()) });
        i = i + 1;
    }
    assert(keys_model(keys@) =~= ks);
    let order = stable_order(&keys, true);
    proof {
        crate::order::lemma_stable_order_distinct(order@, ks, true);
    }
    let n = profiles.len();
    let mut slots: Vec<Option<ProfileInfo>> = Vec::new();
    for x in it: profiles.into_iter()
        invariant
            it.seq() == orig,
            slots@.len() == it.index(),
            forall|j: int| 0 <= j < slots@.len() ==> #[trigger] slots@[j] == Some(orig[j]),
    {
        slots.push(Some(x));
    }
    let mut out: Vec<ProfileInfo> = Vec::new();
    let mut k: usize = 0;
    while k < order.len()
        invariant
            n == orig.len(),
            slots@.len() == n,
            order@.len() == n,
            forall|a: int| 0 <= a < order@.len() ==> #[trigger] order@[a] < n,
            forall|a: int, b: int| 0 <= a < b < order@.len() ==> order@[a] != order@[b],
            k <= n,
            out@.len() == k,
            forall|a: int| 0 <= a < k ==> #[trigger] out@[a] == orig[order@[a] as int],
            is_stable_order(order@, ks, true),
            ks == dir_keys(profiles_model(orig)),
            forall|a: int, b: int|
                0 <= a < b < k ==> !seq_less(#[trigger] out@[b].dir_name@, #[trigger] out@[a].dir_name@),
            forall|a: int| k <= a < n ==> #[trigger] slots@[order@[a] as int] == Some(orig[order@[a] as int]),
        decreases n - k,
    {
        let j = order[k];
        let mut slot: Option<ProfileInfo> = None;
        std::mem::swap(&mut slot, &mut slots[j]);
        assert(slot == Some(orig[j as int]));
        match slot {
            Some(p) => out.push(p),
            None => {},
        }
        proof {
            assert forall|a: int, b: int| 0 <= a < b < k + 1 implies !seq_less(
                #[trigger] out@[b].dir_name@,
                #[trigger] out@[a].dir_name@,
            ) by {
                let oa = order@[a] as int;
                let ob = order@[b] as int;
                assert(crate::order::comes_before(ks, true, oa, ob));
                crate::order::lemma_key_order(ks[oa], ks[ob], ks[oa]);
                assert(ks[oa] == (0u8, orig[oa].dir_name@));
                assert(ks[ob] == (0u8, orig[ob].dir_name@));
            }
        }
        assert forall|a: int| k + 1 <= a < n implies #[trigger] slots@[order@[a] as int] == Some(
            orig[order@[a] as int],
        ) by {
            assert(order@[a] != order@[k as int]);
        }
        k = k + 1;
    }
    out
}

/// The profile with the given directory or display name.
pub open spec fn names_profile(name: Seq<char>) -> spec_fn((Seq<char>, Seq<char>)) -> bool {
    |p: (Seq<char>, Seq<char>)| p.0 == name || p.1 == name
}

/// The first profile whose directory or display name is `name`.
pub fn find_profile(profiles: &Vec<ProfileInfo>, name: &str) -> (r: Option<usize>)
    ensures
        r matches Some(k) ==> crate::json::is_first(profiles_model(profiles@), names_profile(name@), k as int),
        r is None ==> !crate::json::any(profiles_model(profiles@), names_profile(name@)),
{
    let ghost ps = profiles_model(profiles@);
    let mut i: usize = 0;
    while i < profiles.len()
        invariant
            ps == profiles_model(profiles@),
            i <= profiles@.len(),
            forall|j: int| 0 <= j < i ==> !names_profile(name@)(#[trigger] ps[j]),
        decreases profiles.len() - i,
    {
        if str_eq(profiles[i].dir_name.as_str(), name) || str_eq(profiles[i].display_name.as_str(), name) {
            return Some(i);
        }
        i = i + 1;
    }
    None
}

// ---------------------------------------------------------------------------
// Picking a profile by number

/// A character with the Unicode `White_Space` property, which `char::is_whitespace`
/// tests and `str::trim` strips.
pub open spec fn is_space(c: char) -> bool {
    let n = c as u32;
    ||| 0x09 <= n <= 0x0d
    ||| n == 0x20
    ||| n == 0x85
    ||| n == 0xa0
    ||| n == 0x1680
    ||| 0x2000 <= n <= 0x200a
    ||| n == 0x2028
    ||| n == 0x2029
    ||| n == 0x202f
    ||| n == 0x205f
    ||| n == 0x3000
}

fn is_space_char(c: char) -> (r: bool)
    ensures
        r == is_space(c),
{
    let n = c as u32;
    (0x09 <= n && n <= 0x0d) || n == 0x20 || n == 0x85 || n == 0xa0 || n == 0x1680 || (0x2000 <= n
        && n <= 0x200a) || n == 0x2028 || n == 0x2029 || n == 0x202f || n == 0x205f || n == 0x3000
}

/// `str::trim_start`: without its leading white space.
pub open spec fn trim_start(s: Seq<char>) -> Seq<char>
    decreases s.len(),
{
    if s.len() > 0 && is_space(s[0]) {
        trim_start(s.drop_first())
    } else {
        s
    }
}

/// `str::trim_end`: without its trailing white space.
pub open spec fn trim_end(s: Seq<char>) -> Seq<char>
    decreases s.len(),
{
    if s.len() > 0 && is_space(s.last()) {
        trim_end(s.drop_last())
    } else {
        s
    }
}

/// `str::trim`: without leading and trailing white space.
pub open spec fn trimmed(s: Seq<char>) -> Seq<char> {
    trim_end(trim_start(s))
}

/// The characters of `s` without leading and trailing white space.
fn trim_chars(s: &str) -> (r: Vec<char>)
    ensures
        r@ == trimmed(s@),
{
    let cs = chars_of(s);
    let mut a: usize = 0;
    assert(s@.subrange(0, s@.len() as int) =~= s@);
    while a < cs.len() && is_space_char(cs[a])
        invariant
            cs@ == s@,
            a <= cs@.len(),
            trim_start(s@) == trim_start(s@.subrange(a as int, s@.len() as int)),
        decreases cs.len() - a,
    {
        assert(s@.subrange(a as int, s@.len() as int).drop_first() =~= s@.subrange(a + 1, s@.len() as int));
        a = a + 1;
    }
    let ghost t = s@.subrange(a as int, s@.len() as int);
    assert(trim_start(t) == t);
    let mut b: usize = cs.len();
    while b > a && is_space_char(cs[b - 1])
        invariant
            cs@ == s@,
            a <= b <= cs@.len(),
            t == s@.subrange(a as int, s@.len() as int),
            trim_end(t) == trim_end(s@.subrange(a as int, b as int)),
        decreases b - a,
    {
        assert(s@.subrange(a as int, b as int).drop_last() =~= s@.subrange(a as int, b - 1));
        b = b - 1;
    }
    let mut out: Vec<char> = Vec::new();
    let mut k: usize = a;
    while k < b
        invariant
            cs@ == s@,
            a <= k <= b,
            b <= cs@.len(),
            out@ == s@.subrange(a as int, k as int),
        decreases b - k,
    {
        out.push(cs[k]);
        assert(s@.subrange(a as int, k + 1) =~= s@.subrange(a as int, k as int).push(s@[k as int]));
        k = k + 1;
    }
    out
}

/// An ASCII decimal digit.
pub open spec fn is_digit(c: char) -> bool {
    '0' <= c <= '9'
}

/// The number written by decimal digits.
pub open spec fn digits_value(ds: Seq<char>) -> nat
    decreases ds.len(),
{
    if ds.len() == 0 {
        0
    } else {
        digits_value(ds.drop_last()) * 10 + ((ds.last() as u32) - ('0' as u32)) as nat
    }
}

/// The digits of a number as written: without a leading `+`.
pub open spec fn unsigned_digits(t: Seq<char>) -> Seq<char> {
    if t.len() > 0 && t[0] == '+' {
        t.drop_first()
    } else {
        t
    }
}

/// One or more ASCII digits.
pub open spec fn all_digits(ds: Seq<char>) -> bool {
    ds.len() > 0 && forall|i: int| 0 <= i < ds.len() ==> is_digit(#[trigger] ds[i])
}

/// `str::parse::<usize>` read as a number of any size: an optional `+` followed
/// by one or more ASCII digits.
pub open spec fn number_of(t: Seq<char>) -> Option<nat> {
    if all_digits(unsigned_digits(t)) {
        Some(digits_value(unsigned_digits(t)))
    } else {
        None
    }
}

/// The profile picked by what the user typed among `count` profiles: the first
/// on an empty line, the profile with that number (counted from one) when it
/// exists, and none for anything else.
pub open spec fn choice_of(input: Seq<char>, count: usize) -> Option<usize> {
    let t = trimmed(input);
    if t.len() == 0 {
        Some(0usize)
    } else {
        match number_of(t) {
            Some(n) => if 1 <= n <= count {
                Some((n - 1) as usize)
            } else {
                None
            },
            None => None,
        }
    }
}

/// The profile picked by a typed line (see [`choice_of`]).
pub fn profile_choice(input: &str, count: usize) -> (r: Option<usize>)
    ensures
        r == choice_of(input@, count),
{
    let t = trim_chars(input);
    if t.len() == 0 {
        return Some(0);
    }
    let start: usize = if t[0] == '+' { 1 } else { 0 };
    let ghost ds = unsigned_digits(t@);
    assert(ds =~= t@.subrange(start as int, t@.len() as int));
    if start >= t.len() {
        return None;
    }
    let mut v: u128 = 0;
    let mut over = false;
    let mut k: usize = start;
    while k < t.len()
        invariant
            t@ == trimmed(input@),
            t@.len() > 0,
            ds == unsigned_digits(t@),
            ds == t@.subrange(start as int, t@.len() as int),
            start <= k <= t@.len(),
            forall|i: int| 0 <= i < k - start ==> is_digit(#[trigger] ds[i]),
            over == (digits_value(ds.take(k - start)) > count),
            !over ==> v == digits_value(ds.take(k - start)),
        decreases t.len() - k,
    {
        let c = t[k];
        if !('0' <= c && c <= '9') {
            assert(!is_digit(ds[k - start]));
            return None;
        }
        let d = (c as u32 - '0' as u32) as u128;
        let ghost prev = ds.take(k - start);
        assert(ds.take(k - start + 1).drop_last() =~= prev);
        assert(ds.take(k - start + 1).last() == c);
        if !over {
            v = v * 10 + d;
            if v > count as u128 {
                over = true;
            }
        }
        k = k + 1;
    }
    assert(ds.take(k - start) =~= ds);
    if over || v == 0 {
        None
    } else {
        Some((v - 1) as usize)
    }
}

// ---------------------------------------------------------------------------
// The profile picker

/// What a key does in the profile picker.
#[derive(Debug, PartialEq, Eq)]
pub enum PickerStep {
    /// Keep picking, with this row highlighted.
    Highlight(usize),
    /// The highlighted profile is picked.
    Picked(usize),
    /// Leave without picking.
    Quit,
}

/// A key in the profile picker over `count` profiles: `q` leaves, the arrows and
/// `j`/`k` move the highlight within the list, Enter picks.
pub open spec fn picker_key(selected: usize, count: usize, k: KeyInput) -> PickerStep {
    match k.code {
        Key::Char(c) => if c == 'q' {
            PickerStep::Quit
        } else if c == 'k' {
            PickerStep::Highlight(if selected >= 1 { (selected - 1) as usize } else { 0usize })
        } else if c == 'j' {
            PickerStep::Highlight(if selected + 1 <= count - 1 { (selected + 1) as usize } else { (count - 1) as usize })
        } else {
            PickerStep::Highlight(selected)
        },
        Key::Up => PickerStep::Highlight(if selected >= 1 { (selected - 1) as usize } else { 0usize }),
        Key::Down => PickerStep::Highlight(
            if selected + 1 <= count - 1 {
                (selected + 1) as usize
            } else {
                (count - 1) as usize
            },
        ),
        Key::Enter => PickerStep::Picked(selected),
        _ => PickerStep::Highlight(selected),
    }
}

/// Moving down needs a row to move to.
pub open spec fn moves_down(k: KeyInput) -> bool {
    k.code == Key::Down || k.code == Key::Char('j')
}

/// Handles a key in the profile picker (see [`picker_key`]).
pub fn picker_step(selected: usize, count: usize, key: &KeyInput) -> (r: PickerStep)
    requires
        moves_down(*key) ==> count > 0 && selected < usize::MAX,
    ensures
        r == picker_key(selected, count, *key),
{
    let down = match key.code {
        Key::Down => true,
        Key::Char(c) => c == 'j',
        _ => false,
    };
    let up = match key.code {
        Key::Up => true,
        Key::Char(c) => c == 'k',
        _ => false,
    };
    let quit = match key.code {
        Key::Char(c) => c == 'q',
        _ => false,
    };
    if quit {
        PickerStep::Quit
    } else if up {
        PickerStep::Highlight(selected.saturating_sub(1))
    } else if down {
        let next = selected + 1;
        PickerStep::Highlight(if next <= count - 1 { next } else { count - 1 })
    } else if key.code == Key::Enter {
        PickerStep::Picked(selected)
    } else {
        PickerStep::Highlight(selected)
    }
}

} // verus!
