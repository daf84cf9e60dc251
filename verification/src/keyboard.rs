//! The keyboard layout model: parses a two-block layout description
//! into a renderable glyph grid and a position-to-key lookup, and
//! maintains a decaying set of recently pressed keys.

use vstd::prelude::*;
use vstd::pervasive::VecAdditionalExecFns;
use crate::text::chars_vec;

verus! {

/// How long a pressed key stays highlighted, in milliseconds.
pub const HIGHLIGHT_MILLIS: u128 = 200;

/// Errors of the keyboard layout model. The missing-file case is
/// raised by the caller that loads the layout text; parsing failures
/// are raised here.
#[derive(Clone, Copy, Debug, PartialEq, Eq, Structural)]
pub enum KeyboardError {
    LayoutFileNotFound,
    LayoutParsingError,
}

/// For each character position of the glyph grid, the physical key
/// responsible for it (a blank where no key is).
pub type TouchMap = Vec<char>;

/// The virtual keyboard: the glyph grid to display, the key identity
/// at every grid position, and the recently pressed keys, each with
/// the time its highlight expires.
pub struct Keyboard {
    pub layout: Vec<char>,
    pub touch_map: TouchMap,
    pub active_keys: Vec<(char, u128)>,
}

/// The mathematical value of a [`Keyboard`].
#[verifier::ext_equal]
pub ghost struct KeyboardV {
    pub layout: Seq<char>,
    pub touch_map: Seq<char>,
    pub active_keys: Seq<(char, u128)>,
}

impl View for Keyboard {
    type V = KeyboardV;

    open spec fn view(&self) -> KeyboardV {
        KeyboardV {
            layout: self.layout@,
            touch_map: self.touch_map@,
            active_keys: self.active_keys@,
        }
    }
}

/// No key occurs twice in the active set.
pub open spec fn uniq_keys(s: Seq<(char, u128)>) -> bool {
    forall|i: int, j: int| 0 <= i < j < s.len() ==> (#[trigger] s[i]).0 != (#[trigger] s[j]).0
}

impl KeyboardV {
    /// The active set holds each key at most once.
    pub open spec fn wf(self) -> bool {
        uniq_keys(self.active_keys)
    }
}

/// The characters the key-mapping block uses as blanks between keys.
pub open spec fn is_blank_marker(c: char) -> bool {
    c == ' ' || c == '|' || c == '-' || c == '_'
}

/// Executable twin of [`is_blank_marker`].
pub fn is_blank_marker_char(c: char) -> (r: bool)
    ensures
        r == is_blank_marker(c),
{
    c == ' ' || c == '|' || c == '-' || c == '_'
}

/// The key identity one mapping character denotes: itself, or a blank
/// for the separator markers.
pub open spec fn touch_of(c: char) -> char {
    if is_blank_marker(c) {
        ' '
    } else {
        c
    }
}

/// The whole position-to-key lookup of a key-mapping block.
pub open spec fn touch_map_of(mapping: Seq<char>) -> Seq<char> {
    Seq::new(mapping.len(), |i: int| touch_of(mapping[i]))
}

/// Two consecutive newline characters (one blank line) start at `i`.
pub open spec fn sep_at(s: Seq<char>, i: int) -> bool {
    0 <= i && i + 1 < s.len() && s[i] == '\n' && s[i + 1] == '\n'
}

/// The position of the first blank-line separator, or `s.len()` if
/// there is none.
pub open spec fn first_sep(s: Seq<char>) -> int
    decreases s.len(),
{
    if s.len() < 2 {
        s.len() as int
    } else if s[0] == '\n' && s[1] == '\n' {
        0
    } else {
        1 + first_sep(s.drop_first())
    }
}

/// `first_sep` is the least separator position, or the length when no
/// separator exists.
pub proof fn lemma_first_sep(s: Seq<char>)
    ensures
        0 <= first_sep(s) <= s.len(),
        first_sep(s) < s.len() ==> sep_at(s, first_sep(s)),
        forall|k: int| 0 <= k < first_sep(s) ==> !sep_at(s, k),
    decreases s.len(),
{
    if s.len() < 2 {
    } else if s[0] == '\n' && s[1] == '\n' {
    } else {
        lemma_first_sep(s.drop_first());
        assert forall|k: int| 0 <= k < first_sep(s) implies !sep_at(s, k) by {
            if k > 0 {
                assert(s[k] == s.drop_first()[k - 1]);
                if k + 1 < s.len() {
                    assert(s[k + 1] == s.drop_first()[k]);
                }
                assert(!sep_at(s.drop_first(), k - 1));
            }
        }
        if first_sep(s) < s.len() {
            assert(sep_at(s.drop_first(), first_sep(s.drop_first())));
            assert(s[first_sep(s)] == s.drop_first()[first_sep(s) - 1]);
            assert(s[first_sep(s) + 1] == s.drop_first()[first_sep(s)]);
        }
    }
}

/// A layout description splits into exactly two blocks: one blank
/// line stands somewhere, and none after it.
pub open spec fn splits_in_two(s: Seq<char>) -> bool {
    first_sep(s) < s.len() && {
        let tail = s.skip(first_sep(s) + 2);
        first_sep(tail) == tail.len()
    }
}

/// Splits a layout description at its single blank line into the
/// glyph grid and the position-to-key lookup of the mapping block.
pub fn parse_layout(layout: &str) -> (r: Result<(Vec<char>, TouchMap), KeyboardError>)
    ensures
        match r {
            Ok(p) => {
                &&& splits_in_two(layout@)
                &&& p.0@ == layout@.take(first_sep(layout@))
                &&& p.1@ == touch_map_of(layout@.skip(first_sep(layout@) + 2))
            },
            Err(e) => e == KeyboardError::LayoutParsingError && !splits_in_two(layout@),
        },
{
    let chars = chars_vec(layout);
    let n = chars.len();
    if n < 2 {
        // Too short to hold a blank line: one single block.
        proof {
            lemma_first_sep(chars@);
        }
        return Err(KeyboardError::LayoutParsingError);
    }
    let mut i: usize = 0;
    while i < n - 1 && !(chars[i] == '\n' && chars[i + 1] == '\n')
        invariant
            n == chars@.len(),
            chars@ == layout@,
            2 <= n,
            0 <= i <= n - 1,
            forall|k: int| 0 <= k < i ==> !sep_at(chars@, k),
        decreases n - i,
    {
        i = i + 1;
    }
    proof {
        lemma_first_sep(chars@);
    }
    if i >= n - 1 {
        // No blank line at all: the description is one single block.
        proof {
            if first_sep(chars@) < n {
                assert(!sep_at(chars@, first_sep(chars@)));
            }
        }
        return Err(KeyboardError::LayoutParsingError);
    }
    assert(sep_at(chars@, i as int));
    assert(i as int == first_sep(chars@));
    let ghost tail = chars@.skip(i + 2 as int);
    // Look for a second blank line after the first.
    let mut j: usize = i + 2;
    while j < n - 1 && !(chars[j] == '\n' && chars[j + 1] == '\n')
        invariant
            n == chars@.len(),
            chars@ == layout@,
            i + 2 <= j <= n,
            tail == chars@.skip(i + 2 as int),
            forall|k: int| 0 <= k < j - i - 2 ==> !sep_at(tail, k),
        decreases n - j,
    {
        proof {
            assert(tail[j - i - 2] == chars@[j as int]);
            assert(tail[j - i - 1] == chars@[j + 1 as int]);
        }
        j = j + 1;
    }
    proof {
        lemma_first_sep(tail);
    }
    if j < n - 1 {
        // A second blank line: more than two blocks.
        proof {
            assert(tail[j - i - 2] == chars@[j as int]);
            assert(tail[j - i - 1] == chars@[j + 1 as int]);
            assert(sep_at(tail, j - i - 2));
        }
        return Err(KeyboardError::LayoutParsingError);
    }
    proof {
        assert forall|k: int| 0 <= k < tail.len() implies !sep_at(tail, k) by {
            if k >= tail.len() - 1 {
            } else {
                assert(!sep_at(tail, k));
            }
        }
        if first_sep(tail) < tail.len() {
            assert(!sep_at(tail, first_sep(tail)));
        }
    }
    let mut glyphs: Vec<char> = Vec::new();
    let mut k: usize = 0;
    while k < i
        invariant
            n == chars@.len(),
            chars@ == layout@,
            k <= i <= n,
            glyphs@ == chars@.take(k as int),
        decreases i - k,
    {
        glyphs.push(chars[k]);
        proof {
            assert(glyphs@ =~= chars@.take(k + 1 as int));
        }
        k = k + 1;
    }
    let mut touch: Vec<char> = Vec::new();
    let mut m: usize = i + 2;
    while m < n
        invariant
            n == chars@.len(),
            chars@ == layout@,
            i + 2 <= m <= n,
            tail == chars@.skip(i + 2 as int),
            touch@.len() == m - i - 2,
            forall|q: int| 0 <= q < m - i - 2 ==> #[trigger] touch@[q] == touch_of(tail[q]),
        decreases n - m,
    {
        let c = chars[m];
        proof {
            assert(tail[m - i - 2] == chars@[m as int]);
        }
        if is_blank_marker_char(c) {
            touch.push(' ');
        } else {
            touch.push(c);
        }
        m = m + 1;
    }
    proof {
        assert(touch@ =~= touch_map_of(tail));
    }
    Ok((glyphs, touch))
}

/// A character uppercased the way key highlighting needs it: ASCII
/// lowercase letters become their uppercase twin, all else is kept.
pub open spec fn upper_char(c: char) -> char {
    if 97 <= c as u32 && c as u32 <= 122 {
        (((c as u32) - 32) as u8) as char
    } else {
        c
    }
}

/// Executable twin of [`upper_char`].
pub fn to_upper(c: char) -> (r: char)
    ensures
        r == upper_char(c),
{
    let u = c as u32;
    if 97 <= u && u <= 122 {
        ((u - 32) as u8) as char
    } else {
        c
    }
}

/// The position of the first entry with the given key, or the length
/// if the key is absent.
pub open spec fn find_key(s: Seq<(char, u128)>, key: char) -> int
    decreases s.len(),
{
    if s.len() == 0 {
        0
    } else if s[0].0 == key {
        0
    } else {
        1 + find_key(s.drop_first(), key)
    }
}

/// `find_key` is the least position of the key, or the length when
/// the key is absent.
pub proof fn lemma_find_key(s: Seq<(char, u128)>, key: char)
    ensures
        0 <= find_key(s, key) <= s.len(),
        find_key(s, key) < s.len() ==> s[find_key(s, key)].0 == key,
        forall|k: int| 0 <= k < find_key(s, key) ==> (#[trigger] s[k]).0 != key,
    decreases s.len(),
{
    if s.len() > 0 && s[0].0 != key {
        lemma_find_key(s.drop_first(), key);
        assert forall|k: int| 0 <= k < find_key(s, key) implies (#[trigger] s[k]).0 != key by {
            if k > 0 {
                assert(s[k] == s.drop_first()[k - 1]);
            }
        }
        if find_key(s, key) < s.len() {
            assert(s[find_key(s, key)] == s.drop_first()[find_key(s.drop_first(), key)]);
        }
    }
}

/// The expiry time the active set holds for a key: that of its first
/// entry, or nothing when the key is absent.
pub open spec fn lookup(s: Seq<(char, u128)>, key: char) -> Option<u128>
    decreases s.len(),
{
    if s.len() == 0 {
        None
    } else if s[0].0 == key {
        Some(s[0].1)
    } else {
        lookup(s.drop_first(), key)
    }
}

/// Some key of the set is the given character.
pub open spec fn key_in(s: Seq<(char, u128)>, key: char) -> bool {
    exists|k: int| 0 <= k < s.len() && (#[trigger] s[k]).0 == key
}

/// A key has an expiry exactly when it stands in the set.
pub proof fn lemma_lookup_key_in(s: Seq<(char, u128)>, key: char)
    ensures
        lookup(s, key) is Some <==> key_in(s, key),
    decreases s.len(),
{
    if s.len() > 0 {
        lemma_lookup_key_in(s.drop_first(), key);
        if s[0].0 == key {
            assert(s[0].0 == key);
        } else {
            if key_in(s.drop_first(), key) {
                let k = choose|k: int|
                    0 <= k < s.drop_first().len() && (#[trigger] s.drop_first()[k]).0 == key;
                assert(s[k + 1] == s.drop_first()[k]);
            }
            if key_in(s, key) {
                let k = choose|k: int| 0 <= k < s.len() && (#[trigger] s[k]).0 == key;
                assert(s.drop_first()[k - 1] == s[k]);
            }
        }
    }
}

/// The active set after a key press: the key's entry, uppercased, is
/// overwritten or appended with the new expiry time.
pub open spec fn key_pressed_spec(active: Seq<(char, u128)>, key: char, now: u128) -> Seq<
    (char, u128),
> {
    let ku = upper_char(key);
    let entry = (ku, (now + HIGHLIGHT_MILLIS) as u128);
    if find_key(active, ku) == active.len() {
        active.push(entry)
    } else {
        active.update(find_key(active, ku), entry)
    }
}

/// The active set after a tick: every entry whose expiry has passed
/// is dropped, and the rest keep their order.
pub open spec fn prune(s: Seq<(char, u128)>, now: u128) -> Seq<(char, u128)>
    decreases s.len(),
{
    if s.len() == 0 {
        s
    } else {
        let rest = prune(s.drop_first(), now);
        if now > s[0].1 {
            rest
        } else {
            seq![s[0]] + rest
        }
    }
}

/// Pruning a set with one more entry prunes the set and then keeps or
/// drops that entry.
pub proof fn lemma_prune_push(s: Seq<(char, u128)>, x: (char, u128), now: u128)
    ensures
        prune(s.push(x), now) == if now > x.1 {
            prune(s, now)
        } else {
            prune(s, now).push(x)
        },
    decreases s.len(),
{
    let e = Seq::<(char, u128)>::empty();
    assert(prune(e, now) == e);
    if s.len() == 0 {
        assert(s.push(x).drop_first() =~= e);
        assert(s.push(x)[0] == x);
        assert(s =~= e);
        if now > x.1 {
            assert(prune(s.push(x), now) =~= prune(s, now));
        } else {
            assert(prune(s.push(x), now) =~= prune(s, now).push(x));
        }
    } else {
        lemma_prune_push(s.drop_first(), x, now);
        assert(s.push(x).drop_first() =~= s.drop_first().push(x));
        assert(s.push(x)[0] == s[0]);
        if now > x.1 {
            assert(prune(s.push(x), now) =~= prune(s, now));
        } else {
            assert(prune(s.push(x), now) =~= prune(s, now).push(x));
        }
    }
}

/// Every key of the pruned set stands in the set it was pruned from.
pub proof fn lemma_prune_keys(s: Seq<(char, u128)>, now: u128)
    ensures
        forall|c: char| #[trigger] key_in(prune(s, now), c) ==> key_in(s, c),
    decreases s.len(),
{
    if s.len() > 0 {
        lemma_prune_keys(s.drop_first(), now);
        assert forall|c: char| #[trigger] key_in(prune(s, now), c) implies key_in(s, c) by {
            let p = prune(s, now);
            let k = choose|k: int| 0 <= k < p.len() && (#[trigger] p[k]).0 == c;
            let rest = prune(s.drop_first(), now);
            if now > s[0].1 {
                assert(key_in(rest, c));
                assert(key_in(s.drop_first(), c));
                let m = choose|m: int|
                    0 <= m < s.drop_first().len() && (#[trigger] s.drop_first()[m]).0 == c;
                assert(s[m + 1] == s.drop_first()[m]);
            } else {
                if k == 0 {
                    assert(s[0].0 == c);
                } else {
                    assert(p[k] == rest[k - 1]);
                    assert(key_in(rest, c));
                    assert(key_in(s.drop_first(), c));
                    let m = choose|m: int|
                        0 <= m < s.drop_first().len() && (#[trigger] s.drop_first()[m]).0 == c;
                    assert(s[m + 1] == s.drop_first()[m]);
                }
            }
        }
    }
}

/// Pruning keeps the keys unique.
pub proof fn lemma_prune_uniq(s: Seq<(char, u128)>, now: u128)
    requires
        uniq_keys(s),
    ensures
        uniq_keys(prune(s, now)),
    decreases s.len(),
{
    if s.len() > 0 {
        assert forall|i: int, j: int|
            0 <= i < j < s.drop_first().len() implies (#[trigger] s.drop_first()[i]).0 != (
        #[trigger] s.drop_first()[j]).0 by {
            assert(s.drop_first()[i] == s[i + 1]);
            assert(s.drop_first()[j] == s[j + 1]);
        }
        lemma_prune_uniq(s.drop_first(), now);
        lemma_prune_keys(s.drop_first(), now);
        let rest = prune(s.drop_first(), now);
        if now > s[0].1 {
        } else {
            let p = seq![s[0]] + rest;
            assert forall|i: int, j: int|
                0 <= i < j < p.len() implies (#[trigger] p[i]).0 != (#[trigger] p[j]).0 by {
                if i == 0 {
                    assert(p[j] == rest[j - 1]);
                    assert(key_in(rest, rest[j - 1].0));
                    assert(key_in(s.drop_first(), rest[j - 1].0));
                    let m = choose|m: int|
                        0 <= m < s.drop_first().len() && (#[trigger] s.drop_first()[m]).0 == rest[j
                            - 1].0;
                    assert(s[m + 1] == s.drop_first()[m]);
                } else {
                    assert(p[i] == rest[i - 1]);
                    assert(p[j] == rest[j - 1]);
                }
            }
        }
    }
}

/// A key press keeps the keys unique.
pub proof fn lemma_key_pressed_uniq(active: Seq<(char, u128)>, key: char, now: u128)
    requires
        uniq_keys(active),
    ensures
        uniq_keys(key_pressed_spec(active, key, now)),
{
    let ku = upper_char(key);
    let p = key_pressed_spec(active, key, now);
    lemma_find_key(active, ku);
    if find_key(active, ku) == active.len() {
        assert forall|i: int, j: int|
            0 <= i < j < p.len() implies (#[trigger] p[i]).0 != (#[trigger] p[j]).0 by {
            if j == active.len() {
                assert(p[i] == active[i]);
            } else {
                assert(p[i] == active[i]);
                assert(p[j] == active[j]);
            }
        }
    } else {
        assert forall|i: int, j: int|
            0 <= i < j < p.len() implies (#[trigger] p[i]).0 != (#[trigger] p[j]).0 by {
            assert(p[i].0 == active[i].0);
            assert(p[j].0 == active[j].0);
        }
    }
}

/// After a key press the pressed key holds the new expiry and every
/// other key is untouched.
pub proof fn lemma_lookup_key_pressed(active: Seq<(char, u128)>, key: char, now: u128, c: char)
    ensures
        lookup(key_pressed_spec(active, key, now), c) == if c == upper_char(key) {
            Some((now + HIGHLIGHT_MILLIS) as u128)
        } else {
            lookup(active, c)
        },
    decreases active.len(),
{
    let ku = upper_char(key);
    let entry = (ku, (now + HIGHLIGHT_MILLIS) as u128);
    if active.len() == 0 {
        let p = active.push(entry);
        assert(p[0] == entry);
        assert(p.drop_first() =~= Seq::<(char, u128)>::empty());
        assert(lookup(Seq::<(char, u128)>::empty(), c) == None::<u128>);
    } else if active[0].0 == ku {
        let p = active.update(0, entry);
        assert(p[0] == entry);
        if c != ku {
            assert(p.drop_first() =~= active.drop_first());
        }
    } else {
        lemma_lookup_key_pressed(active.drop_first(), key, now, c);
        lemma_find_key(active, ku);
        lemma_find_key(active.drop_first(), ku);
        let p = key_pressed_spec(active, key, now);
        if find_key(active, ku) == active.len() {
            assert(p == active.push(entry));
            assert(p.drop_first() =~= active.drop_first().push(entry));
            assert(find_key(active.drop_first(), ku) == active.drop_first().len());
            assert(p[0] == active[0]);
            assert(p.drop_first() == key_pressed_spec(active.drop_first(), key, now));
        } else {
            assert(p == active.update(find_key(active, ku), entry));
            assert(p.drop_first() =~= active.drop_first().update(
                find_key(active.drop_first(), ku),
                entry,
            ));
            assert(p[0] == active[0]);
            assert(p.drop_first() == key_pressed_spec(active.drop_first(), key, now));
        }
    }
}

/// After a tick a key keeps its expiry exactly when that expiry has
/// not passed.
pub proof fn lemma_lookup_prune(s: Seq<(char, u128)>, now: u128, c: char)
    requires
        uniq_keys(s),
    ensures
        lookup(prune(s, now), c) == match lookup(s, c) {
            Some(t) => if now > t {
                None
            } else {
                Some(t)
            },
            None => None::<u128>,
        },
    decreases s.len(),
{
    if s.len() > 0 {
        assert forall|i: int, j: int|
            0 <= i < j < s.drop_first().len() implies (#[trigger] s.drop_first()[i]).0 != (
        #[trigger] s.drop_first()[j]).0 by {
            assert(s.drop_first()[i] == s[i + 1]);
            assert(s.drop_first()[j] == s[j + 1]);
        }
        lemma_lookup_prune(s.drop_first(), now, c);
        let rest = prune(s.drop_first(), now);
        if s[0].0 == c {
            if now > s[0].1 {
                // The key's only entry is dropped, so it is gone.
                lemma_lookup_key_in(s.drop_first(), c);
                lemma_lookup_key_in(rest, c);
                lemma_prune_keys(s.drop_first(), now);
                if key_in(s.drop_first(), c) {
                    let m = choose|m: int|
                        0 <= m < s.drop_first().len() && (#[trigger] s.drop_first()[m]).0 == c;
                    assert(s[m + 1] == s.drop_first()[m]);
                }
            } else {
                let p = seq![s[0]] + rest;
                assert(p[0] == s[0]);
            }
        } else {
            if now > s[0].1 {
            } else {
                let p = seq![s[0]] + rest;
                assert(p[0] == s[0]);
                assert(p.drop_first() =~= rest);
            }
        }
    }
}

/// A pressed key stays reported while the highlight window lasts and
/// is gone from the first tick after it: pressing `key` at `press`
/// and ticking at `later` leaves the key active exactly when `later`
/// has not passed `press` plus the window.
pub proof fn lemma_keyboard_decay(active: Seq<(char, u128)>, key: char, press: u128, later: u128)
    requires
        uniq_keys(active),
        press + HIGHLIGHT_MILLIS <= u128::MAX,
    ensures
        ({
            let ticked = prune(key_pressed_spec(active, key, press), later);
            lookup(ticked, upper_char(key)) == if later > press + HIGHLIGHT_MILLIS {
                None::<u128>
            } else {
                Some((press + HIGHLIGHT_MILLIS) as u128)
            }
        }),
{
    lemma_key_pressed_uniq(active, key, press);
    lemma_lookup_key_pressed(active, key, press, upper_char(key));
    lemma_lookup_prune(key_pressed_spec(active, key, press), later, upper_char(key));
}

/// The position of the first entry with the given key, as
/// [`find_key`] counts it.
fn find_index(v: &Vec<(char, u128)>, key: char) -> (i: usize)
    ensures
        i as int == find_key(v@, key),
        i <= v.len(),
{
    let n = v.len();
    let mut i: usize = 0;
    while i < n && !(v[i].0 == key)
        invariant
            n == v@.len(),
            0 <= i <= n,
            forall|k: int| 0 <= k < i ==> (#[trigger] v@[k]).0 != key,
        decreases n - i,
    {
        i = i + 1;
    }
    proof {
        lemma_find_key(v@, key);
        if (i as int) < v@.len() {
            assert(v@[i as int].0 == key);
        }
    }
    i
}

impl Keyboard {
    /// Records a key press at time `now`: the key, uppercased, stays
    /// highlighted until `now` plus the highlight window.
    pub fn key_pressed(&mut self, key: char, now: u128)
        requires
            now + HIGHLIGHT_MILLIS <= u128::MAX,
            old(self)@.wf(),
        ensures
            final(self)@.layout == old(self)@.layout,
            final(self)@.touch_map == old(self)@.touch_map,
            final(self)@.active_keys == key_pressed_spec(old(self)@.active_keys, key, now),
            final(self)@.wf(),
    {
        let ku = to_upper(key);
        let expiry = now + HIGHLIGHT_MILLIS;
        let i = find_index(&self.active_keys, ku);
        if i == self.active_keys.len() {
            self.active_keys.push((ku, expiry));
        } else {
            self.active_keys.set(i, (ku, expiry));
        }
        proof {
            lemma_key_pressed_uniq(old(self)@.active_keys, key, now);
        }
    }

    /// Removes every key whose highlight has expired by `now`; the
    /// keys that stay keep their order and expiry times.
    pub fn tick(&mut self, now: u128)
        requires
            old(self)@.wf(),
        ensures
            final(self)@.layout == old(self)@.layout,
            final(self)@.touch_map == old(self)@.touch_map,
            final(self)@.active_keys == prune(old(self)@.active_keys, now),
            final(self)@.wf(),
    {
        let n = self.active_keys.len();
        let mut kept: Vec<(char, u128)> = Vec::new();
        let mut i: usize = 0;
        proof {
            assert(self.active_keys@.take(0) =~= Seq::<(char, u128)>::empty());
        }
        while i < n
            invariant
                0 <= i <= n,
                n == self.active_keys@.len(),
                self.active_keys@ == old(self)@.active_keys,
                kept@ == prune(self.active_keys@.take(i as int), now),
            decreases n - i,
        {
            let entry = self.active_keys[i];
            proof {
                assert(self.active_keys@.take(i + 1 as int) =~= self.active_keys@.take(
                    i as int,
                ).push(entry));
                lemma_prune_push(self.active_keys@.take(i as int), entry, now);
            }
            if !(now > entry.1) {
                kept.push(entry);
            }
            i = i + 1;
        }
        proof {
            assert(self.active_keys@.take(n as int) =~= self.active_keys@);
        }
        self.active_keys = kept;
        proof {
            lemma_prune_uniq(old(self)@.active_keys, now);
        }
    }

    /// Builds the keyboard of a layout description: the description
    /// must hold the glyph grid and the key mapping as two blocks
    /// separated by one blank line. No key is active at first.
    pub fn new(layout: &str) -> (r: Result<Keyboard, KeyboardError>)
        ensures
            match r {
                Ok(kb) => {
                    &&& splits_in_two(layout@)
                    &&& kb@.layout == layout@.take(first_sep(layout@))
                    &&& kb@.touch_map == touch_map_of(layout@.skip(first_sep(layout@) + 2))
                    &&& kb@.active_keys == Seq::<(char, u128)>::empty()
                    &&& kb@.wf()
                },
                Err(e) => e == KeyboardError::LayoutParsingError && !splits_in_two(layout@),
            },
    {
        match parse_layout(layout) {
            Ok(p) => {
                let (glyphs, touch) = p;
                Ok(Keyboard { layout: glyphs, touch_map: touch, active_keys: Vec::new() })
            },
            Err(e) => Err(e),
        }
    }
}

} // verus!
