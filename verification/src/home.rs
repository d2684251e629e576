use vstd::prelude::*;
use vstd::string::StringExecFns;

use crate::store::{snapshot, Store};
use crate::wrap::{string_views, word_wrap, wrapped};

verus! {

#[verifier::external_type_specification]
#[verifier::external_body]
pub struct ExStdRng(rand::rngs::StdRng);

/// `SeedableRng::from_rng(OsRng)` for `StdRng`: a generator seeded from the
/// operating system's random source, or `None` when that source fails (the
/// crate returns its error instead of panicking). Whether it succeeds depends
/// on the machine, so nothing is stated of the result.
#[verifier::external_body]
fn seeded_rng() -> Option<rand::rngs::StdRng> {
    <rand::rngs::StdRng as rand::SeedableRng>::from_rng(rand::rngs::OsRng).ok()
}

/// `SliceRandom::shuffle` on the indices with a `StdRng`: the crate swaps
/// each position with a randomly chosen earlier one (Fisher–Yates), so the
/// result holds exactly the same elements in some order; which order is left
/// open. `StdRng` never reseeds, so no draw can fail.
#[verifier::external_body]
fn shuffle_indices(order: &mut Vec<usize>, rng: &mut rand::rngs::StdRng)
    ensures
        final(order)@.to_multiset() == old(order)@.to_multiset(),
{
    rand::seq::SliceRandom::shuffle(order.as_mut_slice(), rng)
}

/// A key press, as the sections receive it.
pub enum Key {
    Up,
    Down,
    Left,
    Right,
    Enter,
    Esc,
    Tab,
    BackTab,
    Backspace,
    Char(char),
}

/// `0, 1, ..., n - 1`.
pub open spec fn index_range(n: nat) -> Seq<usize> {
    Seq::new(n, |i: int| i as usize)
}

/// `order` is a rearrangement of `0, 1, ..., order.len() - 1`.
pub open spec fn is_index_permutation(order: Seq<usize>) -> bool {
    order.to_multiset() == index_range(order.len()).to_multiset()
}

/// The state of the home section as the contracts speak of it: the shuffled
/// order in which quotes are shown, and the position in that order.
pub struct HomeState {
    pub order: Seq<usize>,
    pub cursor: nat,
}

/// What holds of every home section: the order is a permutation of the quote
/// indices and the cursor points into it (or is 0 when there is no quote).
pub open spec fn valid_home(s: HomeState) -> bool {
    &&& is_index_permutation(s.order)
    &&& s.order.len() == 0 ==> s.cursor == 0
    &&& s.order.len() > 0 ==> s.cursor < s.order.len()
}

/// Whether `key` moves to the next quote.
pub open spec fn is_next_key(key: Key) -> bool {
    match key {
        Key::Right => true,
        Key::Char(c) => c == 'l' || c == 'n',
        _ => false,
    }
}

/// Whether `key` moves to the previous quote.
pub open spec fn is_prev_key(key: Key) -> bool {
    match key {
        Key::Left => true,
        Key::Char(c) => c == 'h' || c == 'p',
        _ => false,
    }
}

/// The cursor after `key` among `len` quotes: next and previous wrap around;
/// other keys, and any key when there is no quote, leave it.
pub open spec fn cursor_after_key(key: Key, cursor: nat, len: nat) -> nat {
    if len == 0 {
        cursor
    } else if is_next_key(key) {
        (cursor + 1) % len
    } else if is_prev_key(key) {
        if cursor == 0 {
            (len - 1) as nat
        } else {
            (cursor - 1) as nat
        }
    } else {
        cursor
    }
}

/// The quote shown among `n_quotes` quotes: the order's entry at the cursor
/// (0 when the cursor is past the order), reduced modulo the number of
/// quotes, which may have changed since the order was drawn.
pub open spec fn shown_quote(s: HomeState, n_quotes: nat) -> Option<nat> {
    if n_quotes == 0 {
        None
    } else {
        let at: nat = if s.cursor < s.order.len() {
            s.order[s.cursor as int] as nat
        } else {
            0
        };
        Some(at % n_quotes)
    }
}

/// The home screen section: a shuffled order over the quotes and a cursor.
pub struct HomeSection {
    order: Vec<usize>,
    cursor: usize,
}

impl View for HomeSection {
    type V = HomeState;

    closed spec fn view(&self) -> HomeState {
        HomeState { order: self.order@, cursor: self.cursor as nat }
    }
}

impl HomeSection {
    #[verifier::type_invariant]
    closed spec fn inv(self) -> bool {
        valid_home(self@)
    }

    /// A home section over `n` quotes at its first position, its order
    /// shuffled with `rng`; without a generator the quotes keep their stored
    /// order.
    pub fn with_generator(n: usize, rng: Option<rand::rngs::StdRng>) -> (s: HomeSection)
        ensures
            s@.order.len() == n,
            s@.cursor == 0,
            valid_home(s@),
            rng is None ==> s@.order == index_range(n as nat),
    {
        let mut order: Vec<usize> = Vec::new();
        let mut i: usize = 0;
        while i < n
            invariant
                i <= n,
                order@ == index_range(i as nat),
            decreases n - i,
        {
            order.push(i);
            i = i + 1;
            proof {
                assert(order@ =~= index_range(i as nat));
            }
        }
        let ghost before = order@;
        match rng {
            Some(mut generator) => {
                shuffle_indices(&mut order, &mut generator);
            },
            None => {},
        }
        proof {
            broadcast use vstd::seq_lib::group_to_multiset_ensures;

            assert(order@.to_multiset().len() == before.to_multiset().len());
            assert(order@.len() == before.len());
        }
        HomeSection { order, cursor: 0 }
    }

    fn shuffled(n: usize) -> (s: HomeSection)
        ensures
            s@.order.len() == n,
            s@.cursor == 0,
            valid_home(s@),
    {
        HomeSection::with_generator(n, seeded_rng())
    }

    /// A home section over the quotes of the store's current snapshot, in a
    /// fresh random order, at its first position. When the operating
    /// system's random source cannot seed a generator, the quotes keep their
    /// stored order.
    pub fn new(store: &Store) -> (s: HomeSection)
        ensures
            s@.order.len() == store@.data.quotes.len(),
            s@.cursor == 0,
            valid_home(s@),
    {
        let data = snapshot(store);
        HomeSection::shuffled(data.quotes.len())
    }

    /// Draws a fresh order over `n` quotes and goes back to the first one.
    fn reshuffle(&mut self, n: usize)
        ensures
            final(self)@.order.len() == n,
            final(self)@.cursor == 0,
            valid_home(final(self)@),
    {
        *self = HomeSection::shuffled(n);
    }

    /// The name of the section.
    pub fn label(&self) -> (label: &'static str)
        ensures
            label@ == "Home"@,
    {
        "Home"
    }

    /// Moves through the quotes: right, `l` and `n` go to the next one, left,
    /// `h` and `p` to the previous one, both wrapping around; other keys, and
    /// any key while there is no quote, do nothing.
    pub fn handle_key(&mut self, key: Key)
        ensures
            final(self)@.order == old(self)@.order,
            final(self)@.cursor == cursor_after_key(key, old(self)@.cursor, old(self)@.order.len()),
            valid_home(final(self)@),
            old(self)@.order.len() > 0 && (key is Right || key == Key::Char('l') || key
                == Key::Char('n')) ==> final(self)@.cursor == (old(self)@.cursor + 1) % old(
                self,
            )@.order.len(),
            old(self)@.order.len() > 0 && (key is Left || key == Key::Char('h') || key == Key::Char(
                'p',
            )) ==> final(self)@.cursor + 1 == (if old(self)@.cursor == 0 {
                old(self)@.order.len()
            } else {
                old(self)@.cursor
            }),
            !(key is Right || key is Left || key == Key::Char('l') || key == Key::Char('n') || key
                == Key::Char('h') || key == Key::Char('p')) ==> final(self)@.cursor == old(
                self,
            )@.cursor,
    {
        proof {
            use_type_invariant(&*self);
        }
        let len = self.order.len();
        if len == 0 {
            return;
        }
        match key {
            Key::Right | Key::Char('l') | Key::Char('n') => {
                self.cursor = (self.cursor + 1) % len;
            },
            Key::Left | Key::Char('h') | Key::Char('p') => {
                self.cursor = match self.cursor.checked_sub(1) {
                    Some(c) => c,
                    None => len - 1,
                };
            },
            _ => {},
        }
    }

    /// Keeps the order in step with the store's snapshot: when the number of
    /// quotes changed (after a refresh), a fresh order is drawn and the
    /// cursor goes back to the first quote; otherwise nothing changes.
    pub fn update(&mut self, store: &Store)
        ensures
            old(self)@.order.len() == store@.data.quotes.len() ==> final(self)@ == old(self)@,
            old(self)@.order.len() != store@.data.quotes.len() ==> final(self)@.order.len()
                == store@.data.quotes.len() && final(self)@.cursor == 0,
            valid_home(final(self)@),
    {
        proof {
            use_type_invariant(&*self);
        }
        let data = snapshot(store);
        let n = data.quotes.len();
        if self.order.len() != n {
            self.reshuffle(n);
        }
    }

    /// The index of the quote to show among `n_quotes` quotes, or `None`
    /// when there is none.
    pub fn quote_index(&self, n_quotes: usize) -> (idx: Option<usize>)
        ensures
            match idx {
                Some(i) => shown_quote(self@, n_quotes as nat) == Some(i as nat) && i < n_quotes,
                None => shown_quote(self@, n_quotes as nat) is None,
            },
            idx is None <==> n_quotes == 0,
            n_quotes > 0 && self@.cursor < self@.order.len() ==> idx == Some(
                (self@.order[self@.cursor as int] % n_quotes) as usize,
            ),
            n_quotes > 0 && self@.cursor >= self@.order.len() ==> idx == Some(0usize),
    {
        if n_quotes == 0 {
            return None;
        }
        let at = if self.cursor < self.order.len() {
            self.order[self.cursor]
        } else {
            0
        };
        Some(at % n_quotes)
    }

    /// The position shown beside the quote: the cursor counted from 1, and
    /// the number of quotes in the order (at least 1).
    pub fn position(&self) -> (pos: (usize, usize))
        ensures
            pos.0 == self@.cursor + 1,
            pos.1 == if self@.order.len() == 0 {
                1
            } else {
                self@.order.len()
            },
    {
        proof {
            use_type_invariant(self);
        }
        let total = if self.order.len() == 0 {
            1
        } else {
            self.order.len()
        };
        (self.cursor + 1, total)
    }
}

/// The cursor after pressing `key` `k` times among `len` quotes.
pub open spec fn cursor_after_presses(key: Key, k: nat, cursor: nat, len: nat) -> nat
    decreases k,
{
    if k == 0 {
        cursor
    } else {
        cursor_after_key(key, cursor_after_presses(key, (k - 1) as nat, cursor, len), len)
    }
}

/// A rearrangement of `0, ..., n - 1` holds each of those indices exactly
/// once and nothing else.
pub proof fn lemma_index_permutation(order: Seq<usize>)
    requires
        is_index_permutation(order),
        order.len() <= usize::MAX,
    ensures
        forall|i: int| 0 <= i < order.len() ==> #[trigger] order[i] < order.len(),
        order.no_duplicates(),
        forall|q: usize| q < order.len() ==> order.contains(q),
{
    broadcast use vstd::seq_lib::group_to_multiset_ensures;

    let r = index_range(order.len());
    assert forall|i: int| 0 <= i < order.len() implies #[trigger] order[i] < order.len() by {
        assert(order.contains(order[i]));
        assert(order.to_multiset().count(order[i]) > 0);
        assert(r.contains(order[i]));
        let j = choose|j: int| 0 <= j < r.len() && r[j] == order[i];
        assert(r[j] == j as usize);
    }
    assert(r.no_duplicates());
    r.lemma_multiset_has_no_duplicates();
    assert forall|x: usize| order.to_multiset().contains(x) implies order.to_multiset().count(x)
        == 1 by {
        assert(r.to_multiset().contains(x));
    }
    order.lemma_multiset_has_no_duplicates_conv();
    assert forall|q: usize| q < order.len() implies order.contains(q) by {
        assert(r[q as int] == q);
        assert(r.contains(q));
        assert(r.to_multiset().count(q) > 0);
    }
}

/// Some cursor position among those of the order shows quote `q`.
pub open spec fn shown_in_cycle(s: HomeState, q: nat) -> bool {
    exists|c: nat|
        c < s.order.len() && #[trigger] shown_quote(
            HomeState { order: s.order, cursor: c },
            s.order.len(),
        ) == Some(q)
}

/// Every home section shows each quote exactly once per cycle: when its
/// order covers the `n` quotes, the cursor positions `0..n` show all of
/// them, each at one position only.
pub proof fn lemma_cycle_shows_every_quote(s: HomeState)
    requires
        valid_home(s),
        0 < s.order.len() <= usize::MAX,
    ensures
        forall|q: nat| q < s.order.len() ==> #[trigger] shown_in_cycle(s, q),
        forall|c1: nat, c2: nat|
            c1 < s.order.len() && c2 < s.order.len() && c1 != c2 ==> #[trigger] shown_quote(
                HomeState { order: s.order, cursor: c1 },
                s.order.len(),
            ) != #[trigger] shown_quote(HomeState { order: s.order, cursor: c2 }, s.order.len()),
{
    let n = s.order.len();
    lemma_index_permutation(s.order);
    assert forall|c: nat| c < n implies #[trigger] shown_quote(
        HomeState { order: s.order, cursor: c },
        n,
    ) == Some(s.order[c as int] as nat) by {
        vstd::arithmetic::div_mod::lemma_small_mod(s.order[c as int] as nat, n);
    }
    assert forall|q: nat| q < n implies #[trigger] shown_in_cycle(s, q) by {
        assert(s.order.contains(q as usize));
        let j = choose|j: int| 0 <= j < n && s.order[j] == q as usize;
        assert(shown_quote(HomeState { order: s.order, cursor: j as nat }, n) == Some(q));
    }
}

/// Moving to the next quote and back, or back and then on, returns to the
/// same quote.
pub proof fn lemma_next_prev_inverse(cursor: nat, len: nat)
    requires
        cursor < len,
    ensures
        cursor_after_key(Key::Left, cursor_after_key(Key::Right, cursor, len), len) == cursor,
        cursor_after_key(Key::Right, cursor_after_key(Key::Left, cursor, len), len) == cursor,
{
    if cursor + 1 < len {
        vstd::arithmetic::div_mod::lemma_small_mod((cursor + 1) as nat, len);
    } else {
        vstd::arithmetic::div_mod::lemma_mod_self_0(len as int);
    }
    if cursor > 0 {
        vstd::arithmetic::div_mod::lemma_small_mod(cursor, len);
    } else {
        vstd::arithmetic::div_mod::lemma_mod_self_0(len as int);
    }
}

proof fn lemma_presses_next(k: nat, cursor: nat, len: nat)
    requires
        cursor < len,
    ensures
        cursor_after_presses(Key::Right, k, cursor, len) as int == ((cursor + k) as int) % (len as int),
    decreases k,
{
    if k == 0 {
        vstd::arithmetic::div_mod::lemma_small_mod(cursor, len);
    } else {
        lemma_presses_next((k - 1) as nat, cursor, len);
        vstd::arithmetic::div_mod::lemma_add_mod_noop_right(1, cursor + k - 1, len as int);
    }
}

proof fn lemma_presses_prev(k: nat, cursor: nat, len: nat)
    requires
        cursor < len,
    ensures
        cursor_after_presses(Key::Left, k, cursor, len) as int == (cursor - k) % (len as int),
    decreases k,
{
    if k == 0 {
        vstd::arithmetic::div_mod::lemma_small_mod(cursor, len);
    } else {
        lemma_presses_prev((k - 1) as nat, cursor, len);
        let x = cursor_after_presses(Key::Left, (k - 1) as nat, cursor, len);
        vstd::arithmetic::div_mod::lemma_mod_bound(cursor - (k - 1), len as int);
        vstd::arithmetic::div_mod::lemma_add_mod_noop_right(-1, cursor - (k - 1), len as int);
        if x > 0 {
            vstd::arithmetic::div_mod::lemma_small_mod((x - 1) as nat, len);
        } else {
            vstd::arithmetic::div_mod::lemma_mod_add_multiples_vanish(-1, len as int);
            vstd::arithmetic::div_mod::lemma_small_mod((len - 1) as nat, len);
        }
    }
}

/// Going forward, or backward, through all `len` quotes comes back to the
/// quote one started from.
pub proof fn lemma_full_cycle(cursor: nat, len: nat)
    requires
        cursor < len,
    ensures
        cursor_after_presses(Key::Right, len, cursor, len) == cursor,
        cursor_after_presses(Key::Left, len, cursor, len) == cursor,
{
    lemma_presses_next(len, cursor, len);
    lemma_presses_prev(len, cursor, len);
    vstd::arithmetic::div_mod::lemma_mod_add_multiples_vanish(cursor as int, len as int);
    vstd::arithmetic::div_mod::lemma_mod_sub_multiples_vanish(cursor as int, len as int);
    vstd::arithmetic::div_mod::lemma_small_mod(cursor, len);
}

/// The quote shown at a cursor inside the order is the order's entry there,
/// reduced modulo the number of quotes; past the order it is the first quote.
pub proof fn lemma_shown_quote_follows_order(s: HomeState, n_quotes: nat)
    requires
        n_quotes > 0,
    ensures
        s.cursor < s.order.len() ==> shown_quote(s, n_quotes) == Some(
            (s.order[s.cursor as int] as nat) % n_quotes,
        ),
        s.cursor >= s.order.len() ==> shown_quote(s, n_quotes) == Some(0nat),
        s.cursor < s.order.len() && s.order[s.cursor as int] < n_quotes ==> shown_quote(
            s,
            n_quotes,
        ) == Some(s.order[s.cursor as int] as nat),
{
    if s.cursor < s.order.len() && s.order[s.cursor as int] < n_quotes {
        vstd::arithmetic::div_mod::lemma_small_mod(s.order[s.cursor as int] as nat, n_quotes);
    }
    vstd::arithmetic::div_mod::lemma_small_mod(0, n_quotes);
}

/// In a valid section whose order covers the `n` quotes, the quote shown at
/// each cursor position is exactly the order's entry there.
pub proof fn lemma_shown_quote_is_order_entry(s: HomeState, c: nat)
    requires
        valid_home(s),
        c < s.order.len() <= usize::MAX,
    ensures
        shown_quote(HomeState { order: s.order, cursor: c }, s.order.len()) == Some(
            s.order[c as int] as nat,
        ),
{
    lemma_index_permutation(s.order);
    vstd::arithmetic::div_mod::lemma_small_mod(s.order[c as int] as nat, s.order.len());
}

/// Only right, `l` and `n` move to the next quote, only left, `h` and `p`
/// to the previous one; every other key leaves the cursor where it is.
/// (With at least three quotes the three outcomes differ, so each key does
/// exactly one of them.)
pub proof fn lemma_navigation_keys(key: Key, cursor: nat, len: nat)
    requires
        cursor < len,
        len >= 3,
    ensures
        cursor_after_key(key, cursor, len) as int == ((cursor + 1) as int) % (len as int) <==> (key is Right || key
            == Key::Char('l') || key == Key::Char('n')),
        cursor_after_key(key, cursor, len) as int == ((cursor + len - 1) as int) % (len as int) <==> (key is Left
            || key == Key::Char('h') || key == Key::Char('p')),
        cursor_after_key(key, cursor, len) == cursor <==> !(key is Right || key is Left || key
            == Key::Char('l') || key == Key::Char('n') || key == Key::Char('h') || key
            == Key::Char('p')),
{
    let l = len as int;
    let c = cursor as int;
    if c + 1 < l {
        vstd::arithmetic::div_mod::lemma_small_mod((c + 1) as nat, len);
    } else {
        vstd::arithmetic::div_mod::lemma_mod_self_0(l);
    }
    if c > 0 {
        vstd::arithmetic::div_mod::lemma_mod_add_multiples_vanish(c - 1, l);
        vstd::arithmetic::div_mod::lemma_small_mod((c - 1) as nat, len);
        assert(c + l - 1 == l + (c - 1));
    } else {
        vstd::arithmetic::div_mod::lemma_small_mod((l - 1) as nat, len);
    }
    match key {
        Key::Char(ch) => {
            if ch == 'l' || ch == 'n' || ch == 'h' || ch == 'p' {
            } else {
                assert(key != Key::Char('l'));
                assert(key != Key::Char('n'));
                assert(key != Key::Char('h'));
                assert(key != Key::Char('p'));
            }
        },
        _ => {},
    }
}

/// The quote text is wrapped to the box width less the three-column margin
/// (nothing is left for boxes narrower than the margin).
pub proof fn lemma_quote_text_width(width: u16)
    ensures
        width >= 3 ==> quote_text_width(width) + 3 == width,
        width < 3 ==> quote_text_width(width) == 0,
{
}

/// A quote whose quoted text fits in the box after the margin is shown on
/// one line, and no line of a quote is wider than the box after the margin.
pub proof fn lemma_quote_fits_box(text: Seq<char>, width: u16)
    requires
        width > 3,
    ensures
        forall|k: int|
            0 <= k < wrapped(seq!['"'] + text + seq!['"'], quote_text_width(width)).len() ==> #[trigger] wrapped(
                seq!['"'] + text + seq!['"'],
                quote_text_width(width),
            )[k].len() + 3 <= width,
{
    crate::wrap::lemma_wrap_width(seq!['"'] + text + seq!['"'], quote_text_width(width));
}

/// Width left for quote text in a box `width` columns wide, after the
/// three-column margin.
pub open spec fn quote_text_width(width: u16) -> nat {
    if width >= 3 {
        (width - 3) as nat
    } else {
        0
    }
}

/// The lines of a quote as shown in a box `width` columns wide: the text in
/// double quotes, word-wrapped to the width left after the margin.
pub fn quote_lines(text: &str, width: u16) -> (lines: Vec<String>)
    ensures
        string_views(lines@) == wrapped(seq!['"'] + text@ + seq!['"'], quote_text_width(width)),
        width >= 3 ==> string_views(lines@) == wrapped(
            seq!['"'] + text@ + seq!['"'],
            (width - 3) as nat,
        ),
        width < 3 ==> string_views(lines@) == seq![seq!['"'] + text@ + seq!['"']],
{
    let content_w = (width as usize).saturating_sub(3);
    let mut full = String::from_str("\"");
    full.append(text);
    full.append("\"");
    proof {
        reveal_strlit("\"");
        assert(full@ =~= seq!['"'] + text@ + seq!['"']);
    }
    word_wrap(full.as_str(), content_w)
}

} // verus!
