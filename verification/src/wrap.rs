use vstd::prelude::*;
use vstd::string::StringExecFns;
use vstd::string::StrSliceExecFns;

verus! {

/// Unicode `White_Space` characters: the characters at which the text is
/// split into words.
pub open spec fn is_space(c: char) -> bool {
    let v = c as u32;
    ||| 0x9 <= v <= 0xd
    ||| v == 0x20
    ||| v == 0x85
    ||| v == 0xa0
    ||| v == 0x1680
    ||| 0x2000 <= v <= 0x200a
    ||| v == 0x2028
    ||| v == 0x2029
    ||| v == 0x202f
    ||| v == 0x205f
    ||| v == 0x3000
}

/// Whether `c` is a whitespace character (Unicode `White_Space`).
pub fn is_whitespace(c: char) -> (b: bool)
    ensures
        b == is_space(c),
{
    let v = c as u32;
    (0x9 <= v && v <= 0xd) || v == 0x20 || v == 0x85 || v == 0xa0 || v == 0x1680 || (0x2000
        <= v && v <= 0x200a) || v == 0x2028 || v == 0x2029 || v == 0x202f || v == 0x205f || v
        == 0x3000
}

/// Number of leading non-whitespace characters of `s`.
pub open spec fn word_len(s: Seq<char>) -> nat
    decreases s.len(),
{
    if s.len() == 0 || is_space(s[0]) {
        0
    } else {
        1 + word_len(s.drop_first())
    }
}

pub proof fn lemma_word_len_bound(s: Seq<char>)
    ensures
        word_len(s) <= s.len(),
        s.len() > 0 && !is_space(s[0]) ==> word_len(s) > 0,
    decreases s.len(),
{
    if s.len() > 0 && !is_space(s[0]) {
        lemma_word_len_bound(s.drop_first());
    }
}

/// The maximal runs of non-whitespace characters of `s`, in order.
pub open spec fn words(s: Seq<char>) -> Seq<Seq<char>>
    decreases s.len(),
{
    if s.len() == 0 {
        seq![]
    } else if is_space(s[0]) {
        words(s.drop_first())
    } else {
        proof {
            lemma_word_len_bound(s);
        }
        seq![s.take(word_len(s) as int)] + words(s.skip(word_len(s) as int))
    }
}

/// One step of greedy filling: `word` joins the current line, separated by
/// one space, when the line stays within `max` characters; otherwise the
/// current line is closed and `word` starts the next one.
pub open spec fn wrap_step(
    state: (Seq<Seq<char>>, Seq<char>),
    word: Seq<char>,
    max: nat,
) -> (Seq<Seq<char>>, Seq<char>) {
    let (lines, current) = state;
    if current.len() == 0 {
        (lines, word)
    } else if current.len() + 1 + word.len() <= max {
        (lines, current + seq![' '] + word)
    } else {
        (lines.push(current), word)
    }
}

/// Closed lines and the open line after greedily placing `ws` in order.
pub open spec fn wrap_fold(ws: Seq<Seq<char>>, max: nat) -> (Seq<Seq<char>>, Seq<char>)
    decreases ws.len(),
{
    if ws.len() == 0 {
        (seq![], seq![])
    } else {
        wrap_step(wrap_fold(ws.drop_last(), max), ws.last(), max)
    }
}

/// `w` cut into pieces of `max` characters, the last one shorter or equal;
/// a word of at most `max` characters stays whole.
pub open spec fn chunks(w: Seq<char>, max: nat) -> Seq<Seq<char>>
    decreases w.len(),
{
    if w.len() <= max || max == 0 {
        seq![w]
    } else {
        seq![w.take(max as int)] + chunks(w.skip(max as int), max)
    }
}

/// The words `ws`, each cut into pieces of at most `max` characters.
pub open spec fn split_words(ws: Seq<Seq<char>>, max: nat) -> Seq<Seq<char>>
    decreases ws.len(),
{
    if ws.len() == 0 {
        seq![]
    } else {
        split_words(ws.drop_last(), max) + chunks(ws.last(), max)
    }
}

/// The lines of `text` wrapped greedily at `max` characters, words longer
/// than `max` being cut into pieces of `max` characters; a width of zero
/// leaves the text as one line.
pub open spec fn wrapped(text: Seq<char>, max: nat) -> Seq<Seq<char>> {
    if max == 0 {
        seq![text]
    } else {
        let (lines, current) = wrap_fold(split_words(words(text), max), max);
        if current.len() == 0 {
            lines
        } else {
            lines.push(current)
        }
    }
}

pub open spec fn string_views(v: Seq<String>) -> Seq<Seq<char>> {
    v.map_values(|s: String| s@)
}

/// Characters of a string, in order.
pub(crate) fn chars_of(text: &str) -> (chars: Vec<char>)
    ensures
        chars@ == text@,
{
    let mut chars: Vec<char> = Vec::new();
    for c in it: text.chars()
        invariant
            chars@ == it.seq().take(it.index() as int),
    {
        chars.push(c);
    }
    chars
}

proof fn lemma_word_len_exact(s: Seq<char>, k: int)
    requires
        0 <= k <= s.len(),
        forall|t: int| 0 <= t < k ==> !is_space(#[trigger] s[t]),
        k == s.len() || is_space(s[k]),
    ensures
        word_len(s) == k,
    decreases k,
{
    if k > 0 {
        assert forall|t: int| 0 <= t < k - 1 implies !is_space(#[trigger] s.drop_first()[t]) by {
            assert(s.drop_first()[t] == s[t + 1]);
        }
        lemma_word_len_exact(s.drop_first(), k - 1);
    }
}

/// One step of greedy filling on the exec state.
fn place_piece(
    lines: &mut Vec<String>,
    current: &mut String,
    current_w: &mut usize,
    piece: &str,
    piece_w: usize,
    max_width: usize,
)
    requires
        *old(current_w) == old(current)@.len(),
        piece_w == piece@.len(),
    ensures
        (string_views(final(lines)@), final(current)@) == wrap_step(
            (string_views(old(lines)@), old(current)@),
            piece@,
            max_width as nat,
        ),
        *final(current_w) == final(current)@.len(),
{
    let ghost old_lines = string_views(lines@);
    let ghost old_current = current@;
    if current.as_str().is_empty() {
        current.append(piece);
        *current_w = piece_w;
    } else if *current_w < max_width && piece_w <= max_width - *current_w - 1 {
        current.append(" ");
        current.append(piece);
        proof {
            reveal_strlit(" ");
        }
        *current_w = *current_w + 1 + piece_w;
    } else {
        let mut closed = String::new();
        std::mem::swap(&mut closed, current);
        lines.push(closed);
        proof {
            assert(string_views(lines@) =~= old_lines.push(old_current));
        }
        current.append(piece);
        *current_w = piece_w;
    }
}

/// Splits `text` into lines of at most `max_width` characters, breaking at
/// whitespace; runs of whitespace collapse to one space, and a word longer
/// than `max_width` is cut into pieces of `max_width` characters. A width of
/// zero gives the text back as a single line.
pub fn word_wrap(text: &str, max_width: usize) -> (lines: Vec<String>)
    ensures
        string_views(lines@) == wrapped(text@, max_width as nat),
{
    if max_width == 0 {
        let lines = vec![String::from_str(text)];
        assert(string_views(lines@) =~= wrapped(text@, 0));
        return lines;
    }
    let ghost max = max_width as nat;
    let chars = chars_of(text);
    let n = chars.len();
    let mut lines: Vec<String> = Vec::new();
    let mut current = String::new();
    let mut current_w: usize = 0;
    let ghost mut done: Seq<Seq<char>> = seq![];
    let mut i: usize = 0;
    proof {
        assert(text@.skip(0) =~= text@);
        assert(string_views(lines@) =~= seq![]);
    }
    while i < n
        invariant
            chars@ == text@,
            n == chars.len(),
            max_width > 0,
            max == max_width as nat,
            0 <= i <= n,
            words(text@) == done + words(text@.skip(i as int)),
            (string_views(lines@), current@) == wrap_fold(split_words(done, max), max),
            current_w == current@.len(),
        decreases n - i,
    {
        if is_whitespace(chars[i]) {
            proof {
                assert(text@.skip(i as int).drop_first() =~= text@.skip(i + 1));
            }
            i = i + 1;
        } else {
            let start = i;
            while i < n && !is_whitespace(chars[i])
                invariant
                    chars@ == text@,
                    n == chars.len(),
                    start <= i <= n,
                    forall|t: int| start <= t < i ==> !is_space(#[trigger] text@[t]),
                decreases n - i,
            {
                i = i + 1;
            }
            let ghost rest = text@.skip(start as int);
            let ghost word = text@.subrange(start as int, i as int);
            proof {
                assert forall|t: int| 0 <= t < i - start implies !is_space(#[trigger] rest[t]) by {
                    assert(rest[t] == text@[start + t]);
                }
                lemma_word_len_exact(rest, i - start);
                assert(rest.skip(i - start) =~= text@.skip(i as int));
                assert(rest.take(i - start) =~= word);
            }
            let ghost target = split_words(done, max) + chunks(word, max);
            let ghost mut placed = split_words(done, max);
            let mut p = start;
            let mut finished = false;
            proof {
                assert(text@.subrange(p as int, i as int) =~= word);
            }
            while !finished
                invariant
                    chars@ == text@,
                    max_width > 0,
                    max == max_width as nat,
                    n == chars.len(),
                    start <= p < i <= n,
                    (string_views(lines@), current@) == wrap_fold(placed, max),
                    current_w == current@.len(),
                    !finished ==> placed + chunks(text@.subrange(p as int, i as int), max) == target,
                    finished ==> placed == target,
                decreases i - p + (if finished {
                    0int
                } else {
                    1int
                }),
            {
                let ghost remaining = text@.subrange(p as int, i as int);
                let ghost before = placed;
                if i - p <= max_width {
                    let piece = text.substring_char(p, i);
                    place_piece(&mut lines, &mut current, &mut current_w, piece, i - p, max_width);
                    proof {
                        assert(placed.push(piece@).drop_last() =~= placed);
                        assert(chunks(remaining, max) == seq![remaining]);
                        assert(placed.push(piece@) =~= placed + chunks(remaining, max));
                        placed = placed.push(piece@);
                    }
                    finished = true;
                } else {
                    let piece = text.substring_char(p, p + max_width);
                    place_piece(
                        &mut lines,
                        &mut current,
                        &mut current_w,
                        piece,
                        max_width,
                        max_width,
                    );
                    proof {
                        assert(placed.push(piece@).drop_last() =~= placed);
                        assert(piece@ =~= remaining.take(max as int));
                        assert(remaining.skip(max as int) =~= text@.subrange(
                            p + max_width,
                            i as int,
                        ));
                        assert(chunks(remaining, max) == seq![piece@] + chunks(
                            remaining.skip(max as int),
                            max,
                        ));
                        assert(before + chunks(remaining, max) =~= before.push(piece@) + chunks(
                            remaining.skip(max as int),
                            max,
                        ));
                        placed = placed.push(piece@);
                    }
                    p = p + max_width;
                }
            }
            proof {
                assert(done.push(word).drop_last() =~= done);
                assert(words(text@) =~= done.push(word) + words(text@.skip(i as int)));
                assert(split_words(done.push(word), max) == target);
                done = done.push(word);
            }
        }
    }
    proof {
        assert(text@.skip(n as int) =~= seq![]);
        assert(done =~= words(text@));
    }
    if !current.as_str().is_empty() {
        let ghost old_lines = string_views(lines@);
        lines.push(current);
        proof {
            assert(string_views(lines@) =~= old_lines.push(
                wrap_fold(split_words(done, max), max).1,
            ));
        }
    }
    lines
}

/// A non-empty run of non-whitespace characters.
pub open spec fn is_word(w: Seq<char>) -> bool {
    &&& w.len() > 0
    &&& forall|i: int| 0 <= i < w.len() ==> !is_space(#[trigger] w[i])
}

/// The words `ws` joined by single spaces.
pub open spec fn join_words(ws: Seq<Seq<char>>) -> Seq<char>
    decreases ws.len(),
{
    if ws.len() == 0 {
        seq![]
    } else if ws.len() == 1 {
        ws[0]
    } else {
        join_words(ws.drop_last()) + seq![' '] + ws.last()
    }
}

/// The words of all `lines`, line after line.
pub open spec fn concat_words(lines: Seq<Seq<char>>) -> Seq<Seq<char>>
    decreases lines.len(),
{
    if lines.len() == 0 {
        seq![]
    } else {
        concat_words(lines.drop_last()) + words(lines.last())
    }
}

/// A line as the wrapper produces it: non-empty, its words joined by single
/// spaces, and within `max` characters.
pub open spec fn well_formed_line(line: Seq<char>, max: nat) -> bool {
    &&& line.len() > 0
    &&& line == join_words(words(line))
    &&& line.len() <= max
}

/// A piece that greedy filling places: a word of at most `max` characters.
pub open spec fn is_piece(w: Seq<char>, max: nat) -> bool {
    is_word(w) && w.len() <= max
}

/// All texts `ss`, one after the other.
pub open spec fn flatten(ss: Seq<Seq<char>>) -> Seq<char>
    decreases ss.len(),
{
    if ss.len() == 0 {
        seq![]
    } else {
        flatten(ss.drop_last()) + ss.last()
    }
}

pub proof fn lemma_flatten_concat(a: Seq<Seq<char>>, b: Seq<Seq<char>>)
    ensures
        flatten(a + b) == flatten(a) + flatten(b),
    decreases b.len(),
{
    if b.len() == 0 {
        assert(a + b =~= a);
        assert(flatten(a) + flatten(b) =~= flatten(a));
    } else {
        lemma_flatten_concat(a, b.drop_last());
        assert((a + b).drop_last() =~= a + b.drop_last());
        assert(flatten(a) + flatten(b) =~= flatten(a) + flatten(b.drop_last()) + b.last());
    }
}

proof fn lemma_flatten_single(x: Seq<char>)
    ensures
        flatten(seq![x]) == x,
{
    let one = seq![x];
    assert(one.drop_last() =~= Seq::<Seq<char>>::empty());
    assert(flatten(Seq::<Seq<char>>::empty()) =~= seq![]);
    assert(flatten(one) == flatten(one.drop_last()) + x);
    assert(Seq::<char>::empty() + x =~= x);
}

/// Cutting a word into pieces: every piece is a word of at most `max`
/// characters, and the pieces put back together give the word.
pub proof fn lemma_chunks(w: Seq<char>, max: nat)
    requires
        is_word(w),
        max > 0,
    ensures
        forall|i: int| 0 <= i < chunks(w, max).len() ==> is_piece(#[trigger] chunks(w, max)[i], max),
        flatten(chunks(w, max)) == w,
    decreases w.len(),
{
    if w.len() <= max {
        lemma_flatten_single(w);
    } else {
        let head = w.take(max as int);
        let tail = w.skip(max as int);
        assert forall|t: int| 0 <= t < tail.len() implies !is_space(#[trigger] tail[t]) by {
            assert(tail[t] == w[t + max]);
        }
        assert forall|t: int| 0 <= t < head.len() implies !is_space(#[trigger] head[t]) by {
            assert(head[t] == w[t]);
        }
        lemma_chunks(tail, max);
        let c = chunks(w, max);
        assert(c == seq![head] + chunks(tail, max));
        assert forall|i: int| 0 <= i < c.len() implies is_piece(#[trigger] c[i], max) by {
            if i > 0 {
                assert(c[i] == chunks(tail, max)[i - 1]);
            }
        }
        lemma_flatten_concat(seq![head], chunks(tail, max));
        lemma_flatten_single(head);
        assert(head + tail =~= w);
    }
}

proof fn lemma_split_words(ws: Seq<Seq<char>>, max: nat)
    requires
        max > 0,
        forall|i: int| 0 <= i < ws.len() ==> is_word(#[trigger] ws[i]),
    ensures
        forall|i: int|
            0 <= i < split_words(ws, max).len() ==> is_piece(#[trigger] split_words(ws, max)[i], max),
        flatten(split_words(ws, max)) == flatten(ws),
    decreases ws.len(),
{
    if ws.len() > 0 {
        let init = ws.drop_last();
        assert forall|i: int| 0 <= i < init.len() implies is_word(#[trigger] init[i]) by {
            assert(init[i] == ws[i]);
        }
        lemma_split_words(init, max);
        lemma_chunks(ws.last(), max);
        let a = split_words(init, max);
        let b = chunks(ws.last(), max);
        assert forall|i: int| 0 <= i < (a + b).len() implies is_piece(#[trigger] (a + b)[i], max) by {
            if i < a.len() {
                assert((a + b)[i] == a[i]);
            } else {
                assert((a + b)[i] == b[i - a.len()]);
            }
        }
        lemma_flatten_concat(a, b);
    }
}

proof fn lemma_word_len_props(s: Seq<char>)
    ensures
        word_len(s) <= s.len(),
        forall|t: int| 0 <= t < word_len(s) ==> !is_space(#[trigger] s[t]),
        word_len(s) < s.len() ==> is_space(s[word_len(s) as int]),
    decreases s.len(),
{
    if s.len() > 0 && !is_space(s[0]) {
        let r = s.drop_first();
        lemma_word_len_props(r);
        assert forall|t: int| 0 <= t < word_len(s) implies !is_space(#[trigger] s[t]) by {
            if t > 0 {
                assert(s[t] == r[t - 1]);
            }
        }
        if word_len(s) < s.len() {
            assert(s[word_len(s) as int] == r[word_len(r) as int]);
        }
    }
}

proof fn lemma_word_len_concat(a: Seq<char>, c: Seq<char>)
    requires
        word_len(a) < a.len() || (c.len() > 0 && is_space(c[0])),
    ensures
        word_len(a + c) == word_len(a),
{
    lemma_word_len_props(a);
    let s = a + c;
    let k = word_len(a) as int;
    assert forall|t: int| 0 <= t < k implies !is_space(#[trigger] s[t]) by {
        assert(s[t] == a[t]);
    }
    if k < a.len() {
        assert(s[k] == a[k]);
    } else {
        assert(s[k] == c[0]);
    }
    lemma_word_len_exact(s, k);
}

/// A space between two texts separates their words.
pub proof fn lemma_words_space_concat(a: Seq<char>, b: Seq<char>)
    ensures
        words(a + seq![' '] + b) == words(a) + words(b),
    decreases a.len(),
{
    let sp = seq![' '];
    let s = a + sp + b;
    assert(is_space(' '));
    if a.len() == 0 {
        assert(s =~= sp + b);
        assert(s.drop_first() =~= b);
        assert(words(a) =~= seq![]);
        assert(words(a) + words(b) =~= words(b));
    } else if is_space(a[0]) {
        assert(s[0] == a[0]);
        assert(s.drop_first() =~= a.drop_first() + sp + b);
        lemma_words_space_concat(a.drop_first(), b);
    } else {
        lemma_word_len_bound(a);
        let k = word_len(a) as int;
        assert(s =~= a + (sp + b));
        lemma_word_len_concat(a, sp + b);
        assert(s[0] == a[0]);
        assert(s.take(k) =~= a.take(k));
        assert(s.skip(k) =~= a.skip(k) + sp + b);
        lemma_words_space_concat(a.skip(k), b);
        assert(words(s) =~= seq![a.take(k)] + (words(a.skip(k)) + words(b)));
        assert(words(a) =~= seq![a.take(k)] + words(a.skip(k)));
    }
}

/// A word is its own only word.
pub proof fn lemma_words_of_word(w: Seq<char>)
    requires
        is_word(w),
    ensures
        words(w) == seq![w],
{
    lemma_word_len_exact(w, w.len() as int);
    assert(!is_space(w[0]));
    assert(w.take(w.len() as int) =~= w);
    let rest = w.skip(w.len() as int);
    assert(rest.len() == 0);
    assert(words(rest) =~= seq![]);
    assert(words(w) == seq![w.take(w.len() as int)] + words(rest));
    assert(words(w) =~= seq![w]);
}

/// Joining words with single spaces and splitting again gives them back.
pub proof fn lemma_words_of_join(ws: Seq<Seq<char>>)
    requires
        forall|i: int| 0 <= i < ws.len() ==> is_word(#[trigger] ws[i]),
    ensures
        words(join_words(ws)) == ws,
    decreases ws.len(),
{
    if ws.len() == 0 {
        assert(words(join_words(ws)) =~= ws);
    } else if ws.len() == 1 {
        lemma_words_of_word(ws[0]);
        assert(ws =~= seq![ws[0]]);
    } else {
        let init = ws.drop_last();
        assert forall|i: int| 0 <= i < init.len() implies is_word(#[trigger] init[i]) by {
            assert(init[i] == ws[i]);
        }
        lemma_words_of_join(init);
        lemma_words_space_concat(join_words(init), ws.last());
        lemma_words_of_word(ws.last());
        assert(ws =~= init + seq![ws.last()]);
    }
}

/// Every word of a text is a word.
pub proof fn lemma_words_are_words(s: Seq<char>)
    ensures
        forall|i: int| 0 <= i < words(s).len() ==> is_word(#[trigger] words(s)[i]),
    decreases s.len(),
{
    if s.len() > 0 {
        if is_space(s[0]) {
            lemma_words_are_words(s.drop_first());
            assert(words(s) == words(s.drop_first()));
        } else {
            lemma_word_len_props(s);
            lemma_word_len_bound(s);
            let k = word_len(s) as int;
            let w = s.take(k);
            lemma_words_are_words(s.skip(k));
            assert forall|t: int| 0 <= t < w.len() implies !is_space(#[trigger] w[t]) by {
                assert(w[t] == s[t]);
            }
            assert(is_word(w));
            assert(words(s) == seq![w] + words(s.skip(k)));
            assert forall|i: int| 0 <= i < words(s).len() implies is_word(#[trigger] words(s)[i]) by {
                if i == 0 {
                    assert(words(s)[0] == w);
                } else {
                    assert(words(s)[i] == words(s.skip(k))[i - 1]);
                }
            }
        }
    }
}

/// What holds of the state of greedy filling after placing the words `ws`.
pub open spec fn fold_invariant(
    ws: Seq<Seq<char>>,
    state: (Seq<Seq<char>>, Seq<char>),
    max: nat,
) -> bool {
    let (lines, current) = state;
    &&& concat_words(lines) + words(current) == ws
    &&& forall|k: int| 0 <= k < lines.len() ==> well_formed_line(#[trigger] lines[k], max)
    &&& (current.len() == 0 <==> ws.len() == 0)
    &&& current.len() == 0 ==> lines.len() == 0
    &&& current.len() > 0 ==> well_formed_line(current, max)
    &&& forall|k: int|
        0 <= k < lines.len() - 1 ==> #[trigger] lines[k].len() + 1 + words(lines[k + 1])[0].len()
            > max
    &&& lines.len() > 0 && current.len() > 0 ==> lines.last().len() + 1 + words(current)[0].len()
        > max
}

proof fn lemma_line_has_words(line: Seq<char>, max: nat)
    requires
        well_formed_line(line, max),
    ensures
        words(line).len() > 0,
{
    if words(line).len() == 0 {
        assert(join_words(words(line)) =~= seq![]);
    }
}

proof fn lemma_fold_invariant(ws: Seq<Seq<char>>, max: nat)
    requires
        max > 0,
        forall|i: int| 0 <= i < ws.len() ==> is_piece(#[trigger] ws[i], max),
    ensures
        fold_invariant(ws, wrap_fold(ws, max), max),
    decreases ws.len(),
{
    if ws.len() == 0 {
        assert(words(seq![]) =~= seq![]);
        assert(concat_words(seq![]) + words(seq![]) =~= ws);
    } else {
        let init = ws.drop_last();
        let w = ws.last();
        assert forall|i: int| 0 <= i < init.len() implies is_piece(#[trigger] init[i], max) by {
            assert(init[i] == ws[i]);
        }
        lemma_fold_invariant(init, max);
        let (lines, cur) = wrap_fold(init, max);
        lemma_words_of_word(w);
        assert(join_words(seq![w]) == w);
        assert(ws =~= init.push(w));
        if cur.len() == 0 {
            assert(words(cur) =~= seq![]);
            assert(concat_words(lines) =~= seq![]);
            assert(concat_words(lines) + words(w) =~= ws);
        } else {
            lemma_line_has_words(cur, max);
            let cw = words(cur);
            assert forall|i: int| 0 <= i < cw.len() implies is_word(#[trigger] cw[i]) by {
                lemma_words_are_words(cur);
            }
            if cur.len() + 1 + w.len() <= max {
                let nc = cur + seq![' '] + w;
                lemma_words_space_concat(cur, w);
                assert(words(nc) == cw + seq![w]);
                assert((cw + seq![w]).drop_last() =~= cw);
                assert(join_words(cw + seq![w]) == join_words(cw) + seq![' '] + w);
                assert(words(nc)[0] == cw[0]);
                assert(concat_words(lines) + words(nc) =~= (concat_words(lines) + cw) + seq![w]);
                assert(concat_words(lines) + cw == init);
                assert(concat_words(lines) + words(nc) =~= ws);
            } else {
                let nl = lines.push(cur);
                assert(nl.drop_last() =~= lines);
                assert(concat_words(nl) == concat_words(lines) + cw);
                assert(concat_words(nl) + words(w) =~= (concat_words(lines) + cw) + seq![w]);
                assert(concat_words(lines) + cw == init);
                assert(concat_words(nl) + words(w) =~= ws);
                assert forall|k: int| 0 <= k < nl.len() implies well_formed_line(
                    #[trigger] nl[k],
                    max,
                ) by {
                    if k < lines.len() {
                        assert(nl[k] == lines[k]);
                    }
                }
                assert forall|k: int| 0 <= k < nl.len() - 1 implies #[trigger] nl[k].len() + 1
                    + words(nl[k + 1])[0].len() > max by {
                    assert(nl[k] == lines[k]);
                    if k + 1 < lines.len() {
                        assert(nl[k + 1] == lines[k + 1]);
                    } else {
                        assert(nl[k + 1] == cur);
                    }
                }
            }
        }
    }
}

proof fn lemma_wrapped_lines(text: Seq<char>, max: nat)
    requires
        max > 0,
    ensures
        forall|k: int|
            0 <= k < wrapped(text, max).len() ==> well_formed_line(
                #[trigger] wrapped(text, max)[k],
                max,
            ),
        concat_words(wrapped(text, max)) == split_words(words(text), max),
        flatten(split_words(words(text), max)) == flatten(words(text)),
        forall|k: int|
            0 <= k < wrapped(text, max).len() - 1 ==> #[trigger] wrapped(text, max)[k].len() + 1
                + words(wrapped(text, max)[k + 1])[0].len() > max,
{
    lemma_words_are_words(text);
    lemma_split_words(words(text), max);
    let pieces = split_words(words(text), max);
    lemma_fold_invariant(pieces, max);
    let (lines, cur) = wrap_fold(pieces, max);
    let res = wrapped(text, max);
    if cur.len() == 0 {
        assert(words(cur) =~= seq![]);
        assert(concat_words(lines) + words(cur) =~= concat_words(lines));
    } else {
        assert(res.drop_last() =~= lines);
        assert forall|k: int| 0 <= k < res.len() implies well_formed_line(#[trigger] res[k], max) by {
            if k < lines.len() {
                assert(res[k] == lines[k]);
            }
        }
        assert forall|k: int| 0 <= k < res.len() - 1 implies #[trigger] res[k].len() + 1 + words(
            res[k + 1],
        )[0].len() > max by {
            assert(res[k] == lines[k]);
            if k + 1 < lines.len() {
                assert(res[k + 1] == lines[k + 1]);
            }
        }
    }
}

/// No wrapped line is wider than the limit.
pub proof fn lemma_wrap_width(text: Seq<char>, max: nat)
    requires
        max > 0,
    ensures
        forall|k: int|
            0 <= k < wrapped(text, max).len() ==> #[trigger] wrapped(text, max)[k].len() <= max,
{
    lemma_wrapped_lines(text, max);
}

/// Wrapping loses, adds and reorders nothing: the words of the lines, line
/// after line, are the words of the text, each cut into pieces of at most
/// `max` characters; and those pieces, put back together, are the text's
/// characters other than whitespace, in order.
pub proof fn lemma_wrap_keeps_words(text: Seq<char>, max: nat)
    requires
        max > 0,
    ensures
        concat_words(wrapped(text, max)) == split_words(words(text), max),
        flatten(concat_words(wrapped(text, max))) == flatten(words(text)),
{
    lemma_wrapped_lines(text, max);
}

/// Every wrapped line is non-empty and is its words joined by single spaces.
pub proof fn lemma_wrap_line_shape(text: Seq<char>, max: nat)
    requires
        max > 0,
    ensures
        forall|k: int|
            0 <= k < wrapped(text, max).len() ==> #[trigger] wrapped(text, max)[k].len() > 0
                && wrapped(text, max)[k] == join_words(words(wrapped(text, max)[k])),
{
    lemma_wrapped_lines(text, max);
}

/// Filling is greedy: the first word of each line would not have fitted at
/// the end of the line before it.
pub proof fn lemma_wrap_greedy(text: Seq<char>, max: nat)
    requires
        max > 0,
    ensures
        forall|k: int|
            0 <= k < wrapped(text, max).len() - 1 ==> #[trigger] wrapped(text, max)[k].len() + 1
                + words(wrapped(text, max)[k + 1])[0].len() > max,
{
    lemma_wrapped_lines(text, max);
}

} // verus!
