//! The line-oriented scene text format.
//!
//! A line that starts with `#` is a comment. A line that reads exactly `show`
//! appends the frame built so far to the scene and starts a new dark one. An
//! empty line does nothing. Any other line assigns a node: its first word is
//! the node index, and the words after it are the values of channels 0, 1, ...
//! of that node; channels without a value keep the one they had. A frame that
//! no `show` follows is dropped. A word that is not a number in range fails
//! the whole text.
use vstd::prelude::*;
use crate::frame::{dark_frame, Frame};
use crate::scene::Scene;

verus! {

/// Where a scene text breaks the format: the line and, within it, the word,
/// both counted from zero.
#[derive(Debug, Clone, Copy, PartialEq, Eq, Structural)]
pub struct FormatError {
    pub line: usize,
    pub token: usize,
}

/// The character sequences held by a sequence of character vectors.
pub open spec fn chars_of(v: Seq<Vec<char>>) -> Seq<Seq<char>> {
    v.map_values(|l: Vec<char>| l@)
}

// ------------------------------------------------------------------ lines

/// The pieces of `s` between line feeds; there is always at least one.
pub open spec fn pieces(s: Seq<char>) -> Seq<Seq<char>>
    decreases s.len(),
{
    if s.len() == 0 {
        seq![Seq::empty()]
    } else {
        let p = pieces(s.drop_last());
        if s.last() == '\n' {
            p.push(Seq::empty())
        } else {
            p.update(p.len() - 1, p.last().push(s.last()))
        }
    }
}

/// A line without the carriage return that may end it.
pub open spec fn without_cr(l: Seq<char>) -> Seq<char> {
    if l.len() > 0 && l.last() == '\r' {
        l.drop_last()
    } else {
        l
    }
}

/// The lines of a text: each line feed ends one, with a carriage return just
/// before it dropped; text after the last line feed forms one more line.
pub open spec fn text_lines(s: Seq<char>) -> Seq<Seq<char>> {
    let p = pieces(s);
    let ended = p.drop_last().map_values(|l: Seq<char>| without_cr(l));
    if p.last().len() == 0 {
        ended
    } else {
        ended.push(p.last())
    }
}

proof fn lemma_pieces_nonempty(s: Seq<char>)
    ensures
        pieces(s).len() >= 1,
    decreases s.len(),
{
    if s.len() > 0 {
        lemma_pieces_nonempty(s.drop_last());
    }
}

/// Splits a text into its lines.
pub fn split_lines(text: &Vec<char>) -> (r: Vec<Vec<char>>)
    ensures
        chars_of(r@) == text_lines(text@),
{
    let mut lines: Vec<Vec<char>> = Vec::new();
    let mut cur: Vec<char> = Vec::new();
    let mut i: usize = 0;
    proof {
        assert(text@.subrange(0, 0) =~= Seq::<char>::empty());
        assert(chars_of(lines@) =~= pieces(text@.subrange(0, 0)).drop_last().map_values(
            |l: Seq<char>| without_cr(l),
        ));
    }
    while i < text.len()
        invariant
            i <= text.len(),
            pieces(text@.subrange(0, i as int)).len() >= 1,
            chars_of(lines@) == pieces(text@.subrange(0, i as int)).drop_last().map_values(
                |l: Seq<char>| without_cr(l),
            ),
            cur@ == pieces(text@.subrange(0, i as int)).last(),
        decreases text.len() - i,
    {
        let c = text[i];
        let ghost before = text@.subrange(0, i as int);
        let ghost after = text@.subrange(0, i + 1);
        proof {
            assert(after.drop_last() =~= before);
            lemma_pieces_nonempty(after);
        }
        if c == '\n' {
            let n = cur.len();
            if n > 0 && cur[n - 1] == '\r' {
                cur.pop();
            }
            assert(cur@ == without_cr(pieces(before).last()));
            let ghost done = chars_of(lines@);
            let ghost ended = cur@;
            lines.push(cur);
            cur = Vec::new();
            proof {
                assert(chars_of(lines@) =~= done.push(ended));
                assert(pieces(after).drop_last() =~= pieces(before));
                assert(chars_of(lines@) =~= pieces(after).drop_last().map_values(
                    |l: Seq<char>| without_cr(l),
                ));
                assert(cur@ =~= pieces(after).last());
            }
        } else {
            cur.push(c);
            proof {
                assert(pieces(after).drop_last() =~= pieces(before).drop_last());
                assert(cur@ =~= pieces(after).last());
            }
        }
        i = i + 1;
    }
    proof {
        assert(text@.subrange(0, text@.len() as int) =~= text@);
    }
    if cur.len() > 0 {
        lines.push(cur);
        assert(chars_of(lines@) =~= text_lines(text@));
    } else {
        assert(chars_of(lines@) =~= text_lines(text@));
    }
    lines
}

// ------------------------------------------------------------------ words

/// The characters with the Unicode White_Space property.
pub open spec fn is_space(c: char) -> bool {
    let u = c as u32;
    (0x09 <= u <= 0x0d) || u == 0x20 || u == 0x85 || u == 0xa0 || u == 0x1680 || (0x2000 <= u
        <= 0x200a) || u == 0x2028 || u == 0x2029 || u == 0x202f || u == 0x205f || u == 0x3000
}

/// The maximal runs of non-space characters of `s`, in order.
pub open spec fn words(s: Seq<char>) -> Seq<Seq<char>>
    decreases s.len(),
{
    if s.len() == 0 {
        Seq::empty()
    } else {
        let w = words(s.drop_last());
        let c = s.last();
        if is_space(c) {
            w
        } else if s.len() >= 2 && !is_space(s[s.len() - 2]) {
            w.update(w.len() - 1, w.last().push(c))
        } else {
            w.push(seq![c])
        }
    }
}

fn space(c: char) -> (r: bool)
    ensures
        r == is_space(c),
{
    let u = c as u32;
    (0x09 <= u && u <= 0x0d) || u == 0x20 || u == 0x85 || u == 0xa0 || u == 0x1680 || (0x2000
        <= u && u <= 0x200a) || u == 0x2028 || u == 0x2029 || u == 0x202f || u == 0x205f || u
        == 0x3000
}

/// Splits a line into its words.
pub fn split_words(line: &Vec<char>) -> (r: Vec<Vec<char>>)
    ensures
        chars_of(r@) == words(line@),
{
    let mut toks: Vec<Vec<char>> = Vec::new();
    let mut i: usize = 0;
    proof {
        assert(line@.subrange(0, 0) =~= Seq::<char>::empty());
        assert(chars_of(toks@) =~= words(line@.subrange(0, 0)));
    }
    while i < line.len()
        invariant
            i <= line.len(),
            chars_of(toks@) == words(line@.subrange(0, i as int)),
            i > 0 && !is_space(line@[i - 1]) ==> toks@.len() > 0,
        decreases line.len() - i,
    {
        let c = line[i];
        let ghost before = line@.subrange(0, i as int);
        let ghost after = line@.subrange(0, i + 1);
        proof {
            assert(after.drop_last() =~= before);
        }
        if space(c) {
        } else if i > 0 && !space(line[i - 1]) {
            let ghost w = chars_of(toks@);
            let mut last = toks.pop().unwrap();
            last.push(c);
            toks.push(last);
            proof {
                assert(chars_of(toks@) =~= w.update(w.len() - 1, w.last().push(c)));
            }
        } else {
            let ghost w = chars_of(toks@);
            let mut fresh: Vec<char> = Vec::new();
            fresh.push(c);
            toks.push(fresh);
            proof {
                assert(chars_of(toks@) =~= w.push(seq![c]));
            }
        }
        i = i + 1;
    }
    proof {
        assert(line@.subrange(0, line@.len() as int) =~= line@);
    }
    toks
}

// ------------------------------------------------------------------ numbers

/// An ASCII decimal digit.
pub open spec fn is_digit(c: char) -> bool {
    48 <= (c as u32) <= 57
}

/// The number written by a sequence of decimal digits.
pub open spec fn digits_value(s: Seq<char>) -> nat
    decreases s.len(),
{
    if s.len() == 0 {
        0
    } else {
        10 * digits_value(s.drop_last()) + ((s.last() as u32) - 48) as nat
    }
}

/// A word without the `+` sign that may lead it.
pub open spec fn unsigned_digits(s: Seq<char>) -> Seq<char> {
    if s.len() > 0 && s[0] == '+' {
        s.drop_first()
    } else {
        s
    }
}

/// One or more decimal digits.
pub open spec fn all_digits(d: Seq<char>) -> bool {
    d.len() > 0 && forall|i: int| 0 <= i < d.len() ==> is_digit(#[trigger] d[i])
}

/// The unsigned number a word writes: an optional `+`, then one or more decimal digits.
pub open spec fn parse_unsigned(s: Seq<char>) -> Option<nat> {
    if all_digits(unsigned_digits(s)) {
        Some(digits_value(unsigned_digits(s)))
    } else {
        None
    }
}

/// The number a word writes, where it is below `bound`.
pub open spec fn number_below(s: Seq<char>, bound: nat) -> Option<nat> {
    match parse_unsigned(s) {
        Some(v) => if v < bound {
            Some(v)
        } else {
            None
        },
        None => None,
    }
}

proof fn lemma_digits_grow(d: Seq<char>, i: int, j: int)
    requires
        0 <= i <= j <= d.len(),
        forall|k: int| 0 <= k < d.len() ==> is_digit(#[trigger] d[k]),
    ensures
        digits_value(d.subrange(0, i)) <= digits_value(d.subrange(0, j)),
    decreases j - i,
{
    if i < j {
        lemma_digits_grow(d, i, j - 1);
        assert(d.subrange(0, j).drop_last() =~= d.subrange(0, j - 1));
    }
}

/// Reads the number a word writes, where it is below `bound`.
pub fn read_number_below(tok: &Vec<char>, bound: usize) -> (r: Option<usize>)
    ensures
        r matches Some(v) ==> number_below(tok@, bound as nat) == Some(v as nat),
        r is None ==> number_below(tok@, bound as nat) is None,
{
    let n = tok.len();
    let mut start: usize = 0;
    if n > 0 && tok[0] == '+' {
        start = 1;
    }
    let ghost d = unsigned_digits(tok@);
    assert(d =~= tok@.subrange(start as int, n as int));
    if start == n || bound == 0 {
        return None;
    }
    let mut value: u128 = 0;
    let mut i: usize = start;
    assert(d.subrange(0, 0) =~= Seq::<char>::empty());
    while i < n
        invariant
            start <= i <= n,
            n == tok@.len(),
            d == tok@.subrange(start as int, n as int),
            d == unsigned_digits(tok@),
            forall|k: int| 0 <= k < i - start ==> is_digit(#[trigger] d[k]),
            value == digits_value(d.subrange(0, i - start)),
            value < bound,
        decreases n - i,
    {
        let c = tok[i];
        let u = c as u32;
        assert(d[i - start] == c);
        if u < 48 || u > 57 {
            assert(!is_digit(d[i - start]));
            assert(!all_digits(d));
            return None;
        }
        let next: u128 = value * 10 + (u - 48) as u128;
        proof {
            assert(d.subrange(0, i + 1 - start).drop_last() =~= d.subrange(0, i - start));
        }
        if next >= bound as u128 {
            proof {
                if parse_unsigned(tok@) is Some {
                    assert(all_digits(d));
                    lemma_digits_grow(d, i + 1 - start, d.len() as int);
                    assert(d.subrange(0, d.len() as int) =~= d);
                }
            }
            return None;
        }
        value = next;
        i = i + 1;
    }
    assert(d.subrange(0, n - start) =~= d);
    Some(value as usize)
}

// ------------------------------------------------------------------ node lines

/// Word `i` of a node line is acceptable: word 0 is a node index below `n`,
/// every later word the value, below 256, of one of the `m` channels.
pub open spec fn word_fits(words: Seq<Seq<char>>, i: int, n: nat, m: nat) -> bool {
    if i == 0 {
        number_below(words[0], n) is Some
    } else {
        i <= m && number_below(words[i], 256) is Some
    }
}

/// Every word of a node line is acceptable.
pub open spec fn all_words_fit(words: Seq<Seq<char>>, n: nat, m: nat) -> bool {
    forall|i: int| 0 <= i < words.len() ==> word_fits(words, i, n, m)
}

/// The first word of a node line that is not acceptable.
pub open spec fn first_bad_word(words: Seq<Seq<char>>, n: nat, m: nat) -> int {
    choose|i: int|
        0 <= i < words.len() && !word_fits(words, i, n, m) && forall|j: int|
            0 <= j < i ==> word_fits(words, j, n, m)
}

/// A node after a line's values are written from channel 0 on; channels past
/// the last value keep theirs.
pub open spec fn assigned(node: Seq<u8>, words: Seq<Seq<char>>) -> Seq<u8> {
    Seq::new(
        node.len(),
        |c: int|
            if c + 1 < words.len() {
                parse_unsigned(words[c + 1])->Some_0 as u8
            } else {
                node[c]
            },
    )
}

proof fn lemma_first_bad_word(words: Seq<Seq<char>>, n: nat, m: nat, k: int)
    requires
        0 <= k < words.len(),
        !word_fits(words, k, n, m),
        forall|j: int| 0 <= j < k ==> word_fits(words, j, n, m),
    ensures
        first_bad_word(words, n, m) == k,
        !all_words_fit(words, n, m),
{
    let i = first_bad_word(words, n, m);
    assert(0 <= i < words.len() && !word_fits(words, i, n, m) && forall|j: int|
        0 <= j < i ==> word_fits(words, j, n, m));
    if i < k {
        assert(word_fits(words, i, n, m));
    }
    if i > k {
        assert(word_fits(words, k, n, m));
    }
}

/// Applies the words of a node line to `frame`: on success node `words[0]`
/// holds the values that follow; otherwise the index of the first word that
/// does not fit comes back.
fn assign_node<const N: usize, const M: usize>(
    frame: &mut Frame<N, M>,
    words: &Vec<Vec<char>>,
) -> (r: Result<(), usize>)
    requires
        words@.len() > 0,
    ensures
        all_words_fit(chars_of(words@), N as nat, M as nat) ==> r is Ok && final(frame)@ == old(
            frame,
        )@.update(
            parse_unsigned(chars_of(words@)[0])->Some_0 as int,
            assigned(old(frame)@[parse_unsigned(chars_of(words@)[0])->Some_0 as int], chars_of(words@)),
        ),
        !all_words_fit(chars_of(words@), N as nat, M as nat) ==> r == Err::<(), usize>(
            first_bad_word(chars_of(words@), N as nat, M as nat) as usize,
        ),
{
    let ghost t = chars_of(words@);
    let ghost n = N as nat;
    let ghost m = M as nat;
    let idx = match read_number_below(&words[0], N) {
        Some(v) => v,
        None => {
            proof {
                lemma_first_bad_word(t, n, m, 0);
            }
            return Err(0);
        },
    };
    let ghost before = frame@[idx as int];
    let mut node: [u8; M] = frame.data[idx];
    let mut k: usize = 1;
    proof {
        assert(node@ =~= Seq::new(
            M as nat,
            |c: int|
                if c + 1 < 1 {
                    parse_unsigned(t[c + 1])->Some_0 as u8
                } else {
                    before[c]
                },
        ));
    }
    while k < words.len()
        invariant
            1 <= k <= words@.len(),
            t == chars_of(words@),
            n == N as nat,
            m == M as nat,
            idx < N,
            number_below(t[0], N as nat) == Some(idx as nat),
            before == old(frame)@[idx as int],
            *frame == *old(frame),
            forall|j: int| 0 <= j < k ==> #[trigger] word_fits(t, j, n, m),
            node@ == Seq::new(
                M as nat,
                |c: int|
                    if c + 1 < k {
                        parse_unsigned(t[c + 1])->Some_0 as u8
                    } else {
                        before[c]
                    },
            ),
        decreases words.len() - k,
    {
        if k > M {
            proof {
                lemma_first_bad_word(t, n, m, k as int);
            }
            return Err(k);
        }
        match read_number_below(&words[k], 256) {
            Some(v) => {
                let ghost prev = node@;
                node[k - 1] = v as u8;
                proof {
                    assert(node@ =~= Seq::new(
                        M as nat,
                        |c: int|
                            if c + 1 < k + 1 {
                                parse_unsigned(t[c + 1])->Some_0 as u8
                            } else {
                                before[c]
                            },
                    ));
                }
            },
            None => {
                proof {
                    lemma_first_bad_word(t, n, m, k as int);
                }
                return Err(k);
            },
        }
        k = k + 1;
    }
    frame.data[idx] = node;
    proof {
        assert(node@ =~= assigned(before, t));
        assert(frame@ =~= old(frame)@.update(idx as int, assigned(before, t)));
    }
    Ok(())
}

// ------------------------------------------------------------------ scenes

/// A comment line.
pub open spec fn is_comment(line: Seq<char>) -> bool {
    line.len() > 0 && line[0] == '#'
}

/// The line that commits the frame under construction.
pub open spec fn is_show(line: Seq<char>) -> bool {
    line == seq!['s', 'h', 'o', 'w']
}

/// Frames committed so far, and the frame under construction.
pub type ParseState = (Seq<Seq<Seq<u8>>>, Seq<Seq<u8>>);

/// The effect of line number `at` on the parse state, for frames of `n`
/// nodes with `m` channels.
pub open spec fn step_line(st: ParseState, line: Seq<char>, at: int, n: nat, m: nat) -> Result<
    ParseState,
    FormatError,
> {
    if is_comment(line) || line.len() == 0 {
        Ok(st)
    } else if is_show(line) {
        Ok((st.0.push(st.1), dark_frame(n, m)))
    } else {
        let w = words(line);
        if w.len() == 0 {
            Err(FormatError { line: at as usize, token: 0 })
        } else if !all_words_fit(w, n, m) {
            Err(FormatError { line: at as usize, token: first_bad_word(w, n, m) as usize })
        } else {
            let idx = parse_unsigned(w[0])->Some_0 as int;
            Ok((st.0, st.1.update(idx, assigned(st.1[idx], w))))
        }
    }
}

/// The parse state after the given lines, or the first error among them.
pub open spec fn parse_state(lines: Seq<Seq<char>>, n: nat, m: nat) -> Result<ParseState, FormatError>
    decreases lines.len(),
{
    if lines.len() == 0 {
        Ok((Seq::empty(), dark_frame(n, m)))
    } else {
        match parse_state(lines.drop_last(), n, m) {
            Ok(st) => step_line(st, lines.last(), lines.len() - 1, n, m),
            Err(e) => Err(e),
        }
    }
}

/// The frames a scene text commits: a frame that no `show` follows is dropped.
pub open spec fn scene_frames(lines: Seq<Seq<char>>, n: nat, m: nat) -> Result<
    Seq<Seq<Seq<u8>>>,
    FormatError,
> {
    match parse_state(lines, n, m) {
        Ok(st) => Ok(st.0),
        Err(e) => Err(e),
    }
}

proof fn lemma_error_stays(lines: Seq<Seq<char>>, k: int, n: nat, m: nat)
    requires
        0 <= k <= lines.len(),
        parse_state(lines.subrange(0, k), n, m) is Err,
    ensures
        parse_state(lines, n, m) == parse_state(lines.subrange(0, k), n, m),
    decreases lines.len() - k,
{
    if k < lines.len() {
        assert(lines.subrange(0, k + 1).drop_last() =~= lines.subrange(0, k));
        lemma_error_stays(lines, k + 1, n, m);
    } else {
        assert(lines.subrange(0, k) =~= lines);
    }
}

fn is_show_line(line: &Vec<char>) -> (r: bool)
    ensures
        r == is_show(line@),
{
    let r = line.len() == 4 && line[0] == 's' && line[1] == 'h' && line[2] == 'o' && line[3]
        == 'w';
    assert(r ==> line@ =~= seq!['s', 'h', 'o', 'w']);
    r
}

impl<const N: usize, const M: usize> Scene<N, M> {
    /// Builds a scene from its text, given line by line. The scene starts on
    /// its first frame; a line that breaks the format fails the whole text.
    pub fn parse_lines(lines: &Vec<Vec<char>>) -> (r: Result<Self, FormatError>)
        ensures
            scene_frames(chars_of(lines@), N as nat, M as nat) is Ok ==> r is Ok
                && r->Ok_0@ == scene_frames(chars_of(lines@), N as nat, M as nat)->Ok_0
                && r->Ok_0.cursor() == 0 && r->Ok_0.wf(),
            scene_frames(chars_of(lines@), N as nat, M as nat) is Err ==> r is Err
                && r->Err_0 == scene_frames(chars_of(lines@), N as nat, M as nat)->Err_0,
    {
        let ghost all = chars_of(lines@);
        let ghost n = N as nat;
        let ghost m = M as nat;
        let mut scene: Scene<N, M> = Scene::new();
        let mut current: Frame<N, M> = Frame::new();
        let mut i: usize = 0;
        assert(all.subrange(0, 0) =~= Seq::<Seq<char>>::empty());
        while i < lines.len()
            invariant
                i <= lines@.len(),
                all == chars_of(lines@),
                n == N as nat,
                m == M as nat,
                scene.wf(),
                scene.cursor() == 0,
                parse_state(all.subrange(0, i as int), n, m) == Ok::<ParseState, FormatError>(
                    (scene@, current@),
                ),
            decreases lines.len() - i,
        {
            let line = &lines[i];
            let ghost before = all.subrange(0, i as int);
            let ghost after = all.subrange(0, i + 1);
            proof {
                assert(after.drop_last() =~= before);
                assert(after.last() == line@);
            }
            if line.len() == 0 || line[0] == '#' {
            } else if is_show_line(line) {
                scene.add_frame(current);
                current = Frame::new();
            } else {
                let words = split_words(line);
                if words.len() == 0 {
                    proof {
                        lemma_error_stays(all, i + 1, n, m);
                    }
                    return Err(FormatError { line: i, token: 0 });
                }
                match assign_node(&mut current, &words) {
                    Ok(()) => {},
                    Err(t) => {
                        proof {
                            lemma_error_stays(all, i + 1, n, m);
                        }
                        return Err(FormatError { line: i, token: t });
                    },
                }
            }
            i = i + 1;
        }
        assert(all.subrange(0, lines@.len() as int) =~= all);
        Ok(scene)
    }

    /// Builds a scene from its whole text; see [`Scene::parse_lines`].
    pub fn parse_text(text: &Vec<char>) -> (r: Result<Self, FormatError>)
        ensures
            scene_frames(text_lines(text@), N as nat, M as nat) is Ok ==> r is Ok
                && r->Ok_0@ == scene_frames(text_lines(text@), N as nat, M as nat)->Ok_0
                && r->Ok_0.cursor() == 0 && r->Ok_0.wf(),
            scene_frames(text_lines(text@), N as nat, M as nat) is Err ==> r is Err
                && r->Err_0 == scene_frames(text_lines(text@), N as nat, M as nat)->Err_0,
    {
        let lines = split_lines(text);
        Self::parse_lines(&lines)
    }
}

/// A node line whose index is not a number, or that gives a channel a value
/// above 255, fails the whole text: no scene comes of it.
pub proof fn lemma_bad_number_fails(lines: Seq<Seq<char>>, k: int, n: nat, m: nat)
    requires
        0 <= k < lines.len(),
        !is_comment(lines[k]),
        !is_show(lines[k]),
        words(lines[k]).len() > 0,
        parse_unsigned(words(lines[k])[0]) is None || exists|i: int|
            1 <= i < words(lines[k]).len() && #[trigger] parse_unsigned(words(lines[k])[i]) is Some
                && parse_unsigned(words(lines[k])[i])->Some_0 > 255,
    ensures
        scene_frames(lines, n, m) is Err,
{
    let w = words(lines[k]);
    if parse_unsigned(w[0]) is None {
        assert(!word_fits(w, 0, n, m));
    } else {
        let i = choose|i: int|
            1 <= i < w.len() && #[trigger] parse_unsigned(w[i]) is Some && parse_unsigned(
                w[i],
            )->Some_0 > 255;
        assert(!word_fits(w, i, n, m));
    }
    assert(!all_words_fit(w, n, m));
    assert(lines.subrange(0, k + 1).drop_last() =~= lines.subrange(0, k));
    assert(lines.subrange(0, k + 1).last() == lines[k]);
    assert(parse_state(lines.subrange(0, k + 1), n, m) is Err);
    lemma_error_stays(lines, k + 1, n, m);
}

} // verus!
