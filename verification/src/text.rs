//! Character-level text handling: whitespace tokens, splitting at a
//! character, and the start sequence that precedes a frame.

use vstd::prelude::*;

verus! {

/// The Unicode `White_Space` property, which is what `char::is_whitespace`
/// and `str::split_whitespace` test.
pub open spec fn is_white_space(c: char) -> bool {
    ||| ('\u{9}' <= c && c <= '\u{d}')
    ||| c == ' '
    ||| c == '\u{85}'
    ||| c == '\u{a0}'
    ||| c == '\u{1680}'
    ||| ('\u{2000}' <= c && c <= '\u{200a}')
    ||| c == '\u{2028}'
    ||| c == '\u{2029}'
    ||| c == '\u{202f}'
    ||| c == '\u{205f}'
    ||| c == '\u{3000}'
}

/// Whether `c` is white space.
pub fn is_whitespace(c: char) -> (b: bool)
    ensures
        b == is_white_space(c),
{
    ('\u{9}' <= c && c <= '\u{d}') || c == ' ' || c == '\u{85}' || c == '\u{a0}' || c
        == '\u{1680}' || ('\u{2000}' <= c && c <= '\u{200a}') || c == '\u{2028}' || c
        == '\u{2029}' || c == '\u{202f}' || c == '\u{205f}' || c == '\u{3000}'
}

/// The tokens of `s`, given that the token in progress so far is `cur`:
/// maximal runs of characters that are not white space.
pub open spec fn tokens_after(s: Seq<char>, cur: Seq<char>) -> Seq<Seq<char>>
    decreases s.len(),
{
    if s.len() == 0 {
        if cur.len() == 0 {
            seq![]
        } else {
            seq![cur]
        }
    } else if is_white_space(s[0]) {
        (if cur.len() == 0 {
            seq![]
        } else {
            seq![cur]
        }) + tokens_after(s.drop_first(), seq![])
    } else {
        tokens_after(s.drop_first(), cur.push(s[0]))
    }
}

/// The whitespace-separated tokens of `s`, left to right.
pub open spec fn tokens(s: Seq<char>) -> Seq<Seq<char>> {
    tokens_after(s, seq![])
}

/// The views of a sequence of strings.
pub open spec fn strings_view(v: Seq<String>) -> Seq<Seq<char>> {
    v.map_values(|t: String| t@)
}

/// The characters of `s`, in order.
pub fn chars_of(s: &str) -> (v: Vec<char>)
    ensures
        v@ == s@,
{
    let mut v: Vec<char> = Vec::new();
    for c in it: s.chars()
        invariant
            it.seq() == s@,
            v@ == it.seq().take(it.index() as int),
    {
        v.push(c);
        assert(v@ =~= it.seq().take(it.index() + 1));
    }
    assert(s@.take(s@.len() as int) =~= s@);
    v
}

/// The characters of `s` from `from` up to `to`, as a string.
pub fn substring(s: &str, from: usize, to: usize) -> (t: String)
    requires
        from <= to <= s@.len(),
    ensures
        t@ == s@.subrange(from as int, to as int),
{
    String::from_str(s.substring_char(from, to))
}

/// Splits `s` at white space, as `str::split_whitespace` does.
pub fn split_whitespace(s: &str) -> (out: Vec<String>)
    ensures
        strings_view(out@) == tokens(s@),
{
    let chars = chars_of(s);
    let n = chars.len();
    let mut out: Vec<String> = Vec::new();
    let mut start: usize = 0;
    let mut i: usize = 0;
    assert(s@.skip(0) =~= s@);
    assert(s@.subrange(0, 0) =~= Seq::<char>::empty());
    assert(strings_view(out@) =~= Seq::<Seq<char>>::empty());
    assert(strings_view(out@) + tokens(s@) =~= tokens(s@));
    while i < n
        invariant
            chars@ == s@,
            n == s@.len(),
            start <= i <= n,
            tokens(s@) == strings_view(out@) + tokens_after(
                s@.skip(i as int),
                s@.subrange(start as int, i as int),
            ),
        decreases n - i,
    {
        let ghost cur = s@.subrange(start as int, i as int);
        let ghost rest = s@.skip(i as int);
        assert(rest.drop_first() =~= s@.skip(i + 1));
        assert(rest[0] == chars@[i as int]);
        if is_whitespace(chars[i]) {
            if start < i {
                let t = substring(s, start, i);
                let ghost before = out@;
                out.push(t);
                assert(strings_view(out@) =~= strings_view(before).push(cur));
                assert(seq![cur] + tokens_after(s@.skip(i + 1), seq![]) =~= seq![cur].add(
                    tokens_after(s@.skip(i + 1), seq![]),
                ));
                assert(strings_view(before) + (seq![cur] + tokens_after(s@.skip(i + 1), seq![]))
                    =~= strings_view(out@) + tokens_after(s@.skip(i + 1), seq![]));
            } else {
                assert(cur.len() == 0);
                assert(seq![] + tokens_after(s@.skip(i + 1), seq![]) =~= tokens_after(
                    s@.skip(i + 1),
                    seq![],
                ));
            }
            i = i + 1;
            start = i;
            assert(s@.subrange(start as int, i as int) =~= Seq::<char>::empty());
        } else {
            assert(cur.push(rest[0]) =~= s@.subrange(start as int, i + 1));
            i = i + 1;
        }
    }
    let ghost cur = s@.subrange(start as int, n as int);
    assert(s@.skip(n as int).len() == 0);
    if start < n {
        let t = substring(s, start, n);
        let ghost before = out@;
        out.push(t);
        assert(strings_view(out@) =~= strings_view(before).push(cur));
        assert(strings_view(before) + seq![cur] =~= strings_view(out@));
    } else {
        assert(strings_view(out@) + seq![] =~= strings_view(out@));
    }
    out
}

/// `i` is the first position at which `c` occurs in `s`.
pub open spec fn is_first_char(s: Seq<char>, c: char, i: int) -> bool {
    &&& 0 <= i < s.len()
    &&& s[i] == c
    &&& forall|j: int| 0 <= j < i ==> s[j] != c
}

/// The part of `s` before the first `c` (all of `s` where there is none).
pub open spec fn before_char(s: Seq<char>, c: char) -> Seq<char> {
    if exists|i: int| is_first_char(s, c, i) {
        s.take(choose|i: int| is_first_char(s, c, i))
    } else {
        s
    }
}

/// The part of `s` after the first `c`, where there is one.
pub open spec fn after_char(s: Seq<char>, c: char) -> Option<Seq<char>> {
    if exists|i: int| is_first_char(s, c, i) {
        Some(s.skip((choose|i: int| is_first_char(s, c, i)) + 1))
    } else {
        None
    }
}

/// Only one position is the first one.
pub proof fn lemma_first_char_unique(s: Seq<char>, c: char, i: int, k: int)
    requires
        is_first_char(s, c, i),
        is_first_char(s, c, k),
    ensures
        i == k,
{
    if i < k {
        assert(s[i] != c);
    } else if k < i {
        assert(s[k] != c);
    }
}

/// Splits `s` at its first `c`, as the first two pieces of `str::split`
/// with `c` do: the part before it, and the part after it where there is one.
pub fn split_at_char(s: &str, c: char) -> (res: (String, Option<String>))
    ensures
        res.0@ == before_char(s@, c),
        match res.1 {
            Some(t) => after_char(s@, c) == Some(t@),
            None => after_char(s@, c) is None,
        },
{
    let chars = chars_of(s);
    let n = chars.len();
    let mut i: usize = 0;
    while i < n
        invariant
            chars@ == s@,
            n == s@.len(),
            i <= n,
            forall|j: int| 0 <= j < i ==> s@[j] != c,
        decreases n - i,
    {
        if chars[i] == c {
            proof {
                assert(is_first_char(s@, c, i as int));
                let k = choose|k: int| is_first_char(s@, c, k);
                lemma_first_char_unique(s@, c, i as int, k);
            }
            let before = substring(s, 0, i);
            let after = substring(s, i + 1, n);
            assert(s@.subrange(0, i as int) =~= s@.take(i as int));
            assert(s@.subrange(i + 1, n as int) =~= s@.skip(i + 1));
            return (before, Some(after));
        }
        i = i + 1;
    }
    let whole = String::from_str(s);
    (whole, None)
}

/// `p` occurs in `s` at position `i`.
pub open spec fn occurs_at(s: Seq<char>, p: Seq<char>, i: int) -> bool {
    0 <= i && i + p.len() <= s.len() && s.subrange(i, i + p.len()) == p
}

/// `i` is the leftmost position at which `p` occurs in `s`.
pub open spec fn is_first_occurrence(s: Seq<char>, p: Seq<char>, i: int) -> bool {
    &&& occurs_at(s, p, i)
    &&& forall|j: int| 0 <= j < i ==> !occurs_at(s, p, j)
}

/// The text of a frame on `line`. With an empty start sequence, the whole
/// line. Otherwise everything up to and including the first occurrence of
/// the start sequence is dropped and the rest is kept as it is; nothing
/// where the start sequence does not occur.
pub open spec fn frame_text_of(line: Seq<char>, start: Seq<char>) -> Seq<char> {
    if start.len() == 0 {
        line
    } else if exists|i: int| is_first_occurrence(line, start, i) {
        line.skip((choose|i: int| is_first_occurrence(line, start, i)) + start.len())
    } else {
        seq![]
    }
}

/// Whether `p` occurs in `s` at `i`.
fn occurs_at_exec(s: &Vec<char>, p: &Vec<char>, i: usize) -> (b: bool)
    ensures
        b == occurs_at(s@, p@, i as int),
{
    if i > s.len() || p.len() > s.len() - i {
        return false;
    }
    let mut k: usize = 0;
    while k < p.len()
        invariant
            i + p@.len() <= s.len(),
            k <= p@.len(),
            forall|j: int| 0 <= j < k ==> s@[i + j] == p@[j],
        decreases p@.len() - k,
    {
        if s[i + k] != p[k] {
            assert(s@.subrange(i as int, i + p@.len())[k as int] != p@[k as int]);
            return false;
        }
        k = k + 1;
    }
    assert(s@.subrange(i as int, i + p@.len()) =~= p@);
    true
}

/// Only one position is the leftmost one.
proof fn lemma_first_occurrence_unique(s: Seq<char>, p: Seq<char>, i: int, k: int)
    requires
        is_first_occurrence(s, p, i),
        is_first_occurrence(s, p, k),
    ensures
        i == k,
{
    if i < k {
        assert(!occurs_at(s, p, i));
    } else if k < i {
        assert(!occurs_at(s, p, k));
    }
}

/// The text of the frame on `line`: what follows the first occurrence of
/// `start_sequence` (all of the line where the start sequence is empty,
/// nothing where it does not occur).
pub fn frame_text(line: &str, start_sequence: &str) -> (t: String)
    ensures
        t@ == frame_text_of(line@, start_sequence@),
{
    let p = chars_of(start_sequence);
    let m = p.len();
    if m == 0 {
        return String::from_str(line);
    }
    let s = chars_of(line);
    let n = s.len();
    // the leftmost occurrence
    let mut i: usize = 0;
    let mut found = false;
    while i < n
        invariant_except_break
            !found,
        invariant
            s@ == line@,
            p@ == start_sequence@,
            n == s@.len(),
            i <= n,
            forall|j: int| 0 <= j < i ==> !occurs_at(s@, p@, j),
        ensures
            found ==> i < n && occurs_at(s@, p@, i as int),
            !found ==> i == n,
        decreases n - i,
    {
        if occurs_at_exec(&s, &p, i) {
            found = true;
            break;
        }
        i = i + 1;
    }
    if !found {
        proof {
            assert forall|j: int| !is_first_occurrence(line@, start_sequence@, j) by {
                if 0 <= j < n {
                } else {
                    assert(!occurs_at(s@, p@, j));
                }
            }
        }
        return String::new();
    }
    proof {
        assert(is_first_occurrence(line@, start_sequence@, i as int));
        let k = choose|k: int| is_first_occurrence(line@, start_sequence@, k);
        lemma_first_occurrence_unique(line@, start_sequence@, i as int, k);
    }
    let t = substring(line, i + m, n);
    assert(s@.subrange((i + m) as int, n as int) =~= s@.skip(i + m));
    t
}

/// White space at the end adds no token.
pub proof fn lemma_tokens_trailing_space(s: Seq<char>, w: char, cur: Seq<char>)
    requires
        is_white_space(w),
    ensures
        tokens_after(s.push(w), cur) == tokens_after(s, cur),
    decreases s.len(),
{
    if s.len() == 0 {
        assert(seq![w].drop_first() =~= Seq::<char>::empty());
        assert(s.push(w) =~= seq![w]);
        let c: Seq<Seq<char>> = if cur.len() == 0 {
            seq![]
        } else {
            seq![cur]
        };
        assert(tokens_after(Seq::<char>::empty(), seq![]) =~= Seq::<Seq<char>>::empty());
        assert(tokens_after(s.push(w), cur) == c + tokens_after(s.push(w).drop_first(), seq![]));
        assert(c + Seq::<Seq<char>>::empty() =~= c);
    } else {
        assert(s.push(w).drop_first() =~= s.drop_first().push(w));
        assert(s.push(w)[0] == s[0]);
        if is_white_space(s[0]) {
            lemma_tokens_trailing_space(s.drop_first(), w, seq![]);
        } else {
            lemma_tokens_trailing_space(s.drop_first(), w, cur.push(s[0]));
        }
    }
}

/// Text that ends in white space is cut apart from what follows it.
pub proof fn lemma_tokens_append(a: Seq<char>, b: Seq<char>, cur: Seq<char>)
    requires
        a.len() > 0,
        is_white_space(a.last()),
    ensures
        tokens_after(a + b, cur) == tokens_after(a, cur) + tokens_after(b, seq![]),
    decreases a.len(),
{
    let c: Seq<Seq<char>> = if cur.len() == 0 {
        seq![]
    } else {
        seq![cur]
    };
    assert((a + b)[0] == a[0]);
    assert((a + b).drop_first() =~= a.drop_first() + b);
    if a.len() == 1 {
        assert(a.drop_first() =~= Seq::<char>::empty());
        assert(a.drop_first() + b =~= b);
        assert(c + Seq::<Seq<char>>::empty() =~= c);
    } else {
        assert(a.drop_first().last() == a.last());
        if is_white_space(a[0]) {
            lemma_tokens_append(a.drop_first(), b, seq![]);
            assert(c + (tokens_after(a.drop_first(), seq![]) + tokens_after(b, seq![])) =~= (c
                + tokens_after(a.drop_first(), seq![])) + tokens_after(b, seq![]));
        } else {
            lemma_tokens_append(a.drop_first(), b, cur.push(a[0]));
        }
    }
}

/// The first token of text that does not start with white space begins
/// with its first character.
pub proof fn lemma_tokens_first(s: Seq<char>, cur: Seq<char>)
    requires
        cur.len() > 0,
    ensures
        tokens_after(s, cur).len() > 0,
        tokens_after(s, cur)[0].len() > 0,
        tokens_after(s, cur)[0][0] == cur[0],
    decreases s.len(),
{
    if s.len() > 0 && !is_white_space(s[0]) {
        lemma_tokens_first(s.drop_first(), cur.push(s[0]));
    }
}

/// Where the (non-empty) start sequence first occurs at `i`, wherever
/// that is, the frame's text is all of the line after that occurrence.
pub proof fn law_frame_text(line: Seq<char>, start: Seq<char>, i: int)
    requires
        start.len() > 0,
        0 <= i,
        i + start.len() <= line.len(),
        line.subrange(i, i + start.len()) == start,
        forall|j: int| 0 <= j < i ==> #[trigger] line.subrange(j, j + start.len()) != start,
    ensures
        frame_text_of(line, start) == line.skip(i + start.len()),
{
    assert forall|j: int| 0 <= j < i implies !occurs_at(line, start, j) by {
        assert(line.subrange(j, j + start.len()) != start);
    }
    assert(is_first_occurrence(line, start, i));
    let k = choose|k: int| is_first_occurrence(line, start, k);
    lemma_first_occurrence_unique(line, start, i, k);
}

/// With no start sequence, the frame's text is the whole line.
pub proof fn law_frame_text_whole_line(line: Seq<char>)
    ensures
        frame_text_of(line, seq![]) == line,
{
}

/// A run of characters none of which is white space is one token.
pub proof fn law_tokens_word(w: Seq<char>, cur: Seq<char>)
    requires
        forall|k: int| 0 <= k < w.len() ==> !is_white_space(#[trigger] w[k]),
        w.len() + cur.len() > 0,
    ensures
        tokens_after(w, cur) == seq![cur + w],
    decreases w.len(),
{
    if w.len() == 0 {
        assert(cur + w =~= cur);
    } else {
        assert(!is_white_space(w[0]));
        assert forall|k: int| 0 <= k < w.drop_first().len() implies !is_white_space(
            #[trigger] w.drop_first()[k],
        ) by {
            assert(w.drop_first()[k] == w[k + 1]);
        }
        law_tokens_word(w.drop_first(), cur.push(w[0]));
        assert(cur.push(w[0]) + w.drop_first() =~= cur + w);
    }
}

/// Text made of white space alone holds no token.
pub proof fn law_tokens_space(s: Seq<char>)
    requires
        forall|k: int| 0 <= k < s.len() ==> is_white_space(#[trigger] s[k]),
    ensures
        tokens(s) == Seq::<Seq<char>>::empty(),
    decreases s.len(),
{
    if s.len() > 0 {
        assert(is_white_space(s[0]));
        assert forall|k: int| 0 <= k < s.drop_first().len() implies is_white_space(
            #[trigger] s.drop_first()[k],
        ) by {
            assert(s.drop_first()[k] == s[k + 1]);
        }
        law_tokens_space(s.drop_first());
        assert(Seq::<Seq<char>>::empty() + Seq::<Seq<char>>::empty() =~= Seq::<Seq<char>>::empty());
    }
}

/// Text cut after white space: its tokens are those of the first part and
/// then those of the second (with `lemma_tokens_trailing_space`,
/// `law_tokens_word` and `law_tokens_space`, this fixes the tokens of any
/// text: its maximal runs without white space, in order).
pub proof fn law_tokens_concat(a: Seq<char>, b: Seq<char>)
    requires
        a.len() > 0,
        is_white_space(a.last()),
    ensures
        tokens(a + b) == tokens(a) + tokens(b),
{
    lemma_tokens_append(a, b, seq![]);
}

} // verus!
