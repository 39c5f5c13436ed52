//! Reading one line of a journal: the keys, counts and keyword strings of
//! its frame.
//!
//! A frame is the text of a line (after the start sequence, when one is
//! given), cut into whitespace-separated tokens. A token that starts with
//! `#` ends the frame. Each other token is `key` or `key:count`; a key that
//! one of the keyword patterns matches is recorded as a string under the
//! keyword's name, every other key is counted.

use vstd::prelude::*;
use crate::pattern::{regex_match, pattern_matches};
use crate::text::{
    is_first_char, after_char, before_char, frame_text, frame_text_of, lemma_tokens_append, lemma_tokens_first,
    lemma_tokens_trailing_space, split_at_char, split_whitespace, strings_view, tokens,
};

verus! {

/// Name/value pairs of strings, by their views.
pub open spec fn pairs_view(v: Seq<(String, String)>) -> Seq<(Seq<char>, Seq<char>)> {
    v.map_values(|p: (String, String)| (p.0@, p.1@))
}

/// Keys with the count texts recorded for them, by their views.
pub open spec fn groups_view(v: Seq<(String, Vec<String>)>) -> Seq<(Seq<char>, Seq<Seq<char>>)> {
    v.map_values(|g: (String, Vec<String>)| (g.0@, strings_view(g.1@)))
}

/// No key occurs twice.
pub open spec fn distinct_keys<V>(s: Seq<(Seq<char>, V)>) -> bool {
    forall|i: int, j: int| 0 <= i < j < s.len() ==> s[i].0 != s[j].0
}

/// `k` is one of the keys.
pub open spec fn has_key<V>(s: Seq<(Seq<char>, V)>, k: Seq<char>) -> bool {
    exists|i: int| 0 <= i < s.len() && s[i].0 == k
}

/// Keyword strings after the keyword `name` was seen with the text `value`:
/// a name seen before keeps its place and takes the new value; a new name
/// goes in front.
pub open spec fn put_string(
    s: Seq<(Seq<char>, Seq<char>)>,
    name: Seq<char>,
    value: Seq<char>,
) -> Seq<(Seq<char>, Seq<char>)> {
    if has_key(s, name) {
        s.map_values(
            |e: (Seq<char>, Seq<char>)|
                if e.0 == name {
                    (name, value)
                } else {
                    e
                },
        )
    } else {
        seq![(name, value)] + s
    }
}

/// Count groups after `key` was counted with the count text `text`: a key
/// counted before keeps its place and appends the text; a new key goes in
/// front with that one text.
pub open spec fn put_count(
    c: Seq<(Seq<char>, Seq<Seq<char>>)>,
    key: Seq<char>,
    text: Seq<char>,
) -> Seq<(Seq<char>, Seq<Seq<char>>)> {
    if has_key(c, key) {
        c.map_values(
            |e: (Seq<char>, Seq<Seq<char>>)|
                if e.0 == key {
                    (key, e.1.push(text))
                } else {
                    e
                },
        )
    } else {
        seq![(key, seq![text])] + c
    }
}

/// The keyword strings and the count groups of a frame.
pub type FrameView = (Seq<(Seq<char>, Seq<char>)>, Seq<(Seq<char>, Seq<Seq<char>>)>);

/// The key of a token: what precedes its first `:`.
pub open spec fn key_of(tok: Seq<char>) -> Seq<char> {
    before_char(tok, ':')
}

/// The count text of a token: what lies between its first `:` and the
/// next one (or the end); `"1"` for a token without `:`.
pub open spec fn count_text_of(tok: Seq<char>) -> Seq<char> {
    match after_char(tok, ':') {
        Some(rest) => before_char(rest, ':'),
        None => seq!['1'],
    }
}

/// A token that starts with `#`, which ends the frame.
pub open spec fn starts_comment(tok: Seq<char>) -> bool {
    tok.len() > 0 && tok[0] == '#'
}

/// The tokens before the first one that starts with `#`.
pub open spec fn live_tokens(toks: Seq<Seq<char>>) -> Seq<Seq<char>>
    decreases toks.len(),
{
    if toks.len() == 0 || starts_comment(toks[0]) {
        seq![]
    } else {
        seq![toks[0]] + live_tokens(toks.drop_first())
    }
}

/// The keyword patterns `kw[i]` is the first one that matches `key`.
pub open spec fn keyword_hits(kw: Seq<(Seq<char>, Seq<char>)>, key: Seq<char>, i: int) -> bool {
    &&& 0 <= i < kw.len()
    &&& regex_match(kw[i].1, key) == Some(true)
    &&& forall|j: int| 0 <= j < i ==> regex_match(kw[j].1, key) != Some(true)
}

/// The name of the first keyword whose pattern matches `key`, if any. A
/// pattern that does not compile matches nothing.
pub open spec fn keyword_for(kw: Seq<(Seq<char>, Seq<char>)>, key: Seq<char>) -> Option<
    Seq<char>,
> {
    if exists|i: int| keyword_hits(kw, key, i) {
        Some(kw[choose|i: int| keyword_hits(kw, key, i)].0)
    } else {
        None
    }
}

/// A frame after the token `tok`, given the keyword whose pattern matched
/// the token's key, if one did.
pub open spec fn add_token_view(f: FrameView, tok: Seq<char>, keyword: Option<Seq<char>>) -> FrameView {
    match keyword {
        Some(name) => (put_string(f.0, name, key_of(tok)), f.1),
        None => (f.0, put_count(f.1, key_of(tok), count_text_of(tok))),
    }
}

/// The frame made of the tokens `toks`, none of which ends it.
pub open spec fn scan_tokens(toks: Seq<Seq<char>>, kw: Seq<(Seq<char>, Seq<char>)>) -> FrameView
    decreases toks.len(),
{
    if toks.len() == 0 {
        (seq![], seq![])
    } else {
        let tok = toks.last();
        add_token_view(scan_tokens(toks.drop_last(), kw), tok, keyword_for(kw, key_of(tok)))
    }
}

/// The frame that a line holds, read with the keyword patterns `kw` and
/// the start sequence `start`.
pub open spec fn frame_of(
    line: Seq<char>,
    kw: Seq<(Seq<char>, Seq<char>)>,
    start: Seq<char>,
) -> FrameView {
    scan_tokens(live_tokens(tokens(frame_text_of(line, start))), kw)
}

/// The keyword strings and count groups of a frame, as they are read.
pub struct Frame {
    /// Keyword name and the key that was matched last.
    pub strings: Vec<(String, String)>,
    /// Counted key and the count texts recorded for it, in order.
    pub counts: Vec<(String, Vec<String>)>,
}

impl Frame {
    /// The frame by the views of its parts.
    pub open spec fn view(&self) -> FrameView {
        (pairs_view(self.strings@), groups_view(self.counts@))
    }

    /// No keyword name and no counted key occurs twice.
    pub open spec fn wf(&self) -> bool {
        distinct_keys(self.view().0) && distinct_keys(self.view().1)
    }

    /// An empty frame.
    pub fn new() -> (f: Frame)
        ensures
            f.wf(),
            f.view() == (Seq::<(Seq<char>, Seq<char>)>::empty(), Seq::<
                (Seq<char>, Seq<Seq<char>>),
            >::empty()),
    {
        let f = Frame { strings: Vec::new(), counts: Vec::new() };
        assert(f.view().0 =~= Seq::<(Seq<char>, Seq<char>)>::empty());
        assert(f.view().1 =~= Seq::<(Seq<char>, Seq<Seq<char>>)>::empty());
        f
    }

    /// Records that the keyword `name` was seen with the text `value`.
    pub fn put_string(&mut self, name: &String, value: &String)
        requires
            old(self).wf(),
        ensures
            final(self).wf(),
            final(self).view() == (put_string(old(self).view().0, name@, value@), old(self).view().1),
    {
        let n = self.strings.len();
        let mut i: usize = 0;
        while i < n
            invariant
                n == self.strings@.len(),
                i <= n,
                self.wf(),
                self.view() == old(self).view(),
                forall|j: int| 0 <= j < i ==> self.view().0[j].0 != name@,
            decreases n - i,
        {
            if self.strings[i].0 == *name {
                let ghost before = self.view().0;
                proof {
                    assert(before[i as int].0 == name@);
                    assert(has_key(before, name@));
                }
                self.strings.set(i, (name.clone(), value.clone()));
                assert(self.view().0 =~= put_string(before, name@, value@));
                return;
            }
            i = i + 1;
        }
        let ghost before = self.view().0;
        assert(!has_key(before, name@));
        self.strings.insert(0, (name.clone(), value.clone()));
        assert(self.view().0 =~= put_string(before, name@, value@));
    }

    /// Records that `key` was counted with the count text `text`.
    pub fn put_count(&mut self, key: &String, text: String)
        requires
            old(self).wf(),
        ensures
            final(self).wf(),
            final(self).view() == (old(self).view().0, put_count(old(self).view().1, key@, text@)),
    {
        let n = self.counts.len();
        let mut i: usize = 0;
        while i < n
            invariant
                n == self.counts@.len(),
                i <= n,
                self.wf(),
                self.view() == old(self).view(),
                forall|j: int| 0 <= j < i ==> self.view().1[j].0 != key@,
            decreases n - i,
        {
            if self.counts[i].0 == *key {
                let ghost before = self.view().1;
                proof {
                    assert(before[i as int].0 == key@);
                    assert(has_key(before, key@));
                }
                let (k, mut texts) = self.counts.remove(i);
                texts.push(text);
                self.counts.insert(i, (k, texts));
                assert(strings_view(texts@) =~= before[i as int].1.push(text@));
                assert(self.view().1 =~= put_count(before, key@, text@));
                return;
            }
            i = i + 1;
        }
        let ghost before = self.view().1;
        assert(!has_key(before, key@));
        let texts = vec![text];
        assert(strings_view(texts@) =~= seq![text@]);
        self.counts.insert(0, (key.clone(), texts));
        assert(self.view().1 =~= put_count(before, key@, text@));
    }
}

impl Frame {
    /// Records the token `tok`, given the name of the keyword whose pattern
    /// matched its key, if one did: that keyword takes the key as its
    /// string, or else the key is counted with the token's count text.
    pub fn add_token(&mut self, tok: &str, keyword: Option<&String>)
        requires
            old(self).wf(),
        ensures
            final(self).wf(),
            final(self).view() == add_token_view(
                old(self).view(),
                tok@,
                match keyword {
                    Some(name) => Some(name@),
                    None => None,
                },
            ),
    {
        let (key, rest) = split_at_char(tok, ':');
        match keyword {
            Some(name) => {
                self.put_string(name, &key);
            },
            None => {
                let text = match rest {
                    Some(after) => split_at_char(after.as_str(), ':').0,
                    None => {
                        let one = String::from_str("1");
                        proof {
                            reveal_strlit("1");
                        }
                        assert(one@ =~= seq!['1']);
                        one
                    },
                };
                self.put_count(&key, text);
            },
        }
    }
}

/// The first keyword whose pattern matches `key` (with `regex`), if any.
pub fn keyword_for_key(key: &str, keywords: &Vec<(String, String)>) -> (res: Option<usize>)
    ensures
        match res {
            Some(i) => keyword_hits(pairs_view(keywords@), key@, i as int),
            None => forall|i: int| !keyword_hits(pairs_view(keywords@), key@, i),
        },
{
    let ghost kw = pairs_view(keywords@);
    let n = keywords.len();
    let mut i: usize = 0;
    while i < n
        invariant
            n == keywords@.len(),
            kw == pairs_view(keywords@),
            i <= n,
            forall|j: int| 0 <= j < i ==> regex_match(kw[j].1, key@) != Some(true),
        decreases n - i,
    {
        let hit = pattern_matches(keywords[i].1.as_str(), key);
        if hit == Some(true) {
            return Some(i);
        }
        i = i + 1;
    }
    None
}

/// The tokens before the first comment token are a prefix of the tokens.
pub proof fn lemma_live_tokens(toks: Seq<Seq<char>>, i: int)
    requires
        0 <= i <= toks.len(),
        forall|j: int| 0 <= j < i ==> !starts_comment(toks[j]),
        i == toks.len() || starts_comment(toks[i]),
    ensures
        live_tokens(toks) == toks.take(i),
    decreases i,
{
    if i == 0 {
        assert(toks.take(0) =~= Seq::<Seq<char>>::empty());
    } else {
        lemma_live_tokens(toks.drop_first(), i - 1);
        assert(toks.take(i) =~= seq![toks[0]] + toks.drop_first().take(i - 1));
    }
}

/// Reads the frame on `line`: the text after the start sequence (all of
/// the line when it is empty), cut at white space, up to the first token
/// that starts with `#`; each token's key goes to the first keyword whose
/// pattern matches it, or else is counted.
pub fn read_frame(line: &str, keywords: &Vec<(String, String)>, start_sequence: &str) -> (f: Frame)
    ensures
        f.wf(),
        f.view() == frame_of(line@, pairs_view(keywords@), start_sequence@),
{
    let ghost kw = pairs_view(keywords@);
    let text = frame_text(line, start_sequence);
    let toks = split_whitespace(text.as_str());
    let ghost tv = strings_view(toks@);
    let mut frame = Frame::new();
    let n = toks.len();
    let mut i: usize = 0;
    assert(tv.take(0) =~= Seq::<Seq<char>>::empty());
    while i < n
        invariant
            n == toks@.len(),
            tv == strings_view(toks@),
            tv == tokens(frame_text_of(line@, start_sequence@)),
            kw == pairs_view(keywords@),
            i <= n,
            frame.wf(),
            frame.view() == scan_tokens(tv.take(i as int), kw),
            forall|j: int| 0 <= j < i ==> !starts_comment(tv[j]),
        ensures
            frame.wf(),
            frame.view() == scan_tokens(tv.take(i as int), kw),
            forall|j: int| 0 <= j < i ==> !starts_comment(tv[j]),
            i == n || starts_comment(tv[i as int]),
        decreases n - i,
    {
        let tok = toks[i].as_str();
        assert(tok@ == tv[i as int]);
        if tok.unicode_len() > 0 && tok.get_char(0) == '#' {
            break;
        }
        let (key, _) = split_at_char(tok, ':');
        let hit = keyword_for_key(key.as_str(), keywords);
        proof {
            match hit {
                Some(k) => {
                    let c = choose|c: int| keyword_hits(kw, key@, c);
                    if c < k {
                        assert(regex_match(kw[c].1, key@) != Some(true));
                    } else if k < c {
                        assert(regex_match(kw[k as int].1, key@) != Some(true));
                    }
                },
                None => {},
            }
            assert(tv.take(i + 1).drop_last() =~= tv.take(i as int));
        }
        match hit {
            Some(k) => frame.add_token(tok, Some(&keywords[k].0)),
            None => frame.add_token(tok, None),
        }
        i = i + 1;
    }
    proof {
        lemma_live_tokens(tv, i as int);
    }
    frame
}

/// The position of the key `k` among distinct keys.
pub open spec fn key_index<V>(s: Seq<(Seq<char>, V)>, k: Seq<char>) -> int {
    choose|i: int| 0 <= i < s.len() && s[i].0 == k
}

/// Among distinct keys, the position of a key is the one it has.
pub proof fn lemma_key_index<V>(s: Seq<(Seq<char>, V)>, k: Seq<char>, i: int)
    requires
        distinct_keys(s),
        0 <= i < s.len(),
        s[i].0 == k,
    ensures
        key_index(s, k) == i,
{
    let j = key_index(s, k);
    if j < i {
        assert(s[j].0 != s[i].0);
    } else if j > i {
        assert(s[i].0 != s[j].0);
    }
}

/// The value of the keyword `name` in keyword strings, if it has one.
pub open spec fn string_of(s: Seq<(Seq<char>, Seq<char>)>, name: Seq<char>) -> Option<Seq<char>> {
    if has_key(s, name) {
        Some(s[key_index(s, name)].1)
    } else {
        None
    }
}

/// The count texts recorded for `k` in count groups (none where `k` is
/// not counted).
pub open spec fn texts_of(c: Seq<(Seq<char>, Seq<Seq<char>>)>, k: Seq<char>) -> Seq<Seq<char>> {
    if has_key(c, k) {
        c[key_index(c, k)].1
    } else {
        seq![]
    }
}

/// The key of the last of the tokens whose key the keyword `name` matched
/// first.
pub open spec fn last_keyword_key(
    toks: Seq<Seq<char>>,
    kw: Seq<(Seq<char>, Seq<char>)>,
    name: Seq<char>,
) -> Option<Seq<char>>
    decreases toks.len(),
{
    if toks.len() == 0 {
        None
    } else if keyword_for(kw, key_of(toks.last())) == Some(name) {
        Some(key_of(toks.last()))
    } else {
        last_keyword_key(toks.drop_last(), kw, name)
    }
}

/// The count texts of the tokens with the key `k` that no keyword matched,
/// in order.
pub open spec fn counted_texts(toks: Seq<Seq<char>>, kw: Seq<(Seq<char>, Seq<char>)>, k: Seq<char>) -> Seq<
    Seq<char>,
>
    decreases toks.len(),
{
    if toks.len() == 0 {
        seq![]
    } else {
        let t = toks.last();
        let prev = counted_texts(toks.drop_last(), kw, k);
        if keyword_for(kw, key_of(t)) is None && key_of(t) == k {
            prev.push(count_text_of(t))
        } else {
            prev
        }
    }
}

proof fn lemma_put_string(s: Seq<(Seq<char>, Seq<char>)>, name: Seq<char>, value: Seq<char>, k: Seq<char>)
    requires
        distinct_keys(s),
    ensures
        distinct_keys(put_string(s, name, value)),
        string_of(put_string(s, name, value), k) == if k == name {
            Some(value)
        } else {
            string_of(s, k)
        },
{
    let p = put_string(s, name, value);
    if has_key(s, name) {
        assert(p.len() == s.len());
        assert forall|i: int| 0 <= i < p.len() implies #[trigger] p[i].0 == s[i].0 by {}
        let i = key_index(s, name);
        assert(s[i].0 == name);
        assert(p[i] == (name, value));
        if has_key(s, k) {
            let j = key_index(s, k);
            lemma_key_index(p, k, j);
            if k != name {
                assert(p[j] == s[j]);
            }
        } else {
            if has_key(p, k) {
                let j = key_index(p, k);
                assert(s[j].0 == k);
            }
        }
        if k == name {
            lemma_key_index(p, k, i);
        }
    } else {
        assert(p[0].0 == name);
        assert forall|i: int| 0 < i < p.len() implies #[trigger] p[i] == s[i - 1] by {}
        if k == name {
            lemma_key_index(p, k, 0);
        } else if has_key(s, k) {
            let j = key_index(s, k);
            assert(p[j + 1] == s[j]);
            lemma_key_index(p, k, j + 1);
        } else if has_key(p, k) {
            let j = key_index(p, k);
            assert(s[j - 1].0 == k);
        }
    }
}

proof fn lemma_put_count(c: Seq<(Seq<char>, Seq<Seq<char>>)>, key: Seq<char>, text: Seq<char>, k: Seq<char>)
    requires
        distinct_keys(c),
    ensures
        distinct_keys(put_count(c, key, text)),
        texts_of(put_count(c, key, text), k) == if k == key {
            texts_of(c, k).push(text)
        } else {
            texts_of(c, k)
        },
{
    let p = put_count(c, key, text);
    if has_key(c, key) {
        assert(p.len() == c.len());
        assert forall|i: int| 0 <= i < p.len() implies #[trigger] p[i].0 == c[i].0 by {}
        let i = key_index(c, key);
        assert(c[i].0 == key);
        assert(p[i] == (key, c[i].1.push(text)));
        if has_key(c, k) {
            let j = key_index(c, k);
            lemma_key_index(p, k, j);
            if k != key {
                assert(p[j] == c[j]);
            }
        } else {
            if has_key(p, k) {
                let j = key_index(p, k);
                assert(c[j].0 == k);
            }
        }
        if k == key {
            lemma_key_index(p, k, i);
        }
    } else {
        assert(p[0].0 == key);
        assert forall|i: int| 0 < i < p.len() implies #[trigger] p[i] == c[i - 1] by {}
        if k == key {
            lemma_key_index(p, k, 0);
            assert(seq![text] =~= Seq::<Seq<char>>::empty().push(text));
        } else if has_key(c, k) {
            let j = key_index(c, k);
            assert(p[j + 1] == c[j]);
            lemma_key_index(p, k, j + 1);
        } else if has_key(p, k) {
            let j = key_index(p, k);
            assert(c[j - 1].0 == k);
        }
    }
}

/// Keyword names and counted keys each occur once in a frame; the string
/// of a keyword is the key of the last token that it matched; the texts
/// counted for a key are those of the tokens with that key that no keyword
/// matched, in order (so `K K:4` counts `1` and then `4` for `K`).
pub proof fn law_scan_tokens(toks: Seq<Seq<char>>, kw: Seq<(Seq<char>, Seq<char>)>, k: Seq<char>)
    ensures
        distinct_keys(scan_tokens(toks, kw).0),
        distinct_keys(scan_tokens(toks, kw).1),
        string_of(scan_tokens(toks, kw).0, k) == last_keyword_key(toks, kw, k),
        texts_of(scan_tokens(toks, kw).1, k) == counted_texts(toks, kw, k),
    decreases toks.len(),
{
    if toks.len() == 0 {
        assert(!has_key(scan_tokens(toks, kw).0, k));
        assert(!has_key(scan_tokens(toks, kw).1, k));
    } else {
        let prev = scan_tokens(toks.drop_last(), kw);
        law_scan_tokens(toks.drop_last(), kw, k);
        let t = toks.last();
        match keyword_for(kw, key_of(t)) {
            Some(name) => {
                lemma_put_string(prev.0, name, key_of(t), k);
            },
            None => {
                lemma_put_count(prev.1, key_of(t), count_text_of(t), k);
            },
        }
    }
}

/// The same, for the frame on a line: what a keyword holds and what a key
/// counts are fixed by the frame's tokens up to the one that ends it.
pub proof fn law_frame(line: Seq<char>, kw: Seq<(Seq<char>, Seq<char>)>, start: Seq<char>, k: Seq<char>)
    ensures
        distinct_keys(frame_of(line, kw, start).0),
        distinct_keys(frame_of(line, kw, start).1),
        string_of(frame_of(line, kw, start).0, k) == last_keyword_key(
            live_tokens(tokens(frame_text_of(line, start))),
            kw,
            k,
        ),
        texts_of(frame_of(line, kw, start).1, k) == counted_texts(
            live_tokens(tokens(frame_text_of(line, start))),
            kw,
            k,
        ),
{
    law_scan_tokens(live_tokens(tokens(frame_text_of(line, start))), kw, k);
}

/// Tokens before a comment token are all that count.
proof fn lemma_live_append(a: Seq<Seq<char>>, b: Seq<Seq<char>>)
    requires
        b.len() > 0,
        starts_comment(b[0]),
    ensures
        live_tokens(a + b) == live_tokens(a),
    decreases a.len(),
{
    if a.len() == 0 {
        assert(a + b =~= b);
    } else {
        assert((a + b)[0] == a[0]);
        assert((a + b).drop_first() =~= a.drop_first() + b);
        lemma_live_append(a.drop_first(), b);
    }
}

/// A `#` after white space ends the frame: whatever follows it is ignored.
pub proof fn law_comment_ends_frame(s: Seq<char>, t: Seq<char>, kw: Seq<(Seq<char>, Seq<char>)>)
    ensures
        frame_of(s + seq![' ', '#'] + t, kw, seq![]) == frame_of(s, kw, seq![]),
{
    let a = s.push(' ');
    let b = seq!['#'] + t;
    assert(s + seq![' ', '#'] + t =~= a + b);
    lemma_tokens_append(a, b, seq![]);
    lemma_tokens_trailing_space(s, ' ', seq![]);
    assert(b[0] == '#');
    assert(b.drop_first() =~= t);
    lemma_tokens_first(t, seq!['#']);
    lemma_live_append(tokens(s), tokens(b));
}

/// An empty line holds nothing.
pub proof fn law_empty_line(kw: Seq<(Seq<char>, Seq<char>)>, start: Seq<char>)
    ensures
        frame_of(seq![], kw, start) == (Seq::<(Seq<char>, Seq<char>)>::empty(), Seq::<
            (Seq<char>, Seq<Seq<char>>),
        >::empty()),
{
    let e = Seq::<char>::empty();
    if start.len() > 0 {
        assert(!exists|i: int| crate::text::is_first_occurrence(e, start, i));
    }
    assert(frame_text_of(e, start) =~= e);
    assert(tokens(e) =~= Seq::<Seq<char>>::empty());
    assert(live_tokens(tokens(e)) =~= Seq::<Seq<char>>::empty());
}

/// A line in which the (non-empty) start sequence does not occur holds
/// nothing.
pub proof fn law_start_sequence_absent(line: Seq<char>, kw: Seq<(Seq<char>, Seq<char>)>, start: Seq<char>)
    requires
        start.len() > 0,
        forall|i: int| !crate::text::occurs_at(line, start, i),
    ensures
        frame_of(line, kw, start) == (Seq::<(Seq<char>, Seq<char>)>::empty(), Seq::<
            (Seq<char>, Seq<Seq<char>>),
        >::empty()),
{
    let e = Seq::<char>::empty();
    assert(frame_text_of(line, start) =~= e);
    assert(tokens(e) =~= Seq::<Seq<char>>::empty());
    assert(live_tokens(tokens(e)) =~= Seq::<Seq<char>>::empty());
}

/// A token with a `:` at `i` (its first) and the next `:` at `j` (or `j`
/// its end): its key is what precedes position `i`, and the count text
/// recorded for it is all of what lies between `i` and `j` (so `k:12`
/// records `12`, and `k:3:4` records `3`).
pub proof fn law_token_parts(tok: Seq<char>, i: int, j: int)
    requires
        0 <= i < j <= tok.len(),
        tok[i] == ':',
        forall|k: int| 0 <= k < j && k != i ==> tok[k] != ':',
        j == tok.len() || tok[j] == ':',
    ensures
        key_of(tok) == tok.take(i),
        count_text_of(tok) == tok.subrange(i + 1, j),
{
    assert(is_first_char(tok, ':', i));
    let c = choose|c: int| is_first_char(tok, ':', c);
    crate::text::lemma_first_char_unique(tok, ':', i, c);
    let rest = tok.skip(i + 1);
    assert(after_char(tok, ':') == Some(rest));
    if j < tok.len() {
        assert(rest[j - i - 1] == tok[j]);
        assert forall|k: int| 0 <= k < j - i - 1 implies rest[k] != ':' by {
            assert(rest[k] == tok[k + i + 1]);
        }
        assert(is_first_char(rest, ':', j - i - 1));
        let d = choose|d: int| is_first_char(rest, ':', d);
        crate::text::lemma_first_char_unique(rest, ':', j - i - 1, d);
        assert(rest.take(j - i - 1) =~= tok.subrange(i + 1, j));
    } else {
        assert forall|k: int| !is_first_char(rest, ':', k) by {
            if 0 <= k < rest.len() {
                assert(rest[k] == tok[k + i + 1]);
            }
        }
        assert(rest =~= tok.subrange(i + 1, j));
    }
}

/// A token without `:` is its own key, counted once (with the text `1`).
pub proof fn law_token_without_colon(tok: Seq<char>)
    requires
        forall|k: int| 0 <= k < tok.len() ==> tok[k] != ':',
    ensures
        key_of(tok) == tok,
        count_text_of(tok) == seq!['1'],
{
    assert(!exists|c: int| is_first_char(tok, ':', c));
}

/// A key goes to the first keyword (in the list's order) whose pattern
/// matches it, and to none where no pattern matches it.
pub proof fn law_keyword_for(kw: Seq<(Seq<char>, Seq<char>)>, key: Seq<char>)
    ensures
        match keyword_for(kw, key) {
            Some(name) => exists|i: int|
                0 <= i < kw.len() && kw[i].0 == name && regex_match(kw[i].1, key) == Some(true) && (
                forall|j: int| 0 <= j < i ==> #[trigger] regex_match(kw[j].1, key) != Some(true)),
            None => forall|i: int| 0 <= i < kw.len() ==> #[trigger] regex_match(kw[i].1, key) != Some(true),
        },
{
    if keyword_for(kw, key) is None {
        assert forall|i: int| 0 <= i < kw.len() implies #[trigger] regex_match(kw[i].1, key) != Some(true) by {
            if regex_match(kw[i].1, key) == Some(true) {
                lemma_first_hit(kw, key, i);
            }
        }
    } else {
        let i = choose|i: int| keyword_hits(kw, key, i);
        assert(keyword_hits(kw, key, i));
    }
}

/// Where some pattern matches, a first one does.
proof fn lemma_first_hit(kw: Seq<(Seq<char>, Seq<char>)>, key: Seq<char>, i: int)
    requires
        0 <= i < kw.len(),
        regex_match(kw[i].1, key) == Some(true),
    ensures
        exists|c: int| keyword_hits(kw, key, c),
    decreases i,
{
    if exists|j: int| 0 <= j < i && regex_match(kw[j].1, key) == Some(true) {
        let j = choose|j: int| 0 <= j < i && regex_match(kw[j].1, key) == Some(true);
        lemma_first_hit(kw, key, j);
    } else {
        assert(keyword_hits(kw, key, i));
    }
}

} // verus!
