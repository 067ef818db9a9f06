//! Shortens a line of text to fit a maximum length by walking it word by
//! word, attempting phrase-level and then word-level abbreviation, and
//! respecting enclosing punctuation.

use vstd::prelude::*;
use vstd::string::StrSliceExecFns;
use vstd::string::StringExecFns;

use crate::abbrev::Abbreviation;
use crate::abbrev::AbbrevModel;
use crate::abbrev::Abbreviator;
use crate::abbrev::lookup_model;
use crate::text::chars_to_string;
use crate::text::clone_chars;
use crate::text::extend_chars;
use crate::text::is_closer;
use crate::text::is_opener;
use crate::text::closer;
use crate::text::opener;
use crate::text::split_words;
use crate::text::str_to_chars;
use crate::text::subvec;
use crate::text::trim_chars;
use crate::text::trimmed;
use crate::text::words_of;

verus! {

/// The number of leading opener characters of `s`.
pub open spec fn count_openers(s: Seq<char>) -> int
    decreases s.len(),
{
    if s.len() > 0 && opener(s[0]) {
        1 + count_openers(s.drop_first())
    } else {
        0
    }
}

/// The number of trailing closer characters of `s`.
pub open spec fn count_closers(s: Seq<char>) -> int
    decreases s.len(),
{
    if s.len() > 0 && closer(s.last()) {
        1 + count_closers(s.drop_last())
    } else {
        0
    }
}

/// The maximal run of opener characters at the start of a token.
pub open spec fn peel_openers(s: Seq<char>) -> Seq<char> {
    s.take(count_openers(s))
}

/// The token with its enclosing punctuation peeled off: what remains after
/// the leading openers and, of the rest, before the trailing closers.
pub open spec fn peel_core(s: Seq<char>) -> Seq<char> {
    let r = s.skip(count_openers(s));
    r.take(r.len() - count_closers(r))
}

/// The maximal run of closer characters at the end of a token, after the
/// leading openers are peeled off.
pub open spec fn peel_closers(s: Seq<char>) -> Seq<char> {
    let r = s.skip(count_openers(s));
    r.skip(r.len() - count_closers(r))
}

/// A token split into its enclosing punctuation and inner word.
pub struct EnclosedWord {
    pub word: Vec<char>,
    pub openers: Vec<char>,
    pub closers: Vec<char>,
}

impl EnclosedWord {
    /// Whether the token carried any enclosing punctuation.
    pub fn is_enclosed(&self) -> (r: bool)
        ensures
            r == (self.openers@.len() > 0 || self.closers@.len() > 0),
    {
        self.openers.len() > 0 || self.closers.len() > 0
    }
}

/// Peels the maximal run of openers from the start of a token and the
/// maximal run of closers from the end of what remains.
pub fn process_enclosed_word(input: &Vec<char>) -> (e: EnclosedWord)
    ensures
        e.openers@ == peel_openers(input@),
        e.word@ == peel_core(input@),
        e.closers@ == peel_closers(input@),
{
    let n = input.len();
    let mut a: usize = 0;
    proof {
        assert(input@.skip(0) =~= input@);
    }
    while a < n && is_opener(input[a])
        invariant
            a <= n,
            n == input@.len(),
            count_openers(input@) == a + count_openers(input@.skip(a as int)),
        decreases n - a,
    {
        proof {
            assert(input@.skip(a as int)[0] == input@[a as int]);
            assert(input@.skip(a as int).drop_first() =~= input@.skip(a as int + 1));
        }
        a = a + 1;
    }
    proof {
        if a < n {
            assert(input@.skip(a as int)[0] == input@[a as int]);
        } else {
            assert(input@.skip(a as int) =~= Seq::<char>::empty());
        }
        assert(count_openers(input@) == a);
    }
    let rest_len = n - a;
    let ghost rst = input@.skip(a as int);
    let mut c: usize = 0;
    proof {
        assert(rst.take(rest_len as int) =~= rst);
    }
    while c < rest_len && is_closer(input[n - 1 - c])
        invariant
            c <= rest_len,
            rest_len == n - a,
            a <= n,
            n == input@.len(),
            rst == input@.skip(a as int),
            count_closers(rst) == c + count_closers(rst.take(rest_len - c as int)),
        decreases rest_len - c,
    {
        proof {
            let t = rst.take(rest_len - c as int);
            assert(t.last() == rst[rest_len - c - 1]);
            assert(rst[rest_len - c - 1] == input@[n - 1 - c]);
            assert(t.drop_last() =~= rst.take(rest_len - c - 1 as int));
        }
        c = c + 1;
    }
    proof {
        if c < rest_len {
            let t = rst.take(rest_len - c as int);
            assert(t.last() == rst[rest_len - c - 1]);
            assert(rst[rest_len - c - 1] == input@[n - 1 - c]);
        } else {
            assert(rst.take(rest_len - c as int) =~= Seq::<char>::empty());
        }
        assert(count_closers(rst) == c);
    }
    let openers = subvec(input, 0, a);
    let word = subvec(input, a, n - c);
    let closers = subvec(input, n - c, n);
    proof {
        assert(peel_openers(input@) =~= input@.subrange(0, a as int));
        assert(rst.take(rst.len() - count_closers(rst)) =~= input@.subrange(a as int, n - c as int));
        assert(rst.skip(rst.len() - count_closers(rst)) =~= input@.subrange(n - c as int, n as int));
    }
    EnclosedWord { word, openers, closers }
}

/// Appends `s` to `out` with a single separating space, unless `s` is
/// empty, `out` is empty, or `out` ends in an opener character.
pub open spec fn add_ws_model(out: Seq<char>, s: Seq<char>) -> Seq<char> {
    if s.len() == 0 {
        out
    } else if out.len() > 0 && !opener(out.last()) {
        out + seq![' '] + s
    } else {
        out + s
    }
}

/// Appends a replacement to `out`: empty text leaves `out` unchanged, an
/// attaching replacement concatenates directly, any other replacement is
/// appended with normal spacing.
pub open spec fn add_abbrev_model(out: Seq<char>, t: Seq<char>, attach: bool) -> Seq<char> {
    if t.len() == 0 {
        out
    } else if attach {
        out + t
    } else {
        add_ws_model(out, t)
    }
}

/// Appends the abbreviation of `w` if one is known, else `w` itself.
pub open spec fn abbrev_or_add_model(m: AbbrevModel, out: Seq<char>, w: Seq<char>) -> Seq<char> {
    match lookup_model(m, w) {
        Some(t) => add_abbrev_model(out, t.0, t.1),
        None => add_ws_model(out, w),
    }
}

/// How one enclosed token extends the output: first the whole token is
/// looked up with its punctuation; failing that, the inner word alone is
/// looked up, a non-empty replacement is re-wrapped in the punctuation,
/// and an empty one deletes the token together with its punctuation;
/// failing both, the token is appended unchanged.
pub open spec fn enclosed_step(m: AbbrevModel, out: Seq<char>, w: Seq<char>) -> Seq<char> {
    let op = peel_openers(w);
    let core = peel_core(w);
    let cl = peel_closers(w);
    match lookup_model(m, w) {
        Some(t) => add_abbrev_model(out, t.0, t.1),
        None => match lookup_model(m, core) {
            Some(t) => if t.0.len() == 0 {
                out
            } else {
                add_abbrev_model(add_ws_model(out, op), t.0, t.1) + cl
            },
            None => add_ws_model(add_ws_model(out, op), core) + cl,
        },
    }
}

/// The word-walking pass over the whitespace-delimited tokens: enclosed
/// tokens flush the pending look-behind word and are handled on their own;
/// unenclosed tokens pair with the look-behind word for a phrase lookup
/// first, the phrase match consuming both words; a trailing look-behind
/// word is flushed at the end.
pub open spec fn walk(
    m: AbbrevModel,
    ws: Seq<Seq<char>>,
    prev: Option<Seq<char>>,
    out: Seq<char>,
) -> Seq<char>
    decreases ws.len(),
{
    if ws.len() == 0 {
        match prev {
            Some(p) => abbrev_or_add_model(m, out, p),
            None => out,
        }
    } else {
        let w = ws[0];
        let rest = ws.drop_first();
        if peel_openers(w).len() > 0 || peel_closers(w).len() > 0 {
            let out1 = match prev {
                Some(p) => abbrev_or_add_model(m, out, p),
                None => out,
            };
            walk(m, rest, None, enclosed_step(m, out1, w))
        } else {
            match prev {
                None => walk(m, rest, Some(w), out),
                Some(p) => match lookup_model(m, p + seq![' '] + w) {
                    Some(t) => walk(m, rest, None, add_abbrev_model(out, t.0, t.1)),
                    None => walk(m, rest, Some(w), abbrev_or_add_model(m, out, p)),
                },
            }
        }
    }
}

/// What `Shortener::shorten` yields: the text unchanged when it fits, the
/// trimmed text when that fits, else the word-walking pass over the
/// trimmed text's tokens.
pub open spec fn shorten_model(m: AbbrevModel, max: int, text: Seq<char>) -> Seq<char> {
    if text.len() <= max {
        text
    } else if trimmed(text).len() <= max {
        trimmed(text)
    } else {
        walk(m, words_of(trimmed(text)), None, Seq::empty())
    }
}

/// Shortening is idempotent on its own output whenever that output already
/// fits the maximum length: applying the shortener again returns it
/// unchanged, with no trimming and no rewriting.
pub proof fn lemma_shorten_idempotent(m: AbbrevModel, max: int, text: Seq<char>)
    requires
        shorten_model(m, max, text).len() <= max,
    ensures
        shorten_model(m, max, shorten_model(m, max, text)) == shorten_model(m, max, text),
{
}

/// The model of an optional pending word.
pub open spec fn opt_model(p: Option<Vec<char>>) -> Option<Seq<char>> {
    match p {
        Some(v) => Some(v@),
        None => None,
    }
}

/// Appends `s` to `out` with a single separating space, unless `s` is
/// empty or the output ends in an opener character.
fn add_with_space(out: &mut Vec<char>, s: &Vec<char>)
    ensures
        final(out)@ == add_ws_model(old(out)@, s@),
{
    if s.len() == 0 {
        return;
    }
    if out.len() > 0 && !is_opener(out[out.len() - 1]) {
        out.push(' ');
        extend_chars(out, s);
        assert(final(out)@ =~= old(out)@ + seq![' '] + s@);
    } else {
        extend_chars(out, s);
    }
}

/// Appends a replacement to the output, honoring emptiness and the
/// attach-to-previous flag.
fn add_abbrev(out: &mut Vec<char>, a: &Abbreviation)
    ensures
        final(out)@ == add_abbrev_model(old(out)@, a.text@, a.attach_to_previous),
{
    if a.text.as_str().is_empty() {
        return;
    }
    let t = str_to_chars(a.text.as_str());
    if a.attach_to_previous {
        extend_chars(out, &t);
    } else {
        add_with_space(out, &t);
    }
}

/// Appends the abbreviation of `w` if one is known, else `w` itself.
fn abbrev_or_add(ab: &Abbreviator, out: &mut Vec<char>, w: &Vec<char>)
    ensures
        final(out)@ == abbrev_or_add_model(ab@, old(out)@, w@),
{
    let w_str = chars_to_string(w);
    match ab.abbreviate(w_str.as_str()) {
        Some(a) => add_abbrev(out, &a),
        None => add_with_space(out, w),
    }
}

/// Shortens lines of text to a maximum length using a compiled table of
/// abbreviations. Immutable after construction.
pub struct Shortener {
    desired_max_length: usize,
    abbreviator: Abbreviator,
}

impl Shortener {
    /// The maximum length this shortener aims for, in characters.
    pub closed spec fn desired_max(&self) -> int {
        self.desired_max_length as int
    }

    /// The model of the abbreviation rules this shortener applies.
    pub closed spec fn rules(&self) -> AbbrevModel {
        self.abbreviator@
    }

    /// Wraps a compiled abbreviator with a target maximum length.
    pub fn with_abbreviator(desired_max_length: usize, abbreviator: Abbreviator) -> (s: Shortener)
        ensures
            s.desired_max() == desired_max_length as int,
            s.rules() == abbreviator@,
    {
        Shortener { desired_max_length, abbreviator }
    }

    /// Shortens one line of text: a line that already fits is returned
    /// unchanged, a line whose trimmed form fits is returned trimmed, and
    /// any other line goes through the word-walking abbreviation pass.
    pub fn shorten(&self, text: &str) -> (r: String)
        ensures
            r@ == shorten_model(self.rules(), self.desired_max(), text@),
            text@.len() <= self.desired_max() ==> r@ == text@,
            text@.len() > self.desired_max() && trimmed(text@).len() <= self.desired_max()
                ==> r@ == trimmed(text@),
    {
        let n = text.unicode_len();
        if n <= self.desired_max_length {
            return String::from_str(text);
        }
        let chars = str_to_chars(text);
        let tr = trim_chars(&chars);
        if tr.len() <= self.desired_max_length {
            return chars_to_string(&tr);
        }
        let words = split_words(&tr);
        let ghost wsm = words.deep_view();
        let ghost m = self.abbreviator@;
        let mut out: Vec<char> = Vec::new();
        let mut prev: Option<Vec<char>> = None;
        let mut i: usize = 0;
        proof {
            assert(wsm.skip(0) =~~= wsm);
        }
        while i < words.len()
            invariant
                i <= wsm.len(),
                wsm == words.deep_view(),
                wsm.len() == words@.len(),
                m == self.abbreviator@,
                walk(m, wsm.skip(i as int), opt_model(prev), out@) == walk(
                    m,
                    wsm,
                    None,
                    Seq::empty(),
                ),
            decreases wsm.len() - i,
        {
            let ghost prev0 = opt_model(prev);
            let ghost out0 = out@;
            let ghost wv = wsm[i as int];
            proof {
                assert(wsm.skip(i as int)[0] == wsm[i as int]);
                assert(wsm[i as int] == words@[i as int]@);
                assert(wsm.skip(i as int).drop_first() =~~= wsm.skip(i as int + 1));
            }
            let w = &words[i];
            proof {
                assert((*w)@ == wv);
            }
            let e = process_enclosed_word(w);
            if e.is_enclosed() {
                match &prev {
                    Some(p) => abbrev_or_add(&self.abbreviator, &mut out, p),
                    None => {},
                }
                prev = None;
                let ghost out1 = out@;
                proof {
                    assert(out1 == (match prev0 {
                        Some(p) => abbrev_or_add_model(m, out0, p),
                        None => out0,
                    }));
                }
                let w_str = chars_to_string(w);
                match self.abbreviator.abbreviate(w_str.as_str()) {
                    Some(a) => add_abbrev(&mut out, &a),
                    None => {
                        let core_str = chars_to_string(&e.word);
                        match self.abbreviator.abbreviate(core_str.as_str()) {
                            Some(a) => {
                                if !a.text.as_str().is_empty() {
                                    add_with_space(&mut out, &e.openers);
                                    add_abbrev(&mut out, &a);
                                    extend_chars(&mut out, &e.closers);
                                }
                            },
                            None => {
                                add_with_space(&mut out, &e.openers);
                                add_with_space(&mut out, &e.word);
                                extend_chars(&mut out, &e.closers);
                            },
                        }
                    },
                }
                proof {
                    assert(peel_openers(wv).len() > 0 || peel_closers(wv).len() > 0);
                    assert(out@ == enclosed_step(m, out1, wv));
                    assert(walk(m, wsm.skip(i as int), prev0, out0) == walk(
                        m,
                        wsm.skip(i as int + 1),
                        opt_model(prev),
                        out@,
                    ));
                }
            } else {
                proof {
                    assert(peel_openers(wv).len() == 0 && peel_closers(wv).len() == 0);
                }
                match prev {
                    None => {
                        prev = Some(clone_chars(w));
                        proof {
                            assert(opt_model(prev) == Some(wv));
                            assert(walk(m, wsm.skip(i as int), prev0, out0) == walk(
                                m,
                                wsm.skip(i as int + 1),
                                opt_model(prev),
                                out@,
                            ));
                        }
                    },
                    Some(p) => {
                        let mut pair = clone_chars(&p);
                        pair.push(' ');
                        extend_chars(&mut pair, w);
                        proof {
                            assert(pair@ =~= p@ + seq![' '] + wv);
                        }
                        let pair_str = chars_to_string(&pair);
                        match self.abbreviator.abbreviate(pair_str.as_str()) {
                            Some(a) => {
                                add_abbrev(&mut out, &a);
                                prev = None;
                            },
                            None => {
                                abbrev_or_add(&self.abbreviator, &mut out, &p);
                                prev = Some(clone_chars(w));
                            },
                        }
                        proof {
                            assert(walk(m, wsm.skip(i as int), prev0, out0) == walk(
                                m,
                                wsm.skip(i as int + 1),
                                opt_model(prev),
                                out@,
                            ));
                        }
                    },
                }
            }
            i = i + 1;
        }
        proof {
            assert(wsm.skip(wsm.len() as int) =~~= Seq::<Seq<char>>::empty());
        }
        match &prev {
            Some(p) => abbrev_or_add(&self.abbreviator, &mut out, p),
            None => {},
        }
        chars_to_string(&out)
    }
}

} // verus!
