//! Character classes and sequence helpers shared by the abbreviation matcher
//! and the shortener: Unicode character predicates, lowercasing, whitespace
//! splitting and trimming, and conversions between `&str` and `Vec<char>`.

use vstd::prelude::*;
use vstd::string::StrSliceExecFns;

verus! {

/// Holds of the characters that open an enclosure around a word.
pub open spec fn opener(c: char) -> bool {
    c == '(' || c == '[' || c == '{' || c == '<' || c == '"' || c == '*'
}

/// Holds of the characters that close an enclosure around a word.
pub open spec fn closer(c: char) -> bool {
    c == ')' || c == ']' || c == '}' || c == '>' || c == '"' || c == '*'
}

pub fn is_opener(c: char) -> (r: bool)
    ensures
        r == opener(c),
{
    c == '(' || c == '[' || c == '{' || c == '<' || c == '"' || c == '*'
}

pub fn is_closer(c: char) -> (r: bool)
    ensures
        r == closer(c),
{
    c == ')' || c == ']' || c == '}' || c == '>' || c == '"' || c == '*'
}

/// Whether `char::is_whitespace` holds of `c` (the Unicode `White_Space` property).
pub uninterp spec fn space_char(c: char) -> bool;

/// Relies on `char::is_whitespace`: true exactly for characters with the
/// Unicode `White_Space` property, a function of the character alone.
#[verifier::external_body]
pub fn char_is_space(c: char) -> (r: bool)
    ensures
        r == space_char(c),
{
    c.is_whitespace()
}

/// Whether `char::is_uppercase` holds of `c` (the Unicode `Uppercase` property).
pub uninterp spec fn upper_char(c: char) -> bool;

/// Relies on `char::is_uppercase`: true exactly for characters with the
/// Unicode `Uppercase` property, a function of the character alone.
#[verifier::external_body]
pub fn char_is_upper(c: char) -> (r: bool)
    ensures
        r == upper_char(c),
{
    c.is_uppercase()
}

/// Whether `char::is_lowercase` holds of `c` (the Unicode `Lowercase` property).
pub uninterp spec fn lower_char(c: char) -> bool;

/// Relies on `char::is_lowercase`: true exactly for characters with the
/// Unicode `Lowercase` property, a function of the character alone.
#[verifier::external_body]
pub fn char_is_lower(c: char) -> (r: bool)
    ensures
        r == lower_char(c),
{
    c.is_lowercase()
}

/// The sequence of characters that `str::to_lowercase` yields for `s`:
/// the Unicode lowercase mapping, a function of the characters alone.
pub uninterp spec fn lower_of(s: Seq<char>) -> Seq<char>;

/// Relies on `str::to_lowercase`: the result depends on the characters alone.
#[verifier::external_body]
pub fn lowercase(s: &str) -> (r: String)
    ensures
        r@ == lower_of(s@),
{
    s.to_lowercase()
}

/// Relies on `String::push`: appends one character to the end of the string.
#[verifier::external_body]
pub fn push_char(s: &mut String, c: char)
    ensures
        final(s)@ == old(s)@ + seq![c],
{
    s.push(c)
}

/// Copies the characters of a string slice into a vector.
pub fn str_to_chars(s: &str) -> (v: Vec<char>)
    ensures
        v@ == s@,
{
    let n = s.unicode_len();
    let mut v: Vec<char> = Vec::new();
    let mut i: usize = 0;
    while i < n
        invariant
            i <= n,
            n == s@.len(),
            v@ == s@.take(i as int),
        decreases n - i,
    {
        v.push(s.get_char(i));
        i = i + 1;
        assert(v@ =~= s@.take(i as int));
    }
    assert(v@ =~= s@);
    v
}

/// Appends the characters of `s` to the end of `out`.
pub fn extend_chars(out: &mut Vec<char>, s: &Vec<char>)
    ensures
        final(out)@ == old(out)@ + s@,
{
    let mut i: usize = 0;
    while i < s.len()
        invariant
            i <= s@.len(),
            out@ == old(out)@ + s@.take(i as int),
        decreases s@.len() - i,
    {
        out.push(s[i]);
        i = i + 1;
        assert(out@ =~= old(out)@ + s@.take(i as int));
    }
    assert(old(out)@ + s@.take(s@.len() as int) =~= old(out)@ + s@);
}

/// Copies the characters of `v` with indices in `a..b` into a fresh vector.
pub fn subvec(v: &Vec<char>, a: usize, b: usize) -> (r: Vec<char>)
    requires
        a <= b <= v@.len(),
    ensures
        r@ == v@.subrange(a as int, b as int),
{
    let mut r: Vec<char> = Vec::new();
    let mut i: usize = a;
    while i < b
        invariant
            a <= i <= b <= v@.len(),
            r@ == v@.subrange(a as int, i as int),
        decreases b - i,
    {
        r.push(v[i]);
        i = i + 1;
        assert(r@ =~= v@.subrange(a as int, i as int));
    }
    r
}

/// Copies a vector of characters.
pub fn clone_chars(v: &Vec<char>) -> (r: Vec<char>)
    ensures
        r@ == v@,
{
    let r = subvec(v, 0, v.len());
    assert(v@.subrange(0, v@.len() as int) =~= v@);
    r
}

/// Builds an owned string out of a vector of characters.
pub fn chars_to_string(v: &Vec<char>) -> (s: String)
    ensures
        s@ == v@,
{
    let mut s = String::new();
    let mut i: usize = 0;
    while i < v.len()
        invariant
            i <= v@.len(),
            s@ == v@.take(i as int),
        decreases v@.len() - i,
    {
        push_char(&mut s, v[i]);
        i = i + 1;
        assert(s@ =~= v@.take(i as int));
    }
    assert(s@ =~= v@);
    s
}

/// `s` with leading whitespace removed.
pub open spec fn trim_front(s: Seq<char>) -> Seq<char>
    decreases s.len(),
{
    if s.len() > 0 && space_char(s[0]) {
        trim_front(s.drop_first())
    } else {
        s
    }
}

/// `s` with trailing whitespace removed.
pub open spec fn trim_back(s: Seq<char>) -> Seq<char>
    decreases s.len(),
{
    if s.len() > 0 && space_char(s.last()) {
        trim_back(s.drop_last())
    } else {
        s
    }
}

/// `s` with leading and trailing whitespace removed, as `str::trim` yields it.
pub open spec fn trimmed(s: Seq<char>) -> Seq<char> {
    trim_back(trim_front(s))
}

/// Removes leading and trailing whitespace from a vector of characters.
pub fn trim_chars(v: &Vec<char>) -> (r: Vec<char>)
    ensures
        r@ == trimmed(v@),
{
    let mut a: usize = 0;
    proof {
        assert(v@.skip(0) =~= v@);
    }
    while a < v.len() && char_is_space(v[a])
        invariant
            a <= v@.len(),
            trim_front(v@.skip(a as int)) == trim_front(v@),
        decreases v@.len() - a,
    {
        proof {
            assert(v@.skip(a as int)[0] == v@[a as int]);
            assert(v@.skip(a as int).drop_first() =~= v@.skip(a as int + 1));
        }
        a = a + 1;
    }
    proof {
        if a < v@.len() {
            assert(v@.skip(a as int)[0] == v@[a as int]);
            assert(trim_front(v@) == v@.skip(a as int));
        } else {
            assert(v@.skip(a as int) =~= Seq::<char>::empty());
            assert(trim_front(v@) == v@.skip(a as int));
        }
    }
    let mut b: usize = v.len();
    proof {
        assert(v@.subrange(a as int, v@.len() as int) =~= v@.skip(a as int));
    }
    while b > a && char_is_space(v[b - 1])
        invariant
            a <= b <= v@.len(),
            trim_back(v@.subrange(a as int, b as int)) == trim_back(v@.skip(a as int)),
        decreases b,
    {
        proof {
            let s = v@.subrange(a as int, b as int);
            assert(s.last() == v@[b - 1]);
            assert(s.drop_last() =~= v@.subrange(a as int, b as int - 1));
        }
        b = b - 1;
    }
    proof {
        let s = v@.subrange(a as int, b as int);
        if b > a {
            assert(s.last() == v@[b - 1]);
            assert(trim_back(s) == s);
        } else {
            assert(s =~= Seq::<char>::empty());
            assert(trim_back(s) == s);
        }
    }
    subvec(v, a, b)
}

/// Splits a character stream into whitespace-delimited words, carrying the
/// words collected so far in `acc` and the partially read word in `cur`.
pub open spec fn words_app(acc: Seq<Seq<char>>, cur: Seq<char>, s: Seq<char>) -> Seq<Seq<char>>
    decreases s.len(),
{
    if s.len() == 0 {
        if cur.len() == 0 {
            acc
        } else {
            acc.push(cur)
        }
    } else if space_char(s[0]) {
        words_app(if cur.len() == 0 { acc } else { acc.push(cur) }, Seq::empty(), s.drop_first())
    } else {
        words_app(acc, cur.push(s[0]), s.drop_first())
    }
}

/// The whitespace-delimited words of `s`, in order, each one non-empty,
/// as `str::split_whitespace` yields them.
pub open spec fn words_of(s: Seq<char>) -> Seq<Seq<char>> {
    words_app(Seq::empty(), Seq::empty(), s)
}

/// Splits a vector of characters into its whitespace-delimited words.
pub fn split_words(v: &Vec<char>) -> (ws: Vec<Vec<char>>)
    ensures
        ws.deep_view() == words_of(v@),
{
    let mut ws: Vec<Vec<char>> = Vec::new();
    let mut cur: Vec<char> = Vec::new();
    let mut i: usize = 0;
    proof {
        assert(v@.skip(0) =~= v@);
        assert(ws.deep_view() =~~= Seq::<Seq<char>>::empty());
    }
    while i < v.len()
        invariant
            i <= v@.len(),
            words_app(ws.deep_view(), cur@, v@.skip(i as int)) == words_of(v@),
        decreases v@.len() - i,
    {
        let ghost pre_ws = ws.deep_view();
        let ghost pre_cur = cur@;
        proof {
            assert(v@.skip(i as int)[0] == v@[i as int]);
            assert(v@.skip(i as int).drop_first() =~= v@.skip(i as int + 1));
        }
        let c = v[i];
        if char_is_space(c) {
            if cur.len() > 0 {
                ws.push(cur);
                cur = Vec::new();
                proof {
                    assert(ws.deep_view() =~~= pre_ws.push(pre_cur));
                }
            } else {
                proof {
                    assert(cur@ =~= Seq::<char>::empty());
                }
            }
        } else {
            cur.push(c);
        }
        i = i + 1;
    }
    proof {
        assert(v@.skip(v@.len() as int) =~= Seq::<char>::empty());
    }
    if cur.len() > 0 {
        let ghost pre_ws = ws.deep_view();
        let ghost pre_cur = cur@;
        ws.push(cur);
        proof {
            assert(ws.deep_view() =~~= pre_ws.push(pre_cur));
        }
    }
    ws
}

/// Joins a sequence of words with single spaces.
pub open spec fn join_words(ws: Seq<Seq<char>>) -> Seq<char>
    decreases ws.len(),
{
    if ws.len() == 0 {
        Seq::empty()
    } else if ws.len() == 1 {
        ws[0]
    } else {
        join_words(ws.drop_last()) + seq![' '] + ws.last()
    }
}

/// Joins words with single spaces into one vector of characters.
pub fn join_words_exec(ws: &Vec<Vec<char>>) -> (r: Vec<char>)
    ensures
        r@ == join_words(ws.deep_view()),
{
    let mut r: Vec<char> = Vec::new();
    let mut i: usize = 0;
    while i < ws.len()
        invariant
            i <= ws@.len(),
            r@ == join_words(ws.deep_view().take(i as int)),
        decreases ws@.len() - i,
    {
        let ghost dv = ws.deep_view();
        if i > 0 {
            r.push(' ');
        }
        extend_chars(&mut r, &ws[i]);
        proof {
            assert(dv.take(i as int + 1).drop_last() =~= dv.take(i as int));
            assert(dv.take(i as int + 1).last() == dv[i as int]);
            if i == 0 {
                assert(r@ =~= dv.take(1)[0]);
            } else {
                assert(r@ =~= join_words(dv.take(i as int)) + seq![' '] + dv[i as int]);
            }
        }
        i = i + 1;
    }
    proof {
        assert(ws.deep_view().take(ws@.len() as int) =~= ws.deep_view());
    }
    r
}

/// `s` with every hyphen replaced by a space.
pub open spec fn dehyphened(s: Seq<char>) -> Seq<char> {
    s.map_values(|c: char| if c == '-' { ' ' } else { c })
}

/// Replaces every hyphen in `v` by a space.
pub fn dehyphen(v: &Vec<char>) -> (r: Vec<char>)
    ensures
        r@ == dehyphened(v@),
{
    let mut r: Vec<char> = Vec::new();
    let mut i: usize = 0;
    while i < v.len()
        invariant
            i <= v@.len(),
            r@ == dehyphened(v@.take(i as int)),
        decreases v@.len() - i,
    {
        let c = v[i];
        r.push(if c == '-' { ' ' } else { c });
        i = i + 1;
        assert(r@ =~= dehyphened(v@.take(i as int)));
    }
    assert(v@.take(v@.len() as int) =~= v@);
    r
}

/// The normal form under which literal matchers are indexed and queried:
/// lowercased, hyphens treated as spaces, whitespace runs collapsed to
/// single spaces, no leading or trailing whitespace.
pub open spec fn normal(s: Seq<char>) -> Seq<char> {
    join_words(words_of(dehyphened(lower_of(s))))
}

/// Normalizes `text` as literal matchers are normalized at load time.
pub fn normalize_text(text: &str) -> (r: Vec<char>)
    ensures
        r@ == normal(text@),
{
    let low = lowercase(text);
    let lowc = str_to_chars(low.as_str());
    let deh = dehyphen(&lowc);
    let ws = split_words(&deh);
    join_words_exec(&ws)
}

/// The ASCII-uppercase counterpart of `c`: `a`..`z` map to `A`..`Z`,
/// every other character is unchanged.
pub open spec fn cap_char(c: char) -> char {
    if c == 'a' { 'A' } else if c == 'b' { 'B' } else if c == 'c' { 'C' }
    else if c == 'd' { 'D' } else if c == 'e' { 'E' } else if c == 'f' { 'F' }
    else if c == 'g' { 'G' } else if c == 'h' { 'H' } else if c == 'i' { 'I' }
    else if c == 'j' { 'J' } else if c == 'k' { 'K' } else if c == 'l' { 'L' }
    else if c == 'm' { 'M' } else if c == 'n' { 'N' } else if c == 'o' { 'O' }
    else if c == 'p' { 'P' } else if c == 'q' { 'Q' } else if c == 'r' { 'R' }
    else if c == 's' { 'S' } else if c == 't' { 'T' } else if c == 'u' { 'U' }
    else if c == 'v' { 'V' } else if c == 'w' { 'W' } else if c == 'x' { 'X' }
    else if c == 'y' { 'Y' } else if c == 'z' { 'Z' } else { c }
}

pub fn cap_char_exec(c: char) -> (r: char)
    ensures
        r == cap_char(c),
{
    if c == 'a' { 'A' } else if c == 'b' { 'B' } else if c == 'c' { 'C' }
    else if c == 'd' { 'D' } else if c == 'e' { 'E' } else if c == 'f' { 'F' }
    else if c == 'g' { 'G' } else if c == 'h' { 'H' } else if c == 'i' { 'I' }
    else if c == 'j' { 'J' } else if c == 'k' { 'K' } else if c == 'l' { 'L' }
    else if c == 'm' { 'M' } else if c == 'n' { 'N' } else if c == 'o' { 'O' }
    else if c == 'p' { 'P' } else if c == 'q' { 'Q' } else if c == 'r' { 'R' }
    else if c == 's' { 'S' } else if c == 't' { 'T' } else if c == 'u' { 'U' }
    else if c == 'v' { 'V' } else if c == 'w' { 'W' } else if c == 'x' { 'X' }
    else if c == 'y' { 'Y' } else if c == 'z' { 'Z' } else { c }
}

/// `s` with its first character ASCII-capitalized.
pub open spec fn cap_first(s: Seq<char>) -> Seq<char> {
    if s.len() == 0 {
        s
    } else {
        seq![cap_char(s[0])] + s.drop_first()
    }
}

/// Capitalizes the first character of `v`, if it is an ASCII lowercase letter.
pub fn cap_first_vec(v: &Vec<char>) -> (r: Vec<char>)
    ensures
        r@ == cap_first(v@),
{
    if v.len() == 0 {
        let r: Vec<char> = Vec::new();
        assert(r@ =~= cap_first(v@));
        return r;
    }
    let mut r: Vec<char> = Vec::new();
    r.push(cap_char_exec(v[0]));
    let rest = subvec(v, 1, v.len());
    extend_chars(&mut r, &rest);
    assert(r@ =~= cap_first(v@));
    r
}

/// The index of the first occurrence of `c` in `s`, if any.
pub open spec fn find_idx(s: Seq<char>, c: char) -> Option<int>
    decreases s.len(),
{
    if s.len() == 0 {
        None
    } else if s[0] == c {
        Some(0)
    } else {
        match find_idx(s.drop_first(), c) {
            Some(i) => Some(i + 1),
            None => None,
        }
    }
}

/// A found index lies in range and carries the sought character.
pub proof fn lemma_find_idx_some(s: Seq<char>, c: char)
    ensures
        find_idx(s, c) matches Some(i) ==> 0 <= i < s.len() && s[i] == c,
    decreases s.len(),
{
    if s.len() > 0 {
        lemma_find_idx_some(s.drop_first(), c);
    }
}

/// Finds the first occurrence of `c` in `v`.
pub fn find_char(v: &Vec<char>, c: char) -> (r: Option<usize>)
    ensures
        match r {
            Some(i) => find_idx(v@, c) == Some(i as int),
            None => find_idx(v@, c) is None,
        },
{
    let mut i: usize = 0;
    proof {
        assert(v@.skip(0) =~= v@);
    }
    while i < v.len()
        invariant
            i <= v@.len(),
            find_idx(v@.skip(i as int), c) matches Some(j) ==> find_idx(v@, c) == Some(j + i),
            find_idx(v@.skip(i as int), c) is None ==> find_idx(v@, c) is None,
        decreases v@.len() - i,
    {
        proof {
            assert(v@.skip(i as int)[0] == v@[i as int]);
            assert(v@.skip(i as int).drop_first() =~= v@.skip(i as int + 1));
        }
        if v[i] == c {
            return Some(i);
        }
        i = i + 1;
    }
    proof {
        assert(v@.skip(v@.len() as int) =~= Seq::<char>::empty());
    }
    None
}

} // verus!
