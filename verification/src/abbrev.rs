//! Compiles a set of textual abbreviation rules into matchers and answers
//! whether a given word or phrase has a known abbreviation.
//!
//! A rule line reads `<matcher> = <replacement>`. The matcher is either a
//! literal phrase, matched case-insensitively under a hyphen- and
//! whitespace-normal form, or a `/pattern/flags` regular expression. An empty
//! replacement on a literal matcher marks the phrase for deletion; the prefix
//! `<+` marks the replacement as attaching to the previous output token.
//! Lookup priority is fixed: remove rules, then replace rules, then regular
//! expressions in registration order; for literal rules the last rule with a
//! given normalized key wins.

use vstd::prelude::*;

use crate::text::cap_first;
use crate::text::cap_first_vec;
use crate::text::char_is_lower;
use crate::text::char_is_upper;
use crate::text::chars_to_string;
use crate::text::find_char;
use crate::text::find_idx;
use crate::text::lower_char;
use crate::text::normal;
use crate::text::normalize_text;
use crate::text::str_to_chars;
use crate::text::subvec;
use crate::text::trim_chars;
use crate::text::trimmed;
use crate::text::upper_char;

verus! {

#[verifier::external_type_specification]
#[verifier::external_body]
pub struct ExRegex(regex::Regex);

/// Whether `pattern`, compiled with the given case-insensitivity flag,
/// is accepted by the regex compiler.
pub uninterp spec fn regex_ok(pattern: Seq<char>, case_insensitive: bool) -> bool;

/// Whether the compiled regular expression `pattern` matches anywhere in
/// `text`: what `regex::Regex::is_match` returns, a function of the pattern,
/// its case-insensitivity flag and the text alone.
pub uninterp spec fn regex_match(pattern: Seq<char>, case_insensitive: bool, text: Seq<char>) -> bool;

/// A compiled regular expression, kept together with the pattern text and
/// flag it was compiled from.
pub(crate) struct CompiledRegex {
    pattern: String,
    case_insensitive: bool,
    re: regex::Regex,
}

/// Relies on `regex::RegexBuilder` (`new`, `case_insensitive`, `build`):
/// compilation is a function of the pattern and the flag alone, and succeeds
/// exactly when the pattern is a valid regular expression.
#[verifier::external_body]
fn compile_regex(pattern: &str, case_insensitive: bool) -> (r: Option<CompiledRegex>)
    ensures
        r is Some <==> regex_ok(pattern@, case_insensitive),
        r matches Some(c) ==> c.pattern@ == pattern@ && c.case_insensitive == case_insensitive,
{
    match regex::RegexBuilder::new(pattern).case_insensitive(case_insensitive).build() {
        Ok(re) => Some(CompiledRegex { pattern: pattern.to_string(), case_insensitive, re }),
        Err(_) => None,
    }
}

/// Relies on `regex::Regex::is_match`: whether the pattern matches anywhere
/// in `text`, a function of the pattern, its flags and the text alone.
/// `CompiledRegex` values exist only through `compile_regex`, so `c.re` is
/// the compilation of `c.pattern` under `c.case_insensitive`.
#[verifier::external_body]
fn compiled_is_match(c: &CompiledRegex, text: &str) -> (r: bool)
    ensures
        r == regex_match(c.pattern@, c.case_insensitive, text@),
{
    c.re.is_match(text)
}

/// The replacement data of one compiled rule: the abbreviation text, the
/// optional title-case variant, and the attach-to-previous flag.
pub ghost struct RulePayload {
    pub abbrev: Seq<char>,
    pub title: Option<Seq<char>>,
    pub attach: bool,
}

/// One compiled regular-expression rule.
pub ghost struct RegexModel {
    pub pattern: Seq<char>,
    pub case_insensitive: bool,
    pub payload: RulePayload,
}

/// The mathematical content of an [`Abbreviator`]: replace rules keyed by
/// normalized literal text, remove rules as a set of normalized keys, and
/// regular-expression rules in registration order.
pub ghost struct AbbrevModel {
    pub replace: Map<Seq<char>, RulePayload>,
    pub remove: Set<Seq<char>>,
    pub rex: Seq<RegexModel>,
}

/// The model of an abbreviator with no rules at all.
pub open spec fn empty_model() -> AbbrevModel {
    AbbrevModel { replace: Map::empty(), remove: Set::empty(), rex: Seq::empty() }
}

/// The replacement payload derived from a replacement text and its
/// attach flag: the title-case variant exists exactly when the replacement
/// starts with a lowercase character.
pub open spec fn payload_of(rep: Seq<char>, attach: bool) -> RulePayload {
    RulePayload {
        abbrev: rep,
        title: if rep.len() > 0 && lower_char(rep[0]) {
            Some(cap_first(rep))
        } else {
            None
        },
        attach,
    }
}

/// Adapts a rule's replacement to the case of the matched input: the
/// title-case variant is used exactly when the original input's first
/// character is uppercase and a variant exists.
pub open spec fn adapt(p: RulePayload, text: Seq<char>) -> (Seq<char>, bool) {
    if text.len() > 0 && upper_char(text[0]) && p.title is Some {
        (p.title->0, p.attach)
    } else {
        (p.abbrev, p.attach)
    }
}

/// The first regular-expression rule in `rs` whose pattern matches `text`.
pub open spec fn first_rex_match(rs: Seq<RegexModel>, text: Seq<char>) -> Option<RegexModel>
    decreases rs.len(),
{
    if rs.len() == 0 {
        None
    } else if regex_match(rs[0].pattern, rs[0].case_insensitive, text) {
        Some(rs[0])
    } else {
        first_rex_match(rs.drop_first(), text)
    }
}

/// What `Abbreviator::abbreviate` answers for `text` under model `m`:
/// remove rules first, then replace rules, then regular expressions in
/// order; literal rules are looked up under the normal form of `text`,
/// regular expressions run against the original text.
pub open spec fn lookup_model(m: AbbrevModel, text: Seq<char>) -> Option<(Seq<char>, bool)> {
    let key = normal(text);
    if m.remove.contains(key) {
        Some((Seq::empty(), true))
    } else if m.replace.contains_key(key) {
        Some(adapt(m.replace[key], text))
    } else {
        match first_rex_match(m.rex, text) {
            Some(r) => Some(adapt(r.payload, text)),
            None => None,
        }
    }
}

/// The kind of a rule-compilation failure.
pub enum ParseErrorKind {
    MissingSeparator,
    UnterminatedRegex,
    InvalidRegex,
}

/// The model of a compilation failure: its kind and the offending line,
/// trimmed of surrounding whitespace.
pub ghost struct ParseErrorModel {
    pub kind: ParseErrorKind,
    pub line: Seq<char>,
}

/// A rule line that could not be compiled. Each variant carries the
/// offending line, trimmed of surrounding whitespace.
#[derive(Debug)]
pub enum ParseError {
    /// The line has no `=` separator.
    MissingSeparator { line: String },
    /// A `/`-prefixed matcher has no closing `/`.
    UnterminatedRegex { line: String },
    /// The pattern between the slashes is not a valid regular expression.
    InvalidRegex { line: String },
}

impl ParseError {
    /// The model of this failure.
    pub open spec fn model(&self) -> ParseErrorModel {
        match self {
            ParseError::MissingSeparator { line } => ParseErrorModel {
                kind: ParseErrorKind::MissingSeparator,
                line: line@,
            },
            ParseError::UnterminatedRegex { line } => ParseErrorModel {
                kind: ParseErrorKind::UnterminatedRegex,
                line: line@,
            },
            ParseError::InvalidRegex { line } => ParseErrorModel {
                kind: ParseErrorKind::InvalidRegex,
                line: line@,
            },
        }
    }

    /// The offending rule line, trimmed of surrounding whitespace.
    pub fn line(&self) -> (r: &String)
        ensures
            r@ == self.model().line,
    {
        match self {
            ParseError::MissingSeparator { line } => line,
            ParseError::UnterminatedRegex { line } => line,
            ParseError::InvalidRegex { line } => line,
        }
    }
}

/// The outcome of reading one rule line.
pub ghost enum LineParse {
    /// The line is blank or a comment.
    Skip,
    /// A literal rule under normalized key `key`; an empty replacement
    /// makes it a remove rule.
    Lit { key: Seq<char>, payload: RulePayload },
    /// A regular-expression rule.
    Rex { rule: RegexModel },
    /// The line is malformed.
    Fail { kind: ParseErrorKind },
}

/// How one raw rule line is read: trim it; skip blank lines and comments;
/// split at the first `=`; the trimmed left side is the matcher (a regular
/// expression when it starts with `/`, else a literal indexed under its
/// normal form); the trimmed right side is the replacement, with a leading
/// `<+` marking attach-to-previous.
pub open spec fn parse_line_model(line: Seq<char>) -> LineParse {
    let t = trimmed(line);
    if t.len() == 0 || t[0] == '#' {
        LineParse::Skip
    } else {
        match find_idx(t, '=') {
            None => LineParse::Fail { kind: ParseErrorKind::MissingSeparator },
            Some(i) => {
                let mdef = trimmed(t.take(i));
                let rhs = trimmed(t.skip(i + 1));
                let attach = rhs.len() >= 2 && rhs[0] == '<' && rhs[1] == '+';
                let rep = if attach { rhs.skip(2) } else { rhs };
                if mdef.len() > 0 && mdef[0] == '/' {
                    let inner = mdef.drop_first();
                    match find_idx(inner, '/') {
                        None => LineParse::Fail { kind: ParseErrorKind::UnterminatedRegex },
                        Some(j) => {
                            let pat = inner.take(j);
                            let ci = has_i_flag(inner.skip(j + 1));
                            if regex_ok(pat, ci) {
                                LineParse::Rex {
                                    rule: RegexModel {
                                        pattern: pat,
                                        case_insensitive: ci,
                                        payload: payload_of(rep, attach),
                                    },
                                }
                            } else {
                                LineParse::Fail { kind: ParseErrorKind::InvalidRegex }
                            }
                        },
                    }
                } else {
                    LineParse::Lit { key: normal(mdef), payload: payload_of(rep, attach) }
                }
            },
        }
    }
}

/// Whether the flag characters after a regular expression contain `i`,
/// the only recognized flag; other characters are ignored.
pub open spec fn has_i_flag(flags: Seq<char>) -> bool {
    exists|k: int| 0 <= k < flags.len() && flags[k] == 'i'
}

/// The model after registering one rule line into `m`: a literal rule with
/// an empty replacement moves its key to the remove set, any other literal
/// rule moves it to the replace map (so the last literal rule for a key
/// wins), and regular-expression rules accumulate in order.
pub open spec fn apply_line(m: AbbrevModel, line: Seq<char>) -> Result<AbbrevModel, ParseErrorModel> {
    match parse_line_model(line) {
        LineParse::Skip => Ok(m),
        LineParse::Lit { key, payload } => Ok(
            if payload.abbrev.len() == 0 {
                AbbrevModel {
                    replace: m.replace.remove(key),
                    remove: m.remove.insert(key),
                    rex: m.rex,
                }
            } else {
                AbbrevModel {
                    replace: m.replace.insert(key, payload),
                    remove: m.remove.remove(key),
                    rex: m.rex,
                }
            },
        ),
        LineParse::Rex { rule } => Ok(
            AbbrevModel { replace: m.replace, remove: m.remove, rex: m.rex.push(rule) },
        ),
        LineParse::Fail { kind } => Err(ParseErrorModel { kind, line: trimmed(line) }),
    }
}

/// Folds the rule lines into `m`, stopping at the first malformed line.
pub open spec fn compile_from(m: AbbrevModel, lines: Seq<Seq<char>>) -> Result<
    AbbrevModel,
    ParseErrorModel,
>
    decreases lines.len(),
{
    if lines.len() == 0 {
        Ok(m)
    } else {
        match apply_line(m, lines[0]) {
            Ok(m2) => compile_from(m2, lines.drop_first()),
            Err(e) => Err(e),
        }
    }
}

/// The model compiled from a sequence of raw rule lines, or the first
/// failure.
pub open spec fn compile_model(lines: Seq<Seq<char>>) -> Result<AbbrevModel, ParseErrorModel> {
    compile_from(empty_model(), lines)
}

/// One compiled literal rule; an empty `abbrev` makes it a remove rule.
struct LitRule {
    key: Vec<char>,
    abbrev: Vec<char>,
    title: Option<Vec<char>>,
    attach: bool,
}

/// The model of one literal rule.
ghost struct LitModel {
    key: Seq<char>,
    payload: RulePayload,
}

impl LitRule {
    spec fn model(&self) -> LitModel {
        LitModel {
            key: self.key@,
            payload: RulePayload {
                abbrev: self.abbrev@,
                title: match self.title {
                    Some(t) => Some(t@),
                    None => None,
                },
                attach: self.attach,
            },
        }
    }
}

/// One compiled regular-expression rule.
struct RegexRule {
    matcher: CompiledRegex,
    abbrev: Vec<char>,
    title: Option<Vec<char>>,
    attach: bool,
}

impl RegexRule {
    spec fn model(&self) -> RegexModel {
        RegexModel {
            pattern: self.matcher.pattern@,
            case_insensitive: self.matcher.case_insensitive,
            payload: RulePayload {
                abbrev: self.abbrev@,
                title: match self.title {
                    Some(t) => Some(t@),
                    None => None,
                },
                attach: self.attach,
            },
        }
    }
}

spec fn lit_models(s: Seq<LitRule>) -> Seq<LitModel> {
    s.map_values(|r: LitRule| r.model())
}

spec fn rex_models(s: Seq<RegexRule>) -> Seq<RegexModel> {
    s.map_values(|r: RegexRule| r.model())
}

/// The replace map described by a sequence of literal rules, later rules
/// overriding earlier ones.
spec fn lits_replace(s: Seq<LitModel>) -> Map<Seq<char>, RulePayload>
    decreases s.len(),
{
    if s.len() == 0 {
        Map::empty()
    } else {
        let m = lits_replace(s.drop_last());
        let e = s.last();
        if e.payload.abbrev.len() == 0 {
            m.remove(e.key)
        } else {
            m.insert(e.key, e.payload)
        }
    }
}

/// The remove set described by a sequence of literal rules, later rules
/// overriding earlier ones.
spec fn lits_remove(s: Seq<LitModel>) -> Set<Seq<char>>
    decreases s.len(),
{
    if s.len() == 0 {
        Set::empty()
    } else {
        let m = lits_remove(s.drop_last());
        let e = s.last();
        if e.payload.abbrev.len() == 0 {
            m.insert(e.key)
        } else {
            m.remove(e.key)
        }
    }
}

/// The last literal rule registered under `key`, if any.
spec fn last_lit(s: Seq<LitModel>, key: Seq<char>) -> Option<LitModel>
    decreases s.len(),
{
    if s.len() == 0 {
        None
    } else if s.last().key == key {
        Some(s.last())
    } else {
        last_lit(s.drop_last(), key)
    }
}

/// The last literal rule for a key decides whether the key is a remove key
/// or a replace key, and with which payload.
proof fn lemma_last_lit(s: Seq<LitModel>, key: Seq<char>)
    ensures
        match last_lit(s, key) {
            Some(e) => e.key == key && (if e.payload.abbrev.len() == 0 {
                lits_remove(s).contains(key) && !lits_replace(s).contains_key(key)
            } else {
                !lits_remove(s).contains(key) && lits_replace(s).contains_key(key)
                    && lits_replace(s)[key] == e.payload
            }),
            None => !lits_remove(s).contains(key) && !lits_replace(s).contains_key(key),
        },
    decreases s.len(),
{
    if s.len() > 0 {
        lemma_last_lit(s.drop_last(), key);
    }
}

/// An immutable, queryable collection of compiled abbreviation rules.
pub struct Abbreviator {
    lits: Vec<LitRule>,
    rex: Vec<RegexRule>,
}

impl View for Abbreviator {
    type V = AbbrevModel;

    closed spec fn view(&self) -> AbbrevModel {
        AbbrevModel {
            replace: lits_replace(lit_models(self.lits@)),
            remove: lits_remove(lit_models(self.lits@)),
            rex: rex_models(self.rex@),
        }
    }
}

impl Default for Abbreviator {
    /// An abbreviator with no rules, which matches nothing.
    fn default() -> (r: Abbreviator)
        ensures
            r@ == empty_model(),
    {
        let r = Abbreviator { lits: Vec::new(), rex: Vec::new() };
        proof {
            assert(lit_models(r.lits@) =~= Seq::<LitModel>::empty());
            assert(rex_models(r.rex@) =~= Seq::<RegexModel>::empty());
            assert(r@.replace =~= empty_model().replace);
            assert(r@.remove =~= empty_model().remove);
        }
        r
    }
}

/// Case preservation: a replacement that starts with a non-lowercase
/// character is used literally whatever the case of the matched input; a
/// replacement that starts lowercase gains a title-case variant, used
/// exactly when the matched input's first character is uppercase; the
/// attach-to-previous flag is never affected by case adaptation.
pub proof fn lemma_case_adaptation(rep: Seq<char>, attach: bool, text: Seq<char>)
    ensures
        rep.len() > 0 && !lower_char(rep[0]) ==> adapt(payload_of(rep, attach), text).0 == rep,
        !(text.len() > 0 && upper_char(text[0])) ==> adapt(payload_of(rep, attach), text).0 == rep,
        rep.len() > 0 && lower_char(rep[0]) && text.len() > 0 && upper_char(text[0]) ==> adapt(
            payload_of(rep, attach),
            text,
        ).0 == cap_first(rep),
        adapt(payload_of(rep, attach), text).1 == attach,
{
}

/// An abbreviator with no rules answers no query at all.
pub proof fn lemma_empty_matches_nothing(text: Seq<char>)
    ensures
        lookup_model(empty_model(), text) is None,
{
}

/// Whether the flag characters contain `i`.
fn contains_i(flags: &Vec<char>) -> (r: bool)
    ensures
        r == has_i_flag(flags@),
{
    let mut i: usize = 0;
    while i < flags.len()
        invariant
            i <= flags@.len(),
            forall|j: int| 0 <= j < i ==> flags@[j] != 'i',
        decreases flags@.len() - i,
    {
        if flags[i] == 'i' {
            return true;
        }
        i = i + 1;
    }
    false
}

/// The outcome of reading one raw rule line.
enum LineOutcome {
    Skip,
    Lit(LitRule),
    Rex(RegexRule),
    Fail(ParseError),
}

/// Reads one raw rule line, mirroring [`parse_line_model`].
fn parse_line(line: &str) -> (r: LineOutcome)
    ensures
        match r {
            LineOutcome::Skip => parse_line_model(line@) is Skip,
            LineOutcome::Lit(l) => parse_line_model(line@) == (LineParse::Lit {
                key: l.model().key,
                payload: l.model().payload,
            }),
            LineOutcome::Rex(rr) => parse_line_model(line@) == (LineParse::Rex {
                rule: rr.model(),
            }),
            LineOutcome::Fail(e) => parse_line_model(line@) matches LineParse::Fail { kind }
                && e.model() == (ParseErrorModel { kind, line: trimmed(line@) }),
        },
{
    let lc = str_to_chars(line);
    let t = trim_chars(&lc);
    if t.len() == 0 {
        return LineOutcome::Skip;
    }
    if t[0] == '#' {
        return LineOutcome::Skip;
    }
    let eq = match find_char(&t, '=') {
        None => {
            return LineOutcome::Fail(ParseError::MissingSeparator { line: chars_to_string(&t) });
        },
        Some(i) => i,
    };
    let ghost tm = trimmed(line@);
    proof {
        crate::text::lemma_find_idx_some(tm, '=');
    }
    let mdef_raw = subvec(&t, 0, eq);
    let mdef = trim_chars(&mdef_raw);
    proof {
        assert(mdef_raw@ =~= tm.take(eq as int));
    }
    let rhs_raw = subvec(&t, eq + 1, t.len());
    let rhs = trim_chars(&rhs_raw);
    proof {
        assert(rhs_raw@ =~= tm.skip(eq as int + 1));
    }
    let attach = rhs.len() >= 2 && rhs[0] == '<' && rhs[1] == '+';
    let rep = if attach {
        subvec(&rhs, 2, rhs.len())
    } else {
        subvec(&rhs, 0, rhs.len())
    };
    proof {
        if attach {
            assert(rep@ =~= trimmed(tm.skip(eq as int + 1)).skip(2));
        } else {
            assert(rep@ =~= trimmed(tm.skip(eq as int + 1)));
        }
    }
    let title: Option<Vec<char>> = if rep.len() > 0 && char_is_lower(rep[0]) {
        Some(cap_first_vec(&rep))
    } else {
        None
    };
    let ghost pl = payload_of(rep@, attach);
    proof {
        assert(pl.abbrev == rep@);
        match title {
            Some(ref tv) => assert(pl.title == Some(tv@)),
            None => assert(pl.title is None),
        }
    }
    if mdef.len() > 0 && mdef[0] == '/' {
        let inner = subvec(&mdef, 1, mdef.len());
        proof {
            assert(inner@ =~= trimmed(tm.take(eq as int)).drop_first());
        }
        let close = match find_char(&inner, '/') {
            None => {
                return LineOutcome::Fail(
                    ParseError::UnterminatedRegex { line: chars_to_string(&t) },
                );
            },
            Some(j) => j,
        };
        proof {
            crate::text::lemma_find_idx_some(inner@, '/');
        }
        let pat = subvec(&inner, 0, close);
        let flags = subvec(&inner, close + 1, inner.len());
        proof {
            assert(pat@ =~= inner@.take(close as int));
            assert(flags@ =~= inner@.skip(close as int + 1));
        }
        let ci = contains_i(&flags);
        let pat_s = chars_to_string(&pat);
        match compile_regex(pat_s.as_str(), ci) {
            None => LineOutcome::Fail(ParseError::InvalidRegex { line: chars_to_string(&t) }),
            Some(c) => LineOutcome::Rex(RegexRule { matcher: c, abbrev: rep, title, attach }),
        }
    } else {
        let mdef_s = chars_to_string(&mdef);
        let key = normalize_text(mdef_s.as_str());
        LineOutcome::Lit(LitRule { key, abbrev: rep, title, attach })
    }
}

/// The model described by the two rule vectors.
spec fn vecs_model(lits: Seq<LitRule>, rex: Seq<RegexRule>) -> AbbrevModel {
    AbbrevModel {
        replace: lits_replace(lit_models(lits)),
        remove: lits_remove(lit_models(lits)),
        rex: rex_models(rex),
    }
}

/// Splitting the fold over the rule lines at position `i`.
proof fn lemma_compile_split(m0: AbbrevModel, s: Seq<Seq<char>>, i: int)
    requires
        0 <= i <= s.len(),
    ensures
        compile_from(m0, s) == (match compile_from(m0, s.take(i)) {
            Ok(m) => compile_from(m, s.skip(i)),
            Err(e) => Err::<AbbrevModel, ParseErrorModel>(e),
        }),
    decreases i,
{
    if i == 0 {
        assert(s.take(0) =~~= Seq::<Seq<char>>::empty());
        assert(s.skip(0) =~~= s);
    } else {
        assert(s.take(i)[0] == s[0]);
        match apply_line(m0, s[0]) {
            Ok(m1) => {
                lemma_compile_split(m1, s.drop_first(), i - 1);
                assert(s.take(i).drop_first() =~~= s.drop_first().take(i - 1));
                assert(s.skip(i) =~~= s.drop_first().skip(i - 1));
            },
            Err(e) => {},
        }
    }
}

/// Extending the fold over the rule lines by one line.
proof fn lemma_compile_snoc(m0: AbbrevModel, s: Seq<Seq<char>>, i: int)
    requires
        0 <= i < s.len(),
    ensures
        compile_from(m0, s.take(i + 1)) == (match compile_from(m0, s.take(i)) {
            Ok(m) => apply_line(m, s[i]),
            Err(e) => Err::<AbbrevModel, ParseErrorModel>(e),
        }),
{
    lemma_compile_split(m0, s.take(i + 1), i);
    assert(s.take(i + 1).take(i) =~~= s.take(i));
    let one = s.take(i + 1).skip(i);
    assert(one =~~= seq![s[i]]);
    assert(one.len() == 1);
    assert(one[0] == s[i]);
    match compile_from(m0, s.take(i)) {
        Ok(m) => {
            match apply_line(m, s[i]) {
                Ok(m2) => {
                    assert(one.drop_first().len() == 0);
                    assert(compile_from(m2, one.drop_first()) == Ok::<
                        AbbrevModel,
                        ParseErrorModel,
                    >(m2));
                    assert(compile_from(m, one) == Ok::<AbbrevModel, ParseErrorModel>(m2));
                },
                Err(e) => {
                    assert(compile_from(m, one) == Err::<AbbrevModel, ParseErrorModel>(e));
                },
            }
        },
        Err(e) => {},
    }
}

/// Answers whether the first character of `text` is uppercase.
fn first_char_upper(text: &str) -> (r: bool)
    ensures
        r == (text@.len() > 0 && upper_char(text@[0])),
{
    if text.unicode_len() == 0 {
        false
    } else {
        char_is_upper(text.get_char(0))
    }
}

/// The answer to an abbreviation query: the replacement text (possibly
/// empty, meaning the matched text is deleted) and whether it attaches to
/// the previous output token without a separating space.
pub struct Abbreviation {
    pub text: String,
    pub attach_to_previous: bool,
}

impl Abbreviator {
    /// Compiles an abbreviator from raw rule lines; fails on the first
    /// malformed line. Blank lines and `#` comments are ignored; later
    /// literal rules override earlier ones with the same normalized key.
    pub fn from_lines(lines: &Vec<String>) -> (r: Result<Abbreviator, ParseError>)
        ensures
            match r {
                Ok(a) => compile_model(lines.deep_view()) matches Ok(m) && a@ == m,
                Err(e) => compile_model(lines.deep_view()) matches Err(m) && e.model() == m,
            },
    {
        let ghost lsm = lines.deep_view();
        let mut lits: Vec<LitRule> = Vec::new();
        let mut rex: Vec<RegexRule> = Vec::new();
        let mut i: usize = 0;
        proof {
            assert(lsm.take(0) =~= Seq::<Seq<char>>::empty());
            assert(lit_models(lits@) =~= Seq::<LitModel>::empty());
            assert(rex_models(rex@) =~= Seq::<RegexModel>::empty());
        }
        while i < lines.len()
            invariant
                i <= lsm.len(),
                lsm == lines.deep_view(),
                lsm.len() == lines@.len(),
                compile_from(empty_model(), lsm.take(i as int)) == Ok::<
                    AbbrevModel,
                    ParseErrorModel,
                >(vecs_model(lits@, rex@)),
            decreases lsm.len() - i,
        {
            let ghost pre = vecs_model(lits@, rex@);
            let ghost pre_lits = lit_models(lits@);
            let ghost pre_rex = rex_models(rex@);
            proof {
                assert(lsm[i as int] == lines@[i as int]@);
                lemma_compile_snoc(empty_model(), lsm, i as int);
            }
            let out = parse_line(lines[i].as_str());
            match out {
                LineOutcome::Skip => {},
                LineOutcome::Lit(l) => {
                    let ghost lm = l.model();
                    lits.push(l);
                    proof {
                        assert(lit_models(lits@) =~= pre_lits.push(lm));
                        assert(lit_models(lits@).drop_last() =~= pre_lits);
                        assert(lit_models(lits@).last() == lm);
                    }
                },
                LineOutcome::Rex(rr) => {
                    let ghost rm = rr.model();
                    rex.push(rr);
                    proof {
                        assert(rex_models(rex@) =~= pre_rex.push(rm));
                        assert(rex_models(rex@) == pre.rex.push(rm));
                    }
                },
                LineOutcome::Fail(e) => {
                    proof {
                        lemma_compile_split(empty_model(), lsm, i as int + 1);
                        assert(compile_model(lines.deep_view()) == Err::<
                            AbbrevModel,
                            ParseErrorModel,
                        >(e.model()));
                    }
                    return Err(e);
                },
            }
            i = i + 1;
        }
        proof {
            assert(lsm.take(lsm.len() as int) =~= lsm);
        }
        Ok(Abbreviator { lits, rex })
    }

    /// Answers whether `text` (a word or two-word phrase) has a known
    /// abbreviation. Remove rules answer an empty, attaching replacement;
    /// replace rules answer their case-adapted replacement; otherwise the
    /// first matching regular-expression rule answers; otherwise nothing,
    /// and the caller leaves the text unchanged.
    pub fn abbreviate(&self, text: &str) -> (r: Option<Abbreviation>)
        ensures
            match r {
                Some(a) => lookup_model(self@, text@) == Some((a.text@, a.attach_to_previous)),
                None => lookup_model(self@, text@) is None,
            },
    {
        let key = normalize_text(text);
        let ghost litsm = lit_models(self.lits@);
        let ghost k = normal(text@);
        let mut i: usize = self.lits.len();
        proof {
            assert(litsm.take(litsm.len() as int) =~= litsm);
        }
        while i > 0
            invariant
                i <= litsm.len(),
                litsm == lit_models(self.lits@),
                litsm.len() == self.lits@.len(),
                k == normal(text@),
                key@ == k,
                last_lit(litsm.take(i as int), k) == last_lit(litsm, k),
            decreases i,
        {
            i = i - 1;
            proof {
                assert(litsm.take(i as int + 1).last() == litsm[i as int]);
                assert(litsm[i as int] == self.lits@[i as int].model());
                assert(litsm.take(i as int + 1).drop_last() =~= litsm.take(i as int));
            }
            let e = &self.lits[i];
            if chars_eq(&e.key, &key) {
                proof {
                    lemma_last_lit(litsm, k);
                }
                if e.abbrev.len() == 0 {
                    return Some(Abbreviation { text: String::new(), attach_to_previous: true });
                } else {
                    let up = first_char_upper(text);
                    let chosen: &Vec<char> = if up {
                        match &e.title {
                            Some(tv) => tv,
                            None => &e.abbrev,
                        }
                    } else {
                        &e.abbrev
                    };
                    let out_text = chars_to_string(chosen);
                    return Some(Abbreviation { text: out_text, attach_to_previous: e.attach });
                }
            }
        }
        proof {
            assert(litsm.take(0) =~= Seq::<LitModel>::empty());
            lemma_last_lit(litsm, k);
        }
        let ghost rexm = rex_models(self.rex@);
        let mut j: usize = 0;
        proof {
            assert(rexm.skip(0) =~= rexm);
        }
        while j < self.rex.len()
            invariant
                j <= rexm.len(),
                rexm == rex_models(self.rex@),
                rexm.len() == self.rex@.len(),
                k == normal(text@),
                !self@.remove.contains(k),
                !self@.replace.contains_key(k),
                first_rex_match(rexm.skip(j as int), text@) == first_rex_match(rexm, text@),
            decreases rexm.len() - j,
        {
            proof {
                assert(rexm.skip(j as int)[0] == rexm[j as int]);
                assert(rexm[j as int] == self.rex@[j as int].model());
                assert(rexm.skip(j as int).drop_first() =~= rexm.skip(j as int + 1));
            }
            let rr = &self.rex[j];
            if compiled_is_match(&rr.matcher, text) {
                let up = first_char_upper(text);
                let chosen: &Vec<char> = if up {
                    match &rr.title {
                        Some(tv) => tv,
                        None => &rr.abbrev,
                    }
                } else {
                    &rr.abbrev
                };
                let out_text = chars_to_string(chosen);
                return Some(Abbreviation { text: out_text, attach_to_previous: rr.attach });
            }
            j = j + 1;
        }
        proof {
            assert(rexm.skip(rexm.len() as int) =~= Seq::<RegexModel>::empty());
        }
        None
    }
}

/// Compares two character vectors for equality of their contents.
fn chars_eq(a: &Vec<char>, b: &Vec<char>) -> (r: bool)
    ensures
        r == (a@ == b@),
{
    if a.len() != b.len() {
        return false;
    }
    let mut i: usize = 0;
    while i < a.len()
        invariant
            i <= a@.len(),
            a@.len() == b@.len(),
            forall|j: int| 0 <= j < i ==> a@[j] == b@[j],
        decreases a@.len() - i,
    {
        if a[i] != b[i] {
            return false;
        }
        i = i + 1;
    }
    assert(a@ =~= b@);
    true
}

} // verus!
