//! Rules that exclude packages from a resolve: by release time, by name
//! pattern, and lists of such rules.
use vstd::prelude::*;
use crate::version::{RerVersion, version_text};
use crate::version_order::VersionModel;
use crate::package_id::{decimal, decimal_text};
use crate::text::{chars_of, string_from_chars, str_concat};

verus! {

/// A rule that excludes packages from a resolve: it answers the reason
/// for excluding a package, or `None` to let it through.
pub trait PackageFilter: Send + Sync {
    /// The reason the rule gives to exclude the package named `name` at
    /// `version`, released at `timestamp`, or `None`.
    spec fn exclusion(&self, name: Seq<char>, version: VersionModel, timestamp: Option<u64>) -> Option<Seq<char>>;

    /// The reason to exclude the package, or `None`.
    fn excludes(&self, name: &str, version: &RerVersion, timestamp: Option<u64>) -> (r: Option<String>)
        ensures
            opt_string(r) == self.exclusion(name@, version@, timestamp),
    ;
}

/// The text of an optional string.
pub open spec fn opt_string(r: Option<String>) -> Option<Seq<char>> {
    match r {
        Some(s) => Some(s@),
        None => None,
    }
}

/// The reason text of the release-time rule.
pub open spec fn timestamp_reason(name: Seq<char>, version: Seq<char>, ts: u64, before: u64) -> Seq<char> {
    seq!['e', 'x', 'c', 'l', 'u', 'd', 'e', 'd', ' ', 'b', 'y', ' ', 't', 'i', 'm', 'e', 's', 't', 'a', 'm', 'p', ' ', 'f', 'i', 'l', 't', 'e', 'r', ':', ' ']
        + name + seq!['/'] + version + seq![' ', 't', 'i', 'm', 'e', 's', 't', 'a', 'm', 'p', ' ']
        + decimal(ts as nat) + seq![' ', '<', ' '] + decimal(before as nat)
}

/// Appends the characters of `s`.
fn push_all(out: &mut Vec<char>, s: &[char])
    ensures
        final(out)@ == old(out)@ + s@,
{
    let mut i: usize = 0;
    while i < s.len()
        invariant
            i <= s@.len(),
            out@ == old(out)@ + s@.take(i as int),
        decreases s.len() - i,
    {
        out.push(s[i]);
        i = i + 1;
        assert(out@ =~= old(out)@ + s@.take(i as int));
    }
    assert(s@.take(i as int) =~= s@);
}

/// Excludes the packages released before a point in time (a Unix
/// timestamp); a package without a release time is let through.
#[derive(Debug, Clone, Copy)]
pub struct TimestampFilter {
    /// Packages released before this time are excluded.
    pub before: u64,
}

impl PackageFilter for TimestampFilter {
    open spec fn exclusion(&self, name: Seq<char>, version: VersionModel, timestamp: Option<u64>) -> Option<Seq<char>> {
        match timestamp {
            Some(ts) => if ts < self.before {
                Some(timestamp_reason(name, version_text(version), ts, self.before))
            } else {
                None
            },
            None => None,
        }
    }

    fn excludes(&self, name: &str, version: &RerVersion, timestamp: Option<u64>) -> (r: Option<String>)
        ensures
            r is Some <==> (timestamp matches Some(ts) && ts < self.before),
            r matches Some(reason) ==> reason@ == timestamp_reason(
                name@,
                version_text(version@),
                timestamp.unwrap(),
                self.before,
            ),
    {
        match timestamp {
            Some(ts) => {
                if ts < self.before {
                    let mut out: Vec<char> = Vec::new();
                    let head = vec![
                        'e', 'x', 'c', 'l', 'u', 'd', 'e', 'd', ' ', 'b', 'y', ' ', 't', 'i', 'm', 'e',
                        's', 't', 'a', 'm', 'p', ' ', 'f', 'i', 'l', 't', 'e', 'r', ':', ' ',
                    ];
                    push_all(&mut out, head.as_slice());
                    push_all(&mut out, chars_of(name).as_slice());
                    out.push('/');
                    let vt = version.to_string();
                    push_all(&mut out, chars_of(vt.as_str()).as_slice());
                    let mid = vec![' ', 't', 'i', 'm', 'e', 's', 't', 'a', 'm', 'p', ' '];
                    push_all(&mut out, mid.as_slice());
                    push_all(&mut out, decimal_text(ts).as_slice());
                    let lt = vec![' ', '<', ' '];
                    push_all(&mut out, lt.as_slice());
                    push_all(&mut out, decimal_text(self.before).as_slice());
                    assert(out@ =~= timestamp_reason(name@, version_text(version@), ts, self.before));
                    Some(string_from_chars(out.as_slice()))
                } else {
                    None
                }
            },
            None => None,
        }
    }
}

/// Rules combined by "or": a package is excluded when any rule excludes
/// it, with the reason of the first rule that does.
pub struct FilterList {
    filters: Vec<Box<dyn PackageFilter>>,
}

impl FilterList {
    /// No rule.
    pub fn new() -> (r: FilterList)
        ensures
            r.filters() == Seq::<Box<dyn PackageFilter>>::empty(),
    {
        FilterList { filters: Vec::new() }
    }

    /// The rules, in the order they were added.
    pub closed spec fn filters(&self) -> Seq<Box<dyn PackageFilter>> {
        self.filters@
    }

    /// The number of rules.
    pub open spec fn len(&self) -> nat {
        self.filters().len()
    }

    /// Adds a rule after the others.
    pub fn add(&mut self, filter: Box<dyn PackageFilter>)
        ensures
            final(self).filters() == old(self).filters().push(filter),
    {
        self.filters.push(filter);
    }

    /// Whether there is no rule.
    pub fn is_empty(&self) -> (b: bool)
        ensures
            b == (self.len() == 0),
    {
        self.filters.len() == 0
    }
}

impl Default for FilterList {
    fn default() -> (r: Self)
        ensures
            r.len() == 0,
    {
        FilterList::new()
    }
}

/// The reason of the first rule that excludes the package, or `None`.
pub open spec fn first_exclusion(
    fs: Seq<Box<dyn PackageFilter>>,
    name: Seq<char>,
    version: VersionModel,
    timestamp: Option<u64>,
) -> Option<Seq<char>>
    decreases fs.len(),
{
    if fs.len() == 0 {
        None
    } else {
        match fs[0].exclusion(name, version, timestamp) {
            Some(x) => Some(x),
            None => first_exclusion(fs.drop_first(), name, version, timestamp),
        }
    }
}

// The list lets every package through when it holds no rule, and
// otherwise answers as the first rule that excludes the package.
impl PackageFilter for FilterList {
    open spec fn exclusion(&self, name: Seq<char>, version: VersionModel, timestamp: Option<u64>) -> Option<Seq<char>> {
        first_exclusion(self.filters(), name, version, timestamp)
    }

    fn excludes(&self, name: &str, version: &RerVersion, timestamp: Option<u64>) -> (r: Option<String>)
        ensures
            self.len() == 0 ==> r is None,
    {
        let mut i: usize = 0;
        assert(self.filters@.skip(0) =~= self.filters@);
        while i < self.filters.len()
            invariant
                i <= self.filters@.len(),
                first_exclusion(self.filters@, name@, version@, timestamp) == first_exclusion(
                    self.filters@.skip(i as int),
                    name@,
                    version@,
                    timestamp,
                ),
            decreases self.filters.len() - i,
        {
            assert(self.filters@.skip(i as int)[0] == self.filters@[i as int]);
            assert(self.filters@.skip(i as int).drop_first() =~= self.filters@.skip(i + 1));
            let reason = self.filters[i].excludes(name, version, timestamp);
            if reason.is_some() {
                return reason;
            }
            i = i + 1;
        }
        None
    }
}

/// The anchored regular expression of a glob pattern: `*` matches any
/// text, `?` any one character, and the other characters match themselves
/// (regular-expression syntax characters escaped).
pub open spec fn glob_regex(pattern: Seq<char>) -> Seq<char> {
    seq!['^'] + glob_body(pattern) + seq!['$']
}

/// A character with a meaning of its own in a regular expression.
pub open spec fn is_regex_special(c: char) -> bool {
    c == '.' || c == '+' || c == '(' || c == ')' || c == '[' || c == ']' || c == '{' || c == '}'
        || c == '^' || c == '$' || c == '|' || c == '\\'
}

/// The regular-expression text of one glob character.
pub open spec fn glob_char(c: char) -> Seq<char> {
    if c == '*' {
        seq!['.', '*']
    } else if c == '?' {
        seq!['.']
    } else if is_regex_special(c) {
        seq!['\\', c]
    } else {
        seq![c]
    }
}

/// The regular-expression text of a glob pattern, without anchors.
pub open spec fn glob_body(pattern: Seq<char>) -> Seq<char>
    decreases pattern.len(),
{
    if pattern.len() == 0 {
        Seq::empty()
    } else {
        glob_body(pattern.drop_last()) + glob_char(pattern.last())
    }
}

/// The anchored regular expression of a glob pattern.
pub fn glob_to_regex(pattern: &str) -> (r: String)
    ensures
        r@ == glob_regex(pattern@),
{
    let cs = chars_of(pattern);
    let mut out: Vec<char> = Vec::new();
    out.push('^');
    let mut i: usize = 0;
    while i < cs.len()
        invariant
            i <= cs@.len(),
            out@ == seq!['^'] + glob_body(cs@.take(i as int)),
        decreases cs.len() - i,
    {
        let ch = cs[i];
        let ghost before = out@;
        if ch == '*' {
            out.push('.');
            out.push('*');
        } else if ch == '?' {
            out.push('.');
        } else if ch == '.' || ch == '+' || ch == '(' || ch == ')' || ch == '[' || ch == ']' || ch
            == '{' || ch == '}' || ch == '^' || ch == '$' || ch == '|' || ch == '\\' {
            out.push('\\');
            out.push(ch);
        } else {
            out.push(ch);
        }
        assert(out@ =~= before + glob_char(ch));
        assert(cs@.take(i + 1).drop_last() =~= cs@.take(i as int));
        i = i + 1;
    }
    assert(cs@.take(i as int) =~= pattern@);
    out.push('$');
    assert(out@ =~= glob_regex(pattern@));
    string_from_chars(out.as_slice())
}

// ---------------------------------------------------------------------------
// Rules by regular expression
// ---------------------------------------------------------------------------

#[verifier::external_type_specification]
#[verifier::external_body]
pub struct ExRegex(regex::Regex);

#[verifier::external_type_specification]
#[verifier::external_body]
pub struct ExRegexError(regex::Error);

/// Whether the `regex` crate compiles the pattern (its syntax is valid and
/// the compiled program stays within the default size limit).
pub uninterp spec fn regex_compiles(pattern: Seq<char>) -> bool;

/// Whether the regular expression `pattern`, compiled by the `regex` crate
/// with its default settings, matches somewhere in `text`.
pub uninterp spec fn regex_matches(pattern: Seq<char>, text: Seq<char>) -> bool;

/// A regular expression compiled by the `regex` crate, with the pattern it
/// was compiled from (its view). Only `CompiledRegex::new` makes one.
pub struct CompiledRegex {
    pattern: String,
    re: regex::Regex,
}

impl View for CompiledRegex {
    type V = Seq<char>;

    closed spec fn view(&self) -> Seq<char> {
        self.pattern@
    }
}

/// `regex::Regex::new`: compiles a pattern; an error exactly when it does
/// not compile.
#[verifier::external_body]
fn regex_new(pattern: &str) -> (r: Result<regex::Regex, regex::Error>)
    ensures
        r is Ok <==> regex_compiles(pattern@),
{
    regex::Regex::new(pattern)
}

/// `regex::Regex::is_match`: whether the regex matches somewhere in the
/// text. The regex was compiled from its view (the only constructor of
/// `CompiledRegex` compiles its pattern), and the answer depends on that
/// pattern and the text alone: it is named `regex_matches`.
#[verifier::external_body]
fn regex_is_match(re: &CompiledRegex, text: &str) -> (r: bool)
    ensures
        r == regex_matches(re@, text@),
{
    re.re.is_match(text)
}

impl CompiledRegex {
    /// Compiles `pattern`; the error of the `regex` crate when it does not
    /// compile.
    pub fn new(pattern: &str) -> (r: Result<CompiledRegex, regex::Error>)
        ensures
            r is Ok <==> regex_compiles(pattern@),
            r matches Ok(c) ==> c@ == pattern@,
    {
        match regex_new(pattern) {
            Ok(re) => Ok(CompiledRegex { pattern: pattern.to_owned(), re }),
            Err(e) => Err(e),
        }
    }

    /// Whether the regex matches somewhere in `text`.
    pub fn is_match(&self, text: &str) -> (r: bool)
        ensures
            r == regex_matches(self@, text@),
    {
        regex_is_match(self, text)
    }

    /// The pattern the regex was compiled from.
    pub fn as_str(&self) -> (r: String)
        ensures
            r@ == self@,
    {
        self.pattern.clone()
    }
}

/// The reason a glob rule gives: `excluded by glob filter: family matches
/// '<pattern>'`.
pub open spec fn glob_reason(pattern: Seq<char>) -> Seq<char> {
    "excluded by glob filter: family matches '"@ + pattern + "'"@
}

/// The answer of a glob rule on `pattern`, given whether its regular
/// expression matched the package name.
pub fn glob_decision(matched: bool, pattern: &str) -> (r: Option<String>)
    ensures
        r is Some <==> matched,
        r matches Some(reason) ==> reason@ == glob_reason(pattern@),
{
    if matched {
        let s = str_concat("excluded by glob filter: family matches '", pattern);
        Some(str_concat(s.as_str(), "'"))
    } else {
        None
    }
}

/// Excludes the packages whose name matches a glob pattern (`*` any
/// text, `?` any one character).
pub struct GlobFilter {
    /// The glob pattern.
    pub family: String,
    compiled: CompiledRegex,
}

impl GlobFilter {
    /// The glob pattern.
    pub closed spec fn pattern(&self) -> Seq<char> {
        self.family@
    }

    /// The regular expression the rule matches names with.
    pub closed spec fn regex(&self) -> Seq<char> {
        self.compiled@
    }

    /// The rule of the glob `pattern`, compiled to its anchored regular
    /// expression; the error of the `regex` crate when that does not
    /// compile.
    pub fn new(pattern: &str) -> (r: Result<GlobFilter, regex::Error>)
        ensures
            r is Ok <==> regex_compiles(glob_regex(pattern@)),
            r matches Ok(f) ==> f.pattern() == pattern@ && f.regex() == glob_regex(pattern@),
    {
        let regex_str = glob_to_regex(pattern);
        match CompiledRegex::new(regex_str.as_str()) {
            Ok(compiled) => Ok(GlobFilter { family: pattern.to_owned(), compiled }),
            Err(e) => Err(e),
        }
    }
}

impl PackageFilter for GlobFilter {
    closed spec fn exclusion(&self, name: Seq<char>, version: VersionModel, timestamp: Option<u64>) -> Option<Seq<char>> {
        if regex_matches(self.compiled@, name) {
            Some(glob_reason(self.family@))
        } else {
            None
        }
    }

    fn excludes(&self, name: &str, version: &RerVersion, timestamp: Option<u64>) -> (r: Option<String>)
        ensures
            r is Some <==> regex_matches(self.regex(), name@),
            r matches Some(reason) ==> reason@ == glob_reason(self.pattern()),
    {
        let matched = self.compiled.is_match(name);
        glob_decision(matched, self.family.as_str())
    }
}

/// The reason a regular-expression rule gives: `excluded by regex
/// filter:`, then ` family=/<pattern>/` and ` version=/<pattern>/` for
/// the patterns it has.
pub open spec fn regex_reason(family: Option<Seq<char>>, version: Option<Seq<char>>) -> Seq<char> {
    "excluded by regex filter:"@ + match family {
        Some(f) => " family=/"@ + f + "/"@,
        None => Seq::empty(),
    } + match version {
        Some(v) => " version=/"@ + v + "/"@,
        None => Seq::empty(),
    }
}

/// The answer of a regular-expression rule with the patterns `family` and
/// `version` (either may be missing), given whether each matched (a
/// missing one counts as matching): nothing when both are missing,
/// otherwise the reason when both match.
pub fn regex_decision(family: Option<&str>, version: Option<&str>, family_matches: bool, version_matches: bool) -> (r:
    Option<String>)
    ensures
        r is Some <==> (family is Some || version is Some) && family_matches && version_matches,
        r matches Some(reason) ==> reason@ == regex_reason(
            match family {
                Some(f) => Some(f@),
                None => None,
            },
            match version {
                Some(v) => Some(v@),
                None => None,
            },
        ),
{
    if family.is_none() && version.is_none() {
        return None;
    }
    if !(family_matches && version_matches) {
        return None;
    }
    let mut reason = "excluded by regex filter:".to_owned();
    let ghost fm = match family {
        Some(f) => " family=/"@ + f@ + "/"@,
        None => Seq::<char>::empty(),
    };
    let ghost vm = match version {
        Some(v) => " version=/"@ + v@ + "/"@,
        None => Seq::<char>::empty(),
    };
    let ghost head = "excluded by regex filter:"@;
    assert(reason@ == head);
    match family {
        Some(f) => {
            let a = str_concat(reason.as_str(), " family=/");
            let b = str_concat(a.as_str(), f);
            reason = str_concat(b.as_str(), "/");
            assert(reason@ =~= head + fm);
        },
        None => {
            assert(reason@ =~= head + fm);
        },
    }
    match version {
        Some(v) => {
            let a = str_concat(reason.as_str(), " version=/");
            let b = str_concat(a.as_str(), v);
            reason = str_concat(b.as_str(), "/");
            assert(reason@ =~= head + fm + vm);
        },
        None => {
            assert(reason@ =~= head + fm + vm);
        },
    }
    Some(reason)
}

/// Excludes the packages whose name, and whose version text, match
/// regular expressions: with both, both must match; with one, that one;
/// with none, nothing is excluded.
pub struct RegexFilter {
    /// The pattern for the package name.
    pub family: Option<CompiledRegex>,
    /// The pattern for the version text.
    pub version: Option<CompiledRegex>,
}

/// The pattern of an optional regex.
pub open spec fn opt_pattern(r: Option<CompiledRegex>) -> Option<Seq<char>> {
    match r {
        Some(c) => Some(c@),
        None => None,
    }
}

impl PackageFilter for RegexFilter {
    open spec fn exclusion(&self, name: Seq<char>, version: VersionModel, timestamp: Option<u64>) -> Option<Seq<char>> {
        if (self.family is Some || self.version is Some) && (self.family matches Some(f) ==> regex_matches(f@, name)) && (
        self.version matches Some(v) ==> regex_matches(v@, version_text(version))) {
            Some(regex_reason(opt_pattern(self.family), opt_pattern(self.version)))
        } else {
            None
        }
    }

    fn excludes(&self, name: &str, version: &RerVersion, timestamp: Option<u64>) -> (r: Option<String>)
        ensures
            r is Some <==> (self.family is Some || self.version is Some) && (self.family matches Some(f)
                ==> regex_matches(f@, name@)) && (self.version matches Some(v) ==> regex_matches(
                v@,
                version_text(version@),
            )),
            r matches Some(reason) ==> reason@ == regex_reason(opt_pattern(self.family), opt_pattern(self.version)),
    {
        let version_str = version.to_string();
        let family_matches = match &self.family {
            Some(re) => re.is_match(name),
            None => true,
        };
        let version_matches = match &self.version {
            Some(re) => re.is_match(version_str.as_str()),
            None => true,
        };
        let family_text = match &self.family {
            Some(re) => Some(re.as_str()),
            None => None,
        };
        let version_text = match &self.version {
            Some(re) => Some(re.as_str()),
            None => None,
        };
        let f = match &family_text {
            Some(t) => Some(t.as_str()),
            None => None,
        };
        let v = match &version_text {
            Some(t) => Some(t.as_str()),
            None => None,
        };
        regex_decision(f, v, family_matches, version_matches)
    }
}

} // verus!
