use vstd::prelude::*;
use crate::text::{chars_of, folded, make_case_insensitive, Options};

verus! {

// Pattern syntax, one pattern per line of an ignore file:
// - trailing spaces, tabs and carriage returns are dropped;
// - a line that is then empty, or starts with `#`, is no pattern;
// - a leading `!` negates the pattern: a path it matches is kept;
// - a trailing `/` makes the pattern match directories only;
// - a leading `/`, or a `/` anywhere else, anchors the pattern: it must
//   match the whole path relative to the search root; an unanchored pattern
//   matches a path when it matches one of its `/`-separated segments;
// - in the rest, `*` stands for any run of characters other than `/`, `?`
//   for one such character, and every other character for itself;
// - a line with nothing left to match after this is skipped.

/// A compiled pattern, as the contracts see it.
pub struct Rule {
    pub glob: Seq<char>,
    pub anchored: bool,
    pub dir_only: bool,
    pub negated: bool,
}

/// A compiled pattern.
pub struct Pattern {
    pub glob: Vec<char>,
    pub anchored: bool,
    pub dir_only: bool,
    pub negated: bool,
}

impl View for Pattern {
    type V = Rule;

    open spec fn view(&self) -> Rule {
        Rule {
            glob: self.glob@,
            anchored: self.anchored,
            dir_only: self.dir_only,
            negated: self.negated,
        }
    }
}

pub open spec fn views(ps: Seq<Pattern>) -> Seq<Rule> {
    ps.map_values(|p: Pattern| p@)
}

pub open spec fn is_trailing_blank(c: char) -> bool {
    c == ' ' || c == '\t' || c == '\r'
}

/// `s` without its trailing blanks.
pub open spec fn trim_end(s: Seq<char>) -> Seq<char>
    decreases s.len(),
{
    if s.len() > 0 && is_trailing_blank(s.last()) {
        trim_end(s.drop_last())
    } else {
        s
    }
}

/// The pattern that one line of an ignore file holds, if any.
pub open spec fn parse_line_spec(line: Seq<char>) -> Option<Rule> {
    let t = trim_end(line);
    if t.len() == 0 || t[0] == '#' {
        None
    } else {
        let negated = t[0] == '!';
        let b1 = if negated { t.drop_first() } else { t };
        let dir_only = b1.len() > 0 && b1.last() == '/';
        let b2 = if dir_only { b1.drop_last() } else { b1 };
        let leading = b2.len() > 0 && b2[0] == '/';
        let glob = if leading { b2.drop_first() } else { b2 };
        if glob.len() == 0 {
            None
        } else {
            Some(Rule { glob, anchored: leading || glob.contains('/'), dir_only, negated })
        }
    }
}

/// Whether the glob `p` matches the whole of `s`.
pub open spec fn glob_match(p: Seq<char>, s: Seq<char>) -> bool
    decreases p.len() + s.len(),
{
    if p.len() == 0 {
        s.len() == 0
    } else if p[0] == '*' {
        glob_match(p.drop_first(), s) || (s.len() > 0 && s[0] != '/' && glob_match(p, s.drop_first()))
    } else if s.len() == 0 {
        false
    } else if p[0] == '?' {
        s[0] != '/' && glob_match(p.drop_first(), s.drop_first())
    } else {
        p[0] == s[0] && glob_match(p.drop_first(), s.drop_first())
    }
}

/// `s[a..b]` is one `/`-separated segment of `s`.
pub open spec fn is_segment(s: Seq<char>, a: int, b: int) -> bool {
    &&& 0 <= a <= b <= s.len()
    &&& a == 0 || s[a - 1] == '/'
    &&& b == s.len() || s[b] == '/'
    &&& forall|k: int| a <= k < b ==> s[k] != '/'
}

/// Whether the glob `p` matches some segment of `s`.
pub open spec fn matches_some_segment(p: Seq<char>, s: Seq<char>) -> bool {
    exists|a: int, b: int| is_segment(s, a, b) && glob_match(p, s.subrange(a, b))
}

/// Whether rule `r` speaks of `path`, a directory when `is_dir` holds.
pub open spec fn applies(r: Rule, path: Seq<char>, is_dir: bool) -> bool {
    &&& !r.dir_only || is_dir
    &&& if r.anchored {
        glob_match(r.glob, path)
    } else {
        matches_some_segment(r.glob, path)
    }
}

/// Whether `rules` exclude `path`: the last rule that applies decides, and a
/// path that no rule applies to is kept.
pub open spec fn excluded(rules: Seq<Rule>, path: Seq<char>, is_dir: bool) -> bool
    decreases rules.len(),
{
    if rules.len() == 0 {
        false
    } else if applies(rules.last(), path, is_dir) {
        !rules.last().negated
    } else {
        excluded(rules.drop_last(), path, is_dir)
    }
}

/// Whether `p[pi..]` matches `s[si..se]`.
fn glob_matches_at(p: &Vec<char>, pi: usize, s: &Vec<char>, si: usize, se: usize) -> (r: bool)
    requires
        pi <= p.len(),
        si <= se <= s.len(),
    ensures
        r == glob_match(p@.subrange(pi as int, p.len() as int), s@.subrange(si as int, se as int)),
    decreases p.len() - pi + se - si,
{
    let ghost ps = p@.subrange(pi as int, p.len() as int);
    let ghost ss = s@.subrange(si as int, se as int);
    if pi == p.len() {
        si == se
    } else if p[pi] == '*' {
        assert(ps.drop_first() =~= p@.subrange(pi + 1, p.len() as int));
        if glob_matches_at(p, pi + 1, s, si, se) {
            true
        } else if si < se && s[si] != '/' {
            assert(ss.drop_first() =~= s@.subrange(si + 1, se as int));
            glob_matches_at(p, pi, s, si + 1, se)
        } else {
            false
        }
    } else if si == se {
        false
    } else {
        assert(ps.drop_first() =~= p@.subrange(pi + 1, p.len() as int));
        assert(ss.drop_first() =~= s@.subrange(si + 1, se as int));
        if p[pi] == '?' {
            s[si] != '/' && glob_matches_at(p, pi + 1, s, si + 1, se)
        } else {
            p[pi] == s[si] && glob_matches_at(p, pi + 1, s, si + 1, se)
        }
    }
}

/// Whether the glob `p` matches the whole of `s`.
pub fn glob_matches(p: &Vec<char>, s: &Vec<char>) -> (r: bool)
    ensures
        r == glob_match(p@, s@),
{
    assert(p@.subrange(0, p.len() as int) =~= p@);
    assert(s@.subrange(0, s.len() as int) =~= s@);
    glob_matches_at(p, 0, s, 0, s.len())
}

/// Whether the glob `p` matches some `/`-separated segment of `s`.
fn glob_matches_segment(p: &Vec<char>, s: &Vec<char>) -> (r: bool)
    ensures
        r == matches_some_segment(p@, s@),
{
    let n = s.len();
    let mut i: usize = 0;
    loop
        invariant
            n == s.len(),
            i <= n,
            i == 0 || s@[i - 1] == '/',
            forall|a: int, b: int|
                is_segment(s@, a, b) && a < i ==> !glob_match(p@, #[trigger] s@.subrange(a, b)),
        decreases n - i,
    {
        let mut j: usize = i;
        while j < n && s[j] != '/'
            invariant
                n == s.len(),
                i <= j <= n,
                forall|k: int| i <= k < j ==> s@[k] != '/',
            decreases n - j,
        {
            j = j + 1;
        }
        assert(is_segment(s@, i as int, j as int));
        assert(p@.subrange(0, p.len() as int) =~= p@);
        if glob_matches_at(p, 0, s, i, j) {
            return true;
        }
        assert forall|a: int, b: int|
            is_segment(s@, a, b) && a < j + 1 implies !glob_match(p@, #[trigger] s@.subrange(a, b)) by {
            if a > i {
                assert(s@[a - 1] != '/');
            } else if a == i {
                if b < j {
                    assert(s@[b] != '/');
                } else if b > j {
                    assert(s@[j as int] != '/');
                }
            }
        }
        if j == n {
            return false;
        }
        i = j + 1;
    }
}

/// Whether the pattern `pat` speaks of `path`, a directory when `is_dir`
/// holds.
pub fn pattern_applies(pat: &Pattern, path: &Vec<char>, is_dir: bool) -> (r: bool)
    ensures
        r == applies(pat@, path@, is_dir),
{
    if pat.dir_only && !is_dir {
        false
    } else if pat.anchored {
        glob_matches(&pat.glob, path)
    } else {
        glob_matches_segment(&pat.glob, path)
    }
}

/// The characters `s[lo..hi]`, copied.
fn copy_range(s: &Vec<char>, lo: usize, hi: usize) -> (r: Vec<char>)
    requires
        lo <= hi <= s.len(),
    ensures
        r@ == s@.subrange(lo as int, hi as int),
{
    let mut r: Vec<char> = Vec::with_capacity(hi - lo);
    let mut i: usize = lo;
    while i < hi
        invariant
            lo <= i <= hi <= s.len(),
            r@ == s@.subrange(lo as int, i as int),
        decreases hi - i,
    {
        r.push(s[i]);
        i = i + 1;
        assert(r@ =~= s@.subrange(lo as int, i as int));
    }
    r
}

/// Compiles one line of an ignore file; `None` for a blank line, a comment,
/// or a line with nothing to match.
pub fn parse_line(line: &Vec<char>) -> (r: Option<Pattern>)
    ensures
        r matches Some(p) ==> parse_line_spec(line@) == Some(p@),
        r is None ==> parse_line_spec(line@) is None,
{
    let mut hi: usize = line.len();
    assert(line@.subrange(0, hi as int) =~= line@);
    while hi > 0 && (line[hi - 1] == ' ' || line[hi - 1] == '\t' || line[hi - 1] == '\r')
        invariant
            hi <= line.len(),
            trim_end(line@) == trim_end(line@.subrange(0, hi as int)),
        decreases hi,
    {
        assert(line@.subrange(0, hi as int).drop_last() =~= line@.subrange(0, hi - 1));
        hi = hi - 1;
    }
    let ghost t = line@.subrange(0, hi as int);
    assert(trim_end(line@) == t);
    if hi == 0 || line[0] == '#' {
        return None;
    }
    let mut lo: usize = 0;
    let negated = line[0] == '!';
    if negated {
        lo = 1;
    }
    assert(line@.subrange(lo as int, hi as int) =~= (if negated { t.drop_first() } else { t }));
    let ghost b1 = line@.subrange(lo as int, hi as int);
    let dir_only = lo < hi && line[hi - 1] == '/';
    if dir_only {
        hi = hi - 1;
    }
    let ghost b2 = line@.subrange(lo as int, hi as int);
    assert(b2 =~= (if dir_only { b1.drop_last() } else { b1 }));
    let leading = lo < hi && line[lo] == '/';
    if leading {
        lo = lo + 1;
    }
    assert(line@.subrange(lo as int, hi as int) =~= (if leading { b2.drop_first() } else { b2 }));
    let glob = copy_range(line, lo, hi);
    if glob.len() == 0 {
        return None;
    }
    let mut has_slash = false;
    let mut k: usize = 0;
    while k < glob.len() && !has_slash
        invariant
            k <= glob.len(),
            has_slash ==> glob@.contains('/'),
            !has_slash ==> forall|m: int| 0 <= m < k ==> glob@[m] != '/',
        decreases glob.len() - k,
    {
        if glob[k] == '/' {
            has_slash = true;
        }
        k = k + 1;
    }
    let anchored = leading || has_slash;
    assert(!has_slash ==> !glob@.contains('/'));
    Some(Pattern { glob, anchored, dir_only, negated })
}

/// `lines[..n]` split at line feeds: the finished lines, and the line in
/// progress.
pub open spec fn split_state(text: Seq<char>, n: nat) -> (Seq<Seq<char>>, Seq<char>)
    decreases n,
{
    if n == 0 {
        (Seq::empty(), Seq::empty())
    } else {
        let (done, cur) = split_state(text, (n - 1) as nat);
        if text[n - 1] == '\n' {
            (done.push(cur), Seq::empty())
        } else {
            (done, cur.push(text[n - 1]))
        }
    }
}

/// The lines of `text`: split at line feeds, with no empty line after a
/// final line feed.
pub open spec fn lines_of(text: Seq<char>) -> Seq<Seq<char>> {
    let (done, cur) = split_state(text, text.len());
    if cur.len() > 0 {
        done.push(cur)
    } else {
        done
    }
}

/// The patterns that `lines` hold, in order.
pub open spec fn rules_of_lines(lines: Seq<Seq<char>>) -> Seq<Rule>
    decreases lines.len(),
{
    if lines.len() == 0 {
        Seq::empty()
    } else {
        let before = rules_of_lines(lines.drop_last());
        match parse_line_spec(lines.last()) {
            Some(r) => before.push(r),
            None => before,
        }
    }
}

/// The patterns of an ignore file's text, in order.
pub open spec fn rules_of_text(text: Seq<char>) -> Seq<Rule> {
    rules_of_lines(lines_of(text))
}

fn push_parsed(out: &mut Vec<Pattern>, line: &Vec<char>, ghost_lines: Ghost<Seq<Seq<char>>>)
    requires
        views(old(out)@) == rules_of_lines(ghost_lines@),
    ensures
        views(final(out)@) == rules_of_lines(ghost_lines@.push(line@)),
{
    assert(ghost_lines@.push(line@).drop_last() =~= ghost_lines@);
    match parse_line(line) {
        Some(p) => {
            out.push(p);
            assert(views(out@) =~= views(old(out)@).push(p@));
        },
        None => {},
    }
}

/// Compiles the patterns of an ignore file's text, line by line.
pub fn parse_text(text: &str) -> (r: Vec<Pattern>)
    ensures
        views(r@) == rules_of_text(text@),
{
    let chars = chars_of(text);
    let mut out: Vec<Pattern> = Vec::new();
    let mut cur: Vec<char> = Vec::new();
    let mut i: usize = 0;
    assert(views(out@) =~= Seq::<Rule>::empty());
    while i < chars.len()
        invariant
            i <= chars.len(),
            chars@ == text@,
            views(out@) == rules_of_lines(split_state(text@, i as nat).0),
            cur@ == split_state(text@, i as nat).1,
        decreases chars.len() - i,
    {
        let c = chars[i];
        if c == '\n' {
            push_parsed(&mut out, &cur, Ghost(split_state(text@, i as nat).0));
            cur = Vec::new();
        } else {
            cur.push(c);
        }
        i = i + 1;
    }
    if cur.len() > 0 {
        push_parsed(&mut out, &cur, Ghost(split_state(text@, i as nat).0));
    }
    out
}

/// What the caller found when it looked for an ignore file.
pub enum IgnoreFile {
    /// There is no such file.
    Missing,
    /// The file exists but could not be read as text.
    Unreadable,
    /// The file's text.
    Contents(String),
}

/// Why a rule set was not extended; either way the parent stays in use.
#[derive(Clone, Copy, Debug, PartialEq, Eq, Structural)]
pub enum ExtendError {
    NotFound,
    Unreadable,
}

/// An ordered, immutable sequence of compiled patterns.
pub struct RuleSet {
    patterns: Vec<Pattern>,
}

impl View for RuleSet {
    type V = Seq<Rule>;

    closed spec fn view(&self) -> Seq<Rule> {
        views(self.patterns@)
    }
}

proof fn lemma_views_push(ps: Seq<Pattern>, p: Pattern)
    ensures
        views(ps.push(p)) == views(ps).push(p@),
{
    assert(views(ps.push(p)) =~= views(ps).push(p@));
}

fn copy_pattern(p: &Pattern) -> (r: Pattern)
    ensures
        r@ == p@,
{
    assert(p.glob@.subrange(0, p.glob@.len() as int) =~= p.glob@);
    Pattern {
        glob: copy_range(&p.glob, 0, p.glob.len()),
        anchored: p.anchored,
        dir_only: p.dir_only,
        negated: p.negated,
    }
}

impl RuleSet {
    /// The rule set with no patterns: it excludes nothing.
    pub fn new_default() -> (r: RuleSet)
        ensures
            r@ == Seq::<Rule>::empty(),
    {
        let r = RuleSet { patterns: Vec::new() };
        assert(r@ =~= Seq::<Rule>::empty());
        r
    }

    /// The number of patterns.
    pub fn len(&self) -> (r: usize)
        ensures
            r == self@.len(),
    {
        self.patterns.len()
    }

    /// A new rule set: these patterns followed by those of `file`, whose
    /// text is folded to lower case first when the search is
    /// case-insensitive. `self` is left as it was.
    pub fn extend(&self, file: &IgnoreFile, options: &Options) -> (r: Result<RuleSet, ExtendError>)
        ensures
            file is Missing ==> r == Err::<RuleSet, ExtendError>(ExtendError::NotFound),
            file is Unreadable ==> r == Err::<RuleSet, ExtendError>(ExtendError::Unreadable),
            file matches IgnoreFile::Contents(t) ==> r matches Ok(child) && child@ == self@
                + rules_of_text(folded(t@, options.insensitive)),
    {
        match file {
            IgnoreFile::Missing => Err(ExtendError::NotFound),
            IgnoreFile::Unreadable => Err(ExtendError::Unreadable),
            IgnoreFile::Contents(t) => {
                let text = make_case_insensitive(t.as_str(), options);
                let added = parse_text(text.as_str());
                let mut patterns: Vec<Pattern> = Vec::new();
                let mut i: usize = 0;
                while i < self.patterns.len()
                    invariant
                        i <= self.patterns.len(),
                        views(patterns@) == views(self.patterns@.subrange(0, i as int)),
                    decreases self.patterns.len() - i,
                {
                    let c = copy_pattern(&self.patterns[i]);
                    proof {
                        lemma_views_push(patterns@, c);
                        lemma_views_push(self.patterns@.subrange(0, i as int), self.patterns@[i as int]);
                        assert(self.patterns@.subrange(0, i + 1) =~= self.patterns@.subrange(0, i as int).push(self.patterns@[i as int]));
                    }
                    patterns.push(c);
                    i = i + 1;
                }
                let mut j: usize = 0;
                while j < added.len()
                    invariant
                        j <= added.len(),
                        views(patterns@) == views(self.patterns@) + views(added@.subrange(0, j as int)),
                    decreases added.len() - j,
                {
                    let c = copy_pattern(&added[j]);
                    proof {
                        lemma_views_push(patterns@, c);
                        lemma_views_push(added@.subrange(0, j as int), added@[j as int]);
                        assert(added@.subrange(0, j + 1) =~= added@.subrange(0, j as int).push(added@[j as int]));
                        assert(views(self.patterns@) + views(added@.subrange(0, j as int)).push(c@) =~= (views(self.patterns@) + views(added@.subrange(0, j as int))).push(c@));
                    }
                    patterns.push(c);
                    j = j + 1;
                }
                assert(added@.subrange(0, added@.len() as int) =~= added@);
                assert(self.patterns@.subrange(0, self.patterns@.len() as int) =~= self.patterns@);
                Ok(RuleSet { patterns })
            },
        }
    }

    /// Whether `path`, a directory when `is_directory` holds, is excluded:
    /// the last pattern that speaks of it decides, and no pattern means kept.
    /// The path is folded to lower case first when the search is
    /// case-insensitive.
    pub fn is_excluded(&self, path: &str, is_directory: bool, options: &Options) -> (r: bool)
        ensures
            r == excluded(self@, folded(path@, options.insensitive), is_directory),
    {
        let text = make_case_insensitive(path, options);
        let chars = chars_of(text.as_str());
        let ghost p = folded(path@, options.insensitive);
        let mut i: usize = self.patterns.len();
        assert(views(self.patterns@.subrange(0, i as int)) =~= self@);
        while i > 0
            invariant
                i <= self.patterns.len(),
                chars@ == p,
                p == folded(path@, options.insensitive),
                excluded(self@, p, is_directory) == excluded(
                    views(self.patterns@.subrange(0, i as int)),
                    p,
                    is_directory,
                ),
            decreases i,
        {
            let ghost prefix = views(self.patterns@.subrange(0, i as int));
            assert(prefix.last() == self.patterns@[i - 1]@);
            assert(prefix.drop_last() =~= views(self.patterns@.subrange(0, i - 1)));
            let pat = &self.patterns[i - 1];
            if pattern_applies(pat, &chars, is_directory) {
                assert(excluded(prefix, p, is_directory) == !pat.negated);
                return !pat.negated;
            }
            i = i - 1;
        }
        false
    }
}

/// Last match wins: when the rule at `k` applies to a path and no later
/// rule does, that rule alone decides whether the path is excluded, whatever
/// earlier rules say.
pub proof fn lemma_last_match_decides(rules: Seq<Rule>, path: Seq<char>, is_dir: bool, k: int)
    requires
        0 <= k < rules.len(),
        applies(rules[k], path, is_dir),
        forall|m: int| k < m < rules.len() ==> !applies(#[trigger] rules[m], path, is_dir),
    ensures
        excluded(rules, path, is_dir) == !rules[k].negated,
    decreases rules.len(),
{
    if k < rules.len() - 1 {
        let shorter = rules.drop_last();
        assert forall|m: int| k < m < shorter.len() implies !applies(
            #[trigger] shorter[m],
            path,
            is_dir,
        ) by {
            assert(shorter[m] == rules[m]);
        }
        lemma_last_match_decides(shorter, path, is_dir, k);
    }
}

/// A path that no rule applies to is kept.
pub proof fn lemma_no_match_keeps(rules: Seq<Rule>, path: Seq<char>, is_dir: bool)
    requires
        forall|m: int| 0 <= m < rules.len() ==> !applies(#[trigger] rules[m], path, is_dir),
    ensures
        !excluded(rules, path, is_dir),
    decreases rules.len(),
{
    if rules.len() > 0 {
        let shorter = rules.drop_last();
        assert forall|m: int| 0 <= m < shorter.len() implies !applies(
            #[trigger] shorter[m],
            path,
            is_dir,
        ) by {
            assert(shorter[m] == rules[m]);
        }
        lemma_no_match_keeps(shorter, path, is_dir);
    }
}

} // verus!
