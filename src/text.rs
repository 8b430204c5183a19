use vstd::prelude::*;

verus! {

/// Settings that shape a search.
#[derive(Clone, Copy, Debug, PartialEq, Eq, Structural)]
pub struct Options {
    /// Compare characters after folding both sides to lower case.
    pub insensitive: bool,
    /// Print diagnostics while searching.
    pub verbose: bool,
}

/// The lower-case form of a string, as `str::to_lowercase` computes it.
pub uninterp spec fn lower_of(s: Seq<char>) -> Seq<char>;

/// Whether a character is alphanumeric, as `char::is_alphanumeric` decides it.
pub uninterp spec fn alnum_of(c: char) -> bool;

/// Relies on `str::to_lowercase`: its result depends on the characters alone.
#[verifier::external_body]
fn lowercase(s: &str) -> (r: String)
    ensures
        r@ == lower_of(s@),
{
    s.to_lowercase()
}

/// Relies on `char::is_alphanumeric`: a function of the character alone.
#[verifier::external_body]
pub(crate) fn is_alphanumeric(c: char) -> (r: bool)
    ensures
        r == alnum_of(c),
{
    c.is_alphanumeric()
}

/// The text that matching and exclusion compare: folded to lower case when
/// the search is case-insensitive, as given otherwise.
pub open spec fn folded(s: Seq<char>, insensitive: bool) -> Seq<char> {
    if insensitive {
        lower_of(s)
    } else {
        s
    }
}

/// Alphanumeric classification of each character of `s`.
pub open spec fn classify(s: Seq<char>) -> Seq<bool> {
    s.map_values(|c: char| alnum_of(c))
}

/// Applies the case setting of `options` to `input`.
pub fn make_case_insensitive(input: &str, options: &Options) -> (r: String)
    ensures
        r@ == folded(input@, options.insensitive),
{
    if !options.insensitive {
        return input.to_string();
    }
    lowercase(input)
}

/// The characters of `s`, in order.
pub fn chars_of(s: &str) -> (r: Vec<char>)
    ensures
        r@ == s@,
{
    let mut r: Vec<char> = Vec::new();
    for c in it: s.chars()
        invariant
            it.seq() == s@,
            r@ == it.seq().subrange(0, it.index() as int),
    {
        r.push(c);
        assert(r@ =~= it.seq().subrange(0, it.index() + 1));
    }
    assert(r@ =~= s@);
    r
}

/// The classification of each character of `s` as alphanumeric or not.
pub fn classify_chars(s: &Vec<char>) -> (r: Vec<bool>)
    ensures
        r@ == classify(s@),
{
    let mut r: Vec<bool> = Vec::with_capacity(s.len());
    let mut i: usize = 0;
    while i < s.len()
        invariant
            i <= s.len(),
            r@ == classify(s@.subrange(0, i as int)),
        decreases s.len() - i,
    {
        r.push(is_alphanumeric(s[i]));
        proof {
            assert(s@.subrange(0, i + 1) == s@.subrange(0, i as int).push(s@[i as int]));
        }
        i = i + 1;
        assert(r@ =~= classify(s@.subrange(0, i as int)));
    }
    assert(s@.subrange(0, s@.len() as int) == s@);
    r
}

} // verus!
