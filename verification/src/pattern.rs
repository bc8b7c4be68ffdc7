//! Compiled search patterns, backed by the `regex` crate.
//!
//! A [`Matcher`] couples a compiled regular expression with the pattern
//! text it was compiled from, so that contracts can speak about the
//! pattern while the `regex` crate does the matching.

use vstd::prelude::*;

verus! {

#[verifier::external_type_specification]
#[verifier::external_body]
pub struct ExRegex(regex::Regex);

#[verifier::external_type_specification]
#[verifier::external_body]
pub struct ExRegexError(regex::Error);

/// Whether `regex::Regex::new` accepts `pattern` as a valid regular
/// expression.
pub uninterp spec fn regex_accepts(pattern: Seq<char>) -> bool;

/// What `regex::Regex::is_match` answers for the expression compiled
/// from `pattern`, searched anywhere in `text`.
pub uninterp spec fn regex_found(pattern: Seq<char>, text: Seq<char>) -> bool;

/// All patterns in the sequence are valid regular expressions.
pub open spec fn all_accepted(pats: Seq<Seq<char>>) -> bool {
    forall|i: int| 0 <= i < pats.len() ==> regex_accepts(pats[i])
}

/// Index of the first pattern that is not a valid regular expression,
/// or -1 when all are valid.
pub open spec fn first_rejected(pats: Seq<Seq<char>>) -> int
    decreases pats.len(),
{
    if pats.len() == 0 {
        -1
    } else if !regex_accepts(pats[0]) {
        0
    } else {
        let r = first_rejected(pats.skip(1));
        if r < 0 {
            -1
        } else {
            r + 1
        }
    }
}

/// Some pattern in `pats` matches somewhere in `text`.
pub open spec fn any_found(pats: Seq<Seq<char>>, text: Seq<char>) -> bool {
    exists|i: int| 0 <= i < pats.len() && regex_found(pats[i], text)
}

proof fn lemma_first_rejected_at(pats: Seq<Seq<char>>, k: int)
    requires
        0 <= k < pats.len(),
        !regex_accepts(pats[k]),
        forall|j: int| 0 <= j < k ==> regex_accepts(pats[j]),
    ensures
        first_rejected(pats) == k,
    decreases pats.len(),
{
    if k == 0 {
    } else {
        assert(forall|j: int| 0 <= j < k - 1 ==> pats.skip(1)[j] == pats[j + 1]);
        lemma_first_rejected_at(pats.skip(1), k - 1);
    }
}

/// The error reported when a configured pattern is not a valid regular
/// expression.
#[derive(Debug, Clone, PartialEq, Eq)]
pub struct PatternError {
    /// The offending pattern, exactly as configured.
    pub pattern: String,
}

/// A compiled search pattern, remembering its source text.
pub struct Matcher {
    re: regex::Regex,
    pattern: String,
}

impl Matcher {
    /// The pattern text this matcher was compiled from.
    pub closed spec fn pattern_view(&self) -> Seq<char> {
        self.pattern@
    }

    /// Relies on `regex::Regex::new`: compiling succeeds exactly when
    /// the pattern is a valid regular expression, and the result
    /// matches according to that pattern and nothing else.
    #[verifier::external_body]
    pub fn compile(pattern: &str) -> (r: Result<Matcher, regex::Error>)
        ensures
            r is Ok <==> regex_accepts(pattern@),
            r is Ok ==> (r->Ok_0).pattern_view() == pattern@,
    {
        match regex::Regex::new(pattern) {
            Ok(re) => Ok(Matcher { re, pattern: pattern.to_string() }),
            Err(e) => Err(e),
        }
    }

    /// Relies on `regex::Regex::is_match`: reports whether the pattern
    /// matches anywhere in `text`; the answer is a function of the
    /// compiled pattern and the searched text alone.
    #[verifier::external_body]
    pub fn is_match(&self, text: &str) -> (r: bool)
        ensures
            r == regex_found(self.pattern_view(), text@),
    {
        self.re.is_match(text)
    }
}

/// Compiles every pattern in order, stopping at the first invalid one.
pub fn compile_all(patterns: &Vec<String>) -> (r: Result<Vec<Matcher>, PatternError>)
    ensures
        r is Ok <==> all_accepted(patterns.deep_view()),
        r is Ok ==> {
            &&& (r->Ok_0)@.len() == patterns@.len()
            &&& forall|i: int|
                0 <= i < patterns@.len() ==> (r->Ok_0)@[i].pattern_view()
                    == patterns.deep_view()[i]
        },
        r is Err ==> (r->Err_0).pattern@ == patterns.deep_view()[first_rejected(
            patterns.deep_view(),
        )],
{
    let ghost pats = patterns.deep_view();
    let mut out: Vec<Matcher> = Vec::new();
    let mut i: usize = 0;
    proof {
        assert(pats.len() == patterns@.len());
    }
    while i < patterns.len()
        invariant
            0 <= i <= patterns@.len(),
            pats == patterns.deep_view(),
            pats.len() == patterns@.len(),
            out@.len() == i,
            forall|j: int| 0 <= j < i ==> regex_accepts(pats[j]),
            forall|j: int| 0 <= j < i ==> out@[j].pattern_view() == pats[j],
        decreases patterns@.len() - i,
    {
        proof {
            assert(pats[i as int] == patterns@[i as int]@);
        }
        match Matcher::compile(patterns[i].as_str()) {
            Ok(m) => {
                out.push(m);
            },
            Err(_) => {
                proof {
                    lemma_first_rejected_at(pats, i as int);
                }
                return Err(PatternError { pattern: patterns[i].clone() });
            },
        }
        i = i + 1;
    }
    Ok(out)
}

/// Whether any of the compiled matchers finds a match in `text`.
pub fn matches_any(matchers: &Vec<Matcher>, text: &str) -> (r: bool)
    ensures
        r == exists|i: int|
            0 <= i < matchers@.len() && regex_found(matchers@[i].pattern_view(), text@),
{
    let mut i: usize = 0;
    while i < matchers.len()
        invariant
            0 <= i <= matchers@.len(),
            forall|j: int| 0 <= j < i ==> !regex_found(matchers@[j].pattern_view(), text@),
        decreases matchers@.len() - i,
    {
        if matchers[i].is_match(text) {
            return true;
        }
        i = i + 1;
    }
    false
}

} // verus!
