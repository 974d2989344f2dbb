//! Compiled "special" extractor patterns. The regex engine is outside code;
//! every call into it goes through a trusted item here. A compiled pattern
//! carries the pattern text it was compiled from, so that what the engine
//! returns can be named as a function of that text and of the searched string.

use vstd::prelude::*;

verus! {

#[verifier::external_type_specification]
#[verifier::external_body]
pub struct ExRegex(fancy_regex::Regex);

/// The spans (character offsets, half-open) of the successive non-overlapping
/// matches the regex engine finds for `pattern` in `text`.
pub uninterp spec fn find_of(pattern: Seq<char>, text: Seq<char>) -> Seq<(usize, usize)>;

/// What the engine's documentation promises of any run of successive
/// non-overlapping matches over a text of `len` characters: spans lie within
/// the text, do not overlap, and their starts strictly increase.
pub open spec fn spans_ordered(spans: Seq<(usize, usize)>, len: int) -> bool {
    &&& forall|i: int| 0 <= i < spans.len() ==> #[trigger] spans[i].0 <= spans[i].1 <= len
    &&& forall|i: int, j: int|
        0 <= i < j < spans.len() ==> #[trigger] spans[i].1 <= #[trigger] spans[j].0
            && spans[i].0 < spans[j].0
}

/// A regex together with the pattern text it was compiled from.
pub struct CompiledPattern {
    pattern: String,
    regex: fancy_regex::Regex,
}

impl View for CompiledPattern {
    type V = Seq<char>;

    closed spec fn view(&self) -> Seq<char> {
        self.pattern@
    }
}

impl CompiledPattern {
    /// Relies on fancy_regex::Regex::new: compiles exactly the given pattern,
    /// or reports why the pattern is malformed.
    #[verifier::external_body]
    pub fn new(pattern: &str) -> (r: Result<CompiledPattern, String>)
        ensures
            r is Ok ==> r->Ok_0@ == pattern@,
    {
        match fancy_regex::Regex::new(pattern) {
            Ok(regex) => Ok(CompiledPattern { pattern: pattern.to_owned(), regex }),
            Err(e) => Err(format!("malformed pattern `{pattern}`: {e}")),
        }
    }

    /// Relies on fancy_regex::Regex::find_iter: yields the successive
    /// non-overlapping matches in the text, by byte offset, left to right;
    /// offsets fall on character boundaries. Offsets are converted here to
    /// character offsets. Matches on which the engine reports an error
    /// (it limits backtracking) are dropped, as the result's name reflects.
    #[verifier::external_body]
    pub fn find_spans(&self, text: &str) -> (r: Vec<(usize, usize)>)
        ensures
            r@ == find_of(self@, text@),
            spans_ordered(r@, text@.len() as int),
    {
        let mut out = Vec::new();
        for m in self.regex.find_iter(text).filter_map(Result::ok) {
            let start = text[..m.start()].chars().count();
            let end = start + m.as_str().chars().count();
            out.push((start, end));
        }
        out
    }

    /// Relies on fancy_regex::Regex::clone: the clone matches exactly as the
    /// regex it was cloned from.
    #[verifier::external_body]
    pub fn clone_pattern(&self) -> (r: CompiledPattern)
        ensures
            r@ == self@,
    {
        CompiledPattern { pattern: self.pattern.clone(), regex: self.regex.clone() }
    }

    /// Whether the pattern matches anywhere in the text.
    pub fn is_match(&self, text: &str) -> (r: bool)
        ensures
            r == (find_of(self@, text@).len() > 0),
    {
        let spans = self.find_spans(text);
        spans.len() > 0
    }
}

/// The alternation `(?:p_0)|(?:p_1)|...` of the given patterns.
pub open spec fn alternation_of(patterns: Seq<Seq<char>>) -> Seq<char>
    decreases patterns.len(),
{
    if patterns.len() == 0 {
        Seq::empty()
    } else if patterns.len() == 1 {
        wrap_group(patterns[0])
    } else {
        alternation_of(patterns.drop_last()) + seq!['|'] + wrap_group(patterns.last())
    }
}

pub open spec fn wrap_group(p: Seq<char>) -> Seq<char> {
    "(?:"@ + p + ")"@
}

/// Compiles the alternation of the given patterns into one pattern,
/// or reports the malformed pattern.
pub fn compile_into_regex(patterns: &Vec<String>) -> (r: Result<CompiledPattern, String>)
    ensures
        r is Ok ==> r->Ok_0@ == alternation_of(patterns@.map_values(|p: String| p@)),
{
    let mut joined = String::new();
    let mut i: usize = 0;
    let ghost views = patterns@.map_values(|p: String| p@);
    while i < patterns.len()
        invariant
            0 <= i <= patterns@.len(),
            views == patterns@.map_values(|p: String| p@),
            joined@ == alternation_of(views.take(i as int)),
        decreases patterns@.len() - i,
    {
        if i > 0 {
            joined.append("|");
        }
        joined.append("(?:");
        joined.append(patterns[i].as_str());
        joined.append(")");
        proof {
            reveal_strlit("|");
            reveal_strlit("(?:");
            reveal_strlit(")");
            assert(views.take(i + 1).drop_last() =~= views.take(i as int));
            assert(views.take(i + 1).last() == views[i as int]);
            if i == 0 {
                assert(joined@ =~= alternation_of(views.take(1)));
            } else {
                assert(joined@ =~= alternation_of(views.take(i as int)) + seq!['|']
                    + wrap_group(views[i as int]));
            }
        }
        i = i + 1;
    }
    proof {
        assert(views.take(patterns@.len() as int) =~= views);
    }
    CompiledPattern::new(joined.as_str())
}

} // verus!
