//! Shader sources.
//!
//! One text holds both stages of a program: the vertex stage, a line that
//! marks where the fragment stage begins, and the fragment stage. This
//! module cuts the text at the marker; compiling the stages is the
//! backend's part.

use vstd::prelude::*;
use vstd::string::StrSliceExecFns;

verus! {

/// The text that separates the vertex stage from the fragment stage.
pub open spec fn stage_marker() -> Seq<char> {
    seq!['#', ' ', 'f', 'r', 'a', 'g']
}

/// `pat` stands in `text` from position `i` on.
pub open spec fn occurs_at(text: Seq<char>, pat: Seq<char>, i: int) -> bool {
    &&& 0 <= i
    &&& i + pat.len() <= text.len()
    &&& text.subrange(i, i + pat.len()) == pat
}

/// `i` is the first position at or after `from` where `pat` stands in
/// `text`.
pub open spec fn is_next_match(text: Seq<char>, pat: Seq<char>, from: int, i: int) -> bool {
    &&& from <= i
    &&& occurs_at(text, pat, i)
    &&& forall|j: int| from <= j < i ==> !occurs_at(text, pat, j)
}

/// The first position at or after `from` where `pat` stands in `text`, or
/// the length of `text` where it stands nowhere from there on.
pub open spec fn next_match(text: Seq<char>, pat: Seq<char>, from: int) -> int {
    if exists|i: int| is_next_match(text, pat, from, i) {
        choose|i: int| is_next_match(text, pat, from, i)
    } else {
        text.len() as int
    }
}

/// The two stages of a shader text: what stands before the first marker,
/// and what stands between it and the next marker or, without one, the end
/// of the text. A text without a marker has no stages.
pub open spec fn stages_of(text: Seq<char>) -> Option<(Seq<char>, Seq<char>)> {
    let first = next_match(text, stage_marker(), 0);
    let begin = first + stage_marker().len();
    if occurs_at(text, stage_marker(), first) {
        Some((text.subrange(0, first), text.subrange(begin, next_match(text, stage_marker(), begin))))
    } else {
        None
    }
}

/// The first match is the only position that meets its description.
pub proof fn lemma_next_match_unique(text: Seq<char>, pat: Seq<char>, from: int, i: int)
    requires
        is_next_match(text, pat, from, i),
    ensures
        next_match(text, pat, from) == i,
{
    let k = choose|k: int| is_next_match(text, pat, from, k);
    assert(is_next_match(text, pat, from, k));
    if k < i {
        assert(!occurs_at(text, pat, k));
    } else if i < k {
        assert(!occurs_at(text, pat, i));
    }
}

/// Where the pattern stands nowhere from `from` on, the search ends at the
/// end of the text.
pub proof fn lemma_next_match_none(text: Seq<char>, pat: Seq<char>, from: int)
    requires
        forall|j: int| from <= j ==> !occurs_at(text, pat, j),
    ensures
        next_match(text, pat, from) == text.len(),
{
    if exists|i: int| is_next_match(text, pat, from, i) {
        let i = choose|i: int| is_next_match(text, pat, from, i);
        assert(!occurs_at(text, pat, i));
    }
}

/// The stages of a shader text, as slices of it.
#[derive(Copy, Clone, Debug)]
pub struct ShaderStages<'a> {
    pub vertex: &'a str,
    pub fragment: &'a str,
}

/// Why a shader text was refused.
#[derive(Copy, Clone, Debug, PartialEq, Eq, Structural)]
pub enum ShaderError {
    /// The text holds no stage marker.
    MissingMarker,
}

/// Whether the marker stands in `chars` from `i` on.
fn marker_at(chars: &Vec<char>, i: usize) -> (found: bool)
    ensures
        found == occurs_at(chars@, stage_marker(), i as int),
{
    if chars.len() < 6 || i > chars.len() - 6 {
        return false;
    }
    let found = chars[i] == '#' && chars[i + 1] == ' ' && chars[i + 2] == 'f' && chars[i + 3] == 'r'
        && chars[i + 4] == 'a' && chars[i + 5] == 'g';
    proof {
        let window = chars@.subrange(i as int, i + 6);
        if found {
            assert(window =~= stage_marker());
        } else {
            assert(window[0] == chars@[i as int]);
            assert(window[1] == chars@[i + 1]);
            assert(window[2] == chars@[i + 2]);
            assert(window[3] == chars@[i + 3]);
            assert(window[4] == chars@[i + 4]);
            assert(window[5] == chars@[i + 5]);
        }
    }
    found
}

/// The first position at or after `from` where the marker stands, or the
/// length of the text.
fn find_marker(chars: &Vec<char>, from: usize) -> (at: usize)
    requires
        from <= chars@.len(),
    ensures
        at == next_match(chars@, stage_marker(), from as int),
        from <= at <= chars@.len(),
        at < chars@.len() <==> occurs_at(chars@, stage_marker(), at as int),
{
    let mut i = from;
    while i < chars.len()
        invariant
            from <= i <= chars@.len(),
            forall|j: int| from <= j < i ==> !occurs_at(chars@, stage_marker(), j),
        decreases chars@.len() - i,
    {
        if marker_at(chars, i) {
            proof {
                lemma_next_match_unique(chars@, stage_marker(), from as int, i as int);
            }
            return i;
        }
        i += 1;
    }
    proof {
        lemma_next_match_none(chars@, stage_marker(), from as int);
    }
    i
}

/// Cuts a shader text into its stages, or says that it has no marker.
pub fn split_stages<'a>(file: &'a str) -> (stages: Result<ShaderStages<'a>, ShaderError>)
    ensures
        match stages {
            Ok(s) => stages_of(file@) == Some((s.vertex@, s.fragment@)),
            Err(e) => e == ShaderError::MissingMarker && stages_of(file@) is None,
        },
{
    let mut chars: Vec<char> = Vec::new();
    for c in it: file.chars()
        invariant
            it.seq() == file@,
            chars@ == it.seq().take(it.index()),
    {
        chars.push(c);
    }
    assert(chars@ == file@);
    let first = find_marker(&chars, 0);
    if first == chars.len() {
        return Err(ShaderError::MissingMarker);
    }
    let begin = first + 6;
    let end = find_marker(&chars, begin);
    Ok(ShaderStages { vertex: file.substring_char(0, first), fragment: file.substring_char(begin, end) })
}

} // verus!
