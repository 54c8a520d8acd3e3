//! Recognising `{{#compile_output: <step>}}` marker lines.
use vstd::prelude::*;
use crate::text::{
    chars_of, is_white_space, lemma_trim_start_is_suffix, lemma_trim_start_white_prefix,
    skip_white_space, skip_white_space_back, string_of, trim, trim_start,
};

verus! {

/// The text that opens a marker.
pub open spec fn marker_prefix() -> Seq<char> {
    seq!['{', '{', '#', 'c', 'o', 'm', 'p', 'i', 'l', 'e', '_', 'o', 'u', 't', 'p', 'u', 't', ':']
}

/// The text that closes a marker.
pub open spec fn marker_suffix() -> Seq<char> {
    seq!['}', '}']
}

/// The step named by `line`, when the line (after its leading whitespace) starts with the
/// marker prefix and what follows the prefix ends with the marker suffix.
pub open spec fn step_name_of(line: Seq<char>) -> Option<Seq<char>> {
    let t = trim_start(line);
    let p = marker_prefix();
    let after = t.skip(p.len() as int);
    if t.len() >= p.len() && t.take(p.len() as int) == p && after.len() >= 2 && after.skip(
        after.len() - 2,
    ) == marker_suffix() {
        Some(trim(after.take(after.len() - 2)))
    } else {
        None
    }
}

/// Where the step name of the line `s[lo..hi]` lies in `s`, if that line is a marker.
#[verifier::loop_isolation(false)]
pub(crate) fn step_name_range(s: &Vec<char>, lo: usize, hi: usize) -> (r: Option<(usize, usize)>)
    requires
        lo <= hi <= s@.len(),
    ensures
        match r {
            Some((a, b)) => lo <= a <= b <= hi && step_name_of(s@.subrange(lo as int, hi as int))
                == Some(s@.subrange(a as int, b as int)),
            None => step_name_of(s@.subrange(lo as int, hi as int)) is None,
        },
{
    let ghost line = s@.subrange(lo as int, hi as int);
    let t0 = skip_white_space(s, lo, hi);
    let ghost t = trim_start(line);
    assert(t =~= s@.subrange(t0 as int, hi as int));
    let prefix: Vec<char> = vec![
        '{', '{', '#', 'c', 'o', 'm', 'p', 'i', 'l', 'e', '_', 'o', 'u', 't', 'p', 'u', 't', ':',
    ];
    assert(prefix@ =~= marker_prefix());
    let n = prefix.len();
    if hi - t0 < n {
        return None;
    }
    let mut k: usize = 0;
    while k < n
        invariant
            0 <= k <= n,
            n == prefix@.len(),
            t0 + n <= hi <= s@.len(),
            forall|j: int| 0 <= j < k ==> s@[t0 + j] == prefix@[j],
            t == s@.subrange(t0 as int, hi as int),
            prefix@ == marker_prefix(),
        decreases n - k,
    {
        if s[t0 + k] != prefix[k] {
            assert(t.take(n as int)[k as int] != marker_prefix()[k as int]);
            assert(t.take(n as int) != marker_prefix());
            return None;
        }
        k = k + 1;
    }
    assert(t.take(n as int) =~= marker_prefix());
    let ghost after = t.skip(n as int);
    assert(after =~= s@.subrange(t0 + n, hi as int));
    if hi - t0 - n < 2 {
        return None;
    }
    if s[hi - 2] != '}' || s[hi - 1] != '}' {
        assert(after.skip(after.len() - 2)[0] == s@[hi - 2]);
        assert(after.skip(after.len() - 2)[1] == s@[hi - 1]);
        return None;
    }
    assert(after.skip(after.len() - 2) =~= marker_suffix());
    assert(after.take(after.len() - 2) =~= s@.subrange(t0 + n, hi - 2));
    let a = skip_white_space(s, t0 + n, hi - 2);
    let b = skip_white_space_back(s, a, hi - 2);
    Some((a, b))
}

/// The step name of `line` when the line is a marker, trimmed of surrounding whitespace.
pub fn extract_step_name(line: &str) -> (r: Option<String>)
    ensures
        match r {
            Some(name) => step_name_of(line@) == Some(name@),
            None => step_name_of(line@) is None,
        },
{
    let s = chars_of(line);
    assert(s@.subrange(0, s@.len() as int) =~= s@);
    match step_name_range(&s, 0, s.len()) {
        Some((a, b)) => Some(string_of(&s, a, b)),
        None => None,
    }
}

/// A marker line, indented by any whitespace, names the text between prefix and suffix with
/// its surrounding whitespace trimmed.
pub proof fn lemma_marker_step_name(lead: Seq<char>, name: Seq<char>)
    requires
        forall|i: int| 0 <= i < lead.len() ==> is_white_space(#[trigger] lead[i]),
    ensures
        step_name_of(lead + marker_prefix() + name + marker_suffix()) == Some(trim(name)),
{
    let rest = marker_prefix() + name + marker_suffix();
    assert(lead + marker_prefix() + name + marker_suffix() =~= lead + rest);
    lemma_trim_start_white_prefix(lead, rest);
    assert(rest[0] == '{');
    let p = marker_prefix();
    let after = rest.skip(p.len() as int);
    assert(rest.take(p.len() as int) =~= p);
    assert(after =~= name + marker_suffix());
    assert(after.skip(after.len() - 2) =~= marker_suffix());
    assert(after.take(after.len() - 2) =~= name);
}

/// A line that does not end with the marker suffix is no marker, whatever else it holds.
pub proof fn lemma_unclosed_marker(line: Seq<char>)
    requires
        !(line.len() >= 2 && line.skip(line.len() - 2) == marker_suffix()),
    ensures
        step_name_of(line) is None,
{
    let t = trim_start(line);
    lemma_trim_start_is_suffix(line);
    let p = marker_prefix();
    let after = t.skip(p.len() as int);
    if t.len() >= p.len() && after.len() >= 2 {
        assert(after.skip(after.len() - 2) =~= line.skip(line.len() - 2));
    }
}

} // verus!
