//! Splitting chapter text into lines and replacing marker lines with step output.
use vstd::prelude::*;
use vstd::string::StringExecFns;
use crate::marker::{step_name_of, step_name_range};
use crate::text::{chars_of, push_char, push_range, string_of};

verus! {

/// Number of characters before the first newline of `s` (all of them when there is none).
pub open spec fn newline_index(s: Seq<char>) -> nat
    decreases s.len(),
{
    if s.len() == 0 || s[0] == '\n' {
        0
    } else {
        1 + newline_index(s.drop_first())
    }
}

/// `line` without one carriage return at its end.
pub open spec fn strip_cr(line: Seq<char>) -> Seq<char> {
    if line.len() > 0 && line.last() == '\r' {
        line.drop_last()
    } else {
        line
    }
}

/// The lines of `s`: split at each `\n`, a `\r` before that `\n` removed, and no empty line
/// after a final `\n`. A carriage return not followed by `\n` stays in its line.
pub open spec fn lines_of(s: Seq<char>) -> Seq<Seq<char>>
    decreases s.len(),
{
    if s.len() == 0 {
        Seq::empty()
    } else {
        let j = newline_index(s);
        if j >= s.len() {
            seq![s]
        } else {
            seq![strip_cr(s.take(j as int))] + lines_of(s.skip(j + 1 as int))
        }
    }
}

/// The step names of the marker lines among `lines`, in order.
pub open spec fn step_names(lines: Seq<Seq<char>>) -> Seq<Seq<char>>
    decreases lines.len(),
{
    if lines.len() == 0 {
        Seq::empty()
    } else {
        match step_name_of(lines[0]) {
            Some(name) => seq![name] + step_names(lines.drop_first()),
            None => step_names(lines.drop_first()),
        }
    }
}

/// The step names of the marker lines of a chapter's text.
pub open spec fn content_steps(content: Seq<char>) -> Seq<Seq<char>> {
    step_names(lines_of(content))
}

/// `lines`, each followed by a newline, where the marker lines are replaced one after another
/// by the texts of `outs`.
pub open spec fn rendered(lines: Seq<Seq<char>>, outs: Seq<Seq<char>>) -> Seq<char>
    decreases lines.len(),
{
    if lines.len() == 0 {
        Seq::empty()
    } else {
        match step_name_of(lines[0]) {
            Some(_) => outs[0] + seq!['\n'] + rendered(lines.drop_first(), outs.drop_first()),
            None => lines[0] + seq!['\n'] + rendered(lines.drop_first(), outs),
        }
    }
}

/// A chapter's text with its marker lines replaced by `outs`, in order.
pub open spec fn rewritten(content: Seq<char>, outs: Seq<Seq<char>>) -> Seq<char> {
    rendered(lines_of(content), outs)
}

/// `lines`, each followed by a newline.
pub open spec fn joined_lines(lines: Seq<Seq<char>>) -> Seq<char>
    decreases lines.len(),
{
    if lines.len() == 0 {
        Seq::empty()
    } else {
        lines[0] + seq!['\n'] + joined_lines(lines.drop_first())
    }
}

/// A chapter's text with its line endings normalised: each line ended by one `\n`.
pub open spec fn normalized(content: Seq<char>) -> Seq<char> {
    joined_lines(lines_of(content))
}

/// The texts of a sequence of strings.
pub open spec fn texts(v: Seq<String>) -> Seq<Seq<char>> {
    v.map_values(|s: String| s@)
}

proof fn lemma_newline_index(t: Seq<char>, j: int)
    requires
        0 <= j <= t.len(),
        forall|m: int| 0 <= m < j ==> t[m] != '\n',
        j < t.len() ==> t[j] == '\n',
    ensures
        newline_index(t) == j,
    decreases j,
{
    if j > 0 {
        lemma_newline_index(t.drop_first(), j - 1);
    }
}

/// The lines of `s[start..]` when the first of them ends at `i` (a newline, or the end).
proof fn lemma_next_line(s: Seq<char>, start: int, i: int)
    requires
        0 <= start <= i <= s.len(),
        forall|m: int| start <= m < i ==> s[m] != '\n',
        i < s.len() ==> s[i] == '\n',
        start < s.len(),
    ensures
        i < s.len() ==> lines_of(s.skip(start)) == seq![strip_cr(s.subrange(start, i))] + lines_of(
            s.skip(i + 1),
        ),
        i == s.len() ==> lines_of(s.skip(start)) == seq![s.subrange(start, i)],
{
    let t = s.skip(start);
    lemma_newline_index(t, i - start);
    assert(t.take(i - start) =~= s.subrange(start, i));
    if i < s.len() {
        assert(t.skip(i - start + 1) =~= s.skip(i + 1));
    }
    assert(t =~= s.subrange(start, s.len() as int));
}

/// The end of the line that starts at `start` and stops before `i`, without a `\r` that precedes
/// the newline at `i`.
fn line_end(s: &Vec<char>, start: usize, i: usize) -> (e: usize)
    requires
        start <= i < s@.len(),
    ensures
        start <= e <= i,
        strip_cr(s@.subrange(start as int, i as int)) == s@.subrange(start as int, e as int),
{
    if i > start && s[i - 1] == '\r' {
        assert(s@.subrange(start as int, i as int).drop_last() =~= s@.subrange(start as int, i - 1));
        i - 1
    } else {
        i
    }
}

/// Appends the step name of the line `s[lo..hi]`, if it is a marker, to `names`.
fn collect_line(s: &Vec<char>, lo: usize, hi: usize, names: &mut Vec<String>)
    requires
        lo <= hi <= s@.len(),
    ensures
        texts(final(names)@) == texts(old(names)@) + step_names(seq![s@.subrange(lo as int, hi as int)]),
{
    let ghost line = s@.subrange(lo as int, hi as int);
    assert(seq![line].drop_first() =~= Seq::<Seq<char>>::empty());
    assert(step_names(Seq::<Seq<char>>::empty()) == Seq::<Seq<char>>::empty());
    match step_name_range(s, lo, hi) {
        Some((a, b)) => {
            names.push(string_of(s, a, b));
            assert(texts(names@) =~= texts(old(names)@) + seq![s@.subrange(a as int, b as int)]);
        },
        None => {
            assert(texts(names@) =~= texts(old(names)@) + Seq::<Seq<char>>::empty());
        },
    }
}

proof fn lemma_step_names_append(a: Seq<Seq<char>>, b: Seq<Seq<char>>)
    ensures
        step_names(a + b) == step_names(a) + step_names(b),
    decreases a.len(),
{
    if a.len() == 0 {
        assert(a + b =~= b);
    } else {
        lemma_step_names_append(a.drop_first(), b);
        assert((a + b).drop_first() =~= a.drop_first() + b);
    }
}

/// Appends the step names of the lines of `content` to `names`.
pub(crate) fn collect_steps(content: &str, names: &mut Vec<String>)
    ensures
        texts(final(names)@) == texts(old(names)@) + content_steps(content@),
{
    let s = chars_of(content);
    let n = s.len();
    let mut start: usize = 0;
    let mut i: usize = 0;
    assert(s@.skip(0) =~= s@);
    while i < n
        invariant
            0 <= start <= i <= n,
            n == s@.len(),
            s@ == content@,
            forall|m: int| start <= m < i ==> s@[m] != '\n',
            texts(names@) + step_names(lines_of(s@.skip(start as int))) == texts(old(names)@)
                + content_steps(content@),
        decreases n - i,
    {
        if s[i] == '\n' {
            proof {
                lemma_next_line(s@, start as int, i as int);
            }
            let e = line_end(&s, start, i);
            let ghost before = texts(names@);
            let ghost line = s@.subrange(start as int, e as int);
            let ghost rest = lines_of(s@.skip(i + 1));
            collect_line(&s, start, e, names);
            proof {
                lemma_step_names_append(seq![line], rest);
                assert(before + (step_names(seq![line]) + step_names(rest)) =~= texts(names@)
                    + step_names(rest));
            }
            start = i + 1;
        }
        i = i + 1;
    }
    if start < n {
        proof {
            lemma_next_line(s@, start as int, n as int);
        }
        collect_line(&s, start, n, names);
    } else {
        assert(s@.skip(start as int) =~= Seq::<char>::empty());
        assert(texts(names@) + Seq::<Seq<char>>::empty() =~= texts(names@));
    }
}

/// The step names of the marker lines of `content`, in order.
pub fn steps_in(content: &str) -> (r: Vec<String>)
    ensures
        texts(r@) == content_steps(content@),
{
    let mut names: Vec<String> = Vec::new();
    collect_steps(content, &mut names);
    assert(texts(Seq::<String>::empty()) + content_steps(content@) =~= content_steps(content@));
    names
}

/// Appends the line `s[lo..hi]` and a newline to `out`, the line replaced by `outputs[idx]` when
/// it is a marker; tells whether it was one.
fn emit_line(s: &Vec<char>, lo: usize, hi: usize, outputs: &Vec<String>, idx: usize, out: &mut String) -> (marker: bool)
    requires
        lo <= hi <= s@.len(),
        step_name_of(s@.subrange(lo as int, hi as int)) is Some ==> idx < outputs@.len(),
    ensures
        marker == step_name_of(s@.subrange(lo as int, hi as int)) is Some,
        final(out)@ == old(out)@ + (if marker {
            texts(outputs@)[idx as int]
        } else {
            s@.subrange(lo as int, hi as int)
        }) + seq!['\n'],
{
    let marker = match step_name_range(s, lo, hi) {
        Some(_) => {
            out.append(outputs[idx].as_str());
            true
        },
        None => {
            push_range(out, s, lo, hi);
            false
        },
    };
    push_char(out, '\n');
    marker
}

proof fn lemma_rendered_first(l: Seq<char>, rest: Seq<Seq<char>>, outs: Seq<Seq<char>>)
    ensures
        rendered(seq![l] + rest, outs) == (match step_name_of(l) {
            Some(_) => outs[0] + seq!['\n'] + rendered(rest, outs.drop_first()),
            None => l + seq!['\n'] + rendered(rest, outs),
        }),
{
    assert((seq![l] + rest)[0] == l);
    assert((seq![l] + rest).drop_first() =~= rest);
}

/// Only the first outputs, one per marker, take part in the rendering.
pub(crate) proof fn lemma_rendered_uses_prefix(lines: Seq<Seq<char>>, outs: Seq<Seq<char>>, n: int)
    requires
        step_names(lines).len() <= n <= outs.len(),
    ensures
        rendered(lines, outs) == rendered(lines, outs.take(n)),
    decreases lines.len(),
{
    if lines.len() > 0 {
        match step_name_of(lines[0]) {
            Some(_) => {
                assert(outs.take(n).drop_first() =~= outs.drop_first().take(n - 1));
                lemma_rendered_uses_prefix(lines.drop_first(), outs.drop_first(), n - 1);
            },
            None => {
                lemma_rendered_uses_prefix(lines.drop_first(), outs, n);
            },
        }
    }
}

/// `content` with its marker lines replaced by `outputs[from..]`, in order, and each line ended
/// by a single newline.
#[verifier::loop_isolation(false)]
#[verifier::rlimit(40)]
pub(crate) fn rewrite_content(content: &str, outputs: &Vec<String>, from: usize) -> (r: (
    String,
    usize,
))
    requires
        from + content_steps(content@).len() <= outputs@.len(),
    ensures
        r.0@ == rewritten(content@, texts(outputs@).skip(from as int)),
        r.1 == content_steps(content@).len(),
{
    let ghost outs = texts(outputs@).skip(from as int);
    let s = chars_of(content);
    let n = s.len();
    let mut out = String::new();
    let mut start: usize = 0;
    let mut i: usize = 0;
    let mut k: usize = 0;
    let total = outputs.len();
    assert(s@.skip(0) =~= s@);
    assert(outs.skip(0) =~= outs);
    assert(out@ + rendered(lines_of(s@), outs) =~= rendered(lines_of(s@), outs));
    while i < n
        invariant
            0 <= start <= i <= n,
            n == s@.len(),
            s@ == content@,
            forall|m: int| start <= m < i ==> s@[m] != '\n',
            out@ + rendered(lines_of(s@.skip(start as int)), outs.skip(k as int)) == rewritten(
                content@,
                outs,
            ),
            k + step_names(lines_of(s@.skip(start as int))).len() == content_steps(content@).len(),
        decreases n - i,
    {
        if s[i] == '\n' {
            proof {
                lemma_next_line(s@, start as int, i as int);
            }
            let e = line_end(&s, start, i);
            let ghost line = s@.subrange(start as int, e as int);
            let ghost rest = lines_of(s@.skip(i + 1));
            let ghost before = out@;
            proof {
                lemma_rendered_first(line, rest, outs.skip(k as int));
                assert(seq![line].drop_first() =~= Seq::<Seq<char>>::empty());
                assert(step_names(Seq::<Seq<char>>::empty()) == Seq::<Seq<char>>::empty());
                lemma_step_names_append(seq![line], rest);
            }
            assert(from + k <= total);
            let marker = emit_line(&s, start, e, outputs, from + k, &mut out);
            proof {
                if marker {
                    assert(outs.skip(k as int).drop_first() =~= outs.skip(k + 1));
                    assert(outs.skip(k as int)[0] == texts(outputs@)[from + k]);
                    assert(before + (outs.skip(k as int)[0] + seq!['\n'] + rendered(rest, outs.skip(k + 1)))
                        =~= out@ + rendered(rest, outs.skip(k + 1)));
                } else {
                    assert(before + (line + seq!['\n'] + rendered(rest, outs.skip(k as int)))
                        =~= out@ + rendered(rest, outs.skip(k as int)));
                }
            }
            if marker {
                k = k + 1;
            }
            start = i + 1;
        }
        i = i + 1;
    }
    if start < n {
        proof {
            lemma_next_line(s@, start as int, n as int);
        }
        let ghost line = s@.subrange(start as int, n as int);
        let ghost before = out@;
        proof {
            lemma_rendered_first(line, Seq::empty(), outs.skip(k as int));
            assert(seq![line] + Seq::<Seq<char>>::empty() =~= seq![line]);
            assert(seq![line].drop_first() =~= Seq::<Seq<char>>::empty());
            assert(step_names(Seq::<Seq<char>>::empty()) == Seq::<Seq<char>>::empty());
            assert(rendered(Seq::<Seq<char>>::empty(), outs.skip(k + 1)) == Seq::<char>::empty());
            assert(rendered(Seq::<Seq<char>>::empty(), outs.skip(k as int)) == Seq::<char>::empty());
        }
        assert(from + k <= total);
        let marker = emit_line(&s, start, n, outputs, from + k, &mut out);
        proof {
            if marker {
                assert(outs.skip(k as int)[0] == texts(outputs@)[from + k]);
                assert(before + (outs.skip(k as int)[0] + seq!['\n'] + Seq::<char>::empty()) =~= out@);
            } else {
                assert(before + (line + seq!['\n'] + Seq::<char>::empty()) =~= out@);
            }
        }
        if marker {
            k = k + 1;
        }
    } else {
        assert(s@.skip(start as int) =~= Seq::<char>::empty());
        assert(out@ + Seq::<char>::empty() =~= out@);
    }
    (out, k)
}

/// `content` with its marker lines replaced by `outputs`, one output per marker, in order.
/// `None` when the number of outputs differs from the number of markers.
pub fn process_compile(content: &str, outputs: &Vec<String>) -> (r: Option<String>)
    ensures
        r is Some <==> outputs@.len() == content_steps(content@).len(),
        r matches Some(text) ==> text@ == rewritten(content@, texts(outputs@)),
{
    let names = steps_in(content);
    if names.len() != outputs.len() {
        return None;
    }
    let (r, _) = rewrite_content(content, outputs, 0);
    assert(texts(outputs@).skip(0) =~= texts(outputs@));
    Some(r)
}

/// A line that is no marker is copied to the output as it is, followed by a newline, wherever
/// it stands among the other lines.
pub proof fn lemma_plain_line_kept(
    before: Seq<Seq<char>>,
    line: Seq<char>,
    after: Seq<Seq<char>>,
    outs: Seq<Seq<char>>,
)
    requires
        step_name_of(line) is None,
        step_names(before).len() <= outs.len(),
    ensures
        rendered(before + seq![line] + after, outs) == rendered(before, outs) + line + seq!['\n']
            + rendered(after, outs.skip(step_names(before).len() as int)),
    decreases before.len(),
{
    if before.len() == 0 {
        assert(before + seq![line] + after =~= seq![line] + after);
        assert(outs.skip(0) =~= outs);
        lemma_rendered_first(line, after, outs);
        assert(rendered(before, outs) == Seq::<char>::empty());
        assert(step_names(before) == Seq::<Seq<char>>::empty());
        assert(line + seq!['\n'] + rendered(after, outs) =~= Seq::<char>::empty() + line + seq!['\n']
            + rendered(after, outs));
    } else {
        let all = before + seq![line] + after;
        assert(all[0] == before[0]);
        assert(all.drop_first() =~= before.drop_first() + seq![line] + after);
        match step_name_of(before[0]) {
            Some(_) => {
                lemma_plain_line_kept(before.drop_first(), line, after, outs.drop_first());
                assert(outs.drop_first().skip(step_names(before.drop_first()).len() as int)
                    =~= outs.skip(step_names(before).len() as int));
            },
            None => {
                lemma_plain_line_kept(before.drop_first(), line, after, outs);
            },
        }
    }
}

/// A text of one line that is no marker comes out as that line followed by a newline.
pub proof fn lemma_plain_text_kept(line: Seq<char>, outs: Seq<Seq<char>>)
    requires
        line.len() > 0,
        forall|i: int| 0 <= i < line.len() ==> line[i] != '\n',
        step_name_of(line) is None,
    ensures
        lines_of(line) == seq![line],
        rewritten(line, outs) == line + seq!['\n'],
{
    lemma_next_line(line, 0, line.len() as int);
    assert(line.skip(0) =~= line);
    assert(line.subrange(0, line.len() as int) =~= line);
    lemma_rendered_first(line, Seq::empty(), outs);
    assert(seq![line] + Seq::<Seq<char>>::empty() =~= seq![line]);
    assert(rendered(Seq::<Seq<char>>::empty(), outs) == Seq::<char>::empty());
    assert(line + seq!['\n'] + Seq::<char>::empty() =~= line + seq!['\n']);
}

/// Lines without markers come out as they are, each followed by a newline.
pub proof fn lemma_no_markers_joined(lines: Seq<Seq<char>>, outs: Seq<Seq<char>>)
    requires
        step_names(lines).len() == 0,
    ensures
        rendered(lines, outs) == joined_lines(lines),
    decreases lines.len(),
{
    if lines.len() > 0 {
        lemma_no_markers_joined(lines.drop_first(), outs);
    }
}

/// A text without markers comes out with only its line endings normalised.
pub proof fn lemma_no_markers_normalized(content: Seq<char>, outs: Seq<Seq<char>>)
    requires
        content_steps(content).len() == 0,
    ensures
        rewritten(content, outs) == normalized(content),
{
    lemma_no_markers_joined(lines_of(content), outs);
}

} // verus!
