use vstd::prelude::*;

use crate::model::{chars_of, push_char};

verus! {

// ---------------------------------------------------------------------
// Splitting
// ---------------------------------------------------------------------

/// The pieces of `s` between occurrences of `sep`: one more piece than
/// there are separators, empty pieces included.
pub open spec fn split_on(s: Seq<char>, sep: char) -> Seq<Seq<char>>
    decreases s.len(),
{
    if s.len() == 0 {
        seq![Seq::empty()]
    } else {
        let p = split_on(s.drop_last(), sep);
        if s.last() == sep {
            p.push(Seq::empty())
        } else {
            p.update(p.len() - 1, p.last().push(s.last()))
        }
    }
}

/// Splitting always yields at least one segment.
pub proof fn lemma_split_on_nonempty(s: Seq<char>, sep: char)
    ensures
        split_on(s, sep).len() >= 1,
    decreases s.len(),
{
    if s.len() > 0 {
        lemma_split_on_nonempty(s.drop_last(), sep);
    }
}

/// How `split_on` grows by one character.
proof fn lemma_split_step(s: Seq<char>, j: int, sep: char)
    requires
        0 <= j < s.len(),
    ensures
        split_on(s.take(j + 1), sep) == if s[j] == sep {
            split_on(s.take(j), sep).push(Seq::empty())
        } else {
            split_on(s.take(j), sep).update(
                split_on(s.take(j), sep).len() - 1,
                split_on(s.take(j), sep).last().push(s[j]),
            )
        },
{
    assert(s.take(j + 1).drop_last() =~= s.take(j));
}

// ---------------------------------------------------------------------
// Paths
// ---------------------------------------------------------------------

/// A path segment that names no directory: empty, or `.`.
pub open spec fn blank_segment(seg: Seq<char>) -> bool {
    seg.len() == 0 || seg == seq!['.']
}

/// Folds one segment into a resolved path: `..` drops the last
/// component (if any), blank segments are skipped, others are appended.
pub open spec fn resolve_step(stack: Seq<Seq<char>>, seg: Seq<char>) -> Seq<Seq<char>> {
    if blank_segment(seg) {
        stack
    } else if seg == seq!['.', '.'] {
        if stack.len() > 0 {
            stack.drop_last()
        } else {
            stack
        }
    } else {
        stack.push(seg)
    }
}

/// The components left after resolving `.` and `..` lexically.
pub open spec fn resolve(segs: Seq<Seq<char>>) -> Seq<Seq<char>>
    decreases segs.len(),
{
    if segs.len() == 0 {
        Seq::empty()
    } else {
        resolve_step(resolve(segs.drop_last()), segs.last())
    }
}

/// The parts joined with `/` between them.
pub open spec fn join_slash(parts: Seq<Seq<char>>) -> Seq<char>
    decreases parts.len(),
{
    if parts.len() == 0 {
        Seq::empty()
    } else if parts.len() == 1 {
        parts[0]
    } else {
        join_slash(parts.drop_last()) + seq!['/'] + parts.last()
    }
}

/// A path with `.` and `..` resolved lexically and repeated or trailing
/// separators removed; an absolute path stays absolute.
pub open spec fn normalized(path: Seq<char>) -> Seq<char> {
    let root = if path.len() > 0 && path[0] == '/' {
        seq!['/']
    } else {
        Seq::empty()
    };
    root + join_slash(resolve(split_on(path, '/')))
}

/// Whether a character vector is `.` or `..`.
fn classify(seg: &Vec<char>) -> (r: (bool, bool))
    ensures
        r.0 == blank_segment(seg@),
        r.1 == (seg@ == seq!['.', '.']),
{
    let blank = seg.len() == 0 || (seg.len() == 1 && seg[0] == '.');
    let up = seg.len() == 2 && seg[0] == '.' && seg[1] == '.';
    proof {
        if seg.len() == 1 && seg[0] == '.' {
            assert(seg@ =~= seq!['.']);
        }
        if seg@ == seq!['.'] {
            assert(seg@[0] == '.');
        }
        if up {
            assert(seg@ =~= seq!['.', '.']);
        }
        if seg@ == seq!['.', '.'] {
            assert(seg@[0] == '.' && seg@[1] == '.');
        }
    }
    (blank, up)
}

/// Applies [`resolve_step`] to an executable stack.
fn resolve_into(stack: &mut Vec<Vec<char>>, seg: Vec<char>)
    ensures
        final(stack)@.map_values(|v: Vec<char>| v@) == resolve_step(
            old(stack)@.map_values(|v: Vec<char>| v@),
            seg@,
        ),
{
    let (blank, up) = classify(&seg);
    let ghost before = stack@.map_values(|v: Vec<char>| v@);
    if blank {
    } else if up {
        if stack.len() > 0 {
            stack.pop();
            proof {
                assert(stack@.map_values(|v: Vec<char>| v@) =~= before.drop_last());
            }
        }
    } else {
        stack.push(seg);
        proof {
            assert(stack@.map_values(|v: Vec<char>| v@) =~= before.push(seg@));
        }
    }
}

/// Appends the characters of `chars` to `out`.
fn push_all(out: &mut String, chars: &Vec<char>)
    ensures
        final(out)@ == old(out)@ + chars@,
{
    let mut i: usize = 0;
    while i < chars.len()
        invariant
            i <= chars@.len(),
            out@ == old(out)@ + chars@.take(i as int),
        decreases chars@.len() - i,
    {
        push_char(out, chars[i]);
        proof {
            assert(chars@.take(i + 1) =~= chars@.take(i as int).push(chars@[i as int]));
        }
        i = i + 1;
    }
    proof {
        assert(chars@.take(chars@.len() as int) =~= chars@);
    }
}

/// Appends the text of `s` to `out`.
pub fn append_str(out: &mut String, s: &str)
    ensures
        final(out)@ == old(out)@ + s@,
{
    let chars = chars_of(s);
    push_all(out, &chars);
}

/// Whether two strings hold the same text.
pub fn same_text(a: &str, b: &str) -> (r: bool)
    ensures
        r == (a@ == b@),
{
    a.to_owned() == b.to_owned()
}

/// Resolves `.` and `..` in `path` without looking at the file system.
pub fn normalize(path: &str) -> (r: String)
    ensures
        r@ == normalized(path@),
{
    let chars = chars_of(path);
    let ghost s = chars@;
    let mut stack: Vec<Vec<char>> = Vec::new();
    let mut current: Vec<char> = Vec::new();
    let mut j: usize = 0;
    proof {
        assert(s.take(0) =~= Seq::<char>::empty());
        assert(split_on(Seq::<char>::empty(), '/').drop_last() =~= Seq::<Seq<char>>::empty());
        assert(stack@.map_values(|v: Vec<char>| v@) =~= Seq::<Seq<char>>::empty());
    }
    while j < chars.len()
        invariant
            j <= s.len(),
            s == chars@,
            stack@.map_values(|v: Vec<char>| v@) == resolve(split_on(s.take(j as int), '/').drop_last()),
            current@ == split_on(s.take(j as int), '/').last(),
        decreases s.len() - j,
    {
        let c = chars[j];
        proof {
            lemma_split_step(s, j as int, '/');
            lemma_split_on_nonempty(s.take(j as int), '/');
        }
        let ghost p = split_on(s.take(j as int), '/');
        if c == '/' {
            let piece = current;
            current = Vec::new();
            resolve_into(&mut stack, piece);
            proof {
                let q = split_on(s.take(j + 1), '/');
                assert(q == p.push(Seq::empty()));
                assert(q.drop_last() =~= p);
                assert(p =~= p.drop_last().push(p.last()));
            }
        } else {
            current.push(c);
            proof {
                let q = split_on(s.take(j + 1), '/');
                assert(q.drop_last() =~= p.drop_last());
            }
        }
        j = j + 1;
    }
    let piece = current;
    resolve_into(&mut stack, piece);
    proof {
        assert(s.take(s.len() as int) =~= s);
        lemma_split_on_nonempty(s, '/');
        let p = split_on(s, '/');
        assert(p =~= p.drop_last().push(p.last()));
    }
    let mut out = String::new();
    if chars.len() > 0 && chars[0] == '/' {
        push_char(&mut out, '/');
    }
    let ghost root = out@;
    let ghost parts = stack@.map_values(|v: Vec<char>| v@);
    let mut i: usize = 0;
    proof {
        assert(parts.take(0) =~= Seq::<Seq<char>>::empty());
        assert(root =~= root + join_slash(Seq::<Seq<char>>::empty()));
    }
    while i < stack.len()
        invariant
            i <= stack@.len(),
            parts == stack@.map_values(|v: Vec<char>| v@),
            out@ == root + join_slash(parts.take(i as int)),
        decreases stack@.len() - i,
    {
        proof {
            assert(parts.take(i + 1).drop_last() =~= parts.take(i as int));
        }
        if i > 0 {
            push_char(&mut out, '/');
        }
        push_all(&mut out, &stack[i]);
        proof {
            assert(parts[i as int] == stack@[i as int]@);
            if i == 0 {
                assert(parts.take(1) =~= seq![parts[0]]);
            }
        }
        i = i + 1;
    }
    proof {
        assert(parts.take(parts.len() as int) =~= parts);
    }
    out
}

/// The last component of a list of path segments that names something:
/// blank segments are skipped, and a final `..` names nothing.
pub open spec fn last_component(segs: Seq<Seq<char>>) -> Option<Seq<char>>
    decreases segs.len(),
{
    if segs.len() == 0 {
        None
    } else if blank_segment(segs.last()) {
        last_component(segs.drop_last())
    } else if segs.last() == seq!['.', '.'] {
        None
    } else {
        Some(segs.last())
    }
}

/// The final component of a path, as `Path::file_name` gives it for
/// Unix paths: none for a root, an empty path, or a path ending in `..`.
pub open spec fn file_name(path: Seq<char>) -> Option<Seq<char>> {
    last_component(split_on(path, '/'))
}

/// Folds one segment into the last naming component seen so far.
fn last_into(last: &mut Option<Vec<char>>, seg: Vec<char>)
    ensures
        ({
            let before = match *old(last) {
                Some(v) => Some(v@),
                None => None::<Seq<char>>,
            };
            let after = match *final(last) {
                Some(v) => Some(v@),
                None => None::<Seq<char>>,
            };
            after == if blank_segment(seg@) {
                before
            } else if seg@ == seq!['.', '.'] {
                None
            } else {
                Some(seg@)
            }
        }),
{
    let (blank, up) = classify(&seg);
    if blank {
    } else if up {
        *last = None;
    } else {
        *last = Some(seg);
    }
}

/// A label for a directory: its final component, or `workspace` when it
/// has none.
pub fn sensible_label(path: &str) -> (r: String)
    ensures
        r@ == match file_name(path@) {
            Some(name) => name,
            None => "workspace"@,
        },
{
    let chars = chars_of(path);
    let ghost s = chars@;
    let mut last: Option<Vec<char>> = None;
    let mut current: Vec<char> = Vec::new();
    let mut j: usize = 0;
    while j < chars.len()
        invariant
            j <= s.len(),
            s == chars@,
            match last {
                Some(v) => Some(v@),
                None => None::<Seq<char>>,
            } == last_component(split_on(s.take(j as int), '/').drop_last()),
            current@ == split_on(s.take(j as int), '/').last(),
        decreases s.len() - j,
    {
        let c = chars[j];
        proof {
            lemma_split_step(s, j as int, '/');
            lemma_split_on_nonempty(s.take(j as int), '/');
        }
        let ghost p = split_on(s.take(j as int), '/');
        if c == '/' {
            let piece = current;
            current = Vec::new();
            last_into(&mut last, piece);
            proof {
                let q = split_on(s.take(j + 1), '/');
                assert(q.drop_last() =~= p);
                assert(p.drop_last() =~= p.drop_last());
            }
        } else {
            current.push(c);
            proof {
                let q = split_on(s.take(j + 1), '/');
                assert(q.drop_last() =~= p.drop_last());
            }
        }
        j = j + 1;
    }
    let piece = current;
    last_into(&mut last, piece);
    proof {
        assert(s.take(s.len() as int) =~= s);
        lemma_split_on_nonempty(s, '/');
        reveal_strlit("workspace");
    }
    match last {
        Some(name) => {
            let mut out = String::new();
            push_all(&mut out, &name);
            out
        },
        None => "workspace".to_owned(),
    }
}

// ---------------------------------------------------------------------
// Whitespace and lines
// ---------------------------------------------------------------------

/// The characters with the Unicode `White_Space` property, which
/// `char::is_whitespace` tests for.
pub open spec fn white_space(c: char) -> bool {
    ||| '\u{9}' <= c <= '\u{d}'
    ||| c == ' '
    ||| c == '\u{85}'
    ||| c == '\u{a0}'
    ||| c == '\u{1680}'
    ||| '\u{2000}' <= c <= '\u{200a}'
    ||| c == '\u{2028}'
    ||| c == '\u{2029}'
    ||| c == '\u{202f}'
    ||| c == '\u{205f}'
    ||| c == '\u{3000}'
}

/// Whether `c` is Unicode white space.
pub fn is_white_space(c: char) -> (r: bool)
    ensures
        r == white_space(c),
{
    ('\u{9}' <= c && c <= '\u{d}') || c == ' ' || c == '\u{85}' || c == '\u{a0}' || c == '\u{1680}'
        || ('\u{2000}' <= c && c <= '\u{200a}') || c == '\u{2028}' || c == '\u{2029}' || c
        == '\u{202f}' || c == '\u{205f}' || c == '\u{3000}'
}

/// Number of white-space characters at the start of `s`.
pub open spec fn leading_space(s: Seq<char>) -> int
    decreases s.len(),
{
    if s.len() > 0 && white_space(s[0]) {
        1 + leading_space(s.drop_first())
    } else {
        0
    }
}

/// Number of white-space characters at the end of `s`.
pub open spec fn trailing_space(s: Seq<char>) -> int
    decreases s.len(),
{
    if s.len() > 0 && white_space(s.last()) {
        1 + trailing_space(s.drop_last())
    } else {
        0
    }
}

/// `s` without leading and trailing white space, as `str::trim` gives
/// it.
pub open spec fn trimmed(s: Seq<char>) -> Seq<char> {
    let t = s.skip(leading_space(s));
    t.take(t.len() - trailing_space(t))
}

proof fn lemma_leading_space(s: Seq<char>, i: int)
    requires
        0 <= i <= s.len(),
        forall|k: int| 0 <= k < i ==> white_space(#[trigger] s[k]),
        i == s.len() || !white_space(s[i]),
    ensures
        leading_space(s) == i,
    decreases i,
{
    if i > 0 {
        let t = s.drop_first();
        assert forall|k: int| 0 <= k < i - 1 implies white_space(#[trigger] t[k]) by {
            assert(t[k] == s[k + 1]);
        }
        lemma_leading_space(t, i - 1);
    }
}

proof fn lemma_trailing_space(s: Seq<char>, i: int)
    requires
        0 <= i <= s.len(),
        forall|k: int| s.len() - i <= k < s.len() ==> white_space(#[trigger] s[k]),
        i == s.len() || !white_space(s[s.len() - 1 - i]),
    ensures
        trailing_space(s) == i,
    decreases i,
{
    if i > 0 {
        let t = s.drop_last();
        assert forall|k: int| t.len() - (i - 1) <= k < t.len() implies white_space(#[trigger] t[k]) by {
            assert(t[k] == s[k]);
        }
        lemma_trailing_space(t, i - 1);
    }
}

/// Bounds `[start, end)` of `s[from..to]` with white space trimmed off
/// both ends.
fn trim_bounds(s: &Vec<char>, from: usize, to: usize) -> (r: (usize, usize))
    requires
        from <= to <= s@.len(),
    ensures
        from <= r.0 <= r.1 <= to,
        s@.subrange(r.0 as int, r.1 as int) == trimmed(s@.subrange(from as int, to as int)),
{
    let ghost sub = s@.subrange(from as int, to as int);
    let mut a = from;
    while a < to && is_white_space(s[a])
        invariant
            from <= a <= to,
            to <= s@.len(),
            forall|k: int| from <= k < a ==> white_space(#[trigger] s@[k]),
        decreases to - a,
    {
        a = a + 1;
    }
    proof {
        assert forall|k: int| 0 <= k < a - from implies white_space(#[trigger] sub[k]) by {
            assert(sub[k] == s@[from + k]);
        }
        if a < to {
            assert(sub[a - from] == s@[a as int]);
        }
        lemma_leading_space(sub, a - from);
    }
    let ghost t = sub.skip(a - from);
    let mut b = to;
    while b > a && is_white_space(s[b - 1])
        invariant
            a <= b <= to,
            to <= s@.len(),
            forall|k: int| b <= k < to ==> white_space(#[trigger] s@[k]),
        decreases b - a,
    {
        b = b - 1;
    }
    proof {
        assert(t =~= s@.subrange(a as int, to as int));
        assert forall|k: int| t.len() - (to - b) <= k < t.len() implies white_space(#[trigger] t[k]) by {
            assert(t[k] == s@[a + k]);
        }
        if b > a {
            assert(t[t.len() - 1 - (to - b)] == s@[b - 1]);
        }
        lemma_trailing_space(t, to - b);
        assert(s@.subrange(a as int, b as int) =~= t.take(t.len() - (to - b)));
    }
    (a, b)
}

/// Position of the first white-space character of `s`, if any.
pub open spec fn first_space(s: Seq<char>) -> Option<int> {
    if exists|i: int| 0 <= i < s.len() && white_space(s[i]) {
        Some(
            choose|i: int|
                0 <= i < s.len() && white_space(s[i]) && forall|k: int|
                    0 <= k < i ==> !white_space(#[trigger] s[k]),
        )
    } else {
        None
    }
}

/// The path on one line of `zoxide query -l -s` output (score, white
/// space, path), trimmed; none when the line has no white space.
pub open spec fn zoxide_line_path(line: Seq<char>) -> Option<Seq<char>> {
    let t = trimmed(line);
    match first_space(t) {
        Some(w) => Some(trimmed(t.skip(w + 1))),
        None => None,
    }
}

/// The paths of the lines that carry one, in order.
pub open spec fn zoxide_lines(lines: Seq<Seq<char>>) -> Seq<Seq<char>>
    decreases lines.len(),
{
    if lines.len() == 0 {
        Seq::empty()
    } else {
        let rest = zoxide_lines(lines.drop_last());
        match zoxide_line_path(lines.last()) {
            Some(p) => rest.push(p),
            None => rest,
        }
    }
}

/// A copy of `s[from..to]` as a string.
fn string_of(s: &Vec<char>, from: usize, to: usize) -> (r: String)
    requires
        from <= to <= s@.len(),
    ensures
        r@ == s@.subrange(from as int, to as int),
{
    let mut out = String::new();
    let mut i = from;
    while i < to
        invariant
            from <= i <= to,
            to <= s@.len(),
            out@ == s@.subrange(from as int, i as int),
        decreases to - i,
    {
        push_char(&mut out, s[i]);
        proof {
            assert(s@.subrange(from as int, i + 1) =~= s@.subrange(from as int, i as int).push(
                s@[i as int],
            ));
        }
        i = i + 1;
    }
    out
}

/// The path of one line `s[from..to]`, if it has one.
fn line_path(s: &Vec<char>, from: usize, to: usize) -> (r: Option<String>)
    requires
        from <= to <= s@.len(),
    ensures
        match r {
            Some(p) => zoxide_line_path(s@.subrange(from as int, to as int)) == Some(p@),
            None => zoxide_line_path(s@.subrange(from as int, to as int)) is None,
        },
{
    let (a, b) = trim_bounds(s, from, to);
    let ghost t = s@.subrange(a as int, b as int);
    let mut w = a;
    while w < b && !is_white_space(s[w])
        invariant
            a <= w <= b,
            b <= s@.len(),
            forall|k: int| a <= k < w ==> !white_space(#[trigger] s@[k]),
        decreases b - w,
    {
        w = w + 1;
    }
    if w == b {
        proof {
            if exists|i: int| 0 <= i < t.len() && white_space(t[i]) {
                let i = choose|i: int| 0 <= i < t.len() && white_space(t[i]);
                assert(t[i] == s@[a + i]);
            }
        }
        return None;
    }
    let (c, d) = trim_bounds(s, w + 1, b);
    proof {
        let i = w - a;
        assert(t[i] == s@[w as int]);
        assert forall|k: int| 0 <= k < i implies !white_space(#[trigger] t[k]) by {
            assert(t[k] == s@[a + k]);
        }
        let f = choose|f: int|
            0 <= f < t.len() && white_space(t[f]) && forall|k: int| 0 <= k < f ==> !white_space(#[trigger] t[k]);
        if f < i {
            assert(t[f] == s@[a + f]);
        }
        if f > i {
            assert(!white_space(t[i]));
        }
        assert(t.skip(i + 1) =~= s@.subrange(w + 1, b as int));
    }
    Some(string_of(s, c, d))
}

/// The directory paths in `zoxide query -l -s` output: for each line
/// that has white space after trimming, what follows the first white
/// space, trimmed.
pub fn zoxide_paths(raw: &str) -> (r: Vec<String>)
    ensures
        r@.map_values(|p: String| p@) == zoxide_lines(split_on(raw@, '\n')),
{
    let chars = chars_of(raw);
    let ghost s = chars@;
    let mut paths: Vec<String> = Vec::new();
    let mut start: usize = 0;
    let mut j: usize = 0;
    proof {
        assert(s.take(0) =~= Seq::<char>::empty());
        assert(paths@.map_values(|p: String| p@) =~= Seq::<Seq<char>>::empty());
    }
    while j < chars.len()
        invariant
            start <= j <= s.len(),
            s == chars@,
            paths@.map_values(|p: String| p@) == zoxide_lines(
                split_on(s.take(j as int), '\n').drop_last(),
            ),
            s.subrange(start as int, j as int) == split_on(s.take(j as int), '\n').last(),
        decreases s.len() - j,
    {
        let c = chars[j];
        proof {
            lemma_split_step(s, j as int, '\n');
            lemma_split_on_nonempty(s.take(j as int), '\n');
        }
        let ghost p = split_on(s.take(j as int), '\n');
        let ghost before = paths@.map_values(|p: String| p@);
        if c == '\n' {
            let found = line_path(&chars, start, j);
            match found {
                Some(path) => {
                    paths.push(path);
                },
                None => {},
            }
            proof {
                let q = split_on(s.take(j + 1), '\n');
                assert(q.drop_last() =~= p);
                assert(p =~= p.drop_last().push(p.last()));
                assert(paths@.map_values(|p: String| p@) =~= zoxide_lines(q.drop_last()));
                assert(s.subrange(j + 1, j + 1) =~= q.last());
            }
            start = j + 1;
        } else {
            proof {
                let q = split_on(s.take(j + 1), '\n');
                assert(q.drop_last() =~= p.drop_last());
                assert(s.subrange(start as int, j + 1) =~= q.last());
            }
        }
        j = j + 1;
    }
    let found = line_path(&chars, start, j);
    let ghost before = paths@.map_values(|p: String| p@);
    match found {
        Some(path) => {
            paths.push(path);
        },
        None => {},
    }
    proof {
        assert(s.take(s.len() as int) =~= s);
        lemma_split_on_nonempty(s, '\n');
        let p = split_on(s, '\n');
        assert(p =~= p.drop_last().push(p.last()));
        assert(paths@.map_values(|p: String| p@) =~= zoxide_lines(p));
    }
    paths
}

} // verus!
