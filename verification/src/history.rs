//! Reading the change history: which node a changed file belongs to, what
//! a `git log` or `git diff-tree` line says, and the one-line summaries
//! shown for bodies and comments.
use vstd::prelude::*;

use crate::json::{
    array_len, json_array_len, json_bool_value, json_equal, json_is_null, json_member,
    json_str_value, json_string_members, json_text, member, shape, string_member, text_of,
    values_equal, JsonShape, array_items, json_array_items, json_parsed, json_text_valid, parse_json,
};
use crate::model::ov;
use crate::text::{
    chars_of, contains_substring, ends_with, has_substring, is_suffix, split_chars, split_on,
    string_of, trailing_space, trim, trim_str, white_space, is_white_space,
};

verus! {

/// The part of `s` after its last `c`; all of `s` when it holds no `c`.
pub open spec fn after_last(s: Seq<char>, c: char) -> Seq<char>
    decreases s.len(),
{
    if s.len() == 0 {
        s
    } else if s.last() == c {
        Seq::empty()
    } else {
        after_last(s.drop_last(), c).push(s.last())
    }
}

/// The node ID in a path such as `.complex/nodes/lnIl.json`: the file name
/// without `suffix`, or `?` when the file name does not end with it.
pub open spec fn id_in_path(path: Seq<char>, suffix: Seq<char>) -> Seq<char> {
    let f = after_last(path, '/');
    if is_suffix(suffix, f) {
        f.subrange(0, f.len() - suffix.len())
    } else {
        seq!['?']
    }
}

/// The position just after the last `c` in `x`, and the characters that
/// follow it.
pub(crate) fn after_last_chars(x: &Vec<char>, c: char) -> (r: Vec<char>)
    ensures
        r@ == after_last(x@, c),
{
    let mut start: usize = 0;
    let mut i: usize = 0;
    assert(x@.subrange(0, 0) =~= Seq::<char>::empty());
    while i < x.len()
        invariant
            start <= i <= x.len(),
            after_last(x@.subrange(0, i as int), c) == x@.subrange(start as int, i as int),
        decreases x.len() - i,
    {
        assert(x@.subrange(0, i + 1).drop_last() =~= x@.subrange(0, i as int));
        if x[i] == c {
            start = i + 1;
            assert(x@.subrange(start as int, i + 1) =~= Seq::<char>::empty());
        } else {
            assert(x@.subrange(start as int, i + 1) =~= x@.subrange(start as int, i as int).push(x@[i as int]));
        }
        i += 1;
    }
    assert(x@.subrange(0, x.len() as int) =~= x@);
    let mut r: Vec<char> = Vec::new();
    let mut k: usize = start;
    while k < x.len()
        invariant
            start <= k <= x.len(),
            r@ == x@.subrange(start as int, k as int),
        decreases x.len() - k,
    {
        r.push(x[k]);
        assert(r@ =~= x@.subrange(start as int, k + 1));
        k += 1;
    }
    r
}

/// Extracts the node ID from a path like `.complex/nodes/lnIl.json`, given
/// the suffix `.json`.
pub fn extract_id(path: &str, suffix: &str) -> (r: String)
    ensures
        r@ == id_in_path(path@, suffix@),
{
    let x = chars_of(path);
    let f = after_last_chars(&x, '/');
    let fs = string_of(&f);
    if ends_with(fs.as_str(), suffix) {
        let n = f.len() - suffix.unicode_len();
        let mut r: Vec<char> = Vec::new();
        let mut k: usize = 0;
        while k < n
            invariant
                n <= f.len(),
                k <= n,
                r@ == f@.subrange(0, k as int),
            decreases n - k,
        {
            r.push(f[k]);
            assert(r@ =~= f@.subrange(0, k + 1));
            k += 1;
        }
        string_of(&r)
    } else {
        let mut r = String::new();
        crate::text::push_char(&mut r, '?');
        assert(r@ =~= seq!['?']);
        r
    }
}

/// Where a changed file lies under `.complex/`.
#[derive(Clone, Copy, Debug, PartialEq, Eq, Structural)]
pub enum FileKind {
    /// A node file, `nodes/<id>.json`.
    Node,
    /// An archived node file, `archive/nodes/<id>.json`.
    ArchivedNode,
    /// A node's comments, `issues/<id>.comments.json`.
    Comments,
    /// A node's body, `issues/<id>.md`.
    Body,
    /// Anything else.
    Other,
}

/// How a changed path is routed, tested in this order. An archived node
/// file also lies under a `/nodes/` directory, so it is routed as a node
/// file.
pub open spec fn kind_of_path(path: Seq<char>) -> FileKind {
    if has_substring(path, "/nodes/"@) && is_suffix(".json"@, path) {
        FileKind::Node
    } else if has_substring(path, "/archive/nodes/"@) && is_suffix(".json"@, path) {
        FileKind::ArchivedNode
    } else if has_substring(path, "/issues/"@) && is_suffix(".comments.json"@, path) {
        FileKind::Comments
    } else if has_substring(path, "/issues/"@) && is_suffix(".md"@, path) {
        FileKind::Body
    } else {
        FileKind::Other
    }
}

/// The suffix that follows the node ID in a file of this kind.
pub open spec fn kind_suffix(k: FileKind) -> Seq<char> {
    match k {
        FileKind::Comments => ".comments.json"@,
        FileKind::Body => ".md"@,
        _ => ".json"@,
    }
}

/// Routes a changed path to the kind of file it is.
pub fn classify_path(path: &str) -> (r: FileKind)
    ensures
        r == kind_of_path(path@),
{
    if contains_substring(path, "/nodes/") && ends_with(path, ".json") {
        FileKind::Node
    } else if contains_substring(path, "/archive/nodes/") && ends_with(path, ".json") {
        FileKind::ArchivedNode
    } else if contains_substring(path, "/issues/") && ends_with(path, ".comments.json") {
        FileKind::Comments
    } else if contains_substring(path, "/issues/") && ends_with(path, ".md") {
        FileKind::Body
    } else {
        FileKind::Other
    }
}

/// The node a changed file belongs to: its kind and the ID in its name;
/// `None` for a file that belongs to no node.
pub fn route_path(path: &str) -> (r: Option<(FileKind, String)>)
    ensures
        match r {
            Some((k, id)) => k == kind_of_path(path@) && k != FileKind::Other
                && id@ == id_in_path(path@, kind_suffix(k)),
            None => kind_of_path(path@) == FileKind::Other,
        },
{
    let k = classify_path(path);
    match k {
        FileKind::Other => None,
        FileKind::Comments => Some((k, extract_id(path, ".comments.json"))),
        FileKind::Body => Some((k, extract_id(path, ".md"))),
        _ => Some((k, extract_id(path, ".json"))),
    }
}

/// The position of the first `c` in `s`, or -1.
pub open spec fn first_index(s: Seq<char>, c: char) -> int
    decreases s.len(),
{
    if s.len() == 0 {
        -1
    } else if s[0] == c {
        0
    } else {
        let r = first_index(s.drop_first(), c);
        if r < 0 {
            -1
        } else {
            r + 1
        }
    }
}

proof fn lemma_first_index(s: Seq<char>, c: char)
    ensures
        -1 <= first_index(s, c) < s.len(),
        first_index(s, c) >= 0 ==> s[first_index(s, c)] == c,
        forall|j: int| 0 <= j < s.len() && (first_index(s, c) < 0 || j < first_index(s, c)) ==> s[j] != c,
    decreases s.len(),
{
    if s.len() > 0 && s[0] != c {
        lemma_first_index(s.drop_first(), c);
        assert forall|j: int| 0 <= j < s.len() && (first_index(s, c) < 0 || j < first_index(s, c)) implies s[j] != c by {
            if j > 0 {
                assert(s[j] == s.drop_first()[j - 1]);
            }
        }
    }
}

/// The first character of the last white-space-separated word of `s`, or
/// `?` when `s` has no word.
pub open spec fn last_word_initial(s: Seq<char>) -> char {
    let t = s.subrange(0, s.len() - trailing_space(s));
    if t.len() == 0 {
        '?'
    } else {
        let w = t.subrange(last_space_end(t), t.len() as int);
        w[0]
    }
}

/// The position just after the last white-space character of `s` (0 when
/// there is none).
pub open spec fn last_space_end(s: Seq<char>) -> int
    decreases s.len(),
{
    if s.len() == 0 {
        0
    } else if white_space(s.last()) {
        s.len() as int
    } else {
        last_space_end(s.drop_last())
    }
}

proof fn lemma_last_space_end(s: Seq<char>)
    ensures
        0 <= last_space_end(s) <= s.len(),
        s.len() > 0 && !white_space(s.last()) ==> last_space_end(s) < s.len(),
    decreases s.len(),
{
    if s.len() > 0 && !white_space(s.last()) {
        lemma_last_space_end(s.drop_last());
    }
}

proof fn lemma_trailing(s: Seq<char>)
    ensures
        trailing_space(s) <= s.len(),
        trailing_space(s) < s.len() ==> !white_space(s[s.len() - 1 - trailing_space(s)]),
    decreases s.len(),
{
    if s.len() > 0 && white_space(s.last()) {
        lemma_trailing(s.drop_last());
    }
}

/// A line of `git diff-tree -r` output, `:old_mode new_mode old_hash
/// new_hash status<TAB>path`, read as the status letter and the path;
/// `None` for a line without a tab.
pub open spec fn diff_tree_entry(line: Seq<char>) -> Option<(char, Seq<char>)> {
    let t = first_index(line, '\t');
    if t < 0 {
        None
    } else {
        Some((last_word_initial(line.subrange(0, t)), line.subrange(t + 1, line.len() as int)))
    }
}

/// Reads a `git diff-tree` line as its status letter and path.
pub fn parse_diff_tree_line(line: &str) -> (r: Option<(char, String)>)
    ensures
        match r {
            Some((c, p)) => diff_tree_entry(line@) == Some((c, p@)),
            None => diff_tree_entry(line@) is None,
        },
{
    let x = chars_of(line);
    proof {
        lemma_first_index(x@, '\t');
    }
    let mut t: usize = 0;
    while t < x.len() && x[t] != '\t'
        invariant
            t <= x.len(),
            x@ == line@,
            forall|j: int| 0 <= j < t ==> x@[j] != '\t',
            -1 <= first_index(x@, '\t') < x@.len(),
            first_index(x@, '\t') >= 0 ==> x@[first_index(x@, '\t')] == '\t',
            forall|j: int|
                0 <= j < x@.len() && (first_index(x@, '\t') < 0 || j < first_index(x@, '\t')) ==> x@[j]
                    != '\t',
        decreases x.len() - t,
    {
        t += 1;
    }
    if t == x.len() {
        assert(first_index(x@, '\t') < 0);
        return None;
    }
    assert(t as int == first_index(x@, '\t'));
    let ghost modes = x@.subrange(0, t as int);
    proof {
        lemma_trailing(modes);
    }
    let mut e: usize = t;
    while e > 0 && is_white_space(x[e - 1])
        invariant
            e <= t < x@.len(),
            modes == x@.subrange(0, t as int),
            trailing_space(modes) <= modes.len(),
            trailing_space(modes) < modes.len() ==> !white_space(modes[modes.len() - 1 - trailing_space(modes)]),
            t - e <= trailing_space(modes),
            forall|j: int| e <= j < t ==> white_space(#[trigger] x@[j]),
        decreases e,
    {
        e -= 1;
    }
    proof {
        if (t - e) < trailing_space(modes) {
            lemma_trailing_run(modes, (t - e) as nat);
        }
    }
    assert(e as int == modes.len() - trailing_space(modes));
    let ghost w = modes.subrange(0, e as int);
    let status = if e == 0 {
        '?'
    } else {
        proof {
            lemma_last_space_end(w);
            assert(w.last() == x@[e - 1]);
            assert(w.subrange(0, e as int) =~= w);
        }
        let mut s: usize = e;
        while s > 0 && !is_white_space(x[s - 1])
            invariant
                s <= e <= t,
                t < x@.len(),
                w == x@.subrange(0, e as int),
                last_space_end(w) == last_space_end(w.subrange(0, s as int)),
                last_space_end(w.subrange(0, s as int)) <= s,
            decreases s,
        {
            proof {
                let ws = w.subrange(0, s as int);
                assert(ws.drop_last() =~= w.subrange(0, s - 1));
                assert(ws.last() == x@[s - 1]);
                lemma_last_space_end(w.subrange(0, s - 1));
            }
            s -= 1;
        }
        proof {
            let ws = w.subrange(0, s as int);
            if s > 0 {
                assert(ws.last() == x@[s - 1]);
            } else {
                assert(ws.len() == 0);
            }
        }
        assert(last_space_end(w) == s);
        assert(w.subrange(s as int, w.len() as int)[0] == x@[s as int]);
        x[s]
    };
    let mut p: Vec<char> = Vec::new();
    let mut k: usize = t + 1;
    while k < x.len()
        invariant
            t + 1 <= k <= x.len(),
            p@ == x@.subrange(t + 1, k as int),
        decreases x.len() - k,
    {
        p.push(x[k]);
        assert(p@ =~= x@.subrange(t + 1, k + 1));
        k += 1;
    }
    Some((status, string_of(&p)))
}

/// Trailing white space of `s` runs at least `n + 1` characters when it
/// runs more than `n`.
proof fn lemma_trailing_run(s: Seq<char>, n: nat)
    requires
        n < trailing_space(s),
    ensures
        white_space(s[s.len() - 1 - n]),
    decreases s.len(),
{
    lemma_trailing(s);
    if n > 0 {
        lemma_trailing_run(s.drop_last(), (n - 1) as nat);
        assert(s.drop_last()[s.drop_last().len() - 1 - (n - 1)] == s[s.len() - 1 - n]);
    }
}

/// The first of `lines` that is not blank, trimmed; empty when all are.
pub open spec fn first_filled(lines: Seq<Seq<char>>) -> Seq<char>
    decreases lines.len(),
{
    if lines.len() == 0 {
        Seq::empty()
    } else if trim(lines[0]).len() > 0 {
        trim(lines[0])
    } else {
        first_filled(lines.drop_first())
    }
}

/// The first non-blank line of `text`, trimmed. (A line that ends in
/// `\r\n` loses the `\r` to the trimming.)
pub open spec fn first_text_line(text: Seq<char>) -> Seq<char> {
    first_filled(split_on(text, '\n'))
}

/// How many bytes UTF-8 spends on `c`.
pub open spec fn utf8_width(c: char) -> nat {
    if (c as int) < 0x80 {
        1
    } else if (c as int) < 0x800 {
        2
    } else if (c as int) < 0x10000 {
        3
    } else {
        4
    }
}

/// The length of `s` in UTF-8 bytes (what `str::len` gives).
pub open spec fn utf8_len(s: Seq<char>) -> nat
    decreases s.len(),
{
    if s.len() == 0 {
        0
    } else {
        utf8_len(s.drop_last()) + utf8_width(s.last())
    }
}

/// `k` characters of `s` are the longest prefix that fits in `n` bytes:
/// they take at most `n` bytes, and one more character would not fit.
pub open spec fn longest_fit(s: Seq<char>, n: nat, k: int) -> bool {
    &&& 0 <= k <= s.len()
    &&& utf8_len(s.take(k)) <= n
    &&& (k == s.len() || utf8_len(s.take(k + 1)) > n)
}

/// The first non-blank line, trimmed; past 80 bytes, the longest prefix of
/// it that fits in 77 bytes (ending on a character boundary), followed by
/// `...`.
pub open spec fn summary_line(text: Seq<char>) -> Seq<char> {
    let line = first_text_line(text);
    if utf8_len(line) <= 80 {
        line
    } else {
        line.take(choose|k: int| longest_fit(line, 77, k)) + seq!['.', '.', '.']
    }
}

proof fn lemma_utf8_take(s: Seq<char>, k: int)
    requires
        0 <= k < s.len(),
    ensures
        utf8_len(s.take(k + 1)) == utf8_len(s.take(k)) + utf8_width(s[k]),
{
    assert(s.take(k + 1).drop_last() =~= s.take(k));
}

proof fn lemma_utf8_monotone(s: Seq<char>, a: int, b: int)
    requires
        0 <= a < b <= s.len(),
    ensures
        utf8_len(s.take(a)) < utf8_len(s.take(b)),
    decreases b - a,
{
    lemma_utf8_take(s, b - 1);
    if a < b - 1 {
        lemma_utf8_monotone(s, a, b - 1);
    }
}

fn width_of(c: char) -> (w: usize)
    ensures
        w == utf8_width(c),
{
    let v = c as u32;
    if v < 0x80 {
        1
    } else if v < 0x800 {
        2
    } else if v < 0x10000 {
        3
    } else {
        4
    }
}

/// The first non-blank line of `text`, trimmed.
fn text_line(text: &str) -> (r: Vec<char>)
    ensures
        r@ == first_text_line(text@),
{
    let x = chars_of(text);
    let pieces = split_chars(&x, '\n');
    let ghost all = pieces@.map_values(|v: Vec<char>| v@);
    let mut k: usize = 0;
    assert(all.subrange(0, all.len() as int) =~= all);
    while k < pieces.len()
        invariant
            k <= pieces@.len(),
            all == pieces@.map_values(|v: Vec<char>| v@),
            all == split_on(text@, '\n'),
            first_filled(all) == first_filled(all.subrange(k as int, all.len() as int)),
        decreases pieces@.len() - k,
    {
        let t = trim_str(&pieces[k]);
        let ghost rest = all.subrange(k as int, all.len() as int);
        assert(rest[0] == pieces@[k as int]@);
        if t.len() > 0 {
            return t;
        }
        assert(rest.drop_first() =~= all.subrange(k + 1, all.len() as int));
        k += 1;
    }
    Vec::new()
}

/// How many characters of `line` make the longest prefix within `limit` bytes.
fn fit_prefix(line: &Vec<char>, limit: usize) -> (k: usize)
    requires
        limit < usize::MAX - 4,
    ensures
        longest_fit(line@, limit as nat, k as int),
{
    let mut acc: usize = 0;
    let mut k: usize = 0;
    assert(line@.take(0) =~= Seq::<char>::empty());
    while k < line.len()
        invariant
            k <= line@.len(),
            acc == utf8_len(line@.take(k as int)),
            acc <= limit < usize::MAX - 4,
        decreases line@.len() - k,
    {
        proof {
            lemma_utf8_take(line@, k as int);
        }
        let w = width_of(line[k]);
        if acc + w > limit {
            return k;
        }
        acc = acc + w;
        k += 1;
    }
    k
}

/// The longest prefix that fits is one.
proof fn lemma_longest_fit_unique(s: Seq<char>, n: nat, a: int, b: int)
    requires
        longest_fit(s, n, a),
        longest_fit(s, n, b),
    ensures
        a == b,
{
    if a < b {
        if a + 1 < b {
            lemma_utf8_monotone(s, a + 1, b);
        }
    } else if b < a {
        if b + 1 < a {
            lemma_utf8_monotone(s, b + 1, a);
        }
    }
}

/// The first non-blank line of `text`, trimmed and cut for display: a line
/// longer than 80 bytes keeps the longest prefix that fits in 77 bytes and
/// gains `...`.
pub fn first_line(text: &str) -> (r: String)
    ensures
        r@ == summary_line(text@),
{
    let line = text_line(text);
    let whole = fit_prefix(&line, 80);
    if whole == line.len() {
        proof {
            assert(line@.take(line@.len() as int) =~= line@);
        }
        return string_of(&line);
    }
    proof {
        assert(line@.take(line@.len() as int) =~= line@);
        if whole + 1 < line@.len() {
            lemma_utf8_monotone(line@, whole + 1, line@.len() as int);
        }
        assert(utf8_len(line@) > 80);
    }
    let k = fit_prefix(&line, 77);
    proof {
        let c = choose|c: int| longest_fit(line@, 77, c);
        lemma_longest_fit_unique(line@, 77, c, k as int);
    }
    let mut r: Vec<char> = Vec::new();
    let mut i: usize = 0;
    while i < k
        invariant
            k <= line@.len(),
            i <= k,
            r@ == line@.take(i as int),
        decreases k - i,
    {
        r.push(line[i]);
        assert(r@ =~= line@.take(i + 1));
        i += 1;
    }
    r.push('.');
    r.push('.');
    r.push('.');
    assert(r@ =~= line@.take(k as int) + seq!['.', '.', '.']);
    string_of(&r)
}

/// `s` without one trailing `\r`.
pub open spec fn strip_cr(s: Seq<char>) -> Seq<char> {
    if s.len() > 0 && s.last() == '\r' {
        s.drop_last()
    } else {
        s
    }
}

/// The lines of `s` as `str::lines` gives them: cut at each `\n`, a `\r`
/// before the `\n` dropped; the last piece keeps its `\r` (and, when it is
/// empty, is not a line, which no caller here can tell apart).
pub open spec fn text_lines(s: Seq<char>) -> Seq<Seq<char>> {
    let p = split_on(s, '\n');
    Seq::new(p.len(), |i: int| if i < p.len() - 1 { strip_cr(p[i]) } else { p[i] })
}

/// A line of `git log --pretty=format:%H%x00%aI%x00%s` read as hash, date
/// and subject: the text before the first NUL, between the first and the
/// second, and after the second. `None` for a line with fewer than two NULs.
pub open spec fn commit_of(line: Seq<char>) -> Option<(Seq<char>, Seq<char>, Seq<char>)> {
    let a = first_index(line, '\0');
    let rest = line.subrange(a + 1, line.len() as int);
    let b = first_index(rest, '\0');
    if a < 0 || b < 0 {
        None
    } else {
        Some((line.subrange(0, a), rest.subrange(0, b), rest.subrange(b + 1, rest.len() as int)))
    }
}

/// The commits that `lines` hold, in order; lines that hold none (empty
/// lines among them) are skipped.
pub open spec fn commits_of(lines: Seq<Seq<char>>) -> Seq<(Seq<char>, Seq<char>, Seq<char>)>
    decreases lines.len(),
{
    if lines.len() == 0 {
        Seq::empty()
    } else {
        commits_of(lines.drop_last()) + match commit_of(lines.last()) {
            Some(c) => seq![c],
            None => Seq::empty(),
        }
    }
}

/// The position of the first `c` in `x`, if any.
fn find_char(x: &Vec<char>, from: usize, c: char) -> (r: Option<usize>)
    requires
        from <= x.len(),
    ensures
        ({
            let s = x@.subrange(from as int, x@.len() as int);
            match r {
                Some(i) => from <= i < x.len() && i - from == first_index(s, c),
                None => first_index(s, c) < 0,
            }
        }),
{
    let ghost s = x@.subrange(from as int, x@.len() as int);
    proof {
        lemma_first_index(s, c);
    }
    let mut i: usize = from;
    while i < x.len()
        invariant
            from <= i <= x.len(),
            s == x@.subrange(from as int, x@.len() as int),
            forall|j: int| from <= j < i ==> x@[j] != c,
            -1 <= first_index(s, c) < s.len(),
            first_index(s, c) >= 0 ==> s[first_index(s, c)] == c,
            forall|j: int|
                0 <= j < s.len() && (first_index(s, c) < 0 || j < first_index(s, c)) ==> s[j] != c,
        decreases x.len() - i,
    {
        if x[i] == c {
            assert(s[i - from] == c);
            return Some(i);
        }
        i += 1;
    }
    proof {
        if first_index(s, c) >= 0 {
            assert(s[first_index(s, c)] == x@[from + first_index(s, c)]);
        }
    }
    None
}

fn sub_string(x: &Vec<char>, a: usize, b: usize) -> (r: String)
    requires
        a <= b <= x.len(),
    ensures
        r@ == x@.subrange(a as int, b as int),
{
    let mut v: Vec<char> = Vec::new();
    let mut k: usize = a;
    while k < b
        invariant
            a <= k <= b,
            b <= x.len(),
            v@ == x@.subrange(a as int, k as int),
        decreases b - k,
    {
        v.push(x[k]);
        assert(v@ =~= x@.subrange(a as int, k + 1));
        k += 1;
    }
    string_of(&v)
}

/// Reads one line of the log as hash, date and subject.
fn parse_commit(x: &Vec<char>) -> (r: Option<(String, String, String)>)
    ensures
        match r {
            Some((h, d, s)) => commit_of(x@) == Some((h@, d@, s@)),
            None => commit_of(x@) is None,
        },
{
    assert(x@.subrange(0, x@.len() as int) =~= x@);
    let a = match find_char(x, 0, '\0') {
        Some(a) => a,
        None => {
            return None;
        },
    };
    let ghost rest = x@.subrange(a + 1, x@.len() as int);
    let b = match find_char(x, a + 1, '\0') {
        Some(b) => b,
        None => {
            return None;
        },
    };
    let h = sub_string(x, 0, a);
    let d = sub_string(x, a + 1, b);
    let s = sub_string(x, b + 1, x.len());
    assert(rest.subrange(0, b - a - 1) =~= x@.subrange(a + 1, b as int));
    assert(rest.subrange(b - a, rest.len() as int) =~= x@.subrange(b + 1, x@.len() as int));
    Some((h, d, s))
}

/// The commits in the output of `git log --pretty=format:%H%x00%aI%x00%s`:
/// hash, date and subject of each line that holds all three.
pub fn log_entries(stdout: &str) -> (r: Vec<(String, String, String)>)
    ensures
        r@.map_values(|t: (String, String, String)| (t.0@, t.1@, t.2@)) == commits_of(text_lines(stdout@)),
{
    let x = chars_of(stdout);
    let pieces = split_chars(&x, '\n');
    let ghost all = pieces@.map_values(|v: Vec<char>| v@);
    let ghost lines = text_lines(stdout@);
    assert(lines.len() == all.len());
    let mut r: Vec<(String, String, String)> = Vec::new();
    let mut k: usize = 0;
    assert(lines.subrange(0, 0) =~= Seq::<Seq<char>>::empty());
    while k < pieces.len()
        invariant
            k <= pieces@.len(),
            all == pieces@.map_values(|v: Vec<char>| v@),
            all == split_on(stdout@, '\n'),
            lines == text_lines(stdout@),
            lines.len() == all.len(),
            r@.map_values(|t: (String, String, String)| (t.0@, t.1@, t.2@)) == commits_of(
                lines.subrange(0, k as int),
            ),
        decreases pieces@.len() - k,
    {
        let p = &pieces[k];
        let ghost line = lines[k as int];
        let mut q: Vec<char> = Vec::new();
        let n = p.len();
        let m = if k + 1 < pieces.len() && n > 0 && p[n - 1] == '\r' { n - 1 } else { n };
        let mut i: usize = 0;
        while i < m
            invariant
                m <= p@.len(),
                i <= m,
                q@ == p@.subrange(0, i as int),
            decreases m - i,
        {
            q.push(p[i]);
            assert(q@ =~= p@.subrange(0, i + 1));
            i += 1;
        }
        proof {
            assert(p@ == all[k as int]);
            if m < n {
                assert(q@ =~= p@.drop_last());
            } else {
                assert(q@ =~= p@);
            }
            assert(q@ == line);
            assert(lines.subrange(0, k + 1).drop_last() =~= lines.subrange(0, k as int));
            assert(lines.subrange(0, k + 1).last() == line);
        }
        let ghost before = r@.map_values(|t: (String, String, String)| (t.0@, t.1@, t.2@));
        match parse_commit(&q) {
            Some(c) => {
                r.push(c);
                assert(r@.map_values(|t: (String, String, String)| (t.0@, t.1@, t.2@)) =~= before + seq![
                    commit_of(line).unwrap()]);
            },
            None => {
                assert(before + Seq::empty() =~= before);
            },
        }
        k += 1;
    }
    assert(lines.subrange(0, lines.len() as int) =~= lines);
    r
}

/// How a field value is shown in a change: `∅` for null, a string as it
/// is, a boolean as `true` or `false`, anything else as compact JSON.
pub open spec fn shown(v: serde_json::Value) -> Seq<char> {
    if json_is_null(v) {
        seq!['\u{2205}']
    } else if json_str_value(v) is Some {
        json_str_value(v).unwrap()
    } else if json_bool_value(v) is Some {
        if json_bool_value(v).unwrap() {
            seq!['t', 'r', 'u', 'e']
        } else {
            seq!['f', 'a', 'l', 's', 'e']
        }
    } else {
        json_text(v)
    }
}

/// Formats a JSON value for a field change.
pub fn display_field(v: &serde_json::Value) -> (r: String)
    ensures
        r@ == shown(*v),
{
    match shape(v) {
        JsonShape::Null => {
            let r = "\u{2205}".to_owned();
            proof {
                reveal_strlit("\u{2205}");
            }
            r
        },
        JsonShape::Str(s) => s,
        JsonShape::Bool(b) => {
            if b {
                let r = "true".to_owned();
                proof {
                    reveal_strlit("true");
                }
                r
            } else {
                let r = "false".to_owned();
                proof {
                    reveal_strlit("false");
                }
                r
            }
        },
        JsonShape::Other => text_of(v),
    }
}

/// One side of a field change: a shown value, or a raw JSON value.
pub enum FieldValue {
    Shown(String),
    Raw(serde_json::Value),
}

/// A changed field of a node file: its name, and its value before and
/// after.
pub struct FieldChange {
    pub key: String,
    pub from: FieldValue,
    pub to: FieldValue,
}

/// A field value as the contracts speak of it.
pub enum FieldView {
    Shown(Seq<char>),
    Raw(serde_json::Value),
}

pub open spec fn field_view(f: FieldValue) -> FieldView {
    match f {
        FieldValue::Shown(s) => FieldView::Shown(s@),
        FieldValue::Raw(v) => FieldView::Raw(v),
    }
}

pub open spec fn change_view(c: FieldChange) -> (Seq<char>, FieldView, FieldView) {
    (c.key@, field_view(c.from), field_view(c.to))
}

/// The change of field `key`, shown, when its value differs.
pub open spec fn shown_change(before: serde_json::Value, after: serde_json::Value, key: Seq<char>) -> Seq<
    (Seq<char>, FieldView, FieldView),
> {
    let b = json_member(before, key);
    let a = json_member(after, key);
    if json_equal(b, a) {
        Seq::empty()
    } else {
        seq![(key, FieldView::Shown(shown(b)), FieldView::Shown(shown(a)))]
    }
}

/// The change of field `key`, raw, when its value differs.
pub open spec fn raw_change(before: serde_json::Value, after: serde_json::Value, key: Seq<char>) -> Seq<
    (Seq<char>, FieldView, FieldView),
> {
    let b = json_member(before, key);
    let a = json_member(after, key);
    if json_equal(b, a) {
        Seq::empty()
    } else {
        seq![(key, FieldView::Raw(b), FieldView::Raw(a))]
    }
}

/// The changed fields between two versions of a node file: `state`,
/// `title`, `part`, `shadowed` and `parent`, shown; only when none of those
/// changed, `edges` and `tags`, raw.
pub open spec fn field_changes(before: serde_json::Value, after: serde_json::Value) -> Seq<
    (Seq<char>, FieldView, FieldView),
> {
    let scalar = shown_change(before, after, "state"@) + shown_change(before, after, "title"@)
        + shown_change(before, after, "part"@) + shown_change(before, after, "shadowed"@)
        + shown_change(before, after, "parent"@);
    if scalar.len() == 0 {
        raw_change(before, after, "edges"@) + raw_change(before, after, "tags"@)
    } else {
        scalar
    }
}

fn push_shown(out: &mut Vec<FieldChange>, before: &serde_json::Value, after: &serde_json::Value, key: &str)
    ensures
        final(out)@.map_values(|c: FieldChange| change_view(c)) == old(out)@.map_values(
            |c: FieldChange| change_view(c),
        ) + shown_change(*before, *after, key@),
{
    let b = member(before, key);
    let a = member(after, key);
    let ghost prev = out@.map_values(|c: FieldChange| change_view(c));
    if !values_equal(&b, &a) {
        let from = display_field(&b);
        let to = display_field(&a);
        out.push(FieldChange { key: key.to_owned(), from: FieldValue::Shown(from), to: FieldValue::Shown(to) });
        assert(out@.map_values(|c: FieldChange| change_view(c)) =~= prev + shown_change(*before, *after, key@));
    } else {
        assert(prev + Seq::empty() =~= prev);
    }
}

fn push_raw(out: &mut Vec<FieldChange>, before: &serde_json::Value, after: &serde_json::Value, key: &str)
    ensures
        final(out)@.map_values(|c: FieldChange| change_view(c)) == old(out)@.map_values(
            |c: FieldChange| change_view(c),
        ) + raw_change(*before, *after, key@),
{
    let b = member(before, key);
    let a = member(after, key);
    let ghost prev = out@.map_values(|c: FieldChange| change_view(c));
    if !values_equal(&b, &a) {
        out.push(FieldChange { key: key.to_owned(), from: FieldValue::Raw(b), to: FieldValue::Raw(a) });
        assert(out@.map_values(|c: FieldChange| change_view(c)) =~= prev + raw_change(*before, *after, key@));
    } else {
        assert(prev + Seq::empty() =~= prev);
    }
}

/// Compares two versions of a node file and lists the changed fields; an
/// empty list where nothing that is compared changed.
pub fn diff_node_fields(before: &serde_json::Value, after: &serde_json::Value) -> (r: Vec<FieldChange>)
    ensures
        r@.map_values(|c: FieldChange| change_view(c)) == field_changes(*before, *after),
{
    let mut out: Vec<FieldChange> = Vec::new();
    assert(out@.map_values(|c: FieldChange| change_view(c)) =~= Seq::empty());
    push_shown(&mut out, before, after, "state");
    push_shown(&mut out, before, after, "title");
    push_shown(&mut out, before, after, "part");
    push_shown(&mut out, before, after, "shadowed");
    push_shown(&mut out, before, after, "parent");
    let ghost scalar = out@.map_values(|c: FieldChange| change_view(c));
    assert(scalar =~= shown_change(*before, *after, "state"@) + shown_change(*before, *after, "title"@)
        + shown_change(*before, *after, "part"@) + shown_change(*before, *after, "shadowed"@)
        + shown_change(*before, *after, "parent"@));
    if out.len() == 0 {
        push_raw(&mut out, before, after, "edges");
        push_raw(&mut out, before, after, "tags");
        assert(out@.map_values(|c: FieldChange| change_view(c)) =~= raw_change(*before, *after, "edges"@)
            + raw_change(*before, *after, "tags"@));
    }
    out
}

/// The `tags` of a node file, when they form a non-empty array.
pub open spec fn listed_tags(node: serde_json::Value) -> Option<serde_json::Value> {
    let t = json_member(node, "tags"@);
    match json_array_len(t) {
        Some(n) => if n > 0 { Some(t) } else { None },
        None => None,
    }
}

fn tags_if_listed(node: &serde_json::Value) -> (r: Option<serde_json::Value>)
    ensures
        r == listed_tags(*node),
{
    let t = member(node, "tags");
    match array_len(&t) {
        Some(n) => if n > 0 { Some(t) } else { None },
        None => None,
    }
}

/// What the history shows of a node file that was added.
pub struct Created {
    pub title: String,
    pub state: String,
    pub tags: Option<serde_json::Value>,
}

/// The string member `key` of a JSON value, when there is one.
pub open spec fn str_member(v: serde_json::Value, key: Seq<char>) -> Option<Seq<char>> {
    if json_string_members(v).contains_key(key) {
        Some(json_string_members(v)[key])
    } else {
        None
    }
}

/// Reads an added node file: its title (empty when missing), its state
/// (`latent` when missing) and its tags when there are any.
pub fn node_created(node: &serde_json::Value) -> (r: Created)
    ensures
        created_from(*node, r),
{
    let title = match string_member(node, "title") {
        Some(t) => t,
        None => String::new(),
    };
    let state = match string_member(node, "state") {
        Some(s) => s,
        None => "latent".to_owned(),
    };
    Created { title, state, tags: tags_if_listed(node) }
}

/// What the history shows of a created node file: its title (empty when
/// missing), its state (`latent` when missing) and its tags when it lists any.
pub open spec fn created_from(node: serde_json::Value, c: Created) -> bool {
    &&& c.title@ == (match str_member(node, "title"@) {
        Some(t) => t,
        None => Seq::empty(),
    })
    &&& c.state@ == (match str_member(node, "state"@) {
        Some(s) => s,
        None => "latent"@,
    })
    &&& c.tags == listed_tags(node)
}

/// Reads a created node file from its text: `None` when the text is not JSON.
pub fn node_created_from(text: &str) -> (r: Option<Created>)
    ensures
        match r {
            None => !json_text_valid(text@),
            Some(c) => json_text_valid(text@) && created_from(json_parsed(text@), c),
        },
{
    match parse_json(text) {
        Some(v) => Some(node_created(&v)),
        None => None,
    }
}

/// What the history shows of a node file that was modified.
pub struct Modified {
    pub fields: Vec<FieldChange>,
    pub tags: Option<serde_json::Value>,
}

/// Reads a modified node file: the changed fields and the tags after the
/// change; `None` when no compared field changed.
pub fn node_modified(before: &serde_json::Value, after: &serde_json::Value) -> (r: Option<Modified>)
    ensures
        modified_from(*before, *after, r),
{
    let fields = diff_node_fields(before, after);
    if fields.len() == 0 {
        None
    } else {
        Some(Modified { fields, tags: tags_if_listed(after) })
    }
}

/// What the history shows of a modified node file: the changed fields and
/// the tags after the change, or nothing when no compared field changed.
pub open spec fn modified_from(before: serde_json::Value, after: serde_json::Value, r: Option<Modified>) -> bool {
    match r {
        Some(m) => m.fields@.map_values(|c: FieldChange| change_view(c)) == field_changes(before, after)
            && field_changes(before, after).len() > 0
            && m.tags == listed_tags(after),
        None => field_changes(before, after).len() == 0,
    }
}

/// Reads a modified node file from its texts before and after: nothing
/// when either text is not JSON.
pub fn node_modified_from(before: &str, after: &str) -> (r: Option<Modified>)
    ensures
        json_text_valid(before@) && json_text_valid(after@) ==> modified_from(
            json_parsed(before@),
            json_parsed(after@),
            r,
        ),
        !(json_text_valid(before@) && json_text_valid(after@)) ==> r is None,
{
    match (parse_json(before), parse_json(after)) {
        (Some(b), Some(a)) => node_modified(&b, &a),
        _ => None,
    }
}

/// The body text a history entry shows: the whole text trimmed, when
/// anything is left.
pub fn body_summary(text: &str) -> (r: Option<String>)
    ensures
        match r {
            Some(s) => s@ == trim(text@) && s@.len() > 0,
            None => trim(text@).len() == 0,
        },
{
    let t = trim_str(&chars_of(text));
    if t.len() > 0 {
        Some(string_of(&t))
    } else {
        None
    }
}

/// A change to a node's comments.
pub enum CommentChange {
    Added { author: Option<String>, tag: Option<String>, body: Option<String> },
    Removed { timestamp: String },
    Edited { timestamp: String, body: Option<String> },
}

/// A comment change as the contracts speak of it.
pub enum CommentChangeView {
    Added { author: Option<Seq<char>>, tag: Option<Seq<char>>, body: Option<Seq<char>> },
    Removed { timestamp: Seq<char> },
    Edited { timestamp: Seq<char>, body: Option<Seq<char>> },
}

pub open spec fn comment_change_view(c: CommentChange) -> CommentChangeView {
    match c {
        CommentChange::Added { author, tag, body } => CommentChangeView::Added {
            author: ov(author),
            tag: ov(tag),
            body: ov(body),
        },
        CommentChange::Removed { timestamp } => CommentChangeView::Removed { timestamp: timestamp@ },
        CommentChange::Edited { timestamp, body } => CommentChangeView::Edited {
            timestamp: timestamp@,
            body: ov(body),
        },
    }
}

/// The timestamp a comment is matched by: its `timestamp` string, or the
/// empty string when it has none.
pub open spec fn stamp_of(c: serde_json::Value) -> Seq<char> {
    match str_member(c, "timestamp"@) {
        Some(t) => t,
        None => Seq::empty(),
    }
}

/// Some comment of `list` has the timestamp string `t`.
pub open spec fn has_stamp(list: Seq<serde_json::Value>, t: Seq<char>) -> bool {
    exists|j: int| 0 <= j < list.len() && #[trigger] str_member(list[j], "timestamp"@) == Some(t)
}

/// The position of the last comment of `list` with timestamp string `t`,
/// or -1.
pub open spec fn last_stamped(list: Seq<serde_json::Value>, t: Seq<char>) -> int
    decreases list.len(),
{
    if list.len() == 0 {
        -1
    } else if str_member(list.last(), "timestamp"@) == Some(t) {
        list.len() - 1
    } else {
        last_stamped(list.drop_last(), t)
    }
}

/// The comments of `after` whose timestamp no comment of `before` has.
pub open spec fn added_comments(before: Seq<serde_json::Value>, after: Seq<serde_json::Value>) -> Seq<
    CommentChangeView,
>
    decreases after.len(),
{
    if after.len() == 0 {
        Seq::empty()
    } else {
        let c = after.last();
        added_comments(before, after.drop_last()) + if !has_stamp(before, stamp_of(c)) {
            seq![
                CommentChangeView::Added {
                    author: str_member(c, "author"@),
                    tag: str_member(c, "tag"@),
                    body: str_member(c, "body"@),
                },
            ]
        } else {
            Seq::empty()
        }
    }
}

/// The comments of `before` whose timestamp no comment of `after` has.
pub open spec fn removed_comments(before: Seq<serde_json::Value>, after: Seq<serde_json::Value>) -> Seq<
    CommentChangeView,
>
    decreases before.len(),
{
    if before.len() == 0 {
        Seq::empty()
    } else {
        let c = before.last();
        removed_comments(before.drop_last(), after) + if !has_stamp(after, stamp_of(c)) {
            seq![CommentChangeView::Removed { timestamp: stamp_of(c) }]
        } else {
            Seq::empty()
        }
    }
}

/// The comments of `after` whose body differs from that of the last comment
/// of `before` with the same timestamp.
pub open spec fn edited_comments(before: Seq<serde_json::Value>, after: Seq<serde_json::Value>) -> Seq<
    CommentChangeView,
>
    decreases after.len(),
{
    if after.len() == 0 {
        Seq::empty()
    } else {
        let c = after.last();
        let i = last_stamped(before, stamp_of(c));
        edited_comments(before, after.drop_last()) + if i >= 0 && !json_equal(
            json_member(c, "body"@),
            json_member(before[i], "body"@),
        ) {
            seq![CommentChangeView::Edited { timestamp: stamp_of(c), body: str_member(c, "body"@) }]
        } else {
            Seq::empty()
        }
    }
}

/// All changes between two versions of a comments file: the added comments,
/// then the removed ones, then the edited ones.
pub open spec fn comment_changes(before: Seq<serde_json::Value>, after: Seq<serde_json::Value>) -> Seq<
    CommentChangeView,
> {
    added_comments(before, after) + removed_comments(before, after) + edited_comments(before, after)
}

proof fn lemma_last_stamped(list: Seq<serde_json::Value>, t: Seq<char>)
    ensures
        -1 <= last_stamped(list, t) < list.len(),
        last_stamped(list, t) >= 0 <==> has_stamp(list, t),
    decreases list.len(),
{
    if list.len() > 0 {
        lemma_last_stamped(list.drop_last(), t);
        if has_stamp(list.drop_last(), t) {
            let j = choose|j: int| 0 <= j < list.drop_last().len() && #[trigger] str_member(list.drop_last()[j], "timestamp"@) == Some(t);
            assert(str_member(list[j], "timestamp"@) == Some(t));
        }
        if has_stamp(list, t) && str_member(list.last(), "timestamp"@) != Some(t) {
            let j = choose|j: int| 0 <= j < list.len() && #[trigger] str_member(list[j], "timestamp"@) == Some(t);
            assert(j < list.len() - 1);
            assert(str_member(list.drop_last()[j], "timestamp"@) == Some(t));
        }
    }
}

fn stamp(c: &serde_json::Value) -> (r: String)
    ensures
        r@ == stamp_of(*c),
{
    match string_member(c, "timestamp") {
        Some(t) => t,
        None => String::new(),
    }
}

/// The position of the last comment of `list` with timestamp string `t`.
fn find_last_stamped(list: &Vec<serde_json::Value>, t: &str) -> (r: Option<usize>)
    ensures
        match r {
            Some(i) => i < list@.len() && i as int == last_stamped(list@, t@),
            None => last_stamped(list@, t@) < 0,
        },
{
    let mut found: Option<usize> = None;
    let mut k: usize = 0;
    assert(list@.subrange(0, 0) =~= Seq::<serde_json::Value>::empty());
    while k < list.len()
        invariant
            k <= list@.len(),
            match found {
                Some(i) => i < k && i as int == last_stamped(list@.subrange(0, k as int), t@),
                None => last_stamped(list@.subrange(0, k as int), t@) < 0,
            },
        decreases list@.len() - k,
    {
        let hit = match string_member(&list[k], "timestamp") {
            Some(s) => crate::text::str_eq(s.as_str(), t),
            None => false,
        };
        proof {
            let p = list@.subrange(0, k + 1);
            assert(p.drop_last() =~= list@.subrange(0, k as int));
            assert(p.last() == list@[k as int]);
        }
        if hit {
            found = Some(k);
        }
        k += 1;
    }
    assert(list@.subrange(0, list@.len() as int) =~= list@);
    found
}

/// The comments a comments file holds: the elements of the array its text
/// parses to; none when there is no text, it is not JSON, or not an array.
pub open spec fn comment_items(text: Option<Seq<char>>) -> Seq<serde_json::Value> {
    match text {
        Some(t) => if json_text_valid(t) {
            match json_array_items(json_parsed(t)) {
                Some(items) => items,
                None => Seq::empty(),
            }
        } else {
            Seq::empty()
        },
        None => Seq::empty(),
    }
}

fn comments_in(text: Option<&str>) -> (r: Vec<serde_json::Value>)
    ensures
        r@ == comment_items(match text {
            Some(t) => Some(t@),
            None => None,
        }),
{
    match text {
        Some(t) => match parse_json(t) {
            Some(v) => match array_items(&v) {
                Some(items) => items,
                None => Vec::new(),
            },
            None => Vec::new(),
        },
        None => Vec::new(),
    }
}

/// The comment changes between two versions of a comments file, read from
/// their texts (`None` where that version does not exist).
pub fn comment_diff_from(before: Option<&str>, after: Option<&str>) -> (r: Vec<CommentChange>)
    ensures
        r@.map_values(|c: CommentChange| comment_change_view(c)) == comment_changes(
            comment_items(match before {
                Some(t) => Some(t@),
                None => None,
            }),
            comment_items(match after {
                Some(t) => Some(t@),
                None => None,
            }),
        ),
{
    let b = comments_in(before);
    let a = comments_in(after);
    diff_comments(&b, &a)
}

/// Lists what changed between two versions of a node's comments file:
/// comments added, removed, and edited (same timestamp, different body).
/// Comments are matched by their `timestamp`; where two comments of the
/// older version share one, the later is the one compared.
pub fn diff_comments(before: &Vec<serde_json::Value>, after: &Vec<serde_json::Value>) -> (r: Vec<CommentChange>)
    ensures
        r@.map_values(|c: CommentChange| comment_change_view(c)) == comment_changes(before@, after@),
{
    let mut out: Vec<CommentChange> = Vec::new();
    let mut k: usize = 0;
    assert(after@.subrange(0, 0) =~= Seq::<serde_json::Value>::empty());
    while k < after.len()
        invariant
            k <= after@.len(),
            out@.map_values(|c: CommentChange| comment_change_view(c)) == added_comments(
                before@,
                after@.subrange(0, k as int),
            ),
        decreases after@.len() - k,
    {
        let c = &after[k];
        let t = stamp(c);
        let prior = find_last_stamped(before, t.as_str());
        proof {
            lemma_last_stamped(before@, t@);
            let p = after@.subrange(0, k + 1);
            assert(p.drop_last() =~= after@.subrange(0, k as int));
            assert(p.last() == after@[k as int]);
        }
        let ghost prev = out@.map_values(|c: CommentChange| comment_change_view(c));
        if prior.is_none() {
            out.push(
                CommentChange::Added {
                    author: string_member(c, "author"),
                    tag: string_member(c, "tag"),
                    body: string_member(c, "body"),
                },
            );
            assert(out@.map_values(|c: CommentChange| comment_change_view(c)) =~= added_comments(
                before@,
                after@.subrange(0, k + 1),
            ));
        } else {
            assert(prev + Seq::empty() =~= prev);
        }
        k += 1;
    }
    assert(after@.subrange(0, after@.len() as int) =~= after@);
    let ghost added = out@.map_values(|c: CommentChange| comment_change_view(c));
    let mut k: usize = 0;
    assert(before@.subrange(0, 0) =~= Seq::<serde_json::Value>::empty());
    assert(added + Seq::empty() =~= added);
    while k < before.len()
        invariant
            k <= before@.len(),
            added == added_comments(before@, after@),
            out@.map_values(|c: CommentChange| comment_change_view(c)) == added + removed_comments(
                before@.subrange(0, k as int),
                after@,
            ),
        decreases before@.len() - k,
    {
        let c = &before[k];
        let t = stamp(c);
        let later = find_last_stamped(after, t.as_str());
        proof {
            lemma_last_stamped(after@, t@);
            let p = before@.subrange(0, k + 1);
            assert(p.drop_last() =~= before@.subrange(0, k as int));
            assert(p.last() == before@[k as int]);
        }
        let ghost prev = out@.map_values(|c: CommentChange| comment_change_view(c));
        if later.is_none() {
            let ghost step = seq![CommentChangeView::Removed { timestamp: t@ }];
            let ghost r0 = removed_comments(before@.subrange(0, k as int), after@);
            assert(removed_comments(before@.subrange(0, k + 1), after@) == r0 + step);
            out.push(CommentChange::Removed { timestamp: t });
            assert(out@.map_values(|c: CommentChange| comment_change_view(c)) =~= prev + step);
            assert((added + r0) + step =~= added + (r0 + step));
            assert(out@.map_values(|c: CommentChange| comment_change_view(c)) =~= added + removed_comments(
                before@.subrange(0, k + 1),
                after@,
            ));
        } else {
            assert(prev + Seq::empty() =~= prev);
        }
        k += 1;
    }
    assert(before@.subrange(0, before@.len() as int) =~= before@);
    let ghost both = out@.map_values(|c: CommentChange| comment_change_view(c));
    let mut k: usize = 0;
    assert(both + Seq::empty() =~= both);
    while k < after.len()
        invariant
            k <= after@.len(),
            both == added_comments(before@, after@) + removed_comments(before@, after@),
            out@.map_values(|c: CommentChange| comment_change_view(c)) == both + edited_comments(
                before@,
                after@.subrange(0, k as int),
            ),
        decreases after@.len() - k,
    {
        let c = &after[k];
        let t = stamp(c);
        let prior = find_last_stamped(before, t.as_str());
        proof {
            let p = after@.subrange(0, k + 1);
            assert(p.drop_last() =~= after@.subrange(0, k as int));
            assert(p.last() == after@[k as int]);
        }
        let ghost prev = out@.map_values(|c: CommentChange| comment_change_view(c));
        let edited = match prior {
            Some(i) => !values_equal(&member(c, "body"), &member(&before[i], "body")),
            None => false,
        };
        if edited {
            let b = string_member(c, "body");
            let ghost step = seq![CommentChangeView::Edited { timestamp: t@, body: ov(b) }];
            let ghost e0 = edited_comments(before@, after@.subrange(0, k as int));
            assert(edited_comments(before@, after@.subrange(0, k + 1)) == e0 + step);
            out.push(CommentChange::Edited { timestamp: t, body: b });
            assert(out@.map_values(|c: CommentChange| comment_change_view(c)) =~= prev + step);
            assert((both + e0) + step =~= both + (e0 + step));
            assert(out@.map_values(|c: CommentChange| comment_change_view(c)) =~= both + edited_comments(
                before@,
                after@.subrange(0, k + 1),
            ));
        } else {
            assert(prev + Seq::empty() =~= prev);
        }
        k += 1;
    }
    assert(after@.subrange(0, after@.len() as int) =~= after@);
    out
}

/// What to record for a changed file of a commit, by its kind and status
/// letter (`A`dded, `D`eleted, `M`odified, `T`ype changed).
#[derive(Clone, Copy, Debug, PartialEq, Eq, Structural)]
pub enum Step {
    /// A node file was added: read it at the commit.
    NodeCreated,
    NodeRemoved,
    /// A node file changed: read it before and at the commit.
    NodeModified,
    Archived,
    Unarchived,
    /// A body was added or edited: read it at the commit.
    BodyAdded,
    BodyEdited,
    BodyRemoved,
    /// A comments file changed: read the versions that exist.
    Comments { read_before: bool, read_after: bool },
    /// Nothing to record.
    Skip,
}

pub open spec fn step_spec(kind: FileKind, status: char) -> Step {
    match kind {
        FileKind::Node => if status == 'A' {
            Step::NodeCreated
        } else if status == 'D' {
            Step::NodeRemoved
        } else if status == 'M' || status == 'T' {
            Step::NodeModified
        } else {
            Step::Skip
        },
        FileKind::ArchivedNode => if status == 'A' {
            Step::Archived
        } else if status == 'D' {
            Step::Unarchived
        } else {
            Step::Skip
        },
        FileKind::Comments => Step::Comments { read_before: status != 'A', read_after: status != 'D' },
        FileKind::Body => if status == 'A' {
            Step::BodyAdded
        } else if status == 'M' {
            Step::BodyEdited
        } else if status == 'D' {
            Step::BodyRemoved
        } else {
            Step::Skip
        },
        FileKind::Other => Step::Skip,
    }
}

/// Decides what a changed file of a commit contributes to the history.
pub fn step_for(kind: FileKind, status: char) -> (r: Step)
    ensures
        r == step_spec(kind, status),
{
    match kind {
        FileKind::Node => if status == 'A' {
            Step::NodeCreated
        } else if status == 'D' {
            Step::NodeRemoved
        } else if status == 'M' || status == 'T' {
            Step::NodeModified
        } else {
            Step::Skip
        },
        FileKind::ArchivedNode => if status == 'A' {
            Step::Archived
        } else if status == 'D' {
            Step::Unarchived
        } else {
            Step::Skip
        },
        FileKind::Comments => Step::Comments { read_before: status != 'A', read_after: status != 'D' },
        FileKind::Body => if status == 'A' {
            Step::BodyAdded
        } else if status == 'M' {
            Step::BodyEdited
        } else if status == 'D' {
            Step::BodyRemoved
        } else {
            Step::Skip
        },
        FileKind::Other => Step::Skip,
    }
}

} // verus!
