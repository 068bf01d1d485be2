//! Which commit of the homeserver a build was made against.
//!
//! The lockfile names it: the part behind `#` in the source of the git
//! dependency.

use vstd::prelude::*;
use vstd::slice::slice_subrange;
use vstd::string::StrSliceExecFns;

verus! {

/// White space, as Unicode defines it.
pub open spec fn is_white_space(c: char) -> bool {
    ||| '\u{9}' <= c <= '\u{d}'
    ||| c == ' '
    ||| c == '\u{85}'
    ||| c == '\u{a0}'
    ||| c == '\u{1680}'
    ||| '\u{2000}' <= c <= '\u{200a}'
    ||| c == '\u{2028}'
    ||| c == '\u{2029}'
    ||| c == '\u{202f}'
    ||| c == '\u{205f}'
    ||| c == '\u{3000}'
}

pub open spec fn is_hex_digit(c: char) -> bool {
    '0' <= c <= '9' || 'a' <= c <= 'f' || 'A' <= c <= 'F'
}

/// A full commit hash: forty hexadecimal digits.
pub open spec fn is_sha(s: Seq<char>) -> bool {
    s.len() == 40 && forall|i: int| 0 <= i < s.len() ==> is_hex_digit(#[trigger] s[i])
}

/// How many characters stand before the first line break.
pub open spec fn first_break(s: Seq<char>) -> int
    decreases s.len(),
{
    if s.len() == 0 || s[0] == '\n' {
        0
    } else {
        1 + first_break(s.skip(1))
    }
}

/// The lines of a text.
pub open spec fn lines(s: Seq<char>) -> Seq<Seq<char>>
    decreases s.len(),
{
    let i = first_break(s);
    if 0 <= i < s.len() {
        seq![s.take(i)] + lines(s.skip(i + 1))
    } else {
        seq![s]
    }
}

pub open spec fn trimmed_start(s: Seq<char>) -> Seq<char>
    decreases s.len(),
{
    if s.len() > 0 && is_white_space(s[0]) {
        trimmed_start(s.skip(1))
    } else {
        s
    }
}

pub open spec fn trimmed_end(s: Seq<char>) -> Seq<char>
    decreases s.len(),
{
    if s.len() > 0 && is_white_space(s.last()) {
        trimmed_end(s.drop_last())
    } else {
        s
    }
}

/// Without the quotation marks at its end.
pub open spec fn unquoted(s: Seq<char>) -> Seq<char>
    decreases s.len(),
{
    if s.len() > 0 && s.last() == '"' {
        unquoted(s.drop_last())
    } else {
        s
    }
}

/// What follows the last `#`; all of it if there is none.
pub open spec fn after_last_hash(s: Seq<char>) -> Seq<char>
    decreases s.len(),
{
    if s.len() == 0 || s.last() == '#' {
        Seq::empty()
    } else {
        after_last_hash(s.drop_last()).push(s.last())
    }
}

/// Whether `pattern` stands in `s` at position `i`.
pub open spec fn stands_at(s: Seq<char>, pattern: Seq<char>, i: int) -> bool {
    0 <= i <= s.len() - pattern.len() && s.subrange(i, i + pattern.len()) == pattern
}

/// The source that a line of a lockfile names, with what follows it on the line.
pub open spec fn source_of(line: Seq<char>) -> Option<Seq<char>> {
    let t = trimmed_end(trimmed_start(line));
    let key = "source = \""@;
    if stands_at(t, key, 0) {
        Some(t.skip(key.len() as int))
    } else {
        None
    }
}

/// Without a character that ends the host of an address.
pub open spec fn is_plain(s: Seq<char>) -> bool {
    forall|i: int| 0 <= i < s.len() ==> #[trigger] s[i] != '/' && s[i] != '?' && s[i] != '#'
}

/// A scheme, `://` at `i`, and user data with its `@`, if there is any.
pub open spec fn is_split_at(s: Seq<char>, i: int) -> bool {
    let user = s.skip(i + 3);
    &&& stands_at(s, "://"@, i)
    &&& is_plain(s.take(i))
    &&& is_plain(user)
    &&& (user.len() == 0 || user.last() == '@')
}

/// Whether `s` is all that stands before the host in the address of a git
/// source, such as `git+https://` or `git+ssh://git@`.
pub open spec fn leads_to_host(s: Seq<char>) -> bool {
    stands_at(s, "git+"@, 0) && exists|i: int| is_split_at(s, i)
}

/// Whether the path of an address ends here, but for a slash or the suffix
/// that git repositories may bear.
pub open spec fn ends_path(s: Seq<char>) -> bool {
    ||| stands_at(s, "?"@, 0)
    ||| stands_at(s, "#"@, 0)
    ||| stands_at(s, "/?"@, 0)
    ||| stands_at(s, "/#"@, 0)
    ||| stands_at(s, ".git?"@, 0)
    ||| stands_at(s, ".git#"@, 0)
    ||| stands_at(s, ".git/?"@, 0)
    ||| stands_at(s, ".git/#"@, 0)
}

/// Whether the homeserver's repository stands in `source` at `i` as the host
/// and the path of the address.
pub open spec fn is_repository_at(source: Seq<char>, i: int) -> bool {
    let repository = "github.com/element-hq/neutrino"@;
    &&& stands_at(source, repository, i)
    &&& leads_to_host(source.take(i))
    &&& ends_path(source.skip(i + repository.len()))
}

/// Whether a source is the homeserver's git repository, however it is reached,
/// and no other whose address only holds its name, at a resolved commit.
pub open spec fn is_neutrino(source: Seq<char>) -> bool {
    source.contains('#') && exists|i: int| is_repository_at(source, i)
}

pub open spec fn names_neutrino(line: Seq<char>) -> bool {
    source_of(line) matches Some(source) && is_neutrino(source)
}

/// The commit that a source is resolved to, if it is a full hash.
pub open spec fn commit_of(source: Seq<char>) -> Option<Seq<char>> {
    let sha = unquoted(after_last_hash(source));
    if is_sha(sha) {
        Some(sha)
    } else {
        None
    }
}

/// The commit that the first line about the homeserver names.
pub open spec fn commit_in(lines: Seq<Seq<char>>) -> Option<Seq<char>>
    decreases lines.len(),
{
    if lines.len() == 0 {
        None
    } else if names_neutrino(lines[0]) {
        commit_of(source_of(lines[0])->Some_0)
    } else {
        commit_in(lines.skip(1))
    }
}

fn white_space(c: char) -> (b: bool)
    ensures
        b == is_white_space(c),
{
    ('\u{9}' <= c && c <= '\u{d}') || c == ' ' || c == '\u{85}' || c == '\u{a0}' || c == '\u{1680}'
        || ('\u{2000}' <= c && c <= '\u{200a}') || c == '\u{2028}' || c == '\u{2029}' || c
        == '\u{202f}' || c == '\u{205f}' || c == '\u{3000}'
}

fn hex_digit(c: char) -> (b: bool)
    ensures
        b == is_hex_digit(c),
{
    ('0' <= c && c <= '9') || ('a' <= c && c <= 'f') || ('A' <= c && c <= 'F')
}

/// The characters of a text.
fn chars_of(text: &str) -> (chars: Vec<char>)
    ensures
        chars@ == text@,
{
    let mut chars: Vec<char> = Vec::new();
    for c in iter: text.chars()
        invariant
            chars@ == iter.seq().take(iter.index() as int),
            iter.seq() == text@,
    {
        chars.push(c);
        assert(iter.seq().take(iter.index() as int + 1) =~= iter.seq().take(
            iter.index() as int,
        ).push(c));
    }
    assert(text@.take(text@.len() as int) =~= text@);
    chars
}

fn line_length(s: &[char]) -> (n: usize)
    ensures
        n == first_break(s@),
        n <= s@.len(),
        n < s@.len() ==> s@[n as int] == '\n',
{
    let mut i: usize = 0;
    assert(s@.skip(0) =~= s@);
    while i < s.len() && s[i] != '\n'
        invariant
            0 <= i <= s@.len(),
            first_break(s@) == i + first_break(s@.skip(i as int)),
        decreases s@.len() - i,
    {
        assert(s@.skip(i as int).skip(1) =~= s@.skip(i + 1));
        i += 1;
    }
    i
}

/// Where `s` starts once the white space before it is removed.
fn start_of_text(s: &[char]) -> (k: usize)
    ensures
        k <= s@.len(),
        s@.skip(k as int) == trimmed_start(s@),
{
    let mut k: usize = 0;
    assert(s@.skip(0) =~= s@);
    while k < s.len() && white_space(s[k])
        invariant
            0 <= k <= s@.len(),
            trimmed_start(s@) == trimmed_start(s@.skip(k as int)),
        decreases s@.len() - k,
    {
        assert(s@.skip(k as int).skip(1) =~= s@.skip(k + 1));
        k += 1;
    }
    k
}

/// Where `s` ends once the white space behind it is removed.
fn end_of_text(s: &[char]) -> (k: usize)
    ensures
        k <= s@.len(),
        s@.take(k as int) == trimmed_end(s@),
{
    let mut k: usize = s.len();
    assert(s@.take(k as int) =~= s@);
    while k > 0 && white_space(s[k - 1])
        invariant
            0 <= k <= s@.len(),
            trimmed_end(s@) == trimmed_end(s@.take(k as int)),
        decreases k,
    {
        assert(s@.take(k as int).drop_last() =~= s@.take(k - 1));
        k -= 1;
    }
    k
}

/// Where `s` ends once the quotation marks at its end are removed.
fn end_of_unquoted(s: &[char]) -> (k: usize)
    ensures
        k <= s@.len(),
        s@.take(k as int) == unquoted(s@),
{
    let mut k: usize = s.len();
    assert(s@.take(k as int) =~= s@);
    while k > 0 && s[k - 1] == '"'
        invariant
            0 <= k <= s@.len(),
            unquoted(s@) == unquoted(s@.take(k as int)),
        decreases k,
    {
        assert(s@.take(k as int).drop_last() =~= s@.take(k - 1));
        k -= 1;
    }
    k
}

/// Where the part behind the last `#` starts.
fn start_after_hash(s: &[char]) -> (k: usize)
    ensures
        k <= s@.len(),
        s@.skip(k as int) == after_last_hash(s@),
{
    let mut k: usize = s.len();
    assert(s@.take(k as int) =~= s@);
    assert(after_last_hash(s@) + s@.skip(k as int) =~= after_last_hash(s@));
    while k > 0 && s[k - 1] != '#'
        invariant
            0 <= k <= s@.len(),
            after_last_hash(s@) == after_last_hash(s@.take(k as int)) + s@.skip(k as int),
        decreases k,
    {
        let ghost head = s@.take(k as int);
        assert(head.drop_last() =~= s@.take(k - 1));
        assert(after_last_hash(head.drop_last()).push(head.last()) + s@.skip(k as int)
            =~= after_last_hash(head.drop_last()) + s@.skip(k - 1));
        k -= 1;
    }
    assert(Seq::<char>::empty() + s@.skip(k as int) =~= s@.skip(k as int));
    k
}

fn text_at(s: &[char], pattern: &[char], i: usize) -> (b: bool)
    requires
        i <= s@.len(),
    ensures
        b == stands_at(s@, pattern@, i as int),
{
    if pattern.len() > s.len() - i {
        return false;
    }
    let ghost window = s@.subrange(i as int, i + pattern@.len());
    let len: usize = s.len();
    let mut j: usize = 0;
    while j < pattern.len()
        invariant
            0 <= j <= pattern@.len(),
            i + pattern@.len() <= len,
            len == s@.len(),
            window == s@.subrange(i as int, i + pattern@.len()),
            forall|k: int| 0 <= k < j ==> window[k] == pattern@[k],
        decreases pattern@.len() - j,
    {
        if s[i + j] != pattern[j] {
            assert(window[j as int] != pattern@[j as int]);
            return false;
        }
        j += 1;
    }
    assert(window =~= pattern@);
    true
}

fn has_hash(s: &[char]) -> (b: bool)
    ensures
        b == s@.contains('#'),
{
    let mut i: usize = 0;
    while i < s.len()
        invariant
            0 <= i <= s@.len(),
            forall|k: int| 0 <= k < i ==> s@[k] != '#',
        decreases s@.len() - i,
    {
        if s[i] == '#' {
            assert(s@[i as int] == '#');
            return true;
        }
        i += 1;
    }
    false
}

fn sha(s: &[char]) -> (b: bool)
    ensures
        b == is_sha(s@),
{
    if s.len() != 40 {
        return false;
    }
    let mut i: usize = 0;
    while i < s.len()
        invariant
            0 <= i <= s@.len(),
            forall|k: int| 0 <= k < i ==> is_hex_digit(#[trigger] s@[k]),
        decreases s@.len() - i,
    {
        if !hex_digit(s[i]) {
            assert(!is_hex_digit(s@[i as int]));
            return false;
        }
        i += 1;
    }
    true
}

/// Whether `s` starts with `pattern`.
fn starts_with(s: &[char], pattern: &str) -> (b: bool)
    ensures
        b == stands_at(s@, pattern@, 0),
{
    let pattern: Vec<char> = chars_of(pattern);
    text_at(s, pattern.as_slice(), 0)
}

fn plain(s: &[char]) -> (b: bool)
    ensures
        b == is_plain(s@),
{
    let mut i: usize = 0;
    while i < s.len()
        invariant
            0 <= i <= s@.len(),
            forall|k: int|
                0 <= k < i ==> #[trigger] s@[k] != '/' && s@[k] != '?' && s@[k] != '#',
        decreases s@.len() - i,
    {
        if s[i] == '/' || s[i] == '?' || s[i] == '#' {
            assert(s@[i as int] == '/' || s@[i as int] == '?' || s@[i as int] == '#');
            return false;
        }
        i += 1;
    }
    true
}

fn split_at(s: &[char], i: usize) -> (b: bool)
    requires
        i <= s@.len(),
    ensures
        b == is_split_at(s@, i as int),
{
    let separator: Vec<char> = chars_of("://");
    proof {
        reveal_strlit("://");
    }
    if !text_at(s, separator.as_slice(), i) {
        return false;
    }
    let len: usize = s.len();
    let scheme = slice_subrange(s, 0, i);
    let user = slice_subrange(s, i + 3, len);
    assert(scheme@ =~= s@.take(i as int));
    assert(user@ =~= s@.skip(i + 3));
    plain(scheme) && plain(user) && (user.len() == 0 || user[user.len() - 1] == '@')
}

fn host_follows(s: &[char]) -> (b: bool)
    ensures
        b == leads_to_host(s@),
{
    if !starts_with(s, "git+") {
        return false;
    }
    let mut i: usize = 0;
    while i < s.len()
        invariant
            0 <= i <= s@.len(),
            stands_at(s@, "git+"@, 0),
            forall|k: int| 0 <= k < i ==> !is_split_at(s@, k),
        decreases s@.len() - i,
    {
        if split_at(s, i) {
            return true;
        }
        i += 1;
    }
    proof {
        reveal_strlit("://");
    }
    false
}

fn path_ends(s: &[char]) -> (b: bool)
    ensures
        b == ends_path(s@),
{
    starts_with(s, "?") || starts_with(s, "#") || starts_with(s, "/?") || starts_with(s, "/#")
        || starts_with(s, ".git?") || starts_with(s, ".git#") || starts_with(s, ".git/?")
        || starts_with(s, ".git/#")
}

/// Whether a source is the homeserver's repository.
fn neutrino_source(source: &[char]) -> (b: bool)
    ensures
        b == is_neutrino(source@),
{
    if !has_hash(source) {
        return false;
    }
    let repository: Vec<char> = chars_of("github.com/element-hq/neutrino");
    proof {
        reveal_strlit("github.com/element-hq/neutrino");
    }
    let mut i: usize = 0;
    while i < source.len()
        invariant
            0 <= i <= source@.len(),
            source@.contains('#'),
            repository@ == "github.com/element-hq/neutrino"@,
            forall|k: int| 0 <= k < i ==> !is_repository_at(source@, k),
        decreases source@.len() - i,
    {
        if text_at(source, repository.as_slice(), i) {
            let before = slice_subrange(source, 0, i);
            let after = slice_subrange(source, i + repository.len(), source.len());
            assert(before@ =~= source@.take(i as int));
            assert(after@ =~= source@.skip(i + repository@.len()));
            if host_follows(before) && path_ends(after) {
                assert(is_repository_at(source@, i as int));
                return true;
            }
        }
        i += 1;
    }
    false
}

/// Where the commit stands that a line names: `None` if the line is not about
/// the homeserver, and within that `None` if what stands there is no full hash.
fn commit_on_line(line: &[char]) -> (found: Option<Option<(usize, usize)>>)
    ensures
        found is Some <==> names_neutrino(line@),
        found matches Some(commit) ==> match commit {
            Some((from, to)) => from <= to <= line@.len() && commit_of(
                source_of(line@)->Some_0,
            ) == Some(line@.subrange(from as int, to as int)),
            None => commit_of(source_of(line@)->Some_0) is None,
        },
{
    let key: Vec<char> = chars_of("source = \"");
    let start: usize = start_of_text(line);
    let text = slice_subrange(line, start, line.len());
    assert(text@ =~= trimmed_start(line@));
    let text = slice_subrange(text, 0, end_of_text(text));
    assert(text@ =~= trimmed_end(trimmed_start(line@)));
    if !text_at(text, key.as_slice(), 0) {
        return None;
    }
    let source = slice_subrange(text, key.len(), text.len());
    assert(source@ =~= text@.skip(key@.len() as int));
    if !neutrino_source(source) {
        return None;
    }
    let hash_end: usize = start_after_hash(source);
    let tail = slice_subrange(source, hash_end, source.len());
    assert(tail@ =~= after_last_hash(source@));
    let len: usize = end_of_unquoted(tail);
    let hash = slice_subrange(tail, 0, len);
    assert(hash@ =~= unquoted(tail@));
    if !sha(hash) {
        return Some(None);
    }
    let from: usize = start + key.len() + hash_end;
    assert(line@.subrange(from as int, from + len) =~= hash@);
    Some(Some((from, from + len)))
}

/// The full hash of the commit that a lockfile resolves the homeserver to.
/// `None` if no line has its repository as a source, or if the first that
/// does holds no full hash.
pub fn neutrino_commit(lock: &str) -> (commit: Option<String>)
    ensures
        match commit {
            Some(c) => commit_in(lines(lock@)) == Some(c@),
            None => commit_in(lines(lock@)) is None,
        },
{
    let chars: Vec<char> = chars_of(lock);
    let len: usize = chars.len();
    let mut pos: usize = 0;
    assert(chars@.skip(0) =~= chars@);
    loop
        invariant
            0 <= pos <= len,
            len == chars@.len(),
            chars@ == lock@,
            commit_in(lines(lock@)) == commit_in(lines(chars@.skip(pos as int))),
        decreases len - pos,
    {
        let rest = slice_subrange(chars.as_slice(), pos, len);
        assert(rest@ =~= chars@.skip(pos as int));
        let n: usize = line_length(rest);
        let line = slice_subrange(rest, 0, n);
        assert(line@ =~= rest@.take(n as int));
        proof {
            reveal_with_fuel(commit_in, 2);
            if n == rest@.len() {
                assert(line@ =~= rest@);
                assert(lines(rest@) =~= seq![line@]);
                assert(lines(rest@).skip(1) =~= Seq::<Seq<char>>::empty());
            } else {
                assert(lines(rest@).skip(1) =~= lines(rest@.skip(n + 1)));
            }
            assert(lines(rest@)[0] == line@);
        }
        match commit_on_line(line) {
            Some(Some((from, to))) => {
                let commit = lock.substring_char(pos + from, pos + to);
                assert(commit@ =~= line@.subrange(from as int, to as int));
                return Some(commit.to_owned());
            },
            Some(None) => {
                return None;
            },
            None => {},
        }
        if n == rest.len() {
            return None;
        }
        assert(rest@.skip(n + 1) =~= chars@.skip(pos + n + 1));
        pos = pos + n + 1;
    }
}

/// What a build reports as the commit of the homeserver: `unknown` where the
/// lockfile could not be read, or does not tell.
pub fn reported_commit(lock: Option<&str>) -> (commit: String)
    ensures
        commit@ == match lock {
            Some(text) => match commit_in(lines(text@)) {
                Some(c) => c,
                None => "unknown"@,
            },
            None => "unknown"@,
        },
{
    match lock {
        Some(text) => match neutrino_commit(text) {
            Some(commit) => commit,
            None => "unknown".to_owned(),
        },
        None => "unknown".to_owned(),
    }
}

/// Whatever the text, what is found in it is a full hash.
pub proof fn law_commits_are_full_hashes(lines: Seq<Seq<char>>)
    ensures
        commit_in(lines) matches Some(c) ==> is_sha(c),
    decreases lines.len(),
{
    if lines.len() > 0 && !names_neutrino(lines[0]) {
        law_commits_are_full_hashes(lines.skip(1));
    }
}

/// The first line about the homeserver decides, whatever follows it.
pub proof fn law_first_mention_decides(before: Seq<Seq<char>>, line: Seq<char>, after: Seq<
    Seq<char>,
>)
    requires
        forall|i: int| 0 <= i < before.len() ==> !names_neutrino(#[trigger] before[i]),
        names_neutrino(line),
    ensures
        commit_in(before + seq![line] + after) == commit_of(source_of(line)->Some_0),
    decreases before.len(),
{
    let all = before + seq![line] + after;
    if before.len() > 0 {
        assert(all[0] == before[0]);
        assert(all.skip(1) =~= before.skip(1) + seq![line] + after);
        assert forall|i: int| 0 <= i < before.skip(1).len() implies !names_neutrino(
            #[trigger] before.skip(1)[i],
        ) by {
            assert(before.skip(1)[i] == before[i + 1]);
        }
        law_first_mention_decides(before.skip(1), line, after);
    } else {
        assert(all[0] == line);
    }
}

/// Without a source that is the homeserver's repository there is no commit.
pub proof fn law_no_mention_no_commit(lines: Seq<Seq<char>>)
    requires
        forall|i: int| 0 <= i < lines.len() ==> !names_neutrino(#[trigger] lines[i]),
    ensures
        commit_in(lines) is None,
    decreases lines.len(),
{
    if lines.len() > 0 {
        assert(!names_neutrino(lines[0]));
        assert forall|i: int| 0 <= i < lines.skip(1).len() implies !names_neutrino(
            #[trigger] lines.skip(1)[i],
        ) by {
            assert(lines.skip(1)[i] == lines[i + 1]);
        }
        law_no_mention_no_commit(lines.skip(1));
    }
}

proof fn lemma_first_break(s: Seq<char>)
    ensures
        0 <= first_break(s) <= s.len(),
        first_break(s) < s.len() ==> s[first_break(s)] == '\n',
        forall|k: int| 0 <= k < first_break(s) ==> s[k] != '\n',
    decreases s.len(),
{
    if s.len() > 0 && s[0] != '\n' {
        lemma_first_break(s.skip(1));
        assert forall|k: int| 0 <= k < first_break(s) implies s[k] != '\n' by {
            if k > 0 {
                assert(s[k] == s.skip(1)[k - 1]);
            }
        }
    }
}

/// A text without a line break is one line, the empty text too.
pub proof fn law_text_without_break_is_a_line(s: Seq<char>)
    requires
        !s.contains('\n'),
    ensures
        lines(s) == seq![s],
{
    lemma_first_break(s);
    if first_break(s) < s.len() {
        assert(s.contains(s[first_break(s)]));
    }
}

/// The lines before a line break and the lines behind it are the lines of the
/// text: none is left out, wherever the break stands.
pub proof fn law_lines_on_both_sides_of_a_break(a: Seq<char>, b: Seq<char>)
    ensures
        lines(a.push('\n') + b) == lines(a) + lines(b),
    decreases a.len(),
{
    let s = a.push('\n') + b;
    let i = first_break(a);
    lemma_first_break(a);
    lemma_first_break(s);
    assert forall|k: int| 0 <= k < i implies s[k] != '\n' by {
        assert(s[k] == a[k]);
    }
    if i < a.len() {
        assert(s[i] == a[i]);
        assert(first_break(s) == i);
        assert(s.skip(i + 1) =~= a.skip(i + 1).push('\n') + b);
        assert(s.take(i) =~= a.take(i));
        law_lines_on_both_sides_of_a_break(a.skip(i + 1), b);
        assert(seq![s.take(i)] + (lines(a.skip(i + 1)) + lines(b)) =~= lines(a) + lines(b));
    } else {
        assert(s[a.len() as int] == '\n');
        assert(first_break(s) == a.len());
        assert(s.take(i) =~= a);
        assert(s.skip(i + 1) =~= b);
    }
}

/// Lines, one after the other, with a line break between each and the next.
pub open spec fn with_breaks(lines: Seq<Seq<char>>) -> Seq<char>
    decreases lines.len(),
{
    if lines.len() == 0 {
        Seq::empty()
    } else if lines.len() == 1 {
        lines[0]
    } else {
        lines[0].push('\n') + with_breaks(lines.skip(1))
    }
}

/// The lines of a text hold all of it: with line breaks between them they are
/// the text again. None holds a line break.
pub proof fn law_lines_hold_the_whole_text(s: Seq<char>)
    ensures
        lines(s).len() > 0,
        with_breaks(lines(s)) == s,
        forall|i: int| 0 <= i < lines(s).len() ==> !(#[trigger] lines(s)[i]).contains('\n'),
    decreases s.len(),
{
    let i = first_break(s);
    lemma_first_break(s);
    if i < s.len() {
        let rest = s.skip(i + 1);
        law_lines_hold_the_whole_text(rest);
        assert(lines(s).skip(1) =~= lines(rest));
        assert(s =~= s.take(i).push('\n') + rest);
        assert forall|k: int| 0 <= k < lines(s).len() implies !(#[trigger] lines(s)[k]).contains(
            '\n',
        ) by {
            if k > 0 {
                assert(lines(s)[k] == lines(rest)[k - 1]);
            }
        }
    }
}

/// Lines that are put together with line breaks are found again, whatever they
/// hold.
pub proof fn law_lines_are_found_again(ls: Seq<Seq<char>>)
    requires
        ls.len() > 0,
        forall|i: int| 0 <= i < ls.len() ==> !(#[trigger] ls[i]).contains('\n'),
    ensures
        lines(with_breaks(ls)) == ls,
    decreases ls.len(),
{
    assert(!ls[0].contains('\n'));
    law_text_without_break_is_a_line(ls[0]);
    if ls.len() == 1 {
        assert(ls =~= seq![ls[0]]);
    } else {
        let rest = ls.skip(1);
        assert forall|i: int| 0 <= i < rest.len() implies !(#[trigger] rest[i]).contains(
            '\n',
        ) by {
            assert(rest[i] == ls[i + 1]);
        }
        law_lines_are_found_again(rest);
        law_lines_on_both_sides_of_a_break(ls[0], with_breaks(rest));
        assert(seq![ls[0]] + rest =~= ls);
    }
}

/// A line about the homeserver is found wherever it stands: behind whatever
/// lines that are not, blank ones too, and before any text.
pub proof fn law_commit_is_found_wherever_it_stands(
    before: Seq<Seq<char>>,
    line: Seq<char>,
    after: Seq<Seq<char>>,
)
    requires
        forall|i: int|
            0 <= i < before.len() ==> !(#[trigger] before[i]).contains('\n') && !names_neutrino(
                before[i],
            ),
        forall|i: int| 0 <= i < after.len() ==> !(#[trigger] after[i]).contains('\n'),
        !line.contains('\n'),
        names_neutrino(line),
    ensures
        commit_in(lines(with_breaks(before + seq![line] + after))) == commit_of(
            source_of(line)->Some_0,
        ),
{
    let all = before + seq![line] + after;
    assert forall|i: int| 0 <= i < all.len() implies !(#[trigger] all[i]).contains('\n') by {
        if i < before.len() {
            assert(all[i] == before[i]);
        } else if i > before.len() {
            assert(all[i] == after[i - before.len() - 1]);
        }
    }
    law_lines_are_found_again(all);
    law_first_mention_decides(before, line, after);
}

/// All white space there is, by code point.
pub open spec fn white_space_points() -> Seq<u32> {
    seq![
        0x9,
        0xA,
        0xB,
        0xC,
        0xD,
        0x20,
        0x85,
        0xA0,
        0x1680,
        0x2000,
        0x2001,
        0x2002,
        0x2003,
        0x2004,
        0x2005,
        0x2006,
        0x2007,
        0x2008,
        0x2009,
        0x200A,
        0x2028,
        0x2029,
        0x202F,
        0x205F,
        0x3000,
    ]
}

/// White space is each of these code points, and nothing else.
pub proof fn law_white_space_is_these_points(c: char)
    ensures
        is_white_space(c) <==> white_space_points().contains(c as u32),
{
    let points = white_space_points();
    if is_white_space(c) {
        let at: int = if c <= '\u{d}' {
            c as u32 - 9
        } else if c == ' ' {
            5
        } else if c == '\u{85}' {
            6
        } else if c == '\u{a0}' {
            7
        } else if c == '\u{1680}' {
            8
        } else if c <= '\u{200a}' {
            9 + (c as u32 - 0x2000)
        } else if c == '\u{2028}' {
            20
        } else if c == '\u{2029}' {
            21
        } else if c == '\u{202f}' {
            22
        } else if c == '\u{205f}' {
            23
        } else {
            24
        };
        assert(points[at] == c as u32);
    }
}

/// Nothing but white space.
pub open spec fn is_blank(s: Seq<char>) -> bool {
    forall|i: int| 0 <= i < s.len() ==> is_white_space(#[trigger] s[i])
}

proof fn lemma_trimmed_start(s: Seq<char>) -> (k: int)
    ensures
        0 <= k <= s.len(),
        trimmed_start(s) == s.skip(k),
        is_blank(s.take(k)),
        k < s.len() ==> !is_white_space(s[k]),
    decreases s.len(),
{
    if s.len() > 0 && is_white_space(s[0]) {
        let k = lemma_trimmed_start(s.skip(1));
        assert(s.skip(1).skip(k) =~= s.skip(k + 1));
        assert forall|i: int| 0 <= i < k + 1 implies is_white_space(
            #[trigger] s.take(k + 1)[i],
        ) by {
            if i > 0 {
                assert(s.take(k + 1)[i] == s.skip(1).take(k)[i - 1]);
            }
        }
        k + 1
    } else {
        assert(s.skip(0) =~= s);
        0
    }
}

proof fn lemma_trimmed_end(s: Seq<char>) -> (k: int)
    ensures
        0 <= k <= s.len(),
        trimmed_end(s) == s.take(k),
        is_blank(s.skip(k)),
        k > 0 ==> !is_white_space(s[k - 1]),
    decreases s.len(),
{
    if s.len() > 0 && is_white_space(s.last()) {
        let k = lemma_trimmed_end(s.drop_last());
        assert(s.drop_last().take(k) =~= s.take(k));
        assert forall|i: int| 0 <= i < s.len() - k implies is_white_space(
            #[trigger] s.skip(k)[i],
        ) by {
            if i < s.len() - k - 1 {
                assert(s.skip(k)[i] == s.drop_last().skip(k)[i]);
            }
        }
        k
    } else {
        assert(s.take(s.len() as int) =~= s);
        s.len() as int
    }
}

/// Trimming takes white space off both ends, all of it and nothing else.
pub proof fn law_trimming_leaves_the_text(lead: Seq<char>, text: Seq<char>, trail: Seq<char>)
    requires
        is_blank(lead),
        is_blank(trail),
        text.len() > 0,
        !is_white_space(text[0]),
        !is_white_space(text.last()),
    ensures
        trimmed_end(trimmed_start(lead + text + trail)) == text,
{
    let s = lead + text + trail;
    let k = lemma_trimmed_start(s);
    assert(s[lead.len() as int] == text[0]);
    if k > lead.len() {
        assert(s.take(k)[lead.len() as int] == text[0]);
    }
    if k < lead.len() {
        assert(s[k] == lead[k]);
    }
    assert(s.skip(k) =~= text + trail);
    let t = text + trail;
    let n = lemma_trimmed_end(t);
    assert(t[text.len() - 1] == text.last());
    if n < text.len() {
        assert(t.skip(n)[text.len() - 1 - n] == text.last());
    }
    if n > text.len() {
        assert(t[n - 1] == trail[n - 1 - text.len()]);
    }
    assert(t.take(n) =~= text);
}

/// The line, put together from its parts: the key, a scheme, user data with its
/// `@` if there is any, the repository, and what is left of the source.
pub open spec fn spells(
    line: Seq<char>,
    lead: Seq<char>,
    scheme: Seq<char>,
    user: Seq<char>,
    rest: Seq<char>,
    trail: Seq<char>,
) -> bool {
    line == lead + "source = \""@ + ("git+"@ + scheme + "://"@ + user
        + "github.com/element-hq/neutrino"@ + rest) + trail
}

/// Whether these are the parts of a line about the homeserver.
pub open spec fn are_parts(
    lead: Seq<char>,
    scheme: Seq<char>,
    user: Seq<char>,
    rest: Seq<char>,
    trail: Seq<char>,
) -> bool {
    &&& is_blank(lead) && is_blank(trail)
    &&& !scheme.contains('/') && !scheme.contains('?') && !scheme.contains('#')
    &&& !user.contains('/') && !user.contains('?') && !user.contains('#')
    &&& user.len() > 0 ==> user.last() == '@'
    &&& rest.contains('#') && !is_white_space(rest.last())
    &&& ({
        ||| rest[0] == '?' || rest[0] == '#'
        ||| rest.len() >= 2 && (rest.take(2) == "/?"@ || rest.take(2) == "/#"@)
        ||| rest.len() >= 5 && (rest.take(5) == ".git?"@ || rest.take(5) == ".git#"@)
        ||| rest.len() >= 6 && (rest.take(6) == ".git/?"@ || rest.take(6) == ".git/#"@)
    })
}

proof fn lemma_plain(s: Seq<char>)
    ensures
        is_plain(s) <==> !s.contains('/') && !s.contains('?') && !s.contains('#'),
{
    if !is_plain(s) {
        let i = choose|i: int|
            0 <= i < s.len() && (#[trigger] s[i] == '/' || s[i] == '?' || s[i] == '#');
        assert(s.contains(s[i]));
    }
}

proof fn lemma_ends_path(s: Seq<char>)
    requires
        s.len() > 0,
    ensures
        ends_path(s) <==> {
            ||| s[0] == '?' || s[0] == '#'
            ||| s.len() >= 2 && (s.take(2) == "/?"@ || s.take(2) == "/#"@)
            ||| s.len() >= 5 && (s.take(5) == ".git?"@ || s.take(5) == ".git#"@)
            ||| s.len() >= 6 && (s.take(6) == ".git/?"@ || s.take(6) == ".git/#"@)
        },
{
    reveal_strlit("?");
    reveal_strlit("#");
    reveal_strlit("/?");
    reveal_strlit("/#");
    reveal_strlit(".git?");
    reveal_strlit(".git#");
    reveal_strlit(".git/?");
    reveal_strlit(".git/#");
    assert(s.subrange(0, 1) =~= seq![s[0]]);
    assert("?"@ =~= seq!['?']);
    assert("#"@ =~= seq!['#']);
    assert(seq![s[0]][0] == s[0]);
}

proof fn lemma_three_parts(x: Seq<char>, y: Seq<char>, z: Seq<char>)
    ensures
        (x + y + z).take(x.len() as int) == x,
        (x + y + z).subrange(x.len() as int, (x.len() + y.len()) as int) == y,
        (x + y + z).skip((x.len() + y.len()) as int) == z,
{
    assert((x + y + z).take(x.len() as int) =~= x);
    assert((x + y + z).subrange(x.len() as int, (x.len() + y.len()) as int) =~= y);
    assert((x + y + z).skip((x.len() + y.len()) as int) =~= z);
}

proof fn lemma_cut_in_three(s: Seq<char>, i: int, j: int)
    requires
        0 <= i <= j <= s.len(),
    ensures
        s == s.take(i) + s.subrange(i, j) + s.skip(j),
{
    assert(s =~= s.take(i) + s.subrange(i, j) + s.skip(j));
}

proof fn lemma_source_is_read(lead: Seq<char>, source: Seq<char>, trail: Seq<char>)
    requires
        is_blank(lead),
        is_blank(trail),
        source.len() > 0,
        !is_white_space(source.last()),
    ensures
        source_of(lead + "source = \""@ + source + trail) == Some(source),
{
    reveal_strlit("source = \"");
    let key = "source = \""@;
    let text = key + source;
    assert(lead + key + source + trail =~= lead + text + trail);
    assert(text[0] == 's');
    assert(text.last() == source.last());
    law_trimming_leaves_the_text(lead, text, trail);
    assert(text.subrange(0, key.len() as int) =~= key);
    assert(text.skip(key.len() as int) =~= source);
}

proof fn lemma_source_is_cut_out(line: Seq<char>) -> (ends: (Seq<char>, Seq<char>))
    requires
        source_of(line) matches Some(source) && source.len() > 0,
    ensures
        is_blank(ends.0),
        is_blank(ends.1),
        line == ends.0 + "source = \""@ + source_of(line)->Some_0 + ends.1,
        !is_white_space(source_of(line)->Some_0.last()),
{
    let key = "source = \""@;
    let k = lemma_trimmed_start(line);
    let started = line.skip(k);
    let n = lemma_trimmed_end(started);
    let text = started.take(n);
    let source = text.skip(key.len() as int);
    assert(source.last() == started[n - 1]);
    assert(text =~= text.subrange(0, key.len() as int) + source);
    assert(line =~= line.take(k) + text + started.skip(n));
    assert(line =~= line.take(k) + key + source + started.skip(n));
    (line.take(k), started.skip(n))
}

proof fn lemma_host_comes_next(scheme: Seq<char>, user: Seq<char>)
    requires
        is_plain(scheme),
        is_plain(user),
        user.len() > 0 ==> user.last() == '@',
    ensures
        leads_to_host("git+"@ + scheme + "://"@ + user),
{
    reveal_strlit("git+");
    reveal_strlit("://");
    let x = "git+"@ + scheme;
    let before = x + "://"@ + user;
    lemma_three_parts(x, "://"@, user);
    lemma_three_parts(Seq::empty(), "git+"@, scheme + "://"@ + user);
    assert(before =~= Seq::empty() + "git+"@ + (scheme + "://"@ + user));
    assert forall|k: int| 0 <= k < x.len() implies #[trigger] x[k] != '/' && x[k] != '?' && x[k]
        != '#' by {
        if k >= 4 {
            assert(x[k] == scheme[k - 4]);
        }
    }
    assert(is_split_at(before, x.len() as int));
}

proof fn lemma_host_is_led_to(before: Seq<char>) -> (parts: (Seq<char>, Seq<char>))
    requires
        leads_to_host(before),
    ensures
        before == "git+"@ + parts.0 + "://"@ + parts.1,
        is_plain(parts.0),
        is_plain(parts.1),
        parts.1.len() > 0 ==> parts.1.last() == '@',
{
    reveal_strlit("git+");
    reveal_strlit("://");
    let j = choose|j: int| is_split_at(before, j);
    let git = before.subrange(0, 4);
    let separator = before.subrange(j, j + 3);
    assert(git[0] == 'g' && git[1] == 'i' && git[2] == 't' && git[3] == '+');
    assert(separator[0] == ':');
    assert(before[0] == git[0] && before[1] == git[1] && before[2] == git[2] && before[3]
        == git[3]);
    assert(before[j] == separator[0]);
    assert(j >= 4);
    let scheme = before.subrange(4, j);
    let user = before.skip(j + 3);
    lemma_cut_in_three(before, j, j + 3);
    assert(before.take(j) =~= git + scheme);
    assert forall|k: int| 0 <= k < scheme.len() implies #[trigger] scheme[k] != '/' && scheme[k]
        != '?' && scheme[k] != '#' by {
        assert(scheme[k] == before.take(j)[k + 4]);
    }
    (scheme, user)
}

proof fn lemma_repository_has_no_hash()
    ensures
        !"github.com/element-hq/neutrino"@.contains('#'),
        "github.com/element-hq/neutrino"@.len() == 30,
{
    reveal_strlit("github.com/element-hq/neutrino");
}

proof fn lemma_lead_has_no_hash(scheme: Seq<char>, user: Seq<char>)
    requires
        is_plain(scheme),
        is_plain(user),
    ensures
        !("git+"@ + scheme + "://"@ + user).contains('#'),
{
    reveal_strlit("git+");
    reveal_strlit("://");
    let s = "git+"@ + scheme + "://"@ + user;
    let j = 4 + scheme.len();
    assert forall|k: int| 0 <= k < s.len() implies s[k] != '#' by {
        if 4 <= k < j {
            assert(s[k] == scheme[k - 4]);
        } else if k >= j + 3 {
            assert(s[k] == user[k - j - 3]);
        }
    }
}

proof fn lemma_parts_are_read(
    line: Seq<char>,
    lead: Seq<char>,
    scheme: Seq<char>,
    user: Seq<char>,
    rest: Seq<char>,
    trail: Seq<char>,
)
    requires
        spells(line, lead, scheme, user, rest, trail),
        are_parts(lead, scheme, user, rest, trail),
    ensures
        source_of(line) == Some(
            "git+"@ + scheme + "://"@ + user + "github.com/element-hq/neutrino"@ + rest,
        ),
        names_neutrino(line),
{
    let repository = "github.com/element-hq/neutrino"@;
    let before = "git+"@ + scheme + "://"@ + user;
    let source = before + repository + rest;
    let i = before.len() as int;
    lemma_plain(scheme);
    lemma_plain(user);
    lemma_host_comes_next(scheme, user);
    lemma_three_parts(before, repository, rest);
    let h = choose|h: int| 0 <= h < rest.len() && rest[h] == '#';
    assert(source[i + repository.len() + h] == '#');
    assert(source.last() == rest.last());
    lemma_source_is_read(lead, source, trail);
    lemma_ends_path(rest);
    assert(is_repository_at(source, i));
}

proof fn lemma_line_has_parts(line: Seq<char>) -> (parts: (
    Seq<char>,
    Seq<char>,
    Seq<char>,
    Seq<char>,
    Seq<char>,
))
    requires
        names_neutrino(line),
    ensures
        spells(line, parts.0, parts.1, parts.2, parts.3, parts.4),
        are_parts(parts.0, parts.1, parts.2, parts.3, parts.4),
{
    let repository = "github.com/element-hq/neutrino"@;
    let source = source_of(line)->Some_0;
    let (lead, trail) = lemma_source_is_cut_out(line);
    let i = choose|i: int| is_repository_at(source, i);
    let before = source.take(i);
    let rest = source.skip(i + repository.len());
    lemma_cut_in_three(source, i, i + repository.len());
    let (scheme, user) = lemma_host_is_led_to(before);
    lemma_plain(scheme);
    lemma_plain(user);
    lemma_lead_has_no_hash(scheme, user);
    lemma_repository_has_no_hash();
    let h = choose|h: int| 0 <= h < source.len() && source[h] == '#';
    if h < i {
        assert(before[h] == '#');
        assert(before.contains('#'));
    } else if h < i + repository.len() {
        assert(source.subrange(i, i + repository.len())[h - i] == '#');
        assert(repository.contains('#'));
    } else {
        assert(rest[h - i - repository.len()] == '#');
        assert(rest.contains('#'));
    }
    assert(rest.last() == source.last());
    lemma_ends_path(rest);
    (lead, scheme, user, rest, trail)
}

/// A line is about the homeserver exactly if it can be put together from such
/// parts: no other repository counts, and none that is the homeserver's is
/// missed, whatever the scheme, the user data and the query are.
pub proof fn law_lines_about_the_homeserver(line: Seq<char>)
    ensures
        names_neutrino(line) <==> exists|
            lead: Seq<char>,
            scheme: Seq<char>,
            user: Seq<char>,
            rest: Seq<char>,
            trail: Seq<char>,
        | #[trigger]
            spells(line, lead, scheme, user, rest, trail) && are_parts(
                lead,
                scheme,
                user,
                rest,
                trail,
            ),
{
    if names_neutrino(line) {
        let parts = lemma_line_has_parts(line);
        assert(spells(line, parts.0, parts.1, parts.2, parts.3, parts.4));
    }
    if exists|
        lead: Seq<char>,
        scheme: Seq<char>,
        user: Seq<char>,
        rest: Seq<char>,
        trail: Seq<char>,
    | #[trigger]
        spells(line, lead, scheme, user, rest, trail) && are_parts(lead, scheme, user, rest, trail)
    {
        let (lead, scheme, user, rest, trail) = choose|
            lead: Seq<char>,
            scheme: Seq<char>,
            user: Seq<char>,
            rest: Seq<char>,
            trail: Seq<char>,
        | #[trigger]
            spells(line, lead, scheme, user, rest, trail) && are_parts(
                lead,
                scheme,
                user,
                rest,
                trail,
            );
        lemma_parts_are_read(line, lead, scheme, user, rest, trail);
    }
}

proof fn lemma_unquoted(s: Seq<char>, quotes: Seq<char>)
    requires
        s.len() > 0 ==> s.last() != '"',
        forall|i: int| 0 <= i < quotes.len() ==> quotes[i] == '"',
    ensures
        unquoted(s + quotes) == s,
    decreases quotes.len(),
{
    if quotes.len() > 0 {
        assert((s + quotes).last() == quotes[quotes.len() - 1]);
        assert((s + quotes).drop_last() =~= s + quotes.drop_last());
        lemma_unquoted(s, quotes.drop_last());
    } else {
        assert(s + quotes =~= s);
    }
}

proof fn lemma_quotes_taken_off(s: Seq<char>) -> (quotes: Seq<char>)
    ensures
        s == unquoted(s) + quotes,
        forall|i: int| 0 <= i < quotes.len() ==> quotes[i] == '"',
    decreases s.len(),
{
    if s.len() > 0 && s.last() == '"' {
        let quotes = lemma_quotes_taken_off(s.drop_last());
        assert(s =~= s.drop_last().push('"'));
        assert(s =~= unquoted(s) + quotes.push('"'));
        quotes.push('"')
    } else {
        assert(s =~= s + Seq::<char>::empty());
        Seq::empty()
    }
}

proof fn lemma_after_last_hash(head: Seq<char>, tail: Seq<char>)
    requires
        !tail.contains('#'),
    ensures
        after_last_hash(head.push('#') + tail) == tail,
    decreases tail.len(),
{
    let s = head.push('#') + tail;
    if tail.len() > 0 {
        assert(s.last() == tail.last());
        assert(tail.contains(tail.last()));
        assert(s.drop_last() =~= head.push('#') + tail.drop_last());
        assert forall|i: int| 0 <= i < tail.len() - 1 implies tail.drop_last()[i] != '#' by {
            assert(tail.contains(tail[i]));
        }
        lemma_after_last_hash(head, tail.drop_last());
        assert(tail.drop_last().push(tail.last()) =~= tail);
    } else {
        assert(s =~= head.push('#'));
    }
}

proof fn lemma_head_before_hash(s: Seq<char>) -> (head: Seq<char>)
    requires
        s.contains('#'),
    ensures
        s == head.push('#') + after_last_hash(s),
    decreases s.len(),
{
    let last = s.last();
    assert(s =~= s.drop_last().push(last));
    if last == '#' {
        assert(s =~= s.drop_last().push('#') + Seq::<char>::empty());
        s.drop_last()
    } else {
        let at = choose|at: int| 0 <= at < s.len() && s[at] == '#';
        assert(s.drop_last()[at] == '#');
        let head = lemma_head_before_hash(s.drop_last());
        assert(s =~= head.push('#') + after_last_hash(s));
        head
    }
}

/// The commit of a source is what stands behind its last `#`, without the
/// quotation marks at the end, and only forty hexadecimal digits are one.
pub proof fn law_commit_stands_behind_the_hash(source: Seq<char>, c: Seq<char>)
    requires
        source.contains('#'),
    ensures
        commit_of(source) == Some(c) <==> {
            &&& c.len() == 40
            &&& forall|i: int|
                0 <= i < 40 ==> '0' <= #[trigger] c[i] <= '9' || 'a' <= c[i] <= 'f' || 'A' <= c[i]
                    <= 'F'
            &&& exists|head: Seq<char>, quotes: Seq<char>|
                source == #[trigger] (head.push('#') + c + quotes) && forall|i: int|
                    0 <= i < quotes.len() ==> quotes[i] == '"'
        },
{
    if commit_of(source) == Some(c) {
        let head = lemma_head_before_hash(source);
        let quotes = lemma_quotes_taken_off(after_last_hash(source));
        assert(source =~= head.push('#') + c + quotes);
        assert forall|i: int| 0 <= i < 40 implies '0' <= #[trigger] c[i] <= '9' || 'a' <= c[i]
            <= 'f' || 'A' <= c[i] <= 'F' by {
            assert(is_hex_digit(c[i]));
        }
    }
    if c.len() == 40 && (forall|i: int|
        0 <= i < 40 ==> '0' <= #[trigger] c[i] <= '9' || 'a' <= c[i] <= 'f' || 'A' <= c[i] <= 'F')
        && exists|head: Seq<char>, quotes: Seq<char>|
        source == #[trigger] (head.push('#') + c + quotes) && forall|i: int|
            0 <= i < quotes.len() ==> quotes[i] == '"' {
        let (head, quotes) = choose|head: Seq<char>, quotes: Seq<char>|
            source == #[trigger] (head.push('#') + c + quotes) && forall|i: int|
                0 <= i < quotes.len() ==> quotes[i] == '"';
        let tail = c + quotes;
        assert(source =~= head.push('#') + tail);
        assert forall|i: int| 0 <= i < tail.len() implies tail[i] != '#' by {
            if i >= 40 {
                assert(tail[i] == quotes[i - 40]);
            } else {
                assert(tail[i] == c[i]);
            }
        }
        lemma_after_last_hash(head, tail);
        assert(c.last() == c[39]);
        lemma_unquoted(c, quotes);
        assert(is_sha(c));
    }
}

/// The whole way: a line about the homeserver that is resolved to a full hash
/// gives that hash, wherever it stands in a text in which it is the first.
pub proof fn law_resolved_commit_is_reported(
    before: Seq<Seq<char>>,
    lead: Seq<char>,
    scheme: Seq<char>,
    user: Seq<char>,
    rest: Seq<char>,
    sha: Seq<char>,
    trail: Seq<char>,
    after: Seq<Seq<char>>,
)
    requires
        are_parts(lead, scheme, user, rest.push('#') + sha + "\""@, trail),
        sha.len() == 40,
        forall|i: int|
            0 <= i < 40 ==> '0' <= #[trigger] sha[i] <= '9' || 'a' <= sha[i] <= 'f' || 'A'
                <= sha[i] <= 'F',
        forall|i: int|
            0 <= i < before.len() ==> !(#[trigger] before[i]).contains('\n') && !names_neutrino(
                before[i],
            ),
        forall|i: int| 0 <= i < after.len() ==> !(#[trigger] after[i]).contains('\n'),
        !(lead + "source = \""@ + ("git+"@ + scheme + "://"@ + user
            + "github.com/element-hq/neutrino"@ + (rest.push('#') + sha + "\""@))
            + trail).contains('\n'),
    ensures
        commit_in(
            lines(
                with_breaks(
                    before + seq![
                        lead + "source = \""@ + ("git+"@ + scheme + "://"@ + user
                            + "github.com/element-hq/neutrino"@ + (rest.push('#') + sha + "\""@))
                            + trail,
                    ] + after,
                ),
            ),
        ) == Some(sha),
{
    reveal_strlit("\"");
    let end = rest.push('#') + sha + "\""@;
    let address = "git+"@ + scheme + "://"@ + user + "github.com/element-hq/neutrino"@;
    let source = address + end;
    let line = lead + "source = \""@ + source + trail;
    lemma_parts_are_read(line, lead, scheme, user, end, trail);
    law_commit_is_found_wherever_it_stands(before, line, after);
    let head = address + rest;
    assert(source =~= head.push('#') + sha + "\""@);
    assert(source[head.len() as int] == '#');
    assert(source.contains('#'));
    law_commit_stands_behind_the_hash(source, sha);
}

} // verus!
