//! Text as sequences of characters: searching, splitting, trimming, comparing
//! and building, each function proved against a definition over `Seq<char>`.

use vstd::prelude::*;
use vstd::slice::slice_subrange;

verus! {

/// `String::push` appends one character.
pub assume_specification[ String::push ](s: &mut String, ch: char)
    ensures
        final(s)@ == old(s)@.push(ch),
;

/// The characters of a string.
pub fn chars_of(s: &str) -> (r: Vec<char>)
    ensures
        r@ == s@,
{
    let mut out: Vec<char> = Vec::new();
    for c in it: s.chars()
        invariant
            it.seq() == s@,
            out@ == s@.take(it.index() as int),
    {
        out.push(c);
        assert(s@.take(it.index() as int + 1) =~= s@.take(it.index() as int).push(c));
    }
    assert(s@.take(s@.len() as int) =~= s@);
    out
}

/// The string made of the given characters.
pub fn string_of(chars: &[char]) -> (r: String)
    ensures
        r@ == chars@,
{
    let mut out: String = String::new();
    let mut i: usize = 0;
    while i < chars.len()
        invariant
            i <= chars@.len(),
            out@ == chars@.take(i as int),
        decreases chars@.len() - i,
    {
        out.push(chars[i]);
        i = i + 1;
        assert(chars@.take(i as int) =~= chars@.take(i - 1).push(chars@[i - 1]));
    }
    assert(chars@.take(i as int) =~= chars@);
    out
}

/// Whether two strings hold the same characters.
pub fn same_text(a: &str, b: &str) -> (r: bool)
    ensures
        r == (a@ == b@),
{
    let left: Vec<char> = chars_of(a);
    let right: Vec<char> = chars_of(b);
    same_chars(left.as_slice(), right.as_slice())
}

/// Whether two character sequences are equal.
pub fn same_chars(a: &[char], b: &[char]) -> (r: bool)
    ensures
        r == (a@ == b@),
{
    if a.len() != b.len() {
        return false;
    }
    let mut i: usize = 0;
    while i < a.len()
        invariant
            i <= a@.len(),
            a@.len() == b@.len(),
            forall|j: int| 0 <= j < i ==> a@[j] == b@[j],
        decreases a@.len() - i,
    {
        if a[i] != b[i] {
            return false;
        }
        i = i + 1;
    }
    assert(a@ =~= b@);
    true
}

/// Whether the characters spell the string.
pub fn spells(a: &[char], b: &str) -> (r: bool)
    ensures
        r == (a@ == b@),
{
    let right: Vec<char> = chars_of(b);
    same_chars(a, right.as_slice())
}

/// Appends characters to a buffer.
pub fn push_chars(out: &mut Vec<char>, more: &[char])
    ensures
        final(out)@ == old(out)@ + more@,
{
    let ghost before = out@;
    let mut i: usize = 0;
    while i < more.len()
        invariant
            i <= more@.len(),
            out@ == before + more@.take(i as int),
        decreases more@.len() - i,
    {
        out.push(more[i]);
        i = i + 1;
        assert(before + more@.take(i as int) =~= (before + more@.take(i - 1)).push(more@[i - 1]));
    }
    assert(more@.take(i as int) =~= more@);
}

/// The views of a list of strings.
pub open spec fn texts(list: Seq<String>) -> Seq<Seq<char>> {
    list.map_values(|s: String| s@)
}

/// What a list of strings with keys holds.
pub open spec fn keyed_texts<K>(list: Seq<(K, String)>) -> Seq<(K, Seq<char>)> {
    list.map_values(|entry: (K, String)| (entry.0, entry.1@))
}

/// The views of a list of character buffers.
pub open spec fn views(list: Seq<Vec<char>>) -> Seq<Seq<char>> {
    list.map_values(|s: Vec<char>| s@)
}

// ---------------------------------------------------------------- searching

/// The first index at or after `i` that holds `c`.
pub open spec fn find_from(s: Seq<char>, c: char, i: int) -> Option<int>
    decreases s.len() - i,
{
    if i < 0 || i >= s.len() {
        None
    } else if s[i] == c {
        Some(i)
    } else {
        find_from(s, c, i + 1)
    }
}

/// The first index that holds `c`.
pub open spec fn find(s: Seq<char>, c: char) -> Option<int> {
    find_from(s, c, 0)
}

/// What `find_from` means: the index it gives holds `c` and none before it does.
pub proof fn lemma_find_from(s: Seq<char>, c: char, i: int)
    requires
        0 <= i,
    ensures
        match find_from(s, c, i) {
            Some(k) => i <= k < s.len() && s[k] == c && forall|j: int| i <= j < k ==> s[j] != c,
            None => forall|j: int| i <= j < s.len() ==> s[j] != c,
        },
    decreases s.len() - i,
{
    if i < s.len() && s[i] != c {
        lemma_find_from(s, c, i + 1);
    }
}

/// The first index that holds `c`, if any does.
pub fn find_char(s: &[char], c: char) -> (r: Option<usize>)
    ensures
        match r {
            Some(i) => find(s@, c) == Some(i as int) && i < s@.len() && s@[i as int] == c,
            None => find(s@, c) is None,
        },
{
    let mut i: usize = 0;
    while i < s.len()
        invariant
            i <= s@.len(),
            find(s@, c) == find_from(s@, c, i as int),
        decreases s@.len() - i,
    {
        if s[i] == c {
            return Some(i);
        }
        i = i + 1;
    }
    None
}

/// The last index below `i` that holds `c`.
pub open spec fn rfind_to(s: Seq<char>, c: char, i: int) -> Option<int>
    decreases i,
{
    if i <= 0 || i > s.len() {
        None
    } else if s[i - 1] == c {
        Some(i - 1)
    } else {
        rfind_to(s, c, i - 1)
    }
}

/// The last index that holds `c`.
pub open spec fn rfind(s: Seq<char>, c: char) -> Option<int> {
    rfind_to(s, c, s.len() as int)
}

/// What `rfind_to` means: the index it gives holds `c` and none after it does.
pub proof fn lemma_rfind_to(s: Seq<char>, c: char, i: int)
    requires
        0 <= i <= s.len(),
    ensures
        match rfind_to(s, c, i) {
            Some(k) => 0 <= k < i && s[k] == c && forall|j: int| k < j < i ==> s[j] != c,
            None => forall|j: int| 0 <= j < i ==> s[j] != c,
        },
    decreases i,
{
    if i > 0 && s[i - 1] != c {
        lemma_rfind_to(s, c, i - 1);
    }
}

/// The last index that holds `c`, if any does.
pub fn rfind_char(s: &[char], c: char) -> (r: Option<usize>)
    ensures
        match r {
            Some(i) => rfind(s@, c) == Some(i as int) && i < s@.len() && s@[i as int] == c,
            None => rfind(s@, c) is None,
        },
{
    let mut i: usize = s.len();
    while i > 0
        invariant
            i <= s@.len(),
            rfind(s@, c) == rfind_to(s@, c, i as int),
        decreases i,
    {
        if s[i - 1] == c {
            return Some(i - 1);
        }
        i = i - 1;
    }
    None
}

/// The first index at or after `i` that holds one of `set`.
pub open spec fn find_any_from(s: Seq<char>, set: Seq<char>, i: int) -> Option<int>
    decreases s.len() - i,
{
    if i < 0 || i >= s.len() {
        None
    } else if set.contains(s[i]) {
        Some(i)
    } else {
        find_any_from(s, set, i + 1)
    }
}

/// The first index that holds one of `set`.
pub open spec fn find_any(s: Seq<char>, set: Seq<char>) -> Option<int> {
    find_any_from(s, set, 0)
}

/// What `find_any_from` means.
pub proof fn lemma_find_any_from(s: Seq<char>, set: Seq<char>, i: int)
    requires
        0 <= i,
    ensures
        match find_any_from(s, set, i) {
            Some(k) => i <= k < s.len() && set.contains(s[k]) && forall|j: int|
                i <= j < k ==> !set.contains(#[trigger] s[j]),
            None => forall|j: int| i <= j < s.len() ==> !set.contains(#[trigger] s[j]),
        },
    decreases s.len() - i,
{
    if i < s.len() && !set.contains(s[i]) {
        lemma_find_any_from(s, set, i + 1);
    }
}

/// Whether `set` holds `c`.
pub fn holds(set: &[char], c: char) -> (r: bool)
    ensures
        r == set@.contains(c),
{
    let mut i: usize = 0;
    while i < set.len()
        invariant
            i <= set@.len(),
            forall|j: int| 0 <= j < i ==> set@[j] != c,
        decreases set@.len() - i,
    {
        if set[i] == c {
            assert(set@[i as int] == c);
            return true;
        }
        i = i + 1;
    }
    false
}

/// The first index that holds one of `set`, if any does.
pub fn find_any_char(s: &[char], set: &[char]) -> (r: Option<usize>)
    ensures
        match r {
            Some(i) => find_any(s@, set@) == Some(i as int) && i < s@.len(),
            None => find_any(s@, set@) is None,
        },
{
    let mut i: usize = 0;
    while i < s.len()
        invariant
            i <= s@.len(),
            find_any(s@, set@) == find_any_from(s@, set@, i as int),
        decreases s@.len() - i,
    {
        if holds(set, s[i]) {
            return Some(i);
        }
        i = i + 1;
    }
    None
}

/// Whether `pattern` stands in `s` at index `i`.
pub open spec fn occurs_at<T>(s: Seq<T>, pattern: Seq<T>, i: int) -> bool {
    0 <= i && i + pattern.len() <= s.len() && s.subrange(i, i + pattern.len()) == pattern
}

/// The first index at or after `i` at which `pattern` stands.
pub open spec fn find_sub_from<T>(s: Seq<T>, pattern: Seq<T>, i: int) -> Option<int>
    decreases s.len() + 1 - i,
{
    if i < 0 || i + pattern.len() > s.len() {
        None
    } else if occurs_at(s, pattern, i) {
        Some(i)
    } else {
        find_sub_from(s, pattern, i + 1)
    }
}

/// The first index at which `pattern` stands.
pub open spec fn find_sub<T>(s: Seq<T>, pattern: Seq<T>) -> Option<int> {
    find_sub_from(s, pattern, 0)
}

/// What `find_sub_from` means.
pub proof fn lemma_find_sub_from<T>(s: Seq<T>, pattern: Seq<T>, i: int)
    requires
        0 <= i,
    ensures
        match find_sub_from(s, pattern, i) {
            Some(k) => i <= k && occurs_at(s, pattern, k) && forall|j: int|
                i <= j < k ==> !#[trigger] occurs_at(s, pattern, j),
            None => forall|j: int| i <= j ==> !#[trigger] occurs_at(s, pattern, j),
        },
    decreases s.len() + 1 - i,
{
    if i + pattern.len() <= s.len() && !occurs_at(s, pattern, i) {
        lemma_find_sub_from(s, pattern, i + 1);
    }
}

/// Whether `pattern` stands in `s` at index `i`.
pub fn stands_at(s: &[char], pattern: &[char], i: usize) -> (r: bool)
    ensures
        r == occurs_at(s@, pattern@, i as int),
{
    if i > s.len() || pattern.len() > s.len() - i {
        return false;
    }
    same_chars(slice_subrange(s, i, i + pattern.len()), pattern)
}

/// The first index at which `pattern` stands, if any.
pub fn find_text(s: &[char], pattern: &[char]) -> (r: Option<usize>)
    ensures
        match r {
            Some(i) => find_sub(s@, pattern@) == Some(i as int) && occurs_at(
                s@,
                pattern@,
                i as int,
            ),
            None => find_sub(s@, pattern@) is None,
        },
{
    let n: usize = s.len();
    let mut i: usize = 0;
    while i < n
        invariant
            i <= n,
            n == s@.len(),
            find_sub(s@, pattern@) == find_sub_from(s@, pattern@, i as int),
        decreases n - i,
    {
        if stands_at(s, pattern, i) {
            return Some(i);
        }
        i = i + 1;
        assert(find_sub_from(s@, pattern@, i as int) == find_sub_from(s@, pattern@, i - 1) || i - 1
            + pattern@.len() > s@.len());
    }
    if pattern.len() == 0 {
        assert(s@.subrange(n as int, n as int) =~= pattern@);
        return Some(n);
    }
    None
}

/// Whether `pattern` stands anywhere in `s`.
pub fn contains_text(s: &[char], pattern: &[char]) -> (r: bool)
    ensures
        r == (find_sub(s@, pattern@) is Some),
{
    find_text(s, pattern).is_some()
}

// ------------------------------------------------------ prefixes and suffixes

/// Whether `s` begins with `prefix`.
pub open spec fn has_prefix<T>(s: Seq<T>, prefix: Seq<T>) -> bool {
    s.len() >= prefix.len() && s.take(prefix.len() as int) == prefix
}

/// Whether `s` ends with `suffix`.
pub open spec fn has_suffix<T>(s: Seq<T>, suffix: Seq<T>) -> bool {
    s.len() >= suffix.len() && s.skip(s.len() - suffix.len()) == suffix
}

/// What follows `prefix` in `s`, where `s` begins with it.
pub open spec fn strip_prefix(s: Seq<char>, prefix: Seq<char>) -> Option<Seq<char>> {
    if has_prefix(s, prefix) {
        Some(s.skip(prefix.len() as int))
    } else {
        None
    }
}

/// What precedes `suffix` in `s`, where `s` ends with it.
pub open spec fn strip_suffix(s: Seq<char>, suffix: Seq<char>) -> Option<Seq<char>> {
    if has_suffix(s, suffix) {
        Some(s.take(s.len() - suffix.len()))
    } else {
        None
    }
}

/// What follows `prefix` in `s`, where `s` begins with it.
pub fn after_prefix<'a>(s: &'a [char], prefix: &str) -> (r: Option<&'a [char]>)
    ensures
        match r {
            Some(rest) => strip_prefix(s@, prefix@) == Some(rest@),
            None => strip_prefix(s@, prefix@) is None,
        },
{
    let pattern: Vec<char> = chars_of(prefix);
    if s.len() < pattern.len() {
        return None;
    }
    let front: &[char] = slice_subrange(s, 0, pattern.len());
    if same_chars(front, pattern.as_slice()) {
        Some(slice_subrange(s, pattern.len(), s.len()))
    } else {
        None
    }
}

/// What precedes `suffix` in `s`, where `s` ends with it.
pub fn before_suffix<'a>(s: &'a [char], suffix: &str) -> (r: Option<&'a [char]>)
    ensures
        match r {
            Some(rest) => strip_suffix(s@, suffix@) == Some(rest@),
            None => strip_suffix(s@, suffix@) is None,
        },
{
    let pattern: Vec<char> = chars_of(suffix);
    if s.len() < pattern.len() {
        return None;
    }
    let cut: usize = s.len() - pattern.len();
    let back: &[char] = slice_subrange(s, cut, s.len());
    if same_chars(back, pattern.as_slice()) {
        Some(slice_subrange(s, 0, cut))
    } else {
        None
    }
}

/// What stands between a leading `[` and a trailing `]`.
pub open spec fn inside_brackets(s: Seq<char>) -> Option<Seq<char>> {
    if s.len() >= 2 && s[0] == '[' && s.last() == ']' {
        Some(s.subrange(1, s.len() - 1))
    } else {
        None
    }
}

/// What stands between a leading `[` and a trailing `]`.
pub fn within_brackets<'a>(s: &'a [char]) -> (r: Option<&'a [char]>)
    ensures
        match r {
            Some(inner) => inside_brackets(s@) == Some(inner@),
            None => inside_brackets(s@) is None,
        },
{
    let n: usize = s.len();
    if n >= 2 && s[0] == '[' && s[n - 1] == ']' {
        Some(slice_subrange(s, 1, n - 1))
    } else {
        None
    }
}

// ---------------------------------------------------------------- splitting

/// The pieces of `s` between occurrences of `pattern`, taken from the left.
pub open spec fn split_on(s: Seq<char>, pattern: Seq<char>) -> Seq<Seq<char>>
    decreases s.len(),
{
    if pattern.len() == 0 {
        seq![s]
    } else {
        proof {
            lemma_find_sub_from(s, pattern, 0);
        }
        match find_sub(s, pattern) {
            None => seq![s],
            Some(i) => seq![s.take(i)] + split_on(s.skip(i + pattern.len()), pattern),
        }
    }
}

/// The pieces of `s` between occurrences of `pattern`.
pub fn split_text(s: &[char], pattern: &[char]) -> (r: Vec<Vec<char>>)
    requires
        pattern@.len() > 0,
    ensures
        views(r@) == split_on(s@, pattern@),
        r@.len() >= 1,
{
    let mut out: Vec<Vec<char>> = Vec::new();
    let mut rest: &[char] = s;
    loop
        invariant
            pattern@.len() > 0,
            views(out@) + split_on(rest@, pattern@) == split_on(s@, pattern@),
        decreases rest@.len(),
    {
        proof {
            lemma_find_sub_from(rest@, pattern@, 0);
        }
        let n: usize = rest.len();
        match find_text(rest, pattern) {
            None => {
                let piece: Vec<char> = vstd::slice::slice_to_vec(rest);
                let ghost before = out@;
                out.push(piece);
                assert(views(out@) =~= views(before) + seq![rest@]);
                return out;
            },
            Some(i) => {
                let piece: Vec<char> = vstd::slice::slice_to_vec(slice_subrange(rest, 0, i));
                let ghost before = out@;
                let ghost whole = rest@;
                out.push(piece);
                rest = slice_subrange(rest, i + pattern.len(), n);
                proof {
                    assert(whole.take(i as int) =~= whole.subrange(0, i as int));
                    assert(rest@ =~= whole.skip(i + pattern@.len()));
                    assert(views(out@) =~= views(before) + seq![whole.take(i as int)]);
                    assert(views(out@) + split_on(rest@, pattern@) =~= views(before) + (seq![
                        whole.take(i as int),
                    ] + split_on(rest@, pattern@)));
                }
            },
        }
    }
}

/// The pieces of `s` between occurrences of the character `c`.
pub open spec fn split_char(s: Seq<char>, c: char) -> Seq<Seq<char>> {
    split_on(s, seq![c])
}

/// The pieces of `s` between occurrences of the character `c`.
pub fn split_at_char(s: &[char], c: char) -> (r: Vec<Vec<char>>)
    ensures
        views(r@) == split_char(s@, c),
        r@.len() >= 1,
{
    let mut pattern: Vec<char> = Vec::new();
    pattern.push(c);
    assert(pattern@ =~= seq![c]);
    split_text(s, pattern.as_slice())
}

/// Whether every character of `s` is one that `p` admits.
pub open spec fn all_chars(s: Seq<char>, p: spec_fn(char) -> bool) -> bool {
    forall|i: int| 0 <= i < s.len() ==> p(#[trigger] s[i])
}

/// A text is made of its pieces and the character between them, and ends in the
/// last piece.
pub proof fn lemma_split_char(s: Seq<char>, c: char, p: spec_fn(char) -> bool)
    requires
        p(c),
        forall|k: int|
            0 <= k < split_char(s, c).len() ==> all_chars(#[trigger] split_char(s, c)[k], p),
    ensures
        all_chars(s, p),
        split_char(s, c).len() >= 1,
        has_suffix(s, split_char(s, c).last()),
    decreases s.len(),
{
    lemma_find_sub_from(s, seq![c], 0);
    let parts = split_char(s, c);
    match find_sub(s, seq![c]) {
        None => {
            assert(parts =~= seq![s]);
            assert(all_chars(parts[0], p));
            assert(s.skip(0) =~= s);
        },
        Some(i) => {
            assert(occurs_at(s, seq![c], i));
            let rest = s.skip(i + 1);
            let more = split_char(rest, c);
            assert(parts == seq![s.take(i)] + more);
            assert forall|k: int| 0 <= k < more.len() implies all_chars(#[trigger] more[k], p) by {
                assert(more[k] == parts[k + 1]);
            }
            lemma_split_char(rest, c, p);
            assert(s.subrange(i, i + 1)[0] == s[i]);
            assert(parts.last() == more.last());
            assert(all_chars(parts[0], p));
            assert forall|j: int| 0 <= j < s.len() implies p(#[trigger] s[j]) by {
                if j < i {
                    assert(s.take(i)[j] == s[j]);
                } else if j > i {
                    assert(rest[j - i - 1] == s[j]);
                }
            }
            let n = more.last().len() as int;
            assert(s.skip(s.len() - n) =~= rest.skip(rest.len() - n));
        },
    }
}

/// A terminated line without its carriage return, where it ends in one.
pub open spec fn without_return(s: Seq<char>) -> Seq<char> {
    if s.len() > 0 && s.last() == '\r' {
        s.drop_last()
    } else {
        s
    }
}

/// The lines of `s`: what precedes each line feed, without one trailing
/// carriage return, then what follows the last line feed, where that is not
/// empty.
pub open spec fn lines(s: Seq<char>) -> Seq<Seq<char>> {
    let pieces = split_char(s, '\n');
    let ended = pieces.drop_last().map_values(|piece: Seq<char>| without_return(piece));
    if pieces.last().len() == 0 {
        ended
    } else {
        ended.push(pieces.last())
    }
}

/// The lines of `s`.
pub fn split_lines(s: &[char]) -> (r: Vec<Vec<char>>)
    ensures
        views(r@) == lines(s@),
{
    let pieces: Vec<Vec<char>> = split_at_char(s, '\n');
    let ghost all = views(pieces@);
    let mut out: Vec<Vec<char>> = Vec::new();
    let mut i: usize = 0;
    let last: usize = pieces.len() - 1;
    while i < last
        invariant
            i <= last,
            last == pieces@.len() - 1,
            all == views(pieces@),
            views(out@) == all.take(i as int).map_values(|piece: Seq<char>| without_return(piece)),
        decreases last - i,
    {
        let piece: &[char] = pieces[i].as_slice();
        let n: usize = piece.len();
        let ghost before = out@;
        let ghost shown = without_return(piece@);
        if n > 0 && piece[n - 1] == '\r' {
            let kept: Vec<char> = vstd::slice::slice_to_vec(slice_subrange(piece, 0, n - 1));
            assert(kept@ =~= shown);
            out.push(kept);
        } else {
            let kept: Vec<char> = vstd::slice::slice_to_vec(piece);
            assert(kept@ =~= shown);
            out.push(kept);
        }
        assert(views(out@) =~= views(before).push(shown));
        assert(all[i as int] == piece@);
        i = i + 1;
        assert(all.take(i as int) =~= all.take(i - 1).push(piece@));
        assert(all.take(i as int).map_values(|piece: Seq<char>| without_return(piece))
            =~= all.take(i - 1).map_values(|piece: Seq<char>| without_return(piece)).push(shown));
    }
    assert(all.take(last as int) =~= all.drop_last());
    assert(all.last() == pieces@[last as int]@);
    if pieces[last].len() > 0 {
        let kept: Vec<char> = vstd::slice::slice_to_vec(pieces[last].as_slice());
        let ghost before = out@;
        out.push(kept);
        assert(views(out@) =~= views(before).push(all.last()));
    }
    out
}

/// The two sides of the first `c` in `s`.
pub open spec fn split_once(s: Seq<char>, c: char) -> Option<(Seq<char>, Seq<char>)> {
    match find(s, c) {
        Some(i) => Some((s.take(i), s.skip(i + 1))),
        None => None,
    }
}

/// The two sides of the first `c` in `s`.
pub fn split_first<'a>(s: &'a [char], c: char) -> (r: Option<(&'a [char], &'a [char])>)
    ensures
        match r {
            Some((a, b)) => split_once(s@, c) == Some((a@, b@)),
            None => split_once(s@, c) is None,
        },
{
    let n: usize = s.len();
    match find_char(s, c) {
        None => None,
        Some(i) => {
            let a: &[char] = slice_subrange(s, 0, i);
            let b: &[char] = slice_subrange(s, i + 1, n);
            assert(a@ =~= s@.take(i as int));
            assert(b@ =~= s@.skip(i + 1));
            Some((a, b))
        },
    }
}

/// The two sides of the last `c` in `s`.
pub open spec fn rsplit_once(s: Seq<char>, c: char) -> Option<(Seq<char>, Seq<char>)> {
    match rfind(s, c) {
        Some(i) => Some((s.take(i), s.skip(i + 1))),
        None => None,
    }
}

/// The two sides of the last `c` in `s`.
pub fn split_last<'a>(s: &'a [char], c: char) -> (r: Option<(&'a [char], &'a [char])>)
    ensures
        match r {
            Some((a, b)) => rsplit_once(s@, c) == Some((a@, b@)),
            None => rsplit_once(s@, c) is None,
        },
{
    let n: usize = s.len();
    match rfind_char(s, c) {
        None => None,
        Some(i) => {
            let a: &[char] = slice_subrange(s, 0, i);
            let b: &[char] = slice_subrange(s, i + 1, n);
            assert(a@ =~= s@.take(i as int));
            assert(b@ =~= s@.skip(i + 1));
            Some((a, b))
        },
    }
}

/// What stands before the first of `set` in `s`, or all of `s`.
pub open spec fn before_any(s: Seq<char>, set: Seq<char>) -> Seq<char> {
    match find_any(s, set) {
        Some(i) => s.take(i),
        None => s,
    }
}

/// What stands after the last `c` in `s`, or all of `s`.
pub open spec fn after_last(s: Seq<char>, c: char) -> Seq<char> {
    match rfind(s, c) {
        Some(i) => s.skip(i + 1),
        None => s,
    }
}

/// What stands after the last `c` in `s`, or all of `s`.
pub fn tail_after<'a>(s: &'a [char], c: char) -> (r: &'a [char])
    ensures
        r@ == after_last(s@, c),
{
    match split_last(s, c) {
        Some((_, b)) => b,
        None => s,
    }
}

// ------------------------------------------------------- whitespace and words

/// The characters with Unicode's White_Space property.
pub open spec fn is_white(c: char) -> bool {
    let u = c as u32;
    ||| 0x09 <= u <= 0x0d
    ||| u == 0x20
    ||| u == 0x85
    ||| u == 0xa0
    ||| u == 0x1680
    ||| 0x2000 <= u <= 0x200a
    ||| u == 0x2028
    ||| u == 0x2029
    ||| u == 0x202f
    ||| u == 0x205f
    ||| u == 0x3000
}

/// Whether the character is white space.
pub fn white(c: char) -> (r: bool)
    ensures
        r == is_white(c),
{
    let u: u32 = c as u32;
    (0x09 <= u && u <= 0x0d) || u == 0x20 || u == 0x85 || u == 0xa0 || u == 0x1680 || (0x2000 <= u
        && u <= 0x200a) || u == 0x2028 || u == 0x2029 || u == 0x202f || u == 0x205f || u == 0x3000
}

/// The first index at or after `i` that is not white space.
pub open spec fn skip_white(s: Seq<char>, i: int) -> int
    decreases s.len() - i,
{
    if 0 <= i < s.len() && is_white(s[i]) {
        skip_white(s, i + 1)
    } else {
        i
    }
}

/// The least index at or below `i` from which on everything below `i` is white.
pub open spec fn back_white(s: Seq<char>, i: int) -> int
    decreases i,
{
    if 0 < i <= s.len() && is_white(s[i - 1]) {
        back_white(s, i - 1)
    } else {
        i
    }
}

/// The first index at or after `i` that is white space, or the length.
pub open spec fn word_end(s: Seq<char>, i: int) -> int
    decreases s.len() - i,
{
    if 0 <= i < s.len() && !is_white(s[i]) {
        word_end(s, i + 1)
    } else {
        i
    }
}

pub proof fn lemma_word_end(s: Seq<char>, i: int)
    requires
        0 <= i <= s.len(),
    ensures
        i <= word_end(s, i) <= s.len(),
        i < s.len() && !is_white(s[i]) ==> i < word_end(s, i),
        forall|j: int| i <= j < word_end(s, i) ==> !is_white(s[j]),
    decreases s.len() - i,
{
    if i < s.len() && !is_white(s[i]) {
        lemma_word_end(s, i + 1);
    }
}

/// `s` without trailing white space.
pub open spec fn trim_end(s: Seq<char>) -> Seq<char> {
    s.take(back_white(s, s.len() as int))
}

/// `s` without leading white space.
pub open spec fn trim_start(s: Seq<char>) -> Seq<char> {
    s.skip(skip_white(s, 0))
}

/// `s` without leading and trailing white space.
pub open spec fn trim(s: Seq<char>) -> Seq<char> {
    trim_start(trim_end(s))
}

/// `s` without trailing white space.
pub fn trimmed_end<'a>(s: &'a [char]) -> (r: &'a [char])
    ensures
        r@ == trim_end(s@),
{
    let mut i: usize = s.len();
    while i > 0 && white(s[i - 1])
        invariant
            i <= s@.len(),
            back_white(s@, s@.len() as int) == back_white(s@, i as int),
        decreases i,
    {
        i = i - 1;
    }
    let r: &[char] = slice_subrange(s, 0, i);
    assert(r@ =~= s@.take(i as int));
    r
}

/// `s` without leading and trailing white space.
pub fn trimmed<'a>(s: &'a [char]) -> (r: &'a [char])
    ensures
        r@ == trim(s@),
{
    let front: &[char] = trimmed_end(s);
    let mut i: usize = 0;
    while i < front.len() && white(front[i])
        invariant
            i <= front@.len(),
            skip_white(front@, 0) == skip_white(front@, i as int),
        decreases front@.len() - i,
    {
        i = i + 1;
    }
    let r: &[char] = slice_subrange(front, i, front.len());
    assert(r@ =~= front@.skip(i as int));
    r
}

/// The words of `s` from index `i` on: the longest runs without white space.
pub open spec fn words_from(s: Seq<char>, i: int) -> Seq<Seq<char>>
    decreases s.len() - i,
{
    if i < 0 || i >= s.len() {
        Seq::empty()
    } else if is_white(s[i]) {
        words_from(s, i + 1)
    } else {
        proof {
            lemma_word_end(s, i);
        }
        seq![s.subrange(i, word_end(s, i))] + words_from(s, word_end(s, i))
    }
}

/// The words of `s`.
pub open spec fn words(s: Seq<char>) -> Seq<Seq<char>> {
    words_from(s, 0)
}

/// The words of `s`.
pub fn split_words(s: &[char]) -> (r: Vec<Vec<char>>)
    ensures
        views(r@) == words(s@),
{
    let mut out: Vec<Vec<char>> = Vec::new();
    let mut i: usize = 0;
    assert(views(out@) =~= Seq::empty());
    assert(views(out@) + words_from(s@, 0) =~= words(s@));
    while i < s.len()
        invariant
            i <= s@.len(),
            views(out@) + words_from(s@, i as int) == words(s@),
        decreases s@.len() - i,
    {
        if white(s[i]) {
            i = i + 1;
        } else {
            let start: usize = i;
            while i < s.len() && !white(s[i])
                invariant
                    start <= i <= s@.len(),
                    word_end(s@, start as int) == word_end(s@, i as int),
                decreases s@.len() - i,
            {
                i = i + 1;
            }
            proof {
                lemma_word_end(s@, start as int);
            }
            let word: Vec<char> = vstd::slice::slice_to_vec(slice_subrange(s, start, i));
            let ghost before = out@;
            let ghost shown = word@;
            out.push(word);
            assert(views(out@) =~= views(before).push(shown));
            assert(views(before) + (seq![shown] + words_from(s@, i as int)) =~= views(out@)
                + words_from(s@, i as int));
        }
    }
    assert(words_from(s@, i as int) =~= Seq::empty());
    assert(views(out@) =~= words(s@));
    out
}

/// `s` without leading occurrences of `c`.
pub open spec fn trim_start_char(s: Seq<char>, c: char) -> Seq<char>
    decreases s.len(),
{
    if s.len() > 0 && s[0] == c {
        trim_start_char(s.skip(1), c)
    } else {
        s
    }
}

/// `s` without trailing occurrences of `c`.
pub open spec fn trim_end_char(s: Seq<char>, c: char) -> Seq<char>
    decreases s.len(),
{
    if s.len() > 0 && s.last() == c {
        trim_end_char(s.drop_last(), c)
    } else {
        s
    }
}

/// `s` without leading occurrences of `c`.
pub fn without_leading<'a>(s: &'a [char], c: char) -> (r: &'a [char])
    ensures
        r@ == trim_start_char(s@, c),
{
    let mut i: usize = 0;
    assert(s@.skip(0) =~= s@);
    while i < s.len() && s[i] == c
        invariant
            i <= s@.len(),
            trim_start_char(s@, c) == trim_start_char(s@.skip(i as int), c),
        decreases s@.len() - i,
    {
        assert(s@.skip(i as int).skip(1) =~= s@.skip(i + 1));
        i = i + 1;
    }
    let r: &[char] = slice_subrange(s, i, s.len());
    assert(r@ =~= s@.skip(i as int));
    r
}

/// `s` without trailing occurrences of `c`.
pub fn without_trailing<'a>(s: &'a [char], c: char) -> (r: &'a [char])
    ensures
        r@ == trim_end_char(s@, c),
{
    let mut i: usize = s.len();
    assert(s@.take(i as int) =~= s@);
    while i > 0 && s[i - 1] == c
        invariant
            i <= s@.len(),
            trim_end_char(s@, c) == trim_end_char(s@.take(i as int), c),
        decreases i,
    {
        assert(s@.take(i as int).drop_last() =~= s@.take(i - 1));
        i = i - 1;
    }
    let r: &[char] = slice_subrange(s, 0, i);
    assert(r@ =~= s@.take(i as int));
    r
}

// --------------------------------------------------------------- letter case

/// The ASCII lower-case form of a character.
pub open spec fn lower(c: char) -> char {
    if 'A' <= c <= 'Z' {
        ((c as u32) + 32) as char
    } else {
        c
    }
}

/// `s` in ASCII lower case.
pub open spec fn lower_text(s: Seq<char>) -> Seq<char> {
    s.map_values(|c: char| lower(c))
}

/// Whether two texts are equal up to ASCII letter case.
pub open spec fn same_letters(a: Seq<char>, b: Seq<char>) -> bool {
    lower_text(a) == lower_text(b)
}

/// The ASCII lower-case form of a character.
pub fn lower_char(c: char) -> (r: char)
    ensures
        r == lower(c),
{
    if 'A' <= c && c <= 'Z' {
        ((c as u8) + 32u8) as char
    } else {
        c
    }
}

/// `s` in ASCII lower case.
pub fn lowered(s: &[char]) -> (r: Vec<char>)
    ensures
        r@ == lower_text(s@),
{
    let mut out: Vec<char> = Vec::new();
    let mut i: usize = 0;
    while i < s.len()
        invariant
            i <= s@.len(),
            out@ == lower_text(s@.take(i as int)),
        decreases s@.len() - i,
    {
        out.push(lower_char(s[i]));
        i = i + 1;
        assert(lower_text(s@.take(i as int)) =~= lower_text(s@.take(i - 1)).push(lower(s@[i - 1])));
    }
    assert(s@.take(i as int) =~= s@);
    out
}

/// Whether two texts are equal up to ASCII letter case.
pub fn same_ignoring_case(a: &[char], b: &[char]) -> (r: bool)
    ensures
        r == same_letters(a@, b@),
{
    let left: Vec<char> = lowered(a);
    let right: Vec<char> = lowered(b);
    same_chars(left.as_slice(), right.as_slice())
}

// ------------------------------------------------------------------- joining

/// The texts of `list` with `separator` between them.
pub open spec fn join(list: Seq<Seq<char>>, separator: Seq<char>) -> Seq<char>
    decreases list.len(),
{
    if list.len() == 0 {
        Seq::empty()
    } else if list.len() == 1 {
        list[0]
    } else {
        join(list.drop_last(), separator) + separator + list.last()
    }
}

/// The strings of `list` with `separator` between them.
pub fn join_strings(list: &Vec<String>, separator: &str) -> (r: String)
    ensures
        r@ == join(texts(list@), separator@),
{
    let mut out: String = String::new();
    let mut i: usize = 0;
    let ghost all = texts(list@);
    assert(all.take(0) =~= Seq::empty());
    while i < list.len()
        invariant
            i <= list@.len(),
            all == texts(list@),
            out@ == join(all.take(i as int), separator@),
        decreases list@.len() - i,
    {
        assert(all.take(i + 1).drop_last() =~= all.take(i as int));
        if i > 0 {
            out.append(separator);
        }
        out.append(list[i].as_str());
        assert(all.take(i + 1).last() == list@[i as int]@);
        if i == 0 {
            assert(out@ =~= list@[0]@);
        }
        i = i + 1;
    }
    assert(all.take(i as int) =~= all);
    out
}

} // verus!
