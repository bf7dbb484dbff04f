//! Texts put together and taken apart again.

use crate::text::{
    after_last, before_any, find, find_sub, is_white, join, lemma_find_any_from, lemma_find_from,
    lemma_find_sub_from, lemma_rfind_to, lemma_word_end, lines, lower, lower_text, occurs_at, rfind,
    rsplit_once, same_letters, skip_white, split_char, split_on, split_once, strip_prefix,
    strip_suffix, trim, trim_end, trim_end_char, trim_start, without_return, word_end, words,
    words_from,
};
use vstd::prelude::*;

verus! {

/// No character of `s` is white space.
pub open spec fn no_white(s: Seq<char>) -> bool {
    forall|i: int| 0 <= i < s.len() ==> !is_white(#[trigger] s[i])
}

/// Every character of `s` is white space.
pub open spec fn all_white(s: Seq<char>) -> bool {
    forall|i: int| 0 <= i < s.len() ==> is_white(#[trigger] s[i])
}

/// `s` is not empty, and neither its first nor its last character is white.
pub open spec fn tight(s: Seq<char>) -> bool {
    s.len() > 0 && !is_white(s[0]) && !is_white(s.last())
}

/// Blanks, tabs and line breaks are white space, and visible ASCII characters
/// are not.
pub proof fn white_space_is_what_shows_nothing(c: char)
    ensures
        c == ' ' || c == '\t' || c == '\n' || c == '\r' ==> is_white(c),
        '!' <= c <= '~' ==> !is_white(c),
        is_white(c) <==> ('\u{9}' <= c <= '\u{d}' || c == ' ' || c == '\u{85}' || c == '\u{a0}' || c
            == '\u{1680}' || '\u{2000}' <= c <= '\u{200a}' || c == '\u{2028}' || c == '\u{2029}' || c
            == '\u{202f}' || c == '\u{205f}' || c == '\u{3000}'),
{
}

/// A pattern is found where it stands first.
pub proof fn found_first_at<T>(data: Seq<T>, pattern: Seq<T>, n: int)
    requires
        occurs_at(data, pattern, n),
        forall|j: int| 0 <= j < n ==> !#[trigger] occurs_at(data, pattern, j),
    ensures
        find_sub(data, pattern) == Some(n),
{
    lemma_find_sub_from(data, pattern, 0);
}

/// A pattern that stands somewhere is found, and one that stands nowhere is not.
pub proof fn found_where_it_stands<T>(data: Seq<T>, pattern: Seq<T>)
    ensures
        find_sub(data, pattern) is None <==> forall|j: int|
            0 <= j ==> !#[trigger] occurs_at(data, pattern, j),
{
    lemma_find_sub_from(data, pattern, 0);
    if let Some(k) = find_sub(data, pattern) {
        assert(occurs_at(data, pattern, k));
    }
}

/// Words behind a first word that ends in white space.
pub proof fn a_first_word_comes_first(word: Seq<char>, rest: Seq<char>)
    requires
        word.len() > 0,
        no_white(word),
        rest.len() > 0 ==> is_white(rest[0]),
    ensures
        words(word + rest) == seq![word] + words(rest),
{
    let s = word + rest;
    let n = word.len() as int;
    lemma_word_end(s, 0);
    assert(s[0] == word[0]);
    lemma_end_of_word(word, rest, 0);
    assert(s.subrange(0, n) =~= word);
    lemma_words_shift(word, rest, 0);
}

proof fn lemma_end_of_word(word: Seq<char>, rest: Seq<char>, i: int)
    requires
        no_white(word),
        rest.len() > 0 ==> is_white(rest[0]),
        0 <= i <= word.len(),
    ensures
        word_end(word + rest, i) == word.len(),
    decreases word.len() - i,
{
    let s = word + rest;
    if i < word.len() {
        assert(s[i] == word[i]);
        lemma_end_of_word(word, rest, i + 1);
    } else if rest.len() > 0 {
        assert(s[i] == rest[0]);
    }
}

proof fn lemma_words_shift(a: Seq<char>, b: Seq<char>, i: int)
    requires
        0 <= i,
    ensures
        words_from(a + b, a.len() + i) == words_from(b, i),
    decreases b.len() - i,
{
    let s = a + b;
    let n = a.len() as int;
    if i < b.len() {
        assert(s[n + i] == b[i]);
        if is_white(b[i]) {
            lemma_words_shift(a, b, i + 1);
        } else {
            lemma_word_end(b, i);
            lemma_word_end(s, n + i);
            lemma_word_end_shift(a, b, i);
            let e = word_end(b, i);
            assert(s.subrange(n + i, n + e) =~= b.subrange(i, e));
            lemma_words_shift(a, b, e);
        }
    }
}

proof fn lemma_word_end_shift(a: Seq<char>, b: Seq<char>, i: int)
    requires
        0 <= i <= b.len(),
    ensures
        word_end(a + b, a.len() + i) == a.len() + word_end(b, i),
    decreases b.len() - i,
{
    if i < b.len() {
        assert((a + b)[a.len() + i] == b[i]);
        if !is_white(b[i]) {
            lemma_word_end_shift(a, b, i + 1);
        }
    }
}

/// White space in front of words makes no word.
pub proof fn leading_white_makes_no_word(white: Seq<char>, rest: Seq<char>)
    requires
        all_white(white),
    ensures
        words(white + rest) == words(rest),
    decreases white.len(),
{
    if white.len() == 0 {
        assert(white + rest =~= rest);
    } else {
        let s = white + rest;
        let more = white.skip(1);
        assert(s[0] == white[0]);
        assert forall|i: int| 0 <= i < more.len() implies is_white(#[trigger] more[i]) by {
            assert(more[i] == white[i + 1]);
        }
        leading_white_makes_no_word(more, rest);
        assert(s =~= seq![white[0]] + (more + rest));
        lemma_words_shift(seq![white[0]], more + rest, 0);
    }
}

/// A text of one word has that word.
pub proof fn one_word(word: Seq<char>)
    requires
        word.len() > 0,
        no_white(word),
    ensures
        words(word) == seq![word],
{
    let none = Seq::<char>::empty();
    a_first_word_comes_first(word, none);
    assert(word + none =~= word);
    assert(words(none) =~= Seq::<Seq<char>>::empty());
    assert(seq![word] + words(none) =~= seq![word]);
}

/// Words with single blanks between them come out again, one after the other.
pub proof fn a_word_and_a_blank(word: Seq<char>, rest: Seq<char>)
    requires
        word.len() > 0,
        no_white(word),
    ensures
        words(word + " "@ + rest) == seq![word] + words(rest),
{
    reveal_strlit(" ");
    let tail = " "@ + rest;
    a_first_word_comes_first(word, tail);
    assert(word + " "@ + rest =~= word + tail);
    leading_white_makes_no_word(" "@, rest);
}

/// The first of two sides holds no separator: a split at the first finds it.
pub proof fn split_once_at(a: Seq<char>, c: char, b: Seq<char>)
    requires
        !a.contains(c),
    ensures
        split_once(a + seq![c] + b, c) == Some((a, b)),
        find(a + seq![c] + b, c) == Some(a.len() as int),
{
    let s = a + seq![c] + b;
    let n = a.len() as int;
    lemma_find_from(s, c, 0);
    assert(s[n] == c);
    let k = find(s, c)->Some_0;
    if k < n {
        assert(s[k] == a[k]);
    }
    assert(s.take(n) =~= a);
    assert(s.skip(n + 1) =~= b);
}

/// The second of two sides holds no separator: a split at the last finds it.
pub proof fn split_last_at(a: Seq<char>, c: char, b: Seq<char>)
    requires
        !b.contains(c),
    ensures
        rsplit_once(a + seq![c] + b, c) == Some((a, b)),
        rfind(a + seq![c] + b, c) == Some(a.len() as int),
        after_last(a + seq![c] + b, c) == b,
{
    let s = a + seq![c] + b;
    let n = a.len() as int;
    lemma_rfind_to(s, c, s.len() as int);
    assert(s[n] == c);
    let k = rfind(s, c)->Some_0;
    if k > n {
        assert(s[k] == b[k - n - 1]);
    }
    assert(s.take(n) =~= a);
    assert(s.skip(n + 1) =~= b);
}

/// Without the separator there is nothing to split.
pub proof fn split_nowhere(s: Seq<char>, c: char)
    requires
        !s.contains(c),
    ensures
        split_once(s, c) is None,
        rsplit_once(s, c) is None,
        after_last(s, c) == s,
        split_char(s, c) == seq![s],
{
    lemma_find_from(s, c, 0);
    lemma_rfind_to(s, c, s.len() as int);
    lemma_find_sub_from(s, seq![c], 0);
    if let Some(k) = find_sub(s, seq![c]) {
        assert(occurs_at(s, seq![c], k));
        assert(s.subrange(k, k + 1)[0] == s[k]);
    }
}

/// A piece without the separator comes first.
pub proof fn a_first_piece_comes_first(a: Seq<char>, c: char, b: Seq<char>)
    requires
        !a.contains(c),
    ensures
        split_char(a + seq![c] + b, c) == seq![a] + split_char(b, c),
{
    let s = a + seq![c] + b;
    let n = a.len() as int;
    let p = seq![c];
    lemma_find_sub_from(s, p, 0);
    assert(s.subrange(n, n + 1) =~= p);
    assert(occurs_at(s, p, n));
    let k = find_sub(s, p)->Some_0;
    assert(occurs_at(s, p, k));
    if k < n {
        assert(s.subrange(k, k + 1)[0] == s[k]);
        assert(s[k] == a[k]);
    }
    assert(s.take(n) =~= a);
    assert(s.skip(n + 1) =~= b);
}

/// A line without line feeds comes first.
pub proof fn a_first_line_comes_first(a: Seq<char>, b: Seq<char>)
    requires
        !a.contains('\n'),
    ensures
        split_on(a + "\r\n"@ + b, "\r\n"@) == seq![a] + split_on(b, "\r\n"@),
{
    reveal_strlit("\r\n");
    let p = "\r\n"@;
    let s = a + p + b;
    let n = a.len() as int;
    lemma_find_sub_from(s, p, 0);
    assert(s.subrange(n, n + 2) =~= p);
    assert(occurs_at(s, p, n));
    let k = find_sub(s, p)->Some_0;
    assert(occurs_at(s, p, k));
    if k < n {
        assert(s.subrange(k, k + 2)[1] == s[k + 1]);
        if k + 1 < n {
            assert(s[k + 1] == a[k + 1]);
        } else {
            assert(s[k + 1] == '\r');
        }
    }
    assert(s.take(n) =~= a);
    assert(s.skip(n + 2) =~= b);
}

/// A text without line feeds is one line.
pub proof fn one_line(a: Seq<char>)
    requires
        !a.contains('\n'),
    ensures
        split_on(a, "\r\n"@) == seq![a],
{
    reveal_strlit("\r\n");
    let p = "\r\n"@;
    lemma_find_sub_from(a, p, 0);
    if let Some(k) = find_sub(a, p) {
        assert(occurs_at(a, p, k));
        assert(a.subrange(k, k + 2)[1] == a[k + 1]);
    }
}

/// White space around a text is trimmed, and nothing else.
pub proof fn trimming_takes_white_space_alone(before: Seq<char>, s: Seq<char>, after: Seq<char>)
    requires
        all_white(before),
        all_white(after),
        tight(s) || s.len() == 0,
    ensures
        trim(before + s + after) == s,
        tight(s) ==> trim_end(before + s + after) == before + s,
        trim(s) == s,
{
    let whole = before + s + after;
    let n = (before.len() + s.len()) as int;
    if s.len() > 0 {
        lemma_back(before + s, after, whole.len() as int);
        assert(whole.take(n) =~= before + s);
        lemma_skip(before, s, 0);
        assert((before + s).skip(before.len() as int) =~= s);
        assert(trim_end(s) =~= s);
        assert(trim_start(s) =~= s);
    } else {
        assert(trim_end(s) =~= s);
        assert(trim_start(s) =~= s);
        assert(whole =~= before + after);
        lemma_back_all(whole, whole.len() as int);
        assert(trim_end(whole) =~= s);
    }
}

proof fn lemma_back(a: Seq<char>, white: Seq<char>, i: int)
    requires
        all_white(white),
        a.len() > 0,
        !is_white(a.last()),
        a.len() <= i <= a.len() + white.len(),
    ensures
        crate::text::back_white(a + white, i) == a.len(),
    decreases i,
{
    let s = a + white;
    if i > a.len() {
        assert(s[i - 1] == white[i - 1 - a.len()]);
        lemma_back(a, white, i - 1);
    } else {
        assert(s[i - 1] == a.last());
    }
}

proof fn lemma_back_all(white: Seq<char>, i: int)
    requires
        all_white(white),
        0 <= i <= white.len(),
    ensures
        crate::text::back_white(white, i) == 0,
    decreases i,
{
    if i > 0 {
        assert(is_white(white[i - 1]));
        lemma_back_all(white, i - 1);
    }
}

proof fn lemma_skip(white: Seq<char>, s: Seq<char>, i: int)
    requires
        all_white(white),
        s.len() > 0,
        !is_white(s[0]),
        0 <= i <= white.len(),
    ensures
        skip_white(white + s, i) == white.len(),
    decreases white.len() - i,
{
    let t = white + s;
    if i < white.len() {
        assert(t[i] == white[i]);
        lemma_skip(white, s, i + 1);
    } else {
        assert(t[i] == s[0]);
    }
}

/// A prefix or a suffix is taken off just where it stands.
pub proof fn stripping_undoes_putting(p: Seq<char>, s: Seq<char>)
    ensures
        strip_prefix(p + s, p) == Some(s),
        strip_suffix(s + p, p) == Some(s),
        strip_prefix(s, p) matches Some(rest) ==> s == p + rest,
        strip_suffix(s, p) matches Some(rest) ==> s == rest + p,
{
    assert((p + s).take(p.len() as int) =~= p);
    assert((p + s).skip(p.len() as int) =~= s);
    assert((s + p).skip(s.len() as int) =~= p);
    assert((s + p).take(s.len() as int) =~= s);
    if let Some(rest) = strip_prefix(s, p) {
        assert(s =~= s.take(p.len() as int) + s.skip(p.len() as int));
    }
    if let Some(rest) = strip_suffix(s, p) {
        assert(s =~= s.take(s.len() - p.len()) + s.skip(s.len() - p.len()));
    }
}

/// What stands before the first of some characters.
pub proof fn before_the_first_of(a: Seq<char>, set: Seq<char>, rest: Seq<char>)
    requires
        forall|i: int| 0 <= i < a.len() ==> !set.contains(#[trigger] a[i]),
        rest.len() > 0 ==> set.contains(rest[0]),
    ensures
        before_any(a + rest, set) == a,
{
    let s = a + rest;
    let n = a.len() as int;
    lemma_find_any_from(s, set, 0);
    assert forall|i: int| 0 <= i < n implies !set.contains(s[i]) by {
        assert(s[i] == a[i]);
    }
    if rest.len() > 0 {
        assert(s[n] == rest[0]);
        assert(s.take(n) =~= a);
    } else {
        assert(s =~= a);
    }
}

/// Letters differ in case alone where they lie 32 apart in the alphabet, and two
/// texts are the same up to case where each of their characters is.
pub proof fn letter_case_is_character_by_character(a: Seq<char>, b: Seq<char>)
    ensures
        same_letters(a, b) <==> a.len() == b.len() && forall|i: int|
            0 <= i < a.len() ==> lower(#[trigger] a[i]) == lower(b[i]),
        same_letters(a, a),
        same_letters(a, b) == same_letters(b, a),
{
    if a.len() == b.len() && forall|i: int|
        0 <= i < a.len() ==> lower(#[trigger] a[i]) == lower(b[i]) {
        assert(lower_text(a) =~= lower_text(b));
    }
    if same_letters(a, b) {
        assert(lower_text(a).len() == a.len());
        assert(lower_text(b).len() == b.len());
        assert forall|i: int| 0 <= i < a.len() implies lower(#[trigger] a[i]) == lower(b[i]) by {
            assert(lower_text(a)[i] == lower_text(b)[i]);
        }
    }
}

/// Two characters are the same up to case where they are the same, or one is the
/// capital of the other.
pub proof fn capitals_go_with_their_letters(a: char, b: char)
    ensures
        lower(a) == lower(b) <==> a == b || ('A' <= a <= 'Z' && (b as u32) == (a as u32) + 32) || (
        'A' <= b <= 'Z' && (a as u32) == (b as u32) + 32),
{
}

/// Trailing characters are taken off, all of them and no others.
pub proof fn trailing_characters_go(s: Seq<char>, c: char, n: nat)
    requires
        s.len() > 0 ==> s.last() != c,
    ensures
        trim_end_char(s + Seq::new(n, |i: int| c), c) == s,
    decreases n,
{
    let tail = Seq::new(n, |i: int| c);
    let whole = s + tail;
    if n == 0 {
        assert(whole =~= s);
    } else {
        let less = (n - 1) as nat;
        assert(whole.last() == c);
        assert(whole.drop_last() =~= s + Seq::new(less, |i: int| c));
        trailing_characters_go(s, c, less);
    }
}

/// A line, ended by a line feed or by a carriage return and a line feed, comes
/// before the lines that follow.
pub proof fn ended_lines_come_in_turn(line: Seq<char>, rest: Seq<char>)
    requires
        !line.contains('\n'),
        line.len() > 0 ==> line.last() != '\r',
    ensures
        lines(line + seq!['\n'] + rest) == seq![line] + lines(rest),
        lines(line + seq!['\r', '\n'] + rest) == seq![line] + lines(rest),
        lines(Seq::<char>::empty()) == Seq::<Seq<char>>::empty(),
        line.len() > 0 ==> lines(line) == seq![line],
{
    let f = |piece: Seq<char>| without_return(piece);
    let none = Seq::<char>::empty();
    split_nowhere(none, '\n');
    assert(split_char(none, '\n').drop_last() =~= Seq::empty());
    assert(lines(none) =~= Seq::<Seq<char>>::empty());
    split_nowhere(line, '\n');
    assert(split_char(line, '\n').drop_last().map_values(f) =~= Seq::<Seq<char>>::empty());
    if line.len() > 0 {
        assert(lines(line) =~= seq![line]);
    }
    lemma_line_then(line, line, rest);
    let returned = line.push('\r');
    assert(!returned.contains('\n')) by {
        if returned.contains('\n') {
            let k = choose|k: int| 0 <= k < returned.len() && returned[k] == '\n';
            assert(line[k] == '\n');
        }
    }
    assert(returned.drop_last() =~= line);
    lemma_line_then(returned, line, rest);
    assert(line + seq!['\r', '\n'] + rest =~= returned + seq!['\n'] + rest);
}

proof fn lemma_line_then(piece: Seq<char>, line: Seq<char>, rest: Seq<char>)
    requires
        !piece.contains('\n'),
        without_return(piece) == line,
    ensures
        lines(piece + seq!['\n'] + rest) == seq![line] + lines(rest),
{
    let f = |piece: Seq<char>| without_return(piece);
    let s = piece + seq!['\n'] + rest;
    a_first_piece_comes_first(piece, '\n', rest);
    let more = split_char(rest, '\n');
    let all = split_char(s, '\n');
    lemma_some_piece(rest, '\n');
    assert(all.last() == more.last());
    assert(all.drop_last() =~= seq![piece] + more.drop_last());
    assert(all.drop_last().map_values(f) =~= seq![line] + more.drop_last().map_values(f));
    assert(lines(s) =~= seq![line] + lines(rest));
}

pub proof fn lemma_some_piece(s: Seq<char>, c: char)
    ensures
        split_char(s, c).len() >= 1,
{
    lemma_find_sub_from(s, seq![c], 0);
}

/// Texts joined with a separator that none of them holds are its pieces.
pub proof fn joined_texts_split(list: Seq<Seq<char>>, c: char)
    requires
        list.len() > 0,
        forall|i: int| 0 <= i < list.len() ==> !(#[trigger] list[i]).contains(c),
    ensures
        split_char(join(list, seq![c]), c) == list,
    decreases list.len(),
{
    if list.len() == 1 {
        split_nowhere(list[0], c);
        assert(seq![list[0]] =~= list);
    } else {
        let front = list.drop_last();
        assert forall|i: int| 0 <= i < front.len() implies !(#[trigger] front[i]).contains(c) by {
            assert(front[i] == list[i]);
        }
        joined_texts_split(front, c);
        lemma_split_behind(join(front, seq![c]), c, list.last());
        assert(!list[list.len() - 1].contains(c));
        split_nowhere(list.last(), c);
        assert(front + seq![list.last()] =~= list);
    }
}

proof fn lemma_split_behind(a: Seq<char>, c: char, b: Seq<char>)
    requires
        !b.contains(c),
    ensures
        split_char(a + seq![c] + b, c) == split_char(a, c) + seq![b],
    decreases a.len(),
{
    split_nowhere(b, c);
    lemma_find_from(a, c, 0);
    match find(a, c) {
        None => {
            assert(!a.contains(c));
            a_first_piece_comes_first(a, c, b);
            split_nowhere(a, c);
        },
        Some(k) => {
            let x = a.take(k);
            let y = a.skip(k + 1);
            assert(!x.contains(c)) by {
                if x.contains(c) {
                    let m = choose|m: int| 0 <= m < x.len() && x[m] == c;
                    assert(a[m] == c);
                }
            }
            assert(a =~= x + seq![c] + y);
            a_first_piece_comes_first(x, c, y);
            lemma_split_behind(y, c, b);
            a_first_piece_comes_first(x, c, y + seq![c] + b);
            assert(a + seq![c] + b =~= x + seq![c] + (y + seq![c] + b));
            assert(split_char(a, c) + seq![b] =~= seq![x] + (split_char(y, c) + seq![b]));
        },
    }
}

} // verus!
