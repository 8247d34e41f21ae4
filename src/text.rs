//! Text normalization: cleaning, newline removal, byte-bounded trimming and collapsing.
use crate::simhash::str_chars;
use unicode_normalization::UnicodeNormalization;
use vstd::prelude::*;

verus! {

/// Position of a character's general category in the declaration order of
/// `unicode_general_category::GeneralCategory` (`ClosePunctuation` is 0, `UppercaseLetter` 29).
pub uninterp spec fn category_of(c: char) -> u8;

pub const CAT_CLOSE_PUNCTUATION: u8 = 0;
pub const CAT_CONNECTOR_PUNCTUATION: u8 = 1;
pub const CAT_CONTROL: u8 = 2;
pub const CAT_DASH_PUNCTUATION: u8 = 4;
pub const CAT_ENCLOSING_MARK: u8 = 6;
pub const CAT_FINAL_PUNCTUATION: u8 = 7;
pub const CAT_FORMAT: u8 = 8;
pub const CAT_INITIAL_PUNCTUATION: u8 = 9;
pub const CAT_NONSPACING_MARK: u8 = 16;
pub const CAT_OPEN_PUNCTUATION: u8 = 17;
pub const CAT_OTHER_PUNCTUATION: u8 = 20;
pub const CAT_PRIVATE_USE: u8 = 23;
pub const CAT_SPACING_MARK: u8 = 25;
pub const CAT_SURROGATE: u8 = 26;
pub const CAT_UNASSIGNED: u8 = 28;

/// Canonical decomposition (NFD) of a string.
pub uninterp spec fn nfd_of(s: Seq<char>) -> Seq<char>;

/// Compatibility composition (NFKC) of a string.
pub uninterp spec fn nfkc_of(s: Seq<char>) -> Seq<char>;

/// Lower-case form of a string, as Unicode defines it.
pub uninterp spec fn lower_of(s: Seq<char>) -> Seq<char>;

/// Relies on unicode_general_category::get_general_category: the category of `c` in the
/// crate's Unicode tables, as the variant's position in the enum.
#[verifier::external_body]
fn general_category(c: char) -> (r: u8)
    ensures
        r == category_of(c),
{
    unicode_general_category::get_general_category(c) as u8
}

/// Relies on unicode_normalization's `nfd`: the canonical decomposition of `s`.
#[verifier::external_body]
fn nfd(s: &str) -> (r: String)
    ensures
        r@ == nfd_of(s@),
{
    s.nfd().collect()
}

/// Relies on unicode_normalization's `nfkc`: the compatibility composition of `s`.
#[verifier::external_body]
fn nfkc(s: &str) -> (r: String)
    ensures
        r@ == nfkc_of(s@),
{
    s.nfkc().collect()
}

/// Relies on str::to_lowercase: the result depends on the characters alone.
#[verifier::external_body]
fn lowercase(s: &str) -> (r: String)
    ensures
        r@ == lower_of(s@),
{
    s.to_lowercase()
}

/// Relies on String::from_iter over chars: the string holds exactly those characters.
#[verifier::external_body]
pub(crate) fn string_from_chars(chars: &[char]) -> (r: String)
    ensures
        r@ == chars@,
{
    String::from_iter(chars.iter())
}

/// Whether `c` has the Unicode White_Space property.
pub open spec fn is_ws(c: char) -> bool {
    ('\u{9}' <= c <= '\u{d}') || c == ' ' || c == '\u{85}' || c == '\u{a0}' || c == '\u{1680}'
        || ('\u{2000}' <= c <= '\u{200a}') || c == '\u{2028}' || c == '\u{2029}' || c == '\u{202f}'
        || c == '\u{205f}' || c == '\u{3000}'
}

/// Whether `c` has the Unicode White_Space property.
pub fn is_white_space(c: char) -> (r: bool)
    ensures
        r == is_ws(c),
{
    ('\u{9}' <= c && c <= '\u{d}') || c == ' ' || c == '\u{85}' || c == '\u{a0}' || c == '\u{1680}'
        || ('\u{2000}' <= c && c <= '\u{200a}') || c == '\u{2028}' || c == '\u{2029}' || c
        == '\u{202f}' || c == '\u{205f}' || c == '\u{3000}'
}

/// Whether a category is one of the "C" (other) categories.
pub open spec fn is_c_cat(g: u8) -> bool {
    g == CAT_CONTROL || g == CAT_FORMAT || g == CAT_UNASSIGNED || g == CAT_PRIVATE_USE || g
        == CAT_SURROGATE
}

/// Whether a category is one of the "C", "M" (mark) or "P" (punctuation) categories.
pub open spec fn is_cmp_cat(g: u8) -> bool {
    is_c_cat(g) || g == CAT_NONSPACING_MARK || g == CAT_SPACING_MARK || g == CAT_ENCLOSING_MARK
        || g == CAT_CONNECTOR_PUNCTUATION || g == CAT_DASH_PUNCTUATION || g == CAT_OPEN_PUNCTUATION
        || g == CAT_CLOSE_PUNCTUATION || g == CAT_INITIAL_PUNCTUATION || g == CAT_FINAL_PUNCTUATION
        || g == CAT_OTHER_PUNCTUATION
}

fn is_c_category(c: char) -> (r: bool)
    ensures
        r == is_c_cat(category_of(c)),
{
    let g = general_category(c);
    g == CAT_CONTROL || g == CAT_FORMAT || g == CAT_UNASSIGNED || g == CAT_PRIVATE_USE || g
        == CAT_SURROGATE
}

fn is_cmp_category(c: char) -> (r: bool)
    ensures
        r == is_cmp_cat(category_of(c)),
{
    let g = general_category(c);
    g == CAT_CONTROL || g == CAT_FORMAT || g == CAT_UNASSIGNED || g == CAT_PRIVATE_USE || g
        == CAT_SURROGATE || g == CAT_NONSPACING_MARK || g == CAT_SPACING_MARK || g
        == CAT_ENCLOSING_MARK || g == CAT_CONNECTOR_PUNCTUATION || g == CAT_DASH_PUNCTUATION || g
        == CAT_OPEN_PUNCTUATION || g == CAT_CLOSE_PUNCTUATION || g == CAT_INITIAL_PUNCTUATION || g
        == CAT_FINAL_PUNCTUATION || g == CAT_OTHER_PUNCTUATION
}

/// Whether `c` ends a line: LF, VT, FF, CR, NEL, LS or PS.
pub open spec fn is_newline(c: char) -> bool {
    c == '\n' || c == '\u{b}' || c == '\u{c}' || c == '\r' || c == '\u{85}' || c == '\u{2028}' || c
        == '\u{2029}'
}

/// `s` with each line break (CR LF counting as one) made `'\n'` and "C" characters dropped.
pub open spec fn unify_newlines(s: Seq<char>) -> Seq<char>
    decreases s.len(),
{
    if s.len() == 0 {
        seq![]
    } else if is_newline(s[0]) {
        if s[0] == '\r' && s.len() > 1 && s[1] == '\n' {
            seq!['\n'] + unify_newlines(s.subrange(2, s.len() as int))
        } else {
            seq!['\n'] + unify_newlines(s.subrange(1, s.len() as int))
        }
    } else if is_c_cat(category_of(s[0])) {
        unify_newlines(s.subrange(1, s.len() as int))
    } else {
        seq![s[0]] + unify_newlines(s.subrange(1, s.len() as int))
    }
}

/// `s` split at each `'\n'`; an empty string is one empty line.
pub open spec fn split_lines(s: Seq<char>) -> Seq<Seq<char>>
    decreases s.len(),
{
    if s.len() == 0 {
        seq![seq![]]
    } else {
        let rest = split_lines(s.drop_last());
        if s.last() == '\n' {
            rest.push(seq![])
        } else {
            rest.update(rest.len() - 1, rest.last().push(s.last()))
        }
    }
}

/// `s` without leading white space.
pub open spec fn trim_start(s: Seq<char>) -> Seq<char>
    decreases s.len(),
{
    if s.len() > 0 && is_ws(s[0]) {
        trim_start(s.subrange(1, s.len() as int))
    } else {
        s
    }
}

/// `s` without trailing white space.
pub open spec fn trim_end(s: Seq<char>) -> Seq<char>
    decreases s.len(),
{
    if s.len() > 0 && is_ws(s.last()) {
        trim_end(s.drop_last())
    } else {
        s
    }
}

/// `s` without leading and trailing white space.
pub open spec fn trim(s: Seq<char>) -> Seq<char> {
    trim_end(trim_start(s))
}

/// Whether a line is empty once trimmed.
pub open spec fn is_blank(line: Seq<char>) -> bool {
    trim(line).len() == 0
}

/// The lines kept: a blank line right after a blank line is dropped.
pub open spec fn collapse_blank_lines(lines: Seq<Seq<char>>) -> Seq<Seq<char>>
    decreases lines.len(),
{
    if lines.len() == 0 {
        seq![]
    } else {
        let rest = collapse_blank_lines(lines.drop_last());
        let i = lines.len() - 1;
        if i > 0 && is_blank(lines[i]) && is_blank(lines[i - 1]) {
            rest
        } else {
            rest.push(lines[i])
        }
    }
}

/// Lines joined with `sep` between them.
pub open spec fn join_with(lines: Seq<Seq<char>>, sep: char) -> Seq<char>
    decreases lines.len(),
{
    if lines.len() == 0 {
        seq![]
    } else if lines.len() == 1 {
        lines[0]
    } else {
        join_with(lines.drop_last(), sep) + seq![sep] + lines.last()
    }
}

/// The cleaned text: NFKC, unified line breaks without "C" characters, runs of blank lines
/// collapsed to one, trimmed.
pub open spec fn clean_text(s: Seq<char>) -> Seq<char> {
    trim(join_with(collapse_blank_lines(split_lines(unify_newlines(nfkc_of(s)))), '\n'))
}

/// The maximal runs of non-white-space characters of `s`.
pub open spec fn words(s: Seq<char>) -> Seq<Seq<char>>
    decreases s.len(),
{
    if s.len() == 0 {
        seq![]
    } else {
        let w = words(s.drop_last());
        let c = s.last();
        if is_ws(c) {
            w
        } else if s.len() >= 2 && !is_ws(s[s.len() - 2]) {
            w.update(w.len() - 1, w.last().push(c))
        } else {
            w.push(seq![c])
        }
    }
}

/// Number of bytes of `c` in UTF-8.
pub open spec fn utf8_width(c: char) -> nat {
    if (c as u32) < 0x80 {
        1
    } else if (c as u32) < 0x800 {
        2
    } else if (c as u32) < 0x10000 {
        3
    } else {
        4
    }
}

/// The longest prefix of `s` whose UTF-8 encoding takes at most `n` bytes.
pub open spec fn utf8_prefix(s: Seq<char>, n: nat) -> Seq<char>
    decreases s.len(),
{
    if s.len() == 0 || utf8_width(s[0]) > n {
        seq![]
    } else {
        seq![s[0]] + utf8_prefix(s.subrange(1, s.len() as int), (n - utf8_width(s[0])) as nat)
    }
}

/// The collapsed text: NFD, lower case, white space and "C", "M", "P" characters dropped, NFKC.
pub open spec fn collapse_text(s: Seq<char>) -> Seq<char> {
    nfkc_of(keep_collapsible(lower_of(nfd_of(s))))
}

/// Trims white space from both ends of a character sequence.
fn trim_chars(s: &[char]) -> (r: Vec<char>)
    ensures
        r@ == trim(s@),
{
    let mut start: usize = 0;
    assert(s@.subrange(0, s@.len() as int) =~= s@);
    while start < s.len() && is_white_space(s[start])
        invariant
            start <= s@.len(),
            trim_start(s@) == trim_start(s@.subrange(start as int, s@.len() as int)),
        decreases s@.len() - start,
    {
        assert(s@.subrange(start as int, s@.len() as int).subrange(1, s@.len() - start) =~= s@.subrange(
            start + 1,
            s@.len() as int,
        ));
        start = start + 1;
    }
    let mut end: usize = s.len();
    let ghost front = s@.subrange(start as int, s@.len() as int);
    assert(trim_start(front) == front);
    while end > start && is_white_space(s[end - 1])
        invariant
            start <= end <= s@.len(),
            front == s@.subrange(start as int, s@.len() as int),
            trim_end(front) == trim_end(s@.subrange(start as int, end as int)),
        decreases end,
    {
        assert(s@.subrange(start as int, end as int).drop_last() =~= s@.subrange(
            start as int,
            end - 1,
        ));
        end = end - 1;
    }
    assert(trim_start(s@.subrange(0, s@.len() as int)) == trim_start(s@)) by {
        assert(s@.subrange(0, s@.len() as int) =~= s@);
    }
    copy_chars(s, start, end)
}

/// A copy of `s[start..end]`.
fn copy_chars(s: &[char], start: usize, end: usize) -> (r: Vec<char>)
    requires
        start <= end <= s@.len(),
    ensures
        r@ == s@.subrange(start as int, end as int),
{
    let mut out: Vec<char> = Vec::new();
    let mut i: usize = start;
    while i < end
        invariant
            start <= i <= end,
            end <= s@.len(),
            out@ == s@.subrange(start as int, i as int),
        decreases end - i,
    {
        out.push(s[i]);
        i = i + 1;
    }
    out
}

/// `s` without leading and trailing white space.
pub fn text_strip(s: &str) -> (r: String)
    ensures
        r@ == trim(s@),
{
    let chars = str_chars(s);
    let t = trim_chars(chars.as_slice());
    string_from_chars(t.as_slice())
}

/// Collapses runs of blank lines in NFKC-normalized text with unified line breaks, then trims.
pub fn text_clean(text: &str) -> (r: String)
    ensures
        r@ == clean_text(text@),
{
    let normalized = nfkc(text);
    let chars = str_chars(normalized.as_str());
    // Unify line breaks and drop "C" characters.
    let mut cleaned: Vec<char> = Vec::new();
    let mut i: usize = 0;
    let ghost all = chars@;
    assert(all.subrange(0, all.len() as int) =~= all);
    assert(cleaned@ + unify_newlines(all) =~= unify_newlines(all));
    while i < chars.len()
        invariant
            i <= chars@.len(),
            all == chars@,
            cleaned@ + unify_newlines(all.subrange(i as int, all.len() as int)) == unify_newlines(all),
        decreases chars@.len() - i,
    {
        let ghost rest = all.subrange(i as int, all.len() as int);
        let c = chars[i];
        let ghost prev = cleaned@;
        if c == '\n' || c == '\u{b}' || c == '\u{c}' || c == '\r' || c == '\u{85}' || c == '\u{2028}'
            || c == '\u{2029}' {
            if c == '\r' && i + 1 < chars.len() && chars[i + 1] == '\n' {
                i = i + 2;
            } else {
                i = i + 1;
            }
            cleaned.push('\n');
        } else if is_c_category(c) {
            i = i + 1;
        } else {
            cleaned.push(c);
            i = i + 1;
        }
        proof {
            assert(rest.subrange(i - (all.len() - rest.len()), rest.len() as int) =~= all.subrange(
                i as int,
                all.len() as int,
            ));
            let next = unify_newlines(all.subrange(i as int, all.len() as int));
            assert(prev + (cleaned@.subrange(prev.len() as int, cleaned@.len() as int) + next)
                =~= cleaned@ + next);
        }
    }
    assert(all.subrange(all.len() as int, all.len() as int) =~= Seq::<char>::empty());
    assert(cleaned@ + Seq::<char>::empty() =~= cleaned@);
    // Split into lines.
    let mut lines: Vec<Vec<char>> = Vec::new();
    let mut cur: Vec<char> = Vec::new();
    let mut j: usize = 0;
    while j < cleaned.len()
        invariant
            j <= cleaned@.len(),
            lines@.map_values(|l: Vec<char>| l@).push(cur@) == split_lines(
                cleaned@.subrange(0, j as int),
            ),
        decreases cleaned@.len() - j,
    {
        let c = cleaned[j];
        let ghost before = lines@.map_values(|l: Vec<char>| l@).push(cur@);
        assert(cleaned@.subrange(0, j + 1).drop_last() =~= cleaned@.subrange(0, j as int));
        if c == '\n' {
            let done = cur;
            lines.push(done);
            cur = Vec::new();
            assert(lines@.map_values(|l: Vec<char>| l@).push(cur@) =~= before.push(seq![]));
        } else {
            cur.push(c);
            assert(lines@.map_values(|l: Vec<char>| l@).push(cur@) =~= before.update(
                before.len() - 1,
                before.last().push(c),
            ));
        }
        j = j + 1;
    }
    assert(cleaned@.subrange(0, cleaned@.len() as int) =~= cleaned@);
    lines.push(cur);
    let ghost all_lines = split_lines(cleaned@);
    assert(lines@.map_values(|l: Vec<char>| l@) == all_lines);
    // Drop a blank line that follows a blank line, and join.
    let mut joined: Vec<char> = Vec::new();
    let mut kept: usize = 0;
    let mut prev_blank = false;
    let mut k: usize = 0;
    while k < lines.len()
        invariant
            k <= lines@.len(),
            all_lines == lines@.map_values(|l: Vec<char>| l@),
            joined@ == join_with(collapse_blank_lines(all_lines.subrange(0, k as int)), '\n'),
            kept as nat == collapse_blank_lines(all_lines.subrange(0, k as int)).len(),
            kept <= k,
            k > 0 ==> prev_blank == is_blank(all_lines[k - 1]),
        decreases lines@.len() - k,
    {
        let line = lines[k].as_slice();
        assert(line@ == all_lines[k as int]);
        let trimmed = trim_chars(line);
        let blank = trimmed.len() == 0;
        let ghost sub = all_lines.subrange(0, k + 1);
        assert(sub.drop_last() =~= all_lines.subrange(0, k as int));
        if !(k > 0 && blank && prev_blank) {
            let ghost kept_before = collapse_blank_lines(all_lines.subrange(0, k as int));
            if kept > 0 {
                joined.push('\n');
            }
            let mut t: usize = 0;
            let ghost base = joined@;
            while t < line.len()
                invariant
                    t <= line@.len(),
                    joined@ == base + line@.subrange(0, t as int),
                decreases line@.len() - t,
            {
                joined.push(line[t]);
                t = t + 1;
            }
            assert(line@.subrange(0, line@.len() as int) =~= line@);
            proof {
                let kept_now = kept_before.push(line@);
                assert(kept_now.drop_last() =~= kept_before);
                if kept_before.len() == 0 {
                    assert(kept_now =~= seq![line@]);
                }
            }
            kept = kept + 1;
        }
        prev_blank = blank;
        k = k + 1;
    }
    assert(all_lines.subrange(0, all_lines.len() as int) =~= all_lines);
    let result = trim_chars(joined.as_slice());
    string_from_chars(result.as_slice())
}

/// The words of a text joined by single spaces.
pub fn text_remove_newlines(text: &str) -> (r: String)
    ensures
        r@ == join_with(words(text@), ' '),
{
    let chars = str_chars(text);
    let ghost all = chars@;
    let mut out: Vec<char> = Vec::new();
    let mut nwords: usize = 0;
    let mut i: usize = 0;
    while i < chars.len()
        invariant
            i <= all.len(),
            all == chars@,
            out@ == join_with(words(all.subrange(0, i as int)), ' '),
            nwords as nat == words(all.subrange(0, i as int)).len(),
            nwords <= i,
        decreases all.len() - i,
    {
        let c = chars[i];
        let ghost pre = all.subrange(0, i as int);
        let ghost w = words(pre);
        let ghost cur = all.subrange(0, i + 1);
        assert(cur.drop_last() =~= pre);
        assert(cur.last() == c);
        if is_white_space(c) {
        } else if i >= 1 && !is_white_space(chars[i - 1]) {
            assert(cur[cur.len() - 2] == chars@[i - 1]);
            proof {
                if i >= 1 && !is_ws(chars@[i - 1]) {
                    assert(pre.len() > 0 && !is_ws(pre.last()));
                    lemma_words_nonempty(pre);
                }
                let w2 = w.update(w.len() - 1, w.last().push(c));
                if w.len() >= 2 {
                    assert(w2.drop_last() =~= w.drop_last());
                }
                assert(join_with(w2, ' ') =~= join_with(w, ' ').push(c));
            }
            out.push(c);
        } else {
            proof {
                let w2 = w.push(seq![c]);
                assert(w2.drop_last() =~= w);
                if w.len() == 0 {
                    assert(join_with(w2, ' ') =~= seq![c]);
                }
            }
            if nwords > 0 {
                out.push(' ');
            }
            out.push(c);
            nwords = nwords + 1;
        }
        i = i + 1;
    }
    assert(all.subrange(0, all.len() as int) =~= all);
    string_from_chars(out.as_slice())
}

proof fn lemma_words_nonempty(s: Seq<char>)
    requires
        s.len() > 0,
        !is_ws(s.last()),
    ensures
        words(s).len() > 0,
    decreases s.len(),
{
    if s.len() >= 2 && !is_ws(s[s.len() - 2]) {
        assert(s.drop_last().last() == s[s.len() - 2]);
        lemma_words_nonempty(s.drop_last());
    }
}

/// The longest prefix of `text` that fits in `nbytes` bytes of UTF-8, trimmed of white space.
pub fn text_trim(text: &str, nbytes: usize) -> (r: String)
    ensures
        r@ == trim(utf8_prefix(text@, nbytes as nat)),
{
    let chars = str_chars(text);
    let ghost all = chars@;
    let mut out: Vec<char> = Vec::new();
    let mut left: usize = nbytes;
    let mut i: usize = 0;
    let mut stop = false;
    assert(all.subrange(0, all.len() as int) =~= all);
    assert(out@ + utf8_prefix(all, nbytes as nat) =~= utf8_prefix(all, nbytes as nat));
    while i < chars.len() && !stop
        invariant
            i <= all.len(),
            all == chars@,
            stop ==> out@ == utf8_prefix(all, nbytes as nat),
            !stop ==> out@ + utf8_prefix(all.subrange(i as int, all.len() as int), left as nat)
                == utf8_prefix(all, nbytes as nat),
        decreases all.len() - i + (if stop {
            0int
        } else {
            1int
        }),
    {
        let c = chars[i];
        let cp = c as u32;
        let width: usize = if cp < 0x80 {
            1
        } else if cp < 0x800 {
            2
        } else if cp < 0x10000 {
            3
        } else {
            4
        };
        let ghost rest = all.subrange(i as int, all.len() as int);
        assert(rest[0] == c);
        assert(width as nat == utf8_width(c));
        if width > left {
            stop = true;
            assert(out@ + Seq::<char>::empty() =~= out@);
        } else {
            assert(rest.subrange(1, rest.len() as int) =~= all.subrange(i + 1, all.len() as int));
            assert(out@ + (seq![c] + utf8_prefix(all.subrange(i + 1, all.len() as int), (left
                - width) as nat)) =~= out@.push(c) + utf8_prefix(
                all.subrange(i + 1, all.len() as int),
                (left - width) as nat,
            ));
            out.push(c);
            left = left - width;
            i = i + 1;
        }
    }
    if !stop {
        assert(all.subrange(i as int, all.len() as int) =~= Seq::<char>::empty());
        assert(out@ + Seq::<char>::empty() =~= out@);
    }
    let trimmed = trim_chars(out.as_slice());
    string_from_chars(trimmed.as_slice())
}

/// Whether a character stays in collapsed text.
pub open spec fn collapsible(c: char) -> bool {
    !is_ws(c) && !is_cmp_cat(category_of(c))
}

/// The characters of `s` that stay in collapsed text.
pub open spec fn keep_collapsible(s: Seq<char>) -> Seq<char>
    decreases s.len(),
{
    if s.len() == 0 {
        seq![]
    } else if collapsible(s.last()) {
        keep_collapsible(s.drop_last()).push(s.last())
    } else {
        keep_collapsible(s.drop_last())
    }
}

/// Text reduced for similarity hashing: NFD, lower case, without white space and without
/// "C", "M" and "P" characters, then NFKC.
pub fn text_collapse(text: &str) -> (r: String)
    ensures
        r@ == nfkc_of(keep_collapsible(lower_of(nfd_of(text@)))),
{
    let decomposed = nfd(text);
    let lower = lowercase(decomposed.as_str());
    let chars = str_chars(lower.as_str());
    let ghost all = chars@;
    let mut kept: Vec<char> = Vec::new();
    let mut i: usize = 0;
    while i < chars.len()
        invariant
            i <= all.len(),
            all == chars@,
            kept@ == keep_collapsible(all.subrange(0, i as int)),
        decreases all.len() - i,
    {
        let c = chars[i];
        assert(all.subrange(0, i + 1).drop_last() =~= all.subrange(0, i as int));
        assert(all.subrange(0, i + 1).last() == c);
        let keep = !is_white_space(c) && !is_cmp_category(c);
        assert(keep == collapsible(c));
        if keep {
            kept.push(c);
        }
        i = i + 1;
    }
    assert(all.subrange(0, all.len() as int) =~= all);
    let filtered = string_from_chars(kept.as_slice());
    nfkc(filtered.as_str())
}

} // verus!
