//! The admission decision: from the line in which the operating system reports
//! its version to the build number, and from the build number to yes or no.

use crate::decimal::{
    clamped, decimal_value, is_digit, is_numeral, lemma_non_digit_is_no_number, lemma_numeral_is_free,
    parse_decimal, parsed,
};
use crate::text::{
    chars_of, field, first_index, first_index_of, free_of, last_index, last_index_of,
    lemma_first_index_is_first, lemma_first_index_is, lemma_joined_is_free,
    lemma_last_index_in_range, lemma_last_index_is, lemma_occurrences_in_part,
    lemma_split_counts_separators, lemma_split_first_field, lemma_split_one_field, occurrences,
    split,
};
use vstd::prelude::*;

verus! {

/// The lowest build number that is admitted.
pub const MIN_BUILD: usize = 22000;

/// The version as the line reports it: what stands between the first `[` of
/// `text` and its last `]`. `None` where either is missing or the last `]`
/// stands before the first `[`.
pub open spec fn bracketed(text: Seq<char>) -> Option<Seq<char>> {
    match first_index(text, '[') {
        Some(open) => match last_index(text, ']') {
            Some(close) => if open < close {
                Some(text.subrange(open + 1, close))
            } else {
                None
            },
            None => None,
        },
        None => None,
    }
}

/// What follows the last `]` of `text`; all of `text` where it holds none.
pub open spec fn trailing(text: Seq<char>) -> Seq<char> {
    match last_index(text, ']') {
        Some(close) => text.skip(close + 1),
        None => text,
    }
}

/// `s` holds line feeds and nothing else.
pub open spec fn line_feeds_only(s: Seq<char>) -> bool {
    forall|k: int| 0 <= k < s.len() ==> s[k] == '\n'
}

/// The number that a field writes, 0 where it writes none.
pub open spec fn number_or_zero(field: Seq<char>) -> nat {
    match parsed(field) {
        Some(number) => number,
        None => 0,
    }
}

/// The build number that `text` reports: the third of the fields that dots
/// delimit in the bracketed version, read as a decimal number of any size.
/// It is 0 where there is no bracketed version, where it has no third field,
/// or where that field writes no number. What follows the closing bracket,
/// line feeds aside, counts as part of the last field: where the third field
/// is the last and anything but line feeds follows the bracket, the build
/// number is 0 too.
pub open spec fn build_of(text: Seq<char>) -> nat {
    match bracketed(text) {
        Some(version) => {
            let fields = split(version, '.');
            if fields.len() > 3 || (fields.len() == 3 && line_feeds_only(trailing(text))) {
                number_or_zero(fields[2])
            } else {
                0
            }
        },
        None => 0,
    }
}

/// Whether the system that reports `text` is admitted.
pub open spec fn admits(text: Seq<char>) -> bool {
    build_of(text) >= MIN_BUILD
}

/// A line of the expected shape: a banner, a space, and in brackets three
/// fields with dots between them, then a line break.
pub open spec fn version_line(
    name: Seq<char>,
    major: Seq<char>,
    minor: Seq<char>,
    build: Seq<char>,
) -> Seq<char> {
    name + seq![' ', '['] + major + seq!['.'] + minor + seq!['.'] + build + seq![']', '\n']
}

/// A line of the expected shape up to its closing bracket, with `ending` in
/// place of the line feed.
pub open spec fn with_ending(
    name: Seq<char>,
    major: Seq<char>,
    minor: Seq<char>,
    build: Seq<char>,
    ending: Seq<char>,
) -> Seq<char> {
    name + seq![' ', '['] + major + seq!['.'] + minor + seq!['.'] + build + seq![']'] + ending
}

/// The three fields of a version with dots between them.
pub open spec fn dotted(major: Seq<char>, minor: Seq<char>, build: Seq<char>) -> Seq<char> {
    major + seq!['.'] + minor + seq!['.'] + build
}

/// What a banner brings in behind the bracket that opens the version: nothing,
/// unless the banner holds a `[` of its own; then what follows its first `[`,
/// with the space and the bracket after the banner.
pub open spec fn brought_in(name: Seq<char>) -> Seq<char> {
    match first_index(name, '[') {
        Some(at) => name.skip(at + 1) + seq![' ', '['],
        None => Seq::empty(),
    }
}

/// What stands between the first `[` of `text` and its last `]`.
pub fn between_brackets(text: &Vec<char>) -> (inner: Option<Vec<char>>)
    ensures
        match inner {
            Some(version) => bracketed(text@) == Some(version@),
            None => bracketed(text@) is None,
        },
{
    let open = match first_index_of(text, '[') {
        Some(at) => at,
        None => return None,
    };
    let close = match last_index_of(text, ']') {
        Some(at) => at,
        None => return None,
    };
    if open >= close {
        return None;
    }
    let mut version: Vec<char> = Vec::new();
    let mut i: usize = open + 1;
    while i < close
        invariant
            open < i <= close < text.len(),
            version@ == text@.subrange(open + 1, i as int),
        decreases close - i,
    {
        version.push(text[i]);
        assert(text@.subrange(open + 1, i as int).push(text@[i as int]) =~= text@.subrange(
            open + 1,
            i + 1,
        ));
        i += 1;
    }
    Some(version)
}

/// Whether nothing but line feeds follows the last `]` of `text`.
pub fn line_feeds_follow(text: &Vec<char>) -> (clean: bool)
    ensures
        clean == line_feeds_only(trailing(text@)),
{
    let mut i: usize = match last_index_of(text, ']') {
        Some(close) => close + 1,
        None => 0,
    };
    let ghost from = i as int;
    assert(trailing(text@) =~= text@.skip(from)) by {
        assert(text@.skip(0) =~= text@);
    }
    while i < text.len()
        invariant
            0 <= from <= i <= text.len(),
            trailing(text@) == text@.skip(from),
            forall|k: int| from <= k < i ==> text@[k] == '\n',
        decreases text.len() - i,
    {
        if text[i] != '\n' {
            assert(text@.skip(from)[i - from] != '\n');
            return false;
        }
        i += 1;
    }
    true
}

/// The build number that the reported line `text` gives, 0 where it gives
/// none, and the largest `usize` where the build is too large for one.
pub fn build_number(text: &str) -> (build: usize)
    ensures
        build == clamped(build_of(text@)),
{
    let chars = chars_of(text);
    let version = match between_brackets(&chars) {
        Some(version) => version,
        None => return 0,
    };
    let third = match field(&version, '.', 2) {
        Some(third) => third,
        None => return 0,
    };
    let last = match field(&version, '.', 3) {
        Some(_) => false,
        None => true,
    };
    if last && !line_feeds_follow(&chars) {
        return 0;
    }
    match parse_decimal(&third) {
        Some(build) => build,
        None => 0,
    }
}

/// Decides from the reported line `text` whether the application may start:
/// it may where the build number is `MIN_BUILD` or more, however large.
pub fn is_windows_11(text: &str) -> (admitted: bool)
    ensures
        admitted == admits(text@),
{
    build_number(text) >= MIN_BUILD
}

/// Whatever follows the closing bracket, as long as it holds no `]`: the
/// bracketed version is the three fields with their dots, whatever the fields
/// hold, after what the banner brings in.
pub proof fn lemma_bracketed_with_ending(
    name: Seq<char>,
    major: Seq<char>,
    minor: Seq<char>,
    build: Seq<char>,
    ending: Seq<char>,
)
    requires
        free_of(ending, ']'),
    ensures
        bracketed(with_ending(name, major, minor, build, ending)) == Some(
            brought_in(name) + dotted(major, minor, build),
        ),
        trailing(with_ending(name, major, minor, build, ending)) =~= ending,
{
    let line = with_ending(name, major, minor, build, ending);
    let close = line.len() - ending.len() - 1;
    lemma_first_index_is_first(name, '[');
    let open = match first_index(name, '[') {
        Some(at) => at,
        None => name.len() as int + 1,
    };
    assert(free_of(line.take(open), '[')) by {
        assert forall|k: int| 0 <= k < open implies line.take(open)[k] != '[' by {
            if k < name.len() {
                assert(line[k] == name[k]);
                if first_index(name, '[') is Some {
                    assert(name.take(open)[k] == name[k]);
                }
            }
        }
    }
    lemma_first_index_is(line, '[', open);
    assert(line.skip(close + 1) =~= ending);
    lemma_last_index_is(line, ']', close);
    assert(line.subrange(open + 1, close) =~= brought_in(name) + dotted(major, minor, build));
}

/// In a line of the expected shape the bracketed version is the three fields
/// with their dots, and one line feed follows the bracket.
pub proof fn lemma_bracketed_version_line(
    name: Seq<char>,
    major: Seq<char>,
    minor: Seq<char>,
    build: Seq<char>,
)
    ensures
        bracketed(version_line(name, major, minor, build)) == Some(
            brought_in(name) + dotted(major, minor, build),
        ),
        trailing(version_line(name, major, minor, build)) =~= seq!['\n'],
{
    let ending = seq!['\n'];
    lemma_bracketed_with_ending(name, major, minor, build, ending);
    assert(version_line(name, major, minor, build) =~= with_ending(
        name,
        major,
        minor,
        build,
        ending,
    ));
}

/// The fields of the bracketed version: with no dot in what the banner brings
/// in nor in the three fields, they are three, and the third is the build.
pub proof fn lemma_fields_of_version(
    name: Seq<char>,
    major: Seq<char>,
    minor: Seq<char>,
    build: Seq<char>,
)
    requires
        free_of(brought_in(name), '.'),
        free_of(major, '.'),
        free_of(minor, '.'),
        free_of(build, '.'),
    ensures
        split(brought_in(name) + dotted(major, minor, build), '.') =~= seq![
            brought_in(name) + major,
            minor,
            build,
        ],
{
    let version = brought_in(name) + dotted(major, minor, build);
    let first = brought_in(name) + major;
    let rest = minor + seq!['.'] + build;
    lemma_joined_is_free(brought_in(name), major, '.');
    assert(version =~= first + seq!['.'] + rest);
    assert(version.take(first.len() as int) =~= first);
    assert(version.skip(first.len() as int + 1) =~= rest);
    lemma_split_first_field(version, '.', first.len() as int);
    assert(rest.take(minor.len() as int) =~= minor);
    assert(rest.skip(minor.len() as int + 1) =~= build);
    lemma_split_first_field(rest, '.', minor.len() as int);
    lemma_split_one_field(build, '.');
}

/// From a line of the expected shape the build number is read as its third
/// field writes it, and is 0 where that field writes no number.
pub proof fn lemma_build_of_version_line(
    name: Seq<char>,
    major: Seq<char>,
    minor: Seq<char>,
    build: Seq<char>,
)
    requires
        free_of(brought_in(name), '.'),
        free_of(major, '.'),
        free_of(minor, '.'),
        free_of(build, '.'),
    ensures
        build_of(version_line(name, major, minor, build)) == number_or_zero(build),
{
    lemma_bracketed_version_line(name, major, minor, build);
    lemma_fields_of_version(name, major, minor, build);
}

/// A line that is of the expected shape up to its closing bracket, with
/// anything but line feeds after it, has build number 0 and is denied,
/// whatever its third field writes.
pub proof fn lemma_text_after_version_is_denied(
    name: Seq<char>,
    major: Seq<char>,
    minor: Seq<char>,
    build: Seq<char>,
    ending: Seq<char>,
    at: int,
)
    requires
        free_of(brought_in(name), '.'),
        free_of(major, '.'),
        free_of(minor, '.'),
        free_of(build, '.'),
        free_of(ending, ']'),
        0 <= at < ending.len(),
        ending[at] != '\n',
    ensures
        build_of(with_ending(name, major, minor, build, ending)) == 0,
        !admits(with_ending(name, major, minor, build, ending)),
{
    lemma_bracketed_with_ending(name, major, minor, build, ending);
    lemma_fields_of_version(name, major, minor, build);
    assert(trailing(with_ending(name, major, minor, build, ending))[at] != '\n');
}

/// A line of the expected shape is admitted where the build number that it
/// writes is `MIN_BUILD` or more.
pub proof fn lemma_recent_build_is_admitted(
    name: Seq<char>,
    major: Seq<char>,
    minor: Seq<char>,
    build: Seq<char>,
)
    requires
        free_of(brought_in(name), '.'),
        is_numeral(major),
        is_numeral(minor),
        is_numeral(build),
        decimal_value(build) >= MIN_BUILD,
    ensures
        build_of(version_line(name, major, minor, build)) == decimal_value(build),
        admits(version_line(name, major, minor, build)),
{
    lemma_numeral_is_free(major, '.');
    lemma_numeral_is_free(minor, '.');
    lemma_numeral_is_free(build, '.');
    lemma_numeral_is_free(build, '+');
    lemma_build_of_version_line(name, major, minor, build);
}

/// A line of the expected shape is denied where the build number that it
/// writes is under `MIN_BUILD`.
pub proof fn lemma_old_build_is_denied(
    name: Seq<char>,
    major: Seq<char>,
    minor: Seq<char>,
    build: Seq<char>,
)
    requires
        free_of(brought_in(name), '.'),
        is_numeral(major),
        is_numeral(minor),
        is_numeral(build),
        decimal_value(build) < MIN_BUILD,
    ensures
        build_of(version_line(name, major, minor, build)) == decimal_value(build),
        !admits(version_line(name, major, minor, build)),
{
    lemma_numeral_is_free(major, '.');
    lemma_numeral_is_free(minor, '.');
    lemma_numeral_is_free(build, '.');
    lemma_numeral_is_free(build, '+');
    lemma_build_of_version_line(name, major, minor, build);
}

/// A line of the expected shape whose third field holds anything but digits,
/// a `+` in front aside, has build number 0 and is denied.
pub proof fn lemma_non_numeric_build_is_denied(
    name: Seq<char>,
    major: Seq<char>,
    minor: Seq<char>,
    build: Seq<char>,
    at: int,
)
    requires
        free_of(brought_in(name), '.'),
        free_of(major, '.'),
        free_of(minor, '.'),
        free_of(build, '.'),
        0 <= at < build.len(),
        !is_digit(build[at]),
        at > 0 || build[0] != '+',
    ensures
        build_of(version_line(name, major, minor, build)) == 0,
        !admits(version_line(name, major, minor, build)),
{
    lemma_non_digit_is_no_number(build, at);
    lemma_build_of_version_line(name, major, minor, build);
}

/// A line of the expected shape with nothing in its third field has build
/// number 0 and is denied.
pub proof fn lemma_empty_build_is_denied(name: Seq<char>, major: Seq<char>, minor: Seq<char>)
    requires
        free_of(brought_in(name), '.'),
        free_of(major, '.'),
        free_of(minor, '.'),
    ensures
        build_of(version_line(name, major, minor, Seq::empty())) == 0,
        !admits(version_line(name, major, minor, Seq::empty())),
{
    lemma_build_of_version_line(name, major, minor, Seq::empty());
}

/// A text without `[`, or without `]`, has no bracketed version, so build
/// number 0, and is denied, whatever digits it holds.
pub proof fn lemma_missing_bracket_is_denied(text: Seq<char>)
    requires
        free_of(text, '[') || free_of(text, ']'),
    ensures
        bracketed(text) is None,
        build_of(text) == 0,
        !admits(text),
{
    if free_of(text, '[') {
        assert(text.take(text.len() as int) =~= text);
        lemma_first_index_is(text, '[', text.len() as int);
    } else {
        assert(text.skip(0) =~= text);
        lemma_last_index_is(text, ']', -1);
    }
}

/// A text with no `]` after its first `[` has no bracketed version, so
/// build number 0, and is denied.
pub proof fn lemma_unclosed_bracket_is_denied(text: Seq<char>, open: int)
    requires
        first_index(text, '[') == Some(open),
        free_of(text.skip(open + 1), ']'),
    ensures
        bracketed(text) is None,
        build_of(text) == 0,
        !admits(text),
{
    lemma_first_index_is_first(text, '[');
    lemma_last_index_in_range(text, ']');
    if last_index(text, ']') is Some {
        let close = last_index(text, ']')->0;
        if close > open {
            assert(text.skip(open + 1)[close - open - 1] == ']');
        }
    }
}

/// A text with fewer than two dots has no third field, so build number 0,
/// and is denied.
pub proof fn lemma_too_few_dots_is_denied(text: Seq<char>)
    requires
        occurrences(text, '.') < 2,
    ensures
        build_of(text) == 0,
        !admits(text),
{
    if bracketed(text) is Some {
        let open = first_index(text, '[')->0;
        let close = last_index(text, ']')->0;
        lemma_first_index_is_first(text, '[');
        lemma_last_index_in_range(text, ']');
        lemma_occurrences_in_part(text, '.', open + 1, close);
        lemma_split_counts_separators(bracketed(text)->0, '.');
    }
}

/// The decision rests on the characters of the text and on nothing else: two
/// texts of the same characters get the same build number and the same
/// answer.
pub proof fn lemma_same_text_same_decision(first: Seq<char>, second: Seq<char>)
    requires
        first =~= second,
    ensures
        build_of(first) == build_of(second),
        admits(first) == admits(second),
{
}

} // verus!
