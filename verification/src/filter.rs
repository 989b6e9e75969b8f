//! The filter pipeline: pure text transforms applied to a line before it is
//! compared. Filters compose in sequence order and are re-applied to each
//! line at comparison time; none of them is ever used for output.

use vstd::prelude::*;

verus! {

/// A text transform applied to a line before comparison.
#[derive(Clone, Copy, Debug, PartialEq, Eq, Structural)]
pub enum Filter {
    /// Remove every whitespace character at the start of the line.
    StripLeadingBlanks,
    /// Keep only alphanumeric and whitespace characters.
    DictionaryOrder,
    /// Replace the line by its full Unicode case folding.
    CaseFold,
}

/// Whether a character is whitespace, as `char::is_whitespace` decides it
/// (the Unicode `White_Space` property).
pub uninterp spec fn is_space(c: char) -> bool;

/// Whether a character is alphanumeric, as `char::is_alphanumeric` decides
/// it (the Unicode `Alphabetic` property or a numeric general category).
pub uninterp spec fn is_alnum(c: char) -> bool;

/// The full Unicode case folding of a character sequence, as
/// `caseless::default_case_fold_str` computes it: a function of the
/// characters alone.
pub uninterp spec fn fold_of(s: Seq<char>) -> Seq<char>;

/// Relies on `char::is_whitespace`: true exactly for characters with the
/// Unicode `White_Space` property, a fixed classification of the character.
#[verifier::external_body]
fn char_is_space(c: char) -> (r: bool)
    ensures
        r == is_space(c),
{
    c.is_whitespace()
}

/// Relies on `char::is_alphanumeric`: true exactly for alphabetic or
/// numeric characters, a fixed classification of the character.
#[verifier::external_body]
fn char_is_alnum(c: char) -> (r: bool)
    ensures
        r == is_alnum(c),
{
    c.is_alphanumeric()
}

/// Relies on `caseless::default_case_fold_str`: maps each character of the
/// input through the Unicode default case folding, so the result depends on
/// the input characters alone. An empty input folds to an empty string.
#[verifier::external_body]
fn case_fold(s: &str) -> (r: String)
    ensures
        r@ == fold_of(s@),
        s@.len() == 0 ==> r@.len() == 0,
{
    caseless::default_case_fold_str(s)
}

/// Relies on `String::push`: appends the character to the end of the string.
#[verifier::external_body]
pub(crate) fn push_char(s: &mut String, c: char)
    ensures
        final(s)@ == old(s)@.push(c),
{
    s.push(c)
}

/// How many whitespace characters stand at the start of `s`.
pub open spec fn leading_blank_count(s: Seq<char>) -> int
    decreases s.len(),
{
    if s.len() > 0 && is_space(s[0]) {
        1 + leading_blank_count(s.drop_first())
    } else {
        0
    }
}

/// What `StripLeadingBlanks` leaves of `s`: everything past the leading
/// whitespace run.
pub open spec fn strip_leading_blanks(s: Seq<char>) -> Seq<char> {
    s.skip(leading_blank_count(s))
}

/// Whether a character survives the `DictionaryOrder` filter.
pub open spec fn dict_keep(c: char) -> bool {
    is_alnum(c) || is_space(c)
}

/// What `DictionaryOrder` leaves of `s`: the alphanumeric and whitespace
/// characters, in order.
pub open spec fn dict_chars(s: Seq<char>) -> Seq<char> {
    s.filter(|c: char| dict_keep(c))
}

/// The result of one filter applied to `s`.
pub open spec fn apply_one_filter(s: Seq<char>, f: Filter) -> Seq<char> {
    match f {
        Filter::StripLeadingBlanks => strip_leading_blanks(s),
        Filter::DictionaryOrder => dict_chars(s),
        Filter::CaseFold => fold_of(s),
    }
}

/// The result of a filter sequence applied to `s`, first filter first,
/// each consuming the previous filter's output.
pub open spec fn apply_filters(s: Seq<char>, fs: Seq<Filter>) -> Seq<char>
    decreases fs.len(),
{
    if fs.len() == 0 {
        s
    } else {
        apply_filters(apply_one_filter(s, fs[0]), fs.skip(1))
    }
}

/// A prefix of whitespace followed by the end of the string or a
/// non-whitespace character pins the leading-blank count.
proof fn lemma_leading_blank_count_is(s: Seq<char>, k: int)
    requires
        0 <= k <= s.len(),
        forall|j: int| 0 <= j < k ==> is_space(#[trigger] s[j]),
        k < s.len() ==> !is_space(s[k]),
    ensures
        leading_blank_count(s) == k,
    decreases s.len(),
{
    if k == 0 {
    } else {
        assert(is_space(s[0]));
        assert(forall|j: int| 0 <= j < k - 1 ==> s.drop_first()[j] == s[j + 1]);
        lemma_leading_blank_count_is(s.drop_first(), k - 1);
    }
}

/// Removes all whitespace characters from the start of the line only;
/// trailing and internal whitespace is untouched.
pub fn leading_blanks_filter(input: &str) -> (r: String)
    ensures
        r@ == strip_leading_blanks(input@),
{
    let n = input.unicode_len();
    let mut i: usize = 0;
    while i < n && char_is_space(input.get_char(i))
        invariant
            0 <= i <= n,
            n == input@.len(),
            forall|j: int| 0 <= j < i ==> is_space(#[trigger] input@[j]),
        decreases n - i,
    {
        i = i + 1;
    }
    proof {
        lemma_leading_blank_count_is(input@, i as int);
    }
    let rest = input.substring_char(i, n);
    String::from_str(rest)
}

/// Removes every character that is neither alphanumeric nor whitespace;
/// whitespace runs are preserved verbatim, including width.
pub fn dictionary_order_filter(input: &str) -> (r: String)
    ensures
        r@ == dict_chars(input@),
{
    broadcast use vstd::seq_lib::group_filter_ensures;

    let n = input.unicode_len();
    let mut out = String::new();
    let mut i: usize = 0;
    while i < n
        invariant
            0 <= i <= n,
            n == input@.len(),
            out@ == input@.take(i as int).filter(|c: char| dict_keep(c)),
        decreases n - i,
    {
        let c = input.get_char(i);
        proof {
            assert(input@.take(i + 1).drop_last() =~= input@.take(i as int));
            assert(input@.take(i + 1).last() == input@[i as int]);
            reveal_with_fuel(Seq::filter, 2);
        }
        if char_is_alnum(c) || char_is_space(c) {
            push_char(&mut out, c);
        }
        i = i + 1;
    }
    proof {
        assert(input@.take(n as int) =~= input@);
    }
    out
}

/// Replaces the line by its full Unicode case folding, for comparison only.
pub fn fold_filter(input: &str) -> (r: String)
    ensures
        r@ == fold_of(input@),
{
    case_fold(input)
}

/// The result of one filter applied to one line.
pub fn apply_filter(input: &str, filter: Filter) -> (r: String)
    ensures
        r@ == apply_one_filter(input@, filter),
{
    match filter {
        Filter::StripLeadingBlanks => leading_blanks_filter(input),
        Filter::DictionaryOrder => dictionary_order_filter(input),
        Filter::CaseFold => fold_filter(input),
    }
}

/// Applying a concatenated filter sequence is applying the first part and
/// then the second: composition is associative in application order.
pub proof fn lemma_filters_compose(s: Seq<char>, fs1: Seq<Filter>, fs2: Seq<Filter>)
    ensures
        apply_filters(s, fs1 + fs2) == apply_filters(apply_filters(s, fs1), fs2),
    decreases fs1.len(),
{
    if fs1.len() == 0 {
        assert(fs1 + fs2 =~= fs2);
    } else {
        assert((fs1 + fs2)[0] == fs1[0]);
        assert((fs1 + fs2).skip(1) =~= fs1.skip(1) + fs2);
        lemma_filters_compose(apply_one_filter(s, fs1[0]), fs1.skip(1), fs2);
    }
}

/// Appending one more filter applies it to the result of the earlier ones.
proof fn lemma_filters_snoc(s: Seq<char>, fs: Seq<Filter>, f: Filter)
    ensures
        apply_filters(s, fs.push(f)) == apply_one_filter(apply_filters(s, fs), f),
{
    assert(fs.push(f) =~= fs + seq![f]);
    lemma_filters_compose(s, fs, seq![f]);
    assert(apply_filters(apply_filters(s, fs), seq![f]) == apply_one_filter(
        apply_filters(s, fs),
        f,
    )) by {
        reveal_with_fuel(apply_filters, 2);
        assert(seq![f].skip(1) =~= Seq::<Filter>::empty());
    }
}

/// Applies each filter in order, each consuming the previous filter's
/// output; an empty filter sequence returns the input unchanged.
pub fn filter_function(input: &str, filters: &Vec<Filter>) -> (r: String)
    ensures
        r@ == apply_filters(input@, filters@),
{
    let mut cur = String::from_str(input);
    let mut i: usize = 0;
    while i < filters.len()
        invariant
            0 <= i <= filters@.len(),
            cur@ == apply_filters(input@, filters@.take(i as int)),
        decreases filters@.len() - i,
    {
        let f = filters[i];
        proof {
            assert(filters@.take(i + 1) =~= filters@.take(i as int).push(filters@[i as int]));
            lemma_filters_snoc(input@, filters@.take(i as int), filters@[i as int]);
        }
        cur = apply_filter(cur.as_str(), f);
        i = i + 1;
    }
    proof {
        assert(filters@.take(filters@.len() as int) =~= filters@);
    }
    cur
}

} // verus!
