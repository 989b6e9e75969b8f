//! The comparison strategies, the run configuration, and the comparator:
//! a pure, total three-way comparison of two lines under a configuration,
//! composing the filter pipeline with the selected strategy and the
//! reverse switch.

use crate::compare::Comparison;
use crate::compare::compare_text;
use crate::compare::flip;
use crate::compare::lemma_lex_flip;
use crate::compare::lemma_lex_refl;
use crate::compare::lemma_lex_trans;
use crate::compare::lex_cmp;
use crate::filter::Filter;
use crate::filter::apply_filters;
use crate::filter::filter_function;
use crate::numeric::NumericKey;
use crate::numeric::compare_keys;
use crate::numeric::lemma_num_flip;
use crate::numeric::lemma_num_le_trans;
use crate::numeric::lemma_num_refl;
use crate::numeric::num_cmp;
use crate::numeric::numeric_key;
use crate::numeric::parsed_key;
use vstd::prelude::*;

verus! {

/// How lines are ordered; exactly one strategy is active per run.
#[derive(Clone, Copy, Debug, PartialEq, Eq, Structural)]
pub enum SortStrategy {
    /// Codepoint-wise text order.
    Lexicographic,
    /// By the numeric value of the line's leading number.
    GeneralNumeric,
    /// Natural order: embedded digit runs compare by numeric value.
    NaturalOrder,
    /// By version precedence when both lines parse as versions, natural
    /// order otherwise.
    VersionOrder,
}

/// The immutable configuration of one sort run.
#[derive(Clone, Debug)]
pub struct SortConfig {
    /// Filters applied, in order, to each line before comparison.
    pub filters: Vec<Filter>,
    /// The active comparison strategy.
    pub strategy: SortStrategy,
    /// Exchange the operands of every comparison.
    pub reverse: bool,
    /// Keep equal lines in their input order.
    pub stable: bool,
    /// Keep only the first occurrence of each distinct line.
    pub unique: bool,
}

/// Natural-order comparison of two strings, as `natord::compare` decides
/// it: a function of the two character sequences alone.
pub uninterp spec fn natural_cmp(a: Seq<char>, b: Seq<char>) -> Comparison;

/// Whether `version_compare` accepts the string as a version.
pub uninterp spec fn is_version(s: Seq<char>) -> bool;

/// The precedence of two parsed versions, as `version_compare` decides it;
/// `None` when the comparison is indeterminate. A function of the two
/// character sequences alone.
pub uninterp spec fn version_cmp(a: Seq<char>, b: Seq<char>) -> Option<Comparison>;

/// Relies on `natord::compare`: a deterministic comparison that walks the
/// two strings and compares embedded digit runs by numeric value, a pure
/// function of its two arguments.
#[verifier::external_body]
fn natord_compare(a: &str, b: &str) -> (r: Comparison)
    ensures
        r == natural_cmp(a@, b@),
{
    match natord::compare(a, b) {
        core::cmp::Ordering::Less => Comparison::Less,
        core::cmp::Ordering::Equal => Comparison::Equal,
        core::cmp::Ordering::Greater => Comparison::Greater,
    }
}

/// Relies on `version_compare::Version::from`, which parses a string into
/// version parts and returns `Some` exactly when the string splits into
/// such parts, and on `Version::compare` with `Cmp::ord`, a deterministic
/// precedence comparison of the two parsed versions that is indeterminate
/// for some pairs. All are pure functions of the two strings.
#[verifier::external_body]
fn version_order(a: &str, b: &str) -> (r: Option<Comparison>)
    ensures
        r is Some ==> is_version(a@) && is_version(b@) && version_cmp(a@, b@) == r,
        r is None ==> !is_version(a@) || !is_version(b@) || version_cmp(a@, b@) is None,
{
    let va = match version_compare::Version::from(a) {
        Some(v) => v,
        None => return None,
    };
    let vb = match version_compare::Version::from(b) {
        Some(v) => v,
        None => return None,
    };
    match va.compare(&vb).ord() {
        Some(core::cmp::Ordering::Less) => Some(Comparison::Less),
        Some(core::cmp::Ordering::Equal) => Some(Comparison::Equal),
        Some(core::cmp::Ordering::Greater) => Some(Comparison::Greater),
        None => None,
    }
}

/// The order a strategy gives two (already filtered) lines.
pub open spec fn strategy_cmp(strat: SortStrategy, a: Seq<char>, b: Seq<char>) -> Comparison {
    match strat {
        SortStrategy::Lexicographic => lex_cmp(a, b),
        SortStrategy::GeneralNumeric => num_cmp(parsed_key(a), parsed_key(b)),
        SortStrategy::NaturalOrder => natural_cmp(a, b),
        SortStrategy::VersionOrder => if is_version(a) && is_version(b) && version_cmp(a, b)
            is Some {
            version_cmp(a, b)->0
        } else {
            natural_cmp(a, b)
        },
    }
}

/// Compares two filtered lines under a strategy.
pub fn compare_filtered(a: &str, b: &str, strategy: SortStrategy) -> (r: Comparison)
    ensures
        r == strategy_cmp(strategy, a@, b@),
{
    match strategy {
        SortStrategy::Lexicographic => compare_text(a, b),
        SortStrategy::GeneralNumeric => {
            let ka = numeric_key(a);
            let kb = numeric_key(b);
            compare_keys(&ka, &kb)
        },
        SortStrategy::NaturalOrder => natord_compare(a, b),
        SortStrategy::VersionOrder => match version_order(a, b) {
            Some(c) => c,
            None => natord_compare(a, b),
        },
    }
}

/// The comparator: the order of two raw lines under a configuration.
/// Each line runs through the filter pipeline; the strategy compares the
/// results, with the operands exchanged when `reverse` is set.
pub open spec fn line_cmp(cfg: SortConfig, a: Seq<char>, b: Seq<char>) -> Comparison {
    let fa = apply_filters(a, cfg.filters@);
    let fb = apply_filters(b, cfg.filters@);
    if cfg.reverse {
        strategy_cmp(cfg.strategy, fb, fa)
    } else {
        strategy_cmp(cfg.strategy, fa, fb)
    }
}

/// The comparator's non-strict order.
pub open spec fn line_le(cfg: SortConfig, a: Seq<char>, b: Seq<char>) -> bool {
    line_cmp(cfg, a, b) != Comparison::Greater
}

/// Compares two raw lines under a configuration: a pure function of its
/// arguments, safe to call concurrently.
pub fn compare(a: &str, b: &str, config: &SortConfig) -> (r: Comparison)
    ensures
        r == line_cmp(*config, a@, b@),
{
    let fa = filter_function(a, &config.filters);
    let fb = filter_function(b, &config.filters);
    if config.reverse {
        compare_filtered(fb.as_str(), fa.as_str(), config.strategy)
    } else {
        compare_filtered(fa.as_str(), fb.as_str(), config.strategy)
    }
}

/// The comparator laws the sort engine relies on: every line is equal to
/// itself, exchanging operands flips the result, and the non-strict order
/// is transitive — a consistent total preorder.
pub open spec fn cmp_consistent(cfg: SortConfig) -> bool {
    &&& forall|a: Seq<char>| #[trigger] line_cmp(cfg, a, a) == Comparison::Equal
    &&& forall|a: Seq<char>, b: Seq<char>| #[trigger] line_cmp(cfg, b, a) == flip(
        line_cmp(cfg, a, b),
    )
    &&& forall|a: Seq<char>, b: Seq<char>, c: Seq<char>|
        #[trigger] line_le(cfg, a, b) && #[trigger] line_le(cfg, b, c) ==> line_le(cfg, a, c)
}

/// The lexicographic and general-numeric strategies order lines by a key
/// of each line alone, so the comparator they give is a consistent total
/// preorder, whatever filters and reversal stand beside them.
pub proof fn lemma_keyed_strategy_consistent(cfg: SortConfig)
    requires
        cfg.strategy == SortStrategy::Lexicographic || cfg.strategy
            == SortStrategy::GeneralNumeric,
    ensures
        cmp_consistent(cfg),
{
    let lex = cfg.strategy == SortStrategy::Lexicographic;
    assert forall|a: Seq<char>| #[trigger] line_cmp(cfg, a, a) == Comparison::Equal by {
        let fa = apply_filters(a, cfg.filters@);
        if lex {
            lemma_lex_refl(fa);
        } else {
            lemma_num_refl(parsed_key(fa));
        }
    }
    assert forall|a: Seq<char>, b: Seq<char>| #[trigger] line_cmp(cfg, b, a) == flip(
        line_cmp(cfg, a, b),
    ) by {
        let fa = apply_filters(a, cfg.filters@);
        let fb = apply_filters(b, cfg.filters@);
        if lex {
            lemma_lex_flip(fa, fb);
            lemma_lex_flip(fb, fa);
        } else {
            lemma_num_flip(parsed_key(fa), parsed_key(fb));
            lemma_num_flip(parsed_key(fb), parsed_key(fa));
        }
    }
    assert forall|a: Seq<char>, b: Seq<char>, c: Seq<char>|
        #[trigger] line_le(cfg, a, b) && #[trigger] line_le(cfg, b, c) implies line_le(
        cfg,
        a,
        c,
    ) by {
        let fa = apply_filters(a, cfg.filters@);
        let fb = apply_filters(b, cfg.filters@);
        let fc = apply_filters(c, cfg.filters@);
        if lex {
            if cfg.reverse {
                lemma_lex_trans(fc, fb, fa);
            } else {
                lemma_lex_trans(fa, fb, fc);
            }
        } else {
            if cfg.reverse {
                lemma_num_le_trans(parsed_key(fc), parsed_key(fb), parsed_key(fa));
            } else {
                lemma_num_le_trans(parsed_key(fa), parsed_key(fb), parsed_key(fc));
            }
        }
    }
}

/// The comparable key a strategy derives from one (already filtered)
/// line. The version strategy's fallback is decided pairwise at the
/// comparator, so its key carries the text itself.
#[derive(Clone, Debug, PartialEq, Eq)]
pub enum SortKey {
    /// The filtered text itself.
    Text(String),
    /// The line's leading number, exactly.
    Number(NumericKey),
    /// The text, to be compared in natural order.
    Natural(String),
    /// The text, to be compared by version precedence with natural-order
    /// fallback.
    Version(String),
}

/// The sort key of one filtered line under a strategy.
pub fn key_of(filtered_text: &str, strategy: SortStrategy) -> (r: SortKey)
    ensures
        strategy == SortStrategy::Lexicographic ==> (r matches SortKey::Text(t) && t@
            == filtered_text@),
        strategy == SortStrategy::GeneralNumeric ==> (r matches SortKey::Number(k)
            && crate::numeric::key_rep(k) == parsed_key(filtered_text@)),
        strategy == SortStrategy::NaturalOrder ==> (r matches SortKey::Natural(t) && t@
            == filtered_text@),
        strategy == SortStrategy::VersionOrder ==> (r matches SortKey::Version(t) && t@
            == filtered_text@),
{
    match strategy {
        SortStrategy::Lexicographic => SortKey::Text(String::from_str(filtered_text)),
        SortStrategy::GeneralNumeric => SortKey::Number(numeric_key(filtered_text)),
        SortStrategy::NaturalOrder => SortKey::Natural(String::from_str(filtered_text)),
        SortStrategy::VersionOrder => SortKey::Version(String::from_str(filtered_text)),
    }
}

} // verus!
