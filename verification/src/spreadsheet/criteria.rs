//! What a user wants to read.

use crate::helpers::text::same_text;
use vstd::prelude::*;

verus! {

/// The bounds of a rectangle of cells, all of them inside of it. A bound that is
/// not given does not limit.
#[derive(Debug, Clone, Copy, PartialEq, Eq)]
pub struct Range {
    pub row_lower_bound: Option<usize>,
    pub row_upper_bound: Option<usize>,
    pub col_lower_bound: Option<usize>,
    pub col_upper_bound: Option<usize>,
}

/// Whether `at` lies before a lower bound.
pub open spec fn before_bound(bound: Option<usize>, at: int) -> bool {
    bound matches Some(lower) && at < lower
}

/// Whether `at` lies after an upper bound.
pub open spec fn after_bound(bound: Option<usize>, at: int) -> bool {
    bound matches Some(upper) && at > upper
}

/// The rules by which sheets and cells are chosen.
#[derive(Debug, Clone, PartialEq, Eq)]
pub struct Criteria {
    /// Glob patterns, one of which the name of a sheet has to match.
    pub sheet_name_patterns: Option<Vec<String>>,
    /// How many sheets are read at most.
    pub sheet_limit: Option<usize>,
    /// The cells that are read.
    pub range: Option<Range>,
    /// How many rows are read at most.
    pub rows_limit: Option<usize>,
    /// The values that count as no value.
    pub nulls: Vec<String>,
    /// Whether an error in a cell counts as no value.
    pub error_as_null: bool,
    /// Whether rows without values are left out.
    pub skip_empty_rows: bool,
    /// Whether the first row without values ends a sheet.
    pub end_at_empty_row: bool,
    /// Whether all cells of a merged range get its value.
    pub spread_merged_cells: bool,
}

/// Whether a text is a valid glob pattern.
pub uninterp spec fn is_glob(pattern: Seq<char>) -> bool;

/// Whether a name matches a valid glob pattern.
pub uninterp spec fn glob_match(pattern: Seq<char>, name: Seq<char>) -> bool;

/// Whether a text reads alike on platforms with different path separators.
pub open spec fn is_portable(text: Seq<char>) -> bool {
    !text.contains('\\')
}

/// Compiles a pattern with `glob::Pattern::new` and asks `glob::Pattern::matches`;
/// `None` is a pattern that does not compile. Claimed: as long as the pattern holds
/// no backslash, which is a path separator on some platforms, whether it compiles is
/// a function of the pattern; and as long as the name holds none either, whether it
/// matches is a function of the two texts.
#[verifier::external_body]
fn match_glob(pattern: &str, name: &str) -> (res: Option<bool>)
    ensures
        is_portable(pattern@) ==> res is Some == is_glob(pattern@),
        is_portable(pattern@) && is_portable(name@) ==> (res matches Some(found) ==> found
            == glob_match(pattern@, name@)),
{
    glob::Pattern::new(pattern).ok().map(|compiled| compiled.matches(name))
}

/// Decides whether a text is a valid glob pattern. What holds of patterns with
/// backslashes depends on the platform.
pub fn is_valid_pattern(pattern: &str) -> (res: bool)
    ensures
        is_portable(pattern@) ==> res == is_glob(pattern@),
{
    match_glob(pattern, "").is_some()
}

impl Criteria {
    /// Whether the value counts as no value.
    pub open spec fn is_null(self, value: Seq<char>) -> bool {
        exists|i: int| 0 <= i < self.nulls@.len() && #[trigger] self.nulls@[i]@ == value
    }

    /// Whether a sheet with this name is to be read, given that the name and the
    /// patterns are portable.
    pub open spec fn accepts(self, name: Seq<char>) -> bool {
        match self.sheet_name_patterns {
            None => true,
            Some(patterns) => exists|i: int|
                0 <= i < patterns@.len() && is_glob(#[trigger] patterns@[i]@) && glob_match(
                    patterns@[i]@,
                    name,
                ),
        }
    }

    /// Whether the answer for this name is the same on all platforms.
    pub open spec fn decides(self, name: Seq<char>) -> bool {
        match self.sheet_name_patterns {
            None => true,
            Some(patterns) => is_portable(name) && forall|i: int|
                0 <= i < patterns@.len() ==> is_portable(#[trigger] patterns@[i]@),
        }
    }

    /// Decides whether a sheet with this name is to be read. What holds of names
    /// and patterns with backslashes depends on the platform.
    pub fn accept(&self, name: &str) -> (res: bool)
        ensures
            self.decides(name@) ==> res == self.accepts(name@),
    {
        match &self.sheet_name_patterns {
            None => true,
            Some(patterns) => {
                let mut i: usize = 0;
                while i < patterns.len()
                    invariant
                        i <= patterns@.len(),
                        self.sheet_name_patterns == Some(*patterns),
                        self.decides(name@) ==> forall|j: int|
                            0 <= j < i ==> !(is_glob(#[trigger] patterns@[j]@) && glob_match(
                                patterns@[j]@,
                                name@,
                            )),
                    decreases patterns@.len() - i,
                {
                    proof {
                        assert(self.sheet_name_patterns->Some_0@[i as int]@ == patterns@[i as int]@);
                    }
                    let found = match_glob(patterns[i].as_str(), name);
                    if let Some(true) = found {
                        return true;
                    }
                    i = i + 1;
                }
                false
            },
        }
    }

    /// Decides whether the value counts as no value.
    pub fn contains_null(&self, value: &str) -> (res: bool)
        ensures
            res == self.is_null(value@),
    {
        let mut i: usize = 0;
        while i < self.nulls.len()
            invariant
                i <= self.nulls@.len(),
                forall|j: int| 0 <= j < i ==> (#[trigger] self.nulls@[j])@ != value@,
            decreases self.nulls@.len() - i,
        {
            if same_text(self.nulls[i].as_str(), value) {
                return true;
            }
            i = i + 1;
        }
        false
    }

    /// Whether `count` sheets are as many as may be read.
    pub open spec fn is_full(self, count: int) -> bool {
        self.sheet_limit matches Some(limit) && count >= limit
    }

    /// Decides whether `count` sheets are as many as may be read.
    pub fn limit_reached(&self, count: usize) -> (res: bool)
        ensures
            res == self.is_full(count as int),
    {
        match self.sheet_limit {
            Some(limit) => count >= limit,
            None => false,
        }
    }
}

} // verus!
