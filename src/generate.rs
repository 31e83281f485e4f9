//! Options of the fixture generator, and the decisions it takes for each
//! generated output.

use vstd::prelude::*;
use crate::text::chars_of;

verus! {

/// How generated outputs are treated.
#[derive(Clone, Copy, Debug, PartialEq, Eq, Structural)]
pub enum GenerateMode {
    /// Write the outputs that changed.
    Generate,
    /// Report the outputs that changed, and fail if any did.
    Check,
    /// Write every output.
    Force,
}

/// Options shared by the generators.
#[derive(Debug)]
pub struct GenerateOpts {
    /// Execution mode (check, force or generate).
    pub mode: GenerateMode,
    /// Only generate outputs for these fixtures.
    pub fixtures: Vec<String>,
}

/// What to do with one generated output.
#[derive(Clone, Copy, Debug, PartialEq, Eq, Structural)]
pub enum ItemAction {
    /// Print its difference from what is on disk.
    Report,
    /// Write it to disk.
    Write,
    /// Leave it.
    Skip,
}

impl GenerateOpts {
    /// Whether every context is asked to regenerate from scratch.
    pub fn force(&self) -> (r: bool)
        ensures
            r == (self.mode == GenerateMode::Force),
    {
        self.mode == GenerateMode::Force
    }

    /// What to do with an output that did or did not change: in check mode
    /// changed outputs are reported; otherwise changed outputs, or every
    /// output when forced, are written.
    pub fn item_action(&self, is_changed: bool) -> (r: ItemAction)
        ensures
            r == match self.mode {
                GenerateMode::Check => if is_changed { ItemAction::Report } else { ItemAction::Skip },
                GenerateMode::Force => ItemAction::Write,
                GenerateMode::Generate => if is_changed { ItemAction::Write } else { ItemAction::Skip },
            },
    {
        match self.mode {
            GenerateMode::Check => if is_changed {
                ItemAction::Report
            } else {
                ItemAction::Skip
            },
            GenerateMode::Force => ItemAction::Write,
            GenerateMode::Generate => if is_changed {
                ItemAction::Write
            } else {
                ItemAction::Skip
            },
        }
    }

    /// The outcome of a run in which `num_changed` outputs changed: in check
    /// mode any change is an error carrying the count.
    pub fn outcome(&self, num_changed: usize) -> (r: Result<usize, usize>)
        ensures
            r == if self.mode == GenerateMode::Check && num_changed > 0 {
                Err::<usize, usize>(num_changed)
            } else {
                Ok(num_changed)
            },
    {
        if self.mode == GenerateMode::Check && num_changed > 0 {
            Err(num_changed)
        } else {
            Ok(num_changed)
        }
    }
}

/// The value of a string of decimal digits.
pub open spec fn decimal_value(s: Seq<char>) -> nat
    decreases s.len(),
{
    if s.len() == 0 {
        0
    } else {
        decimal_value(s.drop_last()) * 10 + ((s.last() as u32) - ('0' as u32)) as nat
    }
}

pub open spec fn all_digits(s: Seq<char>) -> bool {
    forall|i: int| 0 <= i < s.len() ==> '0' <= s[i] && s[i] <= '9'
}

/// Parses a count written in decimal digits; `None` where the text is empty,
/// holds another character, or does not fit.
pub fn parse_count(s: &str) -> (r: Option<usize>)
    ensures
        match r {
            Some(n) => s@.len() > 0 && all_digits(s@) && n == decimal_value(s@),
            None => s@.len() == 0 || !all_digits(s@) || decimal_value(s@) > usize::MAX,
        },
{
    let cs = chars_of(s);
    if cs.len() == 0 {
        return None;
    }
    let mut v: usize = 0;
    let mut i: usize = 0;
    while i < cs.len()
        invariant
            i <= cs@.len(),
            cs@ == s@,
            all_digits(cs@.subrange(0, i as int)),
            v == decimal_value(cs@.subrange(0, i as int)),
        decreases cs.len() - i,
    {
        let c = cs[i];
        let ghost pre = cs@.subrange(0, i + 1);
        assert(pre.drop_last() =~= cs@.subrange(0, i as int));
        if !('0' <= c && c <= '9') {
            assert(!all_digits(s@)) by {
                assert(!('0' <= s@[i as int] && s@[i as int] <= '9'));
            }
            return None;
        }
        let d = (c as u32 - '0' as u32) as usize;
        if v > (usize::MAX - d) / 10 {
            proof {
                assert(decimal_value(pre) == v * 10 + d);
                assert(v * 10 + d > usize::MAX) by (nonlinear_arith)
                    requires v > (usize::MAX - d) / 10, d <= 9;
                lemma_decimal_prefix_le(s@, i as int + 1);
            }
            return None;
        }
        assert(v * 10 + d <= usize::MAX) by (nonlinear_arith)
            requires v <= (usize::MAX - d) / 10, d <= 9;
        v = v * 10 + d;
        i = i + 1;
    }
    assert(cs@.subrange(0, cs@.len() as int) =~= cs@);
    Some(v)
}

/// A digit string's value is at least that of each of its prefixes.
pub proof fn lemma_decimal_prefix_le(s: Seq<char>, n: int)
    requires
        0 <= n <= s.len(),
        all_digits(s.subrange(0, n)),
    ensures
        all_digits(s) ==> decimal_value(s) >= decimal_value(s.subrange(0, n)),
    decreases s.len() - n,
{
    if n < s.len() && all_digits(s) {
        let next = s.subrange(0, n + 1);
        assert(next.drop_last() =~= s.subrange(0, n));
        lemma_decimal_prefix_le(s, n + 1);
    } else if n == s.len() {
        assert(s.subrange(0, n) =~= s);
    }
}

/// Options of the summary generator.
#[derive(Debug)]
pub struct GenerateSummariesOpts {
    /// Number of summaries to generate.
    pub count: usize,
    pub generate_opts: GenerateOpts,
}

impl GenerateSummariesOpts {
    /// The default number of summaries.
    pub fn default_count() -> (r: usize)
        ensures
            r == 8,
    {
        let text = "8";
        proof {
            reveal_strlit("8");
            assert(text@ =~= seq!['8']);
            assert(text@.drop_last() =~= Seq::<char>::empty());
            reveal_with_fuel(decimal_value, 2);
            assert(decimal_value(text@) == 8);
        }
        match parse_count(text) {
            Some(n) => n,
            None => 8,
        }
    }
}

/// Options of the workspace-hack generator.
#[derive(Debug)]
pub struct GenerateHakariOpts {
    /// Number of options to generate.
    pub count: usize,
    pub generate_opts: GenerateOpts,
}

impl GenerateHakariOpts {
    /// The default number of generated options.
    pub fn default_count() -> (r: usize)
        ensures
            r == 4,
    {
        let text = "4";
        proof {
            reveal_strlit("4");
            assert(text@ =~= seq!['4']);
            assert(text@.drop_last() =~= Seq::<char>::empty());
            reveal_with_fuel(decimal_value, 2);
            assert(decimal_value(text@) == 4);
        }
        match parse_count(text) {
            Some(n) => n,
            None => 4,
        }
    }
}

} // verus!
