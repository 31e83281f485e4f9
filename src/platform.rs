//! Platform conditions: parsing a condition string, and condition sets that
//! grow by union.

use vstd::prelude::*;
use crate::errors::{ExpressionParseError, ExpressionParseErrorKind, PlainStringParseError, TargetSpecError};
use crate::text::{chars_of, starts_with, str_starts_with, str_eq};
use cfg_expr::error::Reason as R;
use crate::errors::ExpressionParseErrorKind as K;

verus! {

#[verifier::external_type_specification]
#[verifier::external_body]
pub struct ExCfgParseError(cfg_expr::ParseError);

/// Whether the `cfg()` expression parser accepts `s`.
pub uninterp spec fn cfg_parses(s: Seq<char>) -> bool;

/// Relies on `cfg_expr::Expression::parse`: whether it accepts a string
/// depends on the string alone.
#[verifier::external_body]
fn cfg_parse(s: &str) -> (r: Result<(), cfg_expr::ParseError>)
    ensures
        (r is Ok) == cfg_parses(s@),
{
    cfg_expr::Expression::parse(s).map(|_| ())
}

/// Relies on the public `span` field of `cfg_expr::ParseError`.
#[verifier::external_body]
fn cfg_error_span(e: &cfg_expr::ParseError) -> (r: (usize, usize)) {
    (e.span.start, e.span.end)
}

/// Relies on `cfg_expr::error::Reason`: one kind of ours for each of its variants.
#[verifier::external_body]
fn cfg_error_kind(e: &cfg_expr::ParseError) -> (r: ExpressionParseErrorKind) {
    match &e.reason {
        R::InvalidNot(n) => K::InvalidNot(*n),
        R::InvalidCharacters => K::InvalidCharacters,
        R::UnclosedParens => K::UnclosedParens,
        R::UnopenedParens => K::UnopenedParens,
        R::UnclosedQuotes => K::UnclosedQuotes,
        R::UnopenedQuotes => K::UnopenedQuotes,
        R::Empty => K::Empty,
        R::Unexpected(x) => K::Unexpected { expected: x.iter().map(|s| s.to_string()).collect() },
        R::InvalidInteger => K::InvalidInteger,
        R::MultipleRootPredicates => K::MultipleRootPredicates,
        R::InvalidHasAtomic => K::InvalidHasAtomic,
        R::UnknownBuiltin => K::UnknownBuiltin,
    }
}

/// A character a plain target string may hold.
pub open spec fn plain_char(c: char) -> bool {
    ('a' <= c && c <= 'z') || ('A' <= c && c <= 'Z') || ('0' <= c && c <= '9') || c == '-'
        || c == '_' || c == '.'
}

/// Whether `s` is a valid platform condition: a `cfg(...)` expression that
/// parses, or a plain string of valid characters (a target triple or name).
pub open spec fn spec_valid(s: Seq<char>) -> bool {
    if starts_with(s, "cfg("@) {
        cfg_parses(s)
    } else {
        forall|i: int| 0 <= i < s.len() ==> plain_char(s[i])
    }
}

/// A parsed platform condition.
#[derive(Debug)]
pub enum TargetSpec {
    /// A `cfg(...)` expression.
    Expression(String),
    /// A target triple or other plain name.
    PlainString(String),
}

impl TargetSpec {
    /// The text of the condition.
    pub open spec fn text(&self) -> Seq<char> {
        match self {
            TargetSpec::Expression(s) => s@,
            TargetSpec::PlainString(s) => s@,
        }
    }
}

fn plain_char_exec(c: char) -> (r: bool)
    ensures
        r == plain_char(c),
{
    ('a' <= c && c <= 'z') || ('A' <= c && c <= 'Z') || ('0' <= c && c <= '9') || c == '-'
        || c == '_' || c == '.'
}

fn utf8_len_exec(c: char) -> (r: usize)
    ensures
        r == crate::errors::utf8_len(c),
{
    let c = c as u32;
    if c < 0x80 {
        1
    } else if c < 0x800 {
        2
    } else if c < 0x10000 {
        3
    } else {
        4
    }
}

/// Parses a platform condition.
pub fn parse_target_spec(s: &str) -> (r: Result<TargetSpec, TargetSpecError>)
    ensures
        (r is Ok) == spec_valid(s@),
        r is Ok ==> r->Ok_0.text() == s@,
        r is Ok ==> (r->Ok_0 is Expression <==> starts_with(s@, "cfg("@)),
        r is Err ==> (r->Err_0 is InvalidExpression <==> starts_with(s@, "cfg("@)),
        r is Err ==> match r->Err_0 {
            TargetSpecError::InvalidExpression(e) => e.input@ == s@,
            TargetSpecError::InvalidTargetSpecString(e) => e.input@ == s@ && exists|i: int|
                0 <= i < s@.len() && s@[i] == e.character && !plain_char(s@[i])
                    && forall|j: int| 0 <= j < i ==> plain_char(#[trigger] s@[j]),
        },
{
    if str_starts_with(s, "cfg(") {
        match cfg_parse(s) {
            Ok(()) => Ok(TargetSpec::Expression(s.to_owned())),
            Err(e) => {
                let (start, end) = cfg_error_span(&e);
                let kind = cfg_error_kind(&e);
                Err(TargetSpecError::InvalidExpression(ExpressionParseError::new(s, start, end, kind)))
            },
        }
    } else {
        let cs = chars_of(s);
        let mut i: usize = 0;
        let mut offset: usize = 0;
        while i < cs.len()
            invariant
                i <= cs@.len(),
                cs@ == s@,
                !starts_with(s@, "cfg("@),
                forall|j: int| 0 <= j < i ==> plain_char(cs@[j]),
            decreases cs.len() - i,
        {
            if !plain_char_exec(cs[i]) {
                assert(!plain_char(s@[i as int]));
                return Err(
                    TargetSpecError::InvalidTargetSpecString(
                        PlainStringParseError { input: s.to_owned(), char_index: offset, character: cs[i] },
                    ),
                );
            }
            offset = offset.saturating_add(utf8_len_exec(cs[i]));
            i = i + 1;
        }
        Ok(TargetSpec::PlainString(s.to_owned()))
    }
}

/// A condition set: always, or any of a set of platform conditions.
pub enum CondView {
    Always,
    Specs(Set<Seq<char>>),
}

/// The union of two condition sets.
pub open spec fn cond_union(a: CondView, b: CondView) -> CondView {
    match (a, b) {
        (CondView::Specs(x), CondView::Specs(y)) => CondView::Specs(x.union(y)),
        _ => CondView::Always,
    }
}

/// What one declaration with platform condition `t` contributes: always where
/// it has none, else that condition.
pub open spec fn contribution(t: Option<Seq<char>>) -> CondView {
    match t {
        None => CondView::Always,
        Some(s) => CondView::Specs(set![s]),
    }
}

/// A set of platform conditions, or "always". It only grows: by union.
#[derive(Debug)]
pub struct PlatformStatus {
    pub always: bool,
    pub specs: Vec<String>,
}

impl View for PlatformStatus {
    type V = CondView;

    open spec fn view(&self) -> CondView {
        if self.always {
            CondView::Always
        } else {
            CondView::Specs(self.specs@.map_values(|s: String| s@).to_set())
        }
    }
}

impl PlatformStatus {
    /// The empty set: never.
    pub fn never() -> (r: Self)
        ensures
            r@ == CondView::Specs(Set::empty()),
    {
        let r = PlatformStatus { always: false, specs: Vec::new() };
        assert(r.specs@.map_values(|s: String| s@).to_set() =~= Set::empty());
        r
    }

    /// Whether `s` is among the conditions.
    fn has(&self, s: &String) -> (r: bool)
        ensures
            r == self.specs@.map_values(|x: String| x@).contains(s@),
    {
        let ghost v = self.specs@.map_values(|x: String| x@);
        let mut i: usize = 0;
        while i < self.specs.len()
            invariant
                i <= self.specs@.len(),
                v == self.specs@.map_values(|x: String| x@),
                forall|j: int| 0 <= j < i ==> v[j] != s@,
            decreases self.specs.len() - i,
        {
            if str_eq(self.specs[i].as_str(), s.as_str()) {
                assert(v[i as int] == s@);
                return true;
            }
            i = i + 1;
        }
        false
    }

    /// Adds the contribution of a declaration with platform condition `spec`.
    pub fn add_spec(&mut self, spec: Option<&String>)
        ensures
            final(self)@ == cond_union(old(self)@, contribution(opt_ref_view(spec))),
    {
        match spec {
            None => {
                self.always = true;
                self.specs = Vec::new();
            },
            Some(s) => {
                let ghost before = self.specs@.map_values(|x: String| x@);
                if !self.always && !self.has(s) {
                    self.specs.push(s.clone());
                    assert(self.specs@.map_values(|x: String| x@) =~= before.push(s@));
                    proof {
                        before.lemma_push_to_set_commute(s@);
                    }
                }
                proof {
                    let v = self.specs@.map_values(|x: String| x@);
                    if !self.always {
                        assert(v.to_set() =~= before.to_set().union(set![s@]));
                    }
                }
            },
        }
    }
}

pub open spec fn opt_ref_view(o: Option<&String>) -> Option<Seq<char>> {
    match o {
        Some(s) => Some(s@),
        None => None,
    }
}

} // verus!
