//! Relative paths between absolute paths, independent of the host's path
//! conventions: POSIX paths, Windows drive letters, UNC shares and the
//! extended-length (`\\?\`) and device (`\\.\`) forms.

use vstd::prelude::*;
use crate::text::{chars_of, string_of, replace_char, replace_char_exec, views_of};

verus! {

/// A Windows path prefix. Drive letters are held upper-cased, so that they
/// compare case-insensitively; server and share names compare exactly.
pub enum PrefixView {
    Disk(u32),
    VerbatimDisk(u32),
    Unc(Seq<char>, Seq<char>),
    VerbatimUnc(Seq<char>, Seq<char>),
    Verbatim(Seq<char>),
    DeviceNs(Seq<char>),
}

/// A parsed Windows path prefix.
#[derive(Debug)]
pub enum WindowsPrefix {
    /// `C:`
    Disk(u32),
    /// `\\?\C:`
    VerbatimDisk(u32),
    /// `\\server\share`
    Unc(Vec<char>, Vec<char>),
    /// `\\?\UNC\server\share`
    VerbatimUnc(Vec<char>, Vec<char>),
    /// `\\?\name`
    Verbatim(Vec<char>),
    /// `\\.\device`
    DeviceNs(Vec<char>),
}

impl View for WindowsPrefix {
    type V = PrefixView;

    open spec fn view(&self) -> PrefixView {
        match self {
            WindowsPrefix::Disk(c) => PrefixView::Disk(*c),
            WindowsPrefix::VerbatimDisk(c) => PrefixView::VerbatimDisk(*c),
            WindowsPrefix::Unc(a, b) => PrefixView::Unc(a@, b@),
            WindowsPrefix::VerbatimUnc(a, b) => PrefixView::VerbatimUnc(a@, b@),
            WindowsPrefix::Verbatim(a) => PrefixView::Verbatim(a@),
            WindowsPrefix::DeviceNs(a) => PrefixView::DeviceNs(a@),
        }
    }
}

/// A path separator: `\` always, `/` outside verbatim prefixes.
pub open spec fn is_sep_in(c: char, verbatim: bool) -> bool {
    c == '\\' || (!verbatim && c == '/')
}

/// A path separator in a path's body: `\` or `/`.
pub open spec fn is_sep(c: char) -> bool {
    c == '\\' || c == '/'
}

/// The index of the first separator at or after `i`, or the length of `s`.
pub open spec fn next_sep(s: Seq<char>, i: int, verbatim: bool) -> int
    decreases s.len() - i,
{
    if i >= s.len() {
        s.len() as int
    } else if is_sep_in(s[i], verbatim) {
        i
    } else {
        next_sep(s, i + 1, verbatim)
    }
}

pub open spec fn is_ascii_alpha(c: char) -> bool {
    ('a' <= c && c <= 'z') || ('A' <= c && c <= 'Z')
}

/// The code of an ASCII letter, upper-cased.
pub open spec fn upper_code(c: char) -> u32 {
    if 'a' <= c && c <= 'z' {
        (c as u32 - 32) as u32
    } else {
        c as u32
    }
}

/// The Windows prefix at the start of `s` and the index where it ends, or
/// `None` where `s` does not start with one.
pub open spec fn win_prefix(s: Seq<char>) -> Option<(PrefixView, int)> {
    if s.len() >= 2 && s[0] == '\\' && s[1] == '\\' {
        if s.len() >= 4 && s[2] == '?' && s[3] == '\\' {
            if s.len() >= 8 && s[4] == 'U' && s[5] == 'N' && s[6] == 'C' && s[7] == '\\' {
                let a = next_sep(s, 8, true);
                if a >= s.len() {
                    Some((PrefixView::VerbatimUnc(s.subrange(8, a), Seq::empty()), a))
                } else {
                    let b = next_sep(s, a + 1, true);
                    Some((PrefixView::VerbatimUnc(s.subrange(8, a), s.subrange(a + 1, b)), b))
                }
            } else {
                let a = next_sep(s, 4, true);
                if a == 6 && is_ascii_alpha(s[4]) && s[5] == ':' {
                    Some((PrefixView::VerbatimDisk(upper_code(s[4])), a))
                } else {
                    Some((PrefixView::Verbatim(s.subrange(4, a)), a))
                }
            }
        } else if s.len() >= 4 && s[2] == '.' && s[3] == '\\' {
            let a = next_sep(s, 4, false);
            Some((PrefixView::DeviceNs(s.subrange(4, a)), a))
        } else {
            let a = next_sep(s, 2, false);
            if a >= s.len() {
                None
            } else {
                let b = next_sep(s, a + 1, false);
                if a > 2 && b > a + 1 {
                    Some((PrefixView::Unc(s.subrange(2, a), s.subrange(a + 1, b)), b))
                } else {
                    None
                }
            }
        }
    } else if s.len() >= 2 && is_ascii_alpha(s[0]) && s[1] == ':' {
        Some((PrefixView::Disk(upper_code(s[0])), 2))
    } else {
        None
    }
}

/// Splitting state after reading `s`: the finished components and the one
/// being read.
pub open spec fn split_state(s: Seq<char>) -> (Seq<Seq<char>>, Seq<char>)
    decreases s.len(),
{
    if s.len() == 0 {
        (Seq::empty(), Seq::empty())
    } else {
        let (done, cur) = split_state(s.drop_last());
        let c = s.last();
        if is_sep(c) {
            if cur.len() == 0 {
                (done, cur)
            } else {
                (done.push(cur), Seq::empty())
            }
        } else {
            (done, cur.push(c))
        }
    }
}

/// The non-empty runs of `s` between separators (`\` or `/`).
pub open spec fn components(s: Seq<char>) -> Seq<Seq<char>> {
    let (done, cur) = split_state(s);
    if cur.len() == 0 {
        done
    } else {
        done.push(cur)
    }
}

/// The components of a Windows path after its prefix.
pub open spec fn win_components(s: Seq<char>) -> Seq<Seq<char>> {
    match win_prefix(s) {
        Some((_, end)) => components(s.subrange(end, s.len() as int)),
        None => Seq::empty(),
    }
}

/// The length of the longest common leading run of `a` and `b`, from `i`.
pub open spec fn common_from(a: Seq<Seq<char>>, b: Seq<Seq<char>>, i: int) -> int
    decreases a.len() - i,
{
    if 0 <= i < a.len() && i < b.len() && a[i] == b[i] {
        common_from(a, b, i + 1)
    } else {
        i
    }
}

pub open spec fn dotdot() -> Seq<char> {
    seq!['.', '.']
}

/// The components of the relative path from `base` to `target`: one `..` per
/// base component past the common part, then the rest of `target`.
pub open spec fn rel_components(target: Seq<Seq<char>>, base: Seq<Seq<char>>) -> Seq<Seq<char>> {
    let k = common_from(target, base, 0);
    Seq::new((base.len() - k) as nat, |i: int| dotdot()) + target.subrange(k, target.len() as int)
}

/// Components joined with `/`.
pub open spec fn join_slash(cs: Seq<Seq<char>>) -> Seq<char>
    decreases cs.len(),
{
    if cs.len() == 0 {
        Seq::empty()
    } else if cs.len() == 1 {
        cs[0]
    } else {
        join_slash(cs.drop_last()) + seq!['/'] + cs.last()
    }
}

/// Components joined with `/`, or `.` where there are none.
pub open spec fn render(cs: Seq<Seq<char>>) -> Seq<char> {
    if cs.len() == 0 {
        seq!['.']
    } else {
        join_slash(cs)
    }
}

/// What the relative-path computation of a POSIX path pair returns.
pub uninterp spec fn posix_diff(path: Seq<char>, base: Seq<char>) -> Option<Seq<char>>;

/// The relative path from `base` to `path`, or `None` where the two are unrelated.
pub open spec fn relative_path(path: Seq<char>, base: Seq<char>) -> Option<Seq<char>> {
    match (win_prefix(path), win_prefix(base)) {
        (Some((pp, pe)), Some((bp, be))) => if pp == bp {
            Some(
                render(
                    rel_components(
                        components(path.subrange(pe, path.len() as int)),
                        components(base.subrange(be, base.len() as int)),
                    ),
                ),
            )
        } else {
            None
        },
        (None, None) => match posix_diff(path, base) {
            Some(d) => Some(replace_char(d, '\\', '/')),
            None => None,
        },
        _ => None,
    }
}

/// Relies on `pathdiff::diff_utf8_paths`: the relative path from `base` to
/// `path`, a function of the two paths alone.
#[verifier::external_body]
fn diff_utf8_paths(path: &str, base: &str) -> (r: Option<String>)
    ensures
        match r {
            Some(d) => posix_diff(path@, base@) == Some(d@),
            None => posix_diff(path@, base@) is None,
        },
{
    pathdiff::diff_utf8_paths(path, base).map(|p| p.into_string())
}

fn next_sep_exec(cs: &Vec<char>, i: usize, verbatim: bool) -> (r: usize)
    requires
        i <= cs@.len(),
    ensures
        r as int == next_sep(cs@, i as int, verbatim),
        i <= r <= cs@.len(),
{
    let mut j = i;
    while j < cs.len()
        invariant
            i <= j <= cs@.len(),
            next_sep(cs@, i as int, verbatim) == next_sep(cs@, j as int, verbatim),
        decreases cs.len() - j,
    {
        if cs[j] == '\\' || (!verbatim && cs[j] == '/') {
            return j;
        }
        j = j + 1;
    }
    j
}

fn sub_chars(cs: &Vec<char>, s: usize, e: usize) -> (r: Vec<char>)
    requires
        s <= e <= cs@.len(),
    ensures
        r@ == cs@.subrange(s as int, e as int),
{
    let mut out: Vec<char> = Vec::new();
    let mut i = s;
    while i < e
        invariant
            s <= i <= e <= cs@.len(),
            out@ == cs@.subrange(s as int, i as int),
        decreases e - i,
    {
        out.push(cs[i]);
        i = i + 1;
        assert(out@ =~= cs@.subrange(s as int, i as int));
    }
    out
}

fn is_ascii_alpha_exec(c: char) -> (r: bool)
    ensures
        r == is_ascii_alpha(c),
{
    ('a' <= c && c <= 'z') || ('A' <= c && c <= 'Z')
}

fn upper_code_exec(c: char) -> (r: u32)
    ensures
        r == upper_code(c),
{
    if 'a' <= c && c <= 'z' {
        c as u32 - 32
    } else {
        c as u32
    }
}

/// Parses the Windows prefix at the start of `cs`, with the index where it ends.
pub fn parse_windows_prefix(cs: &Vec<char>) -> (r: Option<(WindowsPrefix, usize)>)
    ensures
        match r {
            Some((p, e)) => win_prefix(cs@) == Some((p@, e as int)) && e <= cs@.len(),
            None => win_prefix(cs@) is None,
        },
{
    let n = cs.len();
    if n >= 2 && cs[0] == '\\' && cs[1] == '\\' {
        if n >= 4 && cs[2] == '?' && cs[3] == '\\' {
            if n >= 8 && cs[4] == 'U' && cs[5] == 'N' && cs[6] == 'C' && cs[7] == '\\' {
                let a = next_sep_exec(cs, 8, true);
                if a >= n {
                    Some((WindowsPrefix::VerbatimUnc(sub_chars(cs, 8, a), Vec::new()), a))
                } else {
                    let b = next_sep_exec(cs, a + 1, true);
                    Some((WindowsPrefix::VerbatimUnc(sub_chars(cs, 8, a), sub_chars(cs, a + 1, b)), b))
                }
            } else {
                let a = next_sep_exec(cs, 4, true);
                if a == 6 && is_ascii_alpha_exec(cs[4]) && cs[5] == ':' {
                    Some((WindowsPrefix::VerbatimDisk(upper_code_exec(cs[4])), a))
                } else {
                    Some((WindowsPrefix::Verbatim(sub_chars(cs, 4, a)), a))
                }
            }
        } else if n >= 4 && cs[2] == '.' && cs[3] == '\\' {
            let a = next_sep_exec(cs, 4, false);
            Some((WindowsPrefix::DeviceNs(sub_chars(cs, 4, a)), a))
        } else {
            let a = next_sep_exec(cs, 2, false);
            if a >= n {
                None
            } else {
                let b = next_sep_exec(cs, a + 1, false);
                if a > 2 && b > a + 1 {
                    Some((WindowsPrefix::Unc(sub_chars(cs, 2, a), sub_chars(cs, a + 1, b)), b))
                } else {
                    None
                }
            }
        }
    } else if n >= 2 && is_ascii_alpha_exec(cs[0]) && cs[1] == ':' {
        Some((WindowsPrefix::Disk(upper_code_exec(cs[0])), 2))
    } else {
        None
    }
}

fn chars_eq(a: &Vec<char>, b: &Vec<char>) -> (r: bool)
    ensures
        r == (a@ == b@),
{
    if a.len() != b.len() {
        return false;
    }
    let mut i: usize = 0;
    while i < a.len()
        invariant
            i <= a.len() == b.len(),
            forall|j: int| 0 <= j < i ==> a@[j] == b@[j],
        decreases a.len() - i,
    {
        if a[i] != b[i] {
            return false;
        }
        i = i + 1;
    }
    assert(a@ =~= b@);
    true
}

/// Whether two prefixes denote the same root.
pub fn prefix_eq(a: &WindowsPrefix, b: &WindowsPrefix) -> (r: bool)
    ensures
        r == (a@ == b@),
{
    match (a, b) {
        (WindowsPrefix::Disk(x), WindowsPrefix::Disk(y)) => *x == *y,
        (WindowsPrefix::VerbatimDisk(x), WindowsPrefix::VerbatimDisk(y)) => *x == *y,
        (WindowsPrefix::Unc(x1, x2), WindowsPrefix::Unc(y1, y2)) => chars_eq(x1, y1) && chars_eq(x2, y2),
        (WindowsPrefix::VerbatimUnc(x1, x2), WindowsPrefix::VerbatimUnc(y1, y2)) => chars_eq(x1, y1)
            && chars_eq(x2, y2),
        (WindowsPrefix::Verbatim(x), WindowsPrefix::Verbatim(y)) => chars_eq(x, y),
        (WindowsPrefix::DeviceNs(x), WindowsPrefix::DeviceNs(y)) => chars_eq(x, y),
        _ => false,
    }
}

pub open spec fn views(v: Seq<Vec<char>>) -> Seq<Seq<char>> {
    v.map_values(|c: Vec<char>| c@)
}

/// The components of `cs` from index `start` on.
pub fn split_components(cs: &Vec<char>, start: usize) -> (r: Vec<Vec<char>>)
    requires
        start <= cs@.len(),
    ensures
        views(r@) == components(cs@.subrange(start as int, cs@.len() as int)),
{
    let mut done: Vec<Vec<char>> = Vec::new();
    let mut cur: Vec<char> = Vec::new();
    let mut i = start;
    while i < cs.len()
        invariant
            start <= i <= cs@.len(),
            (views(done@), cur@) == split_state(cs@.subrange(start as int, i as int)),
        decreases cs.len() - i,
    {
        let c = cs[i];
        proof {
            let s = cs@.subrange(start as int, i + 1);
            assert(s.drop_last() =~= cs@.subrange(start as int, i as int));
            assert(s.last() == c);
        }
        if c == '\\' || c == '/' {
            if cur.len() > 0 {
                let ghost before = done@;
                let finished = cur;
                cur = Vec::new();
                done.push(finished);
                assert(views(done@) =~= views(before).push(finished@));
            }
        } else {
            cur.push(c);
        }
        i = i + 1;
    }
    assert(cs@.subrange(start as int, i as int) =~= cs@.subrange(start as int, cs@.len() as int));
    if cur.len() > 0 {
        let ghost before = done@;
        let last = cur;
        done.push(last);
        assert(views(done@) =~= views(before).push(last@));
    }
    proof {
        assert(views(done@) =~= components(cs@.subrange(start as int, cs@.len() as int)));
    }
    done
}


/// The components of `cs`, joined with `/`; `.` where there are none.
fn render_exec(cs: &Vec<Vec<char>>) -> (r: Vec<char>)
    ensures
        r@ == render(views(cs@)),
{
    if cs.len() == 0 {
        let mut dot: Vec<char> = Vec::new();
        dot.push('.');
        assert(dot@ =~= seq!['.']);
        return dot;
    }
    let mut out: Vec<char> = Vec::new();
    let mut i: usize = 0;
    while i < cs.len()
        invariant
            i <= cs@.len(),
            cs@.len() > 0,
            out@ == join_slash(views(cs@).subrange(0, i as int)),
        decreases cs.len() - i,
    {
        let ghost before = out@;
        if i > 0 {
            out.push('/');
        }
        let c = &cs[i];
        let mut j: usize = 0;
        let ghost mid = out@;
        while j < c.len()
            invariant
                j <= c@.len(),
                out@ == mid + c@.subrange(0, j as int),
            decreases c.len() - j,
        {
            out.push(c[j]);
            j = j + 1;
            assert(out@ =~= mid + c@.subrange(0, j as int));
        }
        proof {
            let vs = views(cs@).subrange(0, i + 1);
            assert(vs.drop_last() =~= views(cs@).subrange(0, i as int));
            assert(c@.subrange(0, j as int) =~= c@);
            assert(vs.last() == c@);
            if i == 0 {
                assert(out@ =~= join_slash(vs));
            } else {
                assert(mid == before + seq!['/']);
                assert(out@ =~= join_slash(vs));
            }
        }
        i = i + 1;
    }
    assert(views(cs@).subrange(0, cs@.len() as int) =~= views(cs@));
    out
}

/// The relative path from the components `base` to the components `target`.
fn rel_components_exec(target: &Vec<Vec<char>>, base: &Vec<Vec<char>>) -> (r: Vec<Vec<char>>)
    ensures
        views(r@) == rel_components(views(target@), views(base@)),
{
    let ghost t = views(target@);
    let ghost b = views(base@);
    let mut k: usize = 0;
    while k < target.len() && k < base.len()
        invariant
            k <= target@.len(),
            k <= base@.len(),
            t == views(target@),
            b == views(base@),
            common_from(t, b, 0) == common_from(t, b, k as int),
        ensures
            common_from(t, b, 0) == k,
            k <= target@.len(),
            k <= base@.len(),
        decreases target.len() - k,
    {
        if !chars_eq(&target[k], &base[k]) {
            break;
        }
        assert(t[k as int] == b[k as int]);
        k = k + 1;
    }
    let mut out: Vec<Vec<char>> = Vec::new();
    let mut i = k;
    while i < base.len()
        invariant
            k <= i <= base@.len(),
            k <= target@.len(),
            views(out@) =~= Seq::new((i - k) as nat, |j: int| dotdot()),
        decreases base.len() - i,
    {
        let mut dd: Vec<char> = Vec::new();
        dd.push('.');
        dd.push('.');
        assert(dd@ =~= dotdot());
        let ghost before = out@;
        out.push(dd);
        assert(views(out@) =~= views(before).push(dotdot()));
        i = i + 1;
    }
    let ghost dots = views(out@);
    let mut j = k;
    while j < target.len()
        invariant
            k <= j <= target@.len(),
            k <= base@.len(),
            t == views(target@),
            views(out@) =~= dots + t.subrange(k as int, j as int),
        decreases target.len() - j,
    {
        let ghost before = out@;
        let c = sub_chars(&target[j], 0, target[j].len());
        assert(c@ =~= t[j as int]);
        out.push(c);
        assert(views(out@) =~= views(before).push(t[j as int]));
        j = j + 1;
    }
    proof {
        assert(dots =~= Seq::new((b.len() - k) as nat, |j: int| dotdot()));
    }
    out
}

/// The relative path from `base` to `path`, or `None` where no relative path
/// relates them: differing drive letters or UNC server/share, or one Windows
/// path and one that is not.
pub fn resolve_relative_path(path: &str, base: &str) -> (r: Option<String>)
    ensures
        match r {
            Some(s) => relative_path(path@, base@) == Some(s@),
            None => relative_path(path@, base@) is None,
        },
{
    let pc = chars_of(path);
    let bc = chars_of(base);
    match (parse_windows_prefix(&pc), parse_windows_prefix(&bc)) {
        (Some((pp, pe)), Some((bp, be))) => {
            if prefix_eq(&pp, &bp) {
                let tcomps = split_components(&pc, pe);
                let bcomps = split_components(&bc, be);
                let rel = rel_components_exec(&tcomps, &bcomps);
                let out = render_exec(&rel);
                Some(string_of(&out))
            } else {
                None
            }
        },
        (None, None) => match diff_utf8_paths(path, base) {
            Some(d) => Some(replace_char_exec(d.as_str(), '\\', '/')),
            None => None,
        },
        _ => None,
    }
}


/// The components of a path, as `camino` splits it.
pub uninterp spec fn path_components(p: Seq<char>) -> Seq<Seq<char>>;

/// A path with one component pushed onto it, as `camino` joins them.
pub uninterp spec fn path_push(base: Seq<char>, c: Seq<char>) -> Seq<char>;

/// A path with its leading `base` taken off, as `camino` does it.
pub uninterp spec fn path_strip_prefix(p: Seq<char>, base: Seq<char>) -> Option<Seq<char>>;

/// The parent of a path, as `camino` finds it.
pub uninterp spec fn path_parent(p: Seq<char>) -> Option<Seq<char>>;

/// Relies on `camino::Utf8Path::components`: a path's components depend on
/// its text alone.
#[verifier::external_body]
fn components_of(p: &str) -> (r: Vec<String>)
    ensures
        views_of(r@) == path_components(p@),
{
    camino::Utf8Path::new(p).components().map(|c| c.as_str().to_owned()).collect()
}

/// Relies on `camino::Utf8PathBuf::push`: the joined path depends on the two
/// texts alone.
#[verifier::external_body]
fn push_component(base: &mut String, c: &str)
    ensures
        final(base)@ == path_push(old(base)@, c@),
{
    let mut buf = camino::Utf8PathBuf::from(base.as_str());
    buf.push(c);
    *base = buf.into_string();
}

/// Relies on `camino::Utf8Path::strip_prefix`: whether and how `base` comes
/// off `p` depends on the two texts alone.
#[verifier::external_body]
pub(crate) fn strip_prefix(p: &str, base: &str) -> (r: Option<String>)
    ensures
        match r {
            Some(s) => path_strip_prefix(p@, base@) == Some(s@),
            None => path_strip_prefix(p@, base@) is None,
        },
{
    camino::Utf8Path::new(p).strip_prefix(base).ok().map(|s| s.as_str().to_owned())
}

/// Relies on `camino::Utf8Path::parent`: a path's parent depends on its text alone.
#[verifier::external_body]
pub(crate) fn parent(p: &str) -> (r: Option<String>)
    ensures
        match r {
            Some(s) => path_parent(p@) == Some(s@),
            None => path_parent(p@) is None,
        },
{
    camino::Utf8Path::new(p).parent().map(|s| s.as_str().to_owned())
}

/// The components pushed to go from the components `fc` to the components
/// `tc`: at the first difference, one `..` for each remaining component of
/// `fc`, then the rest of `tc`. Where `fc` runs out first, the component of
/// `tc` read together with its end is skipped; where `tc` does, nothing is pushed.
pub open spec fn find_relative_components(fc: Seq<Seq<char>>, tc: Seq<Seq<char>>) -> Seq<Seq<char>> {
    let k = common_from(fc, tc, 0);
    if k < fc.len() && k < tc.len() {
        Seq::new((fc.len() - k) as nat, |i: int| dotdot()) + tc.subrange(k, tc.len() as int)
    } else if k == fc.len() && k < tc.len() {
        tc.subrange(k + 1, tc.len() as int)
    } else {
        Seq::empty()
    }
}

/// The path made by pushing `cs` in order onto an empty path.
pub open spec fn push_all(cs: Seq<Seq<char>>) -> Seq<char>
    decreases cs.len(),
{
    if cs.len() == 0 {
        Seq::empty()
    } else {
        path_push(push_all(cs.drop_last()), cs.last())
    }
}

/// A best-effort relative path from `from` to `to`, component by component.
pub fn find_relative_path_utf8(from: &str, to: &str) -> (r: String)
    ensures
        r@ == push_all(find_relative_components(path_components(from@), path_components(to@))),
{
    let fc = components_of(from);
    let tc = components_of(to);
    let ghost f = views_of(fc@);
    let ghost t = views_of(tc@);
    let mut k: usize = 0;
    while k < fc.len() && k < tc.len()
        invariant
            k <= fc@.len(),
            k <= tc@.len(),
            f == views_of(fc@),
            t == views_of(tc@),
            common_from(f, t, 0) == common_from(f, t, k as int),
        ensures
            common_from(f, t, 0) == k,
            k <= fc@.len(),
            k <= tc@.len(),
        decreases fc.len() - k,
    {
        if !crate::text::str_eq(fc[k].as_str(), tc[k].as_str()) {
            break;
        }
        assert(f[k as int] == t[k as int]);
        k = k + 1;
    }
    let mut list: Vec<String> = Vec::new();
    if k < fc.len() && k < tc.len() {
        let mut i = k;
        while i < fc.len()
            invariant
                k <= i <= fc@.len(),
                views_of(list@) =~= Seq::new((i - k) as nat, |j: int| dotdot()),
            decreases fc.len() - i,
        {
            let ghost b = list@;
            let dd = string_of(&vec!['.', '.']);
            assert(dd@ =~= dotdot());
            list.push(dd);
            assert(views_of(list@) =~= views_of(b).push(dotdot()));
            i = i + 1;
        }
        let ghost dots = views_of(list@);
        let mut j = k;
        while j < tc.len()
            invariant
                k <= j <= tc@.len(),
                t == views_of(tc@),
                views_of(list@) =~= dots + t.subrange(k as int, j as int),
            decreases tc.len() - j,
        {
            let ghost b = list@;
            list.push(tc[j].clone());
            assert(views_of(list@) =~= views_of(b).push(t[j as int]));
            j = j + 1;
        }
    } else if k == fc.len() && k < tc.len() {
        let mut j = k + 1;
        while j < tc.len()
            invariant
                k + 1 <= j <= tc@.len(),
                t == views_of(tc@),
                views_of(list@) =~= t.subrange(k + 1, j as int),
            decreases tc.len() - j,
        {
            let ghost b = list@;
            list.push(tc[j].clone());
            assert(views_of(list@) =~= views_of(b).push(t[j as int]));
            j = j + 1;
        }
    }
    let ghost want = views_of(list@);
    assert(want == find_relative_components(f, t));
    let mut out = String::new();
    let mut i: usize = 0;
    while i < list.len()
        invariant
            i <= list@.len(),
            want == views_of(list@),
            out@ == push_all(want.subrange(0, i as int)),
        decreases list.len() - i,
    {
        let ghost pre = want.subrange(0, i + 1);
        assert(pre.drop_last() =~= want.subrange(0, i as int));
        push_component(&mut out, list[i].as_str());
        i = i + 1;
    }
    assert(want.subrange(0, want.len() as int) =~= want);
    out
}

/// A relative path with its backslashes turned into forward slashes.
pub fn convert_forward_slashes(rel_path: &str) -> (r: String)
    ensures
        r@ == replace_char(rel_path@, '\\', '/'),
{
    replace_char_exec(rel_path, '\\', '/')
}

/// A path after following the components `rel` from the components `base`:
/// `..` goes up a level, `.` stays, anything else goes down into it.
pub open spec fn follow(base: Seq<Seq<char>>, rel: Seq<Seq<char>>) -> Seq<Seq<char>>
    decreases rel.len(),
{
    if rel.len() == 0 {
        base
    } else {
        let c = rel[0];
        let next = if c == dotdot() {
            if base.len() > 0 {
                base.drop_last()
            } else {
                base
            }
        } else if c == seq!['.'] {
            base
        } else {
            base.push(c)
        };
        follow(next, rel.drop_first())
    }
}

/// Components with no separator in them, none empty.
pub open spec fn plain_components(cs: Seq<Seq<char>>) -> bool {
    forall|i: int| 0 <= i < cs.len() ==> cs[i].len() > 0 && forall|j: int| 0 <= j < cs[i].len() ==> !is_sep(#[trigger] cs[i][j])
}

proof fn lemma_split_state_plain(s: Seq<char>)
    ensures
        plain_components(split_state(s).0),
        forall|j: int| 0 <= j < split_state(s).1.len() ==> !is_sep(#[trigger] split_state(s).1[j]),
    decreases s.len(),
{
    if s.len() > 0 {
        lemma_split_state_plain(s.drop_last());
        let (d, c) = split_state(s.drop_last());
        let ch = s.last();
        if !is_sep(ch) {
            assert forall|j: int| 0 <= j < c.push(ch).len() implies !is_sep(#[trigger] c.push(ch)[j]) by {
                if j < c.len() {
                    assert(c.push(ch)[j] == c[j]);
                }
            }
        } else if c.len() > 0 {
            assert forall|i: int| 0 <= i < d.push(c).len() implies d.push(c)[i].len() > 0 && forall|j: int|
                0 <= j < d.push(c)[i].len() ==> !is_sep(#[trigger] d.push(c)[i][j]) by {
                if i < d.len() {
                    assert(d.push(c)[i] == d[i]);
                }
            }
        }
    }
}

/// Components never hold a separator, and none is empty.
pub proof fn lemma_components_plain(s: Seq<char>)
    ensures
        plain_components(components(s)),
{
    lemma_split_state_plain(s);
    let (d, c) = split_state(s);
    if c.len() > 0 {
        assert forall|i: int| 0 <= i < d.push(c).len() implies d.push(c)[i].len() > 0 && forall|j: int|
            0 <= j < d.push(c)[i].len() ==> !is_sep(#[trigger] d.push(c)[i][j]) by {
            if i < d.len() {
                assert(d.push(c)[i] == d[i]);
            }
        }
    }
}

proof fn lemma_split_state_append(s: Seq<char>, t: Seq<char>)
    requires
        forall|j: int| 0 <= j < t.len() ==> !is_sep(#[trigger] t[j]),
    ensures
        split_state(s + t) == (split_state(s).0, split_state(s).1 + t),
    decreases t.len(),
{
    if t.len() == 0 {
        assert(s + t =~= s);
        assert(split_state(s).1 + t =~= split_state(s).1);
    } else {
        let t0 = t.drop_last();
        lemma_split_state_append(s, t0);
        assert((s + t).drop_last() =~= s + t0);
        assert((s + t).last() == t.last());
        assert(split_state(s).1 + t0 + seq![t.last()] =~= split_state(s).1 + t);
        assert((split_state(s).1 + t0).push(t.last()) =~= split_state(s).1 + t);
    }
}

/// Splitting components joined with `/` gives them back.
proof fn lemma_components_join(cs: Seq<Seq<char>>)
    requires
        cs.len() > 0,
        plain_components(cs),
    ensures
        split_state(join_slash(cs)) == (cs.drop_last(), cs.last()),
        components(join_slash(cs)) == cs,
    decreases cs.len(),
{
    if cs.len() == 1 {
        lemma_split_state_append(Seq::empty(), cs[0]);
        assert(Seq::<char>::empty() + cs[0] =~= cs[0]);
        assert(cs.drop_last() =~= Seq::<Seq<char>>::empty());
        assert(split_state(Seq::<char>::empty()).1 + cs[0] =~= cs[0]);
        assert(seq![cs[0]] =~= cs);
        assert(Seq::<Seq<char>>::empty().push(cs[0]) =~= cs);
    } else {
        let init = cs.drop_last();
        assert forall|i: int| 0 <= i < init.len() implies init[i].len() > 0 && forall|j: int|
            0 <= j < init[i].len() ==> !is_sep(#[trigger] init[i][j]) by {
            assert(init[i] == cs[i]);
        }
        lemma_components_join(init);
        let js = join_slash(init);
        let with_sep = js + seq!['/'];
        assert(with_sep.drop_last() =~= js);
        assert(with_sep.last() == '/');
        assert(split_state(with_sep) == (init.drop_last().push(init.last()), Seq::<char>::empty()));
        assert(init.drop_last().push(init.last()) =~= init);
        assert forall|j: int| 0 <= j < cs.last().len() implies !is_sep(#[trigger] cs.last()[j]) by {
            assert(cs.last() == cs[cs.len() - 1]);
        }
        lemma_split_state_append(with_sep, cs.last());
        assert(Seq::<char>::empty() + cs.last() =~= cs.last());
        assert(init.push(cs.last()) =~= cs);
    }
}

/// Following `..` `m` times, then components that are neither `.` nor `..`.
proof fn lemma_follow_dots_then(base: Seq<Seq<char>>, m: int, rest: Seq<Seq<char>>)
    requires
        0 <= m <= base.len(),
        forall|i: int| 0 <= i < rest.len() ==> #[trigger] rest[i] != dotdot() && rest[i] != seq!['.'],
    ensures
        follow(base, Seq::new(m as nat, |i: int| dotdot()) + rest) == base.subrange(0, base.len() - m) + rest,
    decreases m + rest.len(),
{
    let rel = Seq::new(m as nat, |i: int| dotdot()) + rest;
    if m > 0 {
        assert(rel[0] == dotdot());
        assert(rel.drop_first() =~= Seq::new((m - 1) as nat, |i: int| dotdot()) + rest);
        lemma_follow_dots_then(base.drop_last(), m - 1, rest);
        assert(base.drop_last().subrange(0, base.drop_last().len() - (m - 1)) =~= base.subrange(0, base.len() - m));
    } else if rest.len() > 0 {
        assert(rel =~= rest);
        assert(rest[0] != dotdot() && rest[0] != seq!['.']);
        assert(rest.drop_first() =~= Seq::new(0 as nat, |i: int| dotdot()) + rest.drop_first());
        assert forall|i: int| 0 <= i < rest.drop_first().len() implies #[trigger] rest.drop_first()[i] != dotdot()
            && rest.drop_first()[i] != seq!['.'] by {
            assert(rest.drop_first()[i] == rest[i + 1]);
        }
        lemma_follow_dots_then(base.push(rest[0]), 0, rest.drop_first());
        assert(base.push(rest[0]).subrange(0, (base.len() + 1) as int) =~= base.push(rest[0]));
        assert(base.push(rest[0]) + rest.drop_first() =~= base.subrange(0, base.len() as int) + rest);
    } else {
        assert(rel =~= Seq::<Seq<char>>::empty());
        assert(base.subrange(0, base.len() as int) + rest =~= base);
    }
}

proof fn lemma_common_from_bounds(a: Seq<Seq<char>>, b: Seq<Seq<char>>, i: int)
    requires
        0 <= i <= a.len(),
        i <= b.len(),
        a.subrange(0, i) == b.subrange(0, i),
    ensures
        i <= common_from(a, b, i) <= a.len(),
        common_from(a, b, i) <= b.len(),
        a.subrange(0, common_from(a, b, i)) == b.subrange(0, common_from(a, b, i)),
    decreases a.len() - i,
{
    if 0 <= i < a.len() && i < b.len() && a[i] == b[i] {
        assert(a.subrange(0, i + 1) =~= a.subrange(0, i).push(a[i]));
        assert(b.subrange(0, i + 1) =~= b.subrange(0, i).push(b[i]));
        lemma_common_from_bounds(a, b, i + 1);
    }
}

/// For two Windows paths on the same root, following the relative path from
/// the base gives back the path, where the path holds no `.` or `..`
/// component.
pub proof fn lemma_windows_rejoin(path: Seq<char>, base: Seq<char>)
    requires
        win_prefix(path) is Some,
        win_prefix(base) is Some,
        win_prefix(path).unwrap().0 == win_prefix(base).unwrap().0,
        forall|i: int| 0 <= i < win_components(path).len() ==> #[trigger] win_components(path)[i] != dotdot()
            && win_components(path)[i] != seq!['.'],
    ensures
        relative_path(path, base) is Some,
        follow(win_components(base), components(relative_path(path, base).unwrap())) == win_components(path),
{
    let a = win_components(path);
    let b = win_components(base);
    assert(a.subrange(0, 0) =~= b.subrange(0, 0));
    lemma_common_from_bounds(a, b, 0);
    let k = common_from(a, b, 0);
    let rc = rel_components(a, b);
    let rest = a.subrange(k, a.len() as int);
    lemma_components_plain(path.subrange(win_prefix(path).unwrap().1, path.len() as int));
    assert forall|i: int| 0 <= i < rest.len() implies #[trigger] rest[i] != dotdot() && rest[i] != seq!['.'] by {
        assert(rest[i] == a[k + i]);
    }
    lemma_follow_dots_then(b, b.len() - k, rest);
    assert(b.subrange(0, b.len() - (b.len() - k)) =~= b.subrange(0, k));
    assert(b.subrange(0, k) + rest =~= a);
    if rc.len() == 0 {
        assert(rest.len() == 0);
        assert(b.len() == k);
        assert(render(rc) == seq!['.']);
        let dot = seq!['.'];
        assert(dot.drop_last() =~= Seq::<char>::empty());
        assert(split_state(dot.drop_last()) == (Seq::<Seq<char>>::empty(), Seq::<char>::empty()));
        assert(!is_sep(dot.last()));
        assert(Seq::<char>::empty().push('.') =~= seq!['.']);
        assert(split_state(dot) == (Seq::<Seq<char>>::empty(), seq!['.']));
        assert(components(dot) =~= seq![seq!['.']]);
        assert(follow(b, seq![seq!['.']]) == follow(b, seq![seq!['.']].drop_first()));
        assert(seq![seq!['.']].drop_first() =~= Seq::<Seq<char>>::empty());
        assert(b.subrange(0, k) =~= b);
        assert(rc =~= Seq::new((b.len() - k) as nat, |i: int| dotdot()) + rest);
    } else {
        let dd = dotdot();
        assert forall|j: int| 0 <= j < dd.len() implies !is_sep(#[trigger] dd[j]) by {}
        assert forall|i: int| 0 <= i < rc.len() implies rc[i].len() > 0 && forall|j: int|
            0 <= j < rc[i].len() ==> !is_sep(#[trigger] rc[i][j]) by {
            lemma_rel_component_plain(a, b, k, i);
        }
        lemma_components_join(rc);
    }
}

proof fn lemma_rel_component_plain(a: Seq<Seq<char>>, b: Seq<Seq<char>>, k: int, i: int)
    requires
        k == common_from(a, b, 0),
        0 <= k <= a.len(),
        k <= b.len(),
        plain_components(a),
        0 <= i < rel_components(a, b).len(),
    ensures
        rel_components(a, b)[i].len() > 0,
        forall|j: int| 0 <= j < rel_components(a, b)[i].len() ==> !is_sep(#[trigger] rel_components(a, b)[i][j]),
{
    let rc = rel_components(a, b);
    if i < b.len() - k {
        assert(rc[i] == dotdot());
    } else {
        assert(rc[i] == a[k + (i - (b.len() - k))]);
    }
}

/// A Windows path relative to itself is `.`.
pub proof fn lemma_windows_self(path: Seq<char>)
    requires
        win_prefix(path) is Some,
    ensures
        relative_path(path, path) == Some(seq!['.']),
{
    let a = win_components(path);
    assert(a.subrange(0, 0) =~= a.subrange(0, 0));
    lemma_common_from_bounds(a, a, 0);
    lemma_common_from_self(a, 0);
    assert(rel_components(a, a) =~= Seq::<Seq<char>>::empty());
}

proof fn lemma_common_from_self(a: Seq<Seq<char>>, i: int)
    requires
        0 <= i <= a.len(),
    ensures
        common_from(a, a, i) == a.len(),
    decreases a.len() - i,
{
    if i < a.len() {
        lemma_common_from_self(a, i + 1);
    }
}

/// A trailing separator on a drive-letter path changes neither its root nor
/// its components, so no relative path computed from or to it changes.
pub proof fn lemma_trailing_separator(path: Seq<char>, other: Seq<char>, sep: char)
    requires
        path.len() >= 2,
        is_ascii_alpha(path[0]),
        path[1] == ':',
        is_sep(sep),
    ensures
        relative_path(path.push(sep), other) == relative_path(path, other),
        relative_path(other, path.push(sep)) == relative_path(other, path),
{
    let p2 = path.push(sep);
    assert(!(p2[0] == '\\' && p2[1] == '\\'));
    assert(win_prefix(p2) == win_prefix(path));
    let rest = path.subrange(2, path.len() as int);
    assert(p2.subrange(2, p2.len() as int) =~= rest.push(sep));
    assert(rest.push(sep).drop_last() =~= rest);
    assert(components(rest.push(sep)) == components(rest));
}

/// Two Windows paths whose prefixes differ (another drive letter, another UNC
/// server or share, another prefix form) have no relative path between them.
pub proof fn lemma_different_roots_unrelated(path: Seq<char>, base: Seq<char>)
    requires
        win_prefix(path) is Some,
        win_prefix(base) is Some,
        win_prefix(path).unwrap().0 != win_prefix(base).unwrap().0,
    ensures
        relative_path(path, base) is None,
{
}

/// A Windows path and a path that is not Windows-style have no relative path
/// between them, in either order.
pub proof fn lemma_mixed_styles_unrelated(path: Seq<char>, base: Seq<char>)
    requires
        (win_prefix(path) is Some) != (win_prefix(base) is Some),
    ensures
        relative_path(path, base) is None,
{
}

} // verus!
