//! Image references inside markdown: finding them, filling them into a
//! template, and rewriting relative ones for a document that lives in
//! another directory.
//!
//! Two forms are recognised. A markdown image `![alt](path)`, and an HTML tag
//! `<... src = "path" ...>` whose `src` value is quoted with `"` or `'`.
//! Positions count characters.

use std::ops::Range;

use vstd::prelude::*;

use crate::text::{
    chars_of, find_char, lemma_next_char, lemma_skip_ws_bounds, next_char, occurs,
    occurs_at, push_chars, skip_whitespace, skip_ws, slice_of, string_of,
};

verus! {

// ---------------------------------------------------------------------------
// Finding references
/// Where `src`, `=` and the whitespace around `=` end, if they start at `k`.
pub open spec fn src_end(s: Seq<char>, k: int) -> Option<int> {
    if occurs_at(s, k, seq!['s', 'r', 'c']) {
        let a = skip_ws(s, k + 3);
        if a < s.len() && s[a] == '=' {
            Some(skip_ws(s, a + 1))
        } else {
            None
        }
    } else {
        None
    }
}

/// The first position at or after `k` where `src =` starts, or `s.len()`.
pub open spec fn first_src(s: Seq<char>, k: int) -> int
    decreases s.len() - k,
{
    if 0 <= k < s.len() {
        if src_end(s, k) is Some {
            k
        } else {
            first_src(s, k + 1)
        }
    } else {
        s.len() as int
    }
}

proof fn lemma_first_src(s: Seq<char>, k: int)
    requires
        0 <= k <= s.len(),
    ensures
        k <= first_src(s, k) <= s.len(),
        first_src(s, k) < s.len() ==> src_end(s, first_src(s, k)) is Some,
    decreases s.len() - k,
{
    if k < s.len() && src_end(s, k) is None {
        lemma_first_src(s, k + 1);
    }
}

/// The bounds of the text inside the string quoted with `q` that opens at `i`.
pub open spec fn quoted_at(s: Seq<char>, i: int, q: char) -> Option<(int, int)> {
    if 0 <= i < s.len() && s[i] == q {
        let k = next_char(s, i + 1, q);
        if k < s.len() {
            Some((i + 1, k))
        } else {
            None
        }
    } else {
        None
    }
}

/// A string in double quotes, else one in single quotes, opening at `a`.
pub open spec fn string_at(s: Seq<char>, a: int) -> Option<(int, int)> {
    if quoted_at(s, a, '"') is Some {
        quoted_at(s, a, '"')
    } else {
        quoted_at(s, a, '\'')
    }
}

/// The `src` path of an HTML tag that opens at `i`: its bounds, and the
/// position after the tag's `>`.
pub open spec fn html_at(s: Seq<char>, i: int) -> Option<(int, int, int)> {
    if 0 <= i < s.len() && s[i] == '<' {
        let m = first_src(s, i + 1);
        if m < s.len() {
            match string_at(s, src_end(s, m)->0) {
                Some((st, en)) => {
                    let g = next_char(s, en + 1, '>');
                    if g < s.len() {
                        Some((st, en, g + 1))
                    } else {
                        None
                    }
                },
                None => None,
            }
        } else {
            None
        }
    } else {
        None
    }
}

/// The path of a markdown image that opens at `i`: its bounds, and the
/// position after the closing `)`.
pub open spec fn image_at(s: Seq<char>, i: int) -> Option<(int, int, int)> {
    if occurs_at(s, i, seq!['!', '[']) {
        let k = next_char(s, i + 2, ']');
        if k + 1 < s.len() && s[k + 1] == '(' {
            let m = next_char(s, k + 2, ')');
            if m < s.len() {
                Some((k + 2, m, m + 1))
            } else {
                None
            }
        } else {
            None
        }
    } else {
        None
    }
}

/// The reference that starts at `i`, markdown first.
pub open spec fn ref_at(s: Seq<char>, i: int) -> Option<(int, int, int)> {
    if image_at(s, i) is Some {
        image_at(s, i)
    } else {
        html_at(s, i)
    }
}

/// The first position at or after `k` where a reference starts, or `s.len()`.
pub open spec fn first_ref(s: Seq<char>, k: int) -> int
    decreases s.len() - k,
{
    if 0 <= k < s.len() {
        if ref_at(s, k) is Some {
            k
        } else {
            first_ref(s, k + 1)
        }
    } else {
        s.len() as int
    }
}

proof fn lemma_first_ref(s: Seq<char>, k: int)
    requires
        0 <= k <= s.len(),
    ensures
        k <= first_ref(s, k) <= s.len(),
        first_ref(s, k) < s.len() ==> ref_at(s, first_ref(s, k)) is Some,
    decreases s.len() - k,
{
    if k < s.len() && ref_at(s, k) is None {
        lemma_first_ref(s, k + 1);
    }
}

/// The bounds of the references from position `k` on, left to right.
pub open spec fn scan_from(s: Seq<char>, k: int) -> Seq<(int, int)>
    decreases s.len() - k,
{
    if 0 <= k <= s.len() {
        let m = first_ref(s, k);
        if m < s.len() {
            let (st, en, nx) = ref_at(s, m)->0;
            if k < nx <= s.len() {
                seq![(st, en)] + scan_from(s, nx)
            } else {
                Seq::empty()
            }
        } else {
            Seq::empty()
        }
    } else {
        Seq::empty()
    }
}

/// The bounds of all references in `s`, left to right.
pub open spec fn spec_scan(s: Seq<char>) -> Seq<(int, int)> {
    scan_from(s, 0)
}

/// The paths of all references in `s`, left to right.
pub open spec fn ref_paths(s: Seq<char>) -> Seq<Seq<char>> {
    spec_scan(s).map_values(|b: (int, int)| s.subrange(b.0, b.1))
}

/// Bounds that lie in `from..n`, each empty or increasing, and in order
/// without overlap.
pub open spec fn ordered_spans(b: Seq<(int, int)>, from: int, n: int) -> bool {
    &&& forall|i: int|
        0 <= i < b.len() ==> from <= (#[trigger] b[i]).0 <= b[i].1 <= n
    &&& forall|i: int| 0 < i < b.len() ==> b[i - 1].1 <= (#[trigger] b[i]).0
}

proof fn lemma_quoted(s: Seq<char>, i: int, q: char)
    requires
        0 <= i,
    ensures
        quoted_at(s, i, q) matches Some((st, en)) ==> i < st <= en < s.len() && s[en] == q,
{
    if 0 <= i < s.len() && s[i] == q {
        lemma_next_char(s, i + 1, q);
    }
}

proof fn lemma_src_end(s: Seq<char>, k: int)
    ensures
        src_end(s, k) matches Some(e) ==> k < e <= s.len(),
{
    if occurs_at(s, k, seq!['s', 'r', 'c']) {
        lemma_skip_ws_bounds(s, k + 3);
        let a = skip_ws(s, k + 3);
        if a < s.len() && s[a] == '=' {
            lemma_skip_ws_bounds(s, a + 1);
        }
    }
}

/// A reference lies after where it starts, and ends before where scanning
/// goes on.
proof fn lemma_ref_bounds(s: Seq<char>, i: int)
    requires
        0 <= i,
    ensures
        ref_at(s, i) matches Some((st, en, nx)) ==> i < st <= en < nx <= s.len(),
{
    if occurs_at(s, i, seq!['!', '[']) {
        lemma_next_char(s, i + 2, ']');
        let k = next_char(s, i + 2, ']');
        if k + 1 < s.len() && s[k + 1] == '(' {
            lemma_next_char(s, k + 2, ')');
        }
    }
    if 0 <= i < s.len() && s[i] == '<' {
        lemma_first_src(s, i + 1);
        let m = first_src(s, i + 1);
        if m < s.len() {
            lemma_src_end(s, m);
            let a = src_end(s, m)->0;
            lemma_quoted(s, a, '"');
            lemma_quoted(s, a, '\'');
            match string_at(s, a) {
                Some((st, en)) => {
                    lemma_next_char(s, en + 1, '>');
                },
                None => {},
            }
        }
    }
}

/// The references found from `k` on lie after `k`, in order.
proof fn lemma_scan_ordered(s: Seq<char>, k: int)
    requires
        0 <= k <= s.len(),
    ensures
        ordered_spans(scan_from(s, k), k, s.len() as int),
    decreases s.len() - k,
{
    lemma_first_ref(s, k);
    let m = first_ref(s, k);
    if m < s.len() {
        lemma_ref_bounds(s, m);
        let (st, en, nx) = ref_at(s, m)->0;
        lemma_scan_ordered(s, nx);
        let rest = scan_from(s, nx);
        let all = seq![(st, en)] + rest;
        assert forall|i: int| 0 < i < all.len() implies all[i - 1].1 <= (#[trigger] all[i]).0 by {
            if i > 1 {
                assert(all[i - 1] == rest[i - 2]);
                assert(all[i] == rest[i - 1]);
            } else {
                assert(all[i] == rest[0]);
            }
        }
        assert forall|i: int| 0 <= i < all.len() implies k <= (#[trigger] all[i]).0 <= all[i].1
            <= s.len() by {
            if i > 0 {
                assert(all[i] == rest[i - 1]);
            }
        }
    }
}

/// The bounds of the string quoted with `q` that opens at `i`.
fn quoted(s: &Vec<char>, i: usize, q: char) -> (r: Option<(usize, usize)>)
    ensures
        match quoted_at(s@, i as int, q) {
            Some((st, en)) => r == Some((st as usize, en as usize)),
            None => r is None,
        },
{
    if i >= s.len() || s[i] != q {
        return None;
    }
    proof {
        lemma_quoted(s@, i as int, q);
    }
    let k = find_char(s, i + 1, q);
    if k < s.len() {
        Some((i + 1, k))
    } else {
        None
    }
}

/// Where `src =` ends, if it starts at `k`.
fn src_at(s: &Vec<char>, k: usize) -> (r: Option<usize>)
    requires
        k <= s.len(),
    ensures
        match src_end(s@, k as int) {
            Some(e) => r == Some(e as usize),
            None => r is None,
        },
{
    let kw = vec!['s', 'r', 'c'];
    assert(kw@ =~= seq!['s', 'r', 'c']);
    if !occurs(s, k, &kw) {
        return None;
    }
    let a = skip_whitespace(s, k + 3);
    if a < s.len() && s[a] == '=' {
        Some(skip_whitespace(s, a + 1))
    } else {
        None
    }
}

/// The `src` path of an HTML tag that opens at `i`, as `html_at` gives it.
fn html(s: &Vec<char>, i: usize) -> (r: Option<(usize, usize, usize)>)
    ensures
        match html_at(s@, i as int) {
            Some((st, en, nx)) => r == Some((st as usize, en as usize, nx as usize)),
            None => r is None,
        },
{
    if i >= s.len() || s[i] != '<' {
        return None;
    }
    let mut m = i + 1;
    while m < s.len() && src_at(s, m).is_none()
        invariant
            i + 1 <= m <= s.len(),
            first_src(s@, i + 1) == first_src(s@, m as int),
        decreases s.len() - m,
    {
        m = m + 1;
    }
    if m >= s.len() {
        return None;
    }
    let a = src_at(s, m).unwrap();
    proof {
        lemma_src_end(s@, m as int);
    }
    let found = match quoted(s, a, '"') {
        Some(b) => Some(b),
        None => quoted(s, a, '\''),
    };
    match found {
        Some((st, en)) => {
            proof {
                lemma_quoted(s@, a as int, '"');
                lemma_quoted(s@, a as int, '\'');
            }
            let g = find_char(s, en + 1, '>');
            if g < s.len() {
                Some((st, en, g + 1))
            } else {
                None
            }
        },
        None => None,
    }
}

/// The path of a markdown image that opens at `i`, as `image_at` gives it.
fn image(s: &Vec<char>, i: usize) -> (r: Option<(usize, usize, usize)>)
    ensures
        match image_at(s@, i as int) {
            Some((st, en, nx)) => r == Some((st as usize, en as usize, nx as usize)),
            None => r is None,
        },
{
    let open = vec!['!', '['];
    assert(open@ =~= seq!['!', '[']);
    if !occurs(s, i, &open) {
        return None;
    }
    assert(i + 2 <= s.len());
    let k = find_char(s, i + 2, ']');
    if k < s.len() && k + 1 < s.len() && s[k + 1] == '(' {
        let m = find_char(s, k + 2, ')');
        if m < s.len() {
            return Some((k + 2, m, m + 1));
        }
    }
    None
}

/// The reference that starts at `i`, as `ref_at` gives it.
fn reference(s: &Vec<char>, i: usize) -> (r: Option<(usize, usize, usize)>)
    ensures
        match ref_at(s@, i as int) {
            Some((st, en, nx)) => r == Some((st as usize, en as usize, nx as usize)),
            None => r is None,
        },
{
    match image(s, i) {
        Some(b) => Some(b),
        None => html(s, i),
    }
}

/// The bounds of all references in `s`, as `spec_scan` gives them.
fn scan(s: &Vec<char>) -> (r: Vec<(usize, usize)>)
    ensures
        r@.len() == spec_scan(s@).len(),
        forall|i: int|
            0 <= i < r@.len() ==> (#[trigger] r@[i]).0 as int == spec_scan(s@)[i].0 && r@[i].1
                as int == spec_scan(s@)[i].1,
{
    let mut out: Vec<(usize, usize)> = Vec::new();
    let mut k: usize = 0;
    while k < s.len()
        invariant
            k <= s.len(),
            forall|i: int|
                0 <= i < out@.len() ==> (#[trigger] out@[i]).0 as int == spec_scan(s@)[i].0
                    && out@[i].1 as int == spec_scan(s@)[i].1,
            spec_scan(s@).len() == out@.len() + scan_from(s@, k as int).len(),
            forall|i: int|
                0 <= i < scan_from(s@, k as int).len() ==> spec_scan(s@)[out@.len() + i]
                    == #[trigger] scan_from(s@, k as int)[i],
        decreases s.len() - k,
    {
        let mut m = k;
        while m < s.len() && reference(s, m).is_none()
            invariant
                k <= m <= s.len(),
                first_ref(s@, k as int) == first_ref(s@, m as int),
            decreases s.len() - m,
        {
            m = m + 1;
        }
        if m >= s.len() {
            assert(scan_from(s@, k as int) =~= Seq::<(int, int)>::empty());
            return out;
        }
        let (st, en, nx) = reference(s, m).unwrap();
        proof {
            lemma_ref_bounds(s@, m as int);
            let rest = scan_from(s@, nx as int);
            assert(scan_from(s@, k as int) == seq![(st as int, en as int)] + rest);
            assert forall|i: int| 0 <= i < rest.len() implies spec_scan(s@)[out@.len() + 1 + i]
                == #[trigger] rest[i] by {
                assert(scan_from(s@, k as int)[i + 1] == rest[i]);
            }
            assert(scan_from(s@, k as int)[0] == (st as int, en as int));
        }
        out.push((st, en));
        k = nx;
    }
    proof {
        assert(scan_from(s@, k as int) =~= Seq::<(int, int)>::empty());
    }
    out
}

/// `(path, bounds)` for the text of `s` inside the given bounds.
fn located(s: &Vec<char>, st: usize, en: usize) -> (r: (String, Range<usize>))
    requires
        st <= en <= s.len(),
    ensures
        r.0@ == s@.subrange(st as int, en as int),
        r.1.start == st,
        r.1.end == en,
{
    (string_of(&slice_of(s, st, en)), st..en)
}

/// A string in double quotes at the start of `text`: the text inside and
/// its bounds.
pub fn duble_quote_string(text: &str) -> (r: Option<(String, Range<usize>)>)
    ensures
        match quoted_at(text@, 0, '"') {
            Some((st, en)) => r is Some && (r->0).0@ == text@.subrange(st, en) && (r->0).1.start
                == st && (r->0).1.end == en,
            None => r is None,
        },
{
    let s = chars_of(text);
    proof {
        lemma_quoted(s@, 0, '"');
    }
    match quoted(&s, 0, '"') {
        Some((st, en)) => Some(located(&s, st, en)),
        None => None,
    }
}

/// A string in single quotes at the start of `text`: the text inside and
/// its bounds.
pub fn single_quote_string(text: &str) -> (r: Option<(String, Range<usize>)>)
    ensures
        match quoted_at(text@, 0, '\'') {
            Some((st, en)) => r is Some && (r->0).0@ == text@.subrange(st, en) && (r->0).1.start
                == st && (r->0).1.end == en,
            None => r is None,
        },
{
    let s = chars_of(text);
    proof {
        lemma_quoted(s@, 0, '\'');
    }
    match quoted(&s, 0, '\'') {
        Some((st, en)) => Some(located(&s, st, en)),
        None => None,
    }
}

/// The `src` path of an HTML tag at the start of `text`, and its bounds.
pub fn find_paths_in_html(text: &str) -> (r: Option<(String, Range<usize>)>)
    ensures
        match html_at(text@, 0) {
            Some((st, en, nx)) => r is Some && (r->0).0@ == text@.subrange(st, en) && (
            r->0).1.start == st && (r->0).1.end == en,
            None => r is None,
        },
{
    let s = chars_of(text);
    proof {
        lemma_ref_bounds(s@, 0);
    }
    match html(&s, 0) {
        Some((st, en, nx)) => {
            proof {
                if image_at(s@, 0) is None {
                    assert(ref_at(s@, 0) == html_at(s@, 0));
                } else {
                    assert(s@[0] == '!');
                }
            }
            Some(located(&s, st, en))
        },
        None => None,
    }
}

/// The path of a markdown image at the start of `text`, and its bounds.
pub fn find_path_in_markdown_image(text: &str) -> (r: Option<(String, Range<usize>)>)
    ensures
        match image_at(text@, 0) {
            Some((st, en, nx)) => r is Some && (r->0).0@ == text@.subrange(st, en) && (
            r->0).1.start == st && (r->0).1.end == en,
            None => r is None,
        },
{
    let s = chars_of(text);
    proof {
        lemma_ref_bounds(s@, 0);
    }
    match image(&s, 0) {
        Some((st, en, nx)) => Some(located(&s, st, en)),
        None => None,
    }
}

/// All image references in `markdown`, left to right: each path and its
/// bounds.
pub fn find_paths_in_markdown(markdown: &str) -> (r: Vec<(String, Range<usize>)>)
    ensures
        r@.len() == spec_scan(markdown@).len(),
        forall|i: int|
            0 <= i < r@.len() ==> (#[trigger] r@[i]).0@ == ref_paths(markdown@)[i] && r@[i].1.start
                == spec_scan(markdown@)[i].0 && r@[i].1.end == spec_scan(markdown@)[i].1,
{
    let s = chars_of(markdown);
    let spans = scan(&s);
    proof {
        lemma_scan_ordered(s@, 0);
    }
    let mut out: Vec<(String, Range<usize>)> = Vec::new();
    for i in 0..spans.len()
        invariant
            s@ == markdown@,
            spans@.len() == spec_scan(s@).len(),
            forall|j: int|
                0 <= j < spans@.len() ==> (#[trigger] spans@[j]).0 as int == spec_scan(s@)[j].0
                    && spans@[j].1 as int == spec_scan(s@)[j].1,
            ordered_spans(spec_scan(s@), 0, s@.len() as int),
            out@.len() == i,
            forall|j: int|
                0 <= j < i ==> (#[trigger] out@[j]).0@ == ref_paths(markdown@)[j]
                    && out@[j].1.start == spec_scan(markdown@)[j].0 && out@[j].1.end
                    == spec_scan(markdown@)[j].1,
    {
        let (st, en) = spans[i];
        assert(spans@[i as int].0 <= spans@[i as int].1 <= s@.len());
        out.push(located(&s, st, en));
    }
    out
}

// ---------------------------------------------------------------------------
// Filling references into a template
/// Why a template could not be filled.
#[derive(Debug, PartialEq, Eq)]
pub enum WrapError {
    /// The text inside `{...}` is not an index. Holds that text.
    ParseIntError(String),
    /// A `{` has no `}` after it.
    SplitError,
    /// An index is not below the number of references. Holds the index and
    /// the number.
    OutOfIndex(usize, usize),
}

/// What a [`WrapError`] stands for.
pub enum WrapErrorModel {
    ParseIntError(Seq<char>),
    SplitError,
    OutOfIndex(nat, nat),
}

impl View for WrapError {
    type V = WrapErrorModel;

    open spec fn view(&self) -> WrapErrorModel {
        match self {
            WrapError::ParseIntError(t) => WrapErrorModel::ParseIntError(t@),
            WrapError::SplitError => WrapErrorModel::SplitError,
            WrapError::OutOfIndex(i, n) => WrapErrorModel::OutOfIndex(*i as nat, *n as nat),
        }
    }
}

/// The decimal digits of `n`, without leading zeros.
pub open spec fn decimal(n: nat) -> Seq<char>
    decreases n,
{
    if n < 10 {
        seq![(n + ('0' as nat)) as char]
    } else {
        decimal(n / 10).push(((n % 10) + ('0' as nat)) as char)
    }
}

/// The decimal digits of `n`.
fn decimal_string(n: usize) -> (r: String)
    ensures
        r@ == decimal(n as nat),
    decreases n,
{
    let digit = char_of_digit((n % 10) as u32);
    if n < 10 {
        let mut r = String::new();
        push_chars(&mut r, &vec![digit]);
        assert(r@ =~= decimal(n as nat));
        r
    } else {
        let mut r = decimal_string(n / 10);
        push_chars(&mut r, &vec![digit]);
        assert(r@ =~= decimal(n as nat));
        r
    }
}

/// The character of the decimal digit `d`.
fn char_of_digit(d: u32) -> (r: char)
    requires
        d < 10,
    ensures
        r == (d + ('0' as nat)) as char,
{
    if d == 0 { '0' } else if d == 1 { '1' } else if d == 2 { '2' } else if d == 3 { '3' } else if d
        == 4 { '4' } else if d == 5 { '5' } else if d == 6 { '6' } else if d == 7 { '7' } else if d
        == 8 { '8' } else { '9' }
}

impl WrapError {
    /// A sentence that says what went wrong.
    pub fn message(&self) -> (r: String)
        ensures
            r@ == match self {
                WrapError::ParseIntError(t) => "Invalid index '"@ + t@ + "'. "@,
                WrapError::SplitError => "Unable to split the content properly: a '{' is not closed. "@,
                WrapError::OutOfIndex(i, n) => "Out of index. Len: "@ + decimal(*n as nat)
                    + " Index: "@ + decimal(*i as nat),
            },
    {
        match self {
            WrapError::ParseIntError(t) => {
                let mut r = String::from_str("Invalid index '");
                r.append(t.as_str());
                r.append("'. ");
                r
            },
            WrapError::SplitError => String::from_str(
                "Unable to split the content properly: a '{' is not closed. ",
            ),
            WrapError::OutOfIndex(i, n) => {
                let mut r = String::from_str("Out of index. Len: ");
                r.append(decimal_string(*n).as_str());
                r.append(" Index: ");
                r.append(decimal_string(*i).as_str());
                r
            },
        }
    }
}

/// The model of a fill result.
pub open spec fn wrap_view(r: Result<String, WrapError>) -> Result<Seq<char>, WrapErrorModel> {
    match r {
        Ok(t) => Ok(t@),
        Err(e) => Err(e@),
    }
}

pub open spec fn is_digit(c: char) -> bool {
    '0' <= c && c <= '9'
}

pub open spec fn all_digits(d: Seq<char>) -> bool {
    forall|i: int| 0 <= i < d.len() ==> is_digit(#[trigger] d[i])
}

/// `s` without a leading `+`.
pub open spec fn unsigned_digits(s: Seq<char>) -> Seq<char> {
    if s.len() > 0 && s[0] == '+' {
        s.skip(1)
    } else {
        s
    }
}

/// The number that the decimal digits `d` spell.
pub open spec fn digits_value(d: Seq<char>) -> nat
    decreases d.len(),
{
    if d.len() == 0 {
        0
    } else {
        digits_value(d.drop_last()) * 10 + ((d.last() as u32) - ('0' as u32)) as nat
    }
}

/// `s` read as an index the way `usize::from_str` reads it: an optional `+`,
/// then at least one decimal digit, with a value that fits in `usize`.
pub open spec fn parse_index(s: Seq<char>) -> Option<nat> {
    let d = unsigned_digits(s);
    if d.len() > 0 && all_digits(d) && digits_value(d) <= usize::MAX {
        Some(digits_value(d))
    } else {
        None
    }
}

/// The template `t` from position `k` on, its placeholders filled from
/// `refs`; `auto` is the number of placeholders before `k`.
///
/// `{}` takes the reference whose index is its own position among all
/// placeholders; `{n}` takes reference `n`.
pub open spec fn fill_from(t: Seq<char>, k: int, auto: nat, refs: Seq<Seq<char>>) -> Result<
    Seq<char>,
    WrapErrorModel,
>
    decreases t.len() - k,
{
    if 0 <= k <= t.len() {
        let o = next_char(t, k, '{');
        if o >= t.len() {
            Ok(t.subrange(k, t.len() as int))
        } else {
            let c = next_char(t, o + 1, '}');
            if c >= t.len() {
                Err(WrapErrorModel::SplitError)
            } else {
                let inner = t.subrange(o + 1, c);
                let idx = if inner.len() == 0 {
                    Some(auto)
                } else {
                    parse_index(inner)
                };
                match idx {
                    None => Err(WrapErrorModel::ParseIntError(inner)),
                    Some(n) => if n >= refs.len() {
                        Err(WrapErrorModel::OutOfIndex(n, refs.len()))
                    } else if k < c + 1 {
                        match fill_from(t, c + 1, auto + 1, refs) {
                            Ok(rest) => Ok(t.subrange(k, o) + refs[n as int] + rest),
                            Err(e) => Err(e),
                        }
                    } else {
                        Err(WrapErrorModel::SplitError)
                    },
                }
            }
        }
    } else {
        Err(WrapErrorModel::SplitError)
    }
}

/// The template `t` with its placeholders filled from `refs`.
pub open spec fn spec_fill(t: Seq<char>, refs: Seq<Seq<char>>) -> Result<Seq<char>, WrapErrorModel> {
    fill_from(t, 0, 0, refs)
}

proof fn lemma_digits_grow(d: Seq<char>, j: int)
    requires
        0 <= j <= d.len(),
        all_digits(d),
    ensures
        digits_value(d.take(j)) <= digits_value(d),
    decreases d.len() - j,
{
    if j < d.len() {
        lemma_digits_grow(d, j + 1);
        assert(d.take(j + 1).drop_last() =~= d.take(j));
        assert(d.take(j + 1).last() == d[j]);
    } else {
        assert(d.take(j) =~= d);
    }
}

/// `s[from..to]` read as an index, as `parse_index` reads it.
fn index_of(s: &Vec<char>, from: usize, to: usize) -> (r: Option<usize>)
    requires
        from < to <= s.len(),
    ensures
        match parse_index(s@.subrange(from as int, to as int)) {
            Some(n) => r == Some(n as usize),
            None => r is None,
        },
{
    let ghost raw = s@.subrange(from as int, to as int);
    let start = if s[from] == '+' {
        from + 1
    } else {
        from
    };
    let ghost d = s@.subrange(start as int, to as int);
    assert(d =~= unsigned_digits(raw));
    if start >= to {
        return None;
    }
    let mut v: usize = 0;
    let mut k = start;
    while k < to
        invariant
            start <= k <= to <= s.len(),
            d == s@.subrange(start as int, to as int),
            d == unsigned_digits(raw),
            raw == s@.subrange(from as int, to as int),
            forall|i: int| 0 <= i < k - start ==> is_digit(#[trigger] d[i]),
            v as nat == digits_value(d.take(k - start)),
        decreases to - k,
    {
        let c = s[k];
        if !('0' <= c && c <= '9') {
            assert(!is_digit(d[k - start]));
            assert(!is_digit(d[k - start]));
            return None;
        }
        let ghost j = k - start;
        assert(d.take(j + 1).drop_last() =~= d.take(j));
        assert(d.take(j + 1).last() == c);
        let digit = ((c as u32) - ('0' as u32)) as usize;
        assert(digits_value(d.take(j + 1)) == digits_value(d.take(j)) * 10 + digit);
        match v.checked_mul(10) {
            Some(x) => match x.checked_add(digit) {
                Some(y) => {
                    v = y;
                },
                None => {
                    proof {
                        if all_digits(d) {
                            lemma_digits_grow(d, j + 1);
                            assert(digits_value(d) > usize::MAX);
                        }
                        assert(parse_index(raw) is None);
                    }
                    return None;
                },
            },
            None => {
                proof {
                    if all_digits(d) {
                        lemma_digits_grow(d, j + 1);
                        assert(digits_value(d) > usize::MAX) by (nonlinear_arith)
                            requires
                                digits_value(d) >= digits_value(d.take(j)) * 10 + digit,
                                v as nat == digits_value(d.take(j)),
                                v * 10 > usize::MAX,
                        ;
                    }
                }
                return None;
            },
        }
        k = k + 1;
    }
    assert(d.take(to - start) =~= d);
    Some(v)
}

/// The template `t` with its placeholders filled from `refs`, as
/// `spec_fill` gives it.
fn fill(t: &Vec<char>, refs: &Vec<String>) -> (r: Result<String, WrapError>)
    ensures
        wrap_view(r) == spec_fill(t@, refs@.map_values(|p: String| p@)),
{
    let ghost paths = refs@.map_values(|p: String| p@);
    let mut out = String::new();
    let mut k: usize = 0;
    let mut auto: usize = 0;
    loop
        invariant
            k <= t.len(),
            auto <= k,
            paths == refs@.map_values(|p: String| p@),
            spec_fill(t@, paths) == (match fill_from(t@, k as int, auto as nat, paths) {
                Ok(rest) => Ok(out@ + rest),
                Err(e) => Err(e),
            }),
        decreases t.len() - k,
    {
        proof {
            lemma_next_char(t@, k as int, '{');
        }
        let o = find_char(t, k, '{');
        if o >= t.len() {
            push_chars(&mut out, &slice_of(t, k, t.len()));
            return Ok(out);
        }
        proof {
            lemma_next_char(t@, o + 1, '}');
        }
        let c = find_char(t, o + 1, '}');
        if c >= t.len() {
            return Err(WrapError::SplitError);
        }
        let n = if c == o + 1 {
            auto
        } else {
            match index_of(t, o + 1, c) {
                Some(n) => n,
                None => {
                    return Err(WrapError::ParseIntError(string_of(&slice_of(t, o + 1, c))));
                },
            }
        };
        if n >= refs.len() {
            return Err(WrapError::OutOfIndex(n, refs.len()));
        }
        let ghost before = out@;
        push_chars(&mut out, &slice_of(t, k, o));
        out.append(refs[n].as_str());
        proof {
            match fill_from(t@, c + 1, (auto + 1) as nat, paths) {
                Ok(rest) => {
                    assert(out@ + rest =~= before + (t@.subrange(k as int, o as int)
                        + paths[n as int] + rest));
                },
                Err(_) => {},
            }
        }
        k = c + 1;
        auto = auto + 1;
    }
}

/// Fills the image paths of `markdown`, in order, into the placeholders of
/// `wrap`.
///
/// `{}` stands for the path whose index is the placeholder's position among
/// all placeholders; `{n}` for path `n`.
pub fn wrap_image(markdown: &str, wrap: &str) -> (r: Result<String, WrapError>)
    ensures
        wrap_view(r) == spec_fill(wrap@, ref_paths(markdown@)),
{
    let found = find_paths_in_markdown(markdown);
    let mut paths: Vec<String> = Vec::new();
    for i in 0..found.len()
        invariant
            found@.len() == spec_scan(markdown@).len(),
            forall|j: int|
                0 <= j < found@.len() ==> (#[trigger] found@[j]).0@ == ref_paths(markdown@)[j],
            paths@.len() == i,
            forall|j: int| 0 <= j < i ==> (#[trigger] paths@[j])@ == found@[j].0@,
    {
        paths.push(found[i].0.clone());
    }
    assert(paths@.map_values(|p: String| p@) =~= ref_paths(markdown@));
    let t = chars_of(wrap);
    fill(&t, &paths)
}

// ---------------------------------------------------------------------------
// Relocating references
/// The parent directory of a path, as `std::path::Path::parent` gives it.
pub uninterp spec fn path_parent(p: Seq<char>) -> Option<Seq<char>>;

/// The number of components of a path, as `std::path::Path::iter` yields them.
pub uninterp spec fn path_component_count(p: Seq<char>) -> nat;

/// `tail` joined onto `base`, as `std::path::Path::join` does it.
pub uninterp spec fn path_join(base: Seq<char>, tail: Seq<char>) -> Seq<char>;

/// Relies on `std::path::Path::parent`: the path without its final
/// component, and `None` for the empty path (or a root or prefix).
#[verifier::external_body]
fn parent_of(p: &str) -> (r: Option<String>)
    ensures
        match path_parent(p@) {
            Some(q) => r is Some && r->0@ == q,
            None => r is None,
        },
        p@.len() == 0 ==> r is None,
{
    match std::path::Path::new(p).parent() {
        Some(q) => Some(q.to_string_lossy().into_owned()),
        None => None,
    }
}

/// Relies on `std::path::Path::iter`: the number of components it yields.
#[verifier::external_body]
fn component_count(p: &str) -> (r: usize)
    ensures
        r as nat == path_component_count(p@),
{
    std::path::Path::new(p).iter().count()
}

/// Relies on `std::path::Path::join`: `tail` joined onto `base`.
#[verifier::external_body]
fn join_paths(base: &str, tail: &str) -> (r: String)
    ensures
        r@ == path_join(base@, tail@),
{
    std::path::Path::new(base).join(tail).to_string_lossy().into_owned()
}

/// `n` parent-directory steps, `..` joined onto the empty path `n` times.
pub open spec fn up_levels(n: nat) -> Seq<char>
    decreases n,
{
    if n == 0 {
        Seq::empty()
    } else {
        path_join(up_levels((n - 1) as nat), seq!['.', '.'])
    }
}

/// A reference that is not relocated: an absolute path or a web address.
pub open spec fn is_absolute_ref(p: Seq<char>) -> bool {
    occurs_at(p, 0, seq!['/']) || occurs_at(p, 0, seq!['h', 't', 't', 'p', ':', '/', '/'])
        || occurs_at(p, 0, seq!['h', 't', 't', 'p', 's', ':', '/', '/'])
}

/// The path that leads from the output's directory to the source's
/// directory: one `..` per component of the output's parent, then the
/// source's parent. `None` where either has no parent.
pub open spec fn relocation_base(output: Seq<char>, source: Seq<char>) -> Option<Seq<char>> {
    match path_parent(output) {
        Some(op) => match path_parent(source) {
            Some(sp) => Some(path_join(up_levels(path_component_count(op)), sp)),
            None => None,
        },
        None => None,
    }
}

/// `s` from position `from` on, each relative reference from index `i` of
/// `b` on joined onto `base`.
pub open spec fn splice_from(
    s: Seq<char>,
    b: Seq<(int, int)>,
    base: Seq<char>,
    i: int,
    from: int,
) -> Seq<char>
    decreases b.len() - i,
{
    if 0 <= i < b.len() {
        let p = s.subrange(b[i].0, b[i].1);
        s.subrange(from, b[i].0) + (if is_absolute_ref(p) {
            p
        } else {
            path_join(base, p)
        }) + splice_from(s, b, base, i + 1, b[i].1)
    } else {
        s.subrange(from, s.len() as int)
    }
}

/// Some of the bounds `b` hold a relative reference of `s`.
pub open spec fn relative_in(s: Seq<char>, b: Seq<(int, int)>) -> bool {
    exists|i: int| 0 <= i < b.len() && !is_absolute_ref(s.subrange(#[trigger] b[i].0, b[i].1))
}

/// Some reference in `s` is relative.
pub open spec fn has_relative_ref(s: Seq<char>) -> bool {
    relative_in(s, spec_scan(s))
}

/// Bounds as integers.
pub open spec fn spans_view(v: Seq<(usize, usize)>) -> Seq<(int, int)> {
    v.map_values(|p: (usize, usize)| (p.0 as int, p.1 as int))
}

/// `s` with each relative reference rewritten to lead from `output`'s
/// directory to where it pointed from `source`'s directory. `None` where a
/// relative reference exists and either location has no parent.
pub open spec fn spec_relocate(output: Seq<char>, source: Seq<char>, s: Seq<char>) -> Option<
    Seq<char>,
> {
    if has_relative_ref(s) {
        match relocation_base(output, source) {
            Some(b) => Some(splice_from(s, spec_scan(s), b, 0, 0)),
            None => None,
        }
    } else {
        Some(splice_from(s, spec_scan(s), Seq::empty(), 0, 0))
    }
}

/// Whether the reference `p` is absolute, as `is_absolute_ref` says.
fn is_absolute(p: &Vec<char>) -> (r: bool)
    ensures
        r == is_absolute_ref(p@),
{
    let root = vec!['/'];
    let http = vec!['h', 't', 't', 'p', ':', '/', '/'];
    let https = vec!['h', 't', 't', 'p', 's', ':', '/', '/'];
    assert(root@ =~= seq!['/']);
    assert(http@ =~= seq!['h', 't', 't', 'p', ':', '/', '/']);
    assert(https@ =~= seq!['h', 't', 't', 'p', 's', ':', '/', '/']);
    occurs(p, 0, &root) || occurs(p, 0, &http) || occurs(p, 0, &https)
}

/// The path from the output's directory to the source's directory, as
/// `relocation_base` gives it.
fn base_path(output_path: &str, notebook_path: &str) -> (r: Option<String>)
    ensures
        match relocation_base(output_path@, notebook_path@) {
            Some(b) => r is Some && r->0@ == b,
            None => r is None,
        },
{
    let op = match parent_of(output_path) {
        Some(op) => op,
        None => {
            return None;
        },
    };
    let sp = match parent_of(notebook_path) {
        Some(sp) => sp,
        None => {
            return None;
        },
    };
    let n = component_count(op.as_str());
    let mut up = String::new();
    let up_step = "..";
    proof {
        reveal_strlit("..");
    }
    assert(up_step@ =~= seq!['.', '.']);
    for k in 0..n
        invariant
            up@ == up_levels(k as nat),
            up_step@ == seq!['.', '.'],
    {
        up = join_paths(up.as_str(), up_step);
    }
    Some(join_paths(up.as_str(), sp.as_str()))
}

/// Text without relative references from index `i` on is left as it is.
proof fn lemma_splice_absolute(s: Seq<char>, b: Seq<(int, int)>, base: Seq<char>, i: int, from: int)
    requires
        ordered_spans(b, 0, s.len() as int),
        0 <= i <= b.len(),
        0 <= from <= s.len(),
        i < b.len() ==> from <= b[i].0,
        forall|j: int| i <= j < b.len() ==> is_absolute_ref(s.subrange(#[trigger] b[j].0, b[j].1)),
    ensures
        splice_from(s, b, base, i, from) == s.subrange(from, s.len() as int),
    decreases b.len() - i,
{
    if i < b.len() {
        if i + 1 < b.len() {
            assert(b[i].1 <= b[i + 1].0);
        }
        lemma_splice_absolute(s, b, base, i + 1, b[i].1);
        assert(is_absolute_ref(s.subrange(b[i].0, b[i].1)));
        assert(s.subrange(from, b[i].0) + s.subrange(b[i].0, b[i].1) + s.subrange(
            b[i].1,
            s.len() as int,
        ) =~= s.subrange(from, s.len() as int));
    }
}

/// Relocating a text that holds no relative reference gives it back
/// unchanged, whatever the two locations are.
pub proof fn lemma_relocate_without_relative(output: Seq<char>, source: Seq<char>, s: Seq<char>)
    requires
        !has_relative_ref(s),
    ensures
        spec_relocate(output, source, s) == Some(s),
{
    lemma_scan_ordered(s, 0);
    let b = spec_scan(s);
    lemma_splice_absolute(s, b, Seq::empty(), 0, 0);
    assert(s.subrange(0, s.len() as int) =~= s);
}

/// Rewrites each relative image reference of `markdown` so that it leads,
/// from the directory of `output_path`, to where it led from the directory
/// of `notebook_path`: one `..` per component of the output's directory,
/// then the notebook's directory, then the reference. Absolute paths and
/// `http://` or `https://` addresses stay as they are.
///
/// Returns `None` where a relative reference exists and either path has no
/// parent directory.
pub fn replace_paths(output_path: &str, notebook_path: &str, markdown: String) -> (r: Option<
    String,
>)
    ensures
        match spec_relocate(output_path@, notebook_path@, markdown@) {
            Some(t) => r is Some && r->0@ == t,
            None => r is None,
        },
{
    let s = chars_of(markdown.as_str());
    let spans = scan(&s);
    proof {
        lemma_scan_ordered(s@, 0);
        assert(spans_view(spans@) =~= spec_scan(s@));
    }
    let base = if any_relative(&s, &spans) {
        match base_path(output_path, notebook_path) {
            Some(b) => b,
            None => {
                return None;
            },
        }
    } else {
        String::new()
    };
    Some(splice(&s, &spans, &base))
}

/// Whether some of the bounds `spans` hold a relative reference of `s`.
fn any_relative(s: &Vec<char>, spans: &Vec<(usize, usize)>) -> (r: bool)
    requires
        ordered_spans(spans_view(spans@), 0, s@.len() as int),
    ensures
        r == relative_in(s@, spans_view(spans@)),
{
    let ghost b = spans_view(spans@);
    for i in 0..spans.len()
        invariant
            b == spans_view(spans@),
            ordered_spans(b, 0, s@.len() as int),
            forall|j: int| 0 <= j < i ==> is_absolute_ref(s@.subrange(#[trigger] b[j].0, b[j].1)),
    {
        let (st, en) = spans[i];
        assert(b[i as int] == (st as int, en as int));
        let p = slice_of(&s, st, en);
        if !is_absolute(&p) {
            return true;
        }
    }
    false
}

/// `s` with the relative references inside `spans` joined onto `base`.
fn splice(s: &Vec<char>, spans: &Vec<(usize, usize)>, base: &String) -> (r: String)
    requires
        ordered_spans(spans_view(spans@), 0, s@.len() as int),
    ensures
        r@ == splice_from(s@, spans_view(spans@), base@, 0, 0),
{
    let ghost b = spans_view(spans@);
    let mut out = String::new();
    let mut from: usize = 0;
    for i in 0..spans.len()
        invariant
            b == spans_view(spans@),
            ordered_spans(b, 0, s@.len() as int),
            from <= s@.len(),
            i < b.len() ==> from <= b[i as int].0,
            splice_from(s@, b, base@, 0, 0) == out@ + splice_from(s@, b, base@, i as int, from as int),
    {
        let (st, en) = spans[i];
        assert(b[i as int] == (st as int, en as int));
        if i + 1 < spans.len() {
            assert(b[i + 1].0 >= b[i + 1 - 1].1);
        }
        let ghost before = out@;
        let p = slice_of(s, st, en);
        let gap = slice_of(s, from, st);
        push_chars(&mut out, &gap);
        if is_absolute(&p) {
            push_chars(&mut out, &p);
        } else {
            let ps = string_of(&p);
            let joined = join_paths(base.as_str(), ps.as_str());
            out.append(joined.as_str());
        }
        assert(out@ + splice_from(s@, b, base@, i + 1, en as int) =~= before + splice_from(
            s@,
            b,
            base@,
            i as int,
            from as int,
        ));
        from = en;
    }
    let tail = slice_of(s, from, s.len());
    push_chars(&mut out, &tail);
    assert(out@ =~= splice_from(s@, b, base@, 0, 0));
    out
}

} // verus!
