//! Notebook cells and their conversion into presentation pages.
//!
//! A markdown cell may hold command regions: lines from one that starts with
//! `<!--!` to one that ends with `-->` (both after trimming), possibly the
//! same line. The text inside a region is a command list (see
//! [`crate::commands`]). Commands start pages, switch on or off the copying
//! of the cell's other lines onto the latest page, inject text, fill image
//! templates and set page classes.

use vstd::prelude::*;

use crate::commands::{parse, spec_parse, Command, CommandModel, ParseError, ParseErrorModel};
use crate::path::{ref_paths, replace_paths, spec_fill, spec_relocate, wrap_image, WrapError,
    WrapErrorModel};
use crate::text::{
    chars_of, ends_with, extend_chars, has_suffix, occurs, occurs_at,
    push_chars, slice_of, string_of, trim, trimmed,
};

verus! {

/// The metadata of a cell.
pub struct Metadata {
    /// The cell's tags.
    pub tags: Option<Vec<String>>,
}

/// An output that a code cell recorded.
pub enum Output {
    /// The cell failed.
    Error {
        /// The kind of error.
        ename: String,
        /// What went wrong.
        evalue: String,
    },
    /// The cell wrote to a stream.
    Stream {
        /// The lines written.
        text: Vec<String>,
    },
    /// Any other output.
    Other,
}

/// One cell of a notebook.
pub struct Cell {
    /// The kind of cell, such as `markdown` or `code`.
    pub cell_type: String,
    /// The cell's metadata.
    pub metadata: Metadata,
    /// What a code cell recorded when it ran.
    pub outputs: Option<Vec<Output>>,
    /// The cell's lines, each normally ending with a line break.
    pub source: Vec<String>,
}

/// Why a cell could not be converted.
#[derive(Debug, PartialEq, Eq)]
pub enum CellError {
    /// The command region on lines `first..=last` does not parse.
    Parse { first: usize, last: usize, error: ParseError },
    /// Something was to go onto the latest page at line `line`, but there is
    /// no page yet.
    UninitializedPage { line: usize },
    /// The command region that opens on line `first` is never closed.
    UnterminatedCommandRegion { first: usize },
    /// Only markdown cells have a source without commands. Holds the type.
    UnsupportedCellType(String),
}

/// What a [`CellError`] stands for.
pub enum CellErrorModel {
    Parse { first: nat, last: nat, error: ParseErrorModel },
    UninitializedPage { line: nat },
    UnterminatedCommandRegion { first: nat },
    UnsupportedCellType(Seq<char>),
}

impl View for CellError {
    type V = CellErrorModel;

    open spec fn view(&self) -> CellErrorModel {
        match self {
            CellError::Parse { first, last, error } => CellErrorModel::Parse {
                first: *first as nat,
                last: *last as nat,
                error: error@,
            },
            CellError::UninitializedPage { line } => CellErrorModel::UninitializedPage {
                line: *line as nat,
            },
            CellError::UnterminatedCommandRegion { first } =>
                CellErrorModel::UnterminatedCommandRegion { first: *first as nat },
            CellError::UnsupportedCellType(t) => CellErrorModel::UnsupportedCellType(t@),
        }
    }
}

// ---------------------------------------------------------------------------
// Command regions
pub open spec fn start_marker() -> Seq<char> {
    seq!['<', '!', '-', '-', '!']
}

pub open spec fn end_marker() -> Seq<char> {
    seq!['-', '-', '>']
}

/// A trimmed line that opens a command region.
pub open spec fn opens(t: Seq<char>) -> bool {
    occurs_at(t, 0, start_marker())
}

/// A trimmed line that may close a command region.
pub open spec fn closes(t: Seq<char>) -> bool {
    has_suffix(t, end_marker())
}

/// A region is still open after the first `k` lines.
pub open spec fn open_after(lines: Seq<Seq<char>>, k: int) -> bool
    decreases k,
{
    if k <= 0 {
        false
    } else {
        let t = trim(lines[k - 1]);
        (open_after(lines, k - 1) || opens(t)) && !closes(t)
    }
}

/// The line on which the latest region among the first `k` lines opened.
pub open spec fn region_first(lines: Seq<Seq<char>>, k: int) -> int
    decreases k,
{
    if k <= 0 {
        0
    } else if !open_after(lines, k - 1) && opens(trim(lines[k - 1])) {
        k - 1
    } else {
        region_first(lines, k - 1)
    }
}

/// Line `i` belongs to a command region.
pub open spec fn in_region(lines: Seq<Seq<char>>, i: int) -> bool {
    open_after(lines, i) || opens(trim(lines[i]))
}

/// The command text of a trimmed region line: without the markers it holds.
pub open spec fn command_piece(t: Seq<char>) -> Seq<char> {
    if opens(t) && closes(t) {
        t.subrange(5, t.len() - 3)
    } else if opens(t) {
        t.subrange(5, t.len() as int)
    } else if closes(t) {
        t.subrange(0, t.len() - 3)
    } else {
        t
    }
}

/// The lines from `i` on that lie outside every command region, joined.
pub open spec fn strip_from(lines: Seq<Seq<char>>, i: int) -> Seq<char>
    decreases lines.len() - i,
{
    if 0 <= i < lines.len() {
        (if in_region(lines, i) {
            Seq::empty()
        } else {
            lines[i]
        }) + strip_from(lines, i + 1)
    } else {
        Seq::empty()
    }
}

/// The cell's text without its command regions.
pub open spec fn stripped(lines: Seq<Seq<char>>) -> Seq<char> {
    strip_from(lines, 0)
}

/// A line as it goes onto a page: with a line break at its end.
pub open spec fn page_line(l: Seq<char>) -> Seq<char> {
    if has_suffix(l, seq!['\n']) {
        l
    } else {
        l.push('\n')
    }
}

/// What goes before a page whose class is `c`.
pub open spec fn class_prefix(c: Seq<char>) -> Seq<char> {
    seq!['c', 'l', 'a', 's', 's', ':', ' '] + c + seq!['\n', '\n']
}

pub open spec fn is_markdown(t: Seq<char>) -> bool {
    t == seq!['m', 'a', 'r', 'k', 'd', 'o', 'w', 'n']
}

// ---------------------------------------------------------------------------
// The state of a conversion
/// The pages so far, the class waiting for the next page break, whether the
/// cell's lines go onto the latest page, and the skipped image templates.
pub struct PageState {
    pub pages: Seq<Seq<char>>,
    pub class: Option<Seq<char>>,
    pub add: bool,
    pub skipped: Seq<WrapErrorModel>,
}

/// A state, and the error that stopped the cell if one did.
pub struct Outcome {
    pub state: PageState,
    pub error: Option<CellErrorModel>,
}

pub open spec fn go_on(st: PageState) -> Outcome {
    Outcome { state: st, error: None }
}

pub open spec fn fail(st: PageState, e: CellErrorModel) -> Outcome {
    Outcome { state: st, error: Some(e) }
}

/// `st` with `x` added to its latest page.
pub open spec fn add_to_last(st: PageState, x: Seq<char>) -> PageState {
    PageState {
        pages: st.pages.update(st.pages.len() - 1, st.pages.last() + x),
        ..st
    }
}

/// One command applied to `st`. `text` is the cell without its command
/// regions, `line` the line on which the command's region closes.
pub open spec fn apply_command(c: CommandModel, st: PageState, text: Seq<char>, line: nat) -> Outcome {
    match c {
        CommandModel::NewPage => match st.class {
            Some(cl) => if st.pages.len() == 0 {
                fail(st, CellErrorModel::UninitializedPage { line })
            } else {
                go_on(
                    PageState {
                        pages: st.pages.update(
                            st.pages.len() - 1,
                            class_prefix(cl) + st.pages.last(),
                        ).push(Seq::empty()),
                        class: None,
                        ..st
                    },
                )
            },
            None => go_on(PageState { pages: st.pages.push(Seq::empty()), ..st }),
        },
        CommandModel::StartAddToPage => go_on(PageState { add: true, ..st }),
        CommandModel::StopAddToPage => go_on(PageState { add: false, ..st }),
        CommandModel::InjectToPage(t) => if st.pages.len() == 0 {
            fail(st, CellErrorModel::UninitializedPage { line })
        } else {
            go_on(add_to_last(st, t))
        },
        CommandModel::WrapImage(t) => if st.pages.len() == 0 {
            fail(st, CellErrorModel::UninitializedPage { line })
        } else {
            match spec_fill(t, ref_paths(text)) {
                Ok(w) => go_on(add_to_last(st, w)),
                Err(e) => go_on(PageState { skipped: st.skipped.push(e), ..st }),
            }
        },
        CommandModel::PageClass(t) => go_on(PageState { class: Some(t), ..st }),
    }
}

/// The commands from index `j` on applied to `st` in order, up to the first
/// error.
pub open spec fn apply_from(
    cmds: Seq<CommandModel>,
    j: int,
    st: PageState,
    text: Seq<char>,
    line: nat,
) -> Outcome
    decreases cmds.len() - j,
{
    if 0 <= j < cmds.len() {
        let o = apply_command(cmds[j], st, text, line);
        if o.error is Some {
            o
        } else {
            apply_from(cmds, j + 1, o.state, text, line)
        }
    } else {
        go_on(st)
    }
}

/// The lines from `i` on processed from `st`, `buf` holding the command text
/// of the region that is open; up to the first error.
pub open spec fn run_from(
    lines: Seq<Seq<char>>,
    i: int,
    st: PageState,
    buf: Seq<char>,
) -> Outcome
    decreases lines.len() - i,
{
    if 0 <= i < lines.len() {
        let t = trim(lines[i]);
        if in_region(lines, i) {
            let b = buf + command_piece(t);
            if closes(t) {
                let stream = trim(b);
                if stream.len() == 0 {
                    run_from(lines, i + 1, st, Seq::empty())
                } else {
                    match spec_parse(stream) {
                        Err(e) => fail(
                            st,
                            CellErrorModel::Parse {
                                first: region_first(lines, i + 1) as nat,
                                last: i as nat,
                                error: e,
                            },
                        ),
                        Ok(cmds) => {
                            let o = apply_from(cmds, 0, st, stripped(lines), i as nat);
                            if o.error is Some {
                                o
                            } else {
                                run_from(lines, i + 1, o.state, Seq::empty())
                            }
                        },
                    }
                }
            } else {
                run_from(lines, i + 1, st, b)
            }
        } else if st.add {
            if st.pages.len() == 0 {
                fail(st, CellErrorModel::UninitializedPage { line: i as nat })
            } else {
                run_from(lines, i + 1, add_to_last(st, page_line(lines[i])), buf)
            }
        } else {
            run_from(lines, i + 1, st, buf)
        }
    } else {
        go_on(st)
    }
}

/// A cell of type `cell_type` with lines `lines`, processed on top of
/// `pages` and the waiting class `class`.
///
/// Only markdown cells do anything. A cell whose last region is never closed
/// fails before it changes anything; otherwise its lines are processed in
/// order, up to the first error.
pub open spec fn spec_process(
    cell_type: Seq<char>,
    lines: Seq<Seq<char>>,
    pages: Seq<Seq<char>>,
    class: Option<Seq<char>>,
) -> Outcome {
    let st = PageState { pages, class, add: false, skipped: Seq::empty() };
    if !is_markdown(cell_type) {
        go_on(st)
    } else if open_after(lines, lines.len() as int) {
        fail(
            st,
            CellErrorModel::UnterminatedCommandRegion {
                first: region_first(lines, lines.len() as int) as nat,
            },
        )
    } else {
        run_from(lines, 0, st, Seq::empty())
    }
}

// ---------------------------------------------------------------------------
// Views of executable values
pub open spec fn strings_view(v: Seq<String>) -> Seq<Seq<char>> {
    v.map_values(|s: String| s@)
}

pub open spec fn class_view(c: Option<String>) -> Option<Seq<char>> {
    match c {
        Some(s) => Some(s@),
        None => None,
    }
}

pub open spec fn wrap_errors_view(v: Seq<WrapError>) -> Seq<WrapErrorModel> {
    v.map_values(|e: WrapError| e@)
}

impl Cell {
    /// The cell's lines as character sequences.
    pub open spec fn lines(&self) -> Seq<Seq<char>> {
        strings_view(self.source@)
    }
}

// ---------------------------------------------------------------------------
// Lemmas on regions
/// A line that both opens and closes a region holds both markers whole.
proof fn lemma_markers_apart(t: Seq<char>)
    requires
        opens(t),
        closes(t),
    ensures
        t.len() >= 8,
{
    assert(t.subrange(0, 5)[4] == '!');
    assert(t.subrange(0, 5)[3] == '-');
    assert(t.subrange(0, 5)[2] == '-');
    let e = t.len() - 3;
    assert(t.subrange(e, t.len() as int)[0] == '-');
    assert(t.subrange(e, t.len() as int)[1] == '-');
    assert(t.subrange(e, t.len() as int)[2] == '>');
    if t.len() == 5 {
        assert(t[4] == '>');
    } else if t.len() == 6 {
        assert(t[4] == '-');
    } else if t.len() == 7 {
        assert(t[4] == '-');
    }
}

/// A markdown cell whose last command region is never closed is reported as
/// such, and leaves the pages and the waiting class as they were.
pub proof fn lemma_unterminated_region_changes_nothing(
    lines: Seq<Seq<char>>,
    pages: Seq<Seq<char>>,
    class: Option<Seq<char>>,
)
    requires
        open_after(lines, lines.len() as int),
    ensures
        ({
            let o = spec_process(seq!['m', 'a', 'r', 'k', 'd', 'o', 'w', 'n'], lines, pages, class);
            &&& o.state.pages == pages
            &&& o.state.class == class
            &&& o.error == Some(
                CellErrorModel::UnterminatedCommandRegion {
                    first: region_first(lines, lines.len() as int) as nat,
                },
            )
        }),
{
}

// ---------------------------------------------------------------------------
// Executable parts
/// The state made of the executable values.
pub open spec fn state_of(
    pages: Seq<String>,
    class: Option<String>,
    add: bool,
    skipped: Seq<WrapError>,
) -> PageState {
    PageState {
        pages: strings_view(pages),
        class: class_view(class),
        add,
        skipped: wrap_errors_view(skipped),
    }
}

fn is_markdown_type(t: &String) -> (r: bool)
    ensures
        r == is_markdown(t@),
{
    let c = chars_of(t.as_str());
    let kw = vec!['m', 'a', 'r', 'k', 'd', 'o', 'w', 'n'];
    assert(kw@ =~= seq!['m', 'a', 'r', 'k', 'd', 'o', 'w', 'n']);
    let r = c.len() == kw.len() && occurs(&c, 0, &kw);
    proof {
        if c@.len() == 8 {
            assert(c@ =~= c@.subrange(0, 8));
        }
    }
    r
}

fn opens_line(t: &Vec<char>) -> (r: bool)
    ensures
        r == opens(t@),
{
    let m = vec!['<', '!', '-', '-', '!'];
    assert(m@ =~= start_marker());
    occurs(t, 0, &m)
}

fn closes_line(t: &Vec<char>) -> (r: bool)
    ensures
        r == closes(t@),
{
    let m = vec!['-', '-', '>'];
    assert(m@ =~= end_marker());
    ends_with(t, &m)
}

/// The command text of the trimmed region line `t`.
fn piece_of(t: &Vec<char>, op: bool, cl: bool) -> (r: Vec<char>)
    requires
        op == opens(t@),
        cl == closes(t@),
    ensures
        r@ == command_piece(t@),
{
    if op && cl {
        proof {
            lemma_markers_apart(t@);
        }
        slice_of(t, 5, t.len() - 3)
    } else if op {
        slice_of(t, 5, t.len())
    } else if cl {
        slice_of(t, 0, t.len() - 3)
    } else {
        let r = slice_of(t, 0, t.len());
        assert(r@ =~= t@);
        r
    }
}

/// The trimmed characters of line `i` of `lines`.
fn trimmed_line(lines: &Vec<String>, i: usize) -> (r: Vec<char>)
    requires
        i < lines.len(),
    ensures
        r@ == trim(strings_view(lines@)[i as int]),
{
    trimmed(&chars_of(lines[i].as_str()))
}

/// Whether a region is still open after all lines, and where the latest
/// region opened.
fn region_state(lines: &Vec<String>) -> (r: (bool, usize))
    ensures
        r.0 == open_after(strings_view(lines@), lines@.len() as int),
        r.1 == region_first(strings_view(lines@), lines@.len() as int),
{
    let ghost sv = strings_view(lines@);
    let mut within = false;
    let mut first: usize = 0;
    for i in 0..lines.len()
        invariant
            sv == strings_view(lines@),
            within == open_after(sv, i as int),
            first == region_first(sv, i as int),
    {
        let t = trimmed_line(lines, i);
        let op = opens_line(&t);
        let cl = closes_line(&t);
        if !within && op {
            first = i;
        }
        within = (within || op) && !cl;
    }
    (within, first)
}

/// The lines that lie outside every command region, joined.
fn strip_regions(lines: &Vec<String>) -> (r: String)
    ensures
        r@ == stripped(strings_view(lines@)),
{
    let ghost sv = strings_view(lines@);
    let mut out = String::new();
    let mut within = false;
    for i in 0..lines.len()
        invariant
            sv == strings_view(lines@),
            within == open_after(sv, i as int),
            stripped(sv) == out@ + strip_from(sv, i as int),
    {
        let t = trimmed_line(lines, i);
        let op = opens_line(&t);
        let cl = closes_line(&t);
        let ghost before = out@;
        if !(within || op) {
            out.append(lines[i].as_str());
        }
        assert(out@ + strip_from(sv, i + 1) =~= before + strip_from(sv, i as int));
        within = (within || op) && !cl;
    }
    assert(strip_from(sv, lines@.len() as int) =~= Seq::<char>::empty());
    assert(out@ + Seq::<char>::empty() =~= out@);
    out
}

/// Adds `x` to the latest page.
fn append_to_last(pages: &mut Vec<String>, x: &str)
    requires
        old(pages).len() > 0,
    ensures
        final(pages).len() == old(pages).len(),
        strings_view(final(pages)@) == strings_view(old(pages)@).update(
            old(pages).len() - 1,
            strings_view(old(pages)@).last() + x@,
        ),
{
    let mut last = pages.pop().unwrap();
    last.append(x);
    pages.push(last);
    assert(strings_view(pages@) =~= strings_view(old(pages)@).update(
        old(pages).len() - 1,
        strings_view(old(pages)@).last() + x@,
    ));
}

/// Puts the class `c` before the latest page.
fn prefix_last(pages: &mut Vec<String>, c: &String)
    requires
        old(pages).len() > 0,
    ensures
        strings_view(final(pages)@) == strings_view(old(pages)@).update(
            old(pages).len() - 1,
            class_prefix(c@) + strings_view(old(pages)@).last(),
        ),
{
    let last = pages.pop().unwrap();
    let mut page = String::new();
    let head = vec!['c', 'l', 'a', 's', 's', ':', ' '];
    let breaks = vec!['\n', '\n'];
    push_chars(&mut page, &head);
    page.append(c.as_str());
    push_chars(&mut page, &breaks);
    page.append(last.as_str());
    pages.push(page);
    assert(class_prefix(c@) + strings_view(old(pages)@).last() =~= page@);
    assert(strings_view(pages@) =~= strings_view(old(pages)@).update(
        old(pages).len() - 1,
        class_prefix(c@) + strings_view(old(pages)@).last(),
    ));
}

/// Applies `cmds` in order, up to the first error, as `apply_from` says.
fn apply_commands(
    cmds: &Vec<Command>,
    pages: &mut Vec<String>,
    class: &mut Option<String>,
    add: &mut bool,
    skipped: &mut Vec<WrapError>,
    text: &str,
    line: usize,
) -> (r: Result<(), CellError>)
    ensures
        ({
            let o = apply_from(
                cmds@.map_values(|c: Command| c@),
                0,
                state_of(old(pages)@, *old(class), *old(add), old(skipped)@),
                text@,
                line as nat,
            );
            &&& state_of(final(pages)@, *final(class), *final(add), final(skipped)@) == o.state
            &&& match r {
                Ok(_) => o.error is None,
                Err(e) => o.error == Some(e@),
            }
        }),
{
    let ghost cv = cmds@.map_values(|c: Command| c@);
    let ghost total = apply_from(
        cv,
        0,
        state_of(pages@, *class, *add, skipped@),
        text@,
        line as nat,
    );
    for j in 0..cmds.len()
        invariant
            cv == cmds@.map_values(|c: Command| c@),
            total == apply_from(
                cv,
                0,
                state_of(old(pages)@, *old(class), *old(add), old(skipped)@),
                text@,
                line as nat,
            ),
            total == apply_from(
                cv,
                j as int,
                state_of(pages@, *class, *add, skipped@),
                text@,
                line as nat,
            ),
    {
        let ghost st = state_of(pages@, *class, *add, skipped@);
        assert(cv[j as int] == cmds@[j as int]@);
        let ghost o1 = apply_command(cv[j as int], st, text@, line as nat);
        assert(total == (if o1.error is Some {
            o1
        } else {
            apply_from(cv, j + 1, o1.state, text@, line as nat)
        }));
        match &cmds[j] {
            Command::NewPage => {
                match class {
                    Some(cl) => {
                        if pages.len() == 0 {
                            return Err(CellError::UninitializedPage { line });
                        }
                        prefix_last(pages, cl);
                    },
                    None => {},
                }
                *class = None;
                pages.push(String::new());
                assert(strings_view(pages@) =~= (match st.class {
                    Some(cl) => st.pages.update(
                        st.pages.len() - 1,
                        class_prefix(cl) + st.pages.last(),
                    ),
                    None => st.pages,
                }).push(Seq::empty()));
            },
            Command::StartAddToPage => {
                *add = true;
            },
            Command::StopAddToPage => {
                *add = false;
            },
            Command::InjectToPage(t) => {
                if pages.len() == 0 {
                    return Err(CellError::UninitializedPage { line });
                }
                append_to_last(pages, t.as_str());
            },
            Command::WrapImage(t) => {
                if pages.len() == 0 {
                    return Err(CellError::UninitializedPage { line });
                }
                match wrap_image(text, t.as_str()) {
                    Ok(w) => {
                        append_to_last(pages, w.as_str());
                    },
                    Err(e) => {
                        skipped.push(e);
                        assert(wrap_errors_view(skipped@) =~= st.skipped.push(e@));
                    },
                }
            },
            Command::PageClass(t) => {
                *class = Some(t.clone());
            },
        }
    }
    Ok(())
}

impl Cell {
    /// The cell's text without its command regions: the lines outside every
    /// region, joined. Only markdown cells have one.
    pub fn get_source_without_commands_comment(&self) -> (r: Result<String, CellError>)
        ensures
            is_markdown(self.cell_type@) ==> r is Ok && r->Ok_0@ == stripped(self.lines()),
            !is_markdown(self.cell_type@) ==> r is Err && r->Err_0@
                == CellErrorModel::UnsupportedCellType(self.cell_type@),
    {
        if is_markdown_type(&self.cell_type) {
            Ok(strip_regions(&self.source))
        } else {
            Err(CellError::UnsupportedCellType(self.cell_type.clone()))
        }
    }
}

/// Processes line `i` of a markdown cell whose lines are `lines` and whose
/// text without command regions is `text`, as `run_from` does it.
#[verifier::rlimit(40)]
fn process_line(
    lines: &Vec<String>,
    i: usize,
    text: &str,
    pages: &mut Vec<String>,
    page_class: &mut Option<String>,
    add: &mut bool,
    skipped: &mut Vec<WrapError>,
    buf: &mut Vec<char>,
    within: &mut bool,
    first: &mut usize,
) -> (r: Result<(), CellError>)
    requires
        i < lines.len(),
        text@ == stripped(strings_view(lines@)),
        *old(within) == open_after(strings_view(lines@), i as int),
        *old(first) == region_first(strings_view(lines@), i as int),
    ensures
        *final(within) == open_after(strings_view(lines@), i + 1),
        *final(first) == region_first(strings_view(lines@), i + 1),
        ({
            let o = run_from(
                strings_view(lines@),
                i as int,
                state_of(old(pages)@, *old(page_class), *old(add), old(skipped)@),
                old(buf)@,
            );
            let st = state_of(final(pages)@, *final(page_class), *final(add), final(skipped)@);
            match r {
                Ok(_) => o == run_from(strings_view(lines@), i + 1, st, final(buf)@),
                Err(e) => o == fail(st, e@),
            }
        }),
{
    let ghost sv = strings_view(lines@);
    let ghost st = state_of(pages@, *page_class, *add, skipped@);
    let t = trimmed_line(lines, i);
    let op = opens_line(&t);
    let cl = closes_line(&t);
    let region = *within || op;
    if !*within && op {
        *first = i;
    }
    *within = region && !cl;
    if region {
        let piece = piece_of(&t, op, cl);
        extend_chars(buf, &piece);
        if cl {
            let stream = trimmed(buf);
            *buf = Vec::new();
            assert(buf@ =~= Seq::<char>::empty());
            if stream.len() > 0 {
                let stream_text = string_of(&stream);
                match parse(stream_text.as_str()) {
                    Err(e) => {
                        return Err(CellError::Parse { first: *first, last: i, error: e });
                    },
                    Ok(cmds) => {
                        assert(cmds@.map_values(|c: Command| c@)
                            == crate::commands::commands_view(cmds@));
                        return apply_commands(&cmds, pages, page_class, add, skipped, text, i);
                    },
                }
            }
        }
    } else if *add {
        if pages.len() == 0 {
            return Err(CellError::UninitializedPage { line: i });
        }
        let ghost n = pages@.len();
        let ghost last0 = st.pages.last();
        append_to_last(pages, lines[i].as_str());
        let nl = vec!['\n'];
        assert(nl@ =~= seq!['\n']);
        let line = chars_of(lines[i].as_str());
        assert(line@ == sv[i as int]);
        if !ends_with(&line, &nl) {
            let brk = string_of(&nl);
            let ghost mid = strings_view(pages@);
            append_to_last(pages, brk.as_str());
            assert(mid.last() == last0 + sv[i as int]);
            assert(last0 + sv[i as int] + brk@ =~= last0 + page_line(sv[i as int]));
        }
        assert(strings_view(pages@) =~= add_to_last(st, page_line(sv[i as int])).pages);
    }
    Ok(())
}

impl Cell {
    /// Processes the cell on top of `pages` and the class `page_class` that
    /// waits for the next page break.
    ///
    /// Lines are read in order. A command region is collected until the line
    /// that closes it; its text, trimmed, is then parsed and each command
    /// applied. Lines outside regions go onto the latest page while adding
    /// is on. Adding is off when the cell starts.
    ///
    /// Returns the errors of the image templates that were skipped, or the
    /// first error that stopped the cell; the pages keep what was done
    /// before it. A cell whose last region is never closed changes nothing.
    /// Cells other than markdown cells change nothing.
    pub fn proses_to_presentation(
        &self,
        pages: &mut Vec<String>,
        page_class: &mut Option<String>,
    ) -> (r: Result<Vec<WrapError>, CellError>)
        ensures
            ({
                let o = spec_process(
                    self.cell_type@,
                    self.lines(),
                    strings_view(old(pages)@),
                    class_view(*old(page_class)),
                );
                &&& strings_view(final(pages)@) == o.state.pages
                &&& class_view(*final(page_class)) == o.state.class
                &&& match r {
                    Ok(w) => o.error is None && wrap_errors_view(w@) == o.state.skipped,
                    Err(e) => o.error == Some(e@),
                }
            }),
    {
        let ghost sv = self.lines();
        let ghost total = spec_process(
            self.cell_type@,
            sv,
            strings_view(pages@),
            class_view(*page_class),
        );
        if !is_markdown_type(&self.cell_type) {
            return Ok(Vec::new());
        }
        let (open, first_open) = region_state(&self.source);
        if open {
            return Err(CellError::UnterminatedCommandRegion { first: first_open });
        }
        let text = strip_regions(&self.source);
        let mut add = false;
        let mut skipped: Vec<WrapError> = Vec::new();
        let mut buf: Vec<char> = Vec::new();
        let mut within = false;
        let mut first: usize = 0;
        assert(wrap_errors_view(skipped@) =~= Seq::<WrapErrorModel>::empty());
        assert(buf@ =~= Seq::<char>::empty());
        for i in 0..self.source.len()
            invariant
                sv == strings_view(self.source@),
                text@ == stripped(sv),
                total == spec_process(
                    self.cell_type@,
                    sv,
                    strings_view(old(pages)@),
                    class_view(*old(page_class)),
                ),
                total == run_from(sv, i as int, state_of(pages@, *page_class, add, skipped@), buf@),
                within == open_after(sv, i as int),
                first == region_first(sv, i as int),
        {
            match process_line(
                &self.source,
                i,
                text.as_str(),
                pages,
                page_class,
                &mut add,
                &mut skipped,
                &mut buf,
                &mut within,
                &mut first,
            ) {
                Err(e) => {
                    return Err(e);
                },
                Ok(()) => {},
            }
        }
        Ok(skipped)
    }
}

// ---------------------------------------------------------------------------
// Whole notebooks
/// A notebook: its cells, and where it was read from.
pub struct Notebook {
    /// The cells, in order.
    pub cells: Vec<Cell>,
    /// The location of the notebook file.
    pub path: String,
}

/// Something that went wrong while a notebook was converted. None of these
/// stops the conversion.
#[derive(Debug, PartialEq, Eq)]
pub enum Issue {
    /// The cell with this index failed; what it did before stays.
    CellFailed(usize, CellError),
    /// An image template in the cell with this index was skipped.
    WrapSkipped(usize, WrapError),
    /// A class was still waiting at the end, but there is no page for it.
    UnplacedClass,
}

/// What an [`Issue`] stands for.
pub enum IssueModel {
    CellFailed(nat, CellErrorModel),
    WrapSkipped(nat, WrapErrorModel),
    UnplacedClass,
}

impl View for Issue {
    type V = IssueModel;

    open spec fn view(&self) -> IssueModel {
        match self {
            Issue::CellFailed(i, e) => IssueModel::CellFailed(*i as nat, e@),
            Issue::WrapSkipped(i, e) => IssueModel::WrapSkipped(*i as nat, e@),
            Issue::UnplacedClass => IssueModel::UnplacedClass,
        }
    }
}

pub open spec fn issues_view(v: Seq<Issue>) -> Seq<IssueModel> {
    v.map_values(|x: Issue| x@)
}

/// The pages, the waiting class and the issues of a notebook's conversion.
pub struct DocState {
    pub pages: Seq<Seq<char>>,
    pub class: Option<Seq<char>>,
    pub issues: Seq<IssueModel>,
}

/// The issues that cell `i` adds when its processing ends in `o`.
pub open spec fn cell_issues(i: nat, o: Outcome) -> Seq<IssueModel> {
    match o.error {
        Some(e) => seq![IssueModel::CellFailed(i, e)],
        None => o.state.skipped.map_values(|w: WrapErrorModel| IssueModel::WrapSkipped(i, w)),
    }
}

/// The cells from index `i` on processed in order from `ds`; a failing cell
/// is reported and the next one goes on from what it left.
pub open spec fn cells_from(cells: Seq<Cell>, i: int, ds: DocState) -> DocState
    decreases cells.len() - i,
{
    if 0 <= i < cells.len() {
        let o = spec_process(cells[i].cell_type@, cells[i].lines(), ds.pages, ds.class);
        cells_from(
            cells,
            i + 1,
            DocState {
                pages: o.state.pages,
                class: o.state.class,
                issues: ds.issues + cell_issues(i as nat, o),
            },
        )
    } else {
        ds
    }
}

/// The waiting class, if any, put before the latest page; reported where
/// there is no page.
pub open spec fn place_class(ds: DocState) -> DocState {
    match ds.class {
        Some(c) => if ds.pages.len() == 0 {
            DocState { class: None, issues: ds.issues.push(IssueModel::UnplacedClass), ..ds }
        } else {
            DocState {
                pages: ds.pages.update(ds.pages.len() - 1, class_prefix(c) + ds.pages.last()),
                class: None,
                ..ds
            }
        },
        None => ds,
    }
}

/// The separator between two pages.
pub open spec fn page_separator() -> Seq<char> {
    seq!['\n', '-', '-', '-', '\n', '\n']
}

/// The pages joined, the separator between each two.
pub open spec fn join_pages(pages: Seq<Seq<char>>) -> Seq<char>
    decreases pages.len(),
{
    if pages.len() == 0 {
        Seq::empty()
    } else if pages.len() == 1 {
        pages[0]
    } else {
        join_pages(pages.drop_last()) + page_separator() + pages.last()
    }
}

/// The conversion of the cells: everything but relocation.
pub open spec fn convert_cells(cells: Seq<Cell>) -> DocState {
    place_class(
        cells_from(cells, 0, DocState { pages: Seq::empty(), class: None, issues: Seq::empty() }),
    )
}

/// The text of the presentation made from `cells` of a notebook at `path`,
/// for an output at `output`.
pub open spec fn spec_into_pages(cells: Seq<Cell>, path: Seq<char>, output: Seq<char>) -> Option<
    Seq<char>,
> {
    spec_relocate(output, path, join_pages(convert_cells(cells).pages))
}

/// The pages joined with the page separator.
fn joined_pages(pages: &Vec<String>) -> (r: String)
    ensures
        r@ == join_pages(strings_view(pages@)),
{
    let mut out = String::new();
    let sep = vec!['\n', '-', '-', '-', '\n', '\n'];
    assert(sep@ =~= page_separator());
    for i in 0..pages.len()
        invariant
            sep@ == page_separator(),
            out@ == join_pages(strings_view(pages@).take(i as int)),
    {
        let ghost before = strings_view(pages@).take(i as int);
        if i > 0 {
            push_chars(&mut out, &sep);
        }
        out.append(pages[i].as_str());
        proof {
            let now = strings_view(pages@).take(i + 1);
            assert(now.drop_last() =~= before);
            if i == 0 {
                assert(out@ =~= now[0]);
            }
        }
    }
    assert(strings_view(pages@).take(pages@.len() as int) =~= strings_view(pages@));
    out
}

/// A copy of `e`.
fn copy_wrap_error(e: &WrapError) -> (r: WrapError)
    ensures
        r@ == e@,
{
    match e {
        WrapError::ParseIntError(t) => WrapError::ParseIntError(t.clone()),
        WrapError::SplitError => WrapError::SplitError,
        WrapError::OutOfIndex(k, n) => WrapError::OutOfIndex(*k, *n),
    }
}

/// Processes cell `i` and adds what went wrong to `found`, as `cells_from`
/// does for one cell.
fn convert_cell(
    cell: &Cell,
    i: usize,
    pages: &mut Vec<String>,
    class: &mut Option<String>,
    found: &mut Vec<Issue>,
)
    ensures
        ({
            let o = spec_process(
                cell.cell_type@,
                cell.lines(),
                strings_view(old(pages)@),
                class_view(*old(class)),
            );
            &&& strings_view(final(pages)@) == o.state.pages
            &&& class_view(*final(class)) == o.state.class
            &&& issues_view(final(found)@) == issues_view(old(found)@) + cell_issues(i as nat, o)
        }),
{
    let ghost o = spec_process(
        cell.cell_type@,
        cell.lines(),
        strings_view(pages@),
        class_view(*class),
    );
    let ghost before = issues_view(found@);
    match cell.proses_to_presentation(pages, class) {
        Ok(w) => {
            let ghost all = o.state.skipped.map_values(
                |e: WrapErrorModel| IssueModel::WrapSkipped(i as nat, e),
            );
            for k in 0..w.len()
                invariant
                    wrap_errors_view(w@) == o.state.skipped,
                    all == o.state.skipped.map_values(
                        |e: WrapErrorModel| IssueModel::WrapSkipped(i as nat, e),
                    ),
                    issues_view(found@) == before + all.take(k as int),
            {
                let e = copy_wrap_error(&w[k]);
                assert(wrap_errors_view(w@)[k as int] == w@[k as int]@);
                assert(all[k as int] == IssueModel::WrapSkipped(i as nat, e@));
                let ghost mid = issues_view(found@);
                found.push(Issue::WrapSkipped(i, e));
                assert(issues_view(found@) =~= mid.push(IssueModel::WrapSkipped(i as nat, e@)));
                assert(all.take(k + 1) =~= all.take(k as int).push(all[k as int]));
                assert(issues_view(found@) =~= before + all.take(k + 1));
            }
            assert(all.take(w@.len() as int) =~= all);
        },
        Err(e) => {
            found.push(Issue::CellFailed(i, e));
            assert(issues_view(found@) =~= before + cell_issues(i as nat, o));
        },
    }
}

impl Notebook {
    /// Converts the notebook into the text of a presentation that will be
    /// written to `output_path`.
    ///
    /// The cells are processed in order on one list of pages; a class still
    /// waiting at the end goes before the latest page. The pages are joined
    /// with `"\n---\n\n"`, and the image references are rewritten for the
    /// output's location. What went wrong on the way is added to `issues`.
    ///
    /// Returns `None` where a relative image reference exists and the output
    /// or the notebook path has no parent directory.
    pub fn into_pages(self, output_path: &str, issues: &mut Vec<Issue>) -> (r: Option<String>)
        ensures
            match spec_into_pages(self.cells@, self.path@, output_path@) {
                Some(t) => r is Some && r->0@ == t,
                None => r is None,
            },
            issues_view(final(issues)@) == issues_view(old(issues)@) + convert_cells(
                self.cells@,
            ).issues,
    {
        let ghost start = DocState { pages: Seq::empty(), class: None, issues: Seq::empty() };
        let mut pages: Vec<String> = Vec::new();
        let mut class: Option<String> = None;
        let mut found: Vec<Issue> = Vec::new();
        assert(strings_view(pages@) =~= Seq::<Seq<char>>::empty());
        assert(issues_view(found@) =~= Seq::<IssueModel>::empty());
        for i in 0..self.cells.len()
            invariant
                cells_from(self.cells@, 0, start) == cells_from(
                    self.cells@,
                    i as int,
                    DocState {
                        pages: strings_view(pages@),
                        class: class_view(class),
                        issues: issues_view(found@),
                    },
                ),
        {
            convert_cell(&self.cells[i], i, &mut pages, &mut class, &mut found);
        }
        match class {
            Some(c) => {
                if pages.len() == 0 {
                    found.push(Issue::UnplacedClass);
                } else {
                    prefix_last(&mut pages, &c);
                }
            },
            None => {},
        }
        let ghost old_issues = issues_view(issues@);
        let ghost mine = issues_view(found@);
        issues.append(&mut found);
        assert(issues_view(issues@) =~= old_issues + mine);
        let text = joined_pages(&pages);
        replace_paths(output_path, self.path.as_str(), text)
    }
}

/// The separator that goes before each document of a presentation.
pub open spec fn document_separator() -> Seq<char> {
    seq!['\n', '\n', '-', '-', '-', '\n', '\n']
}

/// The documents from index `i` on, each that is not empty after the
/// separator.
pub open spec fn documents_from(docs: Seq<Seq<char>>, i: int) -> Seq<char>
    decreases docs.len() - i,
{
    if 0 <= i < docs.len() {
        (if docs[i].len() == 0 {
            Seq::empty()
        } else {
            document_separator() + docs[i]
        }) + documents_from(docs, i + 1)
    } else {
        Seq::empty()
    }
}

/// The text of a presentation made of `documents`: each document that is
/// not empty, after `"\n\n---\n\n"`.
pub fn join_documents(documents: &Vec<String>) -> (r: String)
    ensures
        r@ == documents_from(strings_view(documents@), 0),
{
    let ghost dv = strings_view(documents@);
    let mut out = String::new();
    let sep = vec!['\n', '\n', '-', '-', '-', '\n', '\n'];
    assert(sep@ =~= document_separator());
    for i in 0..documents.len()
        invariant
            dv == strings_view(documents@),
            sep@ == document_separator(),
            documents_from(dv, 0) == out@ + documents_from(dv, i as int),
    {
        let ghost before = out@;
        if !documents[i].as_str().is_empty() {
            push_chars(&mut out, &sep);
            out.append(documents[i].as_str());
        }
        assert(dv[i as int] == documents@[i as int]@);
        assert(out@ + documents_from(dv, i + 1) =~= before + documents_from(dv, i as int));
    }
    assert(out@ + documents_from(dv, documents@.len() as int) =~= out@);
    out
}

} // verus!
