//! Target-neutral immutable document algebra and an iterative pretty-printer.
//!
//! A document is a tree of text, line breaks, concatenations, indentation,
//! groups and break-dependent alternatives. A group is laid out flat when its
//! whole content fits in the remaining width of the current line, and broken
//! otherwise; soft lines are spaces in flat mode and newlines in broken mode.
use vstd::prelude::*;

use crate::text::{
    chars_of, char_is_control, decimal, push_decimal, push_text, char_utf8_width, is_control, lemma_utf8_len_all_ascii, lemma_utf8_len_concat,
    lemma_utf8_len_push, sat, spaces, string_capacity, string_from_chars, utf8_len, utf8_length,
    utf8_width,
};

verus! {

/// The mathematical shape of a [`Document`].
pub enum DocView {
    Empty,
    Text { value: Seq<char>, raw: bool },
    SoftLine,
    HardLine,
    Concat(Seq<DocView>),
    Indent { spaces: usize, document: Box<DocView> },
    Group(Box<DocView>),
    IfBreak { broken: Box<DocView>, flat: Box<DocView> },
}

/// The documents that a concatenation keeps: empty documents disappear and
/// the children of nested concatenations are spliced in place.
pub open spec fn flatten(docs: Seq<DocView>) -> Seq<DocView>
    decreases docs.len(),
{
    if docs.len() == 0 {
        Seq::empty()
    } else {
        let rest = flatten(docs.drop_last());
        match docs.last() {
            DocView::Empty => rest,
            DocView::Concat(children) => rest + children,
            other => rest.push(other),
        }
    }
}

/// The view of `Document::concat(docs)`.
pub open spec fn concat_view(docs: Seq<DocView>) -> DocView {
    let flat = flatten(docs);
    if flat.len() == 0 {
        DocView::Empty
    } else if flat.len() == 1 {
        flat[0]
    } else {
        DocView::Concat(flat)
    }
}

/// A document that a concatenation can hold as one child: neither empty nor
/// itself a concatenation.
pub open spec fn flat_child(d: DocView) -> bool {
    d !is Empty && d !is Concat
}

/// The shape every document built by the constructors has: a concatenation
/// holds at least two children, none empty and none a concatenation.
pub open spec fn normal(d: DocView) -> bool {
    match d {
        DocView::Concat(children) => children.len() >= 2 && forall|i: int|
            0 <= i < children.len() ==> flat_child(#[trigger] children[i]),
        _ => true,
    }
}

pub open spec fn all_normal(docs: Seq<DocView>) -> bool {
    forall|i: int| 0 <= i < docs.len() ==> normal(#[trigger] docs[i])
}

proof fn lemma_flatten_append(a: Seq<DocView>, b: Seq<DocView>)
    ensures
        flatten(a + b) == flatten(a) + flatten(b),
    decreases b.len(),
{
    if b.len() == 0 {
        assert(a + b =~= a);
        assert(flatten(a) + flatten(b) =~= flatten(a));
    } else {
        lemma_flatten_append(a, b.drop_last());
        assert((a + b).drop_last() =~= a + b.drop_last());
        assert((a + b).last() == b.last());
        match b.last() {
            DocView::Empty => {},
            DocView::Concat(children) => {
                assert(flatten(a) + flatten(b.drop_last()) + children =~= flatten(a) + (flatten(
                    b.drop_last(),
                ) + children));
            },
            other => {
                assert((flatten(a) + flatten(b.drop_last())).push(other) =~= flatten(a) + flatten(
                    b.drop_last(),
                ).push(other));
            },
        }
    }
}

proof fn lemma_flatten_flat(docs: Seq<DocView>)
    requires
        all_normal(docs),
    ensures
        forall|j: int| 0 <= j < flatten(docs).len() ==> flat_child(#[trigger] flatten(docs)[j]),
    decreases docs.len(),
{
    if docs.len() > 0 {
        lemma_flatten_flat(docs.drop_last());
        let rest = flatten(docs.drop_last());
        assert(normal(docs[docs.len() - 1]));
        match docs.last() {
            DocView::Empty => {},
            DocView::Concat(children) => {
                assert forall|j: int| 0 <= j < flatten(docs).len() implies flat_child(
                    #[trigger] flatten(docs)[j],
                ) by {
                    if j < rest.len() {
                        assert(flatten(docs)[j] == rest[j]);
                    } else {
                        assert(flatten(docs)[j] == children[j - rest.len()]);
                    }
                }
            },
            other => {
                assert forall|j: int| 0 <= j < flatten(docs).len() implies flat_child(
                    #[trigger] flatten(docs)[j],
                ) by {
                    if j < rest.len() {
                        assert(flatten(docs)[j] == rest[j]);
                    }
                }
            },
        }
    }
}

proof fn lemma_flatten_of_flat(docs: Seq<DocView>)
    requires
        forall|j: int| 0 <= j < docs.len() ==> flat_child(#[trigger] docs[j]),
    ensures
        flatten(docs) == docs,
    decreases docs.len(),
{
    if docs.len() > 0 {
        lemma_flatten_of_flat(docs.drop_last());
        assert(flat_child(docs[docs.len() - 1]));
        assert(docs.drop_last().push(docs.last()) =~= docs);
    }
}

/// Concatenating normal documents gives a normal document.
pub proof fn lemma_concat_normal(docs: Seq<DocView>)
    requires
        all_normal(docs),
    ensures
        normal(concat_view(docs)),
{
    lemma_flatten_flat(docs);
}

proof fn lemma_flatten_single_concat(docs: Seq<DocView>)
    requires
        all_normal(docs),
    ensures
        flatten(seq![concat_view(docs)]) == flatten(docs),
{
    lemma_flatten_flat(docs);
    let f = flatten(docs);
    let c = concat_view(docs);
    assert(seq![c].drop_last() =~= Seq::<DocView>::empty());
    assert(flatten(Seq::<DocView>::empty()) =~= Seq::<DocView>::empty());
    if f.len() == 0 {
    } else if f.len() == 1 {
        assert(flat_child(f[0]));
        assert(Seq::<DocView>::empty().push(f[0]) =~= f);
    } else {
        assert(Seq::<DocView>::empty() + f =~= f);
    }
}

/// Concatenating two concatenations is concatenating all their parts.
pub proof fn law_concat_flattens(xs: Seq<DocView>, ys: Seq<DocView>)
    requires
        all_normal(xs),
        all_normal(ys),
    ensures
        concat_view(seq![concat_view(xs), concat_view(ys)]) == concat_view(xs + ys),
{
    lemma_flatten_single_concat(xs);
    lemma_flatten_single_concat(ys);
    lemma_flatten_append(seq![concat_view(xs)], seq![concat_view(ys)]);
    assert(seq![concat_view(xs)] + seq![concat_view(ys)] =~= seq![concat_view(xs), concat_view(ys)]);
    lemma_flatten_append(xs, ys);
}

/// Concatenation is associative on the documents that the constructors build.
pub proof fn law_concat_associative(a: DocView, b: DocView, c: DocView)
    requires
        normal(a),
        normal(b),
        normal(c),
    ensures
        concat_view(seq![concat_view(seq![a, b]), c]) == concat_view(seq![a, concat_view(seq![b, c])]),
{
    assert(all_normal(seq![a, b]));
    assert(all_normal(seq![b, c]));
    assert(all_normal(seq![a]));
    assert(all_normal(seq![c]));
    law_concat_flattens(seq![a, b], seq![c]);
    law_concat_flattens(seq![a], seq![b, c]);
    lemma_single_concat(c);
    lemma_single_concat(a);
    assert(seq![a, b] + seq![c] =~= seq![a] + seq![b, c]);
}

/// A single normal document concatenated alone is itself.
pub proof fn lemma_single_concat(d: DocView)
    requires
        normal(d),
    ensures
        concat_view(seq![d]) == d,
{
    assert(seq![d].drop_last() =~= Seq::<DocView>::empty());
    assert(flatten(Seq::<DocView>::empty()) =~= Seq::<DocView>::empty());
    assert(seq![d].last() == d);
    match d {
        DocView::Empty => {},
        DocView::Concat(children) => {
            assert(Seq::<DocView>::empty() + children =~= children);
        },
        _ => {
            assert(Seq::<DocView>::empty().push(d) =~= seq![d]);
        },
    }
}

/// The empty document is a unit of concatenation.
pub proof fn law_concat_empty_unit(d: DocView)
    requires
        normal(d),
    ensures
        concat_view(seq![DocView::Empty, d]) == d,
        concat_view(seq![d, DocView::Empty]) == d,
{
    lemma_single_concat(d);
    assert(all_normal(seq![DocView::Empty]));
    assert(all_normal(seq![d]));
    lemma_flatten_append(seq![DocView::Empty], seq![d]);
    lemma_flatten_append(seq![d], seq![DocView::Empty]);
    assert(seq![DocView::Empty] + seq![d] =~= seq![DocView::Empty, d]);
    assert(seq![d] + seq![DocView::Empty] =~= seq![d, DocView::Empty]);
    assert(seq![DocView::Empty].drop_last() =~= Seq::<DocView>::empty());
    assert(flatten(Seq::<DocView>::empty()) =~= Seq::<DocView>::empty());
    assert(seq![DocView::Empty].last() == DocView::Empty);
    assert(flatten(seq![DocView::Empty]) =~= Seq::<DocView>::empty());
    assert(Seq::<DocView>::empty() + flatten(seq![d]) =~= flatten(seq![d]));
    assert(flatten(seq![d]) + Seq::<DocView>::empty() =~= flatten(seq![d]));
}

/// `items` with `separator` between each adjacent pair.
pub open spec fn interleave<A>(separator: A, items: Seq<A>) -> Seq<A>
    decreases items.len(),
{
    if items.len() <= 1 {
        items
    } else {
        interleave(separator, items.drop_last()).push(separator).push(items.last())
    }
}

/// Interleaving puts the items at the even positions, in order, and the
/// separator at the odd ones: nothing for no items, the item alone for one.
pub proof fn law_interleave<A>(separator: A, items: Seq<A>)
    ensures
        items.len() == 0 ==> interleave(separator, items) == Seq::<A>::empty(),
        items.len() > 0 ==> interleave(separator, items).len() == 2 * items.len() - 1,
        forall|k: int|
            0 <= k < interleave(separator, items).len() ==> #[trigger] interleave(separator, items)[k] == if k % 2
                == 0 {
                items[k / 2]
            } else {
                separator
            },
    decreases items.len(),
{
    if items.len() > 1 {
        let init = items.drop_last();
        law_interleave(separator, init);
        let r = interleave(separator, items);
        let ri = interleave(separator, init);
        assert forall|k: int| 0 <= k < r.len() implies #[trigger] r[k] == if k % 2 == 0 {
            items[k / 2]
        } else {
            separator
        } by {
            if k < ri.len() {
                assert(r[k] == ri[k]);
                if k % 2 == 0 {
                    assert(init[k / 2] == items[k / 2]);
                }
            }
        }
    } else if items.len() == 1 {
        assert forall|k: int| 0 <= k < interleave(separator, items).len() implies #[trigger] interleave(
            separator,
            items,
        )[k] == if k % 2 == 0 {
            items[k / 2]
        } else {
            separator
        } by {
            assert(k == 0);
        }
    }
}

/// Layout mode of the enclosing group.
#[derive(Clone, Copy, Debug, PartialEq, Eq)]
pub enum LayoutMode {
    Flat,
    Break,
}

#[derive(Clone, Copy, Debug, PartialEq, Eq)]
pub enum FinalNewline {
    Preserve,
    Always,
    Never,
}

#[derive(Clone, Copy, Debug, PartialEq, Eq)]
pub struct RenderLimits {
    pub max_depth: usize,
    pub max_nodes: usize,
    pub max_output_bytes: usize,
}

impl Default for RenderLimits {
    fn default() -> (result: Self)
        ensures
            result.max_depth == 4096,
            result.max_nodes == 1_000_000,
            result.max_output_bytes == 16 * 1024 * 1024,
    {
        RenderLimits { max_depth: 4096, max_nodes: 1_000_000, max_output_bytes: 16 * 1024 * 1024 }
    }
}

#[derive(Clone, Copy, Debug, PartialEq, Eq)]
pub struct RenderOptions {
    pub width: usize,
    pub final_newline: FinalNewline,
    pub limits: RenderLimits,
}

impl Default for RenderOptions {
    fn default() -> (result: Self)
        ensures
            result.width == 100,
            result.final_newline == FinalNewline::Always,
            result.limits.max_depth == 4096,
            result.limits.max_nodes == 1_000_000,
            result.limits.max_output_bytes == 16 * 1024 * 1024,
    {
        RenderOptions {
            width: 100,
            final_newline: FinalNewline::Always,
            limits: RenderLimits::default(),
        }
    }
}

#[derive(Clone, Copy, Debug, Default, PartialEq, Eq)]
pub struct RenderStats {
    pub nodes_visited: usize,
    pub peak_pending_frames: usize,
    pub peak_output_capacity_bytes: usize,
    pub output_bytes: usize,
}

#[derive(Clone, Debug, PartialEq, Eq)]
pub enum RenderError {
    DepthLimit { limit: usize },
    NodeLimit { limit: usize },
    OutputLimit { limit: usize },
}

/// The message of a render error.
pub open spec fn render_error_text(e: RenderError) -> Seq<char> {
    match e {
        RenderError::DepthLimit { limit } => "document depth exceeds limit "@ + decimal(limit as nat),
        RenderError::NodeLimit { limit } => "document traversal exceeds node limit "@ + decimal(
            limit as nat,
        ),
        RenderError::OutputLimit { limit } => "rendered document exceeds "@ + decimal(limit as nat)
            + " bytes"@,
    }
}

impl RenderError {
    /// The error's message.
    pub fn message(&self) -> (result: String)
        ensures
            result@ == render_error_text(*self),
    {
        let mut out: Vec<char> = Vec::new();
        match self {
            RenderError::DepthLimit { limit } => {
                push_text(&mut out, "document depth exceeds limit ");
                push_decimal(&mut out, *limit as u64);
            },
            RenderError::NodeLimit { limit } => {
                push_text(&mut out, "document traversal exceeds node limit ");
                push_decimal(&mut out, *limit as u64);
            },
            RenderError::OutputLimit { limit } => {
                push_text(&mut out, "rendered document exceeds ");
                push_decimal(&mut out, *limit as u64);
                push_text(&mut out, " bytes");
            },
        }
        string_from_chars(&out)
    }
}

#[derive(Clone, Debug, PartialEq, Eq)]
pub struct RenderedDocument {
    pub text: String,
    pub stats: RenderStats,
}

/// What the printer has produced and observed so far.
pub struct Trace {
    pub out: Seq<char>,
    pub column: int,
    pub visited: int,
    pub peak: int,
}

/// Entering a node at `depth`: the depth limit, then the node budget.
pub open spec fn visit(opts: RenderOptions, depth: int, t: Trace) -> Result<Trace, RenderError> {
    if depth > opts.limits.max_depth {
        Err(RenderError::DepthLimit { limit: opts.limits.max_depth })
    } else if sat(t.visited + 1) > opts.limits.max_nodes {
        Err(RenderError::NodeLimit { limit: opts.limits.max_nodes })
    } else {
        Ok(Trace { visited: sat(t.visited + 1), ..t })
    }
}

/// Records that `frames` frames are pending.
pub open spec fn observe(t: Trace, frames: int) -> Trace {
    Trace { peak: if frames > t.peak { frames } else { t.peak }, ..t }
}

/// Whether `additional` more bytes still fit in the output budget.
pub open spec fn room_for(opts: RenderOptions, t: Trace, additional: int) -> bool {
    sat(utf8_len(t.out) + additional) <= opts.limits.max_output_bytes
}

pub open spec fn output_limit(opts: RenderOptions) -> RenderError {
    RenderError::OutputLimit { limit: opts.limits.max_output_bytes }
}

/// Appending plain text (which holds no control characters).
pub open spec fn emit_plain(opts: RenderOptions, value: Seq<char>, t: Trace) -> Result<
    Trace,
    RenderError,
> {
    if !room_for(opts, t, utf8_len(value) as int) {
        Err(output_limit(opts))
    } else {
        Ok(Trace { out: t.out + value, column: sat(t.column + value.len()), ..t })
    }
}

/// Raw text with every CRLF pair and every lone CR turned into LF.
pub open spec fn normalize_newlines(value: Seq<char>) -> Seq<char>
    decreases value.len(),
{
    if value.len() == 0 {
        Seq::empty()
    } else if value[0] == '\r' && value.len() >= 2 && value[1] == '\n' {
        seq!['\n'] + normalize_newlines(value.skip(2))
    } else if value[0] == '\r' {
        seq!['\n'] + normalize_newlines(value.skip(1))
    } else {
        seq![value[0]] + normalize_newlines(value.skip(1))
    }
}

/// Appending raw characters one at a time; a newline resets the column.
pub open spec fn emit_raw(opts: RenderOptions, chars: Seq<char>, t: Trace) -> Result<
    Trace,
    RenderError,
>
    decreases chars.len(),
{
    if chars.len() == 0 {
        Ok(t)
    } else if !room_for(opts, t, utf8_width(chars[0]) as int) {
        Err(output_limit(opts))
    } else {
        emit_raw(
            opts,
            chars.drop_first(),
            Trace {
                out: t.out.push(chars[0]),
                column: if chars[0] == '\n' {
                    0
                } else {
                    sat(t.column + 1)
                },
                ..t
            },
        )
    }
}

/// A newline followed by `indent` spaces.
pub open spec fn emit_line(opts: RenderOptions, indent: int, t: Trace) -> Result<
    Trace,
    RenderError,
> {
    if !room_for(opts, t, sat(1 + indent)) {
        Err(output_limit(opts))
    } else {
        Ok(Trace { out: t.out.push('\n') + spaces(indent as nat), column: indent, ..t })
    }
}

/// The outcome of measuring a group's flat layout.
pub enum FitStep {
    /// Everything measured so far fits; `remaining` columns are left.
    Fits { remaining: int, trace: Trace },
    /// Measuring stopped: the group does not fit flat.
    Overflows { trace: Trace },
}

pub open spec fn contains_newline(value: Seq<char>) -> bool {
    value.contains('\n') || value.contains('\r')
}

/// Measures `d` laid out flat against `remaining` columns. `pending` is the
/// number of measuring frames still waiting below this one.
pub open spec fn fits_doc(
    d: DocView,
    depth: int,
    pending: int,
    remaining: int,
    opts: RenderOptions,
    t: Trace,
) -> Result<FitStep, RenderError>
    decreases d,
{
    match visit(opts, depth, t) {
        Err(e) => Err(e),
        Ok(t) => match d {
            DocView::Empty => Ok(FitStep::Fits { remaining, trace: observe(t, pending) }),
            DocView::Text { value, raw } => {
                if raw && contains_newline(value) {
                    Ok(FitStep::Overflows { trace: t })
                } else if value.len() > remaining {
                    Ok(FitStep::Overflows { trace: t })
                } else {
                    Ok(
                        FitStep::Fits {
                            remaining: remaining - value.len(),
                            trace: observe(t, pending),
                        },
                    )
                }
            },
            DocView::SoftLine => {
                if remaining == 0 {
                    Ok(FitStep::Overflows { trace: t })
                } else {
                    Ok(FitStep::Fits { remaining: remaining - 1, trace: observe(t, pending) })
                }
            },
            DocView::HardLine => Ok(FitStep::Overflows { trace: t }),
            DocView::Concat(children) => fits_seq(
                children,
                sat(depth + 1),
                pending,
                remaining,
                opts,
                observe(t, pending + children.len()),
            ),
            DocView::Indent { spaces, document } => fits_doc(
                *document,
                sat(depth + 1),
                pending,
                remaining,
                opts,
                observe(t, pending + 1),
            ),
            DocView::Group(document) => fits_doc(
                *document,
                sat(depth + 1),
                pending,
                remaining,
                opts,
                observe(t, pending + 1),
            ),
            DocView::IfBreak { broken, flat } => fits_doc(
                *flat,
                sat(depth + 1),
                pending,
                remaining,
                opts,
                observe(t, pending + 1),
            ),
        },
    }
}

/// Measures `docs` in order, stopping at the first overflow.
pub open spec fn fits_seq(
    docs: Seq<DocView>,
    depth: int,
    pending: int,
    remaining: int,
    opts: RenderOptions,
    t: Trace,
) -> Result<FitStep, RenderError>
    decreases docs,
{
    if docs.len() == 0 {
        Ok(FitStep::Fits { remaining, trace: t })
    } else {
        match fits_doc(docs[0], depth, pending + docs.len() - 1, remaining, opts, t) {
            Err(e) => Err(e),
            Ok(FitStep::Overflows { trace }) => Ok(FitStep::Overflows { trace }),
            Ok(FitStep::Fits { remaining, trace }) => fits_seq(
                docs.drop_first(),
                depth,
                pending,
                remaining,
                opts,
                trace,
            ),
        }
    }
}

/// Whether a group whose content is `d` fits flat in `remaining` columns.
pub open spec fn group_fits(
    d: DocView,
    remaining: int,
    depth: int,
    opts: RenderOptions,
    t: Trace,
) -> Result<(bool, Trace), RenderError> {
    match fits_doc(d, depth, 0, remaining, opts, observe(t, 1)) {
        Err(e) => Err(e),
        Ok(FitStep::Fits { remaining, trace }) => Ok((true, trace)),
        Ok(FitStep::Overflows { trace }) => Ok((false, trace)),
    }
}

pub open spec fn remaining_width(opts: RenderOptions, t: Trace) -> int {
    if opts.width >= t.column {
        opts.width - t.column
    } else {
        0
    }
}

/// Lays `d` out at `indent` in `mode`. `pending` is the number of frames that
/// wait below this one.
pub open spec fn render_doc(
    d: DocView,
    indent: int,
    mode: LayoutMode,
    depth: int,
    pending: int,
    opts: RenderOptions,
    t: Trace,
) -> Result<Trace, RenderError>
    decreases d,
{
    match visit(opts, depth, t) {
        Err(e) => Err(e),
        Ok(t) => match d {
            DocView::Empty => Ok(t),
            DocView::Text { value, raw } => {
                if raw {
                    emit_raw(opts, normalize_newlines(value), t)
                } else {
                    emit_plain(opts, value, t)
                }
            },
            DocView::SoftLine => match mode {
                LayoutMode::Flat => emit_plain(opts, seq![' '], t),
                LayoutMode::Break => emit_line(opts, indent, t),
            },
            DocView::HardLine => emit_line(opts, indent, t),
            DocView::Concat(children) => render_seq(
                children,
                indent,
                mode,
                sat(depth + 1),
                pending,
                opts,
                observe(t, pending + children.len()),
            ),
            DocView::Indent { spaces, document } => render_doc(
                *document,
                sat(indent + spaces),
                mode,
                sat(depth + 1),
                pending,
                opts,
                observe(t, pending + 1),
            ),
            DocView::Group(document) => match mode {
                LayoutMode::Flat => render_doc(
                    *document,
                    indent,
                    LayoutMode::Flat,
                    sat(depth + 1),
                    pending,
                    opts,
                    observe(t, pending + 1),
                ),
                LayoutMode::Break => match group_fits(
                    *document,
                    remaining_width(opts, t),
                    sat(depth + 1),
                    opts,
                    t,
                ) {
                    Err(e) => Err(e),
                    Ok((fits, t2)) => render_doc(
                        *document,
                        indent,
                        if fits {
                            LayoutMode::Flat
                        } else {
                            LayoutMode::Break
                        },
                        sat(depth + 1),
                        pending,
                        opts,
                        observe(t2, pending + 1),
                    ),
                },
            },
            DocView::IfBreak { broken, flat } => render_doc(
                match mode {
                    LayoutMode::Flat => *flat,
                    LayoutMode::Break => *broken,
                },
                indent,
                mode,
                sat(depth + 1),
                pending,
                opts,
                observe(t, pending + 1),
            ),
        },
    }
}

/// Lays `docs` out in order.
pub open spec fn render_seq(
    docs: Seq<DocView>,
    indent: int,
    mode: LayoutMode,
    depth: int,
    pending: int,
    opts: RenderOptions,
    t: Trace,
) -> Result<Trace, RenderError>
    decreases docs,
{
    if docs.len() == 0 {
        Ok(t)
    } else {
        match render_doc(docs[0], indent, mode, depth, pending + docs.len() - 1, opts, t) {
            Err(e) => Err(e),
            Ok(t2) => render_seq(docs.drop_first(), indent, mode, depth, pending, opts, t2),
        }
    }
}

/// `s` without its trailing newlines.
pub open spec fn trim_newlines(s: Seq<char>) -> Seq<char>
    decreases s.len(),
{
    if s.len() > 0 && s.last() == '\n' {
        trim_newlines(s.drop_last())
    } else {
        s
    }
}

/// The final-newline policy applied to a finished layout.
pub open spec fn finish(opts: RenderOptions, t: Trace) -> Result<Trace, RenderError> {
    match opts.final_newline {
        FinalNewline::Preserve => Ok(t),
        FinalNewline::Never => Ok(Trace { out: trim_newlines(t.out), ..t }),
        FinalNewline::Always => {
            let trimmed = trim_newlines(t.out);
            if sat(utf8_len(trimmed) + 1int) > opts.limits.max_output_bytes {
                Err(output_limit(opts))
            } else {
                Ok(Trace { out: trimmed.push('\n'), ..t })
            }
        },
    }
}

pub open spec fn initial_trace() -> Trace {
    Trace { out: Seq::empty(), column: 0, visited: 0, peak: 1 }
}

/// The text that the layout of `d` holds before the final-newline policy
/// (empty when the layout fails).
pub open spec fn layout_text(d: DocView, opts: RenderOptions) -> Seq<char> {
    match render_doc(d, 0, LayoutMode::Break, 1, 0, opts, initial_trace()) {
        Err(_) => Seq::empty(),
        Ok(t) => t.out,
    }
}

/// The complete rendering of `d` under `opts`: the layout of the whole
/// document in broken mode at depth one, then the final-newline policy.
pub open spec fn spec_render(d: DocView, opts: RenderOptions) -> Result<Trace, RenderError> {
    match render_doc(d, 0, LayoutMode::Break, 1, 0, opts, initial_trace()) {
        Err(e) => Err(e),
        Ok(t) => finish(opts, t),
    }
}


proof fn lemma_trim_newlines(s: Seq<char>)
    ensures
        trim_newlines(s).len() == 0 || trim_newlines(s).last() != '\n',
        trim_newlines(s).len() <= s.len(),
    decreases s.len(),
{
    if s.len() > 0 && s.last() == '\n' {
        lemma_trim_newlines(s.drop_last());
    }
}

/// Under `FinalNewline::Always` a rendered document ends in exactly one
/// newline; under `FinalNewline::Never` it ends in none.
pub proof fn law_final_newline(d: DocView, opts: RenderOptions)
    ensures
        spec_render(d, opts) matches Ok(t) ==> {
            &&& opts.final_newline == FinalNewline::Always ==> t.out.len() >= 1 && t.out.last() == '\n'
                && (t.out.len() == 1 || t.out[t.out.len() - 2] != '\n')
            &&& opts.final_newline == FinalNewline::Never ==> t.out.len() == 0 || t.out.last() != '\n'
        },
{
    match render_doc(d, 0, LayoutMode::Break, 1, 0, opts, initial_trace()) {
        Err(_) => {},
        Ok(t) => {
            lemma_trim_newlines(t.out);
            let trimmed = trim_newlines(t.out);
            let pushed = trimmed.push('\n');
            assert(pushed.len() == 1 || pushed[pushed.len() - 2] == trimmed.last());
        },
    }
}

/// `opts` with the final-newline policy `policy`.
pub open spec fn with_policy(opts: RenderOptions, policy: FinalNewline) -> RenderOptions {
    RenderOptions { final_newline: policy, ..opts }
}

proof fn lemma_emit_raw_policy(opts: RenderOptions, policy: FinalNewline, chars: Seq<char>, t: Trace)
    ensures
        emit_raw(opts, chars, t) == emit_raw(with_policy(opts, policy), chars, t),
    decreases chars.len(),
{
    if chars.len() > 0 && room_for(opts, t, utf8_width(chars[0]) as int) {
        lemma_emit_raw_policy(
            opts,
            policy,
            chars.drop_first(),
            Trace {
                out: t.out.push(chars[0]),
                column: if chars[0] == '\n' {
                    0
                } else {
                    sat(t.column + 1)
                },
                ..t
            },
        );
    }
}

proof fn lemma_fits_doc_policy(
    d: DocView,
    depth: int,
    pending: int,
    remaining: int,
    opts: RenderOptions,
    policy: FinalNewline,
    t: Trace,
)
    ensures
        fits_doc(d, depth, pending, remaining, opts, t) == fits_doc(
            d,
            depth,
            pending,
            remaining,
            with_policy(opts, policy),
            t,
        ),
    decreases d,
{
    match visit(opts, depth, t) {
        Err(_) => {},
        Ok(t1) => match d {
            DocView::Concat(children) => lemma_fits_seq_policy(
                children,
                sat(depth + 1),
                pending,
                remaining,
                opts,
                policy,
                observe(t1, pending + children.len()),
            ),
            DocView::Indent { spaces, document } => lemma_fits_doc_policy(
                *document,
                sat(depth + 1),
                pending,
                remaining,
                opts,
                policy,
                observe(t1, pending + 1),
            ),
            DocView::Group(document) => lemma_fits_doc_policy(
                *document,
                sat(depth + 1),
                pending,
                remaining,
                opts,
                policy,
                observe(t1, pending + 1),
            ),
            DocView::IfBreak { broken, flat } => lemma_fits_doc_policy(
                *flat,
                sat(depth + 1),
                pending,
                remaining,
                opts,
                policy,
                observe(t1, pending + 1),
            ),
            _ => {},
        },
    }
}

proof fn lemma_fits_seq_policy(
    docs: Seq<DocView>,
    depth: int,
    pending: int,
    remaining: int,
    opts: RenderOptions,
    policy: FinalNewline,
    t: Trace,
)
    ensures
        fits_seq(docs, depth, pending, remaining, opts, t) == fits_seq(
            docs,
            depth,
            pending,
            remaining,
            with_policy(opts, policy),
            t,
        ),
    decreases docs,
{
    if docs.len() > 0 {
        lemma_fits_doc_policy(docs[0], depth, pending + docs.len() - 1, remaining, opts, policy, t);
        match fits_doc(docs[0], depth, pending + docs.len() - 1, remaining, opts, t) {
            Ok(FitStep::Fits { remaining: r, trace }) => lemma_fits_seq_policy(
                docs.drop_first(),
                depth,
                pending,
                r,
                opts,
                policy,
                trace,
            ),
            _ => {},
        }
    }
}

proof fn lemma_render_doc_policy(
    d: DocView,
    indent: int,
    mode: LayoutMode,
    depth: int,
    pending: int,
    opts: RenderOptions,
    policy: FinalNewline,
    t: Trace,
)
    ensures
        render_doc(d, indent, mode, depth, pending, opts, t) == render_doc(
            d,
            indent,
            mode,
            depth,
            pending,
            with_policy(opts, policy),
            t,
        ),
    decreases d,
{
    let o2 = with_policy(opts, policy);
    match visit(opts, depth, t) {
        Err(_) => {},
        Ok(t1) => match d {
            DocView::Text { value, raw } => {
                lemma_emit_raw_policy(opts, policy, normalize_newlines(value), t1);
            },
            DocView::Concat(children) => lemma_render_seq_policy(
                children,
                indent,
                mode,
                sat(depth + 1),
                pending,
                opts,
                policy,
                observe(t1, pending + children.len()),
            ),
            DocView::Indent { spaces, document } => lemma_render_doc_policy(
                *document,
                sat(indent + spaces),
                mode,
                sat(depth + 1),
                pending,
                opts,
                policy,
                observe(t1, pending + 1),
            ),
            DocView::Group(document) => match mode {
                LayoutMode::Flat => lemma_render_doc_policy(
                    *document,
                    indent,
                    LayoutMode::Flat,
                    sat(depth + 1),
                    pending,
                    opts,
                    policy,
                    observe(t1, pending + 1),
                ),
                LayoutMode::Break => {
                    lemma_fits_doc_policy(
                        *document,
                        sat(depth + 1),
                        0,
                        remaining_width(opts, t1),
                        opts,
                        policy,
                        observe(t1, 1),
                    );
                    assert(group_fits(*document, remaining_width(opts, t1), sat(depth + 1), opts, t1)
                        == group_fits(*document, remaining_width(o2, t1), sat(depth + 1), o2, t1));
                    match group_fits(*document, remaining_width(opts, t1), sat(depth + 1), opts, t1) {
                        Err(_) => {},
                        Ok((fits, t2)) => lemma_render_doc_policy(
                            *document,
                            indent,
                            if fits {
                                LayoutMode::Flat
                            } else {
                                LayoutMode::Break
                            },
                            sat(depth + 1),
                            pending,
                            opts,
                            policy,
                            observe(t2, pending + 1),
                        ),
                    }
                },
            },
            DocView::IfBreak { broken, flat } => lemma_render_doc_policy(
                match mode {
                    LayoutMode::Flat => *flat,
                    LayoutMode::Break => *broken,
                },
                indent,
                mode,
                sat(depth + 1),
                pending,
                opts,
                policy,
                observe(t1, pending + 1),
            ),
            _ => {},
        },
    }
}

proof fn lemma_render_seq_policy(
    docs: Seq<DocView>,
    indent: int,
    mode: LayoutMode,
    depth: int,
    pending: int,
    opts: RenderOptions,
    policy: FinalNewline,
    t: Trace,
)
    ensures
        render_seq(docs, indent, mode, depth, pending, opts, t) == render_seq(
            docs,
            indent,
            mode,
            depth,
            pending,
            with_policy(opts, policy),
            t,
        ),
    decreases docs,
{
    if docs.len() > 0 {
        lemma_render_doc_policy(docs[0], indent, mode, depth, pending + docs.len() - 1, opts, policy, t);
        match render_doc(docs[0], indent, mode, depth, pending + docs.len() - 1, opts, t) {
            Ok(t2) => lemma_render_seq_policy(docs.drop_first(), indent, mode, depth, pending, opts, policy, t2),
            _ => {},
        }
    }
}

/// The final-newline policy changes nothing but the end of the text: when
/// the layout of `d` under `Preserve` gives the text `p`, `Never` gives `p`
/// without its trailing newlines, and `Always` gives that with one newline
/// added, or the output-limit error when that newline does not fit. The
/// node and frame counts are the same under every policy.
pub proof fn law_final_newline_only_changes_the_end(d: DocView, opts: RenderOptions)
    ensures
        spec_render(d, with_policy(opts, FinalNewline::Preserve)) matches Ok(p) ==> {
            &&& spec_render(d, with_policy(opts, FinalNewline::Never)) == Ok::<Trace, RenderError>(
                Trace { out: trim_newlines(p.out), ..p },
            )
            &&& match spec_render(d, with_policy(opts, FinalNewline::Always)) {
                Ok(a) => a == Trace { out: trim_newlines(p.out).push('\n'), ..p },
                Err(e) => e == output_limit(opts),
            }
        },
        spec_render(d, with_policy(opts, FinalNewline::Preserve)) is Err ==> spec_render(
            d,
            with_policy(opts, FinalNewline::Never),
        ) == spec_render(d, with_policy(opts, FinalNewline::Preserve)) && spec_render(
            d,
            with_policy(opts, FinalNewline::Always),
        ) == spec_render(d, with_policy(opts, FinalNewline::Preserve)),
{
    let init = initial_trace();
    lemma_render_doc_policy(d, 0, LayoutMode::Break, 1, 0, opts, FinalNewline::Preserve, init);
    lemma_render_doc_policy(d, 0, LayoutMode::Break, 1, 0, opts, FinalNewline::Never, init);
    lemma_render_doc_policy(d, 0, LayoutMode::Break, 1, 0, opts, FinalNewline::Always, init);
}

/// The output of `t` fits the byte budget of `opts` and it has visited no
/// more nodes than the node budget allows.
pub open spec fn within_limits(opts: RenderOptions, t: Trace) -> bool {
    &&& sat(utf8_len(t.out) as int) <= opts.limits.max_output_bytes
    &&& 0 <= t.visited <= opts.limits.max_nodes
}

pub open spec fn step_within(opts: RenderOptions, step: Result<FitStep, RenderError>) -> bool {
    match step {
        Ok(FitStep::Fits { trace, .. }) => within_limits(opts, trace),
        Ok(FitStep::Overflows { trace }) => within_limits(opts, trace),
        Err(_) => true,
    }
}

pub open spec fn result_within(opts: RenderOptions, r: Result<Trace, RenderError>) -> bool {
    r matches Ok(t) ==> within_limits(opts, t)
}

proof fn lemma_spaces_utf8_len(n: nat)
    ensures
        utf8_len(spaces(n)) == n,
{
    assert forall|i: int| 0 <= i < spaces(n).len() implies (#[trigger] spaces(n)[i] as u32) < 0x80 by {}
    lemma_utf8_len_all_ascii(spaces(n));
}

proof fn lemma_emit_raw_within(opts: RenderOptions, chars: Seq<char>, t: Trace)
    requires
        within_limits(opts, t),
    ensures
        result_within(opts, emit_raw(opts, chars, t)),
    decreases chars.len(),
{
    if chars.len() > 0 && room_for(opts, t, utf8_width(chars[0]) as int) {
        lemma_utf8_len_push(t.out, chars[0]);
        lemma_emit_raw_within(
            opts,
            chars.drop_first(),
            Trace {
                out: t.out.push(chars[0]),
                column: if chars[0] == '\n' {
                    0
                } else {
                    sat(t.column + 1)
                },
                ..t
            },
        );
    }
}

proof fn lemma_fits_doc_within(
    d: DocView,
    depth: int,
    pending: int,
    remaining: int,
    opts: RenderOptions,
    t: Trace,
)
    requires
        within_limits(opts, t),
    ensures
        step_within(opts, fits_doc(d, depth, pending, remaining, opts, t)),
    decreases d,
{
    match visit(opts, depth, t) {
        Err(_) => {},
        Ok(t1) => match d {
            DocView::Concat(children) => lemma_fits_seq_within(
                children,
                sat(depth + 1),
                pending,
                remaining,
                opts,
                observe(t1, pending + children.len()),
            ),
            DocView::Indent { spaces, document } => lemma_fits_doc_within(
                *document,
                sat(depth + 1),
                pending,
                remaining,
                opts,
                observe(t1, pending + 1),
            ),
            DocView::Group(document) => lemma_fits_doc_within(
                *document,
                sat(depth + 1),
                pending,
                remaining,
                opts,
                observe(t1, pending + 1),
            ),
            DocView::IfBreak { broken, flat } => lemma_fits_doc_within(
                *flat,
                sat(depth + 1),
                pending,
                remaining,
                opts,
                observe(t1, pending + 1),
            ),
            _ => {},
        },
    }
}

proof fn lemma_fits_seq_within(
    docs: Seq<DocView>,
    depth: int,
    pending: int,
    remaining: int,
    opts: RenderOptions,
    t: Trace,
)
    requires
        within_limits(opts, t),
    ensures
        step_within(opts, fits_seq(docs, depth, pending, remaining, opts, t)),
    decreases docs,
{
    if docs.len() > 0 {
        lemma_fits_doc_within(docs[0], depth, pending + docs.len() - 1, remaining, opts, t);
        match fits_doc(docs[0], depth, pending + docs.len() - 1, remaining, opts, t) {
            Ok(FitStep::Fits { remaining: r, trace }) => lemma_fits_seq_within(
                docs.drop_first(),
                depth,
                pending,
                r,
                opts,
                trace,
            ),
            _ => {},
        }
    }
}

proof fn lemma_render_doc_within(
    d: DocView,
    indent: int,
    mode: LayoutMode,
    depth: int,
    pending: int,
    opts: RenderOptions,
    t: Trace,
)
    requires
        within_limits(opts, t),
        indent >= 0,
    ensures
        result_within(opts, render_doc(d, indent, mode, depth, pending, opts, t)),
    decreases d,
{
    match visit(opts, depth, t) {
        Err(_) => {},
        Ok(t1) => match d {
            DocView::Text { value, raw } => {
                if raw {
                    lemma_emit_raw_within(opts, normalize_newlines(value), t1);
                } else {
                    lemma_utf8_len_concat(t1.out, value);
                }
            },
            DocView::SoftLine => {
                lemma_utf8_len_concat(t1.out, seq![' ']);
                lemma_utf8_len_push(Seq::<char>::empty(), ' ');
                assert(Seq::<char>::empty().push(' ') =~= seq![' ']);
                lemma_utf8_len_push(t1.out, '\n');
                lemma_utf8_len_concat(t1.out.push('\n'), spaces(indent as nat));
                lemma_spaces_utf8_len(indent as nat);
            },
            DocView::HardLine => {
                lemma_utf8_len_push(t1.out, '\n');
                lemma_utf8_len_concat(t1.out.push('\n'), spaces(indent as nat));
                lemma_spaces_utf8_len(indent as nat);
            },
            DocView::Concat(children) => lemma_render_seq_within(
                children,
                indent,
                mode,
                sat(depth + 1),
                pending,
                opts,
                observe(t1, pending + children.len()),
            ),
            DocView::Indent { spaces, document } => lemma_render_doc_within(
                *document,
                sat(indent + spaces),
                mode,
                sat(depth + 1),
                pending,
                opts,
                observe(t1, pending + 1),
            ),
            DocView::Group(document) => match mode {
                LayoutMode::Flat => lemma_render_doc_within(
                    *document,
                    indent,
                    LayoutMode::Flat,
                    sat(depth + 1),
                    pending,
                    opts,
                    observe(t1, pending + 1),
                ),
                LayoutMode::Break => {
                    lemma_fits_doc_within(
                        *document,
                        sat(depth + 1),
                        0,
                        remaining_width(opts, t1),
                        opts,
                        observe(t1, 1),
                    );
                    match group_fits(*document, remaining_width(opts, t1), sat(depth + 1), opts, t1) {
                        Err(_) => {},
                        Ok((fits, t2)) => lemma_render_doc_within(
                            *document,
                            indent,
                            if fits {
                                LayoutMode::Flat
                            } else {
                                LayoutMode::Break
                            },
                            sat(depth + 1),
                            pending,
                            opts,
                            observe(t2, pending + 1),
                        ),
                    }
                },
            },
            DocView::IfBreak { broken, flat } => lemma_render_doc_within(
                match mode {
                    LayoutMode::Flat => *flat,
                    LayoutMode::Break => *broken,
                },
                indent,
                mode,
                sat(depth + 1),
                pending,
                opts,
                observe(t1, pending + 1),
            ),
            _ => {},
        },
    }
}

proof fn lemma_render_seq_within(
    docs: Seq<DocView>,
    indent: int,
    mode: LayoutMode,
    depth: int,
    pending: int,
    opts: RenderOptions,
    t: Trace,
)
    requires
        within_limits(opts, t),
        indent >= 0,
    ensures
        result_within(opts, render_seq(docs, indent, mode, depth, pending, opts, t)),
    decreases docs,
{
    if docs.len() > 0 {
        lemma_render_doc_within(docs[0], indent, mode, depth, pending + docs.len() - 1, opts, t);
        match render_doc(docs[0], indent, mode, depth, pending + docs.len() - 1, opts, t) {
            Ok(t2) => lemma_render_seq_within(docs.drop_first(), indent, mode, depth, pending, opts, t2),
            _ => {},
        }
    }
}

proof fn lemma_trim_utf8_len(s: Seq<char>)
    ensures
        utf8_len(trim_newlines(s)) <= utf8_len(s),
    decreases s.len(),
{
    if s.len() > 0 && s.last() == '\n' {
        lemma_trim_utf8_len(s.drop_last());
    }
}

/// A successful rendering stays within the byte budget and the node budget
/// of its options.
pub proof fn law_render_within_limits(d: DocView, opts: RenderOptions)
    ensures
        spec_render(d, opts) matches Ok(t) ==> within_limits(opts, t),
{
    assert(utf8_len(Seq::<char>::empty()) == 0);
    lemma_render_doc_within(d, 0, LayoutMode::Break, 1, 0, opts, initial_trace());
    match render_doc(d, 0, LayoutMode::Break, 1, 0, opts, initial_trace()) {
        Err(_) => {},
        Ok(t) => {
            lemma_trim_utf8_len(t.out);
            lemma_utf8_len_push(trim_newlines(t.out), '\n');
        },
    }
}

/// A plain word or a soft line break.
pub open spec fn simple_doc(d: DocView) -> bool {
    (d matches DocView::Text { raw, .. } && !raw) || d is SoftLine
}

/// What a plain word or a soft line break adds to the output in `mode`: the
/// word itself; a space when flat, a newline when broken (at indent zero).
pub open spec fn piece(d: DocView, mode: LayoutMode) -> Seq<char> {
    match d {
        DocView::Text { value, .. } => value,
        DocView::SoftLine => match mode {
            LayoutMode::Flat => seq![' '],
            LayoutMode::Break => seq!['\n'],
        },
        _ => Seq::empty(),
    }
}

/// The pieces of `docs` in `mode`, one after the other.
pub open spec fn seq_text(docs: Seq<DocView>, mode: LayoutMode) -> Seq<char>
    decreases docs.len(),
{
    if docs.len() == 0 {
        Seq::empty()
    } else {
        piece(docs[0], mode) + seq_text(docs.drop_first(), mode)
    }
}

/// The plain words `words` as documents.
pub open spec fn word_docs(words: Seq<Seq<char>>) -> Seq<DocView> {
    words.map_values(|w: Seq<char>| DocView::Text { value: w, raw: false })
}

/// The words separated by soft line breaks, as one group.
pub open spec fn words_line(words: Seq<Seq<char>>) -> DocView {
    DocView::Group(Box::new(concat_view(interleave(DocView::SoftLine, word_docs(words)))))
}

proof fn lemma_simple_render(d: DocView, mode: LayoutMode, depth: int, pending: int, opts: RenderOptions, t: Trace)
    requires
        simple_doc(d),
    ensures
        render_doc(d, 0, mode, depth, pending, opts, t) matches Ok(t2) ==> t2.out == t.out + piece(d, mode),
{
    assert(spaces(0) =~= Seq::<char>::empty());
    assert(t.out.push('\n') =~= t.out + seq!['\n']);
    assert(t.out.push('\n') + spaces(0) =~= t.out.push('\n'));
}

proof fn lemma_simple_render_seq(
    docs: Seq<DocView>,
    mode: LayoutMode,
    depth: int,
    pending: int,
    opts: RenderOptions,
    t: Trace,
)
    requires
        forall|k: int| 0 <= k < docs.len() ==> simple_doc(#[trigger] docs[k]),
    ensures
        render_seq(docs, 0, mode, depth, pending, opts, t) matches Ok(t2) ==> t2.out == t.out + seq_text(docs, mode),
    decreases docs.len(),
{
    if docs.len() == 0 {
        assert(t.out + Seq::<char>::empty() =~= t.out);
    } else {
        lemma_simple_render(docs[0], mode, depth, pending + docs.len() - 1, opts, t);
        match render_doc(docs[0], 0, mode, depth, pending + docs.len() - 1, opts, t) {
            Ok(t2) => {
                assert forall|k: int| 0 <= k < docs.drop_first().len() implies simple_doc(#[trigger] docs.drop_first()[k]) by {
                    assert(docs.drop_first()[k] == docs[k + 1]);
                }
                lemma_simple_render_seq(docs.drop_first(), mode, depth, pending, opts, t2);
                assert(t2.out + seq_text(docs.drop_first(), mode) == t.out + piece(docs[0], mode) + seq_text(
                    docs.drop_first(),
                    mode,
                )) by {
                    assert(t.out + piece(docs[0], mode) + seq_text(docs.drop_first(), mode) =~= t.out + (piece(
                        docs[0],
                        mode,
                    ) + seq_text(docs.drop_first(), mode)));
                }
                assert(t.out + piece(docs[0], mode) + seq_text(docs.drop_first(), mode) =~= t.out + seq_text(docs, mode));
            },
            Err(_) => {},
        }
    }
}

/// What measuring a flat layout leaves: the columns left, if it fits, and
/// the output, which measuring never changes.
pub open spec fn measured(step: Result<FitStep, RenderError>, out: Seq<char>, used: int, remaining: int) -> bool {
    match step {
        Ok(FitStep::Fits { remaining: r, trace }) => r == remaining - used && r >= 0 && trace.out == out,
        Ok(FitStep::Overflows { trace }) => trace.out == out,
        Err(_) => true,
    }
}

proof fn lemma_simple_fits(d: DocView, depth: int, pending: int, remaining: int, opts: RenderOptions, t: Trace)
    requires
        simple_doc(d),
        remaining >= 0,
    ensures
        measured(fits_doc(d, depth, pending, remaining, opts, t), t.out, piece(d, LayoutMode::Flat).len() as int, remaining),
{
}

proof fn lemma_simple_fits_seq(
    docs: Seq<DocView>,
    depth: int,
    pending: int,
    remaining: int,
    opts: RenderOptions,
    t: Trace,
)
    requires
        forall|k: int| 0 <= k < docs.len() ==> simple_doc(#[trigger] docs[k]),
        remaining >= 0,
    ensures
        measured(
            fits_seq(docs, depth, pending, remaining, opts, t),
            t.out,
            seq_text(docs, LayoutMode::Flat).len() as int,
            remaining,
        ),
    decreases docs.len(),
{
    if docs.len() > 0 {
        lemma_simple_fits(docs[0], depth, pending + docs.len() - 1, remaining, opts, t);
        match fits_doc(docs[0], depth, pending + docs.len() - 1, remaining, opts, t) {
            Ok(FitStep::Fits { remaining: r, trace }) => {
                assert forall|k: int| 0 <= k < docs.drop_first().len() implies simple_doc(#[trigger] docs.drop_first()[k]) by {
                    assert(docs.drop_first()[k] == docs[k + 1]);
                }
                lemma_simple_fits_seq(docs.drop_first(), depth, pending, r, opts, trace);
            },
            _ => {},
        }
    }
}

proof fn lemma_flatten_simple(docs: Seq<DocView>)
    requires
        forall|k: int| 0 <= k < docs.len() ==> simple_doc(#[trigger] docs[k]),
    ensures
        flatten(docs) == docs,
    decreases docs.len(),
{
    if docs.len() > 0 {
        assert forall|k: int| 0 <= k < docs.drop_last().len() implies simple_doc(#[trigger] docs.drop_last()[k]) by {
            assert(docs.drop_last()[k] == docs[k]);
        }
        lemma_flatten_simple(docs.drop_last());
        assert(simple_doc(docs[docs.len() - 1]));
        assert(docs.drop_last().push(docs.last()) =~= docs);
    }
}

proof fn lemma_seq_text_single(d: DocView, mode: LayoutMode)
    ensures
        seq_text(seq![d], mode) == piece(d, mode),
{
    assert(seq![d].drop_first() =~= Seq::<DocView>::empty());
    assert(seq_text(Seq::<DocView>::empty(), mode) =~= Seq::<char>::empty());
    assert(seq![d][0] == d);
    assert(piece(d, mode) + Seq::<char>::empty() =~= piece(d, mode));
}

/// Words joined by soft line breaks in one group are laid out either all on
/// one line, separated by single spaces, when that line is no wider than
/// the width; or each on a line of its own. So no line is wider than the
/// width unless it holds a single word that is.
pub proof fn law_grouped_words(words: Seq<Seq<char>>, opts: RenderOptions)
    ensures
        spec_render(words_line(words), opts) is Ok ==> {
            let docs = interleave(DocView::SoftLine, word_docs(words));
            ||| layout_text(words_line(words), opts) == seq_text(docs, LayoutMode::Flat) && seq_text(
                docs,
                LayoutMode::Flat,
            ).len() <= opts.width
            ||| layout_text(words_line(words), opts) == seq_text(docs, LayoutMode::Break)
        },
{
    let docs = interleave(DocView::SoftLine, word_docs(words));
    let wd = word_docs(words);
    law_interleave(DocView::SoftLine, wd);
    assert forall|k: int| 0 <= k < docs.len() implies simple_doc(#[trigger] docs[k]) by {
        if k % 2 == 0 {
            assert(docs[k] == wd[k / 2]);
        }
    }
    lemma_flatten_simple(docs);
    let inner = concat_view(docs);
    let init = initial_trace();
    match visit(opts, 1, init) {
        Err(_) => {},
        Ok(t1) => {
            let rem = remaining_width(opts, t1);
            assert(rem == opts.width);
            let t0 = observe(t1, 1);
            assert(render_doc(words_line(words), 0, LayoutMode::Break, 1, 0, opts, init) == match group_fits(
                inner,
                rem,
                sat(2),
                opts,
                t1,
            ) {
                Err(e) => Err(e),
                Ok((fits, t2)) => render_doc(
                    inner,
                    0,
                    if fits {
                        LayoutMode::Flat
                    } else {
                        LayoutMode::Break
                    },
                    sat(2),
                    0,
                    opts,
                    observe(t2, 1),
                ),
            });
            if docs.len() == 0 {
                assert(inner == DocView::Empty);
                assert(seq_text(docs, LayoutMode::Flat) =~= Seq::<char>::empty());
            } else if docs.len() == 1 {
                assert(inner == docs[0]);
                assert(docs =~= seq![docs[0]]);
                assert(docs[0] == wd[0]);
                assert(piece(docs[0], LayoutMode::Flat) == piece(docs[0], LayoutMode::Break));
                lemma_seq_text_single(docs[0], LayoutMode::Flat);
                lemma_seq_text_single(docs[0], LayoutMode::Break);
                lemma_simple_fits(docs[0], sat(2), 0, rem, opts, t0);
                match group_fits(inner, rem, sat(2), opts, t1) {
                    Err(_) => {},
                    Ok((fits, t2)) => {
                        let m = if fits { LayoutMode::Flat } else { LayoutMode::Break };
                        lemma_simple_render(docs[0], m, sat(2), 0, opts, observe(t2, 1));
                        assert(init.out + piece(docs[0], m) =~= piece(docs[0], m));
                            },
                }
            } else {
                assert(inner == DocView::Concat(docs));
                match visit(opts, sat(2), t0) {
                    Err(_) => {},
                    Ok(t3) => {
                        lemma_simple_fits_seq(docs, sat(3), 0, rem, opts, observe(t3, docs.len() as int));
                    },
                }
                assert(fits_doc(inner, sat(2), 0, rem, opts, t0) == match visit(opts, sat(2), t0) {
                    Err(e) => Err(e),
                    Ok(t3) => fits_seq(docs, sat(3), 0, rem, opts, observe(t3, docs.len() as int)),
                });
                match group_fits(inner, rem, sat(2), opts, t1) {
                    Err(_) => {},
                    Ok((fits, t2)) => {
                        let m = if fits { LayoutMode::Flat } else { LayoutMode::Break };
                        assert(render_doc(inner, 0, m, sat(2), 0, opts, observe(t2, 1)) == match visit(
                            opts,
                            sat(2),
                            observe(t2, 1),
                        ) {
                            Err(e) => Err(e),
                            Ok(t4) => render_seq(docs, 0, m, sat(3), 0, opts, observe(t4, docs.len() as int)),
                        });
                        match visit(opts, sat(2), observe(t2, 1)) {
                            Err(_) => {},
                            Ok(t4) => {
                                lemma_simple_render_seq(docs, m, sat(3), 0, opts, observe(t4, docs.len() as int));
                                assert(init.out + seq_text(docs, m) =~= seq_text(docs, m));
                                            },
                        }
                    },
                }
            }
        },
    }
}

/// An immutable document. Build one with the constructors below.
#[derive(Debug, PartialEq, Eq)]
pub struct Document {
    node: Box<Node>,
}

#[derive(Debug, PartialEq, Eq)]
enum Node {
    Empty,
    Text { value: Vec<char>, raw: bool },
    SoftLine,
    HardLine,
    Concat(Vec<Document>),
    Indent { spaces: usize, document: Document },
    Group(Document),
    IfBreak { broken: Document, flat: Document },
}

pub closed spec fn doc_view(d: Document) -> DocView
    decreases d,
{
    match *d.node {
        Node::Empty => DocView::Empty,
        Node::Text { value, raw } => DocView::Text { value: value@, raw },
        Node::SoftLine => DocView::SoftLine,
        Node::HardLine => DocView::HardLine,
        Node::Concat(children) => DocView::Concat(docs_view(children@)),
        Node::Indent { spaces, document } => DocView::Indent {
            spaces,
            document: Box::new(doc_view(document)),
        },
        Node::Group(document) => DocView::Group(Box::new(doc_view(document))),
        Node::IfBreak { broken, flat } => DocView::IfBreak {
            broken: Box::new(doc_view(broken)),
            flat: Box::new(doc_view(flat)),
        },
    }
}

/// The views of a sequence of documents, element by element.
pub closed spec fn docs_view(docs: Seq<Document>) -> Seq<DocView>
    decreases docs,
{
    if docs.len() == 0 {
        Seq::empty()
    } else {
        docs_view(docs.drop_last()).push(doc_view(docs.last()))
    }
}

impl View for Document {
    type V = DocView;

    open spec fn view(&self) -> DocView {
        doc_view(*self)
    }
}

pub proof fn lemma_docs_view(docs: Seq<Document>)
    ensures
        docs_view(docs).len() == docs.len(),
        forall|i: int| 0 <= i < docs.len() ==> #[trigger] docs_view(docs)[i] == docs[i]@,
    decreases docs.len(),
{
    if docs.len() > 0 {
        lemma_docs_view(docs.drop_last());
    }
}

pub proof fn lemma_docs_view_push(docs: Seq<Document>, d: Document)
    ensures
        docs_view(docs.push(d)) == docs_view(docs).push(d@),
{
    assert(docs.push(d).drop_last() =~= docs);
}

impl Default for Document {
    fn default() -> (result: Self)
        ensures
            result@ == DocView::Empty,
            normal(result@),
    {
        Document::empty()
    }
}

impl Clone for Document {
    fn clone(&self) -> (result: Self)
        ensures
            result@ == self@,
    {
        self.duplicate()
    }
}

pub proof fn lemma_docs_view_concat(a: Seq<Document>, b: Seq<Document>)
    ensures
        docs_view(a + b) == docs_view(a) + docs_view(b),
    decreases b.len(),
{
    if b.len() == 0 {
        assert(a + b =~= a);
        assert(docs_view(a) + docs_view(b) =~= docs_view(a));
    } else {
        lemma_docs_view_concat(a, b.drop_last());
        assert((a + b).drop_last() =~= a + b.drop_last());
        assert(docs_view(a) + docs_view(b) =~= (docs_view(a) + docs_view(b.drop_last())).push(
            b.last()@,
        ));
    }
}

/// Text that may hold control characters; rendering still turns CRLF and a
/// lone CR into LF.
#[derive(Clone, Debug, PartialEq, Eq)]
pub struct RawText(String);

impl View for RawText {
    type V = Seq<char>;

    closed spec fn view(&self) -> Seq<char> {
        self.0@
    }
}

impl RawText {
    /// Makes control-character use explicit.
    pub fn new(value: &str) -> (result: Self)
        ensures
            result@ == value@,
    {
        RawText(value.to_owned())
    }
}

/// The first control character of a text, and its position in characters.
#[derive(Clone, Debug, PartialEq, Eq)]
pub struct TextError {
    pub character: char,
    pub scalar_index: usize,
}

/// Whether `value` holds no control character.
pub open spec fn is_plain(value: Seq<char>) -> bool {
    forall|i: int| 0 <= i < value.len() ==> !is_control(#[trigger] value[i])
}

impl Document {
    /// Every document has the shape that [`normal`] describes.
    #[verifier::type_invariant]
    pub(crate) open spec fn shape(self) -> bool {
        normal(doc_view(self))
    }

    pub fn empty() -> (result: Self)
        ensures
            result@ == DocView::Empty,
    {
        Document { node: Box::new(Node::Empty) }
    }

    /// Plain text. Control characters are refused: the error names the first
    /// one and its character index.
    pub fn text(value: &str) -> (result: Result<Self, TextError>)
        ensures
            result is Ok <==> is_plain(value@),
            result matches Ok(d) ==> d@ == (DocView::Text { value: value@, raw: false }) && normal(d@),
            result matches Err(e) ==> {
                &&& e.scalar_index < value@.len()
                &&& value@[e.scalar_index as int] == e.character
                &&& is_control(e.character)
                &&& is_plain(value@.take(e.scalar_index as int))
            },
    {
        let chars = chars_of(value);
        let mut index: usize = 0;
        while index < chars.len()
            invariant
                chars@ == value@,
                index <= chars.len(),
                is_plain(chars@.take(index as int)),
            decreases chars.len() - index,
        {
            if char_is_control(chars[index]) {
                return Err(TextError { character: chars[index], scalar_index: index });
            }
            assert(chars@.take(index + 1) =~= chars@.take(index as int).push(chars@[index as int]));
            index += 1;
        }
        assert(chars@.take(index as int) =~= chars@);
        Ok(Document { node: Box::new(Node::Text { value: chars, raw: false }) })
    }

    pub fn raw_text(value: RawText) -> (result: Self)
        ensures
            result@ == (DocView::Text { value: value@, raw: true }),
            normal(result@),
    {
        let chars = chars_of(value.0.as_str());
        Document { node: Box::new(Node::Text { value: chars, raw: true }) }
    }

    /// A space in flat mode and a newline in broken mode.
    pub fn line() -> (result: Self)
        ensures
            result@ == DocView::SoftLine,
            normal(result@),
    {
        Document { node: Box::new(Node::SoftLine) }
    }

    /// A newline in every layout mode.
    pub fn hard_line() -> (result: Self)
        ensures
            result@ == DocView::HardLine,
            normal(result@),
    {
        Document { node: Box::new(Node::HardLine) }
    }

    pub fn indent(self, spaces: usize) -> (result: Self)
        ensures
            result@ == (DocView::Indent { spaces, document: Box::new(self@) }),
            normal(result@),
    {
        Document { node: Box::new(Node::Indent { spaces, document: self }) }
    }

    pub fn group(self) -> (result: Self)
        ensures
            result@ == DocView::Group(Box::new(self@)),
            normal(result@),
    {
        Document { node: Box::new(Node::Group(self)) }
    }

    pub fn if_break(broken: Self, flat: Self) -> (result: Self)
        ensures
            result@ == (DocView::IfBreak { broken: Box::new(broken@), flat: Box::new(flat@) }),
            normal(result@),
    {
        Document { node: Box::new(Node::IfBreak { broken, flat }) }
    }

    /// The concatenation of `documents`. Empty documents are dropped and
    /// nested concatenations are spliced in; a single remaining document is
    /// returned as it is.
    pub fn concat(documents: Vec<Document>) -> (result: Self)
        ensures
            result@ == concat_view(docs_view(documents@)),
            normal(result@),
    {
        let ghost original = documents@;
        let mut documents = documents;
        let mut flattened: Vec<Document> = Vec::new();
        let ghost mut taken: int = 0;
        while documents.len() > 0
            invariant
                0 <= taken <= original.len(),
                documents@ == original.skip(taken),
                docs_view(flattened@) == flatten(docs_view(original.take(taken))),
                forall|j: int| 0 <= j < flattened@.len() ==> flat_child(#[trigger] docs_view(flattened@)[j]),
            decreases documents.len(),
        {
            let document = documents.remove(0);
            proof {
                use_type_invariant(&document);
                assert(original.take(taken + 1) =~= original.take(taken).push(document));
                lemma_docs_view_push(original.take(taken), document);
                assert(docs_view(original.take(taken).push(document)).drop_last() =~= docs_view(
                    original.take(taken),
                ));
                assert(original.skip(taken + 1) =~= original.skip(taken).drop_first());
            }
            let ghost before = flattened@;
            let node = *document.node;
            match node {
                Node::Empty => {},
                Node::Concat(mut children) => {
                    let ghost kids = children@;
                    flattened.append(&mut children);
                    proof {
                        lemma_docs_view_concat(before, kids);
                        assert(flattened@ =~= before + kids);
                        lemma_docs_view(before);
                        lemma_docs_view(kids);
                        assert forall|j: int| 0 <= j < flattened@.len() implies flat_child(
                            #[trigger] docs_view(flattened@)[j],
                        ) by {
                            if j >= before.len() {
                                assert(docs_view(flattened@)[j] == docs_view(kids)[j - before.len()]);
                            } else {
                                assert(docs_view(flattened@)[j] == docs_view(before)[j]);
                            }
                        }
                    }
                },
                other => {
                    let kept = Document { node: Box::new(other) };
                    proof {
                        lemma_docs_view_push(before, kept);
                        lemma_docs_view(before);
                        lemma_docs_view(before.push(kept));
                        assert forall|j: int| 0 <= j < flattened@.len() + 1 implies flat_child(
                            #[trigger] docs_view(before.push(kept))[j],
                        ) by {
                            if j < before.len() {
                                assert(before.push(kept)[j] == before[j]);
                                assert(docs_view(before.push(kept))[j] == docs_view(before)[j]);
                            } else {
                                assert(before.push(kept)[j] == kept);
                            }
                        }
                    }
                    flattened.push(kept);
                },
            }
            proof {
                taken = taken + 1;
            }
        }
        proof {
            assert(original.take(taken) =~= original);
            lemma_docs_view(flattened@);
        }
        if flattened.len() == 0 {
            Document::empty()
        } else if flattened.len() == 1 {
            proof {
                assert(flat_child(docs_view(flattened@)[0]));
            }
            flattened.pop().unwrap()
        } else {
            Document { node: Box::new(Node::Concat(flattened)) }
        }
    }

    /// `documents` with a copy of `separator` between each adjacent pair,
    /// concatenated.
    pub fn join(separator: Self, documents: Vec<Document>) -> (result: Self)
        ensures
            result@ == concat_view(interleave(separator@, docs_view(documents@))),
            normal(result@),
    {
        let ghost original = documents@;
        let mut documents = documents;
        let mut output: Vec<Document> = Vec::new();
        let ghost mut taken: int = 0;
        while documents.len() > 0
            invariant
                0 <= taken <= original.len(),
                documents@ == original.skip(taken),
                docs_view(output@) == interleave(separator@, docs_view(original.take(taken))),
            decreases documents.len(),
        {
            let document = documents.remove(0);
            proof {
                assert(original.take(taken + 1) =~= original.take(taken).push(document));
                lemma_docs_view_push(original.take(taken), document);
                lemma_docs_view(original.take(taken));
                assert(docs_view(original.take(taken).push(document)).drop_last() =~= docs_view(
                    original.take(taken),
                ));
                assert(original.skip(taken + 1) =~= original.skip(taken).drop_first());
            }
            let ghost before = output@;
            if output.len() > 0 {
                let copy = separator.duplicate();
                proof {
                    lemma_docs_view_push(before, copy);
                    lemma_docs_view_push(before.push(copy), document);
                }
                output.push(copy);
            } else {
                proof {
                    lemma_docs_view(before);
                    lemma_docs_view_push(before, document);
                    assert(taken == 0);
                }
            }
            output.push(document);
            proof {
                taken = taken + 1;
            }
        }
        proof {
            assert(original.take(taken) =~= original);
        }
        Self::concat(output)
    }

    /// An equal, independent document.
    pub fn duplicate(&self) -> (result: Self)
        ensures
            result@ == self@,
        decreases self,
    {
        proof {
            use_type_invariant(self);
        }
        let node = match &*self.node {
            Node::Empty => Node::Empty,
            Node::Text { value, raw } => {
                let mut copy: Vec<char> = Vec::new();
                let mut i: usize = 0;
                while i < value.len()
                    invariant
                        i <= value.len(),
                        copy@ == value@.take(i as int),
                    decreases value.len() - i,
                {
                    copy.push(value[i]);
                    i += 1;
                    assert(copy@ =~= value@.take(i as int));
                }
                assert(value@.take(i as int) =~= value@);
                Node::Text { value: copy, raw: *raw }
            },
            Node::SoftLine => Node::SoftLine,
            Node::HardLine => Node::HardLine,
            Node::Concat(children) => {
                let mut copy: Vec<Document> = Vec::new();
                let mut i: usize = 0;
                while i < children.len()
                    invariant
                        i <= children.len(),
                        *self.node == Node::Concat(*children),
                        docs_view(copy@) == docs_view(children@.take(i as int)),
                    decreases children.len() - i,
                {
                    proof {
                        assert(decreases_to!(*self => *self.node));
                        assert(decreases_to!(*self.node => self.node->Concat_0));
                        assert(decreases_to!(self.node->Concat_0 => children[i as int]));
                        assert(decreases_to!(*self => children[i as int]));
                    }
                    let child = children[i].duplicate();
                    proof {
                        lemma_docs_view_push(copy@, child);
                        lemma_docs_view_push(children@.take(i as int), children@[i as int]);
                        assert(children@.take(i + 1) =~= children@.take(i as int).push(children@[i as int]));
                    }
                    copy.push(child);
                    i += 1;
                }
                assert(children@.take(i as int) =~= children@);
                Node::Concat(copy)
            },
            Node::Indent { spaces, document } => Node::Indent {
                spaces: *spaces,
                document: document.duplicate(),
            },
            Node::Group(document) => Node::Group(document.duplicate()),
            Node::IfBreak { broken, flat } => Node::IfBreak {
                broken: broken.duplicate(),
                flat: flat.duplicate(),
            },
        };
        Document { node: Box::new(node) }
    }
}


/// A frame waiting on the layout stack.
pub struct Pending {
    pub doc: DocView,
    pub indent: int,
    pub mode: LayoutMode,
    pub depth: int,
}

/// Runs the layout of pending frames, the last one first.
pub open spec fn run_frames(frames: Seq<Pending>, opts: RenderOptions, t: Trace) -> Result<
    Trace,
    RenderError,
>
    decreases frames.len(),
{
    if frames.len() == 0 {
        Ok(t)
    } else {
        let top = frames.last();
        match render_doc(top.doc, top.indent, top.mode, top.depth, frames.len() - 1, opts, t) {
            Err(e) => Err(e),
            Ok(t2) => run_frames(frames.drop_last(), opts, t2),
        }
    }
}

pub open spec fn then_run(
    result: Result<Trace, RenderError>,
    frames: Seq<Pending>,
    opts: RenderOptions,
) -> Result<Trace, RenderError> {
    match result {
        Err(e) => Err(e),
        Ok(t) => run_frames(frames, opts, t),
    }
}

/// Frames for `docs` in the order they are pushed: the last document first,
/// so that the first document is on top.
pub open spec fn reversed_frames(docs: Seq<DocView>, indent: int, mode: LayoutMode, depth: int) -> Seq<
    Pending,
> {
    Seq::new(
        docs.len(),
        |i: int| Pending { doc: docs[docs.len() - 1 - i], indent, mode, depth },
    )
}

proof fn lemma_run_children(
    below: Seq<Pending>,
    docs: Seq<DocView>,
    indent: int,
    mode: LayoutMode,
    depth: int,
    opts: RenderOptions,
    t: Trace,
)
    ensures
        run_frames(below + reversed_frames(docs, indent, mode, depth), opts, t) == then_run(
            render_seq(docs, indent, mode, depth, below.len() as int, opts, t),
            below,
            opts,
        ),
    decreases docs.len(),
{
    let frames = below + reversed_frames(docs, indent, mode, depth);
    if docs.len() == 0 {
        assert(frames =~= below);
    } else {
        assert(frames.drop_last() =~= below + reversed_frames(docs.drop_first(), indent, mode, depth));
        assert(frames.last() == Pending { doc: docs[0], indent, mode, depth });
        match render_doc(docs[0], indent, mode, depth, frames.len() - 1, opts, t) {
            Err(e) => {},
            Ok(t2) => {
                lemma_run_children(below, docs.drop_first(), indent, mode, depth, opts, t2);
            },
        }
    }
}

/// Measures pending frames, the last one first.
pub open spec fn fits_frames(
    frames: Seq<(DocView, int)>,
    remaining: int,
    opts: RenderOptions,
    t: Trace,
) -> Result<FitStep, RenderError>
    decreases frames.len(),
{
    if frames.len() == 0 {
        Ok(FitStep::Fits { remaining, trace: t })
    } else {
        let top = frames.last();
        match fits_doc(top.0, top.1, frames.len() - 1, remaining, opts, t) {
            Err(e) => Err(e),
            Ok(FitStep::Overflows { trace }) => Ok(FitStep::Overflows { trace }),
            Ok(FitStep::Fits { remaining, trace }) => fits_frames(
                frames.drop_last(),
                remaining,
                opts,
                trace,
            ),
        }
    }
}

pub open spec fn then_fit(
    result: Result<FitStep, RenderError>,
    frames: Seq<(DocView, int)>,
    opts: RenderOptions,
) -> Result<FitStep, RenderError> {
    match result {
        Err(e) => Err(e),
        Ok(FitStep::Overflows { trace }) => Ok(FitStep::Overflows { trace }),
        Ok(FitStep::Fits { remaining, trace }) => fits_frames(frames, remaining, opts, trace),
    }
}

pub open spec fn reversed_measures(docs: Seq<DocView>, depth: int) -> Seq<(DocView, int)> {
    Seq::new(docs.len(), |i: int| (docs[docs.len() - 1 - i], depth))
}

proof fn lemma_fit_children(
    below: Seq<(DocView, int)>,
    docs: Seq<DocView>,
    depth: int,
    remaining: int,
    opts: RenderOptions,
    t: Trace,
)
    ensures
        fits_frames(below + reversed_measures(docs, depth), remaining, opts, t) == then_fit(
            fits_seq(docs, depth, below.len() as int, remaining, opts, t),
            below,
            opts,
        ),
    decreases docs.len(),
{
    let frames = below + reversed_measures(docs, depth);
    if docs.len() == 0 {
        assert(frames =~= below);
    } else {
        assert(frames.drop_last() =~= below + reversed_measures(docs.drop_first(), depth));
        assert(frames.last() == (docs[0], depth));
        match fits_doc(docs[0], depth, frames.len() - 1, remaining, opts, t) {
            Err(e) => {},
            Ok(FitStep::Overflows { trace }) => {},
            Ok(FitStep::Fits { remaining: r2, trace }) => {
                lemma_fit_children(below, docs.drop_first(), depth, r2, opts, trace);
            },
        }
    }
}

/// The number of nodes of a document tree.
pub open spec fn doc_size(d: DocView) -> nat
    decreases d,
{
    match d {
        DocView::Concat(children) => 1 + docs_size(children),
        DocView::Indent { spaces, document } => 1 + doc_size(*document),
        DocView::Group(document) => 1 + doc_size(*document),
        DocView::IfBreak { broken, flat } => 1 + doc_size(*broken) + doc_size(*flat),
        _ => 1,
    }
}

pub open spec fn docs_size(docs: Seq<DocView>) -> nat
    decreases docs,
{
    if docs.len() == 0 {
        0
    } else {
        doc_size(docs[0]) + docs_size(docs.drop_first())
    }
}

pub open spec fn frames_size(frames: Seq<Pending>) -> nat
    decreases frames.len(),
{
    if frames.len() == 0 {
        0
    } else {
        frames_size(frames.drop_last()) + doc_size(frames.last().doc)
    }
}

pub open spec fn measures_size(frames: Seq<(DocView, int)>) -> nat
    decreases frames.len(),
{
    if frames.len() == 0 {
        0
    } else {
        measures_size(frames.drop_last()) + doc_size(frames.last().0)
    }
}

proof fn lemma_frames_size_children(
    below: Seq<Pending>,
    docs: Seq<DocView>,
    indent: int,
    mode: LayoutMode,
    depth: int,
)
    ensures
        frames_size(below + reversed_frames(docs, indent, mode, depth)) == frames_size(below)
            + docs_size(docs),
    decreases docs.len(),
{
    let frames = below + reversed_frames(docs, indent, mode, depth);
    if docs.len() == 0 {
        assert(frames =~= below);
    } else {
        assert(frames.drop_last() =~= below + reversed_frames(docs.drop_first(), indent, mode, depth));
        lemma_frames_size_children(below, docs.drop_first(), indent, mode, depth);
    }
}

proof fn lemma_measures_size_children(below: Seq<(DocView, int)>, docs: Seq<DocView>, depth: int)
    ensures
        measures_size(below + reversed_measures(docs, depth)) == measures_size(below) + docs_size(
            docs,
        ),
    decreases docs.len(),
{
    let frames = below + reversed_measures(docs, depth);
    if docs.len() == 0 {
        assert(frames =~= below);
    } else {
        assert(frames.drop_last() =~= below + reversed_measures(docs.drop_first(), depth));
        lemma_measures_size_children(below, docs.drop_first(), depth);
    }
}

/// Whether an exec outcome and its new trace are what `expected` says.
pub open spec fn agrees(result: Result<(), RenderError>, expected: Result<Trace, RenderError>, after: Trace) -> bool {
    match expected {
        Ok(t) => result is Ok && after == t,
        Err(e) => result == Err::<(), RenderError>(e),
    }
}

/// Turns every CRLF pair and every lone CR of `value` into LF.
fn normalize_line_endings(value: &Vec<char>) -> (result: Vec<char>)
    ensures
        result@ == normalize_newlines(value@),
{
    let mut result: Vec<char> = Vec::new();
    let mut i: usize = 0;
    assert(value@.skip(0) =~= value@);
    assert(result@ + normalize_newlines(value@) =~= normalize_newlines(value@));
    while i < value.len()
        invariant
            i <= value.len(),
            result@ + normalize_newlines(value@.skip(i as int)) == normalize_newlines(value@),
        decreases value.len() - i,
    {
        let ghost rest = value@.skip(i as int);
        assert(rest[0] == value@[i as int]);
        if value[i] == '\r' {
            if i + 1 < value.len() && value[i + 1] == '\n' {
                assert(rest[1] == value@[i + 1]);
                assert(rest.skip(2) =~= value@.skip(i + 2));
                result.push('\n');
                i += 2;
            } else {
                assert(rest.skip(1) =~= value@.skip(i + 1));
                result.push('\n');
                i += 1;
            }
        } else {
            assert(rest.skip(1) =~= value@.skip(i + 1));
            result.push(value[i]);
            i += 1;
        }
        assert(result@ + normalize_newlines(value@.skip(i as int)) =~= normalize_newlines(value@));
    }
    assert(value@.skip(i as int) =~= Seq::<char>::empty());
    assert(result@ + Seq::<char>::empty() =~= result@);
    result
}

fn contains_line_break(value: &Vec<char>) -> (result: bool)
    ensures
        result == contains_newline(value@),
{
    let mut i: usize = 0;
    while i < value.len()
        invariant
            i <= value.len(),
            forall|j: int| 0 <= j < i ==> value@[j] != '\n' && value@[j] != '\r',
        decreases value.len() - i,
    {
        if value[i] == '\n' || value[i] == '\r' {
            assert(value@.contains(value@[i as int]));
            return true;
        }
        i += 1;
    }
    false
}

struct Renderer {
    options: RenderOptions,
    output: Vec<char>,
    output_bytes: usize,
    column: usize,
    stats: RenderStats,
}

struct Frame<'a> {
    indent: usize,
    mode: LayoutMode,
    depth: usize,
    document: &'a Document,
}

spec fn frame_pending(f: Frame) -> Pending {
    Pending { doc: f.document@, indent: f.indent as int, mode: f.mode, depth: f.depth as int }
}

spec fn pendings(frames: Seq<Frame>) -> Seq<Pending> {
    frames.map_values(|f: Frame| frame_pending(f))
}

spec fn measures(frames: Seq<(&Document, usize)>) -> Seq<(DocView, int)> {
    frames.map_values(|f: (&Document, usize)| (f.0@, f.1 as int))
}

impl Renderer {
    spec fn trace(&self) -> Trace {
        Trace {
            out: self.output@,
            column: self.column as int,
            visited: self.stats.nodes_visited as int,
            peak: self.stats.peak_pending_frames as int,
        }
    }

    spec fn wf(&self) -> bool {
        self.output_bytes == sat(utf8_len(self.output@) as int)
    }

    fn visit(&mut self, depth: usize) -> (result: Result<(), RenderError>)
        requires
            old(self).wf(),
        ensures
            final(self).wf(),
            final(self).options == old(self).options,
            agrees(result, visit(old(self).options, depth as int, old(self).trace()), final(self).trace()),
            final(self).output@ == old(self).output@,
            final(self).column == old(self).column,
    {
        if depth > self.options.limits.max_depth {
            return Err(RenderError::DepthLimit { limit: self.options.limits.max_depth });
        }
        self.stats.nodes_visited = self.stats.nodes_visited.saturating_add(1);
        if self.stats.nodes_visited > self.options.limits.max_nodes {
            return Err(RenderError::NodeLimit { limit: self.options.limits.max_nodes });
        }
        Ok(())
    }

    fn observe(&mut self, frames: usize)
        ensures
            final(self).trace() == observe(old(self).trace(), frames as int),
            final(self).options == old(self).options,
            final(self).output_bytes == old(self).output_bytes,
    {
        if frames > self.stats.peak_pending_frames {
            self.stats.peak_pending_frames = frames;
        }
    }

    fn append_char(&mut self, c: char)
        requires
            old(self).wf(),
        ensures
            final(self).wf(),
            final(self).output@ == old(self).output@.push(c),
            final(self).options == old(self).options,
            final(self).column == old(self).column,
            final(self).stats == old(self).stats,
    {
        proof {
            lemma_utf8_len_push(self.output@, c);
        }
        let width = char_utf8_width(c);
        self.output.push(c);
        self.output_bytes = self.output_bytes.saturating_add(width);
    }

    fn append_plain(&mut self, value: &Vec<char>) -> (result: Result<(), RenderError>)
        requires
            old(self).wf(),
        ensures
            final(self).wf(),
            final(self).options == old(self).options,
            agrees(result, emit_plain(old(self).options, value@, old(self).trace()), final(self).trace()),
    {
        let width = utf8_length(value);
        if self.output_bytes.saturating_add(width) > self.options.limits.max_output_bytes {
            return Err(RenderError::OutputLimit { limit: self.options.limits.max_output_bytes });
        }
        let ghost start = self.output@;
        let mut i: usize = 0;
        while i < value.len()
            invariant
                self.wf(),
                i <= value.len(),
                self.output@ == start + value@.take(i as int),
                self.options == old(self).options,
                self.column == old(self).column,
                self.stats == old(self).stats,
            decreases value.len() - i,
        {
            self.append_char(value[i]);
            i += 1;
            assert(self.output@ =~= start + value@.take(i as int));
        }
        assert(value@.take(i as int) =~= value@);
        self.column = self.column.saturating_add(value.len());
        Ok(())
    }

    fn append_line(&mut self, indent: usize) -> (result: Result<(), RenderError>)
        requires
            old(self).wf(),
        ensures
            final(self).wf(),
            final(self).options == old(self).options,
            agrees(result, emit_line(old(self).options, indent as int, old(self).trace()), final(self).trace()),
    {
        let additional = 1usize.saturating_add(indent);
        if self.output_bytes.saturating_add(additional) > self.options.limits.max_output_bytes {
            return Err(RenderError::OutputLimit { limit: self.options.limits.max_output_bytes });
        }
        self.append_char('\n');
        let ghost start = self.output@;
        let mut i: usize = 0;
        while i < indent
            invariant
                self.wf(),
                i <= indent,
                self.output@ == start + spaces(i as nat),
                self.options == old(self).options,
                self.column == old(self).column,
                self.stats == old(self).stats,
            decreases indent - i,
        {
            self.append_char(' ');
            i += 1;
            assert(self.output@ =~= start + spaces(i as nat));
        }
        self.column = indent;
        Ok(())
    }

    fn append_raw(&mut self, value: &Vec<char>) -> (result: Result<(), RenderError>)
        requires
            old(self).wf(),
        ensures
            final(self).wf(),
            final(self).options == old(self).options,
            agrees(
                result,
                emit_raw(old(self).options, normalize_newlines(value@), old(self).trace()),
                final(self).trace(),
            ),
    {
        let normalized = normalize_line_endings(value);
        let ghost expected = emit_raw(self.options, normalized@, self.trace());
        let mut i: usize = 0;
        assert(normalized@.skip(0) =~= normalized@);
        while i < normalized.len()
            invariant
                self.wf(),
                i <= normalized.len(),
                self.options == old(self).options,
                emit_raw(self.options, normalized@.skip(i as int), self.trace()) == expected,
                expected == emit_raw(old(self).options, normalize_newlines(value@), old(self).trace()),
            decreases normalized.len() - i,
        {
            let c = normalized[i];
            proof {
                assert(normalized@.skip(i as int)[0] == c);
                assert(normalized@.skip(i as int).drop_first() =~= normalized@.skip(i + 1));
            }
            let width = char_utf8_width(c);
            if self.output_bytes.saturating_add(width) > self.options.limits.max_output_bytes {
                assert(!room_for(self.options, self.trace(), utf8_width(c) as int));
                assert(emit_raw(self.options, normalized@.skip(i as int), self.trace()) == Err::<
                    Trace,
                    RenderError,
                >(output_limit(self.options)));
                return Err(RenderError::OutputLimit { limit: self.options.limits.max_output_bytes });
            }
            self.append_char(c);
            if c == '\n' {
                self.column = 0;
            } else {
                self.column = self.column.saturating_add(1);
            }
            i += 1;
        }
        assert(normalized@.skip(i as int) =~= Seq::<char>::empty());
        Ok(())
    }

    fn fits(&mut self, document: &Document, available: usize, depth: usize) -> (result: Result<
        bool,
        RenderError,
    >)
        requires
            old(self).wf(),
        ensures
            final(self).wf(),
            final(self).options == old(self).options,
            final(self).output@ == old(self).output@,
            final(self).column == old(self).column,
            match group_fits(
                document@,
                available as int,
                depth as int,
                old(self).options,
                old(self).trace(),
            ) {
                Err(e) => result == Err::<bool, RenderError>(e),
                Ok((fits, t)) => result == Ok::<bool, RenderError>(fits) && final(self).trace() == t,
            },
    {
        let ghost start = self.trace();
        let ghost initial_remaining = available as int;
        let mut remaining = available;
        let mut stack: Vec<(&Document, usize)> = Vec::new();
        stack.push((document, depth));
        self.observe(1);
        let ghost expected = fits_doc(
            document@,
            depth as int,
            0,
            initial_remaining,
            self.options,
            self.trace(),
        );
        proof {
            let single = measures(stack@);
            assert(single.drop_last() =~= Seq::<(DocView, int)>::empty());
            assert(single.last() == (document@, depth as int));
            match expected {
                Err(e) => {},
                Ok(FitStep::Overflows { trace }) => {},
                Ok(FitStep::Fits { remaining: r, trace }) => {
                    assert(fits_frames(Seq::<(DocView, int)>::empty(), r, self.options, trace) == expected);
                },
            }
        }
        while stack.len() > 0
            invariant
                self.wf(),
                self.options == old(self).options,
                self.output@ == old(self).output@,
                self.column == old(self).column,
                expected == fits_doc(
                    document@,
                    depth as int,
                    0,
                    initial_remaining,
                    self.options,
                    observe(start, 1),
                ),
                start == old(self).trace(),
                initial_remaining == available as int,
                fits_frames(measures(stack@), remaining as int, self.options, self.trace())
                    == expected,
            decreases measures_size(measures(stack@)),
        {
            let ghost before = measures(stack@);
            let (doc, d) = stack.pop().unwrap();
            let ghost popped = measures(stack@);
            proof {
                assert(before.drop_last() =~= popped);
                assert(before.last() == (doc@, d as int));
            }
            let ghost before_visit = self.trace();
            proof {
                assert(fits_frames(before, remaining as int, self.options, before_visit) == then_fit(
                    fits_doc(doc@, d as int, popped.len() as int, remaining as int, self.options, before_visit),
                    popped,
                    self.options,
                ));
            }
            match self.visit(d) {
                Err(e) => {
                    assert(fits_doc(doc@, d as int, popped.len() as int, remaining as int, self.options, before_visit) == Err::<FitStep, RenderError>(e));
                    return Err(e);
                },
                Ok(()) => {},
            }
            let child_depth = d.saturating_add(1);
            match &*doc.node {
                Node::Empty => {
                    self.observe(stack.len());
                },
                Node::Text { value, raw } => {
                    if *raw && contains_line_break(value) {
                        return Ok(false);
                    }
                    if value.len() > remaining {
                        return Ok(false);
                    }
                    remaining = remaining - value.len();
                    self.observe(stack.len());
                },
                Node::SoftLine => {
                    if remaining == 0 {
                        return Ok(false);
                    }
                    remaining = remaining - 1;
                    self.observe(stack.len());
                },
                Node::HardLine => {
                    assert(doc@ == DocView::HardLine);
                    return Ok(false);
                },
                Node::Concat(children) => {
                    let ghost views = docs_view(children@);
                    proof {
                        lemma_docs_view(children@);
                    }
                    let mut j = children.len();
                    assert(views.subrange(j as int, children.len() as int) =~= Seq::<DocView>::empty());
                    assert(popped + reversed_measures(Seq::<DocView>::empty(), child_depth as int) =~= popped);
                    while j > 0
                        invariant
                            j <= children.len(),
                            views == docs_view(children@),
                            views.len() == children.len(),
                            forall|k: int| 0 <= k < children.len() ==> #[trigger] views[k] == children@[k]@,
                            measures(stack@) == popped + reversed_measures(
                                views.subrange(j as int, children.len() as int),
                                child_depth as int,
                            ),
                        decreases j,
                    {
                        j = j - 1;
                        let ghost prior = measures(stack@);
                        stack.push((&children[j], child_depth));
                        assert(measures(stack@) =~= prior.push((children@[j as int]@, child_depth as int)));
                        assert(reversed_measures(
                            views.subrange(j as int, children.len() as int),
                            child_depth as int,
                        ) =~= reversed_measures(
                            views.subrange(j + 1, children.len() as int),
                            child_depth as int,
                        ).push((views[j as int], child_depth as int)));
                        assert(measures(stack@) =~= popped + reversed_measures(
                            views.subrange(j as int, children.len() as int),
                            child_depth as int,
                        ));
                    }
                    assert(views.subrange(0, children.len() as int) =~= views);
                    self.observe(stack.len());
                    proof {
                        lemma_fit_children(popped, views, child_depth as int, remaining as int, self.options, self.trace());
                        lemma_measures_size_children(popped, views, child_depth as int);
                    }
                },
                Node::Indent { spaces, document: inner } => {
                    stack.push((inner, child_depth));
                    self.observe(stack.len());
                    proof {
                        assert(measures(stack@).drop_last() =~= popped);
                    }
                },
                Node::Group(inner) => {
                    stack.push((inner, child_depth));
                    self.observe(stack.len());
                    proof {
                        assert(measures(stack@).drop_last() =~= popped);
                    }
                },
                Node::IfBreak { broken, flat } => {
                    stack.push((flat, child_depth));
                    self.observe(stack.len());
                    proof {
                        assert(measures(stack@).drop_last() =~= popped);
                    }
                },
            }
        }
        Ok(true)
    }

    fn push_frame<'a>(stack: &mut Vec<Frame<'a>>, frame: Frame<'a>)
        ensures
            final(stack)@ == old(stack)@.push(frame),
            pendings(final(stack)@) == pendings(old(stack)@).push(frame_pending(frame)),
    {
        stack.push(frame);
        assert(pendings(stack@) =~= pendings(old(stack)@).push(frame_pending(frame)));
    }

    /// Lays out `document`, whose frame is the only one pending.
    fn layout(&mut self, document: &Document) -> (result: Result<(), RenderError>)
        requires
            old(self).wf(),
        ensures
            final(self).wf(),
            final(self).options == old(self).options,
            agrees(
                result,
                render_doc(
                    document@,
                    0,
                    LayoutMode::Break,
                    1,
                    0,
                    old(self).options,
                    observe(old(self).trace(), 1),
                ),
                final(self).trace(),
            ),
    {
        let ghost start = self.trace();
        let mut stack: Vec<Frame> = Vec::new();
        Self::push_frame(&mut stack, Frame { indent: 0, mode: LayoutMode::Break, depth: 1, document });
        self.observe(1);
        let ghost expected = render_doc(document@, 0, LayoutMode::Break, 1, 0, self.options, self.trace());
        proof {
            let single = pendings(stack@);
            assert(single.drop_last() =~= Seq::<Pending>::empty());
            match expected {
                Err(e) => {},
                Ok(t) => {
                    assert(run_frames(Seq::<Pending>::empty(), self.options, t) == expected);
                },
            }
        }
        while stack.len() > 0
            invariant
                self.wf(),
                self.options == old(self).options,
                start == old(self).trace(),
                expected == render_doc(
                    document@,
                    0,
                    LayoutMode::Break,
                    1,
                    0,
                    self.options,
                    observe(start, 1),
                ),
                run_frames(pendings(stack@), self.options, self.trace()) == expected,
            decreases frames_size(pendings(stack@)),
        {
            let ghost before = pendings(stack@);
            let frame = stack.pop().unwrap();
            let ghost popped = pendings(stack@);
            let ghost before_visit = self.trace();
            proof {
                assert(before.drop_last() =~= popped);
                assert(before.last() == frame_pending(frame));
                assert(run_frames(before, self.options, before_visit) == then_run(
                    render_doc(
                        frame.document@,
                        frame.indent as int,
                        frame.mode,
                        frame.depth as int,
                        popped.len() as int,
                        self.options,
                        before_visit,
                    ),
                    popped,
                    self.options,
                ));
            }
            match self.visit(frame.depth) {
                Err(e) => {
                    return Err(e);
                },
                Ok(()) => {},
            }
            let child_depth = frame.depth.saturating_add(1);
            match &*frame.document.node {
                Node::Empty => {},
                Node::Text { value, raw } => {
                    let step = if *raw {
                        self.append_raw(value)
                    } else {
                        self.append_plain(value)
                    };
                    match step {
                        Err(e) => {
                            return Err(e);
                        },
                        Ok(()) => {},
                    }
                },
                Node::SoftLine => {
                    let step = match frame.mode {
                        LayoutMode::Flat => {
                            let space = vec![' '];
                            assert(space@ =~= seq![' ']);
                            self.append_plain(&space)
                        },
                        LayoutMode::Break => self.append_line(frame.indent),
                    };
                    match step {
                        Err(e) => {
                            return Err(e);
                        },
                        Ok(()) => {},
                    }
                },
                Node::HardLine => {
                    match self.append_line(frame.indent) {
                        Err(e) => {
                            return Err(e);
                        },
                        Ok(()) => {},
                    }
                },
                Node::Concat(children) => {
                    let ghost views = docs_view(children@);
                    proof {
                        lemma_docs_view(children@);
                    }
                    let mut j = children.len();
                    assert(views.subrange(j as int, children.len() as int) =~= Seq::<DocView>::empty());
                    assert(popped + reversed_frames(
                        Seq::<DocView>::empty(),
                        frame.indent as int,
                        frame.mode,
                        child_depth as int,
                    ) =~= popped);
                    while j > 0
                        invariant
                            j <= children.len(),
                            views == docs_view(children@),
                            views.len() == children.len(),
                            forall|k: int| 0 <= k < children.len() ==> #[trigger] views[k] == children@[k]@,
                            pendings(stack@) == popped + reversed_frames(
                                views.subrange(j as int, children.len() as int),
                                frame.indent as int,
                                frame.mode,
                                child_depth as int,
                            ),
                        decreases j,
                    {
                        j = j - 1;
                        let child = Frame {
                            indent: frame.indent,
                            mode: frame.mode,
                            depth: child_depth,
                            document: &children[j],
                        };
                        Self::push_frame(&mut stack, child);
                        assert(reversed_frames(
                            views.subrange(j as int, children.len() as int),
                            frame.indent as int,
                            frame.mode,
                            child_depth as int,
                        ) =~= reversed_frames(
                            views.subrange(j + 1, children.len() as int),
                            frame.indent as int,
                            frame.mode,
                            child_depth as int,
                        ).push(frame_pending(child)));
                        assert(pendings(stack@) =~= popped + reversed_frames(
                            views.subrange(j as int, children.len() as int),
                            frame.indent as int,
                            frame.mode,
                            child_depth as int,
                        ));
                    }
                    assert(views.subrange(0, children.len() as int) =~= views);
                    self.observe(stack.len());
                    proof {
                        lemma_run_children(
                            popped,
                            views,
                            frame.indent as int,
                            frame.mode,
                            child_depth as int,
                            self.options,
                            self.trace(),
                        );
                        lemma_frames_size_children(
                            popped,
                            views,
                            frame.indent as int,
                            frame.mode,
                            child_depth as int,
                        );
                    }
                },
                Node::Indent { spaces, document: inner } => {
                    let child = Frame {
                        indent: frame.indent.saturating_add(*spaces),
                        mode: frame.mode,
                        depth: child_depth,
                        document: inner,
                    };
                    Self::push_frame(&mut stack, child);
                    self.observe(stack.len());
                    proof {
                        assert(pendings(stack@).drop_last() =~= popped);
                    }
                },
                Node::Group(inner) => {
                    let mode = match frame.mode {
                        LayoutMode::Flat => LayoutMode::Flat,
                        LayoutMode::Break => {
                            let available = self.options.width.saturating_sub(self.column);
                            match self.fits(inner, available, child_depth) {
                                Err(e) => {
                                    return Err(e);
                                },
                                Ok(true) => LayoutMode::Flat,
                                Ok(false) => LayoutMode::Break,
                            }
                        },
                    };
                    let child = Frame {
                        indent: frame.indent,
                        mode,
                        depth: child_depth,
                        document: inner,
                    };
                    Self::push_frame(&mut stack, child);
                    self.observe(stack.len());
                    proof {
                        assert(pendings(stack@).drop_last() =~= popped);
                    }
                },
                Node::IfBreak { broken, flat } => {
                    let chosen = match frame.mode {
                        LayoutMode::Flat => flat,
                        LayoutMode::Break => broken,
                    };
                    let child = Frame {
                        indent: frame.indent,
                        mode: frame.mode,
                        depth: child_depth,
                        document: chosen,
                    };
                    Self::push_frame(&mut stack, child);
                    self.observe(stack.len());
                    proof {
                        assert(pendings(stack@).drop_last() =~= popped);
                    }
                },
            }
        }
        Ok(())
    }

    fn apply_final_newline(&mut self) -> (result: Result<(), RenderError>)
        requires
            old(self).wf(),
        ensures
            final(self).wf(),
            final(self).options == old(self).options,
            agrees(result, finish(old(self).options, old(self).trace()), final(self).trace()),
    {
        match self.options.final_newline {
            FinalNewline::Preserve => Ok(()),
            FinalNewline::Always => {
                self.trim_newlines();
                if self.output_bytes.saturating_add(1) > self.options.limits.max_output_bytes {
                    return Err(RenderError::OutputLimit { limit: self.options.limits.max_output_bytes });
                }
                self.append_char('\n');
                Ok(())
            },
            FinalNewline::Never => {
                self.trim_newlines();
                Ok(())
            },
        }
    }

    fn trim_newlines(&mut self)
        requires
            old(self).wf(),
        ensures
            final(self).wf(),
            final(self).output@ == trim_newlines(old(self).output@),
            final(self).options == old(self).options,
            final(self).column == old(self).column,
            final(self).stats == old(self).stats,
    {
        while self.output.len() > 0 && self.output[self.output.len() - 1] == '\n'
            invariant
                trim_newlines(self.output@) == trim_newlines(old(self).output@),
                self.options == old(self).options,
                self.column == old(self).column,
                self.stats == old(self).stats,
            decreases self.output.len(),
        {
            let ghost before = self.output@;
            self.output.pop();
            assert(self.output@ =~= before.drop_last());
        }
        self.output_bytes = utf8_length(&self.output);
    }
}

/// Renders `document` as text under `options`, with statistics.
pub fn render_with_stats(document: &Document, options: RenderOptions) -> (result: Result<
    RenderedDocument,
    RenderError,
>)
    ensures
        match spec_render(document@, options) {
            Ok(t) => result matches Ok(rendered) && {
                &&& rendered.text@ == t.out
                &&& rendered.stats.nodes_visited == t.visited
                &&& rendered.stats.peak_pending_frames == t.peak
                &&& rendered.stats.output_bytes == sat(utf8_len(t.out) as int)
                &&& rendered.stats.peak_output_capacity_bytes >= rendered.stats.output_bytes
                &&& rendered.stats.peak_output_capacity_bytes >= sat(utf8_len(layout_text(document@, options)) as int)
                &&& rendered.stats.output_bytes <= options.limits.max_output_bytes
                &&& rendered.stats.nodes_visited <= options.limits.max_nodes
            },
            Err(e) => result == Err::<RenderedDocument, RenderError>(e),
        },
{
    let mut renderer = Renderer {
        options,
        output: Vec::new(),
        output_bytes: 0,
        column: 0,
        stats: RenderStats {
            nodes_visited: 0,
            peak_pending_frames: 0,
            peak_output_capacity_bytes: 0,
            output_bytes: 0,
        },
    };
    proof {
        assert(renderer.output@ =~= Seq::<char>::empty());
        assert(observe(renderer.trace(), 1) == initial_trace());
    }
    match renderer.layout(document) {
        Err(e) => {
            return Err(e);
        },
        Ok(()) => {},
    }
    proof {
        law_render_within_limits(document@, options);
    }
    let laid_out_bytes = renderer.output_bytes;
    match renderer.apply_final_newline() {
        Err(e) => {
            return Err(e);
        },
        Ok(()) => {},
    }
    let text = string_from_chars(&renderer.output);
    let capacity = string_capacity(&text);
    let output_bytes = renderer.output_bytes;
    let held = if laid_out_bytes > output_bytes {
        laid_out_bytes
    } else {
        output_bytes
    };
    let peak_capacity = if capacity > held {
        capacity
    } else {
        held
    };
    let rendered = RenderedDocument {
        text,
        stats: RenderStats {
            nodes_visited: renderer.stats.nodes_visited,
            peak_pending_frames: renderer.stats.peak_pending_frames,
            peak_output_capacity_bytes: peak_capacity,
            output_bytes,
        },
    };
    Ok(rendered)
}

/// Renders `document` as text under `options`.
pub fn render(document: &Document, options: RenderOptions) -> (result: Result<String, RenderError>)
    ensures
        match spec_render(document@, options) {
            Ok(t) => result matches Ok(text) && text@ == t.out,
            Err(e) => result == Err::<String, RenderError>(e),
        },
{
    match render_with_stats(document, options) {
        Ok(rendered) => Ok(rendered.text),
        Err(e) => Err(e),
    }
}

} // verus!
