use crate::text::{
    chars_of, find_char, find_from, find_last, last_occurrence, lemma_find_char,
    lemma_last_occurrence, occurs_at, piece, replace_all, replace_text, starts_at,
};
use vstd::prelude::*;
use vstd::string::StringExecFns;

verus! {

/// The two ways a post writes mathematics: within a line of text, between
/// two dollar signs, or as a block of its own, between `\[` and `\]`.
#[derive(Clone, Copy, Debug, PartialEq, Eq, Structural)]
pub enum MathForm {
    Inline,
    Display,
}

impl MathForm {
    /// The mark that opens a span of this form.
    pub open spec fn opener(self) -> Seq<char> {
        match self {
            MathForm::Inline => seq!['$'],
            MathForm::Display => seq!['\\', '['],
        }
    }

    /// The mark that closes a span of this form.
    pub open spec fn closer(self) -> Seq<char> {
        match self {
            MathForm::Inline => seq!['$'],
            MathForm::Display => seq!['\\', ']'],
        }
    }

    /// The length of either mark.
    pub open spec fn mark_len(self) -> int {
        match self {
            MathForm::Inline => 1,
            MathForm::Display => 2,
        }
    }

    /// The opening mark, character by character.
    pub fn opener_chars(&self) -> (r: Vec<char>)
        ensures
            r@ == self.opener(),
            r.len() == self.mark_len(),
    {
        let mut mark: Vec<char> = Vec::new();
        match self {
            MathForm::Inline => {
                mark.push('$');
            },
            MathForm::Display => {
                mark.push('\\');
                mark.push('[');
            },
        }
        assert(mark@ =~= self.opener());
        mark
    }

    /// The closing mark, character by character.
    pub fn closer_chars(&self) -> (r: Vec<char>)
        ensures
            r@ == self.closer(),
            r.len() == self.mark_len(),
    {
        let mut mark: Vec<char> = Vec::new();
        match self {
            MathForm::Inline => {
                mark.push('$');
            },
            MathForm::Display => {
                mark.push('\\');
                mark.push(']');
            },
        }
        assert(mark@ =~= self.closer());
        mark
    }
}

/// A span of mathematics as the text holds it: the whole of it, marks
/// included, and the expression between the marks.
pub struct SpanText {
    pub full: Seq<char>,
    pub inner: Seq<char>,
}

/// A span of mathematics found in a text.
#[derive(Clone, Debug, PartialEq, Eq)]
pub struct MathSpan {
    pub full: String,
    pub inner: String,
}

impl View for MathSpan {
    type V = SpanText;

    open spec fn view(&self) -> SpanText {
        SpanText { full: self.full@, inner: self.inner@ }
    }
}

/// The views of some spans, one by one.
pub open spec fn span_views(spans: Seq<MathSpan>) -> Seq<SpanText> {
    Seq::new(spans.len(), |k: int| spans[k]@)
}

/// Where the span that opens at `p` ends, or `p` itself where none opens
/// there. A span opens at `p` where the opening mark stands at `p` and a
/// closing mark follows it before the line ends; the span then reaches to the
/// last closing mark of the line.
pub open spec fn span_end(s: Seq<char>, form: MathForm, p: int) -> int {
    let inner = p + form.mark_len();
    let last = last_occurrence(
        s,
        form.closer(),
        inner,
        find_char(s, '\n', inner) - form.mark_len(),
    );
    if occurs_at(s, form.opener(), p) && last >= inner {
        last + form.mark_len()
    } else {
        p
    }
}

/// The span of `s` from `p` up to `end`.
pub open spec fn span_text(s: Seq<char>, form: MathForm, p: int, end: int) -> SpanText {
    SpanText {
        full: s.subrange(p, end),
        inner: s.subrange(p + form.mark_len(), end - form.mark_len()),
    }
}

/// The spans of the given form that `s` holds from `from` on, in the order
/// in which they stand: the first that opens, then those that follow where it
/// ends. No two overlap.
pub open spec fn spans_from(s: Seq<char>, form: MathForm, from: int) -> Seq<SpanText>
    decreases s.len() - from,
{
    if from < 0 || from >= s.len() {
        Seq::empty()
    } else {
        let end = span_end(s, form, from);
        if from < end <= s.len() {
            seq![span_text(s, form, from, end)] + spans_from(s, form, end)
        } else {
            spans_from(s, form, from + 1)
        }
    }
}

/// The spans of the given form in `s`.
pub open spec fn spans_of(s: Seq<char>, form: MathForm) -> Seq<SpanText> {
    spans_from(s, form, 0)
}

/// A span that opens at `p` begins with the opening mark, ends with a closing
/// mark that does not overlap it, holds no line break after the opening mark,
/// and is followed by no closing mark on the same line.
pub proof fn lemma_span_shape(s: Seq<char>, form: MathForm, p: int)
    requires
        0 <= p,
        span_end(s, form, p) > p,
    ensures
        occurs_at(s, form.opener(), p),
        span_end(s, form, p) >= p + 2 * form.mark_len(),
        span_end(s, form, p) <= s.len(),
        occurs_at(s, form.closer(), span_end(s, form, p) - form.mark_len()),
        forall|i: int| p + form.mark_len() <= i < span_end(s, form, p) ==> s[i] != '\n',
        forall|q: int|
            span_end(s, form, p) - form.mark_len() < q && q + form.mark_len() <= find_char(
                s,
                '\n',
                p + form.mark_len(),
            ) ==> !occurs_at(s, form.closer(), q),
{
    let inner = p + form.mark_len();
    let line = find_char(s, '\n', inner);
    assert(form.opener().len() == form.mark_len());
    assert(form.closer().len() == form.mark_len());
    lemma_find_char(s, '\n', inner);
    lemma_last_occurrence(s, form.closer(), inner, line - form.mark_len());
}

/// The marks of the given form stand at `p` and `q` and bracket an
/// expression: the opening mark at `p`, the closing mark at `q` behind it, and
/// no line break between the two.
pub open spec fn brackets(s: Seq<char>, form: MathForm, p: int, q: int) -> bool {
    &&& occurs_at(s, form.opener(), p)
    &&& p + form.mark_len() <= q
    &&& occurs_at(s, form.closer(), q)
    &&& forall|i: int| p + form.mark_len() <= i < q ==> s[i] != '\n'
}

/// A span opens at `p` exactly where the opening mark at `p` and some closing
/// mark bracket an expression; it then ends with the last closing mark that
/// does so.
pub proof fn lemma_span_opens(s: Seq<char>, form: MathForm, p: int)
    requires
        0 <= p,
    ensures
        span_end(s, form, p) > p <==> exists|q: int| brackets(s, form, p, q),
        forall|q: int| brackets(s, form, p, q) ==> q + form.mark_len() <= span_end(s, form, p),
        span_end(s, form, p) > p ==> brackets(
            s,
            form,
            p,
            span_end(s, form, p) - form.mark_len(),
        ),
{
    let mark = form.mark_len();
    let inner = p + mark;
    let line = find_char(s, '\n', inner);
    assert(form.opener().len() == mark);
    assert(form.closer().len() == mark);
    lemma_last_occurrence(s, form.closer(), inner, line - mark);
    if span_end(s, form, p) > p {
        lemma_span_shape(s, form, p);
        assert(brackets(s, form, p, span_end(s, form, p) - mark));
    }
    assert forall|q: int| brackets(s, form, p, q) implies q + mark <= span_end(s, form, p) by {
        lemma_find_char(s, '\n', inner);
        if line < q + mark {
            assert(s[line] == '\n');
            if line >= q {
                assert(s.subrange(q, q + mark)[line - q] == s[line]);
                assert(form.closer()[line - q] != '\n');
            }
        }
    }
}

/// A text holds a span of the given form exactly where, somewhere in it, the
/// two marks bracket an expression.
pub proof fn lemma_spans_found(s: Seq<char>, form: MathForm, from: int)
    requires
        0 <= from,
    ensures
        spans_from(s, form, from).len() > 0 <==> exists|p: int, q: int|
            from <= p && brackets(s, form, p, q),
    decreases s.len() - from,
{
    if from < s.len() {
        lemma_span_opens(s, form, from);
        let end = span_end(s, form, from);
        if from < end <= s.len() {
            assert(brackets(s, form, from, end - form.mark_len()));
        } else {
            lemma_span_shape_bound(s, form, from);
            lemma_spans_found(s, form, from + 1);
            assert(spans_from(s, form, from) == spans_from(s, form, from + 1));
            if exists|p: int, q: int| from <= p && brackets(s, form, p, q) {
                let (p, q) = choose|p: int, q: int| from <= p && brackets(s, form, p, q);
                assert(from + 1 <= p && brackets(s, form, p, q));
            }
        }
    } else {
        assert forall|p: int, q: int| from <= p implies !brackets(s, form, p, q) by {
            assert(form.opener().len() == form.mark_len());
        }
    }
}

/// A span never reaches beyond the text.
proof fn lemma_span_shape_bound(s: Seq<char>, form: MathForm, p: int)
    requires
        0 <= p,
    ensures
        span_end(s, form, p) <= s.len() || span_end(s, form, p) == p,
{
    if span_end(s, form, p) > p {
        lemma_span_shape(s, form, p);
    }
}

/// A text holds mathematics exactly where, somewhere in it, the marks of one
/// of the two forms bracket an expression.
pub proof fn lemma_has_math(s: Seq<char>)
    ensures
        has_math(s) <==> exists|form: MathForm, p: int, q: int| 0 <= p && brackets(s, form, p, q),
{
    lemma_spans_found(s, MathForm::Inline, 0);
    lemma_spans_found(s, MathForm::Display, 0);
    if has_math(s) {
        if spans_of(s, MathForm::Inline).len() > 0 {
            let (p, q) = choose|p: int, q: int| 0 <= p && brackets(s, MathForm::Inline, p, q);
            assert(0 <= p && brackets(s, MathForm::Inline, p, q));
        } else {
            let (p, q) = choose|p: int, q: int| 0 <= p && brackets(s, MathForm::Display, p, q);
            assert(0 <= p && brackets(s, MathForm::Display, p, q));
        }
    }
    if exists|form: MathForm, p: int, q: int| 0 <= p && brackets(s, form, p, q) {
        let (form, p, q) = choose|form: MathForm, p: int, q: int|
            0 <= p && brackets(s, form, p, q);
        match form {
            MathForm::Inline => {
                assert(0 <= p && brackets(s, MathForm::Inline, p, q));
            },
            MathForm::Display => {
                assert(0 <= p && brackets(s, MathForm::Display, p, q));
            },
        }
    }
}

/// What makes a span of the given form in `s`: it stands in `s`, it is its
/// expression between the two marks, and the expression holds no line break.
pub open spec fn is_span_of(s: Seq<char>, form: MathForm, span: SpanText) -> bool {
    &&& span.full == form.opener() + span.inner + form.closer()
    &&& forall|i: int| 0 <= i < span.inner.len() ==> span.inner[i] != '\n'
    &&& exists|p: int| occurs_at(s, span.full, p)
}

/// Every span found in a text is a span of it.
pub proof fn lemma_spans_are_spans(s: Seq<char>, form: MathForm, from: int)
    ensures
        forall|k: int|
            #![trigger spans_from(s, form, from)[k]]
            0 <= k < spans_from(s, form, from).len() ==> is_span_of(
                s,
                form,
                spans_from(s, form, from)[k],
            ),
    decreases s.len() - from,
{
    if 0 <= from < s.len() {
        let end = span_end(s, form, from);
        if from < end <= s.len() {
            lemma_span_shape(s, form, from);
            lemma_spans_are_spans(s, form, end);
            let span = span_text(s, form, from, end);
            let mark = form.mark_len();
            assert(s.subrange(from, from + mark) == form.opener());
            assert(s.subrange(end - mark, end) == form.closer());
            assert(span.full =~= form.opener() + span.inner + form.closer());
            assert(occurs_at(s, span.full, from));
            assert(is_span_of(s, form, span));
            assert forall|k: int|
                #![trigger spans_from(s, form, from)[k]]
                0 <= k < spans_from(s, form, from).len() implies is_span_of(
                s,
                form,
                spans_from(s, form, from)[k],
            ) by {
                if k > 0 {
                    assert(spans_from(s, form, from)[k] == spans_from(s, form, end)[k - 1]);
                }
            }
        } else {
            lemma_spans_are_spans(s, form, from + 1);
            assert(spans_from(s, form, from) == spans_from(s, form, from + 1));
        }
    } else {
        assert(spans_from(s, form, from).len() == 0);
    }
}

/// A text in which the opening mark stands nowhere holds no span.
pub proof fn lemma_no_opener_no_span(s: Seq<char>, form: MathForm, from: int)
    requires
        forall|p: int| !occurs_at(s, form.opener(), p),
    ensures
        spans_from(s, form, from) == Seq::<SpanText>::empty(),
    decreases s.len() - from,
{
    if 0 <= from < s.len() {
        lemma_no_opener_no_span(s, form, from + 1);
    }
}

/// A text in which the closing mark stands nowhere holds no span.
pub proof fn lemma_no_closer_no_span(s: Seq<char>, form: MathForm, from: int)
    requires
        forall|q: int| !occurs_at(s, form.closer(), q),
    ensures
        spans_from(s, form, from) == Seq::<SpanText>::empty(),
    decreases s.len() - from,
{
    if 0 <= from < s.len() {
        let inner = from + form.mark_len();
        lemma_last_occurrence(
            s,
            form.closer(),
            inner,
            find_char(s, '\n', inner) - form.mark_len(),
        );
        lemma_no_closer_no_span(s, form, from + 1);
    }
}

/// Finds the spans of the given form in `text`, in the order in which they
/// stand.
pub fn find_spans(text: &str, form: MathForm) -> (r: Vec<MathSpan>)
    ensures
        span_views(r@) == spans_of(text@, form),
{
    let chars = chars_of(text);
    let opener = form.opener_chars();
    let closer = form.closer_chars();
    let mark: usize = opener.len();
    let mut found: Vec<MathSpan> = Vec::new();
    let mut i: usize = 0;
    assert(span_views(found@) =~= Seq::<SpanText>::empty());
    while i < chars.len()
        invariant
            chars@ == text@,
            opener@ == form.opener(),
            closer@ == form.closer(),
            mark == form.mark_len(),
            mark == opener.len(),
            mark == closer.len(),
            i <= chars.len(),
            span_views(found@) + spans_from(text@, form, i as int) == spans_of(text@, form),
        decreases chars.len() - i,
    {
        let mut end: usize = i;
        if starts_at(&chars, &opener, i) {
            let inner: usize = i + mark;
            let line = find_from(&chars, '\n', inner);
            match find_last(&chars, &closer, inner, line) {
                Some(q) => {
                    proof {
                        lemma_last_occurrence(text@, form.closer(), inner as int, line - mark);
                    }
                    end = q + mark;
                },
                None => {},
            }
        }
        assert(end == span_end(text@, form, i as int));
        if end > i {
            let ghost had = span_views(found@);
            let span = MathSpan { full: piece(text, i, end), inner: piece(text, i + mark, end - mark) };
            assert(span@ == span_text(text@, form, i as int, end as int));
            found.push(span);
            assert(span_views(found@) =~= had + seq![span_text(text@, form, i as int, end as int)]);
            assert(span_views(found@) + spans_from(text@, form, end as int) =~= had + spans_from(
                text@,
                form,
                i as int,
            ));
            i = end;
        } else {
            i += 1;
        }
    }
    assert(spans_from(text@, form, i as int) =~= Seq::<SpanText>::empty());
    assert(span_views(found@) + Seq::<SpanText>::empty() =~= span_views(found@));
    found
}

/// One replacement to make in a text: every occurrence of `target` gives way
/// to `fragment`.
#[derive(Clone, Debug, PartialEq, Eq)]
pub struct Replacement {
    pub target: String,
    pub fragment: String,
}

impl View for Replacement {
    type V = (Seq<char>, Seq<char>);

    open spec fn view(&self) -> (Seq<char>, Seq<char>) {
        (self.target@, self.fragment@)
    }
}

/// The views of some replacements, one by one.
pub open spec fn replacement_views(list: Seq<Replacement>) -> Seq<(Seq<char>, Seq<char>)> {
    Seq::new(list.len(), |k: int| list[k]@)
}

/// `buf` after the first `k` of the replacements, made one after the other,
/// each on what the one before left.
pub open spec fn replaced_upto(buf: Seq<char>, list: Seq<(Seq<char>, Seq<char>)>, k: int) -> Seq<
    char,
>
    decreases k,
{
    if k <= 0 {
        buf
    } else {
        replace_all(replaced_upto(buf, list, k - 1), list[k - 1].0, list[k - 1].1)
    }
}

/// `buf` after all the replacements of `list`, in order.
pub open spec fn replaced(buf: Seq<char>, list: Seq<(Seq<char>, Seq<char>)>) -> Seq<char> {
    replaced_upto(buf, list, list.len() as int)
}

/// Replacing by two lists, one after the other, is replacing by the two joined.
pub proof fn lemma_replaced_joined(
    buf: Seq<char>,
    first: Seq<(Seq<char>, Seq<char>)>,
    second: Seq<(Seq<char>, Seq<char>)>,
)
    ensures
        replaced(replaced(buf, first), second) == replaced(buf, first + second),
{
    lemma_replaced_prefix(buf, first, second, first.len() as int);
    lemma_replaced_suffix(buf, first, second, second.len() as int);
}

proof fn lemma_replaced_prefix(
    buf: Seq<char>,
    first: Seq<(Seq<char>, Seq<char>)>,
    second: Seq<(Seq<char>, Seq<char>)>,
    k: int,
)
    requires
        0 <= k <= first.len(),
    ensures
        replaced_upto(buf, first + second, k) == replaced_upto(buf, first, k),
    decreases k,
{
    if k > 0 {
        lemma_replaced_prefix(buf, first, second, k - 1);
        assert((first + second)[k - 1] == first[k - 1]);
    }
}

proof fn lemma_replaced_suffix(
    buf: Seq<char>,
    first: Seq<(Seq<char>, Seq<char>)>,
    second: Seq<(Seq<char>, Seq<char>)>,
    k: int,
)
    requires
        0 <= k <= second.len(),
        replaced_upto(buf, first + second, first.len() as int) == replaced(buf, first),
    ensures
        replaced_upto(buf, first + second, first.len() + k) == replaced_upto(
            replaced(buf, first),
            second,
            k,
        ),
    decreases k,
{
    if k > 0 {
        lemma_replaced_suffix(buf, first, second, k - 1);
        assert((first + second)[first.len() + k - 1] == second[k - 1]);
    }
}

/// Makes the replacements of `list` in `text`, one after the other.
pub fn apply_replacements(text: &str, list: &Vec<Replacement>) -> (r: String)
    ensures
        r@ == replaced(text@, replacement_views(list@)),
{
    let mut buf = String::from_str(text);
    let mut k: usize = 0;
    while k < list.len()
        invariant
            k <= list.len(),
            buf@ == replaced_upto(text@, replacement_views(list@), k as int),
        decreases list.len() - k,
    {
        let item = &list[k];
        assert(replacement_views(list@)[k as int] == item@);
        buf = replace_text(buf.as_str(), item.target.as_str(), item.fragment.as_str());
        k += 1;
    }
    buf
}

/// The markup that KaTeX makes of `expression` with its options left as they
/// are.
pub uninterp spec fn katex_markup(expression: Seq<char>) -> Seq<char>;

/// The markup that KaTeX makes of `expression` with the display mode set to
/// `display_mode` and its other options left as they are.
pub uninterp spec fn katex_markup_with(expression: Seq<char>, display_mode: bool) -> Seq<char>;

/// `katex::Error`, the engine's refusal, which is carried through unopened.
#[verifier::external_type_specification]
#[verifier::external_body]
pub struct ExKatexError(katex::Error);

/// Calls `katex::render`. Where KaTeX accepts the expression, the markup it
/// gives depends on the expression alone; whether it accepts is left open.
#[verifier::external_body]
fn katex_render(expression: &str) -> (r: Result<String, katex::Error>)
    ensures
        r matches Ok(markup) ==> markup@ == katex_markup(expression@),
{
    katex::render(expression)
}

/// Calls `katex::render_with_opts`, with options in which only the display
/// mode is set. Where KaTeX accepts the expression, the markup it gives
/// depends on the expression and the mode alone; whether it accepts is left
/// open.
#[verifier::external_body]
fn katex_render_with(expression: &str, display_mode: bool) -> (r: Result<String, katex::Error>)
    ensures
        r matches Ok(markup) ==> markup@ == katex_markup_with(expression@, display_mode),
{
    let mut opts = katex::Opts::default();
    opts.set_display_mode(display_mode);
    katex::render_with_opts(expression, &opts)
}

/// The mathematics engine refused an expression.
#[derive(Clone, Copy, Debug, PartialEq, Eq, Structural)]
pub struct MathRenderError;

/// The markup that stands for the expression `inner` of a span of the given
/// form: inline spans are rendered with the engine's options left as they
/// are, display spans in display mode.
pub open spec fn fragment_of(form: MathForm, inner: Seq<char>) -> Seq<char> {
    match form {
        MathForm::Inline => katex_markup(inner),
        MathForm::Display => katex_markup_with(inner, true),
    }
}

/// The replacements that some spans of one form ask for: each span's whole
/// text gives way to the markup of its expression.
pub open spec fn planned(spans: Seq<SpanText>, form: MathForm) -> Seq<(Seq<char>, Seq<char>)> {
    Seq::new(spans.len(), |k: int| (spans[k].full, fragment_of(form, spans[k].inner)))
}

/// Renders one expression as a span of the given form. Every expression is
/// handed to the engine as it stands, and the engine alone decides whether
/// there is markup for it: see `engine_outcome` for what becomes of its answer.
pub fn render_expression(form: MathForm, inner: &str) -> (r: Result<String, MathRenderError>)
    ensures
        r matches Ok(markup) ==> markup@ == fragment_of(form, inner@),
{
    let outcome = match form {
        MathForm::Inline => katex_render(inner),
        MathForm::Display => katex_render_with(inner, true),
    };
    engine_outcome(outcome)
}

/// What an answer of the engine comes to: its markup, untouched, where it
/// gave some, and this library's refusal where it refused, whatever its
/// reason.
pub fn engine_outcome(outcome: Result<String, katex::Error>) -> (r: Result<
    String,
    MathRenderError,
>)
    ensures
        match outcome {
            Ok(markup) => r == Ok::<String, MathRenderError>(markup),
            Err(_) => r == Err::<String, MathRenderError>(MathRenderError),
        },
{
    match outcome {
        Ok(markup) => Ok(markup),
        Err(_) => Err(MathRenderError),
    }
}

/// Renders each span and pairs its text with the markup, stopping at the
/// first expression that the engine refuses.
pub fn render_spans(spans: &Vec<MathSpan>, form: MathForm) -> (r: Result<
    Vec<Replacement>,
    MathRenderError,
>)
    ensures
        match r {
            Ok(list) => replacement_views(list@) == planned(span_views(spans@), form),
            Err(_) => spans.len() > 0,
        },
{
    let mut list: Vec<Replacement> = Vec::new();
    let mut k: usize = 0;
    while k < spans.len()
        invariant
            k <= spans.len(),
            list.len() == k,
            forall|j: int|
                #![trigger list@[j]]
                0 <= j < k ==> list@[j]@ == (
                    spans@[j].full@,
                    fragment_of(form, spans@[j].inner@),
                ),
        decreases spans.len() - k,
    {
        let span = &spans[k];
        match render_expression(form, span.inner.as_str()) {
            Ok(markup) => {
                list.push(Replacement { target: span.full.clone(), fragment: markup });
            },
            Err(e) => {
                return Err(e);
            },
        }
        k += 1;
    }
    assert(replacement_views(list@) =~= planned(span_views(spans@), form));
    Ok(list)
}

/// Whether `s` holds any span of mathematics.
pub open spec fn has_math(s: Seq<char>) -> bool {
    spans_of(s, MathForm::Inline).len() > 0 || spans_of(s, MathForm::Display).len() > 0
}

/// The replacements that `s` asks for: those of its inline spans, then those
/// of its display spans, both as found in `s` itself.
pub open spec fn math_plan(s: Seq<char>) -> Seq<(Seq<char>, Seq<char>)> {
    planned(spans_of(s, MathForm::Inline), MathForm::Inline) + planned(
        spans_of(s, MathForm::Display),
        MathForm::Display,
    )
}

/// `s` with its mathematics rendered.
pub open spec fn math_rendered(s: Seq<char>) -> Seq<char> {
    replaced(s, math_plan(s))
}

/// A text without mathematics is its own rendering.
pub proof fn lemma_no_math_unchanged(s: Seq<char>)
    requires
        !has_math(s),
    ensures
        math_rendered(s) == s,
{
    assert(math_plan(s) =~= Seq::<(Seq<char>, Seq<char>)>::empty());
}

/// A text that holds neither a dollar sign nor a backslash is its own
/// rendering.
pub proof fn lemma_plain_text_unchanged(s: Seq<char>)
    requires
        forall|i: int| 0 <= i < s.len() ==> s[i] != '$' && s[i] != '\\',
    ensures
        !has_math(s),
        math_rendered(s) == s,
{
    assert forall|p: int| !occurs_at(s, MathForm::Inline.opener(), p) by {
        if occurs_at(s, MathForm::Inline.opener(), p) {
            assert(s.subrange(p, p + 1)[0] == '$');
        }
    }
    assert forall|p: int| !occurs_at(s, MathForm::Display.opener(), p) by {
        if occurs_at(s, MathForm::Display.opener(), p) {
            assert(s.subrange(p, p + 2)[0] == '\\');
        }
    }
    lemma_no_opener_no_span(s, MathForm::Inline, 0);
    lemma_no_opener_no_span(s, MathForm::Display, 0);
    lemma_no_math_unchanged(s);
}

/// Renders the mathematics of `text`: finds the spans of both forms in it,
/// renders each, and then replaces every occurrence of each span's text by
/// its markup, the inline spans first.
pub fn render_math(text: &str) -> (r: Result<String, MathRenderError>)
    ensures
        match r {
            Ok(out) => out@ == math_rendered(text@),
            Err(_) => has_math(text@),
        },
        !has_math(text@) ==> r is Ok && r->Ok_0@ == text@,
{
    let inline_spans = find_spans(text, MathForm::Inline);
    let display_spans = find_spans(text, MathForm::Display);
    proof {
        if !has_math(text@) {
            lemma_no_math_unchanged(text@);
        }
    }
    let inline = match render_spans(&inline_spans, MathForm::Inline) {
        Ok(list) => list,
        Err(e) => {
            return Err(e);
        },
    };
    let display = match render_spans(&display_spans, MathForm::Display) {
        Ok(list) => list,
        Err(e) => {
            return Err(e);
        },
    };
    let first = apply_replacements(text, &inline);
    let second = apply_replacements(first.as_str(), &display);
    proof {
        lemma_replaced_joined(text@, replacement_views(inline@), replacement_views(display@));
    }
    Ok(second)
}

} // verus!
