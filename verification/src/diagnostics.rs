//! Diagnostics in the style of cargo and rustc.
//!
//! Every pass accumulates diagnostics without stopping; the command line
//! renders them with source context, labelled spans and suggestions.

use vstd::prelude::*;
use crate::breaking::nat_text;
use crate::workflow::count_string;

verus! {

/// Severity level.
#[derive(Debug, Clone, Copy, PartialEq, Eq, PartialOrd, Ord, Structural)]
pub enum Severity {
    Error,
    Warning,
    Info,
    Note,
}

/// A labelled source span.
#[derive(Debug)]
pub struct Label {
    pub file: String,
    pub span: std::ops::Range<usize>,
    pub message: String,
}

impl Clone for Label {
    fn clone(&self) -> (r: Self)
        ensures
            r == *self,
    {
        Label { file: self.file.clone(), span: self.span.start..self.span.end, message: self.message.clone() }
    }
}

/// A code suggestion (a fix).
#[derive(Debug)]
pub struct Suggestion {
    pub file: String,
    pub span: std::ops::Range<usize>,
    pub replacement: String,
    pub message: String,
}

impl Clone for Suggestion {
    fn clone(&self) -> (r: Self)
        ensures
            r == *self,
    {
        Suggestion {
            file: self.file.clone(),
            span: self.span.start..self.span.end,
            replacement: self.replacement.clone(),
            message: self.message.clone(),
        }
    }
}

/// A single diagnostic with its context.
#[derive(Debug, Clone)]
pub struct Diagnostic {
    pub severity: Severity,
    pub code: Option<String>,
    pub message: String,
    pub primary: Option<Label>,
    pub secondary: Vec<Label>,
    pub suggestions: Vec<Suggestion>,
    pub notes: Vec<String>,
    pub help: Option<String>,
}

/// A diagnostic with nothing but a severity and a message.
pub open spec fn bare(severity: Severity, message: Seq<char>, d: Diagnostic) -> bool {
    &&& d.severity == severity
    &&& d.code is None
    &&& d.message@ == message
    &&& d.primary is None
    &&& d.secondary@.len() == 0
    &&& d.suggestions@.len() == 0
    &&& d.notes@.len() == 0
    &&& d.help is None
}

/// A diagnostic with a severity, a message and an unlabelled primary span.
pub open spec fn simple(
    severity: Severity,
    file: Seq<char>,
    span: std::ops::Range<usize>,
    message: Seq<char>,
    d: Diagnostic,
) -> bool {
    &&& d.severity == severity
    &&& d.code is None
    &&& d.message@ == message
    &&& d.primary matches Some(l) && l.file@ == file && l.span == span && l.message@.len() == 0
    &&& d.secondary@.len() == 0
    &&& d.suggestions@.len() == 0
    &&& d.notes@.len() == 0
    &&& d.help is None
}

impl Diagnostic {
    /// The file of the primary label, or the empty string.
    pub fn file(&self) -> (r: &str)
        ensures
            r@ == match self.primary {
                Some(l) => l.file@,
                None => ""@,
            },
    {
        match &self.primary {
            Some(l) => l.file.as_str(),
            None => "",
        }
    }

    /// The span of the primary label, or `0..0`.
    pub fn span(&self) -> (r: std::ops::Range<usize>)
        ensures
            r == match self.primary {
                Some(l) => l.span,
                None => 0..0,
            },
    {
        match &self.primary {
            Some(l) => l.span.start..l.span.end,
            None => 0..0,
        }
    }
}

/// Accumulates diagnostics across all compiler passes.
#[derive(Debug)]
pub struct Diagnostics {
    diagnostics: Vec<Diagnostic>,
}

impl View for Diagnostics {
    type V = Seq<Diagnostic>;

    closed spec fn view(&self) -> Seq<Diagnostic> {
        self.diagnostics@
    }
}

/// Whether some diagnostic is an error.
pub open spec fn any_error(ds: Seq<Diagnostic>) -> bool {
    exists|i: int| 0 <= i < ds.len() && ds[i].severity == Severity::Error
}

/// The errors among the diagnostics, in order.
pub open spec fn errors_of(ds: Seq<Diagnostic>) -> Seq<Diagnostic>
    decreases ds.len(),
{
    if ds.len() == 0 {
        Seq::empty()
    } else if ds.last().severity == Severity::Error {
        errors_of(ds.drop_last()).push(ds.last())
    } else {
        errors_of(ds.drop_last())
    }
}

impl Default for Diagnostics {
    fn default() -> (r: Self)
        ensures
            r@.len() == 0,
    {
        Diagnostics { diagnostics: Vec::new() }
    }
}

impl Diagnostics {
    pub fn new() -> (r: Self)
        ensures
            r@.len() == 0,
    {
        Diagnostics { diagnostics: Vec::new() }
    }

    fn simple(severity: Severity, file: &str, span: std::ops::Range<usize>, msg: &str) -> (d: Diagnostic)
        ensures
            simple(severity, file@, span, msg@, d),
    {
        Diagnostic {
            severity,
            code: None,
            message: msg.to_owned(),
            primary: Some(Label { file: file.to_owned(), span, message: String::new() }),
            secondary: Vec::new(),
            suggestions: Vec::new(),
            notes: Vec::new(),
            help: None,
        }
    }

    /// Record an error at `span` of `file`.
    pub fn error(&mut self, file: &str, span: std::ops::Range<usize>, msg: &str)
        ensures
            final(self)@.len() == old(self)@.len() + 1,
            final(self)@.take(old(self)@.len() as int) == old(self)@,
            simple(Severity::Error, file@, span, msg@, final(self)@.last()),
    {
        let d = Self::simple(Severity::Error, file, span, msg);
        self.diagnostics.push(d);
        proof {
            assert(self.diagnostics@.take(old(self)@.len() as int) =~= old(self)@);
        }
    }

    /// Record a warning at `span` of `file`.
    pub fn warning(&mut self, file: &str, span: std::ops::Range<usize>, msg: &str)
        ensures
            final(self)@.len() == old(self)@.len() + 1,
            final(self)@.take(old(self)@.len() as int) == old(self)@,
            simple(Severity::Warning, file@, span, msg@, final(self)@.last()),
    {
        let d = Self::simple(Severity::Warning, file, span, msg);
        self.diagnostics.push(d);
        proof {
            assert(self.diagnostics@.take(old(self)@.len() as int) =~= old(self)@);
        }
    }

    /// Start a rich diagnostic; it is recorded when the builder emits it.
    pub fn build(&mut self, severity: Severity, msg: &str) -> (b: DiagnosticBuilder<'_>)
        ensures
            *b.diagnostics == *old(self),
            *final(self) == *final(b.diagnostics),
            bare(severity, msg@, b.diag),
    {
        let diag = Diagnostic {
            severity,
            code: None,
            message: msg.to_owned(),
            primary: None,
            secondary: Vec::new(),
            suggestions: Vec::new(),
            notes: Vec::new(),
            help: None,
        };
        DiagnosticBuilder { diagnostics: self, diag }
    }

    pub fn has_errors(&self) -> (r: bool)
        ensures
            r == any_error(self@),
    {
        let mut i: usize = 0;
        while i < self.diagnostics.len()
            invariant
                i <= self.diagnostics@.len(),
                forall|j: int| 0 <= j < i ==> self.diagnostics@[j].severity != Severity::Error,
            decreases self.diagnostics.len() - i,
        {
            if self.diagnostics[i].severity == Severity::Error {
                return true;
            }
            i += 1;
        }
        false
    }

    /// The errors, in order.
    pub fn errors(&self) -> (r: Vec<&Diagnostic>)
        ensures
            r@.len() == errors_of(self@).len(),
            forall|i: int| 0 <= i < r@.len() ==> *r@[i] == errors_of(self@)[i],
    {
        let mut r: Vec<&Diagnostic> = Vec::new();
        let mut i: usize = 0;
        while i < self.diagnostics.len()
            invariant
                i <= self.diagnostics@.len(),
                r@.len() == errors_of(self@.take(i as int)).len(),
                forall|j: int| 0 <= j < r@.len() ==> *r@[j] == errors_of(self@.take(i as int))[j],
            decreases self.diagnostics.len() - i,
        {
            proof {
                assert(self@.take(i + 1).drop_last() =~= self@.take(i as int));
            }
            if self.diagnostics[i].severity == Severity::Error {
                r.push(&self.diagnostics[i]);
            }
            i += 1;
        }
        proof {
            assert(self@.take(self@.len() as int) =~= self@);
        }
        r
    }

    pub fn all(&self) -> (r: &[Diagnostic])
        ensures
            r@ == self@,
    {
        self.diagnostics.as_slice()
    }

    pub fn len(&self) -> (r: usize)
        ensures
            r == self@.len(),
    {
        self.diagnostics.len()
    }

    pub fn is_empty(&self) -> (r: bool)
        ensures
            r == (self@.len() == 0),
    {
        self.diagnostics.len() == 0
    }
}

/// `b` is `a` with one diagnostic recorded at its end, as `error`,
/// `warning` and an emitted builder each leave the list.
pub open spec fn appended_one(a: Seq<Diagnostic>, b: Seq<Diagnostic>) -> bool {
    b.len() == a.len() + 1 && b.take(a.len() as int) == a
}

/// One `push` records one diagnostic at the end.
pub proof fn lemma_push_appends(a: Seq<Diagnostic>, d: Diagnostic)
    ensures
        appended_one(a, a.push(d)),
{
    assert(a.push(d).take(a.len() as int) =~= a);
}

/// Diagnostics keep the order in which they were recorded: over any run of
/// calls that each record one diagnostic at the end (`error`, `warning`, an
/// emitted builder), the final list is the first list followed by the
/// recorded diagnostics in the order of the calls.
pub proof fn lemma_insertion_order(states: Seq<Seq<Diagnostic>>)
    requires
        states.len() >= 1,
        forall|i: int| 0 <= i < states.len() - 1 ==> appended_one(#[trigger] states[i], states[i + 1]),
    ensures
        states.last() == states[0] + Seq::new((states.len() - 1) as nat, |i: int| states[i + 1].last()),
    decreases states.len(),
{
    let n = states.len();
    if n == 1 {
        assert(states[0] + Seq::new(0, |i: int| states[i + 1].last()) =~= states[0]);
    } else {
        let pre = states.drop_last();
        assert forall|i: int| 0 <= i < pre.len() - 1 implies appended_one(#[trigger] pre[i], pre[i + 1]) by {
            assert(appended_one(states[i], states[i + 1]));
        }
        lemma_insertion_order(pre);
        let a = states[n - 2];
        let b = states[n - 1];
        assert(appended_one(a, b));
        assert(b =~= a.push(b.last()));
        assert(Seq::new((n - 1) as nat, |i: int| states[i + 1].last()) =~= Seq::new(
            (n - 2) as nat,
            |i: int| pre[i + 1].last(),
        ).push(b.last()));
        assert(states.last() =~= states[0] + Seq::new((n - 1) as nat, |i: int| states[i + 1].last()));
    }
}

/// How many of `ds` have severity `s`.
pub open spec fn count_of(ds: Seq<Diagnostic>, s: Severity) -> nat
    decreases ds.len(),
{
    if ds.len() == 0 {
        0
    } else if ds.last().severity == s {
        count_of(ds.drop_last(), s) + 1
    } else {
        count_of(ds.drop_last(), s)
    }
}

/// The closing line of a run that emitted `e` errors and `w` warnings, such
/// as `  2 error(s) and 1 warning(s) emitted`; none where there are neither.
pub open spec fn summary_of(e: nat, w: nat) -> Option<Seq<char>> {
    if e == 0 && w == 0 {
        None
    } else {
        let errs = if e > 0 {
            nat_text(e) + " error(s)"@
        } else {
            Seq::empty()
        };
        let and = if e > 0 && w > 0 {
            " and "@
        } else {
            Seq::empty()
        };
        let warns = if w > 0 {
            nat_text(w) + " warning(s)"@
        } else {
            Seq::empty()
        };
        Some("  "@ + errs + and + warns + " emitted"@)
    }
}

impl Diagnostics {
    /// How many diagnostics have severity `s`.
    pub fn count(&self, s: Severity) -> (r: usize)
        ensures
            r == count_of(self@, s),
    {
        let mut n: usize = 0;
        let mut i: usize = 0;
        while i < self.diagnostics.len()
            invariant
                i <= self.diagnostics@.len(),
                n == count_of(self@.take(i as int), s),
                n <= i,
            decreases self.diagnostics.len() - i,
        {
            proof {
                assert(self@.take(i + 1).drop_last() =~= self@.take(i as int));
            }
            if self.diagnostics[i].severity == s {
                n += 1;
            }
            i += 1;
        }
        proof {
            assert(self@.take(self@.len() as int) =~= self@);
        }
        n
    }

    /// The closing line of a run: how many errors and warnings it emitted.
    pub fn summary(&self) -> (r: Option<String>)
        ensures
            r is Some <==> summary_of(count_of(self@, Severity::Error), count_of(self@, Severity::Warning)) is Some,
            r matches Some(t) ==> t@ == summary_of(count_of(self@, Severity::Error), count_of(self@, Severity::Warning))->0,
    {
        let e = self.count(Severity::Error);
        let w = self.count(Severity::Warning);
        if e == 0 && w == 0 {
            return None;
        }
        let mut t = String::from_str("  ");
        if e > 0 {
            let n = count_string(e as u64);
            t.append(n.as_str());
            t.append(" error(s)");
        }
        if e > 0 && w > 0 {
            t.append(" and ");
        }
        if w > 0 {
            let n = count_string(w as u64);
            t.append(n.as_str());
            t.append(" warning(s)");
        }
        t.append(" emitted");
        Some(t)
    }
}

/// Builds a rich diagnostic, then records it.
pub struct DiagnosticBuilder<'a> {
    pub diagnostics: &'a mut Diagnostics,
    pub diag: Diagnostic,
}

impl<'a> DiagnosticBuilder<'a> {
    pub fn code(self, code: &str) -> (r: Self)
        ensures
            *r.diagnostics == *old(self.diagnostics),
            *final(r.diagnostics) == *final(self.diagnostics),
            r.diag == (Diagnostic { code: r.diag.code, ..self.diag }),
            r.diag.code matches Some(c) && c@ == code@,
    {
        let mut diag = self.diag;
        diag.code = Some(code.to_owned());
        DiagnosticBuilder { diagnostics: self.diagnostics, diag }
    }

    pub fn primary(self, file: &str, span: std::ops::Range<usize>, label: &str) -> (r: Self)
        ensures
            *r.diagnostics == *old(self.diagnostics),
            *final(r.diagnostics) == *final(self.diagnostics),
            r.diag == (Diagnostic { primary: r.diag.primary, ..self.diag }),
            r.diag.primary matches Some(l) && l.file@ == file@ && l.span == span && l.message@ == label@,
    {
        let mut diag = self.diag;
        diag.primary = Some(Label { file: file.to_owned(), span, message: label.to_owned() });
        DiagnosticBuilder { diagnostics: self.diagnostics, diag }
    }

    pub fn secondary(self, file: &str, span: std::ops::Range<usize>, label: &str) -> (r: Self)
        ensures
            *r.diagnostics == *old(self.diagnostics),
            *final(r.diagnostics) == *final(self.diagnostics),
            r.diag == (Diagnostic { secondary: r.diag.secondary, ..self.diag }),
            r.diag.secondary@.len() == self.diag.secondary@.len() + 1,
            r.diag.secondary@.drop_last() == self.diag.secondary@,
            r.diag.secondary@.last().file@ == file@,
            r.diag.secondary@.last().span == span,
            r.diag.secondary@.last().message@ == label@,
    {
        let mut diag = self.diag;
        diag.secondary.push(Label { file: file.to_owned(), span, message: label.to_owned() });
        proof {
            assert(diag.secondary@.drop_last() =~= self.diag.secondary@);
        }
        DiagnosticBuilder { diagnostics: self.diagnostics, diag }
    }

    pub fn note(self, note: &str) -> (r: Self)
        ensures
            *r.diagnostics == *old(self.diagnostics),
            *final(r.diagnostics) == *final(self.diagnostics),
            r.diag == (Diagnostic { notes: r.diag.notes, ..self.diag }),
            r.diag.notes@.len() == self.diag.notes@.len() + 1,
            r.diag.notes@.drop_last() == self.diag.notes@,
            r.diag.notes@.last()@ == note@,
    {
        let mut diag = self.diag;
        diag.notes.push(note.to_owned());
        proof {
            assert(diag.notes@.drop_last() =~= self.diag.notes@);
        }
        DiagnosticBuilder { diagnostics: self.diagnostics, diag }
    }

    pub fn help(self, help: &str) -> (r: Self)
        ensures
            *r.diagnostics == *old(self.diagnostics),
            *final(r.diagnostics) == *final(self.diagnostics),
            r.diag == (Diagnostic { help: r.diag.help, ..self.diag }),
            r.diag.help matches Some(h) && h@ == help@,
    {
        let mut diag = self.diag;
        diag.help = Some(help.to_owned());
        DiagnosticBuilder { diagnostics: self.diagnostics, diag }
    }

    pub fn suggestion(self, file: &str, span: std::ops::Range<usize>, replacement: &str, msg: &str) -> (r: Self)
        ensures
            *r.diagnostics == *old(self.diagnostics),
            *final(r.diagnostics) == *final(self.diagnostics),
            r.diag == (Diagnostic { suggestions: r.diag.suggestions, ..self.diag }),
            r.diag.suggestions@.len() == self.diag.suggestions@.len() + 1,
            r.diag.suggestions@.drop_last() == self.diag.suggestions@,
            r.diag.suggestions@.last().file@ == file@,
            r.diag.suggestions@.last().span == span,
            r.diag.suggestions@.last().replacement@ == replacement@,
            r.diag.suggestions@.last().message@ == msg@,
    {
        let mut diag = self.diag;
        diag.suggestions.push(
            Suggestion { file: file.to_owned(), span, replacement: replacement.to_owned(), message: msg.to_owned() },
        );
        proof {
            assert(diag.suggestions@.drop_last() =~= self.diag.suggestions@);
        }
        DiagnosticBuilder { diagnostics: self.diagnostics, diag }
    }

    /// Record the diagnostic.
    pub fn emit(self)
        ensures
            final(self.diagnostics)@ == old(self.diagnostics)@.push(self.diag),
    {
        self.diagnostics.diagnostics.push(self.diag);
    }
}

/// A span that is never empty: `start..max(end, start + 1)`, for renderers
/// that reject empty ranges.
pub fn clamp_span(span: &std::ops::Range<usize>) -> (r: std::ops::Range<usize>)
    requires
        span.start < usize::MAX,
    ensures
        r.start == span.start,
        r.end == if span.end > span.start {
            span.end as int
        } else {
            span.start + 1
        },
{
    let start = span.start;
    let end = if span.end > start {
        span.end
    } else {
        start + 1
    };
    start..end
}

} // verus!
