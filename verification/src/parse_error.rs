use vstd::prelude::*;

use crate::diagnostic::Severity;
use crate::kinds::TokenKind;
use crate::text_index::TextRange;

verus! {

/// One parse failure: the source range it covers and the token kinds that
/// would have allowed more progress there.
#[derive(Debug, PartialEq, Eq)]
pub struct ParseError {
    pub text_range: TextRange,
    pub expected_tokens: Vec<TokenKind>,
}

/// A plain diagnostic record, ready for a consumer with no knowledge of the
/// engine's types.
#[derive(Debug)]
pub struct Diagnostic {
    pub severity: Severity,
    pub range: TextRange,
    pub message: String,
    pub code: String,
}

/// What the report renderer produces for given inputs; it depends on the
/// source name, the message, the char range, the source text and the color
/// switch alone.
pub uninterp spec fn report_text(
    source_id: Seq<char>,
    msg: Seq<char>,
    start: int,
    end: int,
    source: Seq<char>,
    with_color: bool,
) -> Seq<char>;

/// Relies on ariadne's `Report`: building an error report over a char span
/// of the named source and rendering it to text, as a function of the
/// inputs alone. Ariadne's `Label::new` panics on a backwards span, so one
/// is required not to be; a span past the end of the source is safe (the
/// label is skipped).
#[verifier::external_body]
fn render_report(
    source_id: &str,
    msg: &str,
    start: usize,
    end: usize,
    source: &str,
    with_color: bool,
) -> (r: String)
    requires
        start <= end,
    ensures
        r@ == report_text(source_id@, msg@, start as int, end as int, source@, with_color),
{
    let config = ariadne::Config::default().with_color(with_color).with_index_type(
        ariadne::IndexType::Char,
    );
    let mut builder = ariadne::Report::build(
        ariadne::ReportKind::Error,
        (source_id, start..end),
    ).with_config(config).with_message(msg);
    builder.add_label(
        ariadne::Label::new((source_id, start..end)).with_message("Error occurred here."),
    );
    let mut out: Vec<u8> = Vec::new();
    let _ = builder.finish().write((source_id, ariadne::Source::from(source)), &mut out);
    String::from_utf8_lossy(&out).into_owned()
}

impl ParseError {
    pub fn new(text_range: TextRange, expected_tokens: Vec<TokenKind>) -> (r: ParseError)
        ensures
            r.text_range == text_range,
            r.expected_tokens@ == expected_tokens@,
    {
        ParseError { text_range, expected_tokens }
    }

    pub fn text_range(&self) -> (r: TextRange)
        ensures
            r == self.text_range,
    {
        self.text_range
    }

    /// The failure rendered as an annotated report over the named source
    /// text. With an empty source there is nothing to annotate, and a
    /// backwards range (which only a hand-built error can carry) has no
    /// span to label; both fall back to the bare message.
    pub fn to_error_report(&self, source_id: &str, source: &str, with_color: bool) -> (r:
        String)
        ensures
            (source@.len() > 0 && self.text_range.start.chars <= self.text_range.end.chars)
                ==> r@ == report_text(
                source_id@,
                self.message_view(),
                self.text_range.start.chars as int,
                self.text_range.end.chars as int,
                source@,
                with_color,
            ),
            (source@.len() == 0 || self.text_range.start.chars > self.text_range.end.chars)
                ==> r@ == self.message_view(),
    {
        let msg = self.message_text();
        if source.is_empty() || self.text_range.end.chars < self.text_range.start.chars {
            msg
        } else {
            render_report(
                source_id,
                msg.as_str(),
                self.text_range.start.chars,
                self.text_range.end.chars,
                source,
                with_color,
            )
        }
    }

    /// The message this error renders to.
    pub open spec fn message_view(&self) -> Seq<char> {
        if self.expected_tokens@.len() == 0 {
            "Expected end of file."@
        } else {
            "Expected a different token here."@
        }
    }

    /// Builds the message; the engine is parametric over opaque token tags,
    /// so their names belong to the generated grammar, not to this runtime.
    pub fn message_text(&self) -> (r: String)
        ensures
            r@ == self.message_view(),
    {
        if self.expected_tokens.len() == 0 {
            "Expected end of file.".to_owned()
        } else {
            "Expected a different token here.".to_owned()
        }
    }

    /// The failure as a plain diagnostic record.
    pub fn to_diagnostic(&self) -> (r: Diagnostic)
        ensures
            r.severity == Severity::Error,
            r.range == self.text_range,
            r.message@ == self.message_view(),
            r.code@ == "ParseError"@,
    {
        Diagnostic {
            severity: Severity::Error,
            range: self.text_range,
            message: self.message_text(),
            code: "ParseError".to_owned(),
        }
    }
}

impl crate::diagnostic::Diagnostic for ParseError {
    fn range(&self) -> TextRange {
        self.text_range
    }

    fn code(&self) -> String {
        "ParseError".to_owned()
    }

    fn severity(&self) -> Severity {
        Severity::Error
    }

    fn message(&self) -> String {
        self.message_text()
    }
}

} // verus!
