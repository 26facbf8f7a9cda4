use vstd::prelude::*;
use crate::span::Span;
use crate::text::push_str;

verus! {

/// Every error that the front end reports.
#[derive(Debug)]
pub enum LexoraError {
    UnexpectedToken { expected: String, found: String, span: Span },
    UndefinedVariable { name: String, suggestion: Option<String>, span: Span },
    UndefinedFunction { name: String, suggestion: Option<String>, span: Span },
    TypeMismatch { expected: String, found: String, span: Span },
    AlreadyDefined { name: String, span: Span },
    InvalidCast { from: String, to: String, span: Span },
    Custom { message: String, span: Span },
    Codegen { message: String },
}

/// The source location of an error; code generation errors have none.
pub open spec fn error_span(e: &LexoraError) -> Option<Span> {
    match e {
        LexoraError::UnexpectedToken { span, .. } => Some(*span),
        LexoraError::UndefinedVariable { span, .. } => Some(*span),
        LexoraError::UndefinedFunction { span, .. } => Some(*span),
        LexoraError::TypeMismatch { span, .. } => Some(*span),
        LexoraError::AlreadyDefined { span, .. } => Some(*span),
        LexoraError::InvalidCast { span, .. } => Some(*span),
        LexoraError::Custom { span, .. } => Some(*span),
        LexoraError::Codegen { .. } => None,
    }
}

/// The one-line text of an error.
pub open spec fn error_text(e: &LexoraError) -> Seq<char> {
    match e {
        LexoraError::UnexpectedToken { expected, found, .. } => "beklenen: "@ + expected@
            + ", bulunan: "@ + found@,
        LexoraError::UndefinedVariable { name, .. } => "tanimsiz degisken: "@ + name@,
        LexoraError::UndefinedFunction { name, .. } => "tanimsiz fonksiyon: "@ + name@,
        LexoraError::TypeMismatch { expected, found, .. } => "Tip uyusmazl\u{131}g\u{131}: beklenen "@
            + expected@ + ", bulunan "@ + found@,
        LexoraError::AlreadyDefined { name, .. } => "Zaten tan\u{131}mli '"@ + name@ + "'"@,
        LexoraError::InvalidCast { from, to, .. } => "Gecersiz cast: "@ + from@ + " -> "@ + to@,
        LexoraError::Custom { message, .. } => message@,
        LexoraError::Codegen { message } => "ic derleyici hatasi (codegen): "@ + message@,
    }
}

impl LexoraError {
    pub fn span(&self) -> (r: Option<Span>)
        ensures
            r == error_span(self),
    {
        match self {
            LexoraError::UnexpectedToken { span, .. } => Some(*span),
            LexoraError::UndefinedVariable { span, .. } => Some(*span),
            LexoraError::UndefinedFunction { span, .. } => Some(*span),
            LexoraError::TypeMismatch { span, .. } => Some(*span),
            LexoraError::AlreadyDefined { span, .. } => Some(*span),
            LexoraError::InvalidCast { span, .. } => Some(*span),
            LexoraError::Custom { span, .. } => Some(*span),
            LexoraError::Codegen { .. } => None,
        }
    }

    /// The text that the error's `Display` shows.
    pub fn to_string(&self) -> (r: String)
        ensures
            r@ == error_text(self),
    {
        let mut s = String::new();
        match self {
            LexoraError::UnexpectedToken { expected, found, .. } => {
                push_str(&mut s, "beklenen: ");
                push_str(&mut s, expected.as_str());
                push_str(&mut s, ", bulunan: ");
                push_str(&mut s, found.as_str());
            },
            LexoraError::UndefinedVariable { name, .. } => {
                push_str(&mut s, "tanimsiz degisken: ");
                push_str(&mut s, name.as_str());
            },
            LexoraError::UndefinedFunction { name, .. } => {
                push_str(&mut s, "tanimsiz fonksiyon: ");
                push_str(&mut s, name.as_str());
            },
            LexoraError::TypeMismatch { expected, found, .. } => {
                push_str(&mut s, "Tip uyusmazl\u{131}g\u{131}: beklenen ");
                push_str(&mut s, expected.as_str());
                push_str(&mut s, ", bulunan ");
                push_str(&mut s, found.as_str());
            },
            LexoraError::AlreadyDefined { name, .. } => {
                push_str(&mut s, "Zaten tan\u{131}mli '");
                push_str(&mut s, name.as_str());
                push_str(&mut s, "'");
            },
            LexoraError::InvalidCast { from, to, .. } => {
                push_str(&mut s, "Gecersiz cast: ");
                push_str(&mut s, from.as_str());
                push_str(&mut s, " -> ");
                push_str(&mut s, to.as_str());
            },
            LexoraError::Custom { message, .. } => {
                push_str(&mut s, message.as_str());
            },
            LexoraError::Codegen { message } => {
                push_str(&mut s, "ic derleyici hatasi (codegen): ");
                push_str(&mut s, message.as_str());
            },
        }
        assert(s@ =~= error_text(self));
        s
    }
}

} // verus!
