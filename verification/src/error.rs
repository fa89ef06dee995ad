use vstd::prelude::*;

use crate::text::{dec, push_decimal, push_str_chars, str_chars, string_from_chars};

verus! {

/// Errors raised while building or parsing a CPU core range.
#[derive(Debug)]
pub enum UtilError {
    /// The machine reported no usable CPU cores.
    NoCpuCores,
    /// A comma-separated item was neither a core number nor a `start-end` range.
    InvalidCpuCoreRange(String),
    /// A requested core is not among the cores the current thread may run on.
    CpuCoreNotFound(usize),
}

/// The mathematical value of a [`UtilError`]: the text it carries is a sequence of chars.
pub enum UtilErrorView {
    NoCpuCores,
    InvalidCpuCoreRange(Seq<char>),
    CpuCoreNotFound(usize),
}

impl View for UtilError {
    type V = UtilErrorView;

    open spec fn view(&self) -> UtilErrorView {
        match self {
            UtilError::NoCpuCores => UtilErrorView::NoCpuCores,
            UtilError::InvalidCpuCoreRange(s) => UtilErrorView::InvalidCpuCoreRange(s@),
            UtilError::CpuCoreNotFound(c) => UtilErrorView::CpuCoreNotFound(*c),
        }
    }
}

/// The text an error is displayed with.
pub open spec fn util_error_message(e: UtilErrorView) -> Seq<char> {
    match e {
        UtilErrorView::NoCpuCores => "util error: no CPU cores found"@,
        UtilErrorView::InvalidCpuCoreRange(t) => "util error: invalid CPU core/range "@ + t,
        UtilErrorView::CpuCoreNotFound(c) => "util error: CPU core "@ + dec(c as nat)
            + " not found"@,
    }
}

impl UtilError {
    /// The text the error is displayed with.
    pub fn message(&self) -> (r: String)
        ensures
            r@ == util_error_message(self@),
    {
        match self {
            UtilError::NoCpuCores => {
                let v = str_chars("util error: no CPU cores found");
                string_from_chars(v.as_slice())
            },
            UtilError::InvalidCpuCoreRange(t) => {
                let mut v = str_chars("util error: invalid CPU core/range ");
                push_str_chars(&mut v, t.as_str());
                string_from_chars(v.as_slice())
            },
            UtilError::CpuCoreNotFound(c) => {
                let mut v = str_chars("util error: CPU core ");
                push_decimal(&mut v, *c);
                push_str_chars(&mut v, " not found");
                string_from_chars(v.as_slice())
            },
        }
    }
}

} // verus!
