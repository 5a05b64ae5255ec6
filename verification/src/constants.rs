//! Names and markers shared by the preprocessor and the object rewriting.
use vstd::prelude::*;

verus! {

/// Prefix given to the stub function that stands for an INCLUDE_ASM
/// function in the compiled C file.
pub const FUNCTION_PREFIX: &'static str = "___mw___";

/// What a leading `@` (or a `.`) of a symbol name becomes in C.
pub const SYMBOL_AT: &'static str = "__at__";

/// What a `$` of a symbol name becomes in C.
pub const SYMBOL_DOLLAR: &'static str = "__dollar__";

/// The suffix of a label line that marks its symbol as local.
pub const LOCAL_SUFFIX: &'static str = ", local";

/// The character that marks a symbol as local when it occurs in its name.
pub const DOLLAR_SIGN: &'static str = "$";

} // verus!
