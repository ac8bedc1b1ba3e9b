use vstd::prelude::*;

verus! {

/// Everything that can go wrong while encoding or decoding catspeak.
#[derive(Debug, Clone, Copy, PartialEq, Eq, Structural)]
pub enum CatError {
    /// The requested base is zero or larger than the alphabet.
    BaseOutOfRange,
    /// Text input holds a character other than a letter or a space.
    InvalidCharacter,
    /// A token is not part of the active alphabet.
    UnknownToken,
    /// A token group does not hold exactly `width` tokens.
    MalformedGroupLength,
    /// No bounded width exists for the base.
    WidthOverflow,
    /// A value does not fit in the width or in the target type.
    ValueOutOfRange,
}

} // verus!
