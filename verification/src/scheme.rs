//! Which tokens separate a number: the presets by country and the custom
//! scheme.

use vstd::prelude::*;

verus! {

/// The two tokens of a style, as sequences of characters: the separator
/// that stands between the groups of the integer part, and the radix that
/// stands before the fractional part.
pub ghost struct Tokens {
    pub separator: Seq<char>,
    pub radix: Seq<char>,
}

impl Tokens {
    /// These tokens with `separator` in place of their separator.
    pub open spec fn with_separator(self, separator: Seq<char>) -> Tokens {
        Tokens { separator, radix: self.radix }
    }

    /// These tokens with `radix` in place of their radix.
    pub open spec fn with_radix(self, radix: Seq<char>) -> Tokens {
        Tokens { separator: self.separator, radix }
    }

    /// The tokens of a custom style in which nothing has been set: both
    /// empty.
    pub open spec fn unset() -> Tokens {
        Tokens { separator: Seq::empty(), radix: Seq::empty() }
    }
}

/// A custom style. Both tokens may be any text, empty or of several
/// characters; nothing about them is checked.
pub struct Scheme<'a> {
    pub(crate) separator: &'a str,
    pub(crate) radix: &'a str,
}

/// The style in which a number is separated: one of the presets, or a
/// custom [`Scheme`].
pub enum Locale<S> {
    English,
    German,
    Canadian,
    Swiss,
    Swiss2,
    Singapore,
    Custom(S),
}

impl<'a> View for Scheme<'a> {
    type V = Tokens;

    closed spec fn view(&self) -> Tokens {
        Tokens { separator: self.separator@, radix: self.radix@ }
    }
}

impl<'a> View for Locale<Scheme<'a>> {
    type V = Tokens;

    /// The tokens that the style stands for.
    open spec fn view(&self) -> Tokens {
        match *self {
            Locale::English => Tokens { separator: seq![','], radix: seq!['.'] },
            Locale::German => Tokens { separator: seq!['.'], radix: seq![','] },
            Locale::Canadian => Tokens { separator: seq![' '], radix: seq!['.'] },
            Locale::Swiss => Tokens { separator: seq!['\''], radix: seq!['.'] },
            Locale::Swiss2 => Tokens { separator: seq!['\''], radix: seq![','] },
            Locale::Singapore => Tokens { separator: seq![','], radix: seq!['\u{b7}'] },
            Locale::Custom(scheme) => scheme@,
        }
    }
}

/// Starts a custom [`Scheme`] in which both tokens are empty; set them with
/// [`Scheme::set_separator`] and [`Scheme::set_radix`].
pub fn custom() -> (scheme: Scheme<'static>)
    ensures
        scheme@ == Tokens::unset(),
{
    proof {
        reveal_strlit("");
    }
    let scheme = Scheme { separator: "", radix: "" };
    assert(scheme@.separator =~= Seq::<char>::empty());
    assert(scheme@.radix =~= Seq::<char>::empty());
    scheme
}

impl<'a> Scheme<'a> {
    /// Sets the token that separates the groups of the integer part, and
    /// leaves the radix as it is.
    pub fn set_separator(self, sep: &'a str) -> (scheme: Scheme<'a>)
        ensures
            scheme@ == self@.with_separator(sep@),
    {
        Scheme { separator: sep, radix: self.radix }
    }

    /// Sets the token that stands between the integer part and the
    /// fractional part, and leaves the separator as it is.
    pub fn set_radix(self, com: &'a str) -> (scheme: Scheme<'a>)
        ensures
            scheme@ == self@.with_radix(com@),
    {
        Scheme { separator: self.separator, radix: com }
    }
}

/// The two tokens are set independently: in whichever order they are set,
/// the outcome is the same, and of two settings of one token the later one
/// stands.
pub proof fn lemma_setters_independent(
    tokens: Tokens,
    separator: Seq<char>,
    radix: Seq<char>,
    other: Seq<char>,
)
    ensures
        tokens.with_separator(separator).with_radix(radix) == tokens.with_radix(
            radix,
        ).with_separator(separator),
        tokens.with_separator(separator).with_radix(radix) == (Tokens { separator, radix }),
        tokens.with_separator(other).with_separator(separator) == tokens.with_separator(
            separator,
        ),
        tokens.with_radix(other).with_radix(radix) == tokens.with_radix(radix),
{
}

/// The separator and the radix of a style, in this order.
pub fn get_separator<'a>(lang: &'a Locale<Scheme>) -> (pair: (&'a str, &'a str))
    ensures
        pair.0@ == lang@.separator,
        pair.1@ == lang@.radix,
{
    proof {
        reveal_strlit(",");
        reveal_strlit(".");
        reveal_strlit(" ");
        reveal_strlit("'");
        reveal_strlit("\u{b7}");
    }
    let pair = match lang {
        Locale::English => (",", "."),
        Locale::German => (".", ","),
        Locale::Canadian => (" ", "."),
        Locale::Swiss => ("'", "."),
        Locale::Swiss2 => ("'", ","),
        Locale::Singapore => (",", "\u{b7}"),
        Locale::Custom(scheme) => (scheme.separator, scheme.radix),
    };
    assert(pair.0@ =~= lang@.separator);
    assert(pair.1@ =~= lang@.radix);
    pair
}

} // verus!
