//! Settings of the server that are read at startup.

use vstd::prelude::*;
use vstd::string::*;

use crate::text;

verus! {

/// Why the server does not start with the shared secret it was given.
#[derive(Debug, Clone, Copy, PartialEq, Eq, Structural)]
pub enum SecretError {
    /// There is none.
    Missing,
    /// It holds nothing but white space.
    Blank,
}

/// The shared secret to start with. Without one, anybody could claim any tenant's headers.
pub fn shared_secret(configured: Option<String>) -> (secret: Result<String, SecretError>)
    ensures
        configured is None <==> secret matches Err(SecretError::Missing),
        (configured matches Some(s) && text::trimmed(s@).len() == 0) <==> secret matches Err(
            SecretError::Blank,
        ),
        secret matches Ok(s) ==> configured == Some(s),
{
    match configured {
        Some(s) => if text::is_blank(s.as_str()) {
            Err(SecretError::Blank)
        } else {
            Ok(s)
        },
        None => Err(SecretError::Missing),
    }
}

/// The origins that a comma-separated setting allows: trimmed, in order, blanks left out.
pub fn allowed_origins(setting: &str) -> (origins: Vec<String>)
    ensures
        origins@.map_values(|origin: String| origin@) == text::non_blank(
            text::comma_pieces(setting@),
        ),
{
    text::split_commas(setting)
}

/// Origins are taken piece by piece: those of two settings with a comma between them are those
/// of the one and then those of the other. A setting without a comma gives itself without the
/// white space at its ends, and nothing where it is blank.
pub proof fn lemma_origins_piece_by_piece(a: Seq<char>, b: Seq<char>)
    ensures
        text::non_blank(text::comma_pieces(a.push(',') + b)) == text::non_blank(
            text::comma_pieces(a),
        ) + text::non_blank(text::comma_pieces(b)),
        !a.contains(',') ==> text::non_blank(text::comma_pieces(a)) == if text::trimmed(a).len()
            == 0 {
            Seq::empty()
        } else {
            seq![text::trimmed(a)]
        },
{
    text::lemma_pieces_are_set_apart_by_commas(a, b);
    text::lemma_pieces_are_kept_one_by_one(a, text::comma_pieces(a), text::comma_pieces(b));
}

}
