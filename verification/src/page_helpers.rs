use vstd::prelude::*;
use ellipse::Ellipse;

verus! {

/// Every character forms a grapheme cluster of its own: plain ASCII with no
/// carriage return (a CR-LF pair would join into one cluster).
pub open spec fn is_simple_text(s: Seq<char>) -> bool {
    forall|i: int| 0 <= i < s.len() ==> (((#[trigger] s[i]) as int) < 128 && s[i] != '\r')
}

/// What `truncate_ellipse` hands back for an arbitrary text.
pub uninterp spec fn ellipsed_of(s: Seq<char>, width: usize) -> Seq<char>;

/// The shape of the ellipsed text when clusters are characters: unchanged
/// if it fits, nothing for width zero, else the first `width` characters
/// followed by three dots.
pub open spec fn ellipse_spec(s: Seq<char>, width: int) -> Seq<char> {
    if s.len() <= width {
        s
    } else if width == 0 {
        Seq::empty()
    } else {
        s.take(width) + "..."@
    }
}

/// Relies on ellipse's truncate_ellipse: a text of at most `width` grapheme
/// clusters is kept whole; a longer one is cut to its first `width`
/// clusters with three dots appended, or to the empty string when `width`
/// is zero. For simple text the clusters are exactly the characters.
#[verifier::external_body]
fn truncate_ellipse(text: &str, width: usize) -> (r: String)
    ensures
        r@ == ellipsed_of(text@, width),
        is_simple_text(text@) ==> r@ == ellipse_spec(text@, width as int),
{
    text.truncate_ellipse(width).to_string()
}

/// A run of spaces.
pub open spec fn spaces(n: int) -> Seq<char>
    decreases n,
{
    if n <= 0 {
        Seq::empty()
    } else {
        spaces(n - 1).push(' ')
    }
}

/// The column text made from the ellipsed form: handed back whole for
/// width zero, trimmed to what follows the first three characters for tiny
/// widths, padded with spaces when the original fit, and otherwise bridged
/// around the cut so the three dots end the column.
pub open spec fn column_of(elp: Seq<char>, fits: bool, width: int) -> Seq<char> {
    let len = elp.len() as int;
    if width == 0 {
        elp
    } else if width <= 3 {
        elp.skip(
            if len < 3 {
                len
            } else {
                3
            },
        )
    } else if fits {
        elp + spaces(width - len)
    } else {
        elp.take(
            if width - 3 <= len {
                width - 3
            } else {
                len
            },
        ) + elp.skip(
            if width <= len {
                width
            } else {
                len
            },
        )
    }
}

/// The full column text of a text and width.
pub open spec fn column_string_spec(s: Seq<char>, width: usize) -> Seq<char> {
    column_of(ellipsed_of(s, width), s.len() <= width, width as int)
}

/// Fit a text into a display column of the given width: long text is cut
/// with a trailing ellipsis, short text is padded with spaces.
pub fn get_column_string(text: &str, width: usize) -> (r: String)
    ensures
        r@ == column_string_spec(text@, width),
        is_simple_text(text@) ==> r@ == column_of(
            ellipse_spec(text@, width as int),
            text@.len() <= width,
            width as int,
        ),
    {
    let elp = truncate_ellipse(text, width);
    let text_len = text.unicode_len();
    if width == 0 {
        elp
    } else if width <= 3 {
        let len = elp.unicode_len();
        let start = if len < 3 {
            len
        } else {
            3
        };
        let r = String::from_str(elp.as_str().substring_char(start, len));
        r
    } else if text_len <= width {
        let len = elp.unicode_len();
        let ghost elp0 = elp@;
        let mut r = elp;
        let mut k: usize = len;
        proof {
            assert(r@ =~= elp0 + spaces(0));
        }
        while k < width
            invariant
                len <= k,
                k <= width || k == len,
                r@ == elp0 + spaces(k - len),
            decreases width - k,
        {
            r.append(" ");
            proof {
                reveal_strlit(" ");
                assert(spaces(k + 1 - len) =~= spaces(k - len).push(' '));
                assert(r@ =~= elp0 + spaces(k + 1 - len));
            }
            k += 1;
        }
        r
    } else {
        let len = elp.unicode_len();
        let a_end = if width - 3 <= len {
            width - 3
        } else {
            len
        };
        let b_start = if width <= len {
            width
        } else {
            len
        };
        let mut r = String::from_str(elp.as_str().substring_char(0, a_end));
        r.append(elp.as_str().substring_char(b_start, len));
        r
    }
}

} // verus!
