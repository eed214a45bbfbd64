//! Repairing one reading-order defect of top-level category labels, where OCR
//! places the descriptive name before the numeric id/code block. The name is
//! everything before the first ASCII digit; the block runs from that digit
//! through the first closing parenthesis; the repaired label is
//! `<block> <name><rest>`. A label without a digit, without a closing
//! parenthesis, with an empty name, or with the parenthesis more than one
//! position before the digit is reported as not applicable.

use vstd::prelude::*;
use vstd::string::*;

use crate::text::CharClass;
use crate::text::scan;
use crate::text::scan_from;
use crate::text::spec_trim;
use crate::text::trim_exec;

verus! {

/// What normalization yields: `None` when the label is not of the defective
/// shape and the caller must use the raw text unchanged.
pub open spec fn spec_normalize(s: Seq<char>) -> Option<Seq<char>> {
    let d = scan(s, CharClass::NotDigit, 0);
    if d == s.len() {
        None
    } else {
        let name = spec_trim(s.take(d as int));
        if name.len() == 0 {
            None
        } else {
            let p = scan(s, CharClass::Not(')'), 0);
            if p == s.len() {
                None
            } else if p as int + 1 < d {
                None
            } else {
                Some(
                    s.subrange(d as int, p as int + 1) + seq![' '] + name + spec_trim(
                        s.skip(p as int + 1),
                    ),
                )
            }
        }
    }
}

pub open spec fn opt_string_view(o: Option<String>) -> Option<Seq<char>> {
    match o {
        Some(x) => Some(x@),
        None => None,
    }
}

/// Repairs a top-level label whose name was read before its id/code block;
/// yields `None` where the repair does not apply.
pub fn normalize_first_category(text: &str) -> (r: Option<String>)
    ensures
        opt_string_view(r) == spec_normalize(text@),
{
    let n = text.unicode_len();
    let d = scan_from(text, CharClass::NotDigit, 0);
    if d == n {
        return None;
    }
    let name = trim_exec(text.substring_char(0, d));
    proof {
        assert(text@.subrange(0, d as int) =~= text@.take(d as int));
    }
    if name.unicode_len() == 0 {
        return None;
    }
    let p = scan_from(text, CharClass::Not(')'), 0);
    if p == n {
        return None;
    }
    if p + 1 < d {
        return None;
    }
    let number = text.substring_char(d, p + 1);
    let desc = trim_exec(text.substring_char(p + 1, n));
    proof {
        assert(text@.subrange(p as int + 1, n as int) =~= text@.skip(p as int + 1));
    }
    let out = String::from_str(number).concat(" ").concat(name).concat(desc);
    proof {
        reveal_strlit(" ");
        assert(" "@ =~= seq![' ']);
    }
    Some(out)
}

} // verus!
