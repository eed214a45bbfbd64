//! Extracting `{id, code, description}` records from logical entries.
//!
//! An entry matches when, after leading whitespace, it starts with an id of
//! digit-groups joined by `-`. An optional parenthesized classification code
//! (letters, then digits, whitespace tolerated and removed) may follow; the
//! remainder, with all whitespace removed, is the description. Entries that do
//! not match are silently dropped.

use vstd::prelude::*;
use vstd::string::*;

use crate::text::CharClass;
use crate::text::is_digit;
use crate::text::is_digit_c;
use crate::text::is_space;
use crate::text::scan;
use crate::text::scan_from;
use crate::text::lemma_scan;
use crate::text::strip_spaces;
use crate::text::strip_spaces_exec;
use crate::text::seq_views;

verus! {

/// The mathematical model of one record: views of the three fields.
#[verifier::ext_equal]
pub struct CatModel {
    pub id: Seq<char>,
    pub code: Option<Seq<char>>,
    pub desc: Option<Seq<char>>,
}

/// One classification record. The id is kept verbatim (leading zeros and
/// dashes preserved); code and description carry no whitespace. The parser
/// always produces a present description, possibly empty: absence and
/// emptiness are deliberately not distinguished.
#[derive(Debug, Clone)]
pub struct Category {
    pub id: String,
    pub code: Option<String>,
    pub desc: Option<String>,
}

impl View for Category {
    type V = CatModel;

    open spec fn view(&self) -> CatModel {
        CatModel {
            id: self.id@,
            code: match self.code {
                Some(c) => Some(c@),
                None => None,
            },
            desc: match self.desc {
                Some(d) => Some(d@),
                None => None,
            },
        }
    }
}

/// Where the id ends: digit-groups each followed by at most one dash, started
/// at a digit position `i`; a trailing dash is included.
pub open spec fn id_end(s: Seq<char>, i: nat) -> nat
    decreases s.len() - i,
{
    let d = scan(s, CharClass::Digit, i);
    if i < d <= s.len() {
        if d < s.len() && s[d as int] == '-' {
            if d + 1 < s.len() && is_digit(s[d as int + 1]) {
                id_end(s, (d + 1) as nat)
            } else {
                (d + 1) as nat
            }
        } else {
            d
        }
    } else {
        i
    }
}

/// The parenthesized code block at position `e`, if the text has one there:
/// the stored code (letters and digits, whitespace removed) and the position
/// right after the closing parenthesis.
pub open spec fn spec_code(s: Seq<char>, e: nat) -> Option<(Seq<char>, nat)> {
    let a = scan(s, CharClass::Space, e);
    if a < s.len() && s[a as int] == '(' {
        let g = scan(s, CharClass::Space, (a + 1) as nat);
        let lend = scan(s, CharClass::Letter, g);
        if lend > g {
            let h = scan(s, CharClass::Space, lend);
            let dend = scan(s, CharClass::Digit, h);
            if dend > h {
                let t = scan(s, CharClass::Space, dend);
                if t < s.len() && s[t as int] == ')' {
                    Some((strip_spaces(s.subrange(g as int, dend as int)), (t + 1) as nat))
                } else {
                    None
                }
            } else {
                None
            }
        } else {
            None
        }
    } else {
        None
    }
}

/// What parsing one logical entry yields.
pub open spec fn parse_entry_spec(s: Seq<char>) -> Option<CatModel> {
    let w = scan(s, CharClass::Space, 0);
    if w < s.len() && is_digit(s[w as int]) {
        let e = id_end(s, w);
        let code = spec_code(s, e);
        let ds = match code {
            Some(p) => p.1,
            None => e,
        };
        Some(
            CatModel {
                id: s.subrange(w as int, e as int),
                code: match code {
                    Some(p) => Some(p.0),
                    None => None,
                },
                desc: Some(strip_spaces(s.subrange(ds as int, s.len() as int))),
            },
        )
    } else {
        None
    }
}

proof fn lemma_id_end_bounds(s: Seq<char>, i: nat)
    requires
        i < s.len(),
        is_digit(s[i as int]),
    ensures
        i < id_end(s, i) <= s.len(),
    decreases s.len() - i,
{
    lemma_scan(s, CharClass::Digit, i);
    let d = scan(s, CharClass::Digit, i);
    assert(d > i);
    if d < s.len() && s[d as int] == '-' && d + 1 < s.len() && is_digit(s[d as int + 1]) {
        lemma_id_end_bounds(s, (d + 1) as nat);
    }
}

/// Where the id of `s` ends, as executable code.
fn id_end_exec(s: &str, from: usize) -> (r: usize)
    requires
        from < s@.len(),
        is_digit(s@[from as int]),
    ensures
        r == id_end(s@, from as nat),
        from < r <= s@.len(),
{
    let n = s.unicode_len();
    let mut i = from;
    loop
        invariant
            i < n,
            n == s@.len(),
            is_digit(s@[i as int]),
            id_end(s@, from as nat) == id_end(s@, i as nat),
            from <= i,
        decreases n - i,
    {
        proof {
            lemma_id_end_bounds(s@, i as nat);
        }
        let d = scan_from(s, CharClass::Digit, i);
        if d < n && s.get_char(d) == '-' {
            if d + 1 < n && is_digit_c(s.get_char(d + 1)) {
                i = d + 1;
            } else {
                return d + 1;
            }
        } else {
            return d;
        }
    }
}

/// The view of an optional record.
pub open spec fn opt_cat_view(r: Option<Category>) -> Option<CatModel> {
    match r {
        Some(c) => Some(c@),
        None => None,
    }
}

/// Parses one logical entry; entries without the id prefix yield `None`.
pub fn parse_entry(s: &str) -> (r: Option<Category>)
    ensures
        opt_cat_view(r) == parse_entry_spec(s@),
{
    let n = s.unicode_len();
    let w = scan_from(s, CharClass::Space, 0);
    if w == n {
        return None;
    }
    if !is_digit_c(s.get_char(w)) {
        return None;
    }
    let e = id_end_exec(s, w);
    let id = String::from_str(s.substring_char(w, e));
    let mut code: Option<String> = None;
    let mut ds: usize = e;
    let a = scan_from(s, CharClass::Space, e);
    if a < n && s.get_char(a) == '(' {
        let g = scan_from(s, CharClass::Space, a + 1);
        let lend = scan_from(s, CharClass::Letter, g);
        if lend > g {
            let h = scan_from(s, CharClass::Space, lend);
            let dend = scan_from(s, CharClass::Digit, h);
            if dend > h {
                let t = scan_from(s, CharClass::Space, dend);
                if t < n && s.get_char(t) == ')' {
                    code = Some(strip_spaces_exec(s.substring_char(g, dend)));
                    ds = t + 1;
                }
            }
        }
    }
    let desc = strip_spaces_exec(s.substring_char(ds, n));
    Some(Category { id, code, desc: Some(desc) })
}

/// The records of a sequence of entries, in order, non-matching entries
/// dropped.
pub open spec fn spec_parse_entries(es: Seq<Seq<char>>) -> Seq<CatModel>
    decreases es.len(),
{
    if es.len() == 0 {
        Seq::empty()
    } else {
        spec_parse_entries(es.drop_last()) + match parse_entry_spec(es.last()) {
            Some(c) => seq![c],
            None => Seq::empty(),
        }
    }
}

/// The views of a sequence of records.
pub open spec fn cat_views(v: Seq<Category>) -> Seq<CatModel> {
    Seq::new(v.len(), |i: int| v[i]@)
}

pub proof fn lemma_cat_views_push(v: Seq<Category>, x: Category)
    ensures
        cat_views(v.push(x)) == cat_views(v).push(x@),
{
    assert(cat_views(v.push(x)) =~= cat_views(v).push(x@));
}

/// Parses each entry, keeping matches in order and dropping the rest.
pub fn parse_categories(chunks: &Vec<String>) -> (out: Vec<Category>)
    ensures
        cat_views(out@) == spec_parse_entries(seq_views(chunks@)),
{
    let mut out: Vec<Category> = Vec::new();
    let mut i: usize = 0;
    proof {
        assert(cat_views(out@) =~= spec_parse_entries(seq_views(chunks@).take(0)));
    }
    while i < chunks.len()
        invariant
            i <= chunks@.len(),
            cat_views(out@) == spec_parse_entries(seq_views(chunks@).take(i as int)),
        decreases chunks@.len() - i,
    {
        proof {
            assert(seq_views(chunks@).take(i + 1).drop_last() =~= seq_views(chunks@).take(i as int));
            assert(seq_views(chunks@).take(i + 1).last() == chunks@[i as int]@);
        }
        let ci: &String = &chunks[i];
        let ghost old_out = out@;
        match parse_entry(ci.as_str()) {
            Some(c) => {
                out.push(c);
                proof {
                    lemma_cat_views_push(old_out, out@.last());
                }
            },
            None => {
                proof {
                    assert(cat_views(out@) + Seq::<CatModel>::empty() =~= cat_views(out@));
                }
            },
        }
        i = i + 1;
    }
    proof {
        assert(seq_views(chunks@).take(chunks@.len() as int) =~= seq_views(chunks@));
    }
    out
}

/// No character of `l` is whitespace.
pub open spec fn no_spaces(l: Seq<char>) -> bool {
    forall|k: int| 0 <= k < l.len() ==> !is_space(#[trigger] l[k])
}

proof fn lemma_strip_no_spaces(l: Seq<char>)
    ensures
        no_spaces(strip_spaces(l)),
    decreases l.len(),
{
    if l.len() > 0 {
        lemma_strip_no_spaces(l.drop_last());
    }
}

/// For any entry the parser accepts, the extracted id is the literal substring
/// between the leading whitespace and the id's end — leading zeros and
/// internal dash structure preserved — and the stored code and description
/// carry no whitespace at all.
pub proof fn lemma_parse_shape(s: Seq<char>, c: CatModel)
    requires
        parse_entry_spec(s) == Some(c),
    ensures
        c.id == s.subrange(
            scan(s, CharClass::Space, 0) as int,
            id_end(s, scan(s, CharClass::Space, 0)) as int,
        ),
        forall|k: int| 0 <= k < scan(s, CharClass::Space, 0) ==> is_space(#[trigger] s[k]),
        c.desc is Some,
        c.desc matches Some(d) && no_spaces(d),
        c.code matches Some(cd) ==> no_spaces(cd),
{
    lemma_scan(s, CharClass::Space, 0);
    let w = scan(s, CharClass::Space, 0);
    let e = id_end(s, w);
    let ds = match spec_code(s, e) {
        Some(p) => p.1,
        None => e,
    };
    lemma_strip_no_spaces(s.subrange(ds as int, s.len() as int));
    match spec_code(s, e) {
        Some(p) => {
            let g = scan(s, CharClass::Space, (scan(s, CharClass::Space, e) + 1) as nat);
            let dend = scan(s, CharClass::Digit, scan(s, CharClass::Space, scan(s, CharClass::Letter, g)));
            lemma_strip_no_spaces(s.subrange(g as int, dend as int));
        },
        None => {},
    }
}

} // verus!
