//! Merging OCR-wrapped physical lines into logical entries.
//!
//! Raw cell text is split into lines, each line loses all whitespace and the
//! three noise characters, and consecutive lines are accumulated into one
//! buffer until a line satisfies the terminal heuristic: it ends with one of a
//! closed catalogue of job-title suffixes, or it ends with the "worker" suffix
//! while the following raw line does not mention "technical personnel", or it
//! contains exactly three dash separators (a fully encoded four-segment id).

use vstd::prelude::*;
use vstd::string::*;

use crate::text::CharClass;
use crate::text::in_class;
use crate::text::clean_line;
use crate::text::contains_sub;
use crate::text::count_char;
use crate::text::ends_with;
use crate::text::ends_with_exec;
use crate::text::contains_sub_exec;
use crate::text::count_char_exec;
use crate::text::clean_line_exec;
use crate::text::strip_spaces;
use crate::text::strip_spaces_exec;
use crate::text::is_space;
use crate::text::is_noise;
use crate::text::lines_exec;
use crate::text::scan;
use crate::text::seq_views;
use crate::text::lemma_seq_views_push;
use crate::text::lemma_scan;
use crate::text::lemma_scan_eq;
use crate::text::spec_lines;
use crate::text::split_on;
use crate::text::split_on_from;

verus! {

/// The closed, ordered catalogue of job-title suffix tokens that end a logical
/// entry. Known-incomplete domain vocabulary, kept in one place so it can be
/// tuned against a regression corpus.
pub open spec fn terminal_suffixes() -> Seq<Seq<char>> {
    seq![
        "责人"@,
        "员"@,
        "护士"@,
        "制片人"@,
        "师"@,
        "官"@,
        "律师"@,
        "医生"@,
        "顾问"@,
        "教师"@,
        "警察"@,
        "经理"@,
        "董事"@,
    ]
}

/// The views of a sequence of string slices.
pub open spec fn str_views(v: Seq<&str>) -> Seq<Seq<char>> {
    Seq::new(v.len(), |i: int| v[i]@)
}

/// The suffix catalogue as executable data, in catalogue order.
pub fn terminal_suffixes_exec() -> (v: Vec<&'static str>)
    ensures
        str_views(v@) == terminal_suffixes(),
{
    let mut v: Vec<&'static str> = Vec::new();
    v.push("责人");
    v.push("员");
    v.push("护士");
    v.push("制片人");
    v.push("师");
    v.push("官");
    v.push("律师");
    v.push("医生");
    v.push("顾问");
    v.push("教师");
    v.push("警察");
    v.push("经理");
    v.push("董事");
    proof {
        assert(str_views(v@) =~= terminal_suffixes());
    }
    v
}

pub open spec fn ends_with_any(line: Seq<char>, sufs: Seq<Seq<char>>) -> bool {
    exists|k: int| 0 <= k < sufs.len() && ends_with(line, sufs[k])
}

/// The ambiguous "worker" suffix ends an entry only when the next raw line
/// does not contain the "technical personnel" phrase.
pub open spec fn worker_terminal(line: Seq<char>, next: Option<Seq<char>>) -> bool {
    ends_with(line, "工"@) && match next {
        Some(nx) => !contains_sub(nx, "技术人员"@),
        None => false,
    }
}

/// The terminal heuristic: does the cleaned line `line` conclude a logical
/// entry, given the whitespace-stripped following raw line `next`?
pub open spec fn line_terminal(line: Seq<char>, next: Option<Seq<char>>) -> bool {
    ||| ends_with_any(line, terminal_suffixes())
    ||| worker_terminal(line, next)
    ||| count_char(line, '-') == 3
}

pub open spec fn opt_str_view(o: Option<&str>) -> Option<Seq<char>> {
    match o {
        Some(x) => Some(x@),
        None => None,
    }
}

pub fn is_terminal_line(line: &str, next: Option<&str>) -> (r: bool)
    ensures
        r == line_terminal(line@, opt_str_view(next)),
{
    let sufs = terminal_suffixes_exec();
    let mut k: usize = 0;
    while k < sufs.len()
        invariant
            k <= sufs.len(),
            str_views(sufs@) == terminal_suffixes(),
            forall|t: int| 0 <= t < k ==> !ends_with(line@, terminal_suffixes()[t]),
        decreases sufs.len() - k,
    {
        let suf: &str = sufs[k];
        if ends_with_exec(line, suf) {
            proof {
                assert(ends_with(line@, terminal_suffixes()[k as int]));
            }
            return true;
        }
        k = k + 1;
    }
    if ends_with_exec(line, "工") {
        match next {
            Some(nx) => {
                if !contains_sub_exec(nx, "技术人员") {
                    return true;
                }
            },
            None => {},
        }
    }
    count_char_exec(line, '-') == 3
}

/// One step of the accumulation loop, stated over the whitespace-stripped
/// lines from position `i` on, with `buf` the in-progress entry.
pub open spec fn reconstruct_from(lines: Seq<Seq<char>>, i: int, buf: Seq<char>) -> Seq<Seq<char>>
    decreases lines.len() - i,
{
    if !(0 <= i < lines.len()) {
        if buf.len() > 0 {
            seq![buf]
        } else {
            Seq::empty()
        }
    } else {
        let cl = clean_line(lines[i]);
        let next = if i + 1 < lines.len() {
            Some(lines[i + 1])
        } else {
            None
        };
        if cl.len() == 0 || line_terminal(cl, next) {
            (if (buf + cl).len() > 0 {
                seq![buf + cl]
            } else {
                Seq::empty()
            }) + reconstruct_from(lines, i + 1, Seq::empty())
        } else {
            reconstruct_from(lines, i + 1, buf + cl)
        }
    }
}

/// The lines of `text`, each with all whitespace removed.
pub open spec fn stripped_lines(text: Seq<char>) -> Seq<Seq<char>> {
    Seq::new(spec_lines(text).len(), |i: int| strip_spaces(spec_lines(text)[i]))
}

/// What `construct_lines` returns: the logical entries of `text`.
pub open spec fn spec_construct_lines(text: Seq<char>) -> Seq<Seq<char>> {
    reconstruct_from(stripped_lines(text), 0, Seq::empty())
}

/// Merges the raw OCR-wrapped lines of one cell text into logical entries.
pub fn construct_lines(text: &str) -> (out: Vec<String>)
    ensures
        seq_views(out@) == spec_construct_lines(text@),
{
    let raw = lines_exec(text);
    let mut stripped: Vec<String> = Vec::new();
    let mut k: usize = 0;
    while k < raw.len()
        invariant
            k <= raw.len(),
            seq_views(raw@) == spec_lines(text@),
            stripped@.len() == k,
            forall|t: int| 0 <= t < k ==> stripped@[t]@ == strip_spaces(raw@[t]@),
        decreases raw.len() - k,
    {
        let li: &String = &raw[k];
        stripped.push(strip_spaces_exec(li.as_str()));
        k = k + 1;
    }
    let ghost ls = stripped_lines(text@);
    proof {
        assert forall|t: int| 0 <= t < stripped@.len() implies stripped@[t]@ == ls[t] by {
            assert(raw@[t]@ == spec_lines(text@)[t]);
        }
        assert(stripped@.len() == ls.len());
    }
    let n = stripped.len();
    let mut out: Vec<String> = Vec::new();
    let mut buffer = String::new();
    let mut i: usize = 0;
    proof {
        assert(seq_views(out@) + reconstruct_from(ls, 0, buffer@) =~= reconstruct_from(
            ls,
            0,
            Seq::empty(),
        ));
    }
    while i < n
        invariant
            i <= n,
            n == stripped@.len(),
            ls.len() == n,
            forall|t: int| 0 <= t < n ==> stripped@[t]@ == ls[t],
            spec_construct_lines(text@) == seq_views(out@) + reconstruct_from(
                ls,
                i as int,
                buffer@,
            ),
        decreases n - i,
    {
        let li: &String = &stripped[i];
        let cleaned = clean_line_exec(li.as_str());
        let nxt: Option<&str> = if i + 1 < n {
            let nl: &String = &stripped[i + 1];
            Some(nl.as_str())
        } else {
            None
        };
        let is_end = cleaned.as_str().unicode_len() == 0 || is_terminal_line(cleaned.as_str(), nxt);
        let ghost old_out = out@;
        let ghost old_buf = buffer@;
        buffer.append(cleaned.as_str());
        if is_end {
            if buffer.as_str().unicode_len() > 0 {
                out.push(buffer);
                proof {
                    lemma_seq_views_push(old_out, out@.last());
                }
            }
            buffer = String::new();
        }
        proof {
            assert(cleaned@ == clean_line(ls[i as int]));
            if is_end {
                if (old_buf + cleaned@).len() > 0 {
                    assert(seq_views(old_out) + (seq![old_buf + cleaned@] + reconstruct_from(
                        ls,
                        i + 1,
                        Seq::empty(),
                    )) =~= seq_views(old_out).push(old_buf + cleaned@) + reconstruct_from(
                        ls,
                        i + 1,
                        Seq::empty(),
                    ));
                } else {
                    assert(seq_views(out@) + (Seq::<Seq<char>>::empty() + reconstruct_from(
                        ls,
                        i + 1,
                        Seq::empty(),
                    )) =~= seq_views(out@) + reconstruct_from(ls, i + 1, Seq::empty()));
                }
            }
        }
        i = i + 1;
    }
    if buffer.as_str().unicode_len() > 0 {
        let ghost old_out = out@;
        let ghost old_buf = buffer@;
        out.push(buffer);
        proof {
            lemma_seq_views_push(old_out, out@.last());
            assert(seq_views(out@) =~= seq_views(old_out) + seq![old_buf]);
        }
    } else {
        proof {
            assert(seq_views(out@) + reconstruct_from(ls, n as int, buffer@) =~= seq_views(out@));
        }
    }
    out
}

/// A line with no whitespace and no noise character: preprocessing leaves it
/// unchanged.
pub open spec fn fully_clean(l: Seq<char>) -> bool {
    forall|k: int| 0 <= k < l.len() ==> !is_space(#[trigger] l[k]) && !is_noise(l[k])
}

/// A line that is terminal without lookahead: it ends with a catalogue suffix
/// or fully encodes a four-segment id.
pub open spec fn simple_terminal(l: Seq<char>) -> bool {
    ends_with_any(l, terminal_suffixes()) || count_char(l, '-') == 3
}

proof fn lemma_clean_id(l: Seq<char>)
    requires
        fully_clean(l),
    ensures
        clean_line(l) == l,
        strip_spaces(l) == l,
    decreases l.len(),
{
    if l.len() > 0 {
        lemma_clean_id(l.drop_last());
        assert(l.drop_last().push(l.last()) =~= l);
    }
}

proof fn lemma_reconstruct_fixed(ls: Seq<Seq<char>>, i: int)
    requires
        0 <= i <= ls.len(),
        forall|j: int|
            0 <= j < ls.len() ==> fully_clean(#[trigger] ls[j]) && ls[j].len() > 0
                && simple_terminal(ls[j]),
    ensures
        reconstruct_from(ls, i, Seq::empty()) == ls.skip(i),
    decreases ls.len() - i,
{
    if i < ls.len() {
        lemma_clean_id(ls[i]);
        assert(Seq::<char>::empty() + ls[i] =~= ls[i]);
        lemma_reconstruct_fixed(ls, i + 1);
        assert(seq![ls[i]] + ls.skip(i + 1) =~= ls.skip(i));
    } else {
        assert(reconstruct_from(ls, i, Seq::empty()) =~= ls.skip(i));
    }
}

/// The entries joined back into one text, one entry per line.
pub open spec fn join_nl(ls: Seq<Seq<char>>) -> Seq<char>
    decreases ls.len(),
{
    if ls.len() == 0 {
        Seq::empty()
    } else if ls.len() == 1 {
        ls[0]
    } else {
        ls[0] + seq!['\n'] + join_nl(ls.drop_first())
    }
}

proof fn lemma_join_last(ls: Seq<Seq<char>>)
    requires
        ls.len() > 0,
        forall|j: int| 0 <= j < ls.len() ==> (#[trigger] ls[j]).len() > 0,
    ensures
        join_nl(ls).len() > 0,
        join_nl(ls).last() == ls.last().last(),
    decreases ls.len(),
{
    if ls.len() > 1 {
        lemma_join_last(ls.drop_first());
        assert(ls.drop_first().last() == ls.last());
    }
}

proof fn lemma_scan_shift(x: Seq<char>, y: Seq<char>, cls: CharClass, p: nat)
    requires
        p <= y.len(),
    ensures
        scan(x + y, cls, (x.len() + p) as nat) == x.len() + scan(y, cls, p),
    decreases y.len() - p,
{
    if p < y.len() && in_class(cls, y[p as int]) {
        lemma_scan_shift(x, y, cls, (p + 1) as nat);
    }
}

proof fn lemma_split_shift(x: Seq<char>, y: Seq<char>, c: char, p: int)
    requires
        0 <= p <= y.len(),
    ensures
        split_on_from(x + y, c, x.len() + p) == split_on_from(y, c, p),
    decreases y.len() - p,
{
    lemma_scan_shift(x, y, CharClass::Not(c), p as nat);
    lemma_scan(y, CharClass::Not(c), p as nat);
    let j = scan(y, CharClass::Not(c), p as nat);
    if j < y.len() {
        lemma_split_shift(x, y, c, j as int + 1);
        assert((x + y).subrange(x.len() + p, x.len() + j as int) =~= y.subrange(p, j as int));
    } else {
        assert((x + y).subrange(x.len() + p, (x + y).len() as int) =~= y.subrange(
            p,
            y.len() as int,
        ));
    }
}

proof fn lemma_lines_of_join(es: Seq<Seq<char>>)
    requires
        forall|j: int|
            0 <= j < es.len() ==> (#[trigger] es[j]).len() > 0 && !es[j].contains('\n'),
    ensures
        spec_lines(join_nl(es)) == es,
    decreases es.len(),
{
    let t = join_nl(es);
    if es.len() == 0 {
        assert(t.subrange(0, 0) =~= Seq::<char>::empty());
        assert(spec_lines(t) =~= es);
    } else if es.len() == 1 {
        assert(forall|k: int| 0 <= k < t.len() ==> t[k] != '\n');
        lemma_scan_eq(t, CharClass::Not('\n'), 0, t.len());
        assert(t.last() != '\n');
        assert(t.subrange(0, t.len() as int) =~= t);
        assert(spec_lines(t) =~= es);
    } else {
        let rest = join_nl(es.drop_first());
        let x = es[0] + seq!['\n'];
        assert(t =~= x + rest);
        lemma_lines_of_join(es.drop_first());
        lemma_join_last(es.drop_first());
        assert(es.drop_first().last() == es.last());
        assert(t.last() == rest.last());
        assert(t.last() != '\n');
        // the first piece of t is es[0]
        assert(forall|k: int| 0 <= k < es[0].len() ==> t[k] != '\n');
        assert(t[es[0].len() as int] == '\n');
        lemma_scan_eq(t, CharClass::Not('\n'), 0, es[0].len());
        assert(t.subrange(0, es[0].len() as int) =~= es[0]);
        lemma_split_shift(x, rest, '\n', 0);
        assert(split_on_from(t, '\n', x.len() as int) == split_on(rest, '\n'));
        assert(rest.last() != '\n');
        assert(split_on(rest, '\n') == es.drop_first());
        assert(split_on_from(t, '\n', 0) =~= seq![es[0]] + es.drop_first());
        assert(seq![es[0]] + es.drop_first() =~= es);
        assert(spec_lines(t) == split_on_from(t, '\n', 0));
    }
}

/// The line reconstructor is idempotent on input already segmented into one
/// logical entry per line: if every line of a text is already clean, non-empty
/// and terminal on its own (a catalogue suffix or a fully encoded four-segment
/// id), reconstruction returns exactly those lines — so running it again on
/// its own output, one entry per line, changes nothing.
pub proof fn lemma_reconstruct_idempotent(entries: Seq<Seq<char>>)
    requires
        forall|j: int|
            0 <= j < entries.len() ==> fully_clean(#[trigger] entries[j]) && entries[j].len() > 0
                && simple_terminal(entries[j]),
    ensures
        spec_construct_lines(join_nl(entries)) == entries,
{
    assert forall|j: int| 0 <= j < entries.len() implies (#[trigger] entries[j]).len() > 0
        && !entries[j].contains('\n') by {
        if entries[j].contains('\n') {
            let k = choose|k: int| 0 <= k < entries[j].len() && entries[j][k] == '\n';
            assert(is_space(entries[j][k]));
        }
    }
    lemma_lines_of_join(entries);
    assert forall|t: int| 0 <= t < entries.len() implies #[trigger] stripped_lines(
        join_nl(entries),
    )[t] == entries[t] by {
        lemma_clean_id(entries[t]);
    }
    assert(stripped_lines(join_nl(entries)) =~= entries);
    lemma_reconstruct_fixed(entries, 0);
    assert(entries.skip(0) =~= entries);
}

/// Running the reconstructor twice over an already-segmented text gives the
/// same entries as running it once.
pub proof fn lemma_reconstruct_twice(entries: Seq<Seq<char>>)
    requires
        forall|j: int|
            0 <= j < entries.len() ==> fully_clean(#[trigger] entries[j]) && entries[j].len() > 0
                && simple_terminal(entries[j]),
    ensures
        spec_construct_lines(join_nl(spec_construct_lines(join_nl(entries)))) ==
            spec_construct_lines(join_nl(entries)),
{
    lemma_reconstruct_idempotent(entries);
}

} // verus!
