//! Reporting: render a ranked listing as a human-readable top-N text, with
//! a header line, a fixed-width separator banner, one line per shown entry
//! (1-based rank, count, key), and a trailing blank line.

use vstd::prelude::*;
use vstd::string::{StrSliceExecFns, StringExecFns};
use crate::totals::{views_of, RankedEntry};

verus! {

/// The decimal digit character for one digit value.
pub open spec fn digit_char(d: int) -> char {
    if d == 0 {
        '0'
    } else if d == 1 {
        '1'
    } else if d == 2 {
        '2'
    } else if d == 3 {
        '3'
    } else if d == 4 {
        '4'
    } else if d == 5 {
        '5'
    } else if d == 6 {
        '6'
    } else if d == 7 {
        '7'
    } else if d == 8 {
        '8'
    } else {
        '9'
    }
}

/// The decimal rendering of a non-negative integer, most significant digit
/// first, no leading zeros (a lone zero for zero).
pub open spec fn spec_dec(n: int) -> Seq<char>
    recommends
        n >= 0,
    decreases n,
{
    if n < 10 {
        seq![digit_char(n)]
    } else {
        spec_dec(n / 10).push(digit_char(n % 10))
    }
}

/// A run of `n` spaces (empty when `n` is not positive).
pub open spec fn spaces(n: int) -> Seq<char>
    decreases n,
{
    if n <= 0 {
        Seq::empty()
    } else {
        spaces(n - 1).push(' ')
    }
}

/// A text right-aligned to a field of `w` characters: space-padded on the
/// left when shorter, unchanged when already as wide or wider.
pub open spec fn spec_padded(t: Seq<char>, w: int) -> Seq<char> {
    spaces(w - t.len()) + t
}

/// The separator banner: a fixed-width line of dashes.
pub open spec fn spec_bar() -> Seq<char> {
    "--------------------------------------------------------------------------------"@
}

/// The banner is exactly eighty dash characters.
pub proof fn lemma_bar_width()
    ensures
        spec_bar().len() == 80,
        forall|i: int| 0 <= i < 80 ==> spec_bar()[i] == '-',
{
    reveal_strlit("--------------------------------------------------------------------------------");
}

/// One entry line: the 1-based rank in a 3-wide field, the count in a
/// 6-wide field, then the key, separated by single spaces, ending in a
/// newline.
pub open spec fn spec_line(e: (Seq<char>, int), rank: int) -> Seq<char> {
    spec_padded(spec_dec(rank), 3) + " "@ + spec_padded(spec_dec(e.1), 6) + " "@ + e.0 + "\n"@
}

/// The first `k` entry lines, ranks 1 through `k`.
pub open spec fn spec_lines(entries: Seq<(Seq<char>, int)>, k: int) -> Seq<char>
    recommends
        k <= entries.len(),
    decreases k,
{
    if k <= 0 {
        Seq::empty()
    } else {
        spec_lines(entries, k - 1) + spec_line(entries[k - 1], k)
    }
}

/// The report's head: the "Top {n} {label}:" line and the banner line.
pub open spec fn spec_report_head(label: Seq<char>, top_n: int) -> Seq<char> {
    "Top "@ + spec_dec(top_n) + " "@ + label + ":\n"@ + spec_bar() + "\n"@
}

/// A whole rendered report: head, then one line for each of the first
/// `top_n` entries (all of them when fewer), then a blank line.
pub open spec fn spec_report(label: Seq<char>, entries: Seq<(Seq<char>, int)>, top_n: int) -> Seq<
    char,
> {
    let k = if top_n < entries.len() {
        top_n
    } else {
        entries.len() as int
    };
    spec_report_head(label, top_n) + spec_lines(entries, k) + "\n"@
}

/// With a top-N of zero the report is the head and the blank line only —
/// no entry lines, whatever the entries are.
pub proof fn lemma_report_top_zero(label: Seq<char>, entries: Seq<(Seq<char>, int)>)
    ensures
        spec_report(label, entries, 0) == spec_report_head(label, 0) + "\n"@,
{
    assert(spec_report_head(label, 0) + Seq::<char>::empty() + "\n"@ =~= spec_report_head(label, 0)
        + "\n"@);
}

/// Append one decimal digit.
fn append_digit(out: &mut String, d: u64)
    requires
        d <= 9,
    ensures
        final(out)@ == old(out)@ + seq![digit_char(d as int)],
{
    if d == 0 {
        proof {
            reveal_strlit("0");
            assert("0"@ =~= seq![digit_char(0)]);
        }
        out.append("0");
    } else if d == 1 {
        proof {
            reveal_strlit("1");
            assert("1"@ =~= seq![digit_char(1)]);
        }
        out.append("1");
    } else if d == 2 {
        proof {
            reveal_strlit("2");
            assert("2"@ =~= seq![digit_char(2)]);
        }
        out.append("2");
    } else if d == 3 {
        proof {
            reveal_strlit("3");
            assert("3"@ =~= seq![digit_char(3)]);
        }
        out.append("3");
    } else if d == 4 {
        proof {
            reveal_strlit("4");
            assert("4"@ =~= seq![digit_char(4)]);
        }
        out.append("4");
    } else if d == 5 {
        proof {
            reveal_strlit("5");
            assert("5"@ =~= seq![digit_char(5)]);
        }
        out.append("5");
    } else if d == 6 {
        proof {
            reveal_strlit("6");
            assert("6"@ =~= seq![digit_char(6)]);
        }
        out.append("6");
    } else if d == 7 {
        proof {
            reveal_strlit("7");
            assert("7"@ =~= seq![digit_char(7)]);
        }
        out.append("7");
    } else if d == 8 {
        proof {
            reveal_strlit("8");
            assert("8"@ =~= seq![digit_char(8)]);
        }
        out.append("8");
    } else {
        proof {
            reveal_strlit("9");
            assert("9"@ =~= seq![digit_char(9)]);
        }
        out.append("9");
    }
}

/// Append the decimal rendering of `n`.
fn append_u64(out: &mut String, n: u64)
    ensures
        final(out)@ == old(out)@ + spec_dec(n as int),
    decreases n,
{
    if n <= 9 {
        append_digit(out, n);
    } else {
        append_u64(out, n / 10);
        append_digit(out, n % 10);
        proof {
            assert(n as int / 10 == (n / 10) as int);
            assert(n as int % 10 == (n % 10) as int);
            assert(old(out)@ + spec_dec(n as int / 10) + seq![digit_char(n as int % 10)] =~= old(
                out,
            )@ + spec_dec(n as int));
        }
    }
}

/// Append the decimal rendering of `n`, right-aligned to `width`.
fn append_padded_u64(out: &mut String, n: u64, width: usize)
    ensures
        final(out)@ == old(out)@ + spec_padded(spec_dec(n as int), width as int),
{
    let mut t = String::new();
    append_u64(&mut t, n);
    proof {
        assert(t@ =~= spec_dec(n as int));
    }
    let l = t.unicode_len();
    let pad: usize = if width > l {
        width - l
    } else {
        0
    };
    let mut j: usize = 0;
    while j < pad
        invariant
            out@ == old(out)@ + spaces(j as int),
            j <= pad,
        decreases pad - j,
    {
        proof {
            reveal_strlit(" ");
            assert(" "@ =~= seq![' ']);
        }
        out.append(" ");
        proof {
            assert(spaces(j as int + 1) == spaces(j as int).push(' '));
            assert(old(out)@ + spaces(j as int) + seq![' '] =~= old(out)@ + spaces(j as int + 1));
        }
        j += 1;
    }
    out.append(t.as_str());
    proof {
        assert(spaces(pad as int) == spaces(width as int - l as int)) by {
            if width <= l {
                assert(pad == 0);
            }
        }
        assert(old(out)@ + spaces(pad as int) + t@ =~= old(out)@ + spec_padded(
            spec_dec(n as int),
            width as int,
        ));
    }
}

/// Render a ranked listing as a top-N report: the header names `top_n` and
/// the label, the banner separates it from the entries, and the first
/// `top_n` entries (all, when fewer) each get one line with their 1-based
/// rank, their count, and their key. A final blank line closes the report.
pub fn report(label: &str, ranked: &Vec<RankedEntry>, top_n: usize) -> (r: String)
    ensures
        r@ == spec_report(label@, views_of(ranked@), top_n as int),
{
    let ghost ev = views_of(ranked@);
    let mut out = String::new();
    out.append("Top ");
    append_u64(&mut out, top_n as u64);
    out.append(" ");
    out.append(label);
    out.append(":\n");
    out.append(
        "--------------------------------------------------------------------------------",
    );
    out.append("\n");
    proof {
        assert(out@ =~= spec_report_head(label@, top_n as int));
        assert(out@ + Seq::<char>::empty() =~= out@);
    }
    let n = ranked.len();
    let mut i: usize = 0;
    while i < top_n && i < n
        invariant
            out@ == spec_report_head(label@, top_n as int) + spec_lines(ev, i as int),
            i <= n,
            n == ranked@.len(),
            ev == views_of(ranked@),
            i <= top_n,
        decreases n - i,
    {
        let ghost before = out@;
        let e: &RankedEntry = &ranked[i];
        append_padded_u64(&mut out, (i as u64) + 1, 3);
        out.append(" ");
        append_padded_u64(&mut out, e.total, 6);
        out.append(" ");
        out.append(e.key.as_str());
        out.append("\n");
        proof {
            assert(ev[i as int] == e@);
            assert(out@ =~= before + spec_line(ev[i as int], i as int + 1));
            assert(spec_lines(ev, i as int + 1) == spec_lines(ev, i as int) + spec_line(
                ev[i as int],
                i as int + 1,
            ));
            assert(out@ =~= spec_report_head(label@, top_n as int) + spec_lines(ev, i as int + 1));
        }
        i += 1;
    }
    out.append("\n");
    proof {
        let k = if (top_n as int) < ev.len() {
            top_n as int
        } else {
            ev.len() as int
        };
        assert(i as int == k);
        assert(out@ =~= spec_report(label@, ev, top_n as int));
    }
    out
}

} // verus!
