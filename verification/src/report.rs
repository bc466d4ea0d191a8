use vstd::prelude::*;
use vstd::string::StringExecFns;
use crate::paths::DirPath;

verus! {

/// The decimal digit character for `d`.
pub open spec fn dec_digit(d: int) -> char {
    if d == 0 {
        '0'
    } else if d == 1 {
        '1'
    } else if d == 2 {
        '2'
    } else if d == 3 {
        '3'
    } else if d == 4 {
        '4'
    } else if d == 5 {
        '5'
    } else if d == 6 {
        '6'
    } else if d == 7 {
        '7'
    } else if d == 8 {
        '8'
    } else {
        '9'
    }
}

/// The usual decimal rendering of a non-negative number, most significant
/// digit first, with no leading zeroes.
pub open spec fn decimal_digits(n: int) -> Seq<char>
    recommends
        0 <= n,
    decreases n,
{
    if n < 10 {
        seq![dec_digit(n)]
    } else {
        decimal_digits(n / 10).push(dec_digit(n % 10))
    }
}

fn digit_str(d: u64) -> (r: &'static str)
    requires
        d < 10,
    ensures
        r@ == seq![dec_digit(d as int)],
{
    if d == 0 {
        proof {
            reveal_strlit("0");
            assert("0"@ =~= seq!['0']);
        }
        "0"
    } else if d == 1 {
        proof {
            reveal_strlit("1");
            assert("1"@ =~= seq!['1']);
        }
        "1"
    } else if d == 2 {
        proof {
            reveal_strlit("2");
            assert("2"@ =~= seq!['2']);
        }
        "2"
    } else if d == 3 {
        proof {
            reveal_strlit("3");
            assert("3"@ =~= seq!['3']);
        }
        "3"
    } else if d == 4 {
        proof {
            reveal_strlit("4");
            assert("4"@ =~= seq!['4']);
        }
        "4"
    } else if d == 5 {
        proof {
            reveal_strlit("5");
            assert("5"@ =~= seq!['5']);
        }
        "5"
    } else if d == 6 {
        proof {
            reveal_strlit("6");
            assert("6"@ =~= seq!['6']);
        }
        "6"
    } else if d == 7 {
        proof {
            reveal_strlit("7");
            assert("7"@ =~= seq!['7']);
        }
        "7"
    } else if d == 8 {
        proof {
            reveal_strlit("8");
            assert("8"@ =~= seq!['8']);
        }
        "8"
    } else {
        proof {
            reveal_strlit("9");
            assert("9"@ =~= seq!['9']);
        }
        "9"
    }
}

/// Renders a count in decimal.
pub fn format_u64(n: u64) -> (r: String)
    ensures
        r@ == decimal_digits(n as int),
    decreases n,
{
    if n < 10 {
        digit_str(n).to_owned()
    } else {
        let mut s = format_u64(n / 10);
        s.append(digit_str(n % 10));
        proof {
            assert(decimal_digits((n / 10) as int).push(dec_digit((n % 10) as int))
                =~= decimal_digits((n / 10) as int) + seq![dec_digit((n % 10) as int)]);
        }
        s
    }
}

/// What `indicatif` renders a byte count as: a function of the count alone.
pub uninterp spec fn human_bytes_of(n: u64) -> Seq<char>;

/// Relies on indicatif::HumanBytes: the human-readable rendering of a byte
/// count, determined by the count alone.
#[verifier::external_body]
pub(crate) fn format_human_bytes(n: u64) -> (r: String)
    ensures
        r@ == human_bytes_of(n),
{
    format!("{}", indicatif::HumanBytes(n))
}

/// A slash before every component: what a relative path looks like when hung
/// under an absolute root, last component last.
pub open spec fn slash_joined(parts: Seq<Seq<char>>) -> Seq<char>
    decreases parts.len(),
{
    if parts.len() == 0 {
        Seq::empty()
    } else {
        slash_joined(parts.drop_last()) + seq!['/'] + parts.last()
    }
}

/// Renders a root-relative path under its absolute root, the way the scanned
/// directories are shown to the operator.
pub fn render_path(root: &str, p: &DirPath) -> (r: String)
    ensures
        r@ == root@ + slash_joined(p@),
{
    broadcast use crate::paths::lemma_parts_view_len, crate::paths::lemma_parts_view_index;

    let mut out: String = root.to_owned();
    proof {
        assert(out@ =~= root@ + slash_joined(p@.take(0)));
    }
    let mut i: usize = 0;
    while i < p.parts.len()
        invariant
            i <= p.parts.len(),
            p@.len() == p.parts@.len(),
            out@ == root@ + slash_joined(p@.take(i as int)),
        decreases p.parts.len() - i,
    {
        out.append("/");
        out.append(p.parts[i].as_str());
        proof {
            reveal_strlit("/");
            assert("/"@ =~= seq!['/']);
            assert(p@.take(i as int + 1).drop_last() =~= p@.take(i as int));
            assert(p@.take(i as int + 1).last() == p@[i as int]);
            assert(out@ =~= root@ + slash_joined(p@.take(i as int + 1)));
        }
        i = i + 1;
    }
    proof {
        assert(p@.take(p@.len() as int) =~= p@);
    }
    out
}

/// The line shown when the scan found nothing; the run then ends
/// successfully with nothing to do.
pub fn nothing_found_message(root_shown: &str) -> (r: String)
    ensures
        r@ == "No cleanable swim projects found in "@ + root_shown@,
{
    let mut s: String = "No cleanable swim projects found in ".to_owned();
    s.append(root_shown);
    s
}

/// The pre-scan summary: how many projects were found and what deleting
/// every build subtree would reclaim, with the count's plural handled.
pub fn summary_message(count: u64, total: u64) -> (r: String)
    ensures
        r@ == decimal_digits(count as int) + " cleanable swim project"@ + (if count == 1 {
            Seq::<char>::empty()
        } else {
            "s"@
        }) + " found (totalling "@ + human_bytes_of(total) + " potential savings)"@,
{
    let mut s = format_u64(count);
    s.append(" cleanable swim project");
    if count != 1 {
        s.append("s");
    } else {
        proof {
            assert(s@ + Seq::<char>::empty() =~= s@);
        }
    }
    s.append(" found (totalling ");
    let hb = format_human_bytes(total);
    s.append(hb.as_str());
    s.append(" potential savings)");
    s
}

/// The prompt line for one project: its path and its reclaimable size.
pub fn prompt_message(path_shown: &str, size: u64) -> (r: String)
    ensures
        r@ == "  Clean "@ + path_shown@ + "? ("@ + human_bytes_of(size) + ") [y/n] "@,
{
    let mut s: String = "  Clean ".to_owned();
    s.append(path_shown);
    s.append("? (");
    let hb = format_human_bytes(size);
    s.append(hb.as_str());
    s.append(") [y/n] ");
    s
}

/// The line left behind for a confirmed and deleted project.
pub fn cleaned_message(path_shown: &str, size: u64) -> (r: String)
    ensures
        r@ == "Cleaned "@ + path_shown@ + " ("@ + human_bytes_of(size) + ")."@,
{
    let mut s: String = "Cleaned ".to_owned();
    s.append(path_shown);
    s.append(" (");
    let hb = format_human_bytes(size);
    s.append(hb.as_str());
    s.append(").");
    s
}

/// The line left behind for a declined project.
pub fn skipped_message(path_shown: &str, size: u64) -> (r: String)
    ensures
        r@ == "Skipped "@ + path_shown@ + " ("@ + human_bytes_of(size) + ")."@,
{
    let mut s: String = "Skipped ".to_owned();
    s.append(path_shown);
    s.append(" (");
    let hb = format_human_bytes(size);
    s.append(hb.as_str());
    s.append(").");
    s
}

/// The closing line: the bytes freed, or that nothing was cleaned — the
/// all-skipped run and the zero-byte run read the same.
pub fn total_message(total: u64) -> (r: String)
    ensures
        total > 0 ==> r@ == human_bytes_of(total) + " successfully cleaned"@,
        total == 0 ==> r@ == "No projects cleaned"@,
{
    if total > 0 {
        let mut s = format_human_bytes(total);
        s.append(" successfully cleaned");
        s
    } else {
        "No projects cleaned".to_owned()
    }
}

} // verus!
