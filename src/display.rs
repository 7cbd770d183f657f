//! Text of the table rows in which packages are listed.
use vstd::prelude::*;
use vstd::string::*;
use pad::PadStr;
use crate::cache_file::{decimal, u64_text};
use crate::catalog::SearchablePackage;

verus! {

/// Number of terminal columns that the `pad` crate measures for a text.
pub uninterp spec fn display_width(s: Seq<char>) -> nat;

/// `n` spaces.
pub open spec fn spaces(n: nat) -> Seq<char> {
    Seq::new(n, |i: int| ' ')
}

/// `s`, measured as `cols` columns, centred in `width` columns: the spare
/// columns split in two, the smaller half on the left. A text at least
/// `width` columns wide is kept as it is.
pub open spec fn centered(s: Seq<char>, width: nat, cols: nat) -> Seq<char> {
    if cols >= width {
        s
    } else {
        let diff = (width - cols) as nat;
        spaces(diff / 2) + s + spaces((diff - diff / 2) as nat)
    }
}

/// The first `n` characters of `s`, or all of it when it is shorter.
pub open spec fn prefix(s: Seq<char>, n: nat) -> Seq<char> {
    if s.len() <= n {
        s
    } else {
        s.subrange(0, n as int)
    }
}

/// `s` centred in `width` columns, as `centered` says.
pub open spec fn cell(s: Seq<char>, width: nat) -> Seq<char> {
    centered(s, width, display_width(s))
}

/// Relies on `pad::PadStr::pad_to_width_with_alignment` with
/// `Alignment::Middle`: spaces around the text, the smaller share on the
/// left, up to the width, by the text's display width.
#[verifier::external_body]
fn pad_middle(s: &str, width: usize) -> (r: String)
    ensures
        r@ == centered(s@, width as nat, display_width(s@)),
{
    s.pad_to_width_with_alignment(width, pad::Alignment::Middle)
}

/// Package `a` of `s` is listed before package `b`: it has more downloads,
/// or as many and comes first in `s`.
pub open spec fn listed_before(s: Seq<SearchablePackage>, a: int, b: int) -> bool {
    s[a].total_downloads > s[b].total_downloads || (s[a].total_downloads == s[b].total_downloads
        && a < b)
}

/// Order of the search list: the indices of `entries`, most downloaded
/// first, packages with equal downloads in their given order.
pub fn by_downloads(entries: &Vec<SearchablePackage>) -> (r: Vec<usize>)
    ensures
        r@.len() == entries@.len(),
        forall|k: int| 0 <= k < r@.len() ==> #[trigger] r@[k] < entries@.len(),
        forall|k: int, l: int|
            0 <= k < l < r@.len() ==> listed_before(entries@, #[trigger] r@[k] as int, #[trigger] r@[l] as int),
{
    let mut r: Vec<usize> = Vec::new();
    let mut i: usize = 0;
    while i < entries.len()
        invariant
            i <= entries.len(),
            r@.len() == i,
            forall|k: int| 0 <= k < r@.len() ==> #[trigger] r@[k] < i,
            forall|k: int, l: int|
                0 <= k < l < r@.len() ==> listed_before(entries@, #[trigger] r@[k] as int, #[trigger] r@[l] as int),
        decreases entries.len() - i,
    {
        let d = entries[i].total_downloads;
        let mut p: usize = 0;
        while p < r.len() && entries[r[p]].total_downloads >= d
            invariant
                p <= r@.len(),
                r@.len() == i,
                i < entries.len(),
                d == entries@[i as int].total_downloads,
                forall|k: int| 0 <= k < r@.len() ==> #[trigger] r@[k] < i,
                forall|k: int| 0 <= k < p ==> entries@[#[trigger] r@[k] as int].total_downloads >= d,
            decreases r@.len() - p,
        {
            p = p + 1;
        }
        let ghost old_r = r@;
        r.insert(p, i);
        assert forall|k: int, l: int|
            0 <= k < l < r@.len() implies listed_before(entries@, #[trigger] r@[k] as int, #[trigger] r@[l] as int) by {
            if l < p {
                assert(r@[k] == old_r[k] && r@[l] == old_r[l]);
            } else if l == p {
                assert(r@[k] == old_r[k]);
            } else if k == p {
                assert(r@[l] == old_r[l - 1]);
                assert(entries@[old_r[p as int] as int].total_downloads < d);
                if l - 1 > p {
                    assert(listed_before(entries@, old_r[p as int] as int, old_r[l - 1] as int));
                }
            } else if k < p {
                assert(r@[k] == old_r[k] && r@[l] == old_r[l - 1]);
            } else {
                assert(r@[k] == old_r[k - 1] && r@[l] == old_r[l - 1]);
            }
        }
        assert forall|k: int| 0 <= k < r@.len() implies #[trigger] r@[k] < i + 1 by {
            if k < p {
                assert(r@[k] == old_r[k]);
            } else if k > p {
                assert(r@[k] == old_r[k - 1]);
            }
        }
        i = i + 1;
    }
    r
}

/// `text` centred in a cell `width` columns wide.
pub fn centered_cell(text: &str, width: usize) -> (r: String)
    ensures
        r@ == cell(text@, width as nat),
{
    pad_middle(text, width)
}

/// The row of a package in the search list: its name, cut to 16
/// characters, its total downloads and its rating, each centred in its
/// column, between bars.
pub fn search_row(p: &SearchablePackage) -> (r: String)
    ensures
        r@ == seq!['|'] + cell(prefix(p.name@, 16), 18) + seq!['|'] + cell(
            decimal(p.total_downloads as int),
            17,
        ) + seq!['|'] + cell(decimal(p.rating_score as int), 14) + seq!['|'],
{
    let len = p.name.as_str().unicode_len();
    let cut: usize = 16;
    let name = if len <= cut {
        p.name.as_str()
    } else {
        p.name.as_str().substring_char(0, cut)
    };
    let downloads = u64_text(p.total_downloads);
    let rating = u64_text(p.rating_score);
    let mut r = String::from_str("|");
    let c1 = pad_middle(name, 18);
    r.append(c1.as_str());
    r.append("|");
    let c2 = pad_middle(downloads.as_str(), 17);
    r.append(c2.as_str());
    r.append("|");
    let c3 = pad_middle(rating.as_str(), 14);
    r.append(c3.as_str());
    r.append("|");
    proof {
        reveal_strlit("|");
    }
    assert(r@ =~= seq!['|'] + cell(prefix(p.name@, 16), 18) + seq!['|'] + cell(
        decimal(p.total_downloads as int),
        17,
    ) + seq!['|'] + cell(decimal(p.rating_score as int), 14) + seq!['|']);
    r
}

} // verus!
