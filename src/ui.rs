use vstd::prelude::*;

verus! {

/// `s` cut to `width` characters, the last of them an ellipsis, where it is longer.
pub open spec fn truncated(s: Seq<char>, width: nat) -> Seq<char> {
    if s.len() <= width {
        s
    } else {
        let keep: int = if width >= 1 { width - 1 } else { 0 };
        s.take(keep) + "…"@
    }
}

pub open spec fn spaces(n: nat) -> Seq<char> {
    Seq::new(n, |i: int| ' ')
}

/// `s` filled with spaces on the right to `width` characters.
pub open spec fn padded(s: Seq<char>, width: nat) -> Seq<char> {
    if s.len() >= width { s } else { s + spaces((width - s.len()) as nat) }
}

/// A framed line of `total_width` characters holding the start of `content`.
pub open spec fn summary_line(total_width: nat, content: Seq<char>) -> Seq<char> {
    let inner: nat = if total_width >= 2 { (total_width - 2) as nat } else { 0 };
    let clipped = if content.len() <= inner { content } else { content.take(inner as int) };
    "│"@ + padded(clipped, inner) + "│"@
}

pub fn truncate(s: &str, width: usize) -> (r: String)
    ensures
        r@ == truncated(s@, width as nat),
{
    let n = s.unicode_len();
    if n <= width {
        return s.to_string();
    }
    let keep: usize = if width >= 1 { width - 1 } else { 0 };
    let mut out = String::from_str(s.substring_char(0, keep));
    out.append("…");
    out
}

pub fn pad(s: &str, width: usize) -> (r: String)
    ensures
        r@ == padded(s@, width as nat),
{
    let n = s.unicode_len();
    let mut out = String::from_str(s);
    if n >= width {
        return out;
    }
    let mut k: usize = 0;
    while k < width - n
        invariant
            n == s@.len(),
            n < width,
            k <= width - n,
            out@ == s@ + spaces(k as nat),
        decreases width - n - k,
    {
        out.append(" ");
        proof { reveal_strlit(" "); }
        assert(out@ =~= s@ + spaces((k + 1) as nat));
        k = k + 1;
    }
    out
}

pub fn make_summary_line(total_width: usize, content: &str) -> (r: String)
    ensures
        r@ == summary_line(total_width as nat, content@),
{
    let inner: usize = if total_width >= 2 { total_width - 2 } else { 0 };
    let n = content.unicode_len();
    let clipped: &str = if n <= inner { content } else { content.substring_char(0, inner) };
    let mut out = String::from_str("│");
    let body = pad(clipped, inner);
    out.append(body.as_str());
    out.append("│");
    out
}

} // verus!
