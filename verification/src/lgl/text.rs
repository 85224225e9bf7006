use vstd::prelude::*;

verus! {

/// The pieces of `parts` written one after the other, with `sep` between neighbours.
pub open spec fn join(parts: Seq<Seq<char>>, sep: Seq<char>) -> Seq<char>
    decreases parts.len(),
{
    if parts.len() == 0 {
        Seq::empty()
    } else if parts.len() == 1 {
        parts[0]
    } else {
        join(parts.drop_last(), sep) + sep + parts.last()
    }
}

/// Convert a slice of already formatted items into a one-line String.
pub fn slice_to_line(v: &[String], sep: &str) -> (line: String)
    ensures
        line@ == join(v@.map_values(|s: String| s@), sep@),
{
    let mut line = String::new();
    let ghost parts = v@.map_values(|s: String| s@);
    let mut i: usize = 0;
    while i < v.len()
        invariant
            i <= v.len(),
            parts == v@.map_values(|s: String| s@),
            line@ == join(parts.take(i as int), sep@),
        decreases v.len() - i,
    {
        if i > 0 {
            line.append(sep);
        }
        line.append(v[i].as_str());
        assert(parts.take(i + 1).drop_last() =~= parts.take(i as int));
        i += 1;
    }
    assert(parts.take(v.len() as int) =~= parts);
    line
}

/// The decimal digit `d`.
pub open spec fn digit_char(d: nat) -> char {
    (48 + d) as char
}

/// The decimal digits of `n`.
pub open spec fn nat_digits(n: nat) -> Seq<char>
    decreases n,
{
    if n < 10 {
        seq![digit_char(n)]
    } else {
        nat_digits(n / 10).push(digit_char(n % 10))
    }
}

/// How `Display` writes an integer: its decimal digits, after a '-' when negative.
pub open spec fn dec_string(i: int) -> Seq<char> {
    if i < 0 {
        seq!['-'] + nat_digits((-i) as nat)
    } else {
        nat_digits(i as nat)
    }
}

/// `i.to_string()`.
/// Trusted: that `Display` writes an `isize` in decimal, with a leading '-' when negative.
#[verifier::external_body]
pub fn isize_string(i: isize) -> (s: String)
    ensures
        s@ == dec_string(i as int),
{
    i.to_string()
}

} // verus!
