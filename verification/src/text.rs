//! Textual rendering helpers: decimal form of node identifiers and
//! separator-joined identifier lists, used by the debug renderings of
//! cycles and graphs.

use vstd::prelude::*;

verus! {

/// The digit character for a value below ten.
pub open spec fn digit_char(d: nat) -> char {
    if d == 0 {
        '0'
    } else if d == 1 {
        '1'
    } else if d == 2 {
        '2'
    } else if d == 3 {
        '3'
    } else if d == 4 {
        '4'
    } else if d == 5 {
        '5'
    } else if d == 6 {
        '6'
    } else if d == 7 {
        '7'
    } else if d == 8 {
        '8'
    } else {
        '9'
    }
}

/// The decimal digits of `n`, most significant first.
pub open spec fn decimal_of(n: nat) -> Seq<char>
    decreases n,
{
    if n < 10 {
        seq![digit_char(n)]
    } else {
        decimal_of(n / 10).push(digit_char(n % 10))
    }
}

/// The decimal forms of the identifiers, separated by `sep`.
pub open spec fn joined(ids: Seq<u32>, sep: Seq<char>) -> Seq<char>
    decreases ids.len(),
{
    if ids.len() == 0 {
        Seq::empty()
    } else if ids.len() == 1 {
        decimal_of(ids[0] as nat)
    } else {
        decimal_of(ids[0] as nat) + sep + joined(ids.skip(1), sep)
    }
}

/// Joining one more identifier appends a separator and its decimal form.
pub proof fn lemma_joined_push(ids: Seq<u32>, x: u32, sep: Seq<char>)
    requires
        ids.len() >= 1,
    ensures
        joined(ids.push(x), sep) == joined(ids, sep) + sep + decimal_of(x as nat),
    decreases ids.len(),
{
    let p = ids.push(x);
    assert(p[0] == ids[0]);
    if ids.len() == 1 {
        assert(p.skip(1) =~= seq![x]);
        assert(joined(p.skip(1), sep) == decimal_of(x as nat));
        assert(joined(p, sep) == decimal_of(ids[0] as nat) + sep + decimal_of(x as nat));
        assert(joined(ids, sep) + sep + decimal_of(x as nat) =~= decimal_of(ids[0] as nat) + sep
            + decimal_of(x as nat));
    } else {
        lemma_joined_push(ids.skip(1), x, sep);
        assert(p.skip(1) =~= ids.skip(1).push(x));
        assert(joined(p, sep) == decimal_of(ids[0] as nat) + sep + (joined(ids.skip(1), sep) + sep
            + decimal_of(x as nat)));
        assert(decimal_of(ids[0] as nat) + sep + (joined(ids.skip(1), sep) + sep + decimal_of(
            x as nat,
        )) =~= (decimal_of(ids[0] as nat) + sep + joined(ids.skip(1), sep)) + sep + decimal_of(
            x as nat,
        ));
    }
}

/// The digit character of a value below ten.
pub fn digit_char_exec(d: u32) -> (r: char)
    requires
        d < 10,
    ensures
        r == digit_char(d as nat),
{
    if d == 0 {
        '0'
    } else if d == 1 {
        '1'
    } else if d == 2 {
        '2'
    } else if d == 3 {
        '3'
    } else if d == 4 {
        '4'
    } else if d == 5 {
        '5'
    } else if d == 6 {
        '6'
    } else if d == 7 {
        '7'
    } else if d == 8 {
        '8'
    } else {
        '9'
    }
}

/// Appends the decimal digits of `n` to the output.
pub fn push_decimal(out: &mut Vec<char>, n: u32)
    ensures
        final(out)@ == old(out)@ + decimal_of(n as nat),
    decreases n,
{
    if n < 10 {
        out.push(digit_char_exec(n));
        assert(out@ =~= old(out)@ + decimal_of(n as nat));
    } else {
        push_decimal(out, n / 10);
        let ghost mid = out@;
        out.push(digit_char_exec(n % 10));
        proof {
            assert(decimal_of(n as nat) == decimal_of(n as nat / 10).push(
                digit_char(n as nat % 10),
            ));
            assert(n as nat / 10 == (n / 10) as nat);
            assert(out@ =~= old(out)@ + decimal_of(n as nat));
        }
    }
}

/// Relies on `String::from_iter` over `char`: the string holds exactly the
/// characters of the vector, in order.
#[verifier::external_body]
pub fn string_from_chars(v: &Vec<char>) -> (r: String)
    ensures
        r@ == v@,
{
    v.iter().collect()
}

} // verus!
