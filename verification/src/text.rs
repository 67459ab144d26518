//! Rendering identifiers as text.
use crate::ident::DepId;
use vstd::prelude::*;
use vstd::string::*;

verus! {

/// The character of a decimal digit; `'0'` for anything above nine.
pub open spec fn digit_char(d: nat) -> char {
    if d == 1 {
        '1'
    } else if d == 2 {
        '2'
    } else if d == 3 {
        '3'
    } else if d == 4 {
        '4'
    } else if d == 5 {
        '5'
    } else if d == 6 {
        '6'
    } else if d == 7 {
        '7'
    } else if d == 8 {
        '8'
    } else if d == 9 {
        '9'
    } else {
        '0'
    }
}

/// The decimal numeral of `n`, without leading zeros.
pub open spec fn decimal(n: nat) -> Seq<char>
    decreases n,
{
    if n < 10 {
        seq![digit_char(n)]
    } else {
        decimal(n / 10).push(digit_char(n % 10))
    }
}

/// An identifier as text: both components in decimal, in round brackets.
pub open spec fn id_text(id: DepId) -> Seq<char> {
    seq!['('] + decimal(id.0 as nat) + seq![',', ' '] + decimal(id.1 as nat) + seq![')']
}

/// A path as text: its identifiers in order, joined by an arrow.
pub open spec fn path_text(path: Seq<DepId>) -> Seq<char>
    decreases path.len(),
{
    if path.len() == 0 {
        Seq::empty()
    } else if path.len() == 1 {
        id_text(path[0])
    } else {
        path_text(path.drop_last()) + seq![' ', '-', '>', ' '] + id_text(path.last())
    }
}

fn digit_str(d: u8) -> (s: &'static str)
    requires
        d < 10,
    ensures
        s@ == seq![digit_char(d as nat)],
{
    proof {
        reveal_strlit("0");
        reveal_strlit("1");
        reveal_strlit("2");
        reveal_strlit("3");
        reveal_strlit("4");
        reveal_strlit("5");
        reveal_strlit("6");
        reveal_strlit("7");
        reveal_strlit("8");
        reveal_strlit("9");
    }
    let s = if d == 0 {
        "0"
    } else if d == 1 {
        "1"
    } else if d == 2 {
        "2"
    } else if d == 3 {
        "3"
    } else if d == 4 {
        "4"
    } else if d == 5 {
        "5"
    } else if d == 6 {
        "6"
    } else if d == 7 {
        "7"
    } else if d == 8 {
        "8"
    } else {
        "9"
    };
    s
}

/// Appends the decimal numeral of `n` to `out`.
pub(crate) fn push_decimal(out: &mut String, n: u64)
    ensures
        final(out)@ == old(out)@ + decimal(n as nat),
    decreases n,
{
    if n >= 10 {
        push_decimal(out, n / 10);
    }
    let d: u8 = (n % 10) as u8;
    out.append(digit_str(d));
}

/// Appends the text of `id` to `out`.
pub(crate) fn push_id(out: &mut String, id: DepId)
    ensures
        final(out)@ == old(out)@ + id_text(id),
{
    proof {
        reveal_strlit("(");
        reveal_strlit(", ");
        reveal_strlit(")");
    }
    out.append("(");
    push_decimal(out, id.0);
    out.append(", ");
    push_decimal(out, id.1 as u64);
    out.append(")");
}

/// The text of a path: `(1, 0) -> (2, 0) -> (3, 0)`.
pub(crate) fn render_path(path: &Vec<DepId>) -> (out: String)
    ensures
        out@ == path_text(path@),
{
    let mut out = String::new();
    let mut i: usize = 0;
    while i < path.len()
        invariant
            i <= path.len(),
            out@ == path_text(path@.take(i as int)),
        decreases path.len() - i,
    {
        proof {
            reveal_strlit(" -> ");
        }
        if i > 0 {
            out.append(" -> ");
        }
        push_id(&mut out, path[i]);
        proof {
            let next = path@.take(i + 1);
            assert(next.drop_last() =~= path@.take(i as int));
        }
        i += 1;
    }
    proof {
        assert(path@.take(path.len() as int) =~= path@);
    }
    out
}

} // verus!
