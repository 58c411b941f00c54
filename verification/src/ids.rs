//! The identifier scheme: every element of the rendered document gets a
//! string identifier derived from its position in the specification tree.
//!
//! A child identifier is the parent identifier, a `-` separator, and the
//! child's decimal index. The scheme is a pure function of its inputs, and
//! distinct sibling indices always yield distinct identifiers
//! (see [`lemma_child_ids_distinct`]).

use vstd::prelude::*;

verus! {

/// The character for a single decimal digit.
pub open spec fn digit_char(d: int) -> char {
    if d == 0 {
        '0'
    } else if d == 1 {
        '1'
    } else if d == 2 {
        '2'
    } else if d == 3 {
        '3'
    } else if d == 4 {
        '4'
    } else if d == 5 {
        '5'
    } else if d == 6 {
        '6'
    } else if d == 7 {
        '7'
    } else if d == 8 {
        '8'
    } else {
        '9'
    }
}

/// The decimal digit sequence of a natural number, most significant first,
/// without leading zeros (`0` is written as one `'0'`).
pub open spec fn spec_dec_nat(n: nat) -> Seq<char>
    decreases n,
{
    if n < 10 {
        seq![digit_char(n as int)]
    } else {
        spec_dec_nat(n / 10) + seq![digit_char((n % 10) as int)]
    }
}

/// The decimal text of an integer: a `-` sign for negative values, then the
/// digits of the magnitude.
pub open spec fn spec_dec_int(v: int) -> Seq<char> {
    if v < 0 {
        seq!['-'] + spec_dec_nat((-v) as nat)
    } else {
        spec_dec_nat(v as nat)
    }
}

/// The identifier of the child with zero-based index `idx` under `parent`.
pub open spec fn spec_child_id(parent: Seq<char>, idx: int) -> Seq<char> {
    parent + seq!['-'] + spec_dec_nat(idx as nat)
}

/// The single-character string for a decimal digit.
fn digit_str(d: u64) -> (r: &'static str)
    requires
        d < 10,
    ensures
        r@ == seq![digit_char(d as int)],
{
    let r: &'static str = match d {
        0 => "0",
        1 => "1",
        2 => "2",
        3 => "3",
        4 => "4",
        5 => "5",
        6 => "6",
        7 => "7",
        8 => "8",
        _ => "9",
    };
    proof {
        reveal_strlit("0");
        reveal_strlit("1");
        reveal_strlit("2");
        reveal_strlit("3");
        reveal_strlit("4");
        reveal_strlit("5");
        reveal_strlit("6");
        reveal_strlit("7");
        reveal_strlit("8");
        reveal_strlit("9");
        assert(r@ =~= seq![digit_char(d as int)]);
    }
    r
}

/// The decimal text of `n`.
pub fn dec_u64(n: u64) -> (s: String)
    ensures
        s@ == spec_dec_nat(n as nat),
    decreases n,
{
    if n < 10 {
        String::from_str(digit_str(n))
    } else {
        let mut s = dec_u64(n / 10);
        let d = digit_str(n % 10);
        s.append(d);
        proof {
            assert(s@ =~= spec_dec_nat(n as nat));
        }
        s
    }
}

/// The decimal text of a zero-based index.
pub fn dec_usize(n: usize) -> (s: String)
    ensures
        s@ == spec_dec_nat(n as nat),
{
    dec_u64(n as u64)
}

/// The decimal text of a signed 8-bit value, with a `-` sign when negative.
pub fn dec_i8(v: i8) -> (s: String)
    ensures
        s@ == spec_dec_int(v as int),
{
    if v < 0 {
        let mag: u64 = (-(v as i64)) as u64;
        let mut s = String::from_str("-");
        let digits = dec_u64(mag);
        s.append(digits.as_str());
        proof {
            reveal_strlit("-");
            assert("-"@ =~= seq!['-']);
            assert(s@ =~= spec_dec_int(v as int));
        }
        s
    } else {
        dec_u64(v as u64)
    }
}

/// Derive the identifier of the child with index `idx` under `parent`.
///
/// Deterministic (a pure function of its inputs) and injective across
/// siblings: see [`lemma_child_ids_distinct`].
pub fn child_id(parent: &str, idx: usize) -> (r: String)
    ensures
        r@ == spec_child_id(parent@, idx as int),
{
    let mut s = parent.to_owned();
    s.append("-");
    let digits = dec_usize(idx);
    s.append(digits.as_str());
    proof {
        reveal_strlit("-");
        assert("-"@ =~= seq!['-']);
        assert(s@ =~= spec_child_id(parent@, idx as int));
    }
    s
}

/// The decimal text of a natural number is never empty, and has at least two
/// characters once the number has two digits.
pub proof fn lemma_dec_nat_len(n: nat)
    ensures
        spec_dec_nat(n).len() >= 1,
        n >= 10 ==> spec_dec_nat(n).len() >= 2,
    decreases n,
{
    if n >= 10 {
        lemma_dec_nat_len(n / 10);
    }
}

/// Distinct natural numbers have distinct decimal texts.
pub proof fn lemma_dec_nat_injective(a: nat, b: nat)
    requires
        a != b,
    ensures
        spec_dec_nat(a) != spec_dec_nat(b),
    decreases a + b,
{
    lemma_dec_nat_len(a);
    lemma_dec_nat_len(b);
    if spec_dec_nat(a) == spec_dec_nat(b) {
        if a < 10 && b < 10 {
            assert(spec_dec_nat(a)[0] == digit_char(a as int));
            assert(spec_dec_nat(b)[0] == digit_char(b as int));
            assert(false);
        } else if a < 10 || b < 10 {
            // one text has one character, the other at least two
            assert(false);
        } else {
            let da = spec_dec_nat(a);
            let db = spec_dec_nat(b);
            assert(da.last() == digit_char((a % 10) as int));
            assert(db.last() == digit_char((b % 10) as int));
            assert(a % 10 == b % 10);
            assert(spec_dec_nat(a / 10) =~= da.take(da.len() - 1));
            assert(spec_dec_nat(b / 10) =~= db.take(db.len() - 1));
            if a / 10 != b / 10 {
                lemma_dec_nat_injective(a / 10, b / 10);
                assert(false);
            }
            assert(a == 10 * (a / 10) + a % 10);
            assert(b == 10 * (b / 10) + b % 10);
            assert(false);
        }
    }
}

/// Sibling identifiers never collide: for two different indices under the
/// same parent identifier, the derived child identifiers differ.
pub proof fn lemma_child_ids_distinct(parent: Seq<char>, i: int, j: int)
    requires
        0 <= i,
        0 <= j,
        i != j,
    ensures
        spec_child_id(parent, i) != spec_child_id(parent, j),
{
    lemma_dec_nat_injective(i as nat, j as nat);
    let si = spec_child_id(parent, i);
    let sj = spec_child_id(parent, j);
    if si == sj {
        let head = parent.len() + 1;
        assert(spec_dec_nat(i as nat) =~= si.skip(head as int));
        assert(spec_dec_nat(j as nat) =~= sj.skip(head as int));
        assert(false);
    }
}

} // verus!
